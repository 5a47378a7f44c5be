//! The schematic elements that a bill of materials is read from.

use vstd::prelude::*;
use crate::text::same_text;

verus! {

/// A named property of a placed symbol (`Reference`, `Value`, ...).
#[derive(Debug)]
pub struct Property {
    pub key: String,
    pub value: String,
}

/// A placed symbol: one graphical unit of a component instance.
#[derive(Debug)]
pub struct Symbol {
    /// Identifier of the library symbol this instance derives from (`Device:R`).
    pub lib_id: String,
    /// Which unit of a multi-unit component this element draws, counted from 1.
    pub unit: u32,
    pub properties: Vec<Property>,
}

/// One element of a schematic; only symbols matter to a bill of materials.
#[derive(Debug)]
pub enum SchemaElement {
    Symbol(Symbol),
    Other,
}

/// A schematic document as the sequence of its elements, in traversal order.
#[derive(Debug)]
pub struct Schema {
    pub elements: Vec<SchemaElement>,
}

/// The value of the first property of `props` whose key is `name`.
pub open spec fn property_of(props: Seq<Property>, name: Seq<char>) -> Option<Seq<char>>
    decreases props.len(),
{
    if props.len() == 0 {
        None
    } else if props[0].key@ == name {
        Some(props[0].value@)
    } else {
        property_of(props.drop_first(), name)
    }
}

/// The characters of an optional string.
pub open spec fn opt_text(o: Option<String>) -> Option<Seq<char>> {
    match o {
        Some(s) => Some(s@),
        None => None,
    }
}

impl Symbol {
    /// The value of the symbol's first property named `name`, if it has one.
    pub fn get_property(&self, name: &str) -> (r: Option<String>)
        ensures
            opt_text(r) == property_of(self.properties@, name@),
    {
        let n = self.properties.len();
        let mut i: usize = 0;
        assert(self.properties@.subrange(0, n as int) =~= self.properties@);
        while i < n
            invariant
                n == self.properties@.len(),
                i <= n,
                property_of(self.properties@, name@) == property_of(
                    self.properties@.subrange(i as int, n as int),
                    name@,
                ),
            decreases n - i,
        {
            let p = &self.properties[i];
            assert(self.properties@.subrange(i as int, n as int).drop_first()
                =~= self.properties@.subrange(i as int + 1, n as int));
            if same_text(p.key.as_str(), name) {
                return Some(p.value.clone());
            }
            i = i + 1;
        }
        None
    }
}

} // verus!
