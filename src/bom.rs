//! Extraction, grouping and ordering of bill-of-materials lines.

use vstd::prelude::*;
use vstd::string::*;
use vstd::multiset::Multiset;
use crate::text::{has_prefix, starts_with};
use crate::reference::{key_le, key_precedes, lemma_key_le_total, lemma_key_le_transitive, normalize, reference};
use crate::schematic::{property_of, Schema, SchemaElement, Symbol};

verus! {

/// One line of a bill of materials.
#[derive(Debug)]
pub struct BomItem {
    /// How many physical parts the line stands for.
    pub amount: usize,
    /// Reference designators of those parts, in traversal order.
    pub references: Vec<String>,
    pub value: String,
    pub footprint: String,
    pub datasheet: String,
    pub description: String,
}

/// The mathematical content of a `BomItem`.
pub struct BomLine {
    pub amount: nat,
    pub references: Seq<Seq<char>>,
    pub value: Seq<char>,
    pub footprint: Seq<char>,
    pub datasheet: Seq<char>,
    pub description: Seq<char>,
}

impl View for BomItem {
    type V = BomLine;

    open spec fn view(&self) -> BomLine {
        BomLine {
            amount: self.amount as nat,
            references: self.references@.map_values(|r: String| r@),
            value: self.value@,
            footprint: self.footprint@,
            datasheet: self.datasheet@,
            description: self.description@,
        }
    }
}

/// The lines of a sequence of items.
pub open spec fn lines_of(items: Seq<BomItem>) -> Seq<BomLine> {
    items.map_values(|b: BomItem| b@)
}

/// Why no bill of materials could be made.
#[derive(Debug)]
pub enum BomError {
    /// A counted symbol lacks the mandatory property of this name.
    MissingProperty(String),
}

/// The error reports the missing property `name`.
pub open spec fn reports_missing(e: BomError, name: Seq<char>) -> bool {
    match e {
        BomError::MissingProperty(n) => n@ == name,
    }
}

/// The library identifier is that of a power symbol (`power:`) or of a
/// mechanical part that is not ordered (`Mechanical:`).
pub open spec fn is_excluded(lib_id: Seq<char>) -> bool {
    starts_with(lib_id, "power:"@) || starts_with(lib_id, "Mechanical:"@)
}

/// The symbol contributes a line: it is the first unit of a component that is
/// neither a power nor a mechanical symbol.
pub open spec fn is_counted(s: Symbol) -> bool {
    s.unit == 1 && !is_excluded(s.lib_id@)
}

/// The first of the mandatory properties (`Reference`, `Value`, `Footprint`,
/// `Datasheet`) that the symbol lacks.
pub open spec fn missing_property(s: Symbol) -> Option<Seq<char>> {
    if property_of(s.properties@, "Reference"@) is None {
        Some("Reference"@)
    } else if property_of(s.properties@, "Value"@) is None {
        Some("Value"@)
    } else if property_of(s.properties@, "Footprint"@) is None {
        Some("Footprint"@)
    } else if property_of(s.properties@, "Datasheet"@) is None {
        Some("Datasheet"@)
    } else {
        None
    }
}

/// The line of one counted symbol that has all mandatory properties.
pub open spec fn line_of(s: Symbol) -> BomLine {
    BomLine {
        amount: 1,
        references: seq![property_of(s.properties@, "Reference"@)->Some_0],
        value: property_of(s.properties@, "Value"@)->Some_0,
        footprint: property_of(s.properties@, "Footprint"@)->Some_0,
        datasheet: property_of(s.properties@, "Datasheet"@)->Some_0,
        description: match property_of(s.properties@, "Description"@) {
            Some(d) => d,
            None => Seq::empty(),
        },
    }
}

/// One line per counted symbol, in traversal order; or the name of the
/// property missing from the first counted symbol that lacks one.
pub open spec fn extract_lines(elems: Seq<SchemaElement>) -> Result<Seq<BomLine>, Seq<char>>
    decreases elems.len(),
{
    if elems.len() == 0 {
        Ok(Seq::empty())
    } else {
        match extract_lines(elems.drop_last()) {
            Err(e) => Err(e),
            Ok(prev) => match elems.last() {
                SchemaElement::Symbol(s) => if !is_counted(s) {
                    Ok(prev)
                } else {
                    match missing_property(s) {
                        Some(name) => Err(name),
                        None => Ok(prev.push(line_of(s))),
                    }
                },
                SchemaElement::Other => Ok(prev),
            },
        }
    }
}

/// Once a prefix of the elements fails, the whole sequence fails the same way.
proof fn lemma_error_persists(elems: Seq<SchemaElement>, i: int)
    requires
        0 <= i <= elems.len(),
        extract_lines(elems.take(i)) is Err,
    ensures
        extract_lines(elems) == extract_lines(elems.take(i)),
    decreases elems.len(),
{
    if i == elems.len() {
        assert(elems.take(i) =~= elems);
    } else {
        assert(elems.drop_last().take(i) =~= elems.take(i));
        lemma_error_persists(elems.drop_last(), i);
    }
}

/// Copies a string.
fn copy_text(s: &String) -> (r: String)
    ensures
        r == *s,
{
    s.clone()
}

/// The line of one counted symbol, or the error for its first missing property.
fn symbol_line(s: &Symbol) -> (r: Result<BomItem, BomError>)
    ensures
        match missing_property(*s) {
            Some(name) => r is Err && reports_missing(r->Err_0, name),
            None => r is Ok && r->Ok_0@ == line_of(*s),
        },
{
    let reference = match s.get_property("Reference") {
        Some(v) => v,
        None => return Err(BomError::MissingProperty("Reference".to_owned())),
    };
    let value = match s.get_property("Value") {
        Some(v) => v,
        None => return Err(BomError::MissingProperty("Value".to_owned())),
    };
    let footprint = match s.get_property("Footprint") {
        Some(v) => v,
        None => return Err(BomError::MissingProperty("Footprint".to_owned())),
    };
    let datasheet = match s.get_property("Datasheet") {
        Some(v) => v,
        None => return Err(BomError::MissingProperty("Datasheet".to_owned())),
    };
    let description = match s.get_property("Description") {
        Some(v) => v,
        None => String::new(),
    };
    let mut references: Vec<String> = Vec::new();
    references.push(reference);
    let item = BomItem { amount: 1, references, value, footprint, datasheet, description };
    assert(item@.references =~= line_of(*s).references);
    Ok(item)
}

/// Whether a symbol contributes a line.
pub fn counts(s: &Symbol) -> (r: bool)
    ensures
        r == is_counted(*s),
{
    s.unit == 1 && !has_prefix(s.lib_id.as_str(), "power:") && !has_prefix(
        s.lib_id.as_str(),
        "Mechanical:",
    )
}

/// One item per counted symbol of the document, in traversal order, each with
/// amount 1 and a single reference.
pub fn extract_items(document: &Schema) -> (r: Result<Vec<BomItem>, BomError>)
    ensures
        match extract_lines(document.elements@) {
            Err(name) => r is Err && reports_missing(r->Err_0, name),
            Ok(lines) => r is Ok && lines_of(r->Ok_0@) == lines,
        },
{
    let n = document.elements.len();
    let mut items: Vec<BomItem> = Vec::new();
    let mut i: usize = 0;
    assert(document.elements@.take(0) =~= Seq::<SchemaElement>::empty());
    assert(lines_of(items@) =~= Seq::<BomLine>::empty());
    while i < n
        invariant
            n == document.elements@.len(),
            i <= n,
            extract_lines(document.elements@.take(i as int)) == Ok::<Seq<BomLine>, Seq<char>>(lines_of(items@)),
        decreases n - i,
    {
        assert(document.elements@.take(i as int + 1).drop_last() =~= document.elements@.take(i as int));
        match &document.elements[i] {
            SchemaElement::Symbol(s) => {
                if counts(s) {
                    match symbol_line(s) {
                        Ok(item) => {
                            let ghost before = items@;
                            items.push(item);
                            assert(lines_of(items@) =~= lines_of(before).push(item@));
                        },
                        Err(e) => {
                            proof {
                                assert(document.elements@.take(i as int + 1).last() == document.elements@[i as int]);
                                assert(document.elements@[i as int] == SchemaElement::Symbol(*s));
                                assert(extract_lines(document.elements@.take(i as int + 1))
                                    == Err::<Seq<BomLine>, Seq<char>>(missing_property(*s)->Some_0));
                                lemma_error_persists(document.elements@, i as int + 1);
                            }
                            return Err(e);
                        },
                    }
                }
            },
            SchemaElement::Other => {},
        }
        i = i + 1;
    }
    assert(document.elements@.take(n as int) =~= document.elements@);
    Ok(items)
}

/// Two lines share the grouping key (value, footprint).
pub open spec fn same_key(a: BomLine, b: BomLine) -> bool {
    a.value == b.value && a.footprint == b.footprint
}

/// The index of the group that a line joins, if some group has its key.
pub open spec fn find_group(groups: Seq<BomLine>, line: BomLine) -> Option<int>
    decreases groups.len(),
{
    if groups.len() == 0 {
        None
    } else if same_key(groups.last(), line) {
        Some(groups.len() - 1)
    } else {
        find_group(groups.drop_last(), line)
    }
}

/// A group found for a line lies in range and has the line's key; with no
/// group found, none has it.
pub proof fn lemma_find_group(groups: Seq<BomLine>, line: BomLine)
    ensures
        match find_group(groups, line) {
            Some(k) => 0 <= k < groups.len() && same_key(groups[k], line),
            None => forall|j: int| 0 <= j < groups.len() ==> !same_key(groups[j], line),
        },
    decreases groups.len(),
{
    if groups.len() > 0 && !same_key(groups.last(), line) {
        lemma_find_group(groups.drop_last(), line);
        assert(forall|j: int| 0 <= j < groups.len() - 1 ==> groups.drop_last()[j] == groups[j]);
    }
}

/// A group after `line` joined it: one more part and its first reference.
pub open spec fn joined(g: BomLine, line: BomLine) -> BomLine {
    BomLine {
        amount: g.amount + 1,
        references: g.references.push(line.references[0]),
        value: g.value,
        footprint: g.footprint,
        datasheet: g.datasheet,
        description: g.description,
    }
}

/// A new group made of `line` alone.
pub open spec fn started(line: BomLine) -> BomLine {
    BomLine {
        amount: 1,
        references: seq![line.references[0]],
        value: line.value,
        footprint: line.footprint,
        datasheet: line.datasheet,
        description: line.description,
    }
}

/// The groups after one more line: it joins the group with its key, or starts one.
pub open spec fn add_to_groups(groups: Seq<BomLine>, line: BomLine) -> Seq<BomLine> {
    match find_group(groups, line) {
        Some(k) => groups.update(k, joined(groups[k], line)),
        None => groups.push(started(line)),
    }
}

/// The lines grouped by (value, footprint), each group in the order its key
/// first appears, each keeping the datasheet and description of its first line.
pub open spec fn group_lines(lines: Seq<BomLine>) -> Seq<BomLine>
    decreases lines.len(),
{
    if lines.len() == 0 {
        Seq::empty()
    } else {
        add_to_groups(group_lines(lines.drop_last()), lines.last())
    }
}

/// Copies a list of strings.
fn copy_texts(v: &Vec<String>) -> (r: Vec<String>)
    ensures
        r@ == v@,
{
    let mut r: Vec<String> = Vec::new();
    let mut i: usize = 0;
    while i < v.len()
        invariant
            i <= v@.len(),
            r@ == v@.take(i as int),
        decreases v@.len() - i,
    {
        r.push(copy_text(&v[i]));
        assert(v@.take(i as int + 1) =~= v@.take(i as int).push(v@[i as int]));
        i = i + 1;
    }
    assert(v@.take(i as int) =~= v@);
    r
}

/// Finds the group that `item` joins.
fn find_group_index(groups: &Vec<BomItem>, item: &BomItem) -> (r: Option<usize>)
    ensures
        match find_group(lines_of(groups@), item@) {
            Some(k) => r is Some && r->Some_0 as int == k,
            None => r is None,
        },
{
    let ghost all = lines_of(groups@);
    let mut j: usize = groups.len();
    assert(all.take(j as int) =~= all);
    while j > 0
        invariant
            j <= groups@.len(),
            all == lines_of(groups@),
            find_group(all, item@) == find_group(all.take(j as int), item@),
        decreases j,
    {
        let g = &groups[j - 1];
        assert(all.take(j as int).last() == g@);
        if g.value == item.value && g.footprint == item.footprint {
            return Some(j - 1);
        }
        assert(all.take(j as int).drop_last() =~= all.take(j as int - 1));
        j = j - 1;
    }
    None
}

/// Groups items by (value, footprint): one item per key, in the order keys
/// first appear, with the references of all its items and their count.
pub fn group_items(items: &Vec<BomItem>) -> (r: Vec<BomItem>)
    requires
        all_referenced(lines_of(items@)),
    ensures
        lines_of(r@) == group_lines(lines_of(items@)),
{
    let ghost src = lines_of(items@);
    let mut groups: Vec<BomItem> = Vec::new();
    let mut i: usize = 0;
    assert(src.take(0) =~= Seq::<BomLine>::empty());
    assert(lines_of(groups@) =~= Seq::<BomLine>::empty());
    while i < items.len()
        invariant
            i <= items@.len(),
            src == lines_of(items@),
            all_referenced(src),
            lines_of(groups@) == group_lines(src.take(i as int)),
            forall|k: int|
                0 <= k < groups@.len() ==> groups@[k].amount == groups@[k].references@.len(),
        decreases items@.len() - i,
    {
        let it = &items[i];
        assert(src[i as int].references.len() > 0);
        assert(src.take(i as int + 1).drop_last() =~= src.take(i as int));
        assert(src.take(i as int + 1).last() == it@);
        let ghost before = lines_of(groups@);
        proof {
            lemma_find_group(before, it@);
        }
        match find_group_index(&groups, it) {
            Some(k) => {
                let g = &groups[k];
                let mut references = copy_texts(&g.references);
                references.push(copy_text(&it.references[0]));
                let amount = references.len();
                let item = BomItem {
                    amount,
                    references,
                    value: copy_text(&g.value),
                    footprint: copy_text(&g.footprint),
                    datasheet: copy_text(&g.datasheet),
                    description: copy_text(&g.description),
                };
                assert(item@.references =~= before[k as int].references.push(it@.references[0]));
                assert(item@ == joined(before[k as int], it@));
                groups.set(k, item);
                assert(lines_of(groups@) =~= before.update(k as int, joined(before[k as int], it@)));
                assert(find_group(before, it@) == Some(k as int));
                assert(lines_of(groups@) == add_to_groups(before, it@));
            },
            None => {
                let mut references: Vec<String> = Vec::new();
                references.push(copy_text(&it.references[0]));
                let item = BomItem {
                    amount: 1,
                    references,
                    value: copy_text(&it.value),
                    footprint: copy_text(&it.footprint),
                    datasheet: copy_text(&it.datasheet),
                    description: copy_text(&it.description),
                };
                assert(item@.references =~= seq![it@.references[0]]);
                groups.push(item);
                assert(lines_of(groups@) =~= before.push(started(it@)));
                assert(lines_of(groups@) == add_to_groups(before, it@));
            },
        }
        assert(group_lines(src.take(i as int + 1)) == add_to_groups(before, it@));
        assert(lines_of(groups@) == add_to_groups(before, it@));
        i = i + 1;
    }
    assert(src.take(i as int) =~= src);
    groups
}

/// The key a line is ordered by: the normalized form of its first reference.
pub open spec fn sort_key(line: BomLine) -> Seq<char> {
    normalize(line.references[0])
}

/// The lines are in ascending order of their keys.
pub open spec fn sorted_by_key(lines: Seq<BomLine>) -> bool {
    forall|i: int, j: int|
        0 <= i < j < lines.len() ==> key_le(sort_key(lines[i]), sort_key(lines[j]))
}

/// Every line has at least one reference.
pub open spec fn all_referenced(lines: Seq<BomLine>) -> bool {
    forall|i: int| 0 <= i < lines.len() ==> lines[i].references.len() > 0
}

/// Inserting one more element adds it to the multiset of a sequence.
proof fn lemma_insert_to_multiset<A>(s: Seq<A>, p: int, x: A)
    requires
        0 <= p <= s.len(),
    ensures
        s.insert(p, x).to_multiset() == s.to_multiset().insert(x),
{
    broadcast use vstd::seq_lib::group_to_multiset_ensures;

    let t = s.insert(p, x);
    t.to_multiset_ensures();
    assert(t.remove(p) =~= s);
    assert(t[p] == x);
    assert(t.contains(x));
    assert(t.to_multiset() =~= s.to_multiset().insert(x));
}

/// Orders items by key, keeping items with equal keys in their given order.
pub fn sort_items(items: Vec<BomItem>) -> (r: Vec<BomItem>)
    requires
        all_referenced(lines_of(items@)),
    ensures
        lines_of(r@).to_multiset() == lines_of(items@).to_multiset(),
        sorted_by_key(lines_of(r@)),
{
    broadcast use vstd::seq_lib::group_to_multiset_ensures;

    let ghost src = lines_of(items@);
    let mut rest = items;
    let mut out: Vec<BomItem> = Vec::new();
    let mut keys: Vec<String> = Vec::new();
    assert(lines_of(out@) =~= Seq::<BomLine>::empty());
    assert(lines_of(rest@) == src);
    while rest.len() > 0
        invariant
            all_referenced(lines_of(rest@)),
            keys@.len() == out@.len(),
            forall|j: int| 0 <= j < keys@.len() ==> keys@[j]@ == sort_key(#[trigger] lines_of(out@)[j]),
            sorted_by_key(lines_of(out@)),
            lines_of(out@).to_multiset().add(lines_of(rest@).to_multiset()) == src.to_multiset(),
        decreases rest@.len(),
    {
        let ghost rest_before = lines_of(rest@);
        let ghost out_before = lines_of(out@);
        let item = rest.pop().unwrap();
        assert(lines_of(rest@) =~= rest_before.drop_last());
        assert(rest_before =~= lines_of(rest@).push(item@));
        assert(rest_before[rest_before.len() - 1] == item@);
        assert(item@.references.len() > 0);
        let key = reference(item.references[0].as_str());
        let mut p: usize = 0;
        while p < keys.len() && !key_precedes(key.as_str(), keys[p].as_str())
            invariant
                p <= keys@.len(),
                keys@.len() == out@.len(),
                forall|j: int| 0 <= j < p ==> !key_le(key@, #[trigger] keys@[j]@),
            decreases keys@.len() - p,
        {
            p = p + 1;
        }
        proof {
            assert forall|j: int| 0 <= j < p implies key_le(keys@[j]@, key@) by {
                lemma_key_le_total(key@, keys@[j]@);
            }
            assert forall|j: int| p <= j < keys@.len() implies key_le(key@, keys@[j]@) by {
                if j > p {
                    assert(keys@[p as int]@ == sort_key(lines_of(out@)[p as int]));
                    assert(keys@[j]@ == sort_key(lines_of(out@)[j]));
                    lemma_key_le_transitive(key@, keys@[p as int]@, keys@[j]@);
                }
            }
        }
        let ghost keys_before = keys@;
        out.insert(p, item);
        keys.insert(p, key);
        proof {
            assert(lines_of(out@) =~= out_before.insert(p as int, item@));
            lemma_insert_to_multiset(out_before, p as int, item@);
            lines_of(rest@).to_multiset_ensures();
            assert(rest_before.to_multiset() == lines_of(rest@).push(item@).to_multiset());
            assert(rest_before.to_multiset() == lines_of(rest@).to_multiset().insert(item@));
            assert(lines_of(out@).to_multiset() == out_before.to_multiset().insert(item@));
            assert(lines_of(out@).to_multiset().add(lines_of(rest@).to_multiset())
                =~= out_before.to_multiset().add(rest_before.to_multiset()));
            assert forall|i: int, j: int| 0 <= i < j < lines_of(out@).len() implies key_le(
                sort_key(lines_of(out@)[i]),
                sort_key(lines_of(out@)[j]),
            ) by {
                assert(keys@[i]@ == sort_key(lines_of(out@)[i]));
                assert(keys@[j]@ == sort_key(lines_of(out@)[j]));
                if i < p && j > p {
                    lemma_key_le_transitive(keys@[i]@, key@, keys@[j]@);
                }
            }
        }
    }
    assert(lines_of(rest@).to_multiset() =~= Multiset::empty());
    assert(lines_of(out@).to_multiset() =~= src.to_multiset());
    out
}

/// Each extracted line stands for one part with one reference.
pub proof fn lemma_extracted_single(elems: Seq<SchemaElement>)
    requires
        extract_lines(elems) is Ok,
    ensures
        forall|i: int|
            0 <= i < extract_lines(elems)->Ok_0.len() ==> (#[trigger] extract_lines(elems)->Ok_0[i]).amount == 1
                && extract_lines(elems)->Ok_0[i].references.len() == 1,
    decreases elems.len(),
{
    if elems.len() > 0 {
        lemma_extracted_single(elems.drop_last());
    }
}

/// Every group has at least one reference.
proof fn lemma_groups_referenced(lines: Seq<BomLine>)
    ensures
        all_referenced(group_lines(lines)),
    decreases lines.len(),
{
    if lines.len() > 0 {
        let prev = group_lines(lines.drop_last());
        lemma_groups_referenced(lines.drop_last());
        lemma_find_group(prev, lines.last());
    }
}

/// `out` is a bill of materials of the elements: their lines, grouped by
/// (value, footprint) when `group` holds, in ascending key order.
pub open spec fn is_bom_of(elems: Seq<SchemaElement>, group: bool, out: Seq<BomLine>) -> bool {
    match extract_lines(elems) {
        Ok(lines) => {
            let src = if group {
                group_lines(lines)
            } else {
                lines
            };
            out.to_multiset() == src.to_multiset() && sorted_by_key(out)
        },
        Err(_) => false,
    }
}

/// The bill of materials of a document: one line per counted symbol, or with
/// `group` one line per (value, footprint), ordered by reference key. Fails
/// with the first missing mandatory property of a counted symbol.
pub fn bom(document: &Schema, group: bool) -> (r: Result<Vec<BomItem>, BomError>)
    ensures
        match extract_lines(document.elements@) {
            Err(name) => r is Err && reports_missing(r->Err_0, name),
            Ok(_) => r is Ok && is_bom_of(document.elements@, group, lines_of(r->Ok_0@)),
        },
{
    let items = match extract_items(document) {
        Ok(items) => items,
        Err(e) => return Err(e),
    };
    proof {
        lemma_extracted_single(document.elements@);
    }
    let items = if group {
        proof {
            lemma_groups_referenced(lines_of(items@));
        }
        group_items(&items)
    } else {
        items
    };
    Ok(sort_items(items))
}

} // verus!
