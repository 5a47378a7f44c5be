//! Facts about bills of materials that relate several calls or all inputs.

use vstd::prelude::*;
use crate::bom::{
    add_to_groups, extract_lines, find_group, group_lines, is_bom_of, is_counted, is_excluded, joined,
    lemma_extracted_single, lemma_find_group, same_key, started, BomLine,
};
use crate::schematic::{SchemaElement, Symbol};

verus! {

/// The number of parts that a sequence of lines stands for.
pub open spec fn total_amount(lines: Seq<BomLine>) -> nat
    decreases lines.len(),
{
    if lines.len() == 0 {
        0
    } else {
        total_amount(lines.drop_last()) + lines.last().amount
    }
}

/// No two lines share a (value, footprint) key.
pub open spec fn keys_distinct(lines: Seq<BomLine>) -> bool {
    forall|i: int, j: int| 0 <= i < j < lines.len() ==> !same_key(lines[i], lines[j])
}

/// A line of `out` is a line of `src` when both hold the same multiset.
proof fn lemma_member(out: Seq<BomLine>, src: Seq<BomLine>, i: int) -> (j: int)
    requires
        out.to_multiset() == src.to_multiset(),
        0 <= i < out.len(),
    ensures
        0 <= j < src.len(),
        src[j] == out[i],
{
    out.to_multiset_ensures();
    src.to_multiset_ensures();
    assert(out.contains(out[i]));
    assert(out.to_multiset().count(out[i]) > 0);
    assert(src.to_multiset().count(out[i]) > 0);
    assert(src.contains(out[i]));
    choose|j: int| 0 <= j < src.len() && src[j] == out[i]
}

/// Without grouping, every line stands for one part and has one reference.
pub proof fn lemma_ungrouped_lines_are_single(elems: Seq<SchemaElement>, out: Seq<BomLine>)
    requires
        is_bom_of(elems, false, out),
    ensures
        forall|i: int|
            0 <= i < out.len() ==> (#[trigger] out[i]).amount == 1 && out[i].references.len() == 1,
{
    lemma_extracted_single(elems);
    let lines = extract_lines(elems)->Ok_0;
    assert forall|i: int| 0 <= i < out.len() implies (#[trigger] out[i]).amount == 1
        && out[i].references.len() == 1 by {
        let j = lemma_member(out, lines, i);
        assert(lines[j] == out[i]);
    }
}

/// Replacing one line changes the total by the difference of the amounts.
proof fn lemma_total_update(lines: Seq<BomLine>, k: int, v: BomLine)
    requires
        0 <= k < lines.len(),
    ensures
        total_amount(lines.update(k, v)) + lines[k].amount == total_amount(lines) + v.amount,
    decreases lines.len(),
{
    let u = lines.update(k, v);
    if k == lines.len() - 1 {
        assert(u.drop_last() =~= lines.drop_last());
    } else {
        assert(u.drop_last() =~= lines.drop_last().update(k, v));
        lemma_total_update(lines.drop_last(), k, v);
    }
}

/// Grouping keeps the number of parts.
proof fn lemma_total_of_groups(lines: Seq<BomLine>)
    ensures
        total_amount(group_lines(lines)) == lines.len(),
    decreases lines.len(),
{
    if lines.len() > 0 {
        let prev = group_lines(lines.drop_last());
        let x = lines.last();
        lemma_total_of_groups(lines.drop_last());
        lemma_find_group(prev, x);
        match find_group(prev, x) {
            Some(k) => {
                lemma_total_update(prev, k, joined(prev[k], x));
            },
            None => {
                assert(prev.push(started(x)).drop_last() =~= prev);
            },
        }
    }
}

/// Taking one line out lowers the total by its amount.
proof fn lemma_total_remove(lines: Seq<BomLine>, k: int)
    requires
        0 <= k < lines.len(),
    ensures
        total_amount(lines.remove(k)) + lines[k].amount == total_amount(lines),
    decreases lines.len(),
{
    if k == lines.len() - 1 {
        assert(lines.remove(k) =~= lines.drop_last());
    } else {
        assert(lines.remove(k).drop_last() =~= lines.drop_last().remove(k));
        assert(lines.remove(k).last() == lines.last());
        lemma_total_remove(lines.drop_last(), k);
    }
}

/// The total depends on the multiset of lines alone.
proof fn lemma_total_permutation(s: Seq<BomLine>, t: Seq<BomLine>)
    requires
        s.to_multiset() == t.to_multiset(),
    ensures
        total_amount(s) == total_amount(t),
    decreases s.len(),
{
    s.to_multiset_ensures();
    t.to_multiset_ensures();
    if s.len() > 0 {
        let x = s.last();
        let rest = s.drop_last();
        rest.to_multiset_ensures();
        assert(rest.push(x) =~= s);
        assert(s.contains(x));
        assert(s.to_multiset().count(x) > 0);
        assert(t.to_multiset().count(x) > 0);
        assert(t.contains(x));
        let k = choose|k: int| 0 <= k < t.len() && t[k] == x;
        assert(rest.to_multiset() =~= s.to_multiset().remove(x));
        lemma_total_permutation(rest, t.remove(k));
        lemma_total_remove(t, k);
    }
}

/// Groups have distinct keys.
proof fn lemma_groups_distinct(lines: Seq<BomLine>)
    ensures
        keys_distinct(group_lines(lines)),
    decreases lines.len(),
{
    if lines.len() > 0 {
        let prev = group_lines(lines.drop_last());
        let x = lines.last();
        lemma_groups_distinct(lines.drop_last());
        lemma_find_group(prev, x);
        let next = group_lines(lines);
        assert(next == add_to_groups(prev, x));
        assert forall|i: int, j: int| 0 <= i < j < next.len() implies !same_key(next[i], next[j]) by {
            match find_group(prev, x) {
                Some(k) => {
                    assert(same_key(next[i], prev[i]));
                    assert(same_key(next[j], prev[j]));
                    assert(!same_key(prev[i], prev[j]));
                },
                None => {
                    if j == prev.len() {
                        assert(next[i] == prev[i]);
                        assert(!same_key(prev[i], x));
                    } else {
                        assert(!same_key(prev[i], prev[j]));
                    }
                },
            }
        }
    }
}

/// Lines with distinct keys keep them in any order.
proof fn lemma_distinct_permutation(out: Seq<BomLine>, src: Seq<BomLine>)
    requires
        out.to_multiset() == src.to_multiset(),
        keys_distinct(src),
    ensures
        keys_distinct(out),
{
    assert(src.no_duplicates()) by {
        assert forall|i: int, j: int|
            0 <= i < src.len() && 0 <= j < src.len() && i != j implies src[i] != src[j] by {
            if i > j {
                assert(!same_key(src[j], src[i]));
            } else {
                assert(!same_key(src[i], src[j]));
            }
        }
    }
    src.lemma_multiset_has_no_duplicates();
    out.lemma_multiset_has_no_duplicates_conv();
    assert forall|i: int, j: int| 0 <= i < j < out.len() implies !same_key(out[i], out[j]) by {
        let a = lemma_member(out, src, i);
        let b = lemma_member(out, src, j);
        if a < b {
            assert(!same_key(src[a], src[b]));
        } else if b < a {
            assert(!same_key(src[b], src[a]));
        }
    }
}

/// With grouping, the amounts add up to the number of lines made without
/// grouping, and no two lines share a (value, footprint) pair.
pub proof fn lemma_grouping_counts_every_part(
    elems: Seq<SchemaElement>,
    grouped: Seq<BomLine>,
    single: Seq<BomLine>,
)
    requires
        is_bom_of(elems, true, grouped),
        is_bom_of(elems, false, single),
    ensures
        total_amount(grouped) == single.len(),
        keys_distinct(grouped),
{
    let lines = extract_lines(elems)->Ok_0;
    single.to_multiset_ensures();
    lines.to_multiset_ensures();
    lemma_total_of_groups(lines);
    lemma_total_permutation(grouped, group_lines(lines));
    lemma_groups_distinct(lines);
    lemma_distinct_permutation(grouped, group_lines(lines));
}

/// A symbol that is not counted, wherever it stands, changes nothing.
proof fn lemma_uncounted_symbol_ignored(elems: Seq<SchemaElement>, k: int, s: Symbol)
    requires
        0 <= k <= elems.len(),
        !is_counted(s),
    ensures
        extract_lines(elems.insert(k, SchemaElement::Symbol(s))) == extract_lines(elems),
    decreases elems.len(),
{
    let t = elems.insert(k, SchemaElement::Symbol(s));
    if k == elems.len() {
        assert(t.drop_last() =~= elems);
    } else {
        assert(t.drop_last() =~= elems.drop_last().insert(k, SchemaElement::Symbol(s)));
        assert(t.last() == elems.last());
        lemma_uncounted_symbol_ignored(elems.drop_last(), k, s);
    }
}

/// Power and mechanical symbols, wherever they stand, do not change the bill
/// of materials, grouped or not.
pub proof fn lemma_power_and_mechanical_symbols_ignored(
    elems: Seq<SchemaElement>,
    k: int,
    s: Symbol,
    group: bool,
    out: Seq<BomLine>,
)
    requires
        0 <= k <= elems.len(),
        is_excluded(s.lib_id@),
    ensures
        is_bom_of(elems.insert(k, SchemaElement::Symbol(s)), group, out) == is_bom_of(
            elems,
            group,
            out,
        ),
{
    lemma_uncounted_symbol_ignored(elems, k, s);
}

/// A symbol element for a unit other than the first, wherever it stands, does
/// not change the bill of materials, grouped or not.
pub proof fn lemma_later_units_ignored(
    elems: Seq<SchemaElement>,
    k: int,
    s: Symbol,
    group: bool,
    out: Seq<BomLine>,
)
    requires
        0 <= k <= elems.len(),
        s.unit != 1,
    ensures
        is_bom_of(elems.insert(k, SchemaElement::Symbol(s)), group, out) == is_bom_of(
            elems,
            group,
            out,
        ),
{
    lemma_uncounted_symbol_ignored(elems, k, s);
}

} // verus!
