//! Sort keys for reference designators such as `R12` or `U3`.

use vstd::prelude::*;
use vstd::string::*;
use crate::text::{is_numeric, is_numeric_char, push_char};

verus! {

/// The numeric characters of `s`, in their order.
pub open spec fn numeric_part(s: Seq<char>) -> Seq<char>
    decreases s.len(),
{
    if s.len() == 0 {
        Seq::empty()
    } else if is_numeric_char(s.last()) {
        numeric_part(s.drop_last()).push(s.last())
    } else {
        numeric_part(s.drop_last())
    }
}

/// The characters of `s` that are not numeric, in their order.
pub open spec fn non_numeric_part(s: Seq<char>) -> Seq<char>
    decreases s.len(),
{
    if s.len() == 0 {
        Seq::empty()
    } else if is_numeric_char(s.last()) {
        non_numeric_part(s.drop_last())
    } else {
        non_numeric_part(s.drop_last()).push(s.last())
    }
}

/// `n` copies of `'0'`.
pub open spec fn zeros(n: nat) -> Seq<char> {
    Seq::new(n, |_i: int| '0')
}

/// `d` left-padded with `'0'` to at least `width` characters; never shortened.
pub open spec fn zero_pad(d: Seq<char>, width: nat) -> Seq<char> {
    if d.len() < width {
        zeros((width - d.len()) as nat) + d
    } else {
        d
    }
}

/// The width to which the numeric part of a reference is padded.
pub const KEY_DIGITS: usize = 4;

/// The sort key of a reference designator: its non-numeric characters,
/// followed by its numeric characters padded with zeros to four digits.
pub open spec fn normalize(s: Seq<char>) -> Seq<char> {
    non_numeric_part(s) + zero_pad(numeric_part(s), KEY_DIGITS as nat)
}

/// `d` without its leading `'0'` characters.
pub open spec fn strip_leading_zeros(d: Seq<char>) -> Seq<char>
    decreases d.len(),
{
    if d.len() > 0 && d[0] == '0' {
        strip_leading_zeros(d.drop_first())
    } else {
        d
    }
}

/// Computes the sort key of a reference designator (see `normalize`).
pub fn reference(value: &str) -> (r: String)
    ensures
        r@ == normalize(value@),
{
    let mut letters = String::new();
    let mut numbers = String::new();
    let n = value.unicode_len();
    let mut i: usize = 0;
    while i < n
        invariant
            n == value@.len(),
            i <= n,
            letters@ == non_numeric_part(value@.take(i as int)),
            numbers@ == numeric_part(value@.take(i as int)),
        decreases n - i,
    {
        let c = value.get_char(i);
        assert(value@.take(i as int + 1).drop_last() =~= value@.take(i as int));
        if is_numeric(c) {
            push_char(&mut numbers, c);
        } else {
            push_char(&mut letters, c);
        }
        i = i + 1;
    }
    assert(value@.take(n as int) =~= value@);
    join_key(letters, numbers.as_str())
}

/// Appends `numbers`, left-padded with zeros to four digits, to `letters`.
pub fn join_key(letters: String, numbers: &str) -> (r: String)
    ensures
        r@ == letters@ + zero_pad(numbers@, KEY_DIGITS as nat),
{
    let mut letters = letters;
    let width = numbers.unicode_len();
    let ghost head = letters@;
    let mut k: usize = width;
    while k < KEY_DIGITS
        invariant
            width == numbers@.len(),
            width <= k,
            width < KEY_DIGITS ==> k <= KEY_DIGITS,
            width >= KEY_DIGITS ==> k == width,
            letters@ == head + zeros((k - width) as nat),
        decreases KEY_DIGITS - k,
    {
        push_char(&mut letters, '0');
        assert(head + zeros((k + 1 - width) as nat) =~= (head + zeros((k - width) as nat)).push('0'));
        k = k + 1;
    }
    let ghost padded = letters@;
    if width >= KEY_DIGITS {
        assert(padded =~= head);
    } else {
        assert(padded == head + zeros((KEY_DIGITS - width) as nat));
    }
    letters.append(numbers);
    assert(letters@ =~= head + zero_pad(numbers@, KEY_DIGITS as nat));
    letters
}

/// The key depends on the reference alone: two computations of it from the
/// same reference agree.
pub proof fn lemma_key_is_function_of_reference(value: Seq<char>, r1: Seq<char>, r2: Seq<char>)
    requires
        r1 == normalize(value),
        r2 == normalize(value),
    ensures
        r1 == r2,
{
}

/// Padding a numeral of at most four digits gives the same key as padding it
/// without its leading zeros.
proof fn lemma_pad_ignores_leading_zeros(d: Seq<char>)
    requires
        d.len() <= KEY_DIGITS,
    ensures
        zero_pad(d, KEY_DIGITS as nat) == zero_pad(strip_leading_zeros(d), KEY_DIGITS as nat),
    decreases d.len(),
{
    if d.len() > 0 && d[0] == '0' {
        lemma_pad_ignores_leading_zeros(d.drop_first());
        assert(zeros((KEY_DIGITS - d.len()) as nat) + d =~= zeros(
            (KEY_DIGITS - d.drop_first().len()) as nat,
        ) + d.drop_first());
    }
}

/// References with the same non-numeric characters and the same number
/// (leading zeros aside, at most four digits each, as in `R7` and `R007`)
/// get the same key.
pub proof fn lemma_equal_number_equal_key(a: Seq<char>, b: Seq<char>)
    requires
        non_numeric_part(a) == non_numeric_part(b),
        strip_leading_zeros(numeric_part(a)) == strip_leading_zeros(numeric_part(b)),
        numeric_part(a).len() <= KEY_DIGITS,
        numeric_part(b).len() <= KEY_DIGITS,
    ensures
        normalize(a) == normalize(b),
{
    lemma_pad_ignores_leading_zeros(numeric_part(a));
    lemma_pad_ignores_leading_zeros(numeric_part(b));
}

/// `a` comes no later than `b` in lexicographic order of code points (the
/// order of `str`'s comparison operators).
pub open spec fn key_le(a: Seq<char>, b: Seq<char>) -> bool
    decreases a.len(),
{
    if a.len() == 0 {
        true
    } else if b.len() == 0 {
        false
    } else if a[0] as u32 != b[0] as u32 {
        (a[0] as u32) < (b[0] as u32)
    } else {
        key_le(a.drop_first(), b.drop_first())
    }
}

/// Any two keys are ordered one way or the other.
pub proof fn lemma_key_le_total(a: Seq<char>, b: Seq<char>)
    ensures
        key_le(a, b) || key_le(b, a),
    decreases a.len(),
{
    if a.len() > 0 && b.len() > 0 && a[0] as u32 == b[0] as u32 {
        lemma_key_le_total(a.drop_first(), b.drop_first());
    }
}

/// The key order is transitive.
pub proof fn lemma_key_le_transitive(a: Seq<char>, b: Seq<char>, c: Seq<char>)
    requires
        key_le(a, b),
        key_le(b, c),
    ensures
        key_le(a, c),
    decreases a.len(),
{
    if a.len() > 0 && b.len() > 0 && c.len() > 0 && a[0] as u32 == b[0] as u32 && b[0] as u32 == c[0] as u32 {
        lemma_key_le_transitive(a.drop_first(), b.drop_first(), c.drop_first());
    }
}

/// Decides `key_le` on two strings.
pub fn key_precedes(a: &str, b: &str) -> (r: bool)
    ensures
        r == key_le(a@, b@),
{
    let n = a.unicode_len();
    let m = b.unicode_len();
    let mut i: usize = 0;
    assert(a@.skip(0) =~= a@);
    assert(b@.skip(0) =~= b@);
    while i < n && i < m
        invariant
            n == a@.len(),
            m == b@.len(),
            i <= n,
            i <= m,
            key_le(a@, b@) == key_le(a@.skip(i as int), b@.skip(i as int)),
        decreases n - i,
    {
        let x = a.get_char(i);
        let y = b.get_char(i);
        if x as u32 != y as u32 {
            return (x as u32) < (y as u32);
        }
        assert(a@.skip(i as int).drop_first() =~= a@.skip(i as int + 1));
        assert(b@.skip(i as int).drop_first() =~= b@.skip(i as int + 1));
        i = i + 1;
    }
    i == n
}

} // verus!
