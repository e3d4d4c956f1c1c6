//! Character sequences: slicing, and comparison by code point or with ASCII
//! letters folded to lower case.
use crate::natural::int_order;
use crate::order::{lex_cmp, then_cmp};
use core::cmp::Ordering;
use vstd::prelude::*;

verus! {

/// A character's code point, or, with `fold`, that of its lower-case form
/// when it is an ASCII capital.
pub open spec fn char_key(c: char, fold: bool) -> int {
    if fold && 'A' <= c && c <= 'Z' {
        c as int + 32
    } else {
        c as int
    }
}

/// The keys of the characters of `s`.
pub open spec fn char_keys(s: Seq<char>, fold: bool) -> Seq<int> {
    s.map_values(|c: char| char_key(c, fold))
}

/// Code-point order of character sequences (the order of their UTF-8 bytes).
pub open spec fn code_cmp(a: Seq<char>, b: Seq<char>) -> Ordering {
    lex_cmp(int_order(), char_keys(a, false), char_keys(b, false))
}

/// Order of character sequences that ignores the case of ASCII letters.
pub open spec fn folded_cmp(a: Seq<char>, b: Seq<char>) -> Ordering {
    lex_cmp(int_order(), char_keys(a, true), char_keys(b, true))
}

/// A copy of `v[lo..hi]`.
pub fn slice_chars(v: &Vec<char>, lo: usize, hi: usize) -> (r: Vec<char>)
    requires
        lo <= hi <= v@.len(),
    ensures
        r@ == v@.subrange(lo as int, hi as int),
{
    let mut r: Vec<char> = Vec::new();
    let mut k = lo;
    while k < hi
        invariant
            lo <= k <= hi <= v@.len(),
            r@ == v@.subrange(lo as int, k as int),
        decreases hi - k,
    {
        r.push(v[k]);
        k += 1;
        assert(r@ =~= v@.subrange(lo as int, k as int));
    }
    r
}

fn key_of(c: char, fold: bool) -> (r: u32)
    ensures
        r as int == char_key(c, fold),
{
    if fold && 'A' <= c && c <= 'Z' {
        c as u32 + 32
    } else {
        c as u32
    }
}

/// Compares `a` and `b` lexicographically by character keys.
pub fn compare_chars(a: &Vec<char>, b: &Vec<char>, fold: bool) -> (r: Ordering)
    ensures
        r == lex_cmp(int_order(), char_keys(a@, fold), char_keys(b@, fold)),
{
    let ghost ka = char_keys(a@, fold);
    let ghost kb = char_keys(b@, fold);
    let mut i: usize = 0;
    assert(ka.subrange(0, ka.len() as int) =~= ka);
    assert(kb.subrange(0, kb.len() as int) =~= kb);
    loop
        invariant
            ka == char_keys(a@, fold),
            kb == char_keys(b@, fold),
            i <= a@.len(),
            i <= b@.len(),
            lex_cmp(int_order(), ka, kb) == lex_cmp(
                int_order(),
                ka.subrange(i as int, ka.len() as int),
                kb.subrange(i as int, kb.len() as int),
            ),
        decreases a@.len() - i,
    {
        let ghost ra = ka.subrange(i as int, ka.len() as int);
        let ghost rb = kb.subrange(i as int, kb.len() as int);
        if i == a.len() && i == b.len() {
            return Ordering::Equal;
        }
        if i == a.len() {
            return Ordering::Less;
        }
        if i == b.len() {
            return Ordering::Greater;
        }
        let x = key_of(a[i], fold);
        let y = key_of(b[i], fold);
        assert(ra[0] == x as int && rb[0] == y as int);
        assert(ra.drop_first() =~= ka.subrange(i + 1, ka.len() as int));
        assert(rb.drop_first() =~= kb.subrange(i + 1, kb.len() as int));
        assert(lex_cmp(int_order(), ra, rb) == then_cmp(
            (int_order())(x as int, y as int),
            lex_cmp(int_order(), ra.drop_first(), rb.drop_first()),
        ));
        if x < y {
            return Ordering::Less;
        }
        if x > y {
            return Ordering::Greater;
        }
        i += 1;
    }
}

} // verus!
