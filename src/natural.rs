//! Natural ("human") order of strings: runs of digits compare as numbers.
use crate::components::chars_of;
use crate::digits::{
    all_digits, digit_run_end, find_digit_run_end, digits_value, is_digit, lemma_digit_run_end,
    lemma_digits_value_bounds, lemma_digits_value_leading_zeros, lemma_digits_value_lower,
    lemma_digits_value_same_len, lemma_pow10_pos, pow10,
};
use crate::order::{
    int_cmp, is_total_preorder, lemma_int_cmp_total_preorder, lemma_key_cmp_total_preorder,
    lemma_lex_cmp_total_preorder, lex_cmp, then_cmp,
};
use core::cmp::Ordering;
use vstd::prelude::*;

verus! {

/// The usual order of the integers, as a value.
pub open spec fn int_order() -> spec_fn(int, int) -> Ordering {
    |a: int, b: int| int_cmp(a, b)
}

/// Tokens compare lexicographically by their integer encodings.
pub open spec fn token_order() -> spec_fn(Seq<int>, Seq<int>) -> Ordering {
    |x: Seq<int>, y: Seq<int>| lex_cmp(int_order(), x, y)
}

/// The tokens of `s` from index `i` on. A maximal run of digits is one token
/// `['0', value, number of digits]`; any other character `c` is the token `[c]`.
/// Since no other character lies between `'0'` and `'9'`, a run compares with a
/// character as its first digit would.
pub open spec fn natural_tokens(s: Seq<char>, i: int) -> Seq<Seq<int>>
    decreases s.len() + 1 - i,
    via natural_tokens_decreases
{
    if i < 0 || i >= s.len() {
        Seq::empty()
    } else if is_digit(s[i]) {
        let e = digit_run_end(s, i);
        seq![seq!['0' as int, digits_value(s.subrange(i, e)), e - i]].add(natural_tokens(s, e))
    } else {
        seq![seq![s[i] as int]].add(natural_tokens(s, i + 1))
    }
}

#[via_fn]
proof fn natural_tokens_decreases(s: Seq<char>, i: int) {
    if 0 <= i < s.len() && is_digit(s[i]) {
        lemma_digit_run_end(s, i + 1);
    }
}

/// Natural order: the token sequences compared lexicographically. Digit runs
/// compare by value, then the shorter run first; other characters by code point;
/// a proper prefix comes first.
pub open spec fn natural_cmp(a: Seq<char>, b: Seq<char>) -> Ordering {
    lex_cmp(token_order(), natural_tokens(a, 0), natural_tokens(b, 0))
}

pub proof fn lemma_token_order_total_preorder()
    ensures
        is_total_preorder(int_order()),
        is_total_preorder(token_order()),
{
    lemma_int_cmp_total_preorder();
    lemma_lex_cmp_total_preorder(int_order());
}

/// Natural order is a total preorder.
pub proof fn lemma_natural_cmp_total_preorder()
    ensures
        is_total_preorder(|a: Seq<char>, b: Seq<char>| natural_cmp(a, b)),
{
    lemma_token_order_total_preorder();
    lemma_lex_cmp_total_preorder(token_order());
    lemma_key_cmp_total_preorder(
        |x: Seq<Seq<int>>, y: Seq<Seq<int>>| lex_cmp(token_order(), x, y),
        |s: Seq<char>| natural_tokens(s, 0),
        |a: Seq<char>, b: Seq<char>| natural_cmp(a, b),
    );
}

pub proof fn lemma_pow10_mono(m: nat, n: nat)
    requires
        m <= n,
    ensures
        pow10(m) <= pow10(n),
    decreases n,
{
    if m < n {
        lemma_pow10_mono(m, (n - 1) as nat);
        lemma_pow10_pos((n - 1) as nat);
    }
}

/// Orders two characters by code point.
pub fn cmp_char(x: char, y: char) -> (r: Ordering)
    ensures
        r == int_cmp(x as int, y as int),
{
    if x < y {
        Ordering::Less
    } else if x == y {
        Ordering::Equal
    } else {
        Ordering::Greater
    }
}

/// Orders two counts.
pub fn cmp_usize(x: usize, y: usize) -> (r: Ordering)
    ensures
        r == int_cmp(x as int, y as int),
{
    if x < y {
        Ordering::Less
    } else if x == y {
        Ordering::Equal
    } else {
        Ordering::Greater
    }
}

/// Compares the digit runs `a[ia..ea]` and `b[ib..eb]` by value, then the
/// shorter run first. Runs of any length are compared exactly.
pub fn compare_digit_runs(a: &Vec<char>, ia: usize, ea: usize, b: &Vec<char>, ib: usize, eb: usize) -> (r:
    Ordering)
    requires
        ia <= ea <= a@.len(),
        ib <= eb <= b@.len(),
        all_digits(a@.subrange(ia as int, ea as int)),
        all_digits(b@.subrange(ib as int, eb as int)),
    ensures
        r == then_cmp(
            int_cmp(
                digits_value(a@.subrange(ia as int, ea as int)),
                digits_value(b@.subrange(ib as int, eb as int)),
            ),
            int_cmp(ea - ia, eb - ib),
        ),
{
    let ghost ra = a@.subrange(ia as int, ea as int);
    let ghost rb = b@.subrange(ib as int, eb as int);
    let mut za = ia;
    while za < ea && a[za] == '0'
        invariant
            ia <= za <= ea <= a@.len(),
            forall|k: int| ia <= k < za ==> a@[k] == '0',
        decreases ea - za,
    {
        za += 1;
    }
    let mut zb = ib;
    while zb < eb && b[zb] == '0'
        invariant
            ib <= zb <= eb <= b@.len(),
            forall|k: int| ib <= k < zb ==> b@[k] == '0',
        decreases eb - zb,
    {
        zb += 1;
    }
    let ghost sa = a@.subrange(za as int, ea as int);
    let ghost sb = b@.subrange(zb as int, eb as int);
    proof {
        lemma_digits_value_leading_zeros(ra, za - ia);
        lemma_digits_value_leading_zeros(rb, zb - ib);
        assert(ra.subrange(za - ia, ra.len() as int) =~= sa);
        assert(rb.subrange(zb - ib, rb.len() as int) =~= sb);
        assert(all_digits(sa)) by {
            assert forall|k: int| 0 <= k < sa.len() implies is_digit(#[trigger] sa[k]) by {
                assert(sa[k] == ra[k + za - ia]);
            }
        }
        assert(all_digits(sb)) by {
            assert forall|k: int| 0 <= k < sb.len() implies is_digit(#[trigger] sb[k]) by {
                assert(sb[k] == rb[k + zb - ib]);
            }
        }
        lemma_digits_value_bounds(sa);
        lemma_digits_value_bounds(sb);
        if sa.len() > 0 {
            lemma_digits_value_lower(sa);
        }
        if sb.len() > 0 {
            lemma_digits_value_lower(sb);
        }
    }
    let la = ea - za;
    let lb = eb - zb;
    if la < lb {
        proof {
            lemma_pow10_mono(la as nat, (lb - 1) as nat);
        }
        return Ordering::Less;
    }
    if la > lb {
        proof {
            lemma_pow10_mono(lb as nat, (la - 1) as nat);
        }
        return Ordering::Greater;
    }
    let mut k: usize = 0;
    while k < la
        invariant
            la == lb,
            la == ea - za,
            lb == eb - zb,
            za <= ea <= a@.len(),
            zb <= eb <= b@.len(),
            sa == a@.subrange(za as int, ea as int),
            sb == b@.subrange(zb as int, eb as int),
            all_digits(sa),
            all_digits(sb),
            digits_value(a@.subrange(ia as int, ea as int)) == digits_value(sa),
            digits_value(b@.subrange(ib as int, eb as int)) == digits_value(sb),
            k <= la,
            sa.subrange(0, k as int) == sb.subrange(0, k as int),
        decreases la - k,
    {
        let ca = a[za + k];
        let cb = b[zb + k];
        assert(sa[k as int] == ca);
        assert(sb[k as int] == cb);
        if ca < cb {
            proof {
                lemma_digits_value_same_len(sa, sb, k as int);
            }
            return Ordering::Less;
        }
        if ca > cb {
            proof {
                lemma_digits_value_same_len(sb, sa, k as int);
            }
            return Ordering::Greater;
        }
        assert(sa.subrange(0, k + 1) =~= sa.subrange(0, k as int).push(ca));
        assert(sb.subrange(0, k + 1) =~= sb.subrange(0, k as int).push(cb));
        k += 1;
    }
    assert(sa =~= sa.subrange(0, k as int));
    assert(sb =~= sb.subrange(0, k as int));
    cmp_usize(ea - ia, eb - ib)
}

proof fn lemma_lex_cons<T>(c: spec_fn(T, T) -> Ordering, x: T, r: Seq<T>, y: T, q: Seq<T>)
    ensures
        lex_cmp(c, seq![x].add(r), seq![y].add(q)) == then_cmp(c(x, y), lex_cmp(c, r, q)),
{
    assert(seq![x].add(r).drop_first() =~= r);
    assert(seq![y].add(q).drop_first() =~= q);
}

proof fn lemma_run_tokens(va: int, na: int, vb: int, nb: int)
    ensures
        (token_order())(seq!['0' as int, va, na], seq!['0' as int, vb, nb]) == then_cmp(
            int_cmp(va, vb),
            int_cmp(na, nb),
        ),
{
    let c = int_order();
    let x = seq!['0' as int, va, na];
    let y = seq!['0' as int, vb, nb];
    let x1 = seq![va, na];
    let y1 = seq![vb, nb];
    let x2 = seq![na];
    let y2 = seq![nb];
    let e = Seq::<int>::empty();
    assert(x.drop_first() =~= x1);
    assert(y.drop_first() =~= y1);
    assert(x1.drop_first() =~= x2);
    assert(y1.drop_first() =~= y2);
    assert(x2.drop_first() =~= e);
    assert(y2.drop_first() =~= e);
    assert(lex_cmp(c, e, e) == Ordering::Equal);
    assert(lex_cmp(c, x2, y2) == then_cmp(c(na, nb), lex_cmp(c, e, e)));
    assert(lex_cmp(c, x1, y1) == then_cmp(c(va, vb), lex_cmp(c, x2, y2)));
    assert(lex_cmp(c, x, y) == then_cmp(c('0' as int, '0' as int), lex_cmp(c, x1, y1)));
}

proof fn lemma_head_tokens(x: Seq<int>, y: Seq<int>)
    requires
        x.len() > 0,
        y.len() > 0,
        x[0] != y[0],
    ensures
        (token_order())(x, y) == int_cmp(x[0], y[0]),
{
}

proof fn lemma_char_tokens(a: int, b: int)
    ensures
        (token_order())(seq![a], seq![b]) == int_cmp(a, b),
{
    let c = int_order();
    let e = Seq::<int>::empty();
    assert(seq![a].drop_first() =~= e);
    assert(seq![b].drop_first() =~= e);
    assert(lex_cmp(c, e, e) == Ordering::Equal);
    assert(lex_cmp(c, seq![a], seq![b]) == then_cmp(c(a, b), lex_cmp(c, e, e)));
}

/// Natural comparison of two strings: runs of ASCII digits compare by their
/// value, then the shorter run first (`"1" < "01"`); all other characters
/// compare by code point.
pub fn natural_sort(a: &str, b: &str) -> (r: Ordering)
    ensures
        r == natural_cmp(a@, b@),
{
    let av = chars_of(a);
    let bv = chars_of(b);
    natural_sort_chars(&av, &bv)
}

/// Natural comparison of two character sequences.
pub fn natural_sort_chars(av: &Vec<char>, bv: &Vec<char>) -> (r: Ordering)
    ensures
        r == natural_cmp(av@, bv@),
{
    let ghost a = av@;
    let ghost b = bv@;
    let na = av.len();
    let nb = bv.len();
    let mut i: usize = 0;
    let mut j: usize = 0;
    loop
        invariant
            av@ == a,
            bv@ == b,
            na == av@.len(),
            nb == bv@.len(),
            i <= na,
            j <= nb,
            natural_cmp(a, b) == lex_cmp(
                token_order(),
                natural_tokens(av@, i as int),
                natural_tokens(bv@, j as int),
            ),
        decreases na - i + nb - j,
    {
        if i == na && j == nb {
            return Ordering::Equal;
        }
        if i == na {
            return Ordering::Less;
        }
        if j == nb {
            return Ordering::Greater;
        }
        let ca = av[i];
        let cb = bv[j];
        let a_digit = '0' <= ca && ca <= '9';
        let b_digit = '0' <= cb && cb <= '9';
        if a_digit && b_digit {
            let ea = find_digit_run_end(av, i);
            let eb = find_digit_run_end(bv, j);
            proof {
                lemma_digit_run_end(av@, i + 1);
                lemma_digit_run_end(bv@, j + 1);
            }
            let o = compare_digit_runs(av, i, ea, bv, j, eb);
            proof {
                let va = digits_value(av@.subrange(i as int, ea as int));
                let vb = digits_value(bv@.subrange(j as int, eb as int));
                lemma_run_tokens(va, ea - i, vb, eb - j);
                lemma_lex_cons(
                    token_order(),
                    seq!['0' as int, va, ea - i],
                    natural_tokens(av@, ea as int),
                    seq!['0' as int, vb, eb - j],
                    natural_tokens(bv@, eb as int),
                );
            }
            match o {
                Ordering::Equal => {},
                _ => {
                    return o;
                },
            }
            i = ea;
            j = eb;
        } else {
            let o = cmp_char(ca, cb);
            proof {
                let ta = natural_tokens(av@, i as int)[0];
                let tb = natural_tokens(bv@, j as int)[0];
                lemma_lex_cons(
                    token_order(),
                    ta,
                    natural_tokens(av@, i as int).drop_first(),
                    tb,
                    natural_tokens(bv@, j as int).drop_first(),
                );
                assert(natural_tokens(av@, i as int) =~= seq![ta].add(
                    natural_tokens(av@, i as int).drop_first(),
                ));
                assert(natural_tokens(bv@, j as int) =~= seq![tb].add(
                    natural_tokens(bv@, j as int).drop_first(),
                ));
                if a_digit || b_digit {
                    assert(ta[0] == ca as int || ta[0] == '0' as int);
                    lemma_head_tokens(ta, tb);
                } else {
                    lemma_char_tokens(ca as int, cb as int);
                    assert(natural_tokens(av@, i as int).drop_first() == natural_tokens(
                        av@,
                        i + 1,
                    ));
                    assert(natural_tokens(bv@, j as int).drop_first() == natural_tokens(
                        bv@,
                        j + 1,
                    ));
                }
            }
            match o {
                Ordering::Equal => {},
                _ => {
                    return o;
                },
            }
            i += 1;
            j += 1;
        }
    }
}

} // verus!
