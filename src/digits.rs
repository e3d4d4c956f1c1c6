//! Runs of ASCII decimal digits and the numbers they denote.
use vstd::prelude::*;

verus! {

pub open spec fn is_digit(c: char) -> bool {
    '0' <= c && c <= '9'
}

pub open spec fn digit_value(c: char) -> int {
    c as int - '0' as int
}

pub open spec fn pow10(n: nat) -> int
    decreases n,
{
    if n == 0 {
        1
    } else {
        10 * pow10((n - 1) as nat)
    }
}

/// All of `s` is digits.
pub open spec fn all_digits(s: Seq<char>) -> bool {
    forall|k: int| 0 <= k < s.len() ==> is_digit(#[trigger] s[k])
}

/// The number that a run of digits denotes in decimal.
pub open spec fn digits_value(s: Seq<char>) -> int
    decreases s.len(),
{
    if s.len() == 0 {
        0
    } else {
        digits_value(s.drop_last()) * 10 + digit_value(s.last())
    }
}

/// End of the run of digits that starts at `i` (`i` itself when `s[i]` is no digit).
pub open spec fn digit_run_end(s: Seq<char>, i: int) -> int
    decreases s.len() - i,
{
    if 0 <= i < s.len() && is_digit(s[i]) {
        digit_run_end(s, i + 1)
    } else {
        i
    }
}

pub proof fn lemma_digit_run_end(s: Seq<char>, i: int)
    requires
        0 <= i <= s.len(),
    ensures
        i <= digit_run_end(s, i) <= s.len(),
        digit_run_end(s, i) < s.len() ==> !is_digit(s[digit_run_end(s, i)]),
        forall|k: int| i <= k < digit_run_end(s, i) ==> is_digit(#[trigger] s[k]),
    decreases s.len() - i,
{
    if i < s.len() && is_digit(s[i]) {
        lemma_digit_run_end(s, i + 1);
    }
}

pub proof fn lemma_pow10_pos(n: nat)
    ensures
        pow10(n) >= 1,
    decreases n,
{
    if n > 0 {
        lemma_pow10_pos((n - 1) as nat);
    }
}

/// A run of `n` digits denotes a number below `10^n`.
pub proof fn lemma_digits_value_bounds(s: Seq<char>)
    requires
        all_digits(s),
    ensures
        0 <= digits_value(s) < pow10(s.len()),
    decreases s.len(),
{
    if s.len() > 0 {
        let t = s.drop_last();
        assert(all_digits(t)) by {
            assert forall|k: int| 0 <= k < t.len() implies is_digit(#[trigger] t[k]) by {
                assert(t[k] == s[k]);
            }
        }
        lemma_digits_value_bounds(t);
        assert(is_digit(s[s.len() - 1]));
        let v = digits_value(t);
        let p = pow10(t.len());
        assert(v * 10 + 9 < p * 10) by (nonlinear_arith)
            requires
                v < p,
        ;
        assert(v * 10 >= 0) by (nonlinear_arith)
            requires
                v >= 0,
        ;
    }
}

/// The leading digit weighs `10^(n-1)`.
pub proof fn lemma_digits_value_front(s: Seq<char>)
    requires
        s.len() > 0,
    ensures
        digits_value(s) == digit_value(s[0]) * pow10((s.len() - 1) as nat) + digits_value(
            s.drop_first(),
        ),
    decreases s.len(),
{
    if s.len() == 1 {
        assert(digits_value(s.drop_last()) == 0);
        assert(digits_value(s.drop_first()) == 0);
        assert(pow10(0) == 1);
        assert(s.last() == s[0]);
    } else {
        let t = s.drop_last();
        lemma_digits_value_front(t);
        assert(s.drop_first().drop_last() =~= t.drop_first());
        assert(s.drop_first().last() == s.last());
        assert(t[0] == s[0]);
        let d0 = digit_value(s[0]);
        let dl = digit_value(s.last());
        let p = pow10((t.len() - 1) as nat);
        assert(pow10((s.len() - 1) as nat) == 10 * p);
        let w = digits_value(t.drop_first());
        assert(digits_value(s) == digits_value(t) * 10 + dl);
        assert(digits_value(s.drop_first()) == w * 10 + dl);
        assert((d0 * p + w) * 10 == d0 * (10 * p) + w * 10) by (nonlinear_arith);
    }
}

/// Leading zeros do not change the value.
pub proof fn lemma_digits_value_leading_zeros(s: Seq<char>, z: int)
    requires
        0 <= z <= s.len(),
        forall|k: int| 0 <= k < z ==> #[trigger] s[k] == '0',
    ensures
        digits_value(s) == digits_value(s.subrange(z, s.len() as int)),
    decreases z,
{
    if z > 0 {
        lemma_digits_value_front(s);
        assert(s[0] == '0');
        assert(digit_value(s[0]) == 0);
        let t = s.drop_first();
        assert forall|k: int| 0 <= k < z - 1 implies #[trigger] t[k] == '0' by {
            assert(t[k] == s[k + 1]);
        }
        lemma_digits_value_leading_zeros(t, z - 1);
        assert(t.subrange(z - 1, t.len() as int) =~= s.subrange(z, s.len() as int));
        assert(digits_value(s) == 0 * pow10((s.len() - 1) as nat) + digits_value(t));
    } else {
        assert(s.subrange(0, s.len() as int) =~= s);
    }
}

/// A run that starts with a nonzero digit has its full weight.
pub proof fn lemma_digits_value_lower(s: Seq<char>)
    requires
        s.len() > 0,
        all_digits(s),
        s[0] != '0',
    ensures
        digits_value(s) >= pow10((s.len() - 1) as nat),
{
    lemma_digits_value_front(s);
    let t = s.drop_first();
    assert(all_digits(t)) by {
        assert forall|k: int| 0 <= k < t.len() implies is_digit(#[trigger] t[k]) by {
            assert(t[k] == s[k + 1]);
        }
    }
    lemma_digits_value_bounds(t);
    assert(is_digit(s[0]));
    let d0 = digit_value(s[0]);
    let p = pow10((s.len() - 1) as nat);
    lemma_pow10_pos((s.len() - 1) as nat);
    assert(d0 * p >= p) by (nonlinear_arith)
        requires
            d0 >= 1,
            p >= 1,
    ;
}

/// Runs of equal length compare as their first differing digits do.
pub proof fn lemma_digits_value_same_len(s: Seq<char>, t: Seq<char>, k: int)
    requires
        s.len() == t.len(),
        all_digits(s),
        all_digits(t),
        0 <= k < s.len(),
        s.subrange(0, k) == t.subrange(0, k),
        s[k] < t[k],
    ensures
        digits_value(s) < digits_value(t),
    decreases k,
{
    lemma_digits_value_front(s);
    lemma_digits_value_front(t);
    let s1 = s.drop_first();
    let t1 = t.drop_first();
    assert(all_digits(s1)) by {
        assert forall|j: int| 0 <= j < s1.len() implies is_digit(#[trigger] s1[j]) by {
            assert(s1[j] == s[j + 1]);
        }
    }
    assert(all_digits(t1)) by {
        assert forall|j: int| 0 <= j < t1.len() implies is_digit(#[trigger] t1[j]) by {
            assert(t1[j] == t[j + 1]);
        }
    }
    let p = pow10((s.len() - 1) as nat);
    if k == 0 {
        lemma_digits_value_bounds(s1);
        lemma_digits_value_bounds(t1);
        assert(is_digit(s[0]) && is_digit(t[0]));
        let ds = digit_value(s[0]);
        let dt = digit_value(t[0]);
        assert(ds * p + p <= dt * p) by (nonlinear_arith)
            requires
                ds + 1 <= dt,
                p >= 0,
        ;
    } else {
        assert(s[0] == s.subrange(0, k)[0]);
        assert(t[0] == t.subrange(0, k)[0]);
        assert(s1.subrange(0, k - 1) =~= s.subrange(0, k).drop_first());
        assert(t1.subrange(0, k - 1) =~= t.subrange(0, k).drop_first());
        lemma_digits_value_same_len(s1, t1, k - 1);
    }
}

/// End of the run of digits of `s` that starts at `i`.
pub fn find_digit_run_end(s: &Vec<char>, i: usize) -> (e: usize)
    requires
        i <= s@.len(),
    ensures
        e == digit_run_end(s@, i as int),
        i <= e <= s@.len(),
        all_digits(s@.subrange(i as int, e as int)),
{
    proof {
        lemma_digit_run_end(s@, i as int);
    }
    let mut e = i;
    while e < s.len() && '0' <= s[e] && s[e] <= '9'
        invariant
            i <= e <= s@.len(),
            digit_run_end(s@, i as int) == digit_run_end(s@, e as int),
        decreases s@.len() - e,
    {
        e += 1;
    }
    assert(all_digits(s@.subrange(i as int, e as int))) by {
        let r = s@.subrange(i as int, e as int);
        assert forall|k: int| 0 <= k < r.len() implies is_digit(#[trigger] r[k]) by {
            assert(r[k] == s@[i + k]);
        }
    }
    e
}

/// A prefix of a run of digits denotes no more than the whole run.
pub proof fn lemma_digits_value_prefix(s: Seq<char>, k: int)
    requires
        0 <= k <= s.len(),
        all_digits(s),
    ensures
        digits_value(s.subrange(0, k)) <= digits_value(s),
    decreases s.len() - k,
{
    if k < s.len() {
        let t = s.drop_last();
        assert(all_digits(t)) by {
            assert forall|j: int| 0 <= j < t.len() implies is_digit(#[trigger] t[j]) by {
                assert(t[j] == s[j]);
            }
        }
        lemma_digits_value_prefix(t, k);
        assert(t.subrange(0, k) =~= s.subrange(0, k));
        lemma_digits_value_bounds(t);
        assert(is_digit(s.last()));
    } else {
        assert(s.subrange(0, k) =~= s);
    }
}

/// The value of the digits `s[lo..hi]` as a `u64`: `None` when there are no
/// digits or the value does not fit.
pub fn parse_u64(s: &Vec<char>, lo: usize, hi: usize) -> (r: Option<u64>)
    requires
        lo <= hi <= s@.len(),
        all_digits(s@.subrange(lo as int, hi as int)),
    ensures
        r == (if lo < hi && digits_value(s@.subrange(lo as int, hi as int)) <= u64::MAX {
            Some(digits_value(s@.subrange(lo as int, hi as int)) as u64)
        } else {
            None::<u64>
        }),
{
    let ghost full = s@.subrange(lo as int, hi as int);
    if lo == hi {
        return None;
    }
    let mut acc: u64 = 0;
    let mut k = lo;
    while k < hi
        invariant
            lo <= k <= hi <= s@.len(),
            full == s@.subrange(lo as int, hi as int),
            all_digits(full),
            acc as int == digits_value(full.subrange(0, k - lo)),
        decreases hi - k,
    {
        let ghost pre = full.subrange(0, k - lo);
        let ghost next = full.subrange(0, k - lo + 1);
        assert(next.drop_last() =~= pre);
        assert(next.last() == s@[k as int]);
        assert(is_digit(full[k - lo]));
        let d = (s[k] as u32 - '0' as u32) as u64;
        match acc.checked_mul(10) {
            Some(m) => match m.checked_add(d) {
                Some(v) => {
                    acc = v;
                },
                None => {
                    proof {
                        lemma_digits_value_prefix(full, k - lo + 1);
                    }
                    return None;
                },
            },
            None => {
                proof {
                    lemma_digits_value_prefix(full, k - lo + 1);
                    lemma_digits_value_bounds(pre);
                }
                return None;
            },
        }
        k += 1;
    }
    assert(full.subrange(0, hi - lo) =~= full);
    Some(acc)
}

} // verus!
