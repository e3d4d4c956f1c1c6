//! The component structure of a Unix path string: a leading root (`/`) or
//! current-directory (`.`) marker, then the parts between separators, with
//! empty parts and `.` parts left out.
use vstd::prelude::*;

verus! {

/// Index of the first `/` at or after `i`, or the length when there is none.
pub open spec fn next_sep(s: Seq<char>, i: int) -> int
    decreases s.len() - i,
{
    if i >= s.len() || i < 0 {
        s.len() as int
    } else if s[i] == '/' {
        i
    } else {
        next_sep(s, i + 1)
    }
}

/// A part between separators that names nothing: empty, or `.`.
pub open spec fn is_skipped_part(s: Seq<char>, i: int, j: int) -> bool {
    j == i || (j == i + 1 && s[i] == '.')
}

/// The spans `(start, end)` of the parts of `s` from index `i` on, in order.
pub open spec fn body_spans(s: Seq<char>, i: int) -> Seq<(int, int)>
    decreases s.len() + 1 - i,
    via body_spans_decreases
{
    if i >= s.len() || i < 0 {
        Seq::empty()
    } else {
        let j = next_sep(s, i);
        if is_skipped_part(s, i, j) {
            body_spans(s, j + 1)
        } else {
            seq![(i, j)].add(body_spans(s, j + 1))
        }
    }
}

#[via_fn]
proof fn body_spans_decreases(s: Seq<char>, i: int) {
    if 0 <= i < s.len() {
        lemma_next_sep_bounds(s, i);
    }
}

pub proof fn lemma_next_sep_bounds(s: Seq<char>, i: int)
    requires
        0 <= i <= s.len(),
    ensures
        i <= next_sep(s, i) <= s.len(),
        next_sep(s, i) < s.len() ==> s[next_sep(s, i)] == '/',
        forall|k: int| i <= k < next_sep(s, i) ==> s[k] != '/',
    decreases s.len() - i,
{
    if i < s.len() && s[i] != '/' {
        lemma_next_sep_bounds(s, i + 1);
    }
}

/// `s` begins with a root or with a `.` that forms a whole component.
pub open spec fn has_leading_marker(s: Seq<char>) -> bool {
    s.len() > 0 && (s[0] == '/' || (s[0] == '.' && (s.len() == 1 || s[1] == '/')))
}

/// The spans of the components of `s`.
pub open spec fn component_spans(s: Seq<char>) -> Seq<(int, int)> {
    if has_leading_marker(s) {
        seq![(0int, 1int)].add(body_spans(s, 1))
    } else {
        body_spans(s, 0)
    }
}

/// The components of `s`, each as the text it spans.
pub open spec fn components(s: Seq<char>) -> Seq<Seq<char>> {
    component_spans(s).map_values(|sp: (int, int)| s.subrange(sp.0, sp.1))
}

/// A component that names an entry: neither the root, nor `.`, nor `..`.
pub open spec fn is_normal(c: Seq<char>) -> bool {
    c != seq!['/'] && c != seq!['.'] && c != seq!['.', '.']
}

/// The final component of `s`, when it names an entry.
pub open spec fn file_name(s: Seq<char>) -> Option<Seq<char>> {
    let cs = components(s);
    if cs.len() > 0 && is_normal(cs.last()) {
        Some(cs.last())
    } else {
        None
    }
}

/// Index of the last `.` in `s`, or -1.
pub open spec fn last_dot(s: Seq<char>) -> int
    decreases s.len(),
{
    if s.len() == 0 {
        -1
    } else if s.last() == '.' {
        s.len() - 1
    } else {
        last_dot(s.drop_last())
    }
}

/// A name without its extension; a name whose only dot leads keeps it.
pub open spec fn stem(name: Seq<char>) -> Seq<char> {
    if last_dot(name) > 0 {
        name.subrange(0, last_dot(name))
    } else {
        name
    }
}

/// What follows the last dot of a name, unless that dot leads the name.
pub open spec fn extension(name: Seq<char>) -> Option<Seq<char>> {
    if last_dot(name) > 0 {
        Some(name.subrange(last_dot(name) + 1, name.len() as int))
    } else {
        None
    }
}

/// The spans as integers.
pub open spec fn spans_view(v: Seq<(usize, usize)>) -> Seq<(int, int)> {
    v.map_values(|p: (usize, usize)| (p.0 as int, p.1 as int))
}

/// The characters of `s`.
pub fn chars_of(s: &str) -> (r: Vec<char>)
    ensures
        r@ == s@,
{
    let n = s.unicode_len();
    let mut r: Vec<char> = Vec::new();
    let mut i: usize = 0;
    while i < n
        invariant
            n == s@.len(),
            i <= n,
            r@ == s@.subrange(0, i as int),
        decreases n - i,
    {
        r.push(s.get_char(i));
        i += 1;
    }
    assert(r@ =~= s@);
    r
}

/// Index of the first `/` at or after `i`, or the length.
pub fn find_sep(s: &Vec<char>, i: usize) -> (j: usize)
    requires
        i <= s@.len(),
    ensures
        j == next_sep(s@, i as int),
        i <= j <= s@.len(),
{
    let mut j = i;
    while j < s.len() && s[j] != '/'
        invariant
            i <= j <= s@.len(),
            next_sep(s@, i as int) == next_sep(s@, j as int),
        decreases s@.len() - j,
    {
        j += 1;
    }
    j
}

/// The spans of the components of `s`.
pub fn spans_of(s: &Vec<char>) -> (r: Vec<(usize, usize)>)
    ensures
        spans_view(r@) == component_spans(s@),
{
    let n = s.len();
    let mut r: Vec<(usize, usize)> = Vec::new();
    let mut i: usize = 0;
    if n > 0 && (s[0] == '/' || (s[0] == '.' && (n == 1 || s[1] == '/'))) {
        r.push((0, 1));
        i = 1;
        assert(spans_view(r@) =~= seq![(0int, 1int)]);
    } else {
        assert(spans_view(r@) =~= Seq::empty());
    }
    while i < n
        invariant
            n == s@.len(),
            i <= n,
            spans_view(r@) + body_spans(s@, i as int) == component_spans(s@),
        decreases n - i,
    {
        let j = find_sep(s, i);
        let ghost before = r@;
        if !(j == i || (j == i + 1 && s[i] == '.')) {
            r.push((i, j));
            assert(spans_view(r@) =~= spans_view(before) + seq![(i as int, j as int)]);
        }
        assert(spans_view(r@) + body_spans(s@, j + 1) =~= component_spans(s@));
        if j < n {
            i = j + 1;
        } else {
            i = n;
        }
    }
    assert(body_spans(s@, i as int) == Seq::<(int, int)>::empty());
    assert(spans_view(r@) =~= component_spans(s@));
    r
}

/// Whether the component `v[s..e]` names an entry.
pub fn span_is_normal(v: &Vec<char>, s: usize, e: usize) -> (r: bool)
    requires
        s <= e <= v@.len(),
    ensures
        r == is_normal(v@.subrange(s as int, e as int)),
{
    let ghost c = v@.subrange(s as int, e as int);
    if e - s == 1 && (v[s] == '/' || v[s] == '.') {
        assert(c =~= seq![v@[s as int]]);
        false
    } else if e - s == 2 && v[s] == '.' && v[s + 1] == '.' {
        assert(c =~= seq!['.', '.']);
        false
    } else {
        assert(c.len() == 1 ==> c[0] == v@[s as int]);
        assert(c.len() == 2 ==> c[0] == v@[s as int] && c[1] == v@[s + 1]);
        assert(c != seq!['/'] && c != seq!['.'] && c != seq!['.', '.']) by {
            if c == seq!['/'] {
                assert(c.len() == 1 && c[0] == '/');
            }
            if c == seq!['.'] {
                assert(c.len() == 1 && c[0] == '.');
            }
            if c == seq!['.', '.'] {
                assert(c.len() == 2 && c[0] == '.' && c[1] == '.');
            }
        }
        true
    }
}

/// Index of the last `.` of `v[s..e]`, relative to `s`; `-1` when there is none.
pub fn find_last_dot(v: &Vec<char>, s: usize, e: usize) -> (r: Option<usize>)
    requires
        s <= e <= v@.len(),
    ensures
        match r {
            Some(d) => d < e - s && last_dot(v@.subrange(s as int, e as int)) == d,
            None => last_dot(v@.subrange(s as int, e as int)) == -1,
        },
{
    let mut j = e;
    while j > s
        invariant
            s <= j <= e <= v@.len(),
            last_dot(v@.subrange(s as int, e as int)) == last_dot(v@.subrange(s as int, j as int)),
        decreases j - s,
    {
        let ghost sub = v@.subrange(s as int, j as int);
        assert(sub.last() == v@[j - 1]);
        if v[j - 1] == '.' {
            return Some(j - 1 - s);
        }
        assert(sub.drop_last() =~= v@.subrange(s as int, j - 1));
        j -= 1;
    }
    assert(v@.subrange(s as int, j as int).len() == 0);
    None
}

proof fn lemma_body_spans_bounds(s: Seq<char>, i: int)
    requires
        0 <= i,
    ensures
        forall|k: int|
            0 <= k < body_spans(s, i).len() ==> i <= (#[trigger] body_spans(s, i)[k]).0
                && body_spans(s, i)[k].0 <= body_spans(s, i)[k].1 && body_spans(s, i)[k].1 <= s.len(),
        forall|k: int, m: int|
            0 <= k < m < body_spans(s, i).len() ==> (#[trigger] body_spans(s, i)[k]).1
                <= (#[trigger] body_spans(s, i)[m]).0,
    decreases s.len() + 1 - i,
{
    if i < s.len() {
        lemma_next_sep_bounds(s, i);
        let j = next_sep(s, i);
        let rest = body_spans(s, j + 1);
        lemma_body_spans_bounds(s, j + 1);
        let all = body_spans(s, i);
        if !is_skipped_part(s, i, j) {
            assert(all == seq![(i, j)].add(rest));
            assert forall|k: int| 0 <= k < all.len() implies i <= (#[trigger] all[k]).0
                && all[k].0 <= all[k].1 && all[k].1 <= s.len() by {
                if k > 0 {
                    assert(all[k] == rest[k - 1]);
                    assert(j + 1 <= rest[k - 1].0 <= rest[k - 1].1 <= s.len());
                }
            }
            assert forall|k: int, m: int| 0 <= k < m < all.len() implies (#[trigger] all[k]).1
                <= (#[trigger] all[m]).0 by {
                assert(all[m] == rest[m - 1]);
                assert(j + 1 <= rest[m - 1].0);
                if k > 0 {
                    assert(all[k] == rest[k - 1]);
                    assert(rest[k - 1].1 <= rest[m - 1].0);
                }
            }
        } else {
            assert(all == rest);
            assert forall|k: int| 0 <= k < all.len() implies i <= (#[trigger] all[k]).0
                && all[k].0 <= all[k].1 && all[k].1 <= s.len() by {
                assert(j + 1 <= rest[k].0 <= rest[k].1 <= s.len());
            }
        }
    }
}

/// Every component span lies within the path, and the spans come in order.
pub proof fn lemma_component_spans_bounds(s: Seq<char>)
    ensures
        forall|k: int|
            0 <= k < component_spans(s).len() ==> 0 <= (#[trigger] component_spans(s)[k]).0
                && component_spans(s)[k].0 <= component_spans(s)[k].1 && component_spans(s)[k].1
                <= s.len(),
        forall|k: int, m: int|
            0 <= k < m < component_spans(s).len() ==> (#[trigger] component_spans(s)[k]).1
                <= (#[trigger] component_spans(s)[m]).0,
{
    lemma_body_spans_bounds(s, 0);
    lemma_body_spans_bounds(s, 1);
    let all = component_spans(s);
    if has_leading_marker(s) {
        let rest = body_spans(s, 1);
        assert forall|k: int| 0 <= k < all.len() implies 0 <= (#[trigger] all[k]).0
            && all[k].0 <= all[k].1 && all[k].1 <= s.len() by {
            if k > 0 {
                assert(all[k] == rest[k - 1]);
                assert(1 <= rest[k - 1].0 <= rest[k - 1].1 <= s.len());
            }
        }
        assert forall|k: int, m: int| 0 <= k < m < all.len() implies (#[trigger] all[k]).1
            <= (#[trigger] all[m]).0 by {
            assert(all[m] == rest[m - 1]);
            assert(1 <= rest[m - 1].0);
            if k > 0 {
                assert(all[k] == rest[k - 1]);
                assert(rest[k - 1].1 <= rest[m - 1].0);
            }
        }
    } else {
        assert(all == body_spans(s, 0));
        assert forall|k: int| 0 <= k < all.len() implies 0 <= (#[trigger] all[k]).0
            && all[k].0 <= all[k].1 && all[k].1 <= s.len() by {
            assert(0 <= body_spans(s, 0)[k].0 <= body_spans(s, 0)[k].1 <= s.len());
        }
    }
}

} // verus!
