//! Ordering of paths for display: component by component, directories before
//! files at each depth, names by a configurable strategy.
use crate::components::{
    chars_of, component_spans, components, extension, find_last_dot, is_normal,
    span_is_normal, spans_of, spans_view, stem,
};
use crate::digits::{digit_run_end, digits_value, find_digit_run_end, parse_u64};
use crate::natural::{
    int_order, lemma_natural_cmp_total_preorder, lemma_token_order_total_preorder, natural_cmp,
    natural_sort_chars,
};
use crate::order::{
    bool_cmp, int_cmp, is_total_preorder, lemma_int_cmp_total_preorder,
    lemma_key_cmp_total_preorder, lemma_lex_cmp_total_preorder, lemma_option_cmp_total_preorder,
    lemma_reversed_total_preorder, lemma_then_cmp_total_preorder, lex_cmp, option_cmp, reversed,
    then_cmp,
};
use crate::text::{char_keys, code_cmp, compare_chars, folded_cmp, slice_chars};
use core::cmp::Ordering;
use vstd::prelude::*;

verus! {

/// How the names of entries are ordered.
#[derive(Copy, Clone, Debug, PartialEq, Eq, Structural)]
pub enum SortStrategy {
    /// A leading number compares by value, the rest without regard to ASCII case.
    Lexicographical,
    /// Natural order: every run of digits compares by value.
    Alphabetical,
}

impl Default for SortStrategy {
    fn default() -> (r: Self)
        ensures
            r == SortStrategy::Lexicographical,
    {
        SortStrategy::Lexicographical
    }
}

/// The settings that choose how files are sorted.
#[derive(Copy, Clone, Debug, PartialEq, Eq, Structural)]
pub struct FileSortingSettings {
    pub strategy: SortStrategy,
}

impl Default for FileSortingSettings {
    fn default() -> (r: Self)
        ensures
            r.strategy == SortStrategy::Lexicographical,
    {
        FileSortingSettings { strategy: SortStrategy::Lexicographical }
    }
}

/// The rank of the leading number of `s`: its value when `s` begins with
/// digits whose value fits in a `u64`, and above every such value otherwise.
pub open spec fn prefix_rank(s: Seq<char>) -> int {
    let e = digit_run_end(s, 0);
    let v = digits_value(s.subrange(0, e));
    if e > 0 && v <= u64::MAX {
        v
    } else {
        u64::MAX + 1
    }
}

/// What follows the leading digits of `s`.
pub open spec fn remainder(s: Seq<char>) -> Seq<char> {
    s.subrange(digit_run_end(s, 0), s.len() as int)
}

/// Names with a numeric prefix: the prefix by value (names with one first),
/// then the remainders without regard to ASCII case, then the remainders by
/// code point, the greater first (so `"a"` comes before `"A"`).
pub open spec fn numeric_prefix_cmp(a: Seq<char>, b: Seq<char>) -> Ordering {
    then_cmp(
        int_cmp(prefix_rank(a), prefix_rank(b)),
        then_cmp(
            folded_cmp(remainder(a), remainder(b)),
            reversed(code_cmp(remainder(a), remainder(b))),
        ),
    )
}

/// The order of a strategy on names; an absent name comes first.
pub open spec fn name_cmp(strategy: SortStrategy, a: Option<Seq<char>>, b: Option<Seq<char>>) -> Ordering {
    match strategy {
        SortStrategy::Lexicographical => option_cmp(
            |x: Seq<char>, y: Seq<char>| numeric_prefix_cmp(x, y),
            a,
            b,
        ),
        SortStrategy::Alphabetical => option_cmp(|x: Seq<char>, y: Seq<char>| natural_cmp(x, y), a, b),
    }
}

/// The name by which an entry (a component and whether it is a file) sorts:
/// a file's stem, a directory's full name, nothing for a root, `.` or `..`.
pub open spec fn entry_name(e: (Seq<char>, bool)) -> Option<Seq<char>> {
    if !is_normal(e.0) {
        None
    } else if e.1 {
        Some(stem(e.0))
    } else {
        Some(e.0)
    }
}

/// A file's extension, empty when it has none; empty for a directory.
pub open spec fn entry_extension(e: (Seq<char>, bool)) -> Seq<char> {
    if e.1 && is_normal(e.0) && extension(e.0) is Some {
        extension(e.0)->0
    } else {
        Seq::empty()
    }
}

/// Entries at one depth: directories first, then by name, then by extension.
pub open spec fn entry_cmp(strategy: SortStrategy, x: (Seq<char>, bool), y: (Seq<char>, bool)) -> Ordering {
    then_cmp(
        bool_cmp(x.1, y.1),
        then_cmp(
            name_cmp(strategy, entry_name(x), entry_name(y)),
            code_cmp(entry_extension(x), entry_extension(y)),
        ),
    )
}

pub open spec fn entry_order(strategy: SortStrategy) -> spec_fn(
    (Seq<char>, bool),
    (Seq<char>, bool),
) -> Ordering {
    |x: (Seq<char>, bool), y: (Seq<char>, bool)| entry_cmp(strategy, x, y)
}

/// The entries along a path: each component, marked as a file only when it is
/// the last one and the path names a file.
pub open spec fn path_entries(p: Seq<char>, is_file: bool) -> Seq<(Seq<char>, bool)> {
    let cs = components(p);
    cs.map(|k: int, c: Seq<char>| (c, is_file && k == cs.len() - 1))
}

/// The order of `(path, is_file)` pairs: their entries compared
/// lexicographically, a path that is a proper prefix of the other first.
pub open spec fn path_cmp(strategy: SortStrategy, a: (Seq<char>, bool), b: (Seq<char>, bool)) -> Ordering {
    lex_cmp(entry_order(strategy), path_entries(a.0, a.1), path_entries(b.0, b.1))
}

proof fn lemma_numeric_prefix_cmp_total_preorder()
    ensures
        is_total_preorder(|x: Seq<char>, y: Seq<char>| numeric_prefix_cmp(x, y)),
{
    lemma_token_order_total_preorder();
    lemma_int_cmp_total_preorder();
    let lex_int = |x: Seq<int>, y: Seq<int>| lex_cmp(int_order(), x, y);
    let by_rank = |a: Seq<char>, b: Seq<char>| int_cmp(prefix_rank(a), prefix_rank(b));
    let by_folded = |a: Seq<char>, b: Seq<char>| folded_cmp(remainder(a), remainder(b));
    let by_code = |a: Seq<char>, b: Seq<char>| code_cmp(remainder(a), remainder(b));
    let by_code_rev = |a: Seq<char>, b: Seq<char>| reversed(code_cmp(remainder(a), remainder(b)));
    let tail = |a: Seq<char>, b: Seq<char>|
        then_cmp(
            folded_cmp(remainder(a), remainder(b)),
            reversed(code_cmp(remainder(a), remainder(b))),
        );
    lemma_key_cmp_total_preorder(
        |x: int, y: int| int_cmp(x, y),
        |s: Seq<char>| prefix_rank(s),
        by_rank,
    );
    lemma_key_cmp_total_preorder(lex_int, |s: Seq<char>| char_keys(remainder(s), true), by_folded);
    lemma_key_cmp_total_preorder(lex_int, |s: Seq<char>| char_keys(remainder(s), false), by_code);
    lemma_reversed_total_preorder(by_code, by_code_rev);
    lemma_then_cmp_total_preorder(by_folded, by_code_rev, tail);
    lemma_then_cmp_total_preorder(
        by_rank,
        tail,
        |x: Seq<char>, y: Seq<char>| numeric_prefix_cmp(x, y),
    );
}

proof fn lemma_name_cmp_total_preorder(strategy: SortStrategy)
    ensures
        is_total_preorder(|a: Option<Seq<char>>, b: Option<Seq<char>>| name_cmp(strategy, a, b)),
{
    lemma_numeric_prefix_cmp_total_preorder();
    lemma_natural_cmp_total_preorder();
    match strategy {
        SortStrategy::Lexicographical => {
            lemma_option_cmp_total_preorder(
                |x: Seq<char>, y: Seq<char>| numeric_prefix_cmp(x, y),
                |a: Option<Seq<char>>, b: Option<Seq<char>>| name_cmp(strategy, a, b),
            );
        },
        SortStrategy::Alphabetical => {
            lemma_option_cmp_total_preorder(
                |x: Seq<char>, y: Seq<char>| natural_cmp(x, y),
                |a: Option<Seq<char>>, b: Option<Seq<char>>| name_cmp(strategy, a, b),
            );
        },
    }
}

proof fn lemma_entry_cmp_total_preorder(strategy: SortStrategy)
    ensures
        is_total_preorder(entry_order(strategy)),
{
    lemma_int_cmp_total_preorder();
    lemma_token_order_total_preorder();
    lemma_name_cmp_total_preorder(strategy);
    let by_kind = |x: (Seq<char>, bool), y: (Seq<char>, bool)| bool_cmp(x.1, y.1);
    let by_name = |x: (Seq<char>, bool), y: (Seq<char>, bool)| name_cmp(strategy, entry_name(x), entry_name(y));
    let by_ext = |x: (Seq<char>, bool), y: (Seq<char>, bool)| code_cmp(entry_extension(x), entry_extension(y));
    let rest = |x: (Seq<char>, bool), y: (Seq<char>, bool)|
        then_cmp(
            name_cmp(strategy, entry_name(x), entry_name(y)),
            code_cmp(entry_extension(x), entry_extension(y)),
        );
    lemma_key_cmp_total_preorder(
        |x: int, y: int| int_cmp(x, y),
        |e: (Seq<char>, bool)| if e.1 { 1int } else { 0int },
        by_kind,
    );
    lemma_key_cmp_total_preorder(
        |a: Option<Seq<char>>, b: Option<Seq<char>>| name_cmp(strategy, a, b),
        |e: (Seq<char>, bool)| entry_name(e),
        by_name,
    );
    lemma_key_cmp_total_preorder(
        |x: Seq<int>, y: Seq<int>| lex_cmp(int_order(), x, y),
        |e: (Seq<char>, bool)| char_keys(entry_extension(e), false),
        by_ext,
    );
    lemma_then_cmp_total_preorder(by_name, by_ext, rest);
    lemma_then_cmp_total_preorder(by_kind, rest, entry_order(strategy));
}

/// For a fixed strategy, `path_cmp` is a total preorder.
pub proof fn lemma_path_cmp_total_preorder(strategy: SortStrategy)
    ensures
        is_total_preorder(|a: (Seq<char>, bool), b: (Seq<char>, bool)| path_cmp(strategy, a, b)),
{
    lemma_entry_cmp_total_preorder(strategy);
    lemma_lex_cmp_total_preorder(entry_order(strategy));
    lemma_key_cmp_total_preorder(
        |x: Seq<(Seq<char>, bool)>, y: Seq<(Seq<char>, bool)>| lex_cmp(entry_order(strategy), x, y),
        |p: (Seq<char>, bool)| path_entries(p.0, p.1),
        |a: (Seq<char>, bool), b: (Seq<char>, bool)| path_cmp(strategy, a, b),
    );
}

/// For a fixed strategy the order of paths is a strict weak ordering: every
/// path is `Equal` to itself, swapping two paths reverses the outcome, and
/// `Less` and `Equal` chain transitively (and so `Greater`, by swapping).
pub proof fn lemma_compare_paths_strict_weak_order(
    strategy: SortStrategy,
    a: (Seq<char>, bool),
    b: (Seq<char>, bool),
    c: (Seq<char>, bool),
)
    ensures
        path_cmp(strategy, a, a) == Ordering::Equal,
        path_cmp(strategy, b, a) == reversed(path_cmp(strategy, a, b)),
        path_cmp(strategy, a, b) == Ordering::Less && path_cmp(strategy, b, c) == Ordering::Less
            ==> path_cmp(strategy, a, c) == Ordering::Less,
        path_cmp(strategy, a, b) == Ordering::Less && path_cmp(strategy, b, c) == Ordering::Equal
            ==> path_cmp(strategy, a, c) == Ordering::Less,
        path_cmp(strategy, a, b) == Ordering::Equal && path_cmp(strategy, b, c) == Ordering::Less
            ==> path_cmp(strategy, a, c) == Ordering::Less,
        path_cmp(strategy, a, b) == Ordering::Equal && path_cmp(strategy, b, c) == Ordering::Equal
            ==> path_cmp(strategy, a, c) == Ordering::Equal,
{
    lemma_path_cmp_total_preorder(strategy);
    let pc = |x: (Seq<char>, bool), y: (Seq<char>, bool)| path_cmp(strategy, x, y);
    assert(pc(a, a) == Ordering::Equal);
    assert(pc(b, a) == reversed(pc(a, b)));
    if pc(a, b) != Ordering::Greater && pc(b, c) != Ordering::Greater {
        assert(pc(a, c) == then_cmp(pc(a, b), pc(b, c)));
    }
}

/// Compares two names by [`numeric_prefix_cmp`].
pub fn compare_numeric_prefixed(a: &Vec<char>, b: &Vec<char>) -> (r: Ordering)
    ensures
        r == numeric_prefix_cmp(a@, b@),
{
    let ea = find_digit_run_end(a, 0);
    let eb = find_digit_run_end(b, 0);
    let pa = parse_u64(a, 0, ea);
    let pb = parse_u64(b, 0, eb);
    let rank = match (pa, pb) {
        (Some(x), Some(y)) => {
            if x < y {
                Ordering::Less
            } else if x == y {
                Ordering::Equal
            } else {
                Ordering::Greater
            }
        },
        (Some(_), None) => Ordering::Less,
        (None, Some(_)) => Ordering::Greater,
        (None, None) => Ordering::Equal,
    };
    proof {
        crate::digits::lemma_digits_value_bounds(a@.subrange(0, ea as int));
        crate::digits::lemma_digits_value_bounds(b@.subrange(0, eb as int));
        if pa is Some {
            assert(prefix_rank(a@) == pa->0 as int);
        } else {
            assert(prefix_rank(a@) == u64::MAX + 1);
        }
        if pb is Some {
            assert(prefix_rank(b@) == pb->0 as int);
        } else {
            assert(prefix_rank(b@) == u64::MAX + 1);
        }
    }
    assert(rank == int_cmp(prefix_rank(a@), prefix_rank(b@)));
    match rank {
        Ordering::Equal => {},
        _ => {
            return rank;
        },
    }
    let ra = slice_chars(a, ea, a.len());
    let rb = slice_chars(b, eb, b.len());
    let folded = compare_chars(&ra, &rb, true);
    match folded {
        Ordering::Equal => {},
        _ => {
            return folded;
        },
    }
    match compare_chars(&ra, &rb, false) {
        Ordering::Less => Ordering::Greater,
        Ordering::Equal => Ordering::Equal,
        Ordering::Greater => Ordering::Less,
    }
}

/// The span of the name by which the entry `v[s..e]` sorts.
fn entry_name_span(v: &Vec<char>, s: usize, e: usize, is_file: bool) -> (r: Option<(usize, usize)>)
    requires
        s <= e <= v@.len(),
    ensures
        match r {
            Some(sp) => sp.0 <= sp.1 <= v@.len() && entry_name((v@.subrange(s as int, e as int), is_file))
                == Some(v@.subrange(sp.0 as int, sp.1 as int)),
            None => entry_name((v@.subrange(s as int, e as int), is_file)) is None,
        },
{
    let ghost c = v@.subrange(s as int, e as int);
    if !span_is_normal(v, s, e) {
        return None;
    }
    if !is_file {
        return Some((s, e));
    }
    match find_last_dot(v, s, e) {
        Some(d) => {
            if d > 0 {
                assert(c.subrange(0, d as int) =~= v@.subrange(s as int, s + d));
                Some((s, s + d))
            } else {
                Some((s, e))
            }
        },
        None => Some((s, e)),
    }
}

/// The span of the extension by which the entry `v[s..e]` sorts.
fn entry_extension_span(v: &Vec<char>, s: usize, e: usize, is_file: bool) -> (r: (usize, usize))
    requires
        s <= e <= v@.len(),
    ensures
        r.0 <= r.1 <= v@.len(),
        entry_extension((v@.subrange(s as int, e as int), is_file)) == v@.subrange(
            r.0 as int,
            r.1 as int,
        ),
{
    let ghost c = v@.subrange(s as int, e as int);
    if !is_file || !span_is_normal(v, s, e) {
        assert(v@.subrange(s as int, s as int) =~= Seq::<char>::empty());
        return (s, s);
    }
    match find_last_dot(v, s, e) {
        Some(d) => {
            if d > 0 {
                assert(c.subrange(d + 1, c.len() as int) =~= v@.subrange(s + d + 1, e as int));
                (s + d + 1, e)
            } else {
                assert(v@.subrange(s as int, s as int) =~= Seq::<char>::empty());
                (s, s)
            }
        },
        None => {
            assert(v@.subrange(s as int, s as int) =~= Seq::<char>::empty());
            (s, s)
        },
    }
}

/// Compares the entries `a[sa..ea]` and `b[sb..eb]` by [`entry_cmp`].
fn compare_entries(
    a: &Vec<char>,
    sa: usize,
    ea: usize,
    a_is_file: bool,
    b: &Vec<char>,
    sb: usize,
    eb: usize,
    b_is_file: bool,
    strategy: SortStrategy,
) -> (r: Ordering)
    requires
        sa <= ea <= a@.len(),
        sb <= eb <= b@.len(),
    ensures
        r == entry_cmp(
            strategy,
            (a@.subrange(sa as int, ea as int), a_is_file),
            (b@.subrange(sb as int, eb as int), b_is_file),
        ),
{
    if a_is_file != b_is_file {
        return if a_is_file {
            Ordering::Greater
        } else {
            Ordering::Less
        };
    }
    let na = entry_name_span(a, sa, ea, a_is_file);
    let nb = entry_name_span(b, sb, eb, b_is_file);
    let names = match (na, nb) {
        (Some(x), Some(y)) => {
            let xa = slice_chars(a, x.0, x.1);
            let yb = slice_chars(b, y.0, y.1);
            match strategy {
                SortStrategy::Lexicographical => compare_numeric_prefixed(&xa, &yb),
                SortStrategy::Alphabetical => natural_sort_chars(&xa, &yb),
            }
        },
        (Some(_), None) => Ordering::Greater,
        (None, Some(_)) => Ordering::Less,
        (None, None) => Ordering::Equal,
    };
    match names {
        Ordering::Equal => {},
        _ => {
            return names;
        },
    }
    let xa = entry_extension_span(a, sa, ea, a_is_file);
    let xb = entry_extension_span(b, sb, eb, b_is_file);
    let ext_a = slice_chars(a, xa.0, xa.1);
    let ext_b = slice_chars(b, xb.0, xb.1);
    compare_chars(&ext_a, &ext_b, false)
}

/// Compares two `(path, is_file)` pairs component by component: at each depth
/// a directory comes before a file, then names compare by `sort_strategy` (a
/// file by its stem), then two files by extension; the first difference
/// decides, and a path that runs out first comes first.
pub fn compare_paths_with_strategy(
    a: (&str, bool),
    b: (&str, bool),
    sort_strategy: SortStrategy,
) -> (r: Ordering)
    ensures
        r == path_cmp(sort_strategy, (a.0@, a.1), (b.0@, b.1)),
{
    let path_a = a.0;
    let a_is_file = a.1;
    let path_b = b.0;
    let b_is_file = b.1;
    let av = chars_of(path_a);
    let bv = chars_of(path_b);
    let sa = spans_of(&av);
    let sb = spans_of(&bv);
    let ghost pa = path_entries(av@, a_is_file);
    let ghost pb = path_entries(bv@, b_is_file);
    proof {
        crate::components::lemma_component_spans_bounds(av@);
        crate::components::lemma_component_spans_bounds(bv@);
        assert(pa.subrange(0, pa.len() as int) =~= pa);
        assert(pb.subrange(0, pb.len() as int) =~= pb);
        assert forall|i: int| 0 <= i < sa@.len() implies (#[trigger] sa@[i]).0 <= sa@[i].1
            && sa@[i].1 <= av@.len() by {
            assert(spans_view(sa@)[i] == component_spans(av@)[i]);
        }
        assert forall|i: int| 0 <= i < sb@.len() implies (#[trigger] sb@[i]).0 <= sb@[i].1
            && sb@[i].1 <= bv@.len() by {
            assert(spans_view(sb@)[i] == component_spans(bv@)[i]);
        }
    }
    let mut k: usize = 0;
    loop
        invariant
            path_a == a.0,
            a_is_file == a.1,
            path_b == b.0,
            b_is_file == b.1,
            pa == path_entries(av@, a_is_file),
            pb == path_entries(bv@, b_is_file),
            av@ == path_a@,
            bv@ == path_b@,
            spans_view(sa@) == component_spans(av@),
            spans_view(sb@) == component_spans(bv@),
            forall|i: int|
                0 <= i < sa@.len() ==> (#[trigger] sa@[i]).0 <= sa@[i].1 && sa@[i].1 <= av@.len(),
            forall|i: int|
                0 <= i < sb@.len() ==> (#[trigger] sb@[i]).0 <= sb@[i].1 && sb@[i].1 <= bv@.len(),
            k <= sa@.len(),
            k <= sb@.len(),
            pa.len() == sa@.len(),
            pb.len() == sb@.len(),
            path_cmp(sort_strategy, (path_a@, a_is_file), (path_b@, b_is_file)) == lex_cmp(
                entry_order(sort_strategy),
                pa.subrange(k as int, pa.len() as int),
                pb.subrange(k as int, pb.len() as int),
            ),
        decreases sa@.len() - k,
    {
        let ghost ra = pa.subrange(k as int, pa.len() as int);
        let ghost rb = pb.subrange(k as int, pb.len() as int);
        assert(ra.len() == sa@.len() - k && rb.len() == sb@.len() - k);
        if k == sa.len() && k == sb.len() {
            return Ordering::Equal;
        }
        if k == sa.len() {
            return Ordering::Less;
        }
        if k == sb.len() {
            return Ordering::Greater;
        }
        let a_file = k + 1 == sa.len() && a_is_file;
        let b_file = k + 1 == sb.len() && b_is_file;
        let (s1, e1) = sa[k];
        let (s2, e2) = sb[k];
        assert(spans_view(sa@)[k as int] == (s1 as int, e1 as int));
        assert(spans_view(sb@)[k as int] == (s2 as int, e2 as int));
        assert(components(av@)[k as int] == av@.subrange(s1 as int, e1 as int));
        assert(components(bv@)[k as int] == bv@.subrange(s2 as int, e2 as int));
        assert(ra[0] == pa[k as int]);
        assert(rb[0] == pb[k as int]);
        assert(ra[0] == (av@.subrange(s1 as int, e1 as int), a_file));
        assert(rb[0] == (bv@.subrange(s2 as int, e2 as int), b_file));
        let o = compare_entries(&av, s1, e1, a_file, &bv, s2, e2, b_file, sort_strategy);
        assert(ra.drop_first() =~= pa.subrange(k + 1, pa.len() as int));
        assert(rb.drop_first() =~= pb.subrange(k + 1, pb.len() as int));
        match o {
            Ordering::Equal => {},
            _ => {
                return o;
            },
        }
        k += 1;
    }
}

} // verus!
