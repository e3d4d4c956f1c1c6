//! Joining, prefix tests and prefix removal on Unix path strings, and the
//! `SanitizedPath` type built on them.
use crate::components::{
    chars_of, component_spans, components, extension, file_name, span_is_normal, spans_of,
    spans_view, stem, find_last_dot, lemma_component_spans_bounds,
};
use vstd::prelude::*;

verus! {

/// `p` appended to `base` as `PathBuf::push` does it on Unix: an absolute
/// `p` replaces `base`; otherwise a separator goes between them unless `base`
/// is empty or already ends with one.
pub open spec fn joined(base: Seq<char>, p: Seq<char>) -> Seq<char> {
    if p.len() > 0 && p[0] == '/' {
        p
    } else if base.len() > 0 && base.last() != '/' {
        base + seq!['/'] + p
    } else {
        base + p
    }
}

/// What remains of `s` once the components of `base` are taken off its
/// front, with the separators (and `.` components) around the remainder
/// dropped; `None` when `base`'s components are not a prefix of `s`'s.
pub open spec fn strip_prefix_of(s: Seq<char>, base: Seq<char>) -> Option<Seq<char>> {
    let cs = components(s);
    let cb = components(base);
    let sp = component_spans(s);
    if !cb.is_prefix_of(cs) {
        None
    } else if cb.len() == cs.len() {
        Some(Seq::empty())
    } else {
        Some(s.subrange(sp[cb.len() as int].0, sp[sp.len() - 1].1))
    }
}

/// `path` with the home directory `home` at its front written as `~`.
pub open spec fn compacted(path: Seq<char>, home: Seq<char>) -> Seq<char> {
    match strip_prefix_of(path, home) {
        Some(rel) => joined(seq!['~'], rel),
        None => path,
    }
}

/// A file's extension or, for a hidden file, its name without the leading dot.
pub open spec fn extension_or_hidden_name(path: Seq<char>) -> Option<Seq<char>> {
    match file_name(path) {
        None => None,
        Some(n) => if n.len() > 0 && n[0] == '.' {
            Some(n.drop_first())
        } else {
            match extension(n) {
                Some(e) => Some(e),
                None => Some(stem(n)),
            }
        },
    }
}

/// `base` joined with `p`.
pub fn join_paths(base: &str, p: &str) -> (r: String)
    ensures
        r@ == joined(base@, p@),
{
    let np = p.unicode_len();
    if np > 0 && p.get_char(0) == '/' {
        return String::from_str(p);
    }
    let nb = base.unicode_len();
    let mut out = String::from_str(base);
    if nb > 0 && base.get_char(nb - 1) != '/' {
        out.append("/");
        proof {
            reveal_strlit("/");
        }
    }
    out.append(p);
    out
}

/// The components of `base` are a prefix of those of `s`, compared one by one.
fn components_have_prefix(
    sv: &Vec<char>,
    ss: &Vec<(usize, usize)>,
    bv: &Vec<char>,
    bs: &Vec<(usize, usize)>,
) -> (r: bool)
    requires
        spans_view(ss@) == component_spans(sv@),
        spans_view(bs@) == component_spans(bv@),
    ensures
        r == components(bv@).is_prefix_of(components(sv@)),
{
    proof {
        lemma_component_spans_bounds(sv@);
        lemma_component_spans_bounds(bv@);
    }
    let ghost cs = components(sv@);
    let ghost cb = components(bv@);
    if bs.len() > ss.len() {
        return false;
    }
    let mut k: usize = 0;
    while k < bs.len()
        invariant
            cs == components(sv@),
            cb == components(bv@),
            cs.len() == ss@.len(),
            cb.len() == bs@.len(),
            bs@.len() <= ss@.len(),
            spans_view(ss@) == component_spans(sv@),
            spans_view(bs@) == component_spans(bv@),
            forall|i: int|
                0 <= i < component_spans(sv@).len() ==> 0 <= (#[trigger] component_spans(sv@)[i]).0
                    && component_spans(sv@)[i].0 <= component_spans(sv@)[i].1
                    && component_spans(sv@)[i].1 <= sv@.len(),
            forall|i: int|
                0 <= i < component_spans(bv@).len() ==> 0 <= (#[trigger] component_spans(bv@)[i]).0
                    && component_spans(bv@)[i].0 <= component_spans(bv@)[i].1
                    && component_spans(bv@)[i].1 <= bv@.len(),
            k <= bs@.len(),
            forall|i: int| 0 <= i < k ==> #[trigger] cb[i] == cs[i],
        decreases bs@.len() - k,
    {
        let (s1, e1) = ss[k];
        let (s2, e2) = bs[k];
        assert(spans_view(ss@)[k as int] == component_spans(sv@)[k as int]);
        assert(spans_view(bs@)[k as int] == component_spans(bv@)[k as int]);
        let ghost a = sv@.subrange(s1 as int, e1 as int);
        let ghost b = bv@.subrange(s2 as int, e2 as int);
        assert(cs[k as int] == a);
        assert(cb[k as int] == b);
        if e1 - s1 != e2 - s2 {
            assert(!cb.is_prefix_of(cs)) by {
                if cb.is_prefix_of(cs) {
                    assert(cb[k as int] == cs.subrange(0, cb.len() as int)[k as int]);
                }
            }
            return false;
        }
        let mut j: usize = 0;
        while j < e1 - s1
            invariant
                s1 <= e1 <= sv@.len(),
                s2 <= e2 <= bv@.len(),
                e1 - s1 == e2 - s2,
                j <= e1 - s1,
                a == sv@.subrange(s1 as int, e1 as int),
                b == bv@.subrange(s2 as int, e2 as int),
                k < cb.len(),
                cb.len() <= cs.len(),
                cs == components(sv@),
                cb == components(bv@),
                cs[k as int] == a,
                cb[k as int] == b,
                forall|i: int| 0 <= i < j ==> a[i] == b[i],
            decreases e1 - s1 - j,
        {
            if sv[s1 + j] != bv[s2 + j] {
                assert(a[j as int] != b[j as int]);
                assert(!cb.is_prefix_of(cs)) by {
                    if cb.is_prefix_of(cs) {
                        assert(cb[k as int] == cs.subrange(0, cb.len() as int)[k as int]);
                    }
                }
                return false;
            }
            j += 1;
        }
        assert(a =~= b);
        k += 1;
    }
    assert(cb =~= cs.subrange(0, cb.len() as int));
    true
}

/// `path` with the home directory `home` at its front written as `~`; any
/// other path is left as it is.
pub fn compact_path(path: &str, home: &str) -> (r: String)
    ensures
        r@ == compacted(path@, home@),
{
    match strip_path_prefix(path, home) {
        Some(rel) => {
            proof {
                reveal_strlit("~");
            }
            join_paths("~", rel)
        },
        None => String::from_str(path),
    }
}

/// What remains of `s` once the components of `base` are taken off its front.
pub fn strip_path_prefix<'a>(s: &'a str, base: &str) -> (r: Option<&'a str>)
    ensures
        match r {
            Some(x) => strip_prefix_of(s@, base@) == Some(x@),
            None => strip_prefix_of(s@, base@) is None,
        },
{
    let sv = chars_of(s);
    let bv = chars_of(base);
    let ss = spans_of(&sv);
    let bs = spans_of(&bv);
    proof {
        lemma_component_spans_bounds(sv@);
    }
    if !components_have_prefix(&sv, &ss, &bv, &bs) {
        return None;
    }
    let k = bs.len();
    let n = ss.len();
    if k == n {
        assert(s@.subrange(0, 0) =~= Seq::<char>::empty());
        return Some(s.substring_char(0, 0));
    }
    assert(spans_view(ss@)[k as int] == component_spans(sv@)[k as int]);
    assert(spans_view(ss@)[n - 1] == component_spans(sv@)[n - 1]);
    let start = ss[k].0;
    let end = ss[n - 1].1;
    assert(component_spans(sv@)[k as int].0 <= component_spans(sv@)[k as int].1);
    if k < n - 1 {
        assert(component_spans(sv@)[k as int].1 <= component_spans(sv@)[n - 1].0);
    }
    Some(s.substring_char(start, end))
}

/// A file's extension or, for a hidden file, its name without the leading dot.
pub fn extension_or_hidden_file_name(path: &str) -> (r: Option<&str>)
    ensures
        match r {
            Some(x) => extension_or_hidden_name(path@) == Some(x@),
            None => extension_or_hidden_name(path@) is None,
        },
{
    let pv = chars_of(path);
    let spans = spans_of(&pv);
    proof {
        lemma_component_spans_bounds(pv@);
    }
    let n = spans.len();
    if n == 0 {
        return None;
    }
    assert(spans_view(spans@)[n - 1] == component_spans(pv@)[n - 1]);
    let (s, e) = spans[n - 1];
    if !span_is_normal(&pv, s, e) {
        return None;
    }
    let ghost name = pv@.subrange(s as int, e as int);
    assert(components(pv@).last() == name);
    if e > s && pv[s] == '.' {
        assert(name.drop_first() =~= path@.subrange(s + 1, e as int));
        return Some(path.substring_char(s + 1, e));
    }
    match find_last_dot(&pv, s, e) {
        Some(d) => if d > 0 {
            assert(name.subrange(d + 1, name.len() as int) =~= path@.subrange(s + d + 1, e as int));
            Some(path.substring_char(s + d + 1, e))
        } else {
            Some(path.substring_char(s, e))
        },
        None => Some(path.substring_char(s, e)),
    }
}

/// A path that has been brought into the form the rest of the program
/// expects. On Unix it is kept as given.
#[derive(Debug, Clone, PartialEq, Eq, Hash)]
pub struct SanitizedPath(pub String);

impl SanitizedPath {
    /// Whether `prefix`'s components are a prefix of this path's.
    pub fn starts_with(&self, prefix: &SanitizedPath) -> (r: bool)
        ensures
            r == components(prefix.0@).is_prefix_of(components(self.0@)),
    {
        let sv = chars_of(self.0.as_str());
        let bv = chars_of(prefix.0.as_str());
        let ss = spans_of(&sv);
        let bs = spans_of(&bv);
        components_have_prefix(&sv, &ss, &bv, &bs)
    }

    /// The path.
    pub fn as_path(&self) -> (r: &str)
        ensures
            r@ == self.0@,
    {
        self.0.as_str()
    }

    /// The path as text.
    pub fn to_string(&self) -> (r: String)
        ensures
            r@ == self.0@,
    {
        self.0.clone()
    }

    /// The path as text for glob matching; on Unix, the path as it is.
    pub fn to_glob_string(&self) -> (r: String)
        ensures
            r@ == self.0@,
    {
        self.0.clone()
    }

    /// This path with `path` appended.
    pub fn join(&self, path: &Self) -> (r: Self)
        ensures
            r.0@ == joined(self.0@, path.0@),
    {
        SanitizedPath(join_paths(self.0.as_str(), path.0.as_str()))
    }

    /// What remains of this path once `base`'s components are taken off its
    /// front; an error when they are not a prefix of this path's.
    pub fn strip_prefix(&self, base: &Self) -> (r: Result<&str, StripPrefixError>)
        ensures
            match r {
                Ok(x) => strip_prefix_of(self.0@, base.0@) == Some(x@),
                Err(_) => strip_prefix_of(self.0@, base.0@) is None,
            },
    {
        match strip_path_prefix(self.0.as_str(), base.0.as_str()) {
            Some(x) => Ok(x),
            None => Err(StripPrefixError),
        }
    }
}

/// The error of `SanitizedPath::strip_prefix`: the base is not a prefix.
#[derive(Debug, Clone, Copy, PartialEq, Eq)]
pub struct StripPrefixError;

impl From<String> for SanitizedPath {
    fn from(path: String) -> (r: Self) {
        SanitizedPath(path)
    }
}

impl vstd::std_specs::convert::FromSpecImpl<String> for SanitizedPath {
    open spec fn obeys_from_spec() -> bool {
        true
    }

    open spec fn from_spec(path: String) -> SanitizedPath {
        SanitizedPath(path)
    }
}

} // verus!
