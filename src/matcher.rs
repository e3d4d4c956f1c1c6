//! Matching paths against a set of glob patterns.
use crate::components::chars_of;
use globset::{Glob, GlobSet, GlobSetBuilder};
use vstd::prelude::*;

verus! {

#[verifier::external_type_specification]
#[verifier::external_body]
pub struct ExGlobSet(GlobSet);

#[verifier::external_type_specification]
#[verifier::external_body]
pub struct ExGlobSetBuilder(GlobSetBuilder);

/// The patterns a glob set was built from, in order.
pub uninterp spec fn glob_set_patterns(set: GlobSet) -> Seq<Seq<char>>;

/// The patterns added to a glob set builder, in order.
pub uninterp spec fn builder_patterns(builder: GlobSetBuilder) -> Seq<Seq<char>>;

/// Whether `Glob::new` accepts a pattern.
pub uninterp spec fn glob_is_valid(pattern: Seq<char>) -> bool;

/// Whether `GlobSetBuilder::build` succeeds on a builder holding `patterns`.
pub uninterp spec fn glob_set_builds(patterns: Seq<Seq<char>>) -> bool;

/// Whether a glob set built from `patterns` matches `path`.
pub uninterp spec fn globs_match(patterns: Seq<Seq<char>>, path: Seq<char>) -> bool;

/// Relies on the derived `Clone` of `GlobSet`, which copies its fields: the
/// copy holds the same patterns.
pub assume_specification[ <GlobSet as Clone>::clone ](set: &GlobSet) -> (r: GlobSet)
    ensures
        glob_set_patterns(r) == glob_set_patterns(*set),
;

/// Relies on `GlobSetBuilder::new`: a builder that holds no pattern yet.
#[verifier::external_body]
fn new_builder() -> (r: GlobSetBuilder)
    ensures
        builder_patterns(r) == Seq::<Seq<char>>::empty(),
{
    GlobSetBuilder::new()
}

/// Relies on `Glob::new`, which parses a pattern (or says why it cannot), and
/// on `GlobSetBuilder::add`, which appends the parsed glob to the builder.
#[verifier::external_body]
fn add_glob(builder: &mut GlobSetBuilder, pattern: &str) -> (r: Result<(), String>)
    ensures
        r is Ok == glob_is_valid(pattern@),
        r is Ok ==> builder_patterns(*final(builder)) == builder_patterns(*old(builder)).push(
            pattern@,
        ),
        r is Err ==> builder_patterns(*final(builder)) == builder_patterns(*old(builder)),
{
    match Glob::new(pattern) {
        Ok(glob) => {
            builder.add(glob);
            Ok(())
        },
        Err(e) => Err(e.to_string()),
    }
}

/// Relies on `GlobSetBuilder::build`: when it succeeds, the set holds the
/// builder's patterns. Whether it succeeds depends on those patterns alone
/// (it fails when a pattern's regex does not compile).
#[verifier::external_body]
fn build_glob_set(builder: &GlobSetBuilder) -> (r: Result<GlobSet, String>)
    ensures
        r is Ok == glob_set_builds(builder_patterns(*builder)),
        r matches Ok(set) ==> glob_set_patterns(set) == builder_patterns(*builder),
{
    builder.build().map_err(|e| e.to_string())
}

/// Relies on `GlobSet::empty`: a set of no patterns.
#[verifier::external_body]
fn empty_glob_set() -> (r: GlobSet)
    ensures
        glob_set_patterns(r) == Seq::<Seq<char>>::empty(),
{
    GlobSet::empty()
}

/// Relies on `GlobSet::is_match`: whether any glob of the set matches the
/// path, which depends on the set's patterns and the path alone; an empty set
/// matches nothing.
#[verifier::external_body]
fn glob_set_is_match(set: &GlobSet, path: &str) -> (r: bool)
    ensures
        r == globs_match(glob_set_patterns(*set), path@),
        glob_set_patterns(*set).len() == 0 ==> !r,
{
    set.is_match(path)
}

/// Why a set of glob patterns was refused: the offending pattern, when one
/// is to blame, and a description.
#[derive(Clone, Debug, PartialEq, Eq)]
pub struct GlobError {
    pub glob: Option<String>,
    pub description: String,
}

/// `path` ends with a separator.
pub open spec fn ends_with_separator(path: Seq<char>) -> bool {
    path.len() > 0 && path.last() == '/'
}

/// What a matcher with these sources accepts: a path that begins or ends with
/// the text of a source; a path that the globs match; or a path without a
/// trailing separator that the globs match once one is added.
pub open spec fn matcher_accepts(sources: Seq<Seq<char>>, path: Seq<char>) -> bool {
    ||| exists|i: int|
        0 <= i < sources.len() && ((#[trigger] sources[i]).is_prefix_of(path)
            || sources[i].is_suffix_of(path))
    ||| globs_match(sources, path)
    ||| !ends_with_separator(path) && globs_match(sources, path.push('/'))
}

/// The view of a list of strings.
pub open spec fn strings_view(v: Seq<String>) -> Seq<Seq<char>> {
    v.map_values(|s: String| s@)
}

/// A set of glob patterns compiled together; two matchers are equal when
/// their pattern texts are.
#[derive(Debug)]
pub struct PathMatcher {
    sources: Vec<String>,
    glob: GlobSet,
}

impl PathMatcher {
    /// The pattern texts, in order.
    pub closed spec fn sources_view(&self) -> Seq<Seq<char>> {
        strings_view(self.sources@)
    }

    /// The compiled set holds exactly the sources.
    #[verifier::type_invariant]
    spec fn compiled_from_sources(&self) -> bool {
        glob_set_patterns(self.glob) == strings_view(self.sources@)
    }

    /// Compiles `globs` into one matcher. It succeeds exactly when every
    /// pattern parses and the set of them compiles. The first pattern that does
    /// not parse is reported; with all of them valid, a set that does not
    /// compile gives an error that names no pattern.
    pub fn new(globs: &[String]) -> (r: Result<Self, GlobError>)
        ensures
            r is Ok <==> (forall|i: int| 0 <= i < globs@.len() ==> glob_is_valid(#[trigger] globs@[i]@))
                && glob_set_builds(strings_view(globs@)),
            match r {
                Ok(m) => m.sources_view() == strings_view(globs@) && forall|i: int|
                    0 <= i < globs@.len() ==> glob_is_valid(#[trigger] globs@[i]@),
                Err(e) => match e.glob {
                    Some(p) => exists|i: int|
                        0 <= i < globs@.len() && p@ == (#[trigger] globs@[i])@ && !glob_is_valid(
                            globs@[i]@,
                        ) && forall|j: int| 0 <= j < i ==> glob_is_valid(#[trigger] globs@[j]@),
                    None => (forall|i: int| 0 <= i < globs@.len() ==> glob_is_valid(#[trigger] globs@[i]@))
                        && !glob_set_builds(strings_view(globs@)),
                },
            },
    {
        let mut builder = new_builder();
        let mut sources: Vec<String> = Vec::new();
        let mut i: usize = 0;
        while i < globs.len()
            invariant
                i <= globs@.len(),
                builder_patterns(builder) == strings_view(sources@),
                strings_view(sources@) == strings_view(globs@.subrange(0, i as int)),
                forall|j: int| 0 <= j < i ==> glob_is_valid(#[trigger] globs@[j]@),
            decreases globs@.len() - i,
        {
            match add_glob(&mut builder, globs[i].as_str()) {
                Ok(()) => {},
                Err(description) => {
                    assert(!glob_is_valid(globs@[i as int]@));
                    return Err(GlobError { glob: Some(globs[i].clone()), description });
                },
            }
            let ghost before = sources@;
            sources.push(globs[i].clone());
            assert(strings_view(sources@) =~= strings_view(before).push(globs@[i as int]@));
            assert(strings_view(globs@.subrange(0, i + 1)) =~= strings_view(
                globs@.subrange(0, i as int),
            ).push(globs@[i as int]@));
            i += 1;
        }
        assert(globs@.subrange(0, i as int) =~= globs@);
        match build_glob_set(&builder) {
            Ok(glob) => Ok(PathMatcher { sources, glob }),
            Err(description) => Err(GlobError { glob: None, description }),
        }
    }

    /// The pattern texts, in order.
    pub fn sources(&self) -> (r: &[String])
        ensures
            strings_view(r@) == self.sources_view(),
    {
        self.sources.as_slice()
    }

    /// Whether `other` begins or ends with the text of a source, or the
    /// globs match it, or it has no trailing separator and the globs match it
    /// with one.
    pub fn is_match(&self, other: &str) -> (r: bool)
        ensures
            r == matcher_accepts(self.sources_view(), other@),
    {
        proof {
            use_type_invariant(self);
        }
        let pv = chars_of(other);
        let mut i: usize = 0;
        while i < self.sources.len()
            invariant
                pv@ == other@,
                i <= self.sources@.len(),
                forall|j: int|
                    0 <= j < i ==> !((#[trigger] self.sources@[j])@.is_prefix_of(other@)
                        || self.sources@[j]@.is_suffix_of(other@)),
            decreases self.sources@.len() - i,
        {
            let sv = chars_of(self.sources[i].as_str());
            if starts_with_chars(&pv, &sv) || ends_with_chars(&pv, &sv) {
                assert(self.sources_view()[i as int] == sv@);
                return true;
            }
            i += 1;
        }
        assert forall|j: int| 0 <= j < self.sources_view().len() implies !((
        #[trigger] self.sources_view()[j]).is_prefix_of(other@)
            || self.sources_view()[j].is_suffix_of(other@)) by {
            assert(self.sources_view()[j] == self.sources@[j]@);
        }
        glob_set_is_match(&self.glob, other) || self.check_with_end_separator(other)
    }

    /// Whether `path` has no trailing separator and the globs match it with one.
    fn check_with_end_separator(&self, path: &str) -> (r: bool)
        ensures
            r == (!ends_with_separator(path@) && globs_match(self.sources_view(), path@.push('/'))),
    {
        proof {
            use_type_invariant(self);
        }
        let n = path.unicode_len();
        if n > 0 && path.get_char(n - 1) == '/' {
            return false;
        }
        let mut with_separator = String::from_str(path);
        with_separator.append("/");
        proof {
            reveal_strlit("/");
        }
        assert(with_separator@ =~= path@.push('/'));
        glob_set_is_match(&self.glob, with_separator.as_str())
    }
}

/// A copy of a list of strings.
fn clone_strings(v: &Vec<String>) -> (r: Vec<String>)
    ensures
        strings_view(r@) == strings_view(v@),
{
    let mut r: Vec<String> = Vec::new();
    let mut i: usize = 0;
    while i < v.len()
        invariant
            i <= v@.len(),
            strings_view(r@) == strings_view(v@.subrange(0, i as int)),
        decreases v@.len() - i,
    {
        let ghost before = r@;
        r.push(v[i].clone());
        assert(strings_view(r@) =~= strings_view(before).push(v@[i as int]@));
        assert(strings_view(v@.subrange(0, i + 1)) =~= strings_view(v@.subrange(0, i as int)).push(
            v@[i as int]@,
        ));
        i += 1;
    }
    assert(v@.subrange(0, i as int) =~= v@);
    r
}

impl Clone for PathMatcher {
    fn clone(&self) -> (r: Self)
        ensures
            r.sources_view() == self.sources_view(),
    {
        proof {
            use_type_invariant(self);
        }
        PathMatcher { sources: clone_strings(&self.sources), glob: self.glob.clone() }
    }
}

impl Default for PathMatcher {
    fn default() -> (r: Self)
        ensures
            r.sources_view() == Seq::<Seq<char>>::empty(),
    {
        let sources: Vec<String> = Vec::new();
        assert(strings_view(sources@) =~= Seq::<Seq<char>>::empty());
        PathMatcher { sources, glob: empty_glob_set() }
    }
}

impl PartialEq for PathMatcher {
    fn eq(&self, other: &Self) -> (r: bool) {
        if self.sources.len() != other.sources.len() {
            return false;
        }
        let mut i: usize = 0;
        while i < self.sources.len()
            invariant
                i <= self.sources@.len(),
                self.sources@.len() == other.sources@.len(),
                forall|j: int| 0 <= j < i ==> (#[trigger] self.sources@[j])@ == other.sources@[j]@,
            decreases self.sources@.len() - i,
        {
            if self.sources[i] != other.sources[i] {
                assert(strings_view(self.sources@)[i as int] != strings_view(other.sources@)[i as int]);
                return false;
            }
            i += 1;
        }
        assert(strings_view(self.sources@) =~= strings_view(other.sources@));
        true
    }
}

impl vstd::std_specs::cmp::PartialEqSpecImpl for PathMatcher {
    open spec fn obeys_eq_spec() -> bool {
        true
    }

    open spec fn eq_spec(&self, other: &PathMatcher) -> bool {
        self.sources_view() == other.sources_view()
    }
}

/// Whether `p` begins with `s`.
pub fn starts_with_chars(p: &Vec<char>, s: &Vec<char>) -> (r: bool)
    ensures
        r == s@.is_prefix_of(p@),
{
    if s.len() > p.len() {
        return false;
    }
    let mut k: usize = 0;
    while k < s.len()
        invariant
            s@.len() <= p@.len(),
            k <= s@.len(),
            forall|j: int| 0 <= j < k ==> s@[j] == p@[j],
        decreases s@.len() - k,
    {
        if s[k] != p[k] {
            return false;
        }
        k += 1;
    }
    assert(s@ =~= p@.subrange(0, s@.len() as int));
    true
}

/// Whether `p` ends with `s`.
pub fn ends_with_chars(p: &Vec<char>, s: &Vec<char>) -> (r: bool)
    ensures
        r == s@.is_suffix_of(p@),
{
    if s.len() > p.len() {
        return false;
    }
    let n = p.len();
    let off = n - s.len();
    let mut k: usize = 0;
    while k < s.len()
        invariant
            s@.len() <= p@.len(),
            off == p@.len() - s@.len(),
            off + s@.len() == p@.len(),
            n == p@.len(),
            k <= s@.len(),
            forall|j: int| 0 <= j < k ==> s@[j] == p@[off + j],
        decreases s@.len() - k,
    {
        if s[k] != p[off + k] {
            return false;
        }
        k += 1;
    }
    assert(s@ =~= p@.subrange(off as int, p@.len() as int));
    true
}

/// When every pattern ends in `/**`, a path without a trailing separator that
/// is accepted once a separator is added is accepted as it is.
pub proof fn lemma_directory_patterns_accept_without_separator(
    sources: Seq<Seq<char>>,
    path: Seq<char>,
)
    requires
        forall|i: int| 0 <= i < sources.len() ==> seq!['/', '*', '*'].is_suffix_of(#[trigger] sources[i]),
        !ends_with_separator(path),
    ensures
        matcher_accepts(sources, path.push('/')) ==> matcher_accepts(sources, path),
{
    let with_sep = path.push('/');
    if exists|i: int|
        0 <= i < sources.len() && ((#[trigger] sources[i]).is_prefix_of(with_sep)
            || sources[i].is_suffix_of(with_sep)) {
        let i = choose|i: int|
            0 <= i < sources.len() && ((#[trigger] sources[i]).is_prefix_of(with_sep)
                || sources[i].is_suffix_of(with_sep));
        let src = sources[i];
        let n = src.len();
        assert(seq!['/', '*', '*'].is_suffix_of(src));
        assert(src[n - 1] == seq!['/', '*', '*'][2]);
        if src.is_suffix_of(with_sep) {
            assert(src[n - 1] == with_sep[with_sep.len() - 1]);
        } else {
            if n == with_sep.len() {
                assert(src[n - 1] == with_sep[n - 1]);
            } else {
                assert(src =~= path.subrange(0, n as int)) by {
                    assert forall|k: int| 0 <= k < n implies src[k] == path[k] by {
                        assert(src[k] == with_sep.subrange(0, n as int)[k]);
                    }
                }
                assert(src.is_prefix_of(path));
            }
        }
    }
}

} // verus!
