use core::cmp::Ordering;
use vstd::prelude::*;

verus! {

/// The opposite outcome of a comparison.
pub open spec fn reversed(o: Ordering) -> Ordering {
    match o {
        Ordering::Less => Ordering::Greater,
        Ordering::Equal => Ordering::Equal,
        Ordering::Greater => Ordering::Less,
    }
}

/// `o1`, unless it is `Equal`, in which case `o2` decides.
pub open spec fn then_cmp(o1: Ordering, o2: Ordering) -> Ordering {
    if o1 == Ordering::Equal {
        o2
    } else {
        o1
    }
}

/// The usual order of the integers.
pub open spec fn int_cmp(a: int, b: int) -> Ordering {
    if a < b {
        Ordering::Less
    } else if a == b {
        Ordering::Equal
    } else {
        Ordering::Greater
    }
}

/// `false` before `true`.
pub open spec fn bool_cmp(a: bool, b: bool) -> Ordering {
    int_cmp(if a { 1 } else { 0 }, if b { 1 } else { 0 })
}

/// Extends `cmp` to optional values; an absent value comes first.
pub open spec fn option_cmp<T>(cmp: spec_fn(T, T) -> Ordering, a: Option<T>, b: Option<T>) -> Ordering {
    match (a, b) {
        (Some(x), Some(y)) => cmp(x, y),
        (Some(_), None) => Ordering::Greater,
        (None, Some(_)) => Ordering::Less,
        (None, None) => Ordering::Equal,
    }
}

/// Lexicographic extension of `cmp` to sequences; a proper prefix comes first.
pub open spec fn lex_cmp<T>(cmp: spec_fn(T, T) -> Ordering, a: Seq<T>, b: Seq<T>) -> Ordering
    decreases a.len(),
{
    if a.len() == 0 {
        if b.len() == 0 {
            Ordering::Equal
        } else {
            Ordering::Less
        }
    } else if b.len() == 0 {
        Ordering::Greater
    } else {
        then_cmp(cmp(a[0], b[0]), lex_cmp(cmp, a.drop_first(), b.drop_first()))
    }
}

/// `cmp` is a total preorder: every value is `Equal` to itself, swapping the
/// arguments reverses the outcome, and `Less` and `Equal` chain transitively.
/// Its strict part (`Less`) is then a strict weak ordering.
pub open spec fn is_total_preorder<T>(cmp: spec_fn(T, T) -> Ordering) -> bool {
    &&& forall|x: T| #[trigger] cmp(x, x) == Ordering::Equal
    &&& forall|x: T, y: T| #[trigger] cmp(y, x) == reversed(cmp(x, y))
    &&& forall|x: T, y: T, z: T|
        #![trigger cmp(x, y), cmp(y, z)]
        cmp(x, y) != Ordering::Greater && cmp(y, z) != Ordering::Greater ==> cmp(x, z)
            == then_cmp(cmp(x, y), cmp(y, z))
}

pub proof fn lemma_int_cmp_total_preorder()
    ensures
        is_total_preorder(|a: int, b: int| int_cmp(a, b)),
{
}

proof fn lemma_lex_cmp_refl<T>(cmp: spec_fn(T, T) -> Ordering, a: Seq<T>)
    requires
        is_total_preorder(cmp),
    ensures
        lex_cmp(cmp, a, a) == Ordering::Equal,
    decreases a.len(),
{
    if a.len() > 0 {
        assert(cmp(a[0], a[0]) == Ordering::Equal);
        lemma_lex_cmp_refl(cmp, a.drop_first());
    }
}

proof fn lemma_lex_cmp_swap<T>(cmp: spec_fn(T, T) -> Ordering, a: Seq<T>, b: Seq<T>)
    requires
        is_total_preorder(cmp),
    ensures
        lex_cmp(cmp, b, a) == reversed(lex_cmp(cmp, a, b)),
    decreases a.len(),
{
    if a.len() > 0 && b.len() > 0 {
        assert(cmp(b[0], a[0]) == reversed(cmp(a[0], b[0])));
        lemma_lex_cmp_swap(cmp, a.drop_first(), b.drop_first());
    }
}

proof fn lemma_lex_cmp_trans<T>(cmp: spec_fn(T, T) -> Ordering, a: Seq<T>, b: Seq<T>, c: Seq<T>)
    requires
        is_total_preorder(cmp),
        lex_cmp(cmp, a, b) != Ordering::Greater,
        lex_cmp(cmp, b, c) != Ordering::Greater,
    ensures
        lex_cmp(cmp, a, c) == then_cmp(lex_cmp(cmp, a, b), lex_cmp(cmp, b, c)),
    decreases a.len(),
{
    if a.len() > 0 && b.len() > 0 && c.len() > 0 {
        let h1 = cmp(a[0], b[0]);
        let h2 = cmp(b[0], c[0]);
        assert(h1 != Ordering::Greater);
        assert(h2 != Ordering::Greater);
        assert(cmp(a[0], c[0]) == then_cmp(h1, h2));
        if h1 == Ordering::Equal && h2 == Ordering::Equal {
            lemma_lex_cmp_trans(cmp, a.drop_first(), b.drop_first(), c.drop_first());
        }
    }
}

/// Lexicographic extension preserves being a total preorder.
pub proof fn lemma_lex_cmp_total_preorder<T>(cmp: spec_fn(T, T) -> Ordering)
    requires
        is_total_preorder(cmp),
    ensures
        is_total_preorder(|a: Seq<T>, b: Seq<T>| lex_cmp(cmp, a, b)),
{
    let lc = |a: Seq<T>, b: Seq<T>| lex_cmp(cmp, a, b);
    assert forall|x: Seq<T>| #[trigger] lc(x, x) == Ordering::Equal by {
        lemma_lex_cmp_refl(cmp, x);
    }
    assert forall|x: Seq<T>, y: Seq<T>| #[trigger] lc(y, x) == reversed(lc(x, y)) by {
        lemma_lex_cmp_swap(cmp, x, y);
    }
    assert forall|x: Seq<T>, y: Seq<T>, z: Seq<T>|
        #![trigger lc(x, y), lc(y, z)]
        lc(x, y) != Ordering::Greater && lc(y, z) != Ordering::Greater implies lc(x, z)
            == then_cmp(lc(x, y), lc(y, z)) by {
        lemma_lex_cmp_trans(cmp, x, y, z);
    }
}

/// Comparing by `c1` first and by `c2` among the values that `c1` holds equal
/// is again a total preorder.
pub proof fn lemma_then_cmp_total_preorder<T>(
    c1: spec_fn(T, T) -> Ordering,
    c2: spec_fn(T, T) -> Ordering,
    c: spec_fn(T, T) -> Ordering,
)
    requires
        is_total_preorder(c1),
        is_total_preorder(c2),
        forall|a: T, b: T| #[trigger] c(a, b) == then_cmp(c1(a, b), c2(a, b)),
    ensures
        is_total_preorder(c),
{
    assert forall|x: T| #[trigger] c(x, x) == Ordering::Equal by {
        assert(c1(x, x) == Ordering::Equal);
        assert(c2(x, x) == Ordering::Equal);
    }
    assert forall|x: T, y: T| #[trigger] c(y, x) == reversed(c(x, y)) by {
        assert(c1(y, x) == reversed(c1(x, y)));
        assert(c2(y, x) == reversed(c2(x, y)));
    }
    assert forall|x: T, y: T, z: T|
        #![trigger c(x, y), c(y, z)]
        c(x, y) != Ordering::Greater && c(y, z) != Ordering::Greater implies c(x, z) == then_cmp(
            c(x, y),
            c(y, z),
        ) by {
        assert(c1(y, x) == reversed(c1(x, y)));
        assert(c1(z, y) == reversed(c1(y, z)));
        assert(c1(z, x) == reversed(c1(x, z)));
        if c1(x, y) != Ordering::Greater && c1(y, z) != Ordering::Greater {
            assert(c1(x, z) == then_cmp(c1(x, y), c1(y, z)));
            if c1(x, y) == Ordering::Equal && c1(y, z) == Ordering::Equal {
                assert(c2(x, z) == then_cmp(c2(x, y), c2(y, z)));
            }
        }
    }
}

/// Reversing a total preorder gives a total preorder.
pub proof fn lemma_reversed_total_preorder<T>(c: spec_fn(T, T) -> Ordering, r: spec_fn(T, T) -> Ordering)
    requires
        is_total_preorder(c),
        forall|a: T, b: T| #[trigger] r(a, b) == reversed(c(a, b)),
    ensures
        is_total_preorder(r),
{
    assert forall|x: T| #[trigger] r(x, x) == Ordering::Equal by {
        assert(c(x, x) == Ordering::Equal);
    }
    assert forall|x: T, y: T| #[trigger] r(y, x) == reversed(r(x, y)) by {
        assert(c(y, x) == reversed(c(x, y)));
    }
    assert forall|x: T, y: T, z: T|
        #![trigger r(x, y), r(y, z)]
        r(x, y) != Ordering::Greater && r(y, z) != Ordering::Greater implies r(x, z) == then_cmp(
            r(x, y),
            r(y, z),
        ) by {
        assert(c(y, x) == reversed(c(x, y)));
        assert(c(z, y) == reversed(c(y, z)));
        assert(c(z, x) == reversed(c(x, z)));
        assert(c(z, x) == then_cmp(c(z, y), c(y, x)));
    }
}

/// Extending a total preorder to optional values gives a total preorder.
pub proof fn lemma_option_cmp_total_preorder<T>(
    c: spec_fn(T, T) -> Ordering,
    o: spec_fn(Option<T>, Option<T>) -> Ordering,
)
    requires
        is_total_preorder(c),
        forall|a: Option<T>, b: Option<T>| #[trigger] o(a, b) == option_cmp(c, a, b),
    ensures
        is_total_preorder(o),
{
    assert forall|x: Option<T>| #[trigger] o(x, x) == Ordering::Equal by {
        if let Some(v) = x {
            assert(c(v, v) == Ordering::Equal);
        }
    }
    assert forall|x: Option<T>, y: Option<T>| #[trigger] o(y, x) == reversed(o(x, y)) by {
        if x is Some && y is Some {
            assert(c(y->0, x->0) == reversed(c(x->0, y->0)));
        }
    }
    assert forall|x: Option<T>, y: Option<T>, z: Option<T>|
        #![trigger o(x, y), o(y, z)]
        o(x, y) != Ordering::Greater && o(y, z) != Ordering::Greater implies o(x, z) == then_cmp(
            o(x, y),
            o(y, z),
        ) by {
        if x is Some && y is Some && z is Some {
            assert(c(x->0, z->0) == then_cmp(c(x->0, y->0), c(y->0, z->0)));
        }
    }
}

/// Comparing values by a key under a total preorder is a total preorder.
pub proof fn lemma_key_cmp_total_preorder<A, K>(
    c: spec_fn(K, K) -> Ordering,
    key: spec_fn(A) -> K,
    k: spec_fn(A, A) -> Ordering,
)
    requires
        is_total_preorder(c),
        forall|a: A, b: A| #[trigger] k(a, b) == c(key(a), key(b)),
    ensures
        is_total_preorder(k),
{
    assert forall|x: A| #[trigger] k(x, x) == Ordering::Equal by {
        assert(c(key(x), key(x)) == Ordering::Equal);
    }
    assert forall|x: A, y: A| #[trigger] k(y, x) == reversed(k(x, y)) by {
        assert(c(key(y), key(x)) == reversed(c(key(x), key(y))));
    }
    assert forall|x: A, y: A, z: A|
        #![trigger k(x, y), k(y, z)]
        k(x, y) != Ordering::Greater && k(y, z) != Ordering::Greater implies k(x, z) == then_cmp(
            k(x, y),
            k(y, z),
        ) by {
        assert(c(key(x), key(z)) == then_cmp(c(key(x), key(y)), c(key(y), key(z))));
    }
}

} // verus!
