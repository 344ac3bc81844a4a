//! Checks of algebraic laws on given items: whether an operation, tried on
//! every combination of the items, is associative, commutative, has an
//! identity, and so on up to the laws of a field.
use vstd::prelude::*;
use vstd::std_specs::cmp::PartialEqSpec;

verus! {

broadcast use vstd::array::group_array_axioms;

/// Whether the operation `f` can be applied to every pair of values and
/// computes the function `op`.
pub open spec fn computes<S, F: Fn(S, S) -> S>(f: F, op: spec_fn(S, S) -> S) -> bool {
    forall|a: S, b: S, r: S|
        f.requires((a, b)) && (#[trigger] f.ensures((a, b), r) ==> r == op(a, b))
}

/// Whether the operation `b` can be applied to every value and computes the
/// function `inv`.
pub open spec fn computes_unary<S, B: Fn(S) -> S>(b: B, inv: spec_fn(S) -> S) -> bool {
    forall|a: S, r: S| b.requires((a,)) && (#[trigger] b.ensures((a,), r) ==> r == inv(a))
}

/// Whether `clone` and `==` of `S` mean what they say: a clone is the value
/// cloned, and `==` obeys its specification.
pub open spec fn plain<S: PartialEq + Clone>() -> bool {
    &&& S::obeys_eq_spec()
    &&& forall|a: S, b: S| #[trigger] cloned(a, b) ==> a == b
}

/// A copy of `a`.
fn copy<S: PartialEq + Clone>(a: &S) -> (r: S)
    ensures
        plain::<S>() ==> r == *a,
{
    let r = a.clone();
    assert(cloned(*a, r));
    r
}

/// `f` applied to `a` and `b`.
fn apply<S, F: Fn(S, S) -> S>(f: &F, a: S, b: S) -> (r: S)
    requires
        forall|a: S, b: S| f.requires((a, b)),
    ensures
        forall|op: spec_fn(S, S) -> S| #[trigger] computes(*f, op) ==> r == op(a, b),
{
    let r = f(a, b);
    assert(f.ensures((a, b), r));
    r
}

/// `b` applied to `a`.
fn apply_unary<S, B: Fn(S) -> S>(b: &B, a: S) -> (r: S)
    requires
        forall|a: S| b.requires((a,)),
    ensures
        forall|inv: spec_fn(S) -> S| #[trigger] computes_unary(*b, inv) ==> r == inv(a),
{
    let r = b(a);
    assert(b.ensures((a,), r));
    r
}

/// Whether `a == b`.
pub(crate) fn same<S: PartialEq>(a: &S, b: &S) -> (r: bool)
    ensures
        S::obeys_eq_spec() ==> r == a.eq_spec(b),
{
    *a == *b
}

/// Whether the test `holds_at` decides the law `law`.
pub open spec fn decides3<S, P: Fn(&S, &S, &S) -> bool>(holds_at: P, law: spec_fn(S, S, S) -> bool) -> bool {
    forall|a: S, b: S, c: S, r: bool| #[trigger]
        holds_at.ensures((&a, &b, &c), r) ==> r == law(a, b, c)
}

/// Whether `law` holds of every three items of `items`.
pub open spec fn holds_of_all3<S>(items: Seq<S>, law: spec_fn(S, S, S) -> bool) -> bool {
    forall|i: int, j: int, k: int|
        0 <= i < items.len() && 0 <= j < items.len() && 0 <= k < items.len() ==> #[trigger] law(
            items[i],
            items[j],
            items[k],
        )
}

/// Whether `holds_at` returns `true` for every three items of `items`, taken
/// in every order and with repetition. Stops at the first `false`.
pub(crate) fn all_triples<S, P: Fn(&S, &S, &S) -> bool>(items: &[S], holds_at: &P) -> (all: bool)
    requires
        forall|i: int, j: int, k: int|
            0 <= i < items@.len() && 0 <= j < items@.len() && 0 <= k < items@.len()
                ==> holds_at.requires((&items@[i], &items@[j], &items@[k])),
    ensures
        forall|law: spec_fn(S, S, S) -> bool| #[trigger]
            decides3(*holds_at, law) ==> all == holds_of_all3(items@, law),
{
    let n = items.len();
    let mut i: usize = 0;
    while i < n
        invariant
            n == items@.len(),
            i <= n,
            forall|i: int, j: int, k: int|
                0 <= i < items@.len() && 0 <= j < items@.len() && 0 <= k < items@.len()
                    ==> holds_at.requires((&items@[i], &items@[j], &items@[k])),
            forall|law: spec_fn(S, S, S) -> bool| #[trigger]
                decides3(*holds_at, law) ==> forall|i2: int, j: int, k: int|
                    0 <= i2 < i && 0 <= j < n && 0 <= k < n ==> #[trigger] law(
                        items@[i2],
                        items@[j],
                        items@[k],
                    ),
        decreases n - i,
    {
        let mut j: usize = 0;
        while j < n
            invariant
                n == items@.len(),
                i < n,
                j <= n,
                forall|i: int, j: int, k: int|
                0 <= i < items@.len() && 0 <= j < items@.len() && 0 <= k < items@.len()
                    ==> holds_at.requires((&items@[i], &items@[j], &items@[k])),
                forall|law: spec_fn(S, S, S) -> bool| #[trigger]
                    decides3(*holds_at, law) ==> forall|i2: int, j2: int, k: int|
                        (0 <= i2 < i && 0 <= j2 < n || i2 == i && 0 <= j2 < j) && 0 <= k < n
                            ==> #[trigger] law(items@[i2], items@[j2], items@[k]),
            decreases n - j,
        {
            let mut k: usize = 0;
            while k < n
                invariant
                    n == items@.len(),
                i < n,
                    j < n,
                    k <= n,
                    forall|i: int, j: int, k: int|
                0 <= i < items@.len() && 0 <= j < items@.len() && 0 <= k < items@.len()
                    ==> holds_at.requires((&items@[i], &items@[j], &items@[k])),
                    forall|law: spec_fn(S, S, S) -> bool| #[trigger]
                        decides3(*holds_at, law) ==> forall|i2: int, j2: int, k2: int|
                            (0 <= i2 < i && 0 <= j2 < n && 0 <= k2 < n || i2 == i && 0 <= j2 < j
                                && 0 <= k2 < n || i2 == i && j2 == j && 0 <= k2 < k)
                                ==> #[trigger] law(items@[i2], items@[j2], items@[k2]),
                decreases n - k,
            {
                let holds = holds_at(&items[i], &items[j], &items[k]);
                assert(holds_at.ensures((&items@[i as int], &items@[j as int], &items@[k as int]), holds));
                if !holds {
                    proof {
                        assert forall|law: spec_fn(S, S, S) -> bool| #[trigger]
                            decides3(*holds_at, law) implies !holds_of_all3(items@, law) by {
                            assert(!law(items@[i as int], items@[j as int], items@[k as int]));
                        }
                    }
                    return false;
                }
                k += 1;
            }
            j += 1;
        }
        i += 1;
    }
    true
}

/// `a(bc) = (ab)c`.
pub open spec fn associative_at<S: PartialEq>(op: spec_fn(S, S) -> S, a: S, b: S, c: S) -> bool {
    op(a, op(b, c)).eq_spec(&op(op(a, b), c))
}

/// `a(bc) = (ab)c` for all `a`, `b`, `c` of `items`.
pub open spec fn associative_on<S: PartialEq>(items: Seq<S>, op: spec_fn(S, S) -> S) -> bool {
    holds_of_all3(items, |a: S, b: S, c: S| associative_at(op, a, b, c))
}

/// Whether `f` is associative on `items`: whether `a(bc) = (ab)c` for all `a`,
/// `b`, `c` of `items`.
pub fn associativity<S: PartialEq + Clone, F: Fn(S, S) -> S, const N: usize>(
    items: &[S; N],
    f: &F,
) -> (holds: bool)
    requires
        forall|a: S, b: S| f.requires((a, b)),
    ensures
        forall|op: spec_fn(S, S) -> S|
            plain::<S>() && #[trigger] computes(*f, op) ==> holds == associative_on(items@, op),
{
    let holds_at = |a: &S, b: &S, c: &S| -> (r: bool)
        ensures
            forall|op: spec_fn(S, S) -> S|
                plain::<S>() && #[trigger] computes(*f, op) ==> r == associative_at(op, *a, *b, *c),
        {
            let left = apply(f, copy(a), apply(f, copy(b), copy(c)));
            let right = apply(f, apply(f, copy(a), copy(b)), copy(c));
            same(&left, &right)
        };
    let holds = all_triples(items.as_slice(), &holds_at);
    proof {
        assert forall|op: spec_fn(S, S) -> S| plain::<S>() && #[trigger] computes(*f, op) implies holds
            == associative_on(items@, op) by {
            assert(decides3(holds_at, |a: S, b: S, c: S| associative_at(op, a, b, c)));
        }
    }
    holds
}

/// Whether the test `holds_at` decides the law `law`.
pub open spec fn decides2<S, P: Fn(&S, &S) -> bool>(holds_at: P, law: spec_fn(S, S) -> bool) -> bool {
    forall|a: S, b: S, r: bool| #[trigger] holds_at.ensures((&a, &b), r) ==> r == law(a, b)
}

/// Whether `law` holds of every two items of `items`.
pub open spec fn holds_of_all2<S>(items: Seq<S>, law: spec_fn(S, S) -> bool) -> bool {
    forall|i: int, j: int|
        0 <= i < items.len() && 0 <= j < items.len() ==> #[trigger] law(items[i], items[j])
}

/// Whether `holds_at` returns `true` for every two items of `items`, taken in
/// either order and with repetition. Stops at the first `false`.
pub(crate) fn all_pairs<S, P: Fn(&S, &S) -> bool>(items: &[S], holds_at: &P) -> (all: bool)
    requires
        forall|i: int, j: int|
            0 <= i < items@.len() && 0 <= j < items@.len() ==> holds_at.requires(
                (&items@[i], &items@[j]),
            ),
    ensures
        forall|law: spec_fn(S, S) -> bool| #[trigger]
            decides2(*holds_at, law) ==> all == holds_of_all2(items@, law),
{
    let n = items.len();
    let mut i: usize = 0;
    while i < n
        invariant
            n == items@.len(),
            i <= n,
            forall|i: int, j: int|
                0 <= i < items@.len() && 0 <= j < items@.len() ==> holds_at.requires(
                    (&items@[i], &items@[j]),
                ),
            forall|law: spec_fn(S, S) -> bool| #[trigger]
                decides2(*holds_at, law) ==> forall|i2: int, j: int|
                    0 <= i2 < i && 0 <= j < n ==> #[trigger] law(items@[i2], items@[j]),
        decreases n - i,
    {
        let mut j: usize = 0;
        while j < n
            invariant
                n == items@.len(),
                i < n,
                j <= n,
                forall|i: int, j: int|
                0 <= i < items@.len() && 0 <= j < items@.len() ==> holds_at.requires(
                    (&items@[i], &items@[j]),
                ),
                forall|law: spec_fn(S, S) -> bool| #[trigger]
                    decides2(*holds_at, law) ==> forall|i2: int, j2: int|
                        (0 <= i2 < i && 0 <= j2 < n || i2 == i && 0 <= j2 < j) ==> #[trigger] law(
                            items@[i2],
                            items@[j2],
                        ),
            decreases n - j,
        {
            let holds = holds_at(&items[i], &items[j]);
            assert(holds_at.ensures((&items@[i as int], &items@[j as int]), holds));
            if !holds {
                proof {
                    assert forall|law: spec_fn(S, S) -> bool| #[trigger]
                        decides2(*holds_at, law) implies !holds_of_all2(items@, law) by {
                        assert(!law(items@[i as int], items@[j as int]));
                    }
                }
                return false;
            }
            j += 1;
        }
        i += 1;
    }
    true
}

/// Whether the test `holds_at` decides the law `law`.
pub open spec fn decides1<S, P: Fn(&S) -> bool>(holds_at: P, law: spec_fn(S) -> bool) -> bool {
    forall|a: S, r: bool| #[trigger] holds_at.ensures((&a,), r) ==> r == law(a)
}

/// Whether `law` holds of every item of `items`.
pub open spec fn holds_of_all1<S>(items: Seq<S>, law: spec_fn(S) -> bool) -> bool {
    forall|i: int| 0 <= i < items.len() ==> #[trigger] law(items[i])
}

/// Whether `holds_at` returns `true` for every item of `items`. Stops at the
/// first `false`.
pub(crate) fn all_items<S, P: Fn(&S) -> bool>(items: &[S], holds_at: &P) -> (all: bool)
    requires
        forall|i: int| 0 <= i < items@.len() ==> holds_at.requires((&items@[i],)),
    ensures
        forall|law: spec_fn(S) -> bool| #[trigger]
            decides1(*holds_at, law) ==> all == holds_of_all1(items@, law),
{
    let n = items.len();
    let mut i: usize = 0;
    while i < n
        invariant
            n == items@.len(),
            i <= n,
            forall|i: int| 0 <= i < items@.len() ==> holds_at.requires((&items@[i],)),
            forall|law: spec_fn(S) -> bool| #[trigger]
                decides1(*holds_at, law) ==> forall|i2: int|
                    0 <= i2 < i ==> #[trigger] law(items@[i2]),
        decreases n - i,
    {
        let holds = holds_at(&items[i]);
        assert(holds_at.ensures((&items@[i as int],), holds));
        if !holds {
            proof {
                assert forall|law: spec_fn(S) -> bool| #[trigger]
                    decides1(*holds_at, law) implies !holds_of_all1(items@, law) by {
                    assert(!law(items@[i as int]));
                }
            }
            return false;
        }
        i += 1;
    }
    true
}

/// `xy = yx`.
pub open spec fn commutative_at<S: PartialEq>(op: spec_fn(S, S) -> S, x: S, y: S) -> bool {
    op(x, y).eq_spec(&op(y, x))
}

/// `xy = yx` for all `x`, `y` of `items`.
pub open spec fn commutative_on<S: PartialEq>(items: Seq<S>, op: spec_fn(S, S) -> S) -> bool {
    holds_of_all2(items, |x: S, y: S| commutative_at(op, x, y))
}

/// Whether `f` is commutative on `items`: whether `xy = yx` for all `x`, `y`
/// of `items`.
pub fn commutativity<S: PartialEq + Clone, F: Fn(S, S) -> S, const N: usize>(
    items: &[S; N],
    f: &F,
) -> (holds: bool)
    requires
        forall|a: S, b: S| f.requires((a, b)),
    ensures
        forall|op: spec_fn(S, S) -> S|
            plain::<S>() && #[trigger] computes(*f, op) ==> holds == commutative_on(items@, op),
{
    let holds_at = |x: &S, y: &S| -> (r: bool)
        ensures
            forall|op: spec_fn(S, S) -> S|
                plain::<S>() && #[trigger] computes(*f, op) ==> r == commutative_at(op, *x, *y),
        {
            let left = apply(f, copy(x), copy(y));
            let right = apply(f, copy(y), copy(x));
            same(&left, &right)
        };
    let holds = all_pairs(items.as_slice(), &holds_at);
    proof {
        assert forall|op: spec_fn(S, S) -> S| plain::<S>() && #[trigger] computes(*f, op) implies holds
            == commutative_on(items@, op) by {
            assert(decides2(holds_at, |x: S, y: S| commutative_at(op, x, y)));
        }
    }
    holds
}

/// `xx = x`.
pub open spec fn idempotent_at<S: PartialEq>(op: spec_fn(S, S) -> S, x: S) -> bool {
    op(x, x).eq_spec(&x)
}

/// `xx = x` for all `x` of `items`.
pub open spec fn idempotent_on<S: PartialEq>(items: Seq<S>, op: spec_fn(S, S) -> S) -> bool {
    holds_of_all1(items, |x: S| idempotent_at(op, x))
}

/// Whether `f` is idempotent on `items`: whether `xx = x` for all `x` of
/// `items`.
pub fn idempotency<S: PartialEq + Clone, F: Fn(S, S) -> S, const N: usize>(
    items: &[S; N],
    f: &F,
) -> (holds: bool)
    requires
        forall|a: S, b: S| f.requires((a, b)),
    ensures
        forall|op: spec_fn(S, S) -> S|
            plain::<S>() && #[trigger] computes(*f, op) ==> holds == idempotent_on(items@, op),
{
    let holds_at = |x: &S| -> (r: bool)
        ensures
            forall|op: spec_fn(S, S) -> S|
                plain::<S>() && #[trigger] computes(*f, op) ==> r == idempotent_at(op, *x),
        {
            let left = apply(f, copy(x), copy(x));
            let right = copy(x);
            same(&left, &right)
        };
    let holds = all_items(items.as_slice(), &holds_at);
    proof {
        assert forall|op: spec_fn(S, S) -> S| plain::<S>() && #[trigger] computes(*f, op) implies holds
            == idempotent_on(items@, op) by {
            assert(decides1(holds_at, |x: S| idempotent_at(op, x)));
        }
    }
    holds
}

/// `ea = a` and `ae = a`.
pub open spec fn identity_at<S: PartialEq>(op: spec_fn(S, S) -> S, e: S, a: S) -> bool {
    op(e, a).eq_spec(&a) && op(a, e).eq_spec(&a)
}

/// `ea = a` and `ae = a` for all `a` of `items`.
pub open spec fn identity_on<S: PartialEq>(items: Seq<S>, op: spec_fn(S, S) -> S, e: S) -> bool {
    holds_of_all1(items, |a: S| identity_at(op, e, a))
}

/// Whether `e` is an identity of `f` on `items`: whether `ea = a` and
/// `ae = a` for all `a` of `items`.
pub fn identity<S: PartialEq + Clone, F: Fn(S, S) -> S, const N: usize>(
    items: &[S; N],
    f: &F,
    e: S,
) -> (holds: bool)
    requires
        forall|a: S, b: S| f.requires((a, b)),
    ensures
        forall|op: spec_fn(S, S) -> S|
            plain::<S>() && #[trigger] computes(*f, op) ==> holds == identity_on(items@, op, e),
{
    let e = &e;
    let holds_at = |a: &S| -> (r: bool)
        ensures
            forall|op: spec_fn(S, S) -> S|
                plain::<S>() && #[trigger] computes(*f, op) ==> r == identity_at(op, *e, *a),
        {
            let left = apply(f, copy(e), copy(a));
            let right = apply(f, copy(a), copy(e));
            let plain_a = copy(a);
            same(&left, &plain_a) && same(&right, &plain_a)
        };
    let holds = all_items(items.as_slice(), &holds_at);
    proof {
        assert forall|op: spec_fn(S, S) -> S| plain::<S>() && #[trigger] computes(*f, op) implies holds
            == identity_on(items@, op, *e) by {
            assert(decides1(holds_at, |a: S| identity_at(op, *e, a)));
        }
    }
    holds
}

/// `az = z` and `za = z`.
pub open spec fn absorbing_at<S: PartialEq>(op: spec_fn(S, S) -> S, z: S, a: S) -> bool {
    op(a, z).eq_spec(&z) && op(z, a).eq_spec(&z)
}

/// `az = z` and `za = z` for all `a` of `items`.
pub open spec fn absorbing_on<S: PartialEq>(items: Seq<S>, op: spec_fn(S, S) -> S, z: S) -> bool {
    holds_of_all1(items, |a: S| absorbing_at(op, z, a))
}

/// Whether `z` absorbs under `f` on `items`: whether `az = z` and `za = z`
/// for all `a` of `items`.
pub fn absorbing_element<S: PartialEq + Clone, F: Fn(S, S) -> S, const N: usize>(
    items: &[S; N],
    f: &F,
    z: S,
) -> (holds: bool)
    requires
        forall|a: S, b: S| f.requires((a, b)),
    ensures
        forall|op: spec_fn(S, S) -> S|
            plain::<S>() && #[trigger] computes(*f, op) ==> holds == absorbing_on(items@, op, z),
{
    let z = &z;
    let holds_at = |a: &S| -> (r: bool)
        ensures
            forall|op: spec_fn(S, S) -> S|
                plain::<S>() && #[trigger] computes(*f, op) ==> r == absorbing_at(op, *z, *a),
        {
            let left = apply(f, copy(a), copy(z));
            let right = apply(f, copy(z), copy(a));
            same(&left, z) && same(&right, z)
        };
    let holds = all_items(items.as_slice(), &holds_at);
    proof {
        assert forall|op: spec_fn(S, S) -> S| plain::<S>() && #[trigger] computes(*f, op) implies holds
            == absorbing_on(items@, op, *z) by {
            assert(decides1(holds_at, |a: S| absorbing_at(op, *z, a)));
        }
    }
    holds
}

/// `a inv(a) = e` and `inv(a) a = e`.
pub open spec fn inverse_at<S: PartialEq>(
    op: spec_fn(S, S) -> S,
    inv: spec_fn(S) -> S,
    e: S,
    a: S,
) -> bool {
    op(a, inv(a)).eq_spec(&e) && op(inv(a), a).eq_spec(&e)
}

/// `a inv(a) = e` and `inv(a) a = e` for all `a` of `items`.
pub open spec fn inverse_on<S: PartialEq>(
    items: Seq<S>,
    op: spec_fn(S, S) -> S,
    inv: spec_fn(S) -> S,
    e: S,
) -> bool {
    holds_of_all1(items, |a: S| inverse_at(op, inv, e, a))
}

/// Whether `b` gives inverses under `f` with the identity `e` on `items`:
/// whether `a b(a) = e` and `b(a) a = e` for all `a` of `items`.
pub fn inverse<S: PartialEq + Clone, F: Fn(S, S) -> S, B: Fn(S) -> S, const N: usize>(
    items: &[S; N],
    f: &F,
    e: S,
    b: &B,
) -> (holds: bool)
    requires
        forall|a: S, b: S| f.requires((a, b)),
        forall|a: S| b.requires((a,)),
    ensures
        forall|op: spec_fn(S, S) -> S, inv: spec_fn(S) -> S|
            plain::<S>() && #[trigger] computes(*f, op) && #[trigger] computes_unary(*b, inv)
                ==> holds == inverse_on(items@, op, inv, e),
{
    let e = &e;
    let holds_at = |a: &S| -> (r: bool)
        ensures
            forall|op: spec_fn(S, S) -> S, inv: spec_fn(S) -> S|
                plain::<S>() && #[trigger] computes(*f, op) && #[trigger] computes_unary(*b, inv)
                    ==> r == inverse_at(op, inv, *e, *a),
        {
            let left = apply(f, copy(a), apply_unary(b, copy(a)));
            let right = apply(f, apply_unary(b, copy(a)), copy(a));
            same(&left, e) && same(&right, e)
        };
    let holds = all_items(items.as_slice(), &holds_at);
    proof {
        assert forall|op: spec_fn(S, S) -> S, inv: spec_fn(S) -> S|
            plain::<S>() && #[trigger] computes(*f, op) && #[trigger] computes_unary(
                *b,
                inv,
            ) implies holds == inverse_on(items@, op, inv, *e) by {
            assert(decides1(holds_at, |a: S| inverse_at(op, inv, *e, a)));
        }
    }
    holds
}

/// `a = zero`, or `a inv(a) = e` and `inv(a) a = e`.
pub open spec fn nonzero_inverse_at<S: PartialEq>(
    op: spec_fn(S, S) -> S,
    inv: spec_fn(S) -> S,
    e: S,
    zero: S,
    a: S,
) -> bool {
    a.eq_spec(&zero) || inverse_at(op, inv, e, a)
}

/// For all `a` of `items` but `zero`: `a inv(a) = e` and `inv(a) a = e`.
pub open spec fn nonzero_inverse_on<S: PartialEq>(
    items: Seq<S>,
    op: spec_fn(S, S) -> S,
    inv: spec_fn(S) -> S,
    e: S,
    zero: S,
) -> bool {
    holds_of_all1(items, |a: S| nonzero_inverse_at(op, inv, e, zero, a))
}

/// Whether `b` gives inverses under `f` with the identity `e` on the items of
/// `items` other than `zero`.
pub fn nonzero_inverse<S: PartialEq + Clone, F: Fn(S, S) -> S, B: Fn(S) -> S, const N: usize>(
    items: &[S; N],
    f: &F,
    e: S,
    zero: S,
    b: &B,
) -> (holds: bool)
    requires
        forall|a: S, b: S| f.requires((a, b)),
        forall|a: S| b.requires((a,)),
    ensures
        forall|op: spec_fn(S, S) -> S, inv: spec_fn(S) -> S|
            plain::<S>() && #[trigger] computes(*f, op) && #[trigger] computes_unary(*b, inv)
                ==> holds == nonzero_inverse_on(items@, op, inv, e, zero),
{
    let e = &e;
    let zero = &zero;
    let holds_at = |a: &S| -> (r: bool)
        ensures
            forall|op: spec_fn(S, S) -> S, inv: spec_fn(S) -> S|
                plain::<S>() && #[trigger] computes(*f, op) && #[trigger] computes_unary(*b, inv)
                    ==> r == nonzero_inverse_at(op, inv, *e, *zero, *a),
        {
            if same(a, zero) {
                true
            } else {
                let left = apply(f, copy(a), apply_unary(b, copy(a)));
                let right = apply(f, apply_unary(b, copy(a)), copy(a));
                same(&left, e) && same(&right, e)
            }
        };
    let holds = all_items(items.as_slice(), &holds_at);
    proof {
        assert forall|op: spec_fn(S, S) -> S, inv: spec_fn(S) -> S|
            plain::<S>() && #[trigger] computes(*f, op) && #[trigger] computes_unary(
                *b,
                inv,
            ) implies holds == nonzero_inverse_on(items@, op, inv, *e, *zero) by {
            assert(decides1(holds_at, |a: S| nonzero_inverse_at(op, inv, *e, *zero, a)));
        }
    }
    holds
}

/// `a(b+c) = ab + ac`.
pub open spec fn left_distributes_at<S: PartialEq>(
    plus: spec_fn(S, S) -> S,
    times: spec_fn(S, S) -> S,
    a: S,
    b: S,
    c: S,
) -> bool {
    times(a, plus(b, c)).eq_spec(&plus(times(a, b), times(a, c)))
}

/// `a(b+c) = ab + ac` for all `a`, `b`, `c` of `items`.
pub open spec fn left_distributes_on<S: PartialEq>(
    items: Seq<S>,
    plus: spec_fn(S, S) -> S,
    times: spec_fn(S, S) -> S,
) -> bool {
    holds_of_all3(items, |a: S, b: S, c: S| left_distributes_at(plus, times, a, b, c))
}

/// Whether `g` distributes over `f` from the left on `items`: whether
/// `a(b+c) = ab + ac` for all `a`, `b`, `c` of `items`, with `f` for `+`.
pub fn left_distributes<S: PartialEq + Clone, F: Fn(S, S) -> S, G: Fn(S, S) -> S, const N: usize>(
    items: &[S; N],
    f: &F,
    g: &G,
) -> (holds: bool)
    requires
        forall|a: S, b: S| f.requires((a, b)),
        forall|a: S, b: S| g.requires((a, b)),
    ensures
        forall|plus: spec_fn(S, S) -> S, times: spec_fn(S, S) -> S|
            plain::<S>() && #[trigger] computes(*f, plus) && #[trigger] computes(*g, times) ==> holds
                == left_distributes_on(items@, plus, times),
{
    let holds_at = |a: &S, b: &S, c: &S| -> (r: bool)
        ensures
            forall|plus: spec_fn(S, S) -> S, times: spec_fn(S, S) -> S|
                plain::<S>() && #[trigger] computes(*f, plus) && #[trigger] computes(*g, times) ==> r
                    == left_distributes_at(plus, times, *a, *b, *c),
        {
            let left = apply(g, copy(a), apply(f, copy(b), copy(c)));
            let right = apply(f, apply(g, copy(a), copy(b)), apply(g, copy(a), copy(c)));
            same(&left, &right)
        };
    let holds = all_triples(items.as_slice(), &holds_at);
    proof {
        assert forall|plus: spec_fn(S, S) -> S, times: spec_fn(S, S) -> S|
            plain::<S>() && #[trigger] computes(*f, plus) && #[trigger] computes(
                *g,
                times,
            ) implies holds == left_distributes_on(items@, plus, times) by {
            assert(decides3(holds_at, |a: S, b: S, c: S| left_distributes_at(plus, times, a, b, c)));
        }
    }
    holds
}

/// `(b+c)a = ba + ca`.
pub open spec fn right_distributes_at<S: PartialEq>(
    plus: spec_fn(S, S) -> S,
    times: spec_fn(S, S) -> S,
    a: S,
    b: S,
    c: S,
) -> bool {
    times(plus(b, c), a).eq_spec(&plus(times(b, a), times(c, a)))
}

/// `(b+c)a = ba + ca` for all `a`, `b`, `c` of `items`.
pub open spec fn right_distributes_on<S: PartialEq>(
    items: Seq<S>,
    plus: spec_fn(S, S) -> S,
    times: spec_fn(S, S) -> S,
) -> bool {
    holds_of_all3(items, |a: S, b: S, c: S| right_distributes_at(plus, times, a, b, c))
}

/// Whether `g` distributes over `f` from the right on `items`: whether
/// `(b+c)a = ba + ca` for all `a`, `b`, `c` of `items`, with `f` for `+`.
pub fn right_distributes<S: PartialEq + Clone, F: Fn(S, S) -> S, G: Fn(S, S) -> S, const N: usize>(
    items: &[S; N],
    f: &F,
    g: &G,
) -> (holds: bool)
    requires
        forall|a: S, b: S| f.requires((a, b)),
        forall|a: S, b: S| g.requires((a, b)),
    ensures
        forall|plus: spec_fn(S, S) -> S, times: spec_fn(S, S) -> S|
            plain::<S>() && #[trigger] computes(*f, plus) && #[trigger] computes(*g, times) ==> holds
                == right_distributes_on(items@, plus, times),
{
    let holds_at = |a: &S, b: &S, c: &S| -> (r: bool)
        ensures
            forall|plus: spec_fn(S, S) -> S, times: spec_fn(S, S) -> S|
                plain::<S>() && #[trigger] computes(*f, plus) && #[trigger] computes(*g, times) ==> r
                    == right_distributes_at(plus, times, *a, *b, *c),
        {
            let left = apply(g, apply(f, copy(b), copy(c)), copy(a));
            let right = apply(f, apply(g, copy(b), copy(a)), apply(g, copy(c), copy(a)));
            same(&left, &right)
        };
    let holds = all_triples(items.as_slice(), &holds_at);
    proof {
        assert forall|plus: spec_fn(S, S) -> S, times: spec_fn(S, S) -> S|
            plain::<S>() && #[trigger] computes(*f, plus) && #[trigger] computes(
                *g,
                times,
            ) implies holds == right_distributes_on(items@, plus, times) by {
            assert(decides3(holds_at, |a: S, b: S, c: S| right_distributes_at(plus, times, a, b, c)));
        }
    }
    holds
}

/// Both distributive laws.
pub open spec fn distributive_on<S: PartialEq>(
    items: Seq<S>,
    plus: spec_fn(S, S) -> S,
    times: spec_fn(S, S) -> S,
) -> bool {
    left_distributes_on(items, plus, times) && right_distributes_on(items, plus, times)
}

/// Whether `g` distributes over `f` on `items`, from the left and from the
/// right.
pub fn distributive<S: PartialEq + Clone, F: Fn(S, S) -> S, G: Fn(S, S) -> S, const N: usize>(
    items: &[S; N],
    f: &F,
    g: &G,
) -> (holds: bool)
    requires
        forall|a: S, b: S| f.requires((a, b)),
        forall|a: S, b: S| g.requires((a, b)),
    ensures
        forall|plus: spec_fn(S, S) -> S, times: spec_fn(S, S) -> S|
            plain::<S>() && #[trigger] computes(*f, plus) && #[trigger] computes(*g, times)
                ==> holds == distributive_on(items@, plus, times),
{
    left_distributes(items, f, g) && right_distributes(items, f, g)
}

/// Whether `f` makes `items` a semigroup: whether it is associative.
pub fn semigroup<S: PartialEq + Clone, F: Fn(S, S) -> S, const N: usize>(items: &[S; N], f: &F) -> (holds:
    bool)
    requires
        forall|a: S, b: S| f.requires((a, b)),
    ensures
        forall|op: spec_fn(S, S) -> S|
            plain::<S>() && #[trigger] computes(*f, op) ==> holds == associative_on(items@, op),
{
    associativity(items, f)
}

/// The laws of a monoid: associativity, and an identity.
pub open spec fn monoid_on<S: PartialEq>(items: Seq<S>, op: spec_fn(S, S) -> S, e: S) -> bool {
    associative_on(items, op) && identity_on(items, op, e)
}

/// Whether `f` with the identity `e` makes `items` a monoid.
pub fn monoid<S: PartialEq + Clone, F: Fn(S, S) -> S, const N: usize>(items: &[S; N], f: &F, e: S) -> (holds:
    bool)
    requires
        forall|a: S, b: S| f.requires((a, b)),
    ensures
        forall|op: spec_fn(S, S) -> S|
            plain::<S>() && #[trigger] computes(*f, op) ==> holds == monoid_on(items@, op, e),
{
    semigroup(items, f) && identity(items, f, e)
}

/// The laws of a commutative monoid.
pub open spec fn commutative_monoid_on<S: PartialEq>(
    items: Seq<S>,
    op: spec_fn(S, S) -> S,
    zero: S,
) -> bool {
    monoid_on(items, op, zero) && commutative_on(items, op)
}

/// Whether `f` with the identity `zero` makes `items` a commutative monoid.
pub fn commutative_monoid<S: PartialEq + Clone, F: Fn(S, S) -> S, const N: usize>(
    items: &[S; N],
    f: &F,
    zero: S,
) -> (holds: bool)
    requires
        forall|a: S, b: S| f.requires((a, b)),
    ensures
        forall|op: spec_fn(S, S) -> S|
            plain::<S>() && #[trigger] computes(*f, op) ==> holds == commutative_monoid_on(
                items@,
                op,
                zero,
            ),
{
    monoid(items, f, zero) && commutativity(items, f)
}

/// The laws of a group: those of a monoid, and inverses.
pub open spec fn group_on<S: PartialEq>(
    items: Seq<S>,
    op: spec_fn(S, S) -> S,
    inv: spec_fn(S) -> S,
    e: S,
) -> bool {
    monoid_on(items, op, e) && inverse_on(items, op, inv, e)
}

/// Whether `f` with the identity `e` and the inverses `b` makes `items` a
/// group.
pub fn group<S: PartialEq + Clone, F: Fn(S, S) -> S, B: Fn(S) -> S, const N: usize>(
    items: &[S; N],
    f: &F,
    e: S,
    b: &B,
) -> (holds: bool)
    requires
        forall|a: S, b: S| f.requires((a, b)),
        forall|a: S| b.requires((a,)),
    ensures
        forall|op: spec_fn(S, S) -> S, inv: spec_fn(S) -> S|
            plain::<S>() && #[trigger] computes(*f, op) && #[trigger] computes_unary(*b, inv)
                ==> holds == group_on(items@, op, inv, e),
{
    monoid(items, f, copy(&e)) && inverse(items, f, e, b)
}

/// The laws of an abelian group.
pub open spec fn abelian_group_on<S: PartialEq>(
    items: Seq<S>,
    op: spec_fn(S, S) -> S,
    inv: spec_fn(S) -> S,
    zero: S,
) -> bool {
    group_on(items, op, inv, zero) && commutative_on(items, op)
}

/// Whether `f` with the identity `zero` and the inverses `b` makes `items` an
/// abelian group.
pub fn abelian_group<S: PartialEq + Clone, F: Fn(S, S) -> S, B: Fn(S) -> S, const N: usize>(
    items: &[S; N],
    f: &F,
    zero: S,
    b: &B,
) -> (holds: bool)
    requires
        forall|a: S, b: S| f.requires((a, b)),
        forall|a: S| b.requires((a,)),
    ensures
        forall|op: spec_fn(S, S) -> S, inv: spec_fn(S) -> S|
            plain::<S>() && #[trigger] computes(*f, op) && #[trigger] computes_unary(*b, inv)
                ==> holds == abelian_group_on(items@, op, inv, zero),
{
    group(items, f, zero, b) && commutativity(items, f)
}

/// The laws of a semiring: `plus` with `zero` is a commutative monoid, `times`
/// with `one` is a monoid, `zero` absorbs under `times`, and `times`
/// distributes over `plus`.
pub open spec fn semiring_on<S: PartialEq>(
    items: Seq<S>,
    plus: spec_fn(S, S) -> S,
    times: spec_fn(S, S) -> S,
    zero: S,
    one: S,
) -> bool {
    &&& commutative_monoid_on(items, plus, zero)
    &&& monoid_on(items, times, one)
    &&& absorbing_on(items, times, zero)
    &&& distributive_on(items, plus, times)
}

/// Whether `f` with `zero` and `g` with `one` make `items` a semiring.
pub fn semiring<S: PartialEq + Clone, F: Fn(S, S) -> S, G: Fn(S, S) -> S, const N: usize>(
    items: &[S; N],
    f: &F,
    g: &G,
    zero: S,
    one: S,
) -> (holds: bool)
    requires
        forall|a: S, b: S| f.requires((a, b)),
        forall|a: S, b: S| g.requires((a, b)),
    ensures
        forall|plus: spec_fn(S, S) -> S, times: spec_fn(S, S) -> S|
            plain::<S>() && #[trigger] computes(*f, plus) && #[trigger] computes(*g, times)
                ==> holds == semiring_on(items@, plus, times, zero, one),
{
    commutative_monoid(items, f, copy(&zero)) && monoid(items, g, copy(&one)) && absorbing_element(
        items,
        g,
        zero,
    ) && distributive(items, f, g)
}

/// The laws of a ring: those of a semiring, and inverses under `plus`.
pub open spec fn ring_on<S: PartialEq>(
    items: Seq<S>,
    plus: spec_fn(S, S) -> S,
    times: spec_fn(S, S) -> S,
    inv: spec_fn(S) -> S,
    zero: S,
    one: S,
) -> bool {
    semiring_on(items, plus, times, zero, one) && inverse_on(items, plus, inv, zero)
}

/// Whether `f` with `zero` and the inverses `b`, and `g` with `one`, make
/// `items` a ring.
pub fn ring<
    S: PartialEq + Clone,
    F: Fn(S, S) -> S,
    G: Fn(S, S) -> S,
    B: Fn(S) -> S,
    const N: usize,
>(items: &[S; N], f: &F, g: &G, zero: S, one: S, b: &B) -> (holds: bool)
    requires
        forall|a: S, b: S| f.requires((a, b)),
        forall|a: S, b: S| g.requires((a, b)),
        forall|a: S| b.requires((a,)),
    ensures
        forall|plus: spec_fn(S, S) -> S, times: spec_fn(S, S) -> S, inv: spec_fn(S) -> S|
            plain::<S>() && #[trigger] computes(*f, plus) && #[trigger] computes(*g, times)
                && #[trigger] computes_unary(*b, inv) ==> holds == ring_on(
                items@,
                plus,
                times,
                inv,
                zero,
                one,
            ),
{
    semiring(items, f, g, copy(&zero), one) && inverse(items, f, zero, b)
}

/// What `field` checks: the laws of a ring, and that `inv` gives inverses
/// under `plus` with the identity `one` on the items other than `zero`.
pub open spec fn field_on<S: PartialEq>(
    items: Seq<S>,
    plus: spec_fn(S, S) -> S,
    times: spec_fn(S, S) -> S,
    inv: spec_fn(S) -> S,
    zero: S,
    one: S,
) -> bool {
    ring_on(items, plus, times, inv, zero, one) && nonzero_inverse_on(items, plus, inv, one, zero)
}

/// Whether `items` pass the ring laws with `f`, `g`, `zero`, `one` and `b`,
/// and `b` gives inverses under `f` with the identity `one` on the items other
/// than `zero`.
pub fn field<
    S: PartialEq + Clone,
    F: Fn(S, S) -> S,
    G: Fn(S, S) -> S,
    B: Fn(S) -> S,
    const N: usize,
>(items: &[S; N], f: &F, g: &G, zero: S, one: S, b: &B) -> (holds: bool)
    requires
        forall|a: S, b: S| f.requires((a, b)),
        forall|a: S, b: S| g.requires((a, b)),
        forall|a: S| b.requires((a,)),
    ensures
        forall|plus: spec_fn(S, S) -> S, times: spec_fn(S, S) -> S, inv: spec_fn(S) -> S|
            plain::<S>() && #[trigger] computes(*f, plus) && #[trigger] computes(*g, times)
                && #[trigger] computes_unary(*b, inv) ==> holds == field_on(
                items@,
                plus,
                times,
                inv,
                zero,
                one,
            ),
{
    ring(items, f, g, copy(&zero), copy(&one), b) && nonzero_inverse(items, f, one, zero, b)
}

} // verus!
