//! Semirings: types with an addition and a multiplication, and a check of
//! the semiring laws on given items.
use vstd::prelude::*;
use vstd::std_specs::cmp::{PartialEqSpec, PartialEqSpecImpl};
use crate::lattices::algebra::{
    all_items, all_pairs, all_triples, decides1, decides2, decides3, holds_of_all1, holds_of_all2,
    holds_of_all3, same,
};

verus! {

/// A type with an addition.
pub trait Addition<T>: Sized {
    /// Whether `self` and `other` can be added: whether the sum exists in the
    /// type.
    spec fn add_ok(&self, other: &T) -> bool;

    /// The sum of `self` and `other`.
    spec fn add_spec(&self, other: &T) -> Self;

    /// Adds `other` to `self`.
    fn add(&self, other: &T) -> (sum: Self)
        requires
            self.add_ok(other),
        ensures
            sum == self.add_spec(other),
    ;
}

/// A type that knows its additive identity.
pub trait IsAdditiveIdentity<T> {
    /// Whether `self` is the additive identity.
    spec fn is_zero(&self) -> bool;

    /// Returns whether `self` is the additive identity.
    fn is_additive_identity(&self) -> (is_zero: bool)
        ensures
            is_zero == self.is_zero(),
    ;
}

/// A type with a multiplication.
pub trait Multiply<T>: Sized {
    /// Whether `self` and `other` can be multiplied: whether the product
    /// exists in the type.
    spec fn multiply_ok(&self, other: &T) -> bool;

    /// The product of `self` and `other`.
    spec fn multiply_spec(&self, other: &T) -> Self;

    /// Multiplies `self` by `other`.
    fn multiply(&self, other: &T) -> (product: Self)
        requires
            self.multiply_ok(other),
        ensures
            product == self.multiply_spec(other),
    ;
}

/// A type that knows its multiplicative identity.
pub trait IsMultiplicativeIdentity<T> {
    /// Whether `self` is the multiplicative identity.
    spec fn is_one(&self) -> bool;

    /// Returns whether `self` is the multiplicative identity.
    fn is_multiplicative_identity(&self) -> (is_one: bool)
        ensures
            is_one == self.is_one(),
    ;
}

/// A type with what a semiring has: an addition and a multiplication, each
/// with its identity.
pub trait Semiring<T>: Addition<T> + Multiply<T> + IsAdditiveIdentity<T> + IsMultiplicativeIdentity<
    T,
> {

}

impl<T> Semiring<T> for T where
    T: Addition<T> + Multiply<T> + IsAdditiveIdentity<T> + IsMultiplicativeIdentity<T>,
 {

}

/// Whether every sum and product that the laws speak of exists, for `a`, `b`
/// and `c`.
pub open spec fn operands_fit_at<T: Semiring<T>>(a: T, b: T, c: T) -> bool {
    &&& a.add_ok(&b)
    &&& a.multiply_ok(&b)
    &&& a.add_spec(&b).add_ok(&c)
    &&& a.add_ok(&b.add_spec(&c))
    &&& a.multiply_spec(&b).multiply_ok(&c)
    &&& a.multiply_ok(&b.multiply_spec(&c))
    &&& c.multiply_ok(&a.add_spec(&b))
    &&& c.multiply_spec(&a).add_ok(&c.multiply_spec(&b))
    &&& a.add_spec(&b).multiply_ok(&c)
    &&& a.multiply_spec(&c).add_ok(&b.multiply_spec(&c))
}

/// Whether every sum and product that the laws speak of exists, for all items
/// of `items`.
pub open spec fn operands_fit<T: Semiring<T>>(items: Seq<T>) -> bool {
    forall|i: int, j: int, k: int|
        0 <= i < items.len() && 0 <= j < items.len() && 0 <= k < items.len()
            ==> #[trigger] operands_fit_at(items[i], items[j], items[k])
}

/// `a + b = b + a`.
pub open spec fn add_commutes_at<T: Semiring<T> + PartialEq>(a: T, b: T) -> bool {
    a.add_spec(&b).eq_spec(&b.add_spec(&a))
}

/// `(a + b) + c = a + (b + c)` and `(ab)c = a(bc)`.
pub open spec fn associates_at<T: Semiring<T> + PartialEq>(a: T, b: T, c: T) -> bool {
    &&& a.add_spec(&b).add_spec(&c).eq_spec(&a.add_spec(&b.add_spec(&c)))
    &&& a.multiply_spec(&b).multiply_spec(&c).eq_spec(&a.multiply_spec(&b.multiply_spec(&c)))
}

/// `c(a + b) = ca + cb` and `(a + b)c = ac + bc`.
pub open spec fn distributes_at<T: Semiring<T> + PartialEq>(a: T, b: T, c: T) -> bool {
    &&& c.multiply_spec(&a.add_spec(&b)).eq_spec(&c.multiply_spec(&a).add_spec(&c.multiply_spec(&b)))
    &&& a.add_spec(&b).multiply_spec(&c).eq_spec(&a.multiply_spec(&c).add_spec(&b.multiply_spec(&c)))
}

/// `a + zero = a`, `a one = a` and `one a = a`.
pub open spec fn identities_at<T: Semiring<T> + PartialEq>(zero: T, one: T, a: T) -> bool {
    &&& a.add_spec(&zero).eq_spec(&a)
    &&& a.multiply_spec(&one).eq_spec(&a)
    &&& one.multiply_spec(&a).eq_spec(&a)
}

/// `a zero = zero` and `zero a = zero`.
pub open spec fn absorbs_at<T: Semiring<T> + PartialEq>(zero: T, a: T) -> bool {
    &&& a.multiply_spec(&zero).eq_spec(&zero)
    &&& zero.multiply_spec(&a).eq_spec(&zero)
}

/// Whether `at` is the place of the first item of `items` that says that it
/// is the additive identity.
pub open spec fn first_zero<T: Semiring<T>>(items: Seq<T>, at: int) -> bool {
    &&& 0 <= at < items.len()
    &&& items[at].is_zero()
    &&& forall|i: int| 0 <= i < at ==> !(#[trigger] items[i]).is_zero()
}

/// Whether `at` is the place of the first item of `items` that says that it
/// is the multiplicative identity.
pub open spec fn first_one<T: Semiring<T>>(items: Seq<T>, at: int) -> bool {
    &&& 0 <= at < items.len()
    &&& items[at].is_one()
    &&& forall|i: int| 0 <= i < at ==> !(#[trigger] items[i]).is_one()
}

/// The semiring laws on `items`: addition commutes; addition and
/// multiplication are associative; `items` holds an additive and a
/// multiplicative identity, and the first of each is one; multiplication
/// distributes over addition from both sides; and the additive identity
/// absorbs.
pub open spec fn semiring_laws<T: Semiring<T> + PartialEq>(items: Seq<T>) -> bool {
    &&& forall|i: int, j: int|
        0 <= i < items.len() && 0 <= j < items.len() ==> #[trigger] add_commutes_at(
            items[i],
            items[j],
        )
    &&& forall|i: int, j: int, k: int|
        0 <= i < items.len() && 0 <= j < items.len() && 0 <= k < items.len()
            ==> #[trigger] associates_at(items[i], items[j], items[k])
    &&& exists|zero: int, one: int|
        {
            &&& #[trigger] first_zero(items, zero)
            &&& #[trigger] first_one(items, one)
            &&& forall|i: int|
                0 <= i < items.len() ==> #[trigger] identities_at(items[zero], items[one], items[i])
            &&& forall|i: int| 0 <= i < items.len() ==> #[trigger] absorbs_at(items[zero], items[i])
        }
    &&& forall|i: int, j: int, k: int|
        0 <= i < items.len() && 0 <= j < items.len() && 0 <= k < items.len()
            ==> #[trigger] distributes_at(items[i], items[j], items[k])
}

/// The place of the first item that says that it is the additive identity.
fn find_zero<T: Semiring<T>>(items: &[T]) -> (found: Option<usize>)
    ensures
        match found {
            Some(at) => first_zero(items@, at as int),
            None => forall|i: int| 0 <= i < items@.len() ==> !(#[trigger] items@[i]).is_zero(),
        },
{
    let mut i: usize = 0;
    while i < items.len()
        invariant
            i <= items@.len(),
            forall|j: int| 0 <= j < i ==> !(#[trigger] items@[j]).is_zero(),
        decreases items@.len() - i,
    {
        if items[i].is_additive_identity() {
            return Some(i);
        }
        i += 1;
    }
    None
}

/// The place of the first item that says that it is the multiplicative
/// identity.
fn find_one<T: Semiring<T>>(items: &[T]) -> (found: Option<usize>)
    ensures
        match found {
            Some(at) => first_one(items@, at as int),
            None => forall|i: int| 0 <= i < items@.len() ==> !(#[trigger] items@[i]).is_one(),
        },
{
    let mut i: usize = 0;
    while i < items.len()
        invariant
            i <= items@.len(),
            forall|j: int| 0 <= j < i ==> !(#[trigger] items@[j]).is_one(),
        decreases items@.len() - i,
    {
        if items[i].is_multiplicative_identity() {
            return Some(i);
        }
        i += 1;
    }
    None
}

/// Whether `items` pass the semiring laws: see [`semiring_laws`]. Every
/// combination of the items is tried, and the first failure ends the check.
pub fn test_properties<T: Semiring<T> + PartialEq>(items: &[T]) -> (holds: bool)
    requires
        operands_fit(items@),
    ensures
        T::obeys_eq_spec() ==> holds == semiring_laws(items@),
{
    let ghost all = items@;
    proof {
        assert forall|i: int, j: int|
            0 <= i < all.len() && 0 <= j < all.len() implies all[i].add_ok(&all[j]) && all[j].add_ok(
            &all[i],
        ) by {
            assert(operands_fit_at(all[i], all[j], all[i]));
            assert(operands_fit_at(all[j], all[i], all[i]));
        }
        assert forall|i: int, j: int, k: int|
            0 <= i < all.len() && 0 <= j < all.len() && 0 <= k < all.len() implies all[j].add_ok(
            &all[k],
        ) && all[j].multiply_ok(&all[k]) && all[k].multiply_ok(&all[i]) && all[k].multiply_ok(
            &all[j],
        ) && all[i].multiply_ok(&all[k]) && operands_fit_at(all[i], all[j], all[k]) by {
            assert(operands_fit_at(all[i], all[j], all[k]));
            assert(operands_fit_at(all[j], all[k], all[i]));
            assert(operands_fit_at(all[k], all[i], all[j]));
            assert(operands_fit_at(all[k], all[j], all[i]));
            assert(operands_fit_at(all[i], all[k], all[j]));
        }
    }

    // + should be commutative
    let commutes_at = |a: &T, b: &T| -> (r: bool)
        requires
            a.add_ok(b),
            b.add_ok(a),
        ensures
            T::obeys_eq_spec() ==> r == add_commutes_at(*a, *b),
        { same(&a.add(b), &b.add(a)) };
    let commutes = all_pairs(items, &commutes_at);
    proof {
        if T::obeys_eq_spec() {
            assert(decides2(commutes_at, |a: T, b: T| add_commutes_at(a, b)));
        }
    }
    if !commutes {
        return false;
    }
    proof {
        if T::obeys_eq_spec() {
            let law = |a: T, b: T| add_commutes_at(a, b);
            assert(holds_of_all2(all, law));
            assert forall|i: int, j: int|
                0 <= i < all.len() && 0 <= j < all.len() implies #[trigger] add_commutes_at(
                all[i],
                all[j],
            ) by {
                assert(law(all[i], all[j]));
            }
        }
    }
    // associativity
    let associates_here = |a: &T, b: &T, c: &T| -> (r: bool)
        requires
            operands_fit_at(*a, *b, *c),
            b.add_ok(c),
            b.multiply_ok(c),
        ensures
            T::obeys_eq_spec() ==> r == associates_at(*a, *b, *c),
        {
            same(&a.add(b).add(c), &a.add(&b.add(c))) && same(
                &a.multiply(b).multiply(c),
                &a.multiply(&b.multiply(c)),
            )
        };
    let associates = all_triples(items, &associates_here);
    proof {
        if T::obeys_eq_spec() {
            assert(decides3(associates_here, |a: T, b: T, c: T| associates_at(a, b, c)));
        }
    }
    if !associates {
        return false;
    }
    proof {
        if T::obeys_eq_spec() {
            let law = |a: T, b: T, c: T| associates_at(a, b, c);
            assert(holds_of_all3(all, law));
            assert forall|i: int, j: int, k: int|
                0 <= i < all.len() && 0 <= j < all.len() && 0 <= k < all.len() implies #[trigger] associates_at(
                all[i],
                all[j],
                all[k],
            ) by {
                assert(law(all[i], all[j], all[k]));
            }
        }
    }
    // identities
    let found_zero = find_zero(items);
    let found_one = find_one(items);
    let (zero_at, one_at) = match (found_zero, found_one) {
        (Some(zero_at), Some(one_at)) => (zero_at, one_at),
        _ => {
            return false;
        },
    };
    let zero = &items[zero_at];
    let one = &items[one_at];
    let identities_here = |a: &T| -> (r: bool)
        requires
            a.add_ok(zero),
            a.multiply_ok(one),
            one.multiply_ok(a),
        ensures
            T::obeys_eq_spec() ==> r == identities_at(*zero, *one, *a),
        { same(&a.add(zero), a) && same(&a.multiply(one), a) && same(&one.multiply(a), a) };
    proof {
        assert forall|i: int| 0 <= i < all.len() implies all[i].add_ok(zero) && all[i].multiply_ok(
            one,
        ) && one.multiply_ok(&all[i]) && all[i].multiply_ok(zero) && zero.multiply_ok(&all[i]) by {
            assert(operands_fit_at(all[i], all[zero_at as int], all[i]));
            assert(operands_fit_at(all[i], all[one_at as int], all[i]));
            assert(operands_fit_at(all[one_at as int], all[i], all[i]));
            assert(operands_fit_at(all[zero_at as int], all[i], all[i]));
        }
    }
    let identities = all_items(items, &identities_here);
    proof {
        if T::obeys_eq_spec() {
            assert(decides1(identities_here, |a: T| identities_at(*zero, *one, a)));
        }
    }
    if !identities {
        proof {
            if T::obeys_eq_spec() {
                let i = choose|i: int| 0 <= i < all.len() && !identities_at(*zero, *one, all[i]);
                assert forall|z: int, o: int| first_zero(all, z) && first_one(all, o) implies !(
                forall|i: int| 0 <= i < all.len() ==> #[trigger] identities_at(all[z], all[o], all[i])) by {
                    assert(z == zero_at && o == one_at);
                }
            }
        }
        return false;
    }
    proof {
        if T::obeys_eq_spec() {
            let law = |a: T| identities_at(*zero, *one, a);
            assert(holds_of_all1(all, law));
            assert forall|i: int| 0 <= i < all.len() implies #[trigger] identities_at(
                all[zero_at as int],
                all[one_at as int],
                all[i],
            ) by {
                assert(law(all[i]));
            }
        }
    }
    // distribution
    let distributes_here = |a: &T, b: &T, c: &T| -> (r: bool)
        requires
            operands_fit_at(*a, *b, *c),
            c.multiply_ok(a),
            c.multiply_ok(b),
            a.multiply_ok(c),
            b.multiply_ok(c),
        ensures
            T::obeys_eq_spec() ==> r == distributes_at(*a, *b, *c),
        {
            same(&c.multiply(&a.add(b)), &c.multiply(a).add(&c.multiply(b))) && same(
                &a.add(b).multiply(c),
                &a.multiply(c).add(&b.multiply(c)),
            )
        };
    let distributes = all_triples(items, &distributes_here);
    proof {
        if T::obeys_eq_spec() {
            assert(decides3(distributes_here, |a: T, b: T, c: T| distributes_at(a, b, c)));
        }
    }
    if !distributes {
        return false;
    }
    proof {
        if T::obeys_eq_spec() {
            let law = |a: T, b: T, c: T| distributes_at(a, b, c);
            assert(holds_of_all3(all, law));
            assert forall|i: int, j: int, k: int|
                0 <= i < all.len() && 0 <= j < all.len() && 0 <= k < all.len() implies #[trigger] distributes_at(
                all[i],
                all[j],
                all[k],
            ) by {
                assert(law(all[i], all[j], all[k]));
            }
        }
    }
    // absorption
    let absorbs_here = |a: &T| -> (r: bool)
        requires
            a.multiply_ok(zero),
            zero.multiply_ok(a),
        ensures
            T::obeys_eq_spec() ==> r == absorbs_at(*zero, *a),
        { same(&a.multiply(zero), zero) && same(&zero.multiply(a), zero) };
    let absorbs = all_items(items, &absorbs_here);
    proof {
        if T::obeys_eq_spec() {
            assert(decides1(absorbs_here, |a: T| absorbs_at(*zero, a)));
            if !absorbs {
                let i = choose|i: int| 0 <= i < all.len() && !absorbs_at(*zero, all[i]);
                assert forall|z: int, o: int| first_zero(all, z) && first_one(all, o) implies !(
                forall|i: int| 0 <= i < all.len() ==> #[trigger] absorbs_at(all[z], all[i])) by {
                    assert(z == zero_at);
                }
            } else {
                let law = |a: T| absorbs_at(*zero, a);
                assert(holds_of_all1(all, law));
                assert forall|i: int| 0 <= i < all.len() implies #[trigger] absorbs_at(
                    all[zero_at as int],
                    all[i],
                ) by {
                    assert(law(all[i]));
                }
                assert(first_zero(all, zero_at as int) && first_one(all, one_at as int));
                assert(semiring_laws(all));
            }
        }
    }
    absorbs
}

/// The natural numbers that fit in a machine word, with their addition and
/// multiplication. A sum or product that does not fit does not exist.
#[derive(Debug)]
pub struct NaturalNumber(pub usize);

impl PartialEq for NaturalNumber {
    fn eq(&self, other: &Self) -> (equal: bool) {
        self.0 == other.0
    }
}

impl PartialEqSpecImpl for NaturalNumber {
    open spec fn obeys_eq_spec() -> bool {
        true
    }

    open spec fn eq_spec(&self, other: &Self) -> bool {
        self.0 == other.0
    }
}

impl Addition<NaturalNumber> for NaturalNumber {
    open spec fn add_ok(&self, other: &Self) -> bool {
        self.0 + other.0 <= usize::MAX
    }

    open spec fn add_spec(&self, other: &Self) -> Self {
        NaturalNumber((self.0 + other.0) as usize)
    }

    fn add(&self, other: &Self) -> (sum: Self) {
        NaturalNumber(self.0 + other.0)
    }
}

impl IsAdditiveIdentity<NaturalNumber> for NaturalNumber {
    open spec fn is_zero(&self) -> bool {
        self.0 == 0
    }

    fn is_additive_identity(&self) -> (is_zero: bool) {
        self.0 == 0
    }
}

impl Multiply<NaturalNumber> for NaturalNumber {
    open spec fn multiply_ok(&self, other: &Self) -> bool {
        self.0 * other.0 <= usize::MAX
    }

    open spec fn multiply_spec(&self, other: &Self) -> Self {
        NaturalNumber((self.0 * other.0) as usize)
    }

    fn multiply(&self, other: &Self) -> (product: Self) {
        NaturalNumber(self.0 * other.0)
    }
}

impl IsMultiplicativeIdentity<NaturalNumber> for NaturalNumber {
    open spec fn is_one(&self) -> bool {
        self.0 == 1
    }

    fn is_multiplicative_identity(&self) -> (is_one: bool) {
        self.0 == 1
    }
}

/// The truth values, with "or" for addition and "and" for multiplication.
#[derive(Debug)]
pub struct Booleans(pub bool);

impl PartialEq for Booleans {
    fn eq(&self, other: &Self) -> (equal: bool) {
        self.0 == other.0
    }
}

impl PartialEqSpecImpl for Booleans {
    open spec fn obeys_eq_spec() -> bool {
        true
    }

    open spec fn eq_spec(&self, other: &Self) -> bool {
        self.0 == other.0
    }
}

impl Addition<Booleans> for Booleans {
    open spec fn add_ok(&self, other: &Self) -> bool {
        true
    }

    open spec fn add_spec(&self, other: &Self) -> Self {
        Booleans(self.0 || other.0)
    }

    fn add(&self, other: &Self) -> (sum: Self) {
        Booleans(self.0 || other.0)
    }
}

impl IsAdditiveIdentity<Booleans> for Booleans {
    open spec fn is_zero(&self) -> bool {
        self.0 == false
    }

    fn is_additive_identity(&self) -> (is_zero: bool) {
        self.0 == false
    }
}

impl Multiply<Booleans> for Booleans {
    open spec fn multiply_ok(&self, other: &Self) -> bool {
        true
    }

    open spec fn multiply_spec(&self, other: &Self) -> Self {
        Booleans(self.0 && other.0)
    }

    fn multiply(&self, other: &Self) -> (product: Self) {
        Booleans(self.0 && other.0)
    }
}

impl IsMultiplicativeIdentity<Booleans> for Booleans {
    open spec fn is_one(&self) -> bool {
        self.0 == true
    }

    fn is_multiplicative_identity(&self) -> (is_one: bool) {
        self.0 == true
    }
}

} // verus!
