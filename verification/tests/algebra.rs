use std::collections::HashSet;

use hydroflow::lattices::algebra::{
    abelian_group, absorbing_element, associativity, commutative_monoid, commutativity, distributive,
    field, group, idempotency, identity, inverse, left_distributes, monoid, nonzero_inverse,
    right_distributes, ring, semigroup, semiring,
};
use hydroflow::lattices::semiring::{test_properties, Booleans, NaturalNumber};
use itertools::{EitherOrBoth, Itertools};

#[derive(Debug, Clone)]
struct Polynomial {
    vec: Vec<usize>,
}

impl PartialEq for Polynomial {
    fn eq(&self, other: &Self) -> bool {
        self.vec.iter().zip_longest(&other.vec).all(|x| match x {
            EitherOrBoth::Both(a, b) => a == b,
            EitherOrBoth::Left(a) => *a == 0,
            EitherOrBoth::Right(b) => *b == 0,
        })
    }
}

impl Polynomial {
    fn new() -> Self {
        Self { vec: vec![] }
    }

    fn new_from(x: impl IntoIterator<Item = usize>) -> Self {
        Self { vec: x.into_iter().collect() }
    }

    fn add(self, other: Self) -> Self {
        Polynomial {
            vec: self
                .vec
                .into_iter()
                .zip_longest(other.vec.into_iter())
                .map(|x| match x {
                    EitherOrBoth::Both(a, b) => a + b,
                    EitherOrBoth::Left(a) => a,
                    EitherOrBoth::Right(b) => b,
                })
                .collect(),
        }
    }

    fn mul(self, other: Self) -> Self {
        let mut vec = vec![0; self.vec.len() + other.vec.len()];

        for (index, i) in self.vec.iter().enumerate() {
            for (index2, j) in other.vec.iter().enumerate() {
                vec[index + index2] += *i * *j;
            }
        }

        Polynomial { vec }
    }
}

#[test]
fn algebra_test() {
    let items = &[0u32, 1, 2, 3, 4, 5, 6, 7, 8, 9, 10, 11, 12, 13];

    assert!(associativity(items, &u32::max));
    assert!(idempotency(items, &u32::max));
    assert!(commutativity(items, &u32::max));

    assert!(identity(items, &u32::max, 0));
    assert!(inverse(items, &u32::wrapping_add, 0, &|x| 0u32.wrapping_sub(x)));

    assert!(distributive(items, &u32::wrapping_add, &u32::wrapping_mul));

    assert!(absorbing_element(items, &u32::wrapping_mul, 0));

    assert!(ring(items, &u32::wrapping_add, &u32::wrapping_mul, 0, 1, &|x| {
        0u32.wrapping_sub(x)
    }));

    assert!(semiring(items, &u32::wrapping_add, &u32::wrapping_mul, 0, 1));

    assert!(semiring(&[false, true], &|x, y| x | y, &|x, y| x & y, false, true));

    assert!(semiring(
        &[0.0, 1.0, 2.0, 3.0, 4.0, 5.0, 6.0, f64::INFINITY],
        &|x, y| f64::min(x, y),
        &|x, y| x + y,
        f64::INFINITY,
        0.0,
    ));

    assert!(semiring(
        &[0.0, 1.0, 2.0, 3.0, 4.0, 5.0, 6.0, f64::NEG_INFINITY],
        &|x, y| f64::max(x, y),
        &|x, y| x + y,
        f64::NEG_INFINITY,
        0.0,
    ));

    assert!(semiring(
        &[
            HashSet::from([]),
            HashSet::from(["".to_owned()]),
            HashSet::from(["a".to_owned()]),
            HashSet::from(["aa".to_owned(), "bb".to_owned()]),
            HashSet::from(["ab".to_owned(), "bb".to_owned(), "cc".to_owned()]),
            HashSet::from(["ba".to_owned()]),
            HashSet::from(["bb".to_owned()]),
        ],
        &|x: HashSet<String>, y: HashSet<String>| x.union(&y).cloned().collect(),
        &|x: HashSet<String>, y: HashSet<String>| {
            let mut new_set = HashSet::new();

            for a in x.iter() {
                for b in y.iter() {
                    new_set.insert(format!("{a}{b}"));
                }
            }

            new_set
        },
        HashSet::from([]),
        HashSet::from(["".to_owned()]),
    ));

    assert!(semiring(
        &[
            Polynomial::new_from([]),
            Polynomial::new_from([0]),
            Polynomial::new_from([1]),
            Polynomial::new_from([2]),
            Polynomial::new_from([0, 1]),
            Polynomial::new_from([1, 2]),
            Polynomial::new_from([0, 1, 2]),
            Polynomial::new_from([1, 2, 3]),
        ],
        &Polynomial::add,
        &Polynomial::mul,
        Polynomial::new(),
        Polynomial::new_from([1]),
    ));
}

#[test]
fn semiring_test() {
    assert!(test_properties(&[
        NaturalNumber(0),
        NaturalNumber(1),
        NaturalNumber(2),
        NaturalNumber(3),
        NaturalNumber(4),
    ]));

    assert!(test_properties(&[Booleans(false), Booleans(true)]));
}

#[test]
fn test_properties_needs_both_identities() {
    assert!(!test_properties(&[NaturalNumber(1), NaturalNumber(2)]));
    assert!(!test_properties(&[NaturalNumber(0), NaturalNumber(2)]));
    assert!(!test_properties(&[Booleans(true)]));
    assert!(test_properties(&[NaturalNumber(0), NaturalNumber(1)]));
    assert!(!test_properties::<NaturalNumber>(&[]));
}

#[test]
fn laws_that_fail_are_reported() {
    let items = &[0i64, 1, 2, 3];
    let minus = |a: i64, b: i64| a - b;
    let plus = |a: i64, b: i64| a + b;
    let times = |a: i64, b: i64| a * b;
    let negate = |a: i64| -a;
    assert!(!associativity(items, &minus));
    assert!(!commutativity(items, &minus));
    assert!(!idempotency(items, &plus));
    assert!(idempotency(&[0i64], &plus));
    assert!(!identity(items, &minus, 0));
    assert!(identity(items, &plus, 0));
    assert!(!identity(items, &plus, 1));
    assert!(!absorbing_element(items, &plus, 0));
    assert!(absorbing_element(items, &times, 0));
    assert!(inverse(items, &plus, 0, &negate));
    assert!(!inverse(items, &times, 1, &negate));
    assert!(nonzero_inverse(&[0i64, 1, -1], &times, 1, 0, &|a: i64| a));
    assert!(!nonzero_inverse(&[0i64, 1, 2], &times, 1, 0, &|a: i64| a));
    assert!(left_distributes(items, &plus, &times));
    assert!(right_distributes(items, &plus, &times));
    assert!(!left_distributes(items, &times, &plus));
    assert!(!distributive(items, &times, &plus));
    assert!(semigroup(items, &plus));
    assert!(monoid(items, &times, 1));
    assert!(!monoid(items, &times, 0));
    assert!(commutative_monoid(items, &plus, 0));
    assert!(group(items, &plus, 0, &negate));
    assert!(abelian_group(items, &plus, 0, &negate));
    assert!(!abelian_group(items, &minus, 0, &negate));
    assert!(ring(items, &plus, &times, 0, 1, &negate));
    assert!(!field(items, &plus, &times, 0, 1, &negate));
    assert!(!semiring(items, &plus, &times, 1, 0));
}
