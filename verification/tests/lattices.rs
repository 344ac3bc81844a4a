use std::cmp::Ordering;
use std::collections::HashSet;

use hydroflow::lattices::set_union_with_tombstone::SetUnionWithTombstone;
use hydroflow::lattices::unit::Unit;
use hydroflow::lattices::{IsBot, IsTop, LatticeFrom, Merge, NaiveLatticeOrd};

/// The order found by merging agrees with `partial_cmp`, and both are a
/// partial order on `items`.
fn check_lattice_ord(items: &[Unit]) {
    for a in items {
        for b in items {
            assert_eq!(a.naive_cmp(b), a.partial_cmp(b));
            assert_eq!(a.partial_cmp(b).map(Ordering::reverse), b.partial_cmp(a));
            assert_eq!(a == b, a.partial_cmp(b) == Some(Ordering::Equal));
        }
    }
}

/// The merge is associative, commutative and idempotent on `items`, and
/// reports a change exactly when the value changed.
fn check_lattice_properties(items: &[Unit]) {
    for a in items {
        let mut aa = *a;
        assert!(!aa.merge(*a));
        assert_eq!(aa, *a);
        for b in items {
            let ab = Merge::merge_owned(*a, *b);
            let ba = Merge::merge_owned(*b, *a);
            assert_eq!(ab, ba);
            let mut changed = *a;
            assert_eq!(changed.merge(*b), changed != *a);
            for c in items {
                let ab_c = Merge::merge_owned(Merge::merge_owned(*a, *b), *c);
                let a_bc = Merge::merge_owned(*a, Merge::merge_owned(*b, *c));
                assert_eq!(ab_c, a_bc);
            }
        }
    }
}

#[test]
fn consistency() {
    let items = [Unit::new()];
    check_lattice_ord(&items);
    check_lattice_properties(&items);
    for a in &items {
        assert!(a.is_bot());
        assert!(a.is_top());
        assert_eq!(<Unit as LatticeFrom<Unit>>::lattice_from(*a), *a);
    }
}

#[test]
fn unit_is_its_own_default() {
    assert_eq!(Unit::default(), Unit::new());
    assert_eq!(Unit::new().partial_cmp(&Unit::new()), Some(Ordering::Equal));
}

#[test]
fn unit_merge_changes_nothing() {
    let mut unit = Unit::new();
    assert!(!unit.merge(Unit::new()));
    assert_eq!(unit, Unit);
    assert_eq!(Unit::new().naive_cmp(&Unit::new()), Some(Ordering::Equal));
}

fn tombstone_set(set: &[u64], tombstones: &[u64]) -> SetUnionWithTombstone<u64> {
    SetUnionWithTombstone::new(set.iter().copied().collect(), tombstones.iter().copied().collect())
}

#[test]
fn tombstone_set_new_keeps_both_sets() {
    let value = tombstone_set(&[1, 2], &[2]);
    assert_eq!(value.set, HashSet::from([1, 2]));
    assert_eq!(value.tombstones, HashSet::from([2]));
    let value = SetUnionWithTombstone::<u64>::new_from([1u64, 2], vec![3u64].into_iter().collect::<HashSet<u64>>());
    assert_eq!(value.set, HashSet::from([1, 2]));
    assert_eq!(value.tombstones, HashSet::from([3]));
}

#[test]
fn tombstone_set_merge_unites_and_reports_change() {
    let mut value = tombstone_set(&[1], &[]);
    assert!(value.merge(tombstone_set(&[2], &[])));
    assert_eq!(value.set, HashSet::from([1, 2]));
    assert!(value.merge(tombstone_set(&[1], &[1])));
    assert_eq!(value.tombstones, HashSet::from([1]));
    assert!(!value.merge(tombstone_set(&[1, 2], &[1])));
    assert!(!value.merge(tombstone_set(&[], &[])));
    assert_eq!(value.set, HashSet::from([1, 2]));
    assert_eq!(value.tombstones, HashSet::from([1]));
}

#[test]
fn tombstone_set_order_is_the_subset_order_on_both_sets() {
    let bottom = tombstone_set(&[], &[]);
    let a = tombstone_set(&[1], &[]);
    let b = tombstone_set(&[1], &[1]);
    let c = tombstone_set(&[2], &[]);
    assert_eq!(bottom.partial_cmp(&a), Some(Ordering::Less));
    assert_eq!(a.partial_cmp(&b), Some(Ordering::Less));
    assert_eq!(b.partial_cmp(&a), Some(Ordering::Greater));
    assert_eq!(a.partial_cmp(&a), Some(Ordering::Equal));
    assert_eq!(a.partial_cmp(&c), None);
    assert_eq!(b.partial_cmp(&c), None);
    assert!(a == tombstone_set(&[1], &[]));
    assert!(a != b);
    assert!(bottom.is_bot());
    assert!(!a.is_bot());
    assert!(!tombstone_set(&[], &[1]).is_bot());
    assert!(!b.is_top());
}

#[test]
fn tombstone_set_orders_agree() {
    let items = [
        tombstone_set(&[], &[]),
        tombstone_set(&[0], &[]),
        tombstone_set(&[1], &[]),
        tombstone_set(&[0, 1], &[]),
        tombstone_set(&[0, 1], &[0]),
        tombstone_set(&[], &[1]),
    ];
    for a in &items {
        for b in &items {
            assert_eq!(a.naive_cmp(b), a.partial_cmp(b), "{:?} {:?}", a, b);
            let ab = Merge::merge_owned(a.clone(), b.clone());
            let ba = Merge::merge_owned(b.clone(), a.clone());
            assert!(ab == ba);
            assert_eq!(a.partial_cmp(&ab) != Some(Ordering::Equal), a.clone().merge(b.clone()));
            for c in &items {
                let ab_c = Merge::merge_owned(Merge::merge_owned(a.clone(), b.clone()), c.clone());
                let a_bc = Merge::merge_owned(a.clone(), Merge::merge_owned(b.clone(), c.clone()));
                assert!(ab_c == a_bc);
            }
        }
        assert!(Merge::merge_owned(a.clone(), a.clone()) == *a);
        assert!(<SetUnionWithTombstone<u64> as LatticeFrom<_>>::lattice_from(a.clone()) == *a);
    }
}
