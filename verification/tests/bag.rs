use hydroflow::util::bag::Bag;

fn contents(bag: &Bag<u64>) -> Vec<u64> {
    let mut iter = bag.iter();
    let mut all = Vec::new();
    while let Some(item) = iter.next() {
        all.push(*item);
    }
    all.sort();
    all
}

#[test]
fn new_bag_is_empty() {
    let bag: Bag<u64> = Bag::new();
    assert_eq!(bag.len(), 0);
    assert_eq!(contents(&bag), Vec::<u64>::new());
    assert!(bag.iter().next().is_none());
}

#[test]
fn insert_counts_copies() {
    let mut bag = Bag::new();
    bag.insert(3u64);
    bag.insert(5);
    bag.insert(3);
    bag.insert(3);
    assert_eq!(bag.len(), 4);
    assert_eq!(contents(&bag), vec![3, 3, 3, 5]);
}

#[test]
fn remove_one_takes_a_single_copy() {
    let mut bag = Bag::new();
    bag.extend(vec![1u64, 2, 2, 2, 3]);
    bag.remove_one(2);
    assert_eq!(bag.len(), 4);
    assert_eq!(contents(&bag), vec![1, 2, 2, 3]);
    bag.remove_one(1);
    assert_eq!(bag.len(), 3);
    assert_eq!(contents(&bag), vec![2, 2, 3]);
    bag.remove_one(9);
    assert_eq!(bag.len(), 3);
    assert_eq!(contents(&bag), vec![2, 2, 3]);
}

#[test]
fn remove_takes_every_copy() {
    let mut bag = Bag::new();
    bag.extend(vec![1u64, 2, 2, 2, 3]);
    bag.remove(&2);
    assert_eq!(bag.len(), 2);
    assert_eq!(contents(&bag), vec![1, 3]);
    bag.remove(&2);
    assert_eq!(bag.len(), 2);
}

#[test]
fn iter_keeps_copies_of_an_item_together() {
    let mut bag = Bag::new();
    bag.extend(vec![7u64, 8, 7, 9, 8, 7]);
    let mut iter = bag.iter();
    let mut all = Vec::new();
    while let Some(item) = iter.next() {
        all.push(*item);
    }
    assert_eq!(all.len(), 6);
    let mut runs: Vec<(u64, usize)> = Vec::new();
    for item in all {
        match runs.last_mut() {
            Some((last, count)) if *last == item => *count += 1,
            _ => runs.push((item, 1)),
        }
    }
    runs.sort();
    assert_eq!(runs, vec![(7, 3), (8, 2), (9, 1)]);
    assert!(iter.next().is_none());
    assert!(iter.next().is_none());
}

#[test]
fn into_iter_hands_out_every_copy() {
    let mut bag = Bag::new();
    bag.extend(vec!["a".to_string(), "b".to_string(), "a".to_string()]);
    let mut all = bag.into_iter();
    all.sort();
    assert_eq!(all, vec!["a".to_string(), "a".to_string(), "b".to_string()]);
}

#[test]
fn default_bag_is_empty() {
    let bag: Bag<u64> = Bag::default();
    assert_eq!(bag.len(), 0);
}
