//! A multiset of items that counts how often it holds each.
use vstd::prelude::*;
use std::collections::hash_map::Entry;
use std::collections::HashMap;
use std::hash::BuildHasherDefault;
use std::hash::Hash;
use rustc_hash::FxHasher;
use vstd::multiset::Multiset;
use vstd::std_specs::hash::{builds_valid_hashers, obeys_key_model};
use crate::util::fx::new_table;

verus! {

/// `count` copies of `item`.
pub open spec fn copies<T>(item: T, count: nat) -> Multiset<T>
    decreases count,
{
    if count == 0 {
        Multiset::empty()
    } else {
        copies(item, (count - 1) as nat).insert(item)
    }
}

/// `copies(item, count)` holds `item` as often as `count` says and nothing
/// else.
pub proof fn lemma_copies<T>(item: T, count: nat)
    ensures
        copies(item, count).len() == count,
        copies(item, count).count(item) == count,
        forall|other: T| other != item ==> #[trigger] copies(item, count).count(other) == 0,
    decreases count,
{
    broadcast use vstd::multiset::group_multiset_axioms;

    if count > 0 {
        lemma_copies(item, (count - 1) as nat);
    }
}

/// The counts of a table as natural numbers.
pub open spec fn as_counts<T>(items: Map<T, usize>) -> Map<T, nat> {
    Map::new(|item: T| items.contains_key(item), |item: T| items[item] as nat)
}

/// A multiset of items. It keeps each distinct item once, with the number of
/// times that the multiset holds it.
pub struct Bag<T> {
    items: HashMap<T, usize, BuildHasherDefault<FxHasher>>,
    len: usize,
}

impl<T> View for Bag<T> {
    type V = Multiset<T>;

    closed spec fn view(&self) -> Multiset<T> {
        Multiset::from_map(as_counts(self.items@))
    }
}

impl<T: Eq + Hash + Clone> Default for Bag<T> {
    /// A bag that holds nothing.
    fn default() -> (bag: Self)
        ensures
            bag@ == Multiset::<T>::empty(),
            obeys_key_model::<T>() ==> bag.wf(),
    {
        Bag::new()
    }
}

impl<T: Eq + Hash + Clone> Bag<T> {
    /// The invariant of a bag: every item it keeps is held at least once, and
    /// its length is the number of items held, copies counted.
    pub closed spec fn wf(&self) -> bool {
        &&& obeys_key_model::<T>()
        &&& builds_valid_hashers::<BuildHasherDefault<FxHasher>>()
        &&& self.items@.dom().finite()
        &&& forall|item: T| #[trigger] self.items@.contains_key(item) ==> self.items@[item] >= 1
        &&& self.len == self@.len()
    }

    /// How often the bag holds `item`, read off the table.
    proof fn lemma_count(&self, item: T)
        requires
            self.items@.dom().finite(),
        ensures
            self@.count(item) == (if self.items@.contains_key(item) {
                self.items@[item] as nat
            } else {
                0
            }),
    {
        broadcast use vstd::multiset::group_multiset_axioms;

        assert(as_counts(self.items@).dom() =~= self.items@.dom());
    }

    /// A bag that holds nothing. It meets the invariant for every type of item
    /// whose hashing and equality a hash table can rely on.
    pub fn new() -> (bag: Self)
        ensures
            bag@ == Multiset::<T>::empty(),
            obeys_key_model::<T>() ==> bag.wf(),
    {
        broadcast use vstd::multiset::group_multiset_axioms;

        let bag = Bag { items: new_table(), len: 0 };
        proof {
            assert forall|item: T| bag@.count(item) == 0 by {
                bag.lemma_count(item);
            }
            assert(bag@ =~= Multiset::<T>::empty());
        }
        bag
    }

    /// Adds one copy of `item`.
    pub fn insert(&mut self, item: T)
        requires
            old(self).wf(),
            old(self)@.len() < usize::MAX,
        ensures
            final(self).wf(),
            final(self)@ == old(self)@.insert(item),
    {
        broadcast use {vstd::std_specs::hash::group_hash_axioms, vstd::multiset::group_multiset_axioms};

        let ghost before = *self;
        proof {
            before.lemma_count(item);
        }
        let count = self.items.entry(item).or_insert(0);
        *count += 1;
        self.len += 1;
        proof {
            assert forall|other: T| self@.count(other) == before@.insert(item).count(other) by {
                self.lemma_count(other);
                before.lemma_count(other);
            }
            assert(self@ =~= before@.insert(item));
        }
    }

    /// The number of items held, copies counted.
    pub fn len(&self) -> (len: usize)
        requires
            self.wf(),
        ensures
            len == self@.len(),
    {
        self.len
    }

    /// Takes one copy of `item` out, if the bag holds one.
    pub fn remove_one(&mut self, item: T)
        requires
            old(self).wf(),
        ensures
            final(self).wf(),
            final(self)@ == old(self)@.remove(item),
    {
        broadcast use {vstd::std_specs::hash::group_hash_axioms, vstd::multiset::group_multiset_axioms};

        let ghost before = *self;
        proof {
            before.lemma_count(item);
        }
        match self.items.entry(item) {
            Entry::Occupied(mut entry) => {
                if *entry.get() == 1 {
                    entry.remove();
                    self.len -= 1;
                } else {
                    let count = entry.get_mut();
                    *count -= 1;
                    self.len -= 1;
                }
            },
            Entry::Vacant(_) => {},
        }
        proof {
            assert forall|other: T| self@.count(other) == before@.remove(item).count(other) by {
                self.lemma_count(other);
                before.lemma_count(other);
            }
            assert(self@ =~= before@.remove(item));
            if before.items@.contains_key(item) {
                assert(Multiset::singleton(item).subset_of(before@)) by {
                    assert forall|other: T| Multiset::singleton(item).count(other) <= before@.count(
                        other,
                    ) by {
                        if other != item {
                            assert(Multiset::singleton(item).count(other) == 0);
                        }
                    }
                }
            } else {
                assert(before@.remove(item) =~= before@);
            }
        }
    }

    /// Takes every copy of `item` out.
    pub fn remove(&mut self, item: &T)
        requires
            old(self).wf(),
        ensures
            final(self).wf(),
            final(self)@ == old(self)@.sub(copies(*item, old(self)@.count(*item))),
    {
        broadcast use {vstd::std_specs::hash::group_hash_axioms, vstd::multiset::group_multiset_axioms};

        let ghost before = *self;
        proof {
            before.lemma_count(*item);
            lemma_copies(*item, before@.count(*item));
        }
        if let Some(num_items) = self.items.remove(item) {
            self.len -= num_items;
        }
        proof {
            let gone = copies(*item, before@.count(*item));
            assert forall|other: T| self@.count(other) == before@.sub(gone).count(other) by {
                self.lemma_count(other);
                before.lemma_count(other);
            }
            assert(self@ =~= before@.sub(gone));
            assert(gone.subset_of(before@));
        }
    }

    /// Adds one copy of each item of `items`.
    pub fn extend(&mut self, items: Vec<T>)
        requires
            old(self).wf(),
            old(self)@.len() + items.len() <= usize::MAX,
        ensures
            final(self).wf(),
            final(self)@ == old(self)@.add(items@.to_multiset()),
    {
        broadcast use {vstd::multiset::group_multiset_axioms, vstd::seq_lib::group_to_multiset_ensures};

        assert(items@.take(0).to_multiset() =~= Multiset::empty()) by {
            items@.take(0).to_multiset_ensures();
            assert(items@.take(0).to_multiset().len() == 0);
        }
        assert(old(self)@.add(Multiset::empty()) =~= old(self)@);
        for item in it: items
            invariant
                self.wf(),
                it.seq() == items@,
                old(self)@.len() + items.len() <= usize::MAX,
                self@ == old(self)@.add(items@.take(it.index()).to_multiset()),
        {
            let ghost done = items@.take(it.index());
            proof {
                done.to_multiset_ensures();
                assert(items@.take(it.index() + 1) =~= done.push(item));
            }
            self.insert(item);
            proof {
                assert(self@ =~= old(self)@.add(done.push(item).to_multiset()));
            }
        }
        assert(items@.take(items.len() as int) =~= items@);
    }
}

/// `item`, `count` times over.
pub open spec fn repeated<T>(item: T, count: nat) -> Seq<T> {
    Seq::new(count, |i: int| item)
}

/// The items that a list of distinct items with their counts stands for: each
/// item as often as its count says, in the order of the list.
pub open spec fn expand<'a, T>(entries: Seq<(&'a T, usize)>) -> Seq<T>
    decreases entries.len(),
{
    if entries.len() == 0 {
        Seq::empty()
    } else {
        repeated(*entries[0].0, entries[0].1 as nat) + expand(entries.drop_first())
    }
}

/// How often a list of items with their counts lists `item`, all entries for
/// it taken together.
pub open spec fn listed<'a, T>(entries: Seq<(&'a T, usize)>, item: T) -> nat
    decreases entries.len(),
{
    if entries.len() == 0 {
        0
    } else {
        let here: nat = if *entries[0].0 == item {
            entries[0].1 as nat
        } else {
            0
        };
        here + listed(entries.drop_first(), item)
    }
}

/// A repeated item, as a multiset, is so many copies of it.
pub proof fn lemma_repeated<T>(item: T, count: nat)
    ensures
        repeated(item, count).to_multiset() == copies(item, count),
    decreases count,
{
    broadcast use vstd::multiset::group_multiset_axioms;

    if count == 0 {
        repeated(item, count).to_multiset_ensures();
        assert(repeated(item, count).to_multiset().len() == 0);
        assert(repeated(item, count).to_multiset() =~= Multiset::<T>::empty());
    } else {
        let shorter = repeated(item, (count - 1) as nat);
        lemma_repeated(item, (count - 1) as nat);
        shorter.to_multiset_ensures();
        assert(repeated(item, count) =~= shorter.push(item));
    }
}

/// The expansion of a list holds each item as often as the list lists it.
pub proof fn lemma_expand_count<'a, T>(entries: Seq<(&'a T, usize)>, item: T)
    ensures
        expand(entries).to_multiset().count(item) == listed(entries, item),
    decreases entries.len(),
{
    broadcast use vstd::multiset::group_multiset_axioms;

    if entries.len() == 0 {
        expand(entries).to_multiset_ensures();
        assert(expand(entries).to_multiset().len() == 0);
        assert(expand(entries).to_multiset() =~= Multiset::<T>::empty());
    } else {
        let head = repeated(*entries[0].0, entries[0].1 as nat);
        let tail = expand(entries.drop_first());
        lemma_expand_count(entries.drop_first(), item);
        lemma_repeated(*entries[0].0, entries[0].1 as nat);
        lemma_copies(*entries[0].0, entries[0].1 as nat);
        vstd::seq_lib::lemma_multiset_commutative(head, tail);
    }
}

/// Among entries for distinct items, an item is listed as often as its one
/// entry says, or not at all.
pub proof fn lemma_listed_once<'a, T>(entries: Seq<(&'a T, usize)>, item: T, at: int)
    requires
        forall|i: int, j: int|
            0 <= i < entries.len() && 0 <= j < entries.len() && i != j ==> *(#[trigger] entries[i]).0
                != *(#[trigger] entries[j]).0,
        0 <= at < entries.len(),
        *entries[at].0 == item,
    ensures
        listed(entries, item) == entries[at].1,
    decreases entries.len(),
{
    let rest = entries.drop_first();
    assert forall|i: int, j: int|
        0 <= i < rest.len() && 0 <= j < rest.len() && i != j implies *(#[trigger] rest[i]).0 != *(
    #[trigger] rest[j]).0 by {
        assert(rest[i] == entries[i + 1] && rest[j] == entries[j + 1]);
    }
    if at == 0 {
        assert forall|i: int| 0 <= i < rest.len() implies *(#[trigger] rest[i]).0 != item by {
            assert(rest[i] == entries[i + 1]);
            assert(*entries[i + 1].0 != *entries[0].0);
        }
        lemma_not_listed(rest, item);
    } else {
        assert(*entries[0].0 != *entries[at].0);
        assert(rest[at - 1] == entries[at]);
        lemma_listed_once(rest, item, at - 1);
    }
}

/// An item that no entry is for is not listed.
pub proof fn lemma_not_listed<'a, T>(entries: Seq<(&'a T, usize)>, item: T)
    requires
        forall|i: int| 0 <= i < entries.len() ==> *(#[trigger] entries[i]).0 != item,
    ensures
        listed(entries, item) == 0,
    decreases entries.len(),
{
    if entries.len() > 0 {
        let rest = entries.drop_first();
        assert forall|i: int| 0 <= i < rest.len() implies *(#[trigger] rest[i]).0 != item by {
            assert(rest[i] == entries[i + 1]);
        }
        lemma_not_listed(rest, item);
    }
}

/// Whether `listing` lists the distinct items of `bag`, each once and with
/// the number of times that the bag holds it.
pub open spec fn lists<'a, T>(listing: Seq<(&'a T, usize)>, bag: Multiset<T>) -> bool {
    &&& forall|i: int, j: int|
        0 <= i < listing.len() && 0 <= j < listing.len() && i != j ==> *(#[trigger] listing[i]).0
            != *(#[trigger] listing[j]).0
    &&& forall|i: int|
        0 <= i < listing.len() ==> (#[trigger] listing[i]).1 >= 1 && listing[i].1 == bag.count(
            *listing[i].0,
        )
    &&& forall|item: T| #[trigger]
        bag.count(item) > 0 ==> exists|i: int|
            0 <= i < listing.len() && *(#[trigger] listing[i]).0 == item
}

/// A pass over the items of a bag, each as often as the bag holds it. Copies
/// of one item come together.
pub struct Iter<'a, T> where T: 'a + Clone {
    /// The distinct items with their counts.
    entries: Vec<(&'a T, usize)>,
    /// The number of entries that the pass has begun.
    position: usize,
    /// The item that the pass is at, with the number of its copies that are
    /// still to come, the one handed out last included.
    repeat: Option<(&'a T, usize)>,
}

impl<'a, T: Clone> Iter<'a, T> {
    /// The invariant of a pass: every count is at least one.
    pub closed spec fn wf(&self) -> bool {
        &&& self.position <= self.entries.len()
        &&& forall|i: int| 0 <= i < self.entries.len() ==> (#[trigger] self.entries[i]).1 >= 1
        &&& match self.repeat {
            Some((_, count)) => count >= 1,
            None => true,
        }
    }

    /// The items still to come, in order.
    pub closed spec fn remaining(&self) -> Seq<T> {
        (match self.repeat {
            Some((item, count)) => repeated(*item, (count - 1) as nat),
            None => Seq::empty(),
        }) + expand(self.entries@.skip(self.position as int))
    }

    /// Hands out the next item, or `None` when the pass is over.
    pub fn next(&mut self) -> (item: Option<&'a T>)
        requires
            old(self).wf(),
        ensures
            final(self).wf(),
            match item {
                Some(x) => {
                    &&& old(self).remaining().len() > 0
                    &&& *x == old(self).remaining()[0]
                    &&& final(self).remaining() == old(self).remaining().drop_first()
                },
                None => {
                    &&& old(self).remaining().len() == 0
                    &&& final(self).remaining() == old(self).remaining()
                },
            },
    {
        let ghost later = expand(self.entries@.skip(self.position as int));
        if let Some((item, count)) = self.repeat {
            let count = count - 1;
            if count > 0 {
                self.repeat = Some((item, count));
                assert(self.remaining() =~= old(self).remaining().drop_first());
                return Some(item);
            } else {
                self.repeat = None;
                assert(self.remaining() =~= old(self).remaining());
            }
        }
        if self.position < self.entries.len() {
            let (element, count) = self.entries[self.position];
            proof {
                let ahead = self.entries@.skip(self.position as int);
                assert(ahead[0] == self.entries@[self.position as int]);
                assert(ahead.drop_first() =~= self.entries@.skip(self.position + 1));
                assert(later == repeated(*element, count as nat) + expand(
                    self.entries@.skip(self.position + 1),
                ));
            }
            self.position += 1;
            self.repeat = Some((element, count));
            assert(self.remaining() =~= old(self).remaining().drop_first());
            Some(element)
        } else {
            assert(self.entries@.skip(self.position as int).len() == 0);
            None
        }
    }
}

impl<T: Eq + Hash + Clone> Bag<T> {
    /// A pass over the items of the bag, each as often as the bag holds it.
    /// The order of the distinct items is that of the hash table and is not
    /// fixed.
    pub fn iter(&self) -> (iter: Iter<'_, T>)
        requires
            self.wf(),
        ensures
            iter.wf(),
            iter.remaining().to_multiset() == self@,
            exists|listing: Seq<(&T, usize)>|
                lists(listing, self@) && #[trigger] expand(listing) == iter.remaining(),
    {
        broadcast use {vstd::std_specs::hash::group_hash_axioms, vstd::multiset::group_multiset_axioms};

        let mut entries: Vec<(&T, usize)> = Vec::new();
        for entry in it: self.items.iter()
            invariant
                self.wf(),
                it.seq().no_duplicates(),
                forall|i: int|
                    0 <= i < it.seq().len() ==> self.items@.contains_key(*(#[trigger] it.seq()[i]).0)
                        && self.items@[*it.seq()[i].0] == *it.seq()[i].1,
                entries.len() == it.index(),
                forall|j: int|
                    0 <= j < entries.len() ==> *(#[trigger] entries[j]).0 == *it.seq()[j].0
                        && entries[j].1 == *it.seq()[j].1,
                forall|j: int|
                    0 <= j < entries.len() ==> self.items@.contains_key(*(#[trigger] entries[j]).0)
                        && self.items@[*entries[j].0] == entries[j].1,
                forall|i: int, j: int|
                    0 <= i < entries.len() && 0 <= j < entries.len() && i != j ==> *(
                    #[trigger] entries[i]).0 != *(#[trigger] entries[j]).0,
                forall|item: T| #[trigger]
                    self.items@.contains_key(item) ==> (exists|j: int|
                        0 <= j < entries.len() && *(#[trigger] entries[j]).0 == item) || (exists|
                        i: int,
                    | it.index() <= i < it.seq().len() && *(#[trigger] it.seq()[i]).0 == item),
        {
            let (item, count) = entry;
            let ghost at = it.index();
            let ghost before = entries@;
            assert(entry == it.seq()[at]);
            entries.push((item, *count));
            proof {
                assert forall|i: int, j: int|
                    0 <= i < entries.len() && 0 <= j < entries.len() && i != j implies *(
                #[trigger] entries[i]).0 != *(#[trigger] entries[j]).0 by {
                    if i < at && j < at {
                        assert(*before[i].0 != *before[j].0);
                    } else {
                        let low = if i < at {
                            i
                        } else {
                            j
                        };
                        if *it.seq()[low].0 == *it.seq()[at].0 {
                            assert(it.seq()[low] == it.seq()[at]);
                        }
                    }
                }
                assert forall|x: T| #[trigger] self.items@.contains_key(x) implies (exists|j: int|
                    0 <= j < entries.len() && *(#[trigger] entries[j]).0 == x) || (exists|i: int|
                    at + 1 <= i < it.seq().len() && *(#[trigger] it.seq()[i]).0 == x) by {
                    if exists|j: int| 0 <= j < before.len() && *(#[trigger] before[j]).0 == x {
                        let j = choose|j: int| 0 <= j < before.len() && *(#[trigger] before[j]).0 == x;
                        assert(*entries[j].0 == x);
                    } else {
                        let i = choose|i: int|
                            at <= i < it.seq().len() && *(#[trigger] it.seq()[i]).0 == x;
                        if i == at {
                            assert(*entries[at].0 == x);
                        }
                    }
                }
            }
        }
        let iter = Iter { entries, position: 0, repeat: None };
        proof {
            let listing = iter.entries@;
            assert(listing.skip(0) =~= listing);
            assert(iter.remaining() =~= expand(listing));
            assert forall|x: T| expand(listing).to_multiset().count(x) == self@.count(x) by {
                lemma_expand_count(listing, x);
                self.lemma_count(x);
                if self.items@.contains_key(x) {
                    let j = choose|j: int| 0 <= j < listing.len() && *(#[trigger] listing[j]).0 == x;
                    lemma_listed_once(listing, x, j);
                } else {
                    lemma_not_listed(listing, x);
                }
            }
            assert(expand(listing).to_multiset() =~= self@);
            assert forall|i: int| 0 <= i < listing.len() implies (#[trigger] listing[i]).1 >= 1
                && listing[i].1 == self@.count(*listing[i].0) by {
                self.lemma_count(*listing[i].0);
            }
            assert forall|item: T| #[trigger] self@.count(item) > 0 implies exists|i: int|
                0 <= i < listing.len() && *(#[trigger] listing[i]).0 == item by {
                self.lemma_count(item);
            }
            assert(lists(listing, self@));
        }
        iter
    }

    /// The items of the bag, each as often as the bag holds it: a copy, made
    /// by `clone`, of each item of some arrangement of the bag in a row.
    pub fn into_iter(self) -> (all: Vec<T>)
        requires
            self.wf(),
        ensures
            exists|order: Seq<T>|
                {
                    &&& #[trigger] order.to_multiset() == self@
                    &&& all.len() == order.len()
                    &&& forall|i: int| 0 <= i < all.len() ==> cloned(order[i], #[trigger] all[i])
                },
    {
        let mut all: Vec<T> = Vec::new();
        let mut iter = self.iter();
        let ghost order = iter.remaining();
        assert(order.skip(0) =~= order);
        loop
            invariant
                iter.wf(),
                all.len() <= order.len(),
                iter.remaining() == order.skip(all.len() as int),
                forall|i: int| 0 <= i < all.len() ==> cloned(order[i], #[trigger] all[i]),
            ensures
                all.len() == order.len(),
                forall|i: int| 0 <= i < all.len() ==> cloned(order[i], #[trigger] all[i]),
            decreases order.len() - all.len(),
        {
            match iter.next() {
                None => {
                    break ;
                },
                Some(item) => {
                    let ghost n = all.len() as int;
                    assert(*item == order[n]);
                    all.push(item.clone());
                    assert(order.skip(n).drop_first() =~= order.skip(n + 1));
                },
            }
        }
        assert(order.to_multiset() == self@);
        all
    }
}

} // verus!
