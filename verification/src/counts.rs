//! Occurrence counts keyed by name, kept in name order.
//!
//! A `Counts` stands for a multiset of names. Its entries are sorted by name
//! and hold each name once, so a name is found by bisection.

use crate::order::{
    lemma_precedes_asymmetric, lemma_precedes_transitive, precedes, rank, Rank,
};
use vstd::multiset::Multiset;
use vstd::prelude::*;

verus! {

/// `n` occurrences of `key` and nothing else.
pub open spec fn repeated(key: Seq<u8>, n: nat) -> Multiset<Seq<u8>> {
    Multiset::from_map(map![key => n])
}

/// `repeated(key, n)` holds `key` `n` times and no other name.
pub proof fn lemma_repeated(key: Seq<u8>, n: nat, other: Seq<u8>)
    ensures
        repeated(key, n).count(other) == if other == key {
            n
        } else {
            0
        },
{
    let m = map![key => n];
    assert(m.dom() =~= set![key]);
    assert(m.dom().finite());
}

/// Every count of the two multisets taken together fits in a `u64`.
pub open spec fn fits(a: Multiset<Seq<u8>>, b: Multiset<Seq<u8>>) -> bool {
    forall|key: Seq<u8>| a.count(key) + b.count(key) <= u64::MAX
}

/// `key` with `count` is the most frequent name of `bag`, and of the names
/// that occur as often it is the first in name order.
pub open spec fn is_most_frequent(bag: Multiset<Seq<u8>>, key: Seq<u8>, count: nat) -> bool {
    &&& count >= 1
    &&& bag.count(key) == count
    &&& forall|other: Seq<u8>| bag.count(other) <= count
    &&& forall|other: Seq<u8>|
        other != key && #[trigger] bag.count(other) == count ==> precedes(key, other)
}

/// A multiset has at most one most frequent name.
pub proof fn lemma_most_frequent_unique(
    bag: Multiset<Seq<u8>>,
    key1: Seq<u8>,
    count1: nat,
    key2: Seq<u8>,
    count2: nat,
)
    requires
        is_most_frequent(bag, key1, count1),
        is_most_frequent(bag, key2, count2),
    ensures
        key1 == key2,
        count1 == count2,
{
    assert(bag.count(key1) <= count2);
    assert(bag.count(key2) <= count1);
    if key1 != key2 {
        lemma_precedes_asymmetric(key1, key2);
    }
}

/// The entries as plain values: each name with its count.
spec fn model(entries: Seq<(&[u8], u64)>) -> Seq<(Seq<u8>, nat)> {
    entries.map_values(|e: (&[u8], u64)| (e.0@, e.1 as nat))
}

/// The names stand in strictly increasing name order.
spec fn in_order(m: Seq<(Seq<u8>, nat)>) -> bool {
    forall|i: int, j: int| 0 <= i < j < m.len() ==> precedes(#[trigger] m[i].0, #[trigger] m[j].0)
}

/// No entry has the count zero.
spec fn positive(m: Seq<(Seq<u8>, nat)>) -> bool {
    forall|i: int| 0 <= i < m.len() ==> (#[trigger] m[i]).1 > 0
}

/// The sum of the counts that the entries give for `key`.
spec fn count_in(m: Seq<(Seq<u8>, nat)>, key: Seq<u8>) -> nat
    decreases m.len(),
{
    if m.len() == 0 {
        0
    } else if m.last().0 == key {
        count_in(m.drop_last(), key) + m.last().1
    } else {
        count_in(m.drop_last(), key)
    }
}

/// The multiset that the entries stand for.
spec fn bag(m: Seq<(Seq<u8>, nat)>) -> Multiset<Seq<u8>>
    decreases m.len(),
{
    if m.len() == 0 {
        Multiset::empty()
    } else {
        bag(m.drop_last()).add(repeated(m.last().0, m.last().1))
    }
}

/// The multiset holds each name as often as the entries' counts for it sum to.
proof fn lemma_bag_count(m: Seq<(Seq<u8>, nat)>, key: Seq<u8>)
    ensures
        bag(m).count(key) == count_in(m, key),
    decreases m.len(),
{
    if m.len() != 0 {
        lemma_bag_count(m.drop_last(), key);
        lemma_repeated(m.last().0, m.last().1, key);
    }
}

/// Appending one entry adds its count for its name.
proof fn lemma_bag_push(m: Seq<(Seq<u8>, nat)>, entry: (Seq<u8>, nat))
    ensures
        bag(m.push(entry)) == bag(m).add(repeated(entry.0, entry.1)),
{
    assert(m.push(entry).drop_last() =~= m);
}

/// The counts of two runs of entries add up over their concatenation.
proof fn lemma_count_concat(a: Seq<(Seq<u8>, nat)>, b: Seq<(Seq<u8>, nat)>, key: Seq<u8>)
    ensures
        count_in(a + b, key) == count_in(a, key) + count_in(b, key),
    decreases b.len(),
{
    if b.len() == 0 {
        assert(a + b =~= a);
    } else {
        assert((a + b).drop_last() =~= a + b.drop_last());
        lemma_count_concat(a, b.drop_last(), key);
    }
}

/// A name that no entry holds has the count zero.
proof fn lemma_count_none(m: Seq<(Seq<u8>, nat)>, key: Seq<u8>)
    requires
        forall|i: int| 0 <= i < m.len() ==> (#[trigger] m[i]).0 != key,
    ensures
        count_in(m, key) == 0,
    decreases m.len(),
{
    if m.len() != 0 {
        lemma_count_none(m.drop_last(), key);
    }
}

/// A name with a count above zero stands in some entry.
proof fn lemma_count_some(m: Seq<(Seq<u8>, nat)>, key: Seq<u8>)
    requires
        count_in(m, key) > 0,
    ensures
        exists|i: int| 0 <= i < m.len() && (#[trigger] m[i]).0 == key,
{
    if forall|i: int| 0 <= i < m.len() ==> (#[trigger] m[i]).0 != key {
        lemma_count_none(m, key);
    }
}

/// The count of `key` over the entries around index `i`, plus the entry there.
proof fn lemma_count_around(m: Seq<(Seq<u8>, nat)>, i: int, key: Seq<u8>)
    requires
        0 <= i < m.len(),
    ensures
        count_in(m, key) == count_in(m.take(i), key) + count_in(m.skip(i + 1), key) + if m[i].0 == key {
            m[i].1
        } else {
            0
        },
{
    let one = seq![m[i]];
    assert(m =~= (m.take(i) + one) + m.skip(i + 1));
    lemma_count_concat(m.take(i) + one, m.skip(i + 1), key);
    lemma_count_concat(m.take(i), one, key);
    assert(one.drop_last() =~= Seq::<(Seq<u8>, nat)>::empty());
    assert(count_in(one.drop_last(), key) == 0);
}

/// In ordered entries, the entry of a name holds its whole count.
proof fn lemma_count_at(m: Seq<(Seq<u8>, nat)>, i: int)
    requires
        in_order(m),
        0 <= i < m.len(),
    ensures
        count_in(m, m[i].0) == m[i].1,
{
    let key = m[i].0;
    let before = m.take(i);
    let after = m.skip(i + 1);
    assert forall|j: int| 0 <= j < before.len() implies (#[trigger] before[j]).0 != key by {
        assert(before[j] == m[j]);
        lemma_precedes_asymmetric(m[j].0, m[i].0);
    }
    assert forall|j: int| 0 <= j < after.len() implies (#[trigger] after[j]).0 != key by {
        assert(after[j] == m[i + 1 + j]);
        lemma_precedes_asymmetric(m[i].0, m[i + 1 + j].0);
    }
    lemma_count_none(before, key);
    lemma_count_none(after, key);
    lemma_count_around(m, i, key);
}

/// Inserting an entry adds its count for its name and leaves the other names
/// as they were.
proof fn lemma_count_insert(
    m: Seq<(Seq<u8>, nat)>,
    i: int,
    entry: (Seq<u8>, nat),
    key: Seq<u8>,
)
    requires
        0 <= i <= m.len(),
    ensures
        count_in(m.insert(i, entry), key) == count_in(m, key) + if entry.0 == key {
            entry.1
        } else {
            0
        },
{
    let grown = m.insert(i, entry);
    assert(grown.take(i) =~= m.take(i));
    assert(grown.skip(i + 1) =~= m.skip(i));
    assert(m =~= m.take(i) + m.skip(i));
    lemma_count_around(grown, i, key);
    lemma_count_concat(m.take(i), m.skip(i), key);
}

/// Replacing an entry takes its count away and adds that of the new entry.
proof fn lemma_count_update(
    m: Seq<(Seq<u8>, nat)>,
    i: int,
    entry: (Seq<u8>, nat),
    key: Seq<u8>,
)
    requires
        0 <= i < m.len(),
        entry.0 == m[i].0,
    ensures
        count_in(m.update(i, entry), key) + (if entry.0 == key {
            m[i].1
        } else {
            0
        }) == count_in(m, key) + if entry.0 == key {
            entry.1
        } else {
            0
        },
{
    let changed = m.update(i, entry);
    assert(changed.take(i) =~= m.take(i));
    assert(changed.skip(i + 1) =~= m.skip(i + 1));
    lemma_count_around(changed, i, key);
    lemma_count_around(m, i, key);
}

/// Ordered entries without a zero count stand for as many distinct names as
/// there are entries.
proof fn lemma_distinct_names(m: Seq<(Seq<u8>, nat)>)
    requires
        in_order(m),
        positive(m),
    ensures
        bag(m).dom().finite(),
        bag(m).dom().len() == m.len(),
    decreases m.len(),
{
    if m.len() == 0 {
        assert(bag(m).dom() =~= Set::<Seq<u8>>::empty());
    } else {
        let rest = m.drop_last();
        let last = m.last();
        lemma_distinct_names(rest);
        assert forall|j: int| 0 <= j < rest.len() implies (#[trigger] rest[j]).0 != last.0 by {
            assert(rest[j] == m[j]);
            lemma_precedes_asymmetric(m[j].0, m[m.len() - 1].0);
        }
        lemma_count_none(rest, last.0);
        lemma_bag_count(rest, last.0);
        assert forall|key: Seq<u8>|
            bag(m).dom().contains(key) <==> bag(rest).dom().insert(last.0).contains(key) by {
            lemma_repeated(last.0, last.1, key);
        }
        assert(bag(m).dom() =~= bag(rest).dom().insert(last.0));
    }
}

/// Occurrence counts of names. The names are slices of a buffer that
/// outlives the counts; none is copied.
#[derive(Debug)]
pub struct Counts<'k> {
    entries: Vec<(&'k [u8], u64)>,
}

impl<'k> View for Counts<'k> {
    type V = Multiset<Seq<u8>>;

    /// The multiset of names that the counts stand for.
    closed spec fn view(&self) -> Multiset<Seq<u8>> {
        bag(model(self.entries@))
    }
}

impl<'k> Counts<'k> {
    /// The entries are sorted by name, hold no name twice and no count zero.
    pub closed spec fn wf(&self) -> bool {
        &&& in_order(model(self.entries@))
        &&& positive(model(self.entries@))
    }

    /// Counts that hold no name.
    pub fn new() -> (counts: Self)
        ensures
            counts.wf(),
            counts@ == Multiset::<Seq<u8>>::empty(),
    {
        Counts { entries: Vec::new() }
    }

    /// The number of distinct names.
    pub fn len(&self) -> (n: usize)
        requires
            self.wf(),
        ensures
            n == self@.dom().len(),
    {
        proof {
            lemma_distinct_names(model(self.entries@));
        }
        self.entries.len()
    }

    /// Where `key` stands among the entries and `true`, or where it would
    /// have to be inserted and `false`.
    fn locate(&self, key: &[u8]) -> (at: (usize, bool))
        requires
            self.wf(),
        ensures
            at.0 <= self.entries@.len(),
            at.1 ==> at.0 < self.entries@.len() && model(self.entries@)[at.0 as int].0 == key@,
            !at.1 ==> forall|j: int|
                0 <= j < at.0 ==> precedes((#[trigger] model(self.entries@)[j]).0, key@),
            !at.1 ==> forall|j: int|
                at.0 <= j < self.entries@.len() ==> precedes(
                    key@,
                    (#[trigger] model(self.entries@)[j]).0,
                ),
    {
        let ghost m = model(self.entries@);
        let mut low: usize = 0;
        let mut high: usize = self.entries.len();
        while low < high
            invariant
                low <= high <= self.entries@.len(),
                m == model(self.entries@),
                in_order(m),
                forall|j: int| 0 <= j < low ==> precedes((#[trigger] m[j]).0, key@),
                forall|j: int| high <= j < m.len() ==> precedes(key@, (#[trigger] m[j]).0),
            decreases high - low,
        {
            let mid = low + (high - low) / 2;
            let probe = self.entries[mid].0;
            assert(m[mid as int].0 == probe@);
            match rank(probe, key) {
                Rank::Before => {
                    proof {
                        assert forall|j: int| 0 <= j < mid + 1 implies precedes(
                            (#[trigger] m[j]).0,
                            key@,
                        ) by {
                            if j < mid {
                                lemma_precedes_transitive(m[j].0, m[mid as int].0, key@);
                            }
                        }
                    }
                    low = mid + 1;
                },
                Rank::Same => {
                    return (mid, true);
                },
                Rank::After => {
                    proof {
                        assert forall|j: int| mid <= j < m.len() implies precedes(
                            key@,
                            (#[trigger] m[j]).0,
                        ) by {
                            if j > mid {
                                lemma_precedes_transitive(key@, m[mid as int].0, m[j].0);
                            }
                        }
                    }
                    high = mid;
                },
            }
        }
        (low, false)
    }

    /// How often `key` occurs.
    pub fn get(&self, key: &[u8]) -> (n: u64)
        requires
            self.wf(),
        ensures
            n == self@.count(key@),
    {
        let (at, found) = self.locate(key);
        let ghost m = model(self.entries@);
        proof {
            lemma_bag_count(m, key@);
        }
        if found {
            proof {
                lemma_count_at(m, at as int);
            }
            self.entries[at].1
        } else {
            proof {
                assert forall|j: int| 0 <= j < m.len() implies (#[trigger] m[j]).0 != key@ by {
                    if j < at {
                        lemma_precedes_asymmetric(m[j].0, key@);
                    } else {
                        lemma_precedes_asymmetric(key@, m[j].0);
                    }
                }
                lemma_count_none(m, key@);
            }
            0
        }
    }

    /// Counts `by` more occurrences of `key`.
    pub fn bump(&mut self, key: &'k [u8], by: u64)
        requires
            old(self).wf(),
            old(self)@.count(key@) + by <= u64::MAX,
        ensures
            final(self).wf(),
            final(self)@ == old(self)@.add(repeated(key@, by as nat)),
    {
        let ghost before = model(self.entries@);
        let ghost entry = (key@, by as nat);
        if by == 0 {
            proof {
                assert forall|other: Seq<u8>|
                    self@.add(repeated(key@, 0)).count(other) == self@.count(other) by {
                    lemma_repeated(key@, 0, other);
                }
                assert(self@.add(repeated(key@, 0)) =~= self@);
            }
            return ;
        }
        let (at, found) = self.locate(key);
        if found {
            let (name, count) = self.entries[at];
            proof {
                lemma_bag_count(before, key@);
                lemma_count_at(before, at as int);
            }
            self.entries[at] = (name, count + by);
            proof {
                let after = model(self.entries@);
                let changed = (key@, (count + by) as nat);
                assert(after =~= before.update(at as int, changed));
                assert forall|i: int, j: int| 0 <= i < j < after.len() implies precedes(
                    #[trigger] after[i].0,
                    #[trigger] after[j].0,
                ) by {
                    assert(after[i].0 == before[i].0);
                    assert(after[j].0 == before[j].0);
                }
                assert forall|other: Seq<u8>|
                    bag(after).count(other) == bag(before).add(repeated(key@, by as nat)).count(
                        other,
                    ) by {
                    lemma_bag_count(after, other);
                    lemma_bag_count(before, other);
                    lemma_count_update(before, at as int, changed, other);
                    lemma_repeated(key@, by as nat, other);
                }
                assert(bag(after) =~= bag(before).add(repeated(key@, by as nat)));
            }
        } else {
            self.entries.insert(at, (key, by));
            proof {
                let after = model(self.entries@);
                assert(after =~= before.insert(at as int, entry));
                assert forall|i: int, j: int| 0 <= i < j < after.len() implies precedes(
                    #[trigger] after[i].0,
                    #[trigger] after[j].0,
                ) by {
                    let a = if i < at { before[i] } else if i == at { entry } else { before[i - 1] };
                    let b = if j < at { before[j] } else if j == at { entry } else { before[j - 1] };
                    assert(after[i] == a);
                    assert(after[j] == b);
                }
                assert forall|i: int| 0 <= i < after.len() implies (#[trigger] after[i]).1 > 0 by {
                    let a = if i < at { before[i] } else if i == at { entry } else { before[i - 1] };
                    assert(after[i] == a);
                }
                assert forall|other: Seq<u8>|
                    bag(after).count(other) == bag(before).add(repeated(key@, by as nat)).count(
                        other,
                    ) by {
                    lemma_bag_count(after, other);
                    lemma_bag_count(before, other);
                    lemma_count_insert(before, at as int, entry, other);
                    lemma_repeated(key@, by as nat, other);
                }
                assert(bag(after) =~= bag(before).add(repeated(key@, by as nat)));
            }
        }
    }

    /// No name is held more often than a `u64` can count.
    pub proof fn lemma_count_bounded(&self, key: Seq<u8>)
        requires
            self.wf(),
        ensures
            self@.count(key) <= u64::MAX,
    {
        let m = model(self.entries@);
        lemma_bag_count(m, key);
        if count_in(m, key) > 0 {
            lemma_count_some(m, key);
            let j = choose|j: int| 0 <= j < m.len() && (#[trigger] m[j]).0 == key;
            lemma_count_at(m, j);
            assert(m[j].1 == self.entries@[j].1);
        }
    }

    /// Whether every count of `self` and `other` taken together fits in a
    /// `u64`, so that `self` can absorb `other`.
    pub fn can_absorb(&self, other: &Counts<'k>) -> (ok: bool)
        requires
            self.wf(),
            other.wf(),
        ensures
            ok == fits(self@, other@),
    {
        let ghost theirs = model(other.entries@);
        let mut i: usize = 0;
        while i < other.entries.len()
            invariant
                i <= other.entries@.len(),
                theirs == model(other.entries@),
                self.wf(),
                other.wf(),
                forall|j: int|
                    0 <= j < i ==> self@.count((#[trigger] theirs[j]).0) + theirs[j].1 <= u64::MAX,
            decreases other.entries@.len() - i,
        {
            let (name, count) = other.entries[i];
            proof {
                assert(theirs[i as int] == (name@, count as nat));
                lemma_bag_count(theirs, name@);
                lemma_count_at(theirs, i as int);
            }
            if self.get(name) > u64::MAX - count {
                assert(self@.count(name@) + other@.count(name@) > u64::MAX);
                return false;
            }
            i = i + 1;
        }
        proof {
            assert forall|key: Seq<u8>| self@.count(key) + other@.count(key) <= u64::MAX by {
                lemma_bag_count(theirs, key);
                self.lemma_count_bounded(key);
                if count_in(theirs, key) > 0 {
                    lemma_count_some(theirs, key);
                    let j = choose|j: int| 0 <= j < theirs.len() && (#[trigger] theirs[j]).0 == key;
                    lemma_count_at(theirs, j);
                }
            }
        }
        true
    }

    /// Adds every count of `other` to the count that `self` has for the same
    /// name.
    pub fn absorb(&mut self, other: &Counts<'k>)
        requires
            old(self).wf(),
            other.wf(),
            fits(old(self)@, other@),
        ensures
            final(self).wf(),
            final(self)@ == old(self)@.add(other@),
    {
        let ghost start = self@;
        let ghost theirs = model(other.entries@);
        let mut i: usize = 0;
        assert(theirs.take(0) =~= Seq::<(Seq<u8>, nat)>::empty());
        assert(start.add(Multiset::empty()) =~= start);
        while i < other.entries.len()
            invariant
                i <= other.entries@.len(),
                theirs == model(other.entries@),
                in_order(theirs),
                other@ == bag(theirs),
                self.wf(),
                self@ == start.add(bag(theirs.take(i as int))),
                forall|key: Seq<u8>| start.count(key) + other@.count(key) <= u64::MAX,
            decreases other.entries@.len() - i,
        {
            let (name, count) = other.entries[i];
            proof {
                let done = theirs.take(i as int);
                assert(theirs[i as int] == (name@, count as nat));
                assert forall|j: int| 0 <= j < done.len() implies (#[trigger] done[j]).0
                    != name@ by {
                    assert(done[j] == theirs[j]);
                    lemma_precedes_asymmetric(theirs[j].0, theirs[i as int].0);
                }
                lemma_count_none(done, name@);
                lemma_bag_count(done, name@);
                lemma_count_at(theirs, i as int);
                lemma_bag_count(theirs, name@);
                assert(start.count(name@) + other@.count(name@) <= u64::MAX);
            }
            self.bump(name, count);
            proof {
                let done = theirs.take(i as int);
                assert(theirs.take(i + 1) =~= done.push(theirs[i as int]));
                lemma_bag_push(done, theirs[i as int]);
                assert(start.add(bag(done)).add(repeated(name@, count as nat)) =~= start.add(
                    bag(done).add(repeated(name@, count as nat)),
                ));
            }
            i = i + 1;
        }
        assert(theirs.take(i as int) =~= theirs);
    }

    /// The most frequent name with its count, or `None` where no name is
    /// held. Of names that occur equally often the first in name order wins.
    pub fn most_frequent(&self) -> (best: Option<(&'k [u8], u64)>)
        requires
            self.wf(),
        ensures
            match best {
                Some((name, count)) => is_most_frequent(self@, name@, count as nat),
                None => self@ == Multiset::<Seq<u8>>::empty(),
            },
    {
        let ghost m = model(self.entries@);
        if self.entries.len() == 0 {
            return None;
        }
        let mut at: usize = 0;
        let mut i: usize = 1;
        while i < self.entries.len()
            invariant
                at < i <= self.entries@.len(),
                m == model(self.entries@),
                forall|j: int| 0 <= j < i ==> (#[trigger] m[j]).1 <= m[at as int].1,
                forall|j: int| 0 <= j < at ==> (#[trigger] m[j]).1 < m[at as int].1,
            decreases self.entries@.len() - i,
        {
            if self.entries[i].1 > self.entries[at].1 {
                at = i;
            }
            i = i + 1;
        }
        let (name, count) = self.entries[at];
        proof {
            assert(m[at as int] == (name@, count as nat));
            lemma_bag_count(m, name@);
            lemma_count_at(m, at as int);
            assert forall|other: Seq<u8>| #[trigger] bag(m).count(other) <= count && (other != name@
                && bag(m).count(other) == count ==> precedes(name@, other)) by {
                lemma_bag_count(m, other);
                if count_in(m, other) > 0 {
                    lemma_count_some(m, other);
                    let j = choose|j: int| 0 <= j < m.len() && (#[trigger] m[j]).0 == other;
                    lemma_count_at(m, j);
                    if other != name@ && m[j].1 == count {
                        assert(at < j);
                    }
                }
            }
        }
        Some((name, count))
    }
}

} // verus!
