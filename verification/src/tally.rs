//! Tallies of first names: of one record, of a run of records, and merged.

use crate::counts::{fits, is_most_frequent, lemma_repeated, repeated, Counts};
use crate::order::{rank, Rank};
use crate::record::{find_name, lemma_name_is_slice, name_of};
use crate::split::{
    find_delim, first_delim, is_slice_of, lemma_first_delim, lemma_slice_of_slice, split, NEWLINE,
};
use vstd::multiset::Multiset;
use vstd::prelude::*;

verus! {

/// How often each first name occurs. A tally of at most one name needs no
/// table: it is kept as `One`.
#[derive(Debug)]
pub enum Tally<'k> {
    /// A single name and how often it occurs.
    One(&'k [u8], u64),
    /// Any number of names with their counts.
    Many(Counts<'k>),
}

impl<'k> View for Tally<'k> {
    type V = Multiset<Seq<u8>>;

    /// The multiset of names that the tally stands for.
    open spec fn view(&self) -> Multiset<Seq<u8>> {
        match self {
            Tally::One(name, count) => repeated(name@, *count as nat),
            Tally::Many(counts) => counts@,
        }
    }
}

/// The tally of two tallies taken together: every count is the sum of the
/// two counts for the name.
pub open spec fn merged(a: Multiset<Seq<u8>>, b: Multiset<Seq<u8>>) -> Multiset<Seq<u8>> {
    a.add(b)
}

/// Both tallies are single and hold the same name.
pub open spec fn same_single(a: Tally, b: Tally) -> bool {
    match (a, b) {
        (Tally::One(ak, _), Tally::One(bk, _)) => ak@ == bk@,
        _ => false,
    }
}

/// Merging gives the same counts in any order: it is commutative and
/// associative, and where the counts fit in one order they fit in the other.
pub proof fn lemma_merge_order_free(a: Tally, b: Tally, c: Tally)
    ensures
        merged(a@, b@) == merged(b@, a@),
        merged(merged(a@, b@), c@) == merged(a@, merged(b@, c@)),
        merged(merged(a@, b@), c@) == merged(merged(b@, a@), c@),
        fits(a@, b@) && fits(merged(a@, b@), c@) <==> fits(b@, c@) && fits(a@, merged(b@, c@)),
{
    assert(merged(a@, b@) =~= merged(b@, a@));
    assert(merged(merged(a@, b@), c@) =~= merged(a@, merged(b@, c@)));
    if fits(a@, b@) && fits(merged(a@, b@), c@) {
        assert forall|key: Seq<u8>| b@.count(key) + c@.count(key) <= u64::MAX by {
            assert(merged(a@, b@).count(key) + c@.count(key) <= u64::MAX);
        }
        assert forall|key: Seq<u8>| a@.count(key) + merged(b@, c@).count(key) <= u64::MAX by {
            assert(merged(a@, b@).count(key) + c@.count(key) <= u64::MAX);
        }
    }
    if fits(b@, c@) && fits(a@, merged(b@, c@)) {
        assert forall|key: Seq<u8>| a@.count(key) + b@.count(key) <= u64::MAX by {
            assert(a@.count(key) + merged(b@, c@).count(key) <= u64::MAX);
        }
        assert forall|key: Seq<u8>| merged(a@, b@).count(key) + c@.count(key) <= u64::MAX by {
            assert(a@.count(key) + merged(b@, c@).count(key) <= u64::MAX);
        }
    }
}

/// The tally of one record: its first name once, or nothing.
pub open spec fn record_tally(record: Seq<u8>) -> Multiset<Seq<u8>> {
    match name_of(record) {
        Some(name) => Multiset::singleton(name),
        None => Multiset::empty(),
    }
}

/// The tally of a run of records.
pub open spec fn records_tally(records: Seq<Seq<u8>>) -> Multiset<Seq<u8>>
    decreases records.len(),
{
    if records.len() == 0 {
        Multiset::empty()
    } else {
        record_tally(records.first()).add(records_tally(records.drop_first()))
    }
}

/// The tally of a buffer: that of the records between its newlines.
pub open spec fn buffer_tally(buf: Seq<u8>) -> Multiset<Seq<u8>> {
    records_tally(split(buf, set![NEWLINE]))
}

/// `bag` is the tally of `chunk`. It holds no more names than the chunk has
/// bytes.
pub open spec fn is_tally_of(bag: Multiset<Seq<u8>>, chunk: Seq<u8>) -> bool {
    bag == buffer_tally(chunk) && bag.len() <= chunk.len()
}

/// A record with a first name is not empty.
pub proof fn lemma_named_record_not_empty(record: Seq<u8>)
    requires
        name_of(record) is Some,
    ensures
        record.len() > 0,
{
}

/// The tally of a buffer is that of its first record together with that of
/// what follows the record's newline.
pub proof fn lemma_buffer_tally_step(buf: Seq<u8>)
    ensures
        first_delim(buf, set![NEWLINE]) < buf.len() ==> buffer_tally(buf) == record_tally(
            buf.subrange(0, first_delim(buf, set![NEWLINE])),
        ).add(
            buffer_tally(buf.subrange(first_delim(buf, set![NEWLINE]) + 1, buf.len() as int)),
        ),
        first_delim(buf, set![NEWLINE]) >= buf.len() ==> buffer_tally(buf) == record_tally(buf),
{
    lemma_first_delim(buf, set![NEWLINE]);
    let i = first_delim(buf, set![NEWLINE]);
    let records = split(buf, set![NEWLINE]);
    if i < buf.len() {
        let rest = split(buf.subrange(i + 1, buf.len() as int), set![NEWLINE]);
        assert(records.drop_first() =~= rest);
    } else {
        assert(records.first() == buf);
        assert(records.drop_first() =~= Seq::<Seq<u8>>::empty());
        assert(records_tally(records.drop_first()) == Multiset::<Seq<u8>>::empty());
        assert(record_tally(buf).add(Multiset::empty()) =~= record_tally(buf));
    }
}

/// Every name in the tally of a buffer is a slice of the buffer.
pub proof fn lemma_names_are_slices(buf: Seq<u8>, name: Seq<u8>)
    requires
        buffer_tally(buf).count(name) > 0,
    ensures
        is_slice_of(name, buf),
    decreases buf.len(),
{
    lemma_first_delim(buf, set![NEWLINE]);
    lemma_buffer_tally_step(buf);
    let i = first_delim(buf, set![NEWLINE]);
    let record = buf.subrange(0, i);
    assert(buf.subrange(0, buf.len() as int) =~= buf);
    assert(is_slice_of(record, buf));
    if record_tally(record).count(name) > 0 {
        lemma_name_is_slice(record);
        lemma_slice_of_slice(name, record, buf);
    } else {
        let rest = buf.subrange(i + 1, buf.len() as int);
        assert(is_slice_of(rest, buf));
        lemma_names_are_slices(rest, name);
        lemma_slice_of_slice(name, rest, buf);
    }
}

impl<'k> Tally<'k> {
    /// The table of a `Many` is well formed. Every `One` is.
    pub open spec fn wf(&self) -> bool {
        match self {
            Tally::One(_, _) => true,
            Tally::Many(counts) => counts.wf(),
        }
    }

    /// The tally that holds no name.
    pub fn empty() -> (t: Self)
        ensures
            t.wf(),
            t is Many,
            t@ == Multiset::<Seq<u8>>::empty(),
    {
        Tally::Many(Counts::new())
    }

    /// How often `key` occurs.
    pub fn count(&self, key: &[u8]) -> (n: u64)
        requires
            self.wf(),
        ensures
            n == self@.count(key@),
    {
        match self {
            Tally::One(name, count) => {
                proof {
                    lemma_repeated(name@, *count as nat, key@);
                }
                match rank(name, key) {
                    Rank::Same => *count,
                    _ => 0,
                }
            },
            Tally::Many(counts) => counts.get(key),
        }
    }

    /// The number of distinct names.
    pub fn distinct(&self) -> (n: usize)
        requires
            self.wf(),
        ensures
            n == self@.dom().len(),
    {
        match self {
            Tally::One(name, count) => {
                proof {
                    assert forall|other: Seq<u8>|
                        #[trigger] self@.count(other) == if other == name@ {
                            *count as nat
                        } else {
                            0
                        } by {
                        lemma_repeated(name@, *count as nat, other);
                    }
                    if *count == 0 {
                        assert(self@.dom() =~= Set::<Seq<u8>>::empty());
                    } else {
                        assert(self@.dom() =~= set![name@]);
                    }
                }
                if *count == 0 {
                    0
                } else {
                    1
                }
            },
            Tally::Many(counts) => counts.len(),
        }
    }

    /// No name is held more often than a `u64` can count.
    pub proof fn lemma_count_bounded(&self, key: Seq<u8>)
        requires
            self.wf(),
        ensures
            self@.count(key) <= u64::MAX,
    {
        match self {
            Tally::One(name, count) => {
                lemma_repeated(name@, *count as nat, key);
            },
            Tally::Many(counts) => {
                counts.lemma_count_bounded(key);
            },
        }
    }

    /// The most frequent name with its count, or `None` where the tally
    /// holds no name. Of names that occur equally often the first in name
    /// order wins.
    pub fn most_frequent(&self) -> (best: Option<(&'k [u8], u64)>)
        requires
            self.wf(),
        ensures
            match best {
                Some((name, count)) => is_most_frequent(self@, name@, count as nat),
                None => self@ == Multiset::<Seq<u8>>::empty(),
            },
    {
        match self {
            Tally::One(name, count) => {
                proof {
                    assert forall|other: Seq<u8>|
                        #[trigger] self@.count(other) == if other == name@ {
                            *count as nat
                        } else {
                            0
                        } by {
                        lemma_repeated(name@, *count as nat, other);
                    }
                }
                if *count == 0 {
                    assert(self@ =~= Multiset::<Seq<u8>>::empty());
                    None
                } else {
                    Some((*name, *count))
                }
            },
            Tally::Many(counts) => counts.most_frequent(),
        }
    }
}

/// The two tallies taken together: counts of a name that both hold are
/// added, the other counts are carried over. Two single tallies of one name
/// give a single tally of that name; any other two give a table.
pub fn merge<'k>(a: Tally<'k>, b: Tally<'k>) -> (r: Tally<'k>)
    requires
        a.wf(),
        b.wf(),
        fits(a@, b@),
    ensures
        r.wf(),
        r@ == merged(a@, b@),
        r is One <==> same_single(a, b),
        r matches Tally::One(name, _) ==> a matches Tally::One(first, _) && name@ == first@,
{
    match (a, b) {
        (Tally::One(ak, av), Tally::One(bk, bv)) => {
            proof {
                assert(a@.count(ak@) + b@.count(ak@) <= u64::MAX);
                lemma_repeated(ak@, av as nat, ak@);
                lemma_repeated(bk@, bv as nat, ak@);
                assert forall|key: Seq<u8>|
                    repeated(ak@, av as nat).add(repeated(bk@, bv as nat)).count(key) == (if key
                        == ak@ {
                        av as nat
                    } else {
                        0
                    }) + (if key == bk@ {
                        bv as nat
                    } else {
                        0
                    }) by {
                    lemma_repeated(ak@, av as nat, key);
                    lemma_repeated(bk@, bv as nat, key);
                }
            }
            match rank(ak, bk) {
                Rank::Same => {
                    proof {
                        assert forall|key: Seq<u8>|
                            repeated(ak@, (av + bv) as nat).count(key) == merged(a@, b@).count(
                                key,
                            ) by {
                            lemma_repeated(ak@, (av + bv) as nat, key);
                        }
                        assert(repeated(ak@, (av + bv) as nat) =~= merged(a@, b@));
                    }
                    Tally::One(ak, av + bv)
                },
                _ => {
                    let mut r = Counts::new();
                    r.bump(ak, av);
                    r.bump(bk, bv);
                    assert(r@ =~= merged(a@, b@));
                    Tally::Many(r)
                },
            }
        },
        (Tally::One(ak, av), Tally::Many(bbs)) => {
            let mut bbs = bbs;
            proof {
                lemma_repeated(ak@, av as nat, ak@);
                assert(a@.count(ak@) + b@.count(ak@) <= u64::MAX);
            }
            bbs.bump(ak, av);
            assert(bbs@ =~= merged(a@, b@));
            Tally::Many(bbs)
        },
        (Tally::Many(aas), Tally::One(bk, bv)) => {
            let mut aas = aas;
            proof {
                lemma_repeated(bk@, bv as nat, bk@);
                assert(a@.count(bk@) + b@.count(bk@) <= u64::MAX);
            }
            aas.bump(bk, bv);
            Tally::Many(aas)
        },
        (Tally::Many(aas), Tally::Many(bbs)) => {
            if aas.len() > bbs.len() {
                let mut large = aas;
                large.absorb(&bbs);
                Tally::Many(large)
            } else {
                let mut large = bbs;
                assert(fits(large@, aas@)) by {
                    assert forall|key: Seq<u8>| large@.count(key) + aas@.count(key) <= u64::MAX by {
                        assert(a@.count(key) + b@.count(key) <= u64::MAX);
                    }
                }
                large.absorb(&aas);
                assert(large@ =~= merged(a@, b@));
                Tally::Many(large)
            }
        },
    }
}

/// The two tallies taken together as `merge` gives them, or `None` where the
/// two counts of some name do not fit in a `u64` together.
pub fn checked_merge<'k>(a: Tally<'k>, b: Tally<'k>) -> (r: Option<Tally<'k>>)
    requires
        a.wf(),
        b.wf(),
    ensures
        match r {
            Some(t) => {
                &&& fits(a@, b@)
                &&& t.wf()
                &&& t@ == merged(a@, b@)
                &&& t is One <==> same_single(a, b)
                &&& t matches Tally::One(name, _) ==> a matches Tally::One(first, _) && name@
                    == first@
            },
            None => !fits(a@, b@),
        },
{
    let ok = match &a {
        Tally::One(ak, av) => {
            proof {
                lemma_repeated(ak@, *av as nat, ak@);
                if a@.count(ak@) + b@.count(ak@) <= u64::MAX {
                    assert forall|key: Seq<u8>| a@.count(key) + b@.count(key) <= u64::MAX by {
                        lemma_repeated(ak@, *av as nat, key);
                        b.lemma_count_bounded(key);
                    }
                }
            }
            b.count(ak) <= u64::MAX - *av
        },
        Tally::Many(aas) => match &b {
            Tally::One(bk, bv) => {
                proof {
                    lemma_repeated(bk@, *bv as nat, bk@);
                    if a@.count(bk@) + b@.count(bk@) <= u64::MAX {
                        assert forall|key: Seq<u8>| a@.count(key) + b@.count(key) <= u64::MAX by {
                            lemma_repeated(bk@, *bv as nat, key);
                            a.lemma_count_bounded(key);
                        }
                    }
                }
                a.count(bk) <= u64::MAX - *bv
            },
            Tally::Many(bbs) => aas.can_absorb(bbs),
        },
    };
    if ok {
        Some(merge(a, b))
    } else {
        None
    }
}

/// The tally of one record: its first name once, or nothing where it has
/// none.
pub fn tally_line<'a>(line: &'a [u8]) -> (t: Tally<'a>)
    ensures
        t.wf(),
        t@ == record_tally(line@),
        match name_of(line@) {
            Some(name) => t matches Tally::One(found, count) && found@ == name && count == 1,
            None => t is Many,
        },
{
    if let Some(name) = find_name(line) {
        proof {
            assert forall|key: Seq<u8>|
                repeated(name@, 1).count(key) == Multiset::singleton(name@).count(key) by {
                lemma_repeated(name@, 1, key);
            }
            assert(repeated(name@, 1) =~= Multiset::singleton(name@));
        }
        Tally::One(name, 1)
    } else {
        Tally::Many(Counts::new())
    }
}

/// The tally of a chunk: the first names of the records between its
/// newlines. Records without a first name are passed over.
pub fn tally_chunk<'a>(chunk: &'a [u8]) -> (t: Tally<'a>)
    ensures
        t.wf(),
        t is Many,
        is_tally_of(t@, chunk@),
{
    let mut counts = Counts::new();
    let mut from: usize = 0;
    assert(chunk@.subrange(0, chunk@.len() as int) =~= chunk@);
    assert(counts@.add(buffer_tally(chunk@)) =~= buffer_tally(chunk@));
    loop
        invariant
            from <= chunk@.len(),
            counts.wf(),
            buffer_tally(chunk@) == counts@.add(
                buffer_tally(chunk@.subrange(from as int, chunk@.len() as int)),
            ),
            counts@.len() <= from,
        decreases chunk@.len() - from,
    {
        let at = find_delim(chunk, from, NEWLINE, NEWLINE);
        let record = &chunk[from..at];
        let ghost rest = chunk@.subrange(from as int, chunk@.len() as int);
        let ghost before = counts@;
        proof {
            assert(set![NEWLINE, NEWLINE] =~= set![NEWLINE]);
            lemma_buffer_tally_step(rest);
            assert(rest.subrange(0, at - from) =~= record@);
            if at < chunk@.len() {
                assert(rest.subrange(at - from + 1, rest.len() as int) =~= chunk@.subrange(
                    at + 1,
                    chunk@.len() as int,
                ));
            } else {
                assert(rest =~= record@);
            }
        }
        if let Some(name) = find_name(record) {
            proof {
                lemma_named_record_not_empty(record@);
                assert forall|key: Seq<u8>|
                    repeated(name@, 1).count(key) == Multiset::singleton(name@).count(key) by {
                    lemma_repeated(name@, 1, key);
                }
                assert(repeated(name@, 1) =~= Multiset::singleton(name@));
            }
            counts.bump(name, 1);
        } else {
            assert(before.add(Multiset::empty()) =~= before);
        }
        assert(counts@ == before.add(record_tally(record@)));
        if at >= chunk.len() {
            return Tally::Many(counts);
        }
        proof {
            let tail = buffer_tally(chunk@.subrange(at + 1, chunk@.len() as int));
            assert(before.add(record_tally(record@).add(tail)) =~= before.add(
                record_tally(record@),
            ).add(tail));
        }
        from = at + 1;
    }
}

} // verus!
