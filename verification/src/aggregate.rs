//! From a buffer of records to its most frequent first name.

use crate::chunk::{aligned, chunks_tally, lemma_aligned_chunks_tally, partition, views};
use crate::counts::{fits, is_most_frequent};
use crate::split::is_slice_of;
use crate::tally::{buffer_tally, is_tally_of, lemma_names_are_slices, merge, tally_chunk, Tally};
use rayon::iter::{IntoParallelRefIterator, ParallelIterator};
use vstd::multiset::Multiset;
use vstd::prelude::*;
use vstd::seq_lib::lemma_flatten_concat;

verus! {

/// The tally of each chunk, in the order of the chunks. The chunks are
/// shared out over rayon's worker threads.
///
/// Trusted, not proved: the body is rayon's `par_iter`, `map` and `collect`
/// with `tally_chunk` as the function mapped. Rayon promises of a parallel
/// iterator the results of its sequential counterpart, and `collect` writes
/// the item of each index of a slice's iterator into the same index of the
/// vector. So the result holds, at each chunk's index, what `tally_chunk`
/// returns for that chunk; what is stated of it is the contract of
/// `tally_chunk`, which is proved.
#[verifier::external_body]
fn tally_chunks<'a>(chunks: &Vec<&'a [u8]>) -> (tallies: Vec<Tally<'a>>)
    ensures
        tallies@.len() == chunks@.len(),
        forall|i: int|
            0 <= i < tallies@.len() ==> (#[trigger] tallies@[i]).wf() && is_tally_of(
                tallies@[i]@,
                chunks@[i]@,
            ),
{
    chunks.par_iter().map(|chunk| tally_chunk(chunk)).collect()
}

/// The tally of the first names in `buf`. The buffer is cut into chunks of
/// about `target` bytes, the chunks are tallied in parallel and the tallies
/// are merged; the chunk size has no bearing on the result.
pub fn tally_buffer<'a>(buf: &'a [u8], target: usize) -> (total: Tally<'a>)
    ensures
        total.wf(),
        total is Many,
        total@ == buffer_tally(buf@),
{
    let chunks = partition(buf, target);
    let mut tallies = tally_chunks(&chunks);
    let ghost parts = views(chunks@);
    let ghost all = tallies@;
    let mut total = Tally::empty();
    proof {
        assert(parts.skip(parts.len() as int) =~= Seq::<Seq<u8>>::empty());
        assert(buf@.len() == buf.len());
    }
    while tallies.len() > 0
        invariant
            buf@.len() <= usize::MAX,
            parts == views(chunks@),
            parts.flatten() == buf@,
            all.len() == parts.len(),
            forall|i: int|
                0 <= i < all.len() ==> (#[trigger] all[i]).wf() && is_tally_of(all[i]@, parts[i]),
            tallies@.len() <= all.len(),
            tallies@ == all.take(tallies@.len() as int),
            total.wf(),
            total is Many,
            total@ == chunks_tally(parts.skip(tallies@.len() as int)),
            total@.len() <= parts.skip(tallies@.len() as int).flatten().len(),
        decreases tallies@.len(),
    {
        let ghost n = tallies@.len() as int;
        let part = tallies.pop().unwrap();
        proof {
            let rest = parts.skip(n);
            let more = parts.skip(n - 1);
            assert(part == all[n - 1]);
            assert(tallies@ =~= all.take(n - 1));
            assert(more.first() == parts[n - 1]);
            assert(more.drop_first() =~= rest);
            assert(parts =~= parts.take(n - 1) + more);
            lemma_flatten_concat(parts.take(n - 1), more);
            assert(part@.len() + total@.len() <= buf@.len());
            assert(fits(part@, total@)) by {
                assert forall|key: Seq<u8>| part@.count(key) + total@.count(key) <= u64::MAX by {
                    assert(total@.count(key) <= total@.len());
                    assert(part@.count(key) <= part@.len());
                }
            }
        }
        total = merge(part, total);
    }
    proof {
        assert(parts.skip(0) =~= parts);
        assert(aligned(parts));
        lemma_aligned_chunks_tally(parts);
    }
    total
}

/// The most frequent first name in `buf`, as a slice of it, with the number
/// of records that hold it, or `None` where no record of `buf` has a first
/// name. Of names that occur equally often the first in name order wins. The
/// result is the same for every chunk size `target`.
pub fn most_frequent_name<'a>(buf: &'a [u8], target: usize) -> (best: Option<(&'a [u8], u64)>)
    ensures
        match best {
            Some((name, count)) => {
                &&& is_most_frequent(buffer_tally(buf@), name@, count as nat)
                &&& is_slice_of(name@, buf@)
            },
            None => buffer_tally(buf@) == Multiset::<Seq<u8>>::empty(),
        },
{
    let best = tally_buffer(buf, target).most_frequent();
    proof {
        if let Some((name, _)) = best {
            lemma_names_are_slices(buf@, name@);
        }
    }
    best
}

} // verus!
