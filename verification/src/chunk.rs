//! Cutting a buffer into chunks that hold whole records.

use crate::split::{
    find_delim, first_delim, lemma_first_delim, lemma_first_delim_unique, split, NEWLINE,
};
use crate::tally::{buffer_tally, lemma_buffer_tally_step, merged, record_tally};
use vstd::multiset::Multiset;
use vstd::prelude::*;
use vstd::seq_lib::lemma_flatten_concat;

verus! {

/// The chunk size to aim for where the caller has no better one: 10 MiB.
pub const CHUNK_SIZE: usize = 10 * 1024 * 1024;

/// Where the chunk that starts at `start` ends: just after the first newline
/// at or after `start + target`, or at the end of the buffer where that
/// offset is not inside the buffer or no newline follows it.
pub open spec fn chunk_end(buf: Seq<u8>, target: nat, start: int) -> int {
    if start + target >= buf.len() {
        buf.len() as int
    } else {
        let newline = start + target + first_delim(
            buf.subrange(start + target, buf.len() as int),
            set![NEWLINE],
        );
        if newline >= buf.len() {
            buf.len() as int
        } else {
            newline + 1
        }
    }
}

/// The chunks of `buf` from the offset `start` on.
pub open spec fn chunks_from(buf: Seq<u8>, target: nat, start: int) -> Seq<Seq<u8>>
    decreases buf.len() - start,
{
    let end = chunk_end(buf, target, start);
    if start < end < buf.len() {
        seq![buf.subrange(start, end)] + chunks_from(buf, target, end)
    } else {
        seq![buf.subrange(start, buf.len() as int)]
    }
}

/// The chunks into which `buf` is cut for the chunk size `target`. There is
/// always at least one; only the chunk of an empty buffer is empty.
pub open spec fn chunks_of(buf: Seq<u8>, target: nat) -> Seq<Seq<u8>> {
    chunks_from(buf, target, 0)
}

/// The chunk is not empty and its last byte is a newline: it ends where a
/// record ends.
pub open spec fn ends_record(chunk: Seq<u8>) -> bool {
    chunk.len() > 0 && chunk.last() == NEWLINE
}

/// Every chunk but the last ends where a record ends.
pub open spec fn aligned(chunks: Seq<Seq<u8>>) -> bool {
    forall|i: int| 0 <= i < chunks.len() - 1 ==> ends_record(#[trigger] chunks[i])
}

/// The offset at which chunk `i` starts in the concatenation of the chunks.
pub open spec fn chunk_start(chunks: Seq<Seq<u8>>, i: int) -> int {
    chunks.take(i).flatten().len() as int
}

/// The bytes of `buf` from `from` up to `to` are a record: a longest run
/// without a newline.
pub open spec fn is_record(buf: Seq<u8>, from: int, to: int) -> bool {
    &&& 0 <= from <= to <= buf.len()
    &&& from == 0 || buf[from - 1] == NEWLINE
    &&& to == buf.len() || buf[to] == NEWLINE
    &&& forall|i: int| from <= i < to ==> buf[i] != NEWLINE
}

/// Chunk `i` holds the bytes from `from` up to `to` of the chunks put
/// together.
pub open spec fn holds_range(chunks: Seq<Seq<u8>>, i: int, from: int, to: int) -> bool {
    &&& 0 <= i < chunks.len()
    &&& chunk_start(chunks, i) <= from
    &&& to <= chunk_start(chunks, i) + chunks[i].len()
}

/// No chunk boundary falls inside a record: every record of `buf` lies
/// within one of the chunks.
pub open spec fn keeps_records_whole(buf: Seq<u8>, chunks: Seq<Seq<u8>>) -> bool {
    forall|from: int, to: int| #[trigger]
        is_record(buf, from, to) ==> exists|i: int| holds_range(chunks, i, from, to)
}

/// The tallies of the chunks, merged.
pub open spec fn chunks_tally(chunks: Seq<Seq<u8>>) -> Multiset<Seq<u8>>
    decreases chunks.len(),
{
    if chunks.len() == 0 {
        Multiset::empty()
    } else {
        merged(buffer_tally(chunks.first()), chunks_tally(chunks.drop_first()))
    }
}

/// The views of the chunk slices.
pub open spec fn views(chunks: Seq<&[u8]>) -> Seq<Seq<u8>> {
    chunks.map_values(|chunk: &[u8]| chunk@)
}

/// What `split` gives for newlines are the records: part `k` of a buffer is
/// a longest run of its bytes without a newline.
pub proof fn lemma_split_gives_records(buf: Seq<u8>, k: int)
    requires
        0 <= k < split(buf, set![NEWLINE]).len(),
    ensures
        exists|from: int, to: int| #[trigger]
            is_record(buf, from, to) && split(buf, set![NEWLINE])[k] == buf.subrange(from, to),
    decreases buf.len(),
{
    let newline = set![NEWLINE];
    lemma_first_delim(buf, newline);
    let i = first_delim(buf, newline);
    if k == 0 {
        assert(buf.subrange(0, buf.len() as int) =~= buf);
        assert(is_record(buf, 0, i));
    } else {
        let rest = buf.subrange(i + 1, buf.len() as int);
        assert(split(buf, newline)[k] == split(rest, newline)[k - 1]);
        lemma_split_gives_records(rest, k - 1);
        let (from, to) = choose|from: int, to: int| #[trigger]
            is_record(rest, from, to) && split(rest, newline)[k - 1] == rest.subrange(from, to);
        let shift = i + 1;
        assert(rest.subrange(from, to) =~= buf.subrange(from + shift, to + shift));
        assert(is_record(buf, from + shift, to + shift)) by {
            assert(from > 0 ==> rest[from - 1] == buf[from + shift - 1]);
            assert(to < rest.len() ==> rest[to] == buf[to + shift]);
            assert forall|j: int| from + shift <= j < to + shift implies buf[j] != NEWLINE by {
                assert(rest[j - shift] == buf[j]);
            }
        }
    }
}

/// A chunk that does not reach the end of the buffer is longer than the
/// chunk size and ends with the first newline at or after that size.
pub proof fn lemma_chunk_end(buf: Seq<u8>, target: nat, start: int)
    requires
        0 <= start <= buf.len(),
    ensures
        start <= chunk_end(buf, target, start) <= buf.len(),
        chunk_end(buf, target, start) < buf.len() ==> {
            &&& start + target < chunk_end(buf, target, start)
            &&& buf[chunk_end(buf, target, start) - 1] == NEWLINE
            &&& forall|i: int|
                start + target <= i < chunk_end(buf, target, start) - 1 ==> buf[i] != NEWLINE
        },
{
    if start + target < buf.len() {
        let rest = buf.subrange(start + target, buf.len() as int);
        lemma_first_delim(rest, set![NEWLINE]);
        let at = first_delim(rest, set![NEWLINE]);
        if at < rest.len() {
            assert(rest[at] == buf[start + target + at]);
            assert forall|i: int| start + target <= i < start + target + at implies buf[i]
                != NEWLINE by {
                assert(rest[i - start - target] == buf[i]);
            }
        }
    }
}

/// The chunks are aligned.
pub proof fn lemma_chunks_aligned(buf: Seq<u8>, target: nat, start: int)
    requires
        0 <= start <= buf.len(),
    ensures
        aligned(chunks_from(buf, target, start)),
    decreases buf.len() - start,
{
    let end = chunk_end(buf, target, start);
    lemma_chunk_end(buf, target, start);
    if start < end < buf.len() {
        let head = buf.subrange(start, end);
        let tail = chunks_from(buf, target, end);
        lemma_chunks_aligned(buf, target, end);
        let all = seq![head] + tail;
        assert forall|i: int| 0 <= i < all.len() - 1 implies ends_record(#[trigger] all[i]) by {
            if i == 0 {
                assert(head.last() == buf[end - 1]);
            } else {
                assert(all[i] == tail[i - 1]);
            }
        }
    }
}

/// The chunks, put together again, are the buffer.
pub proof fn lemma_chunks_cover(buf: Seq<u8>, target: nat, start: int)
    requires
        0 <= start <= buf.len(),
    ensures
        chunks_from(buf, target, start).flatten() == buf.subrange(start, buf.len() as int),
    decreases buf.len() - start,
{
    let end = chunk_end(buf, target, start);
    lemma_chunk_end(buf, target, start);
    if start < end < buf.len() {
        let head = buf.subrange(start, end);
        let tail = chunks_from(buf, target, end);
        lemma_chunks_cover(buf, target, end);
        lemma_flatten_concat(seq![head], tail);
        seq![head].lemma_flatten_one_element();
        assert(head + buf.subrange(end, buf.len() as int) =~= buf.subrange(
            start,
            buf.len() as int,
        ));
    } else {
        let only = buf.subrange(start, buf.len() as int);
        seq![only].lemma_flatten_one_element();
    }
}

/// Round trip: for any buffer and any chunk size, the chunks put together
/// again are the buffer.
pub proof fn lemma_partition_round_trip(buf: Seq<u8>, target: nat)
    ensures
        chunks_of(buf, target).flatten() == buf,
{
    lemma_chunks_cover(buf, target, 0);
    assert(buf.subrange(0, buf.len() as int) =~= buf);
}

/// Where a buffer is cut just after a newline, its tally is that of the two
/// pieces, merged.
pub proof fn lemma_tally_append(a: Seq<u8>, b: Seq<u8>)
    requires
        a.len() == 0 || a.last() == NEWLINE,
    ensures
        buffer_tally(a + b) == merged(buffer_tally(a), buffer_tally(b)),
    decreases a.len(),
{
    let newline = set![NEWLINE];
    if a.len() == 0 {
        assert(a + b =~= b);
        lemma_buffer_tally_step(a);
        assert(record_tally(a) == Multiset::<Seq<u8>>::empty());
        assert(merged(buffer_tally(a), buffer_tally(b)) =~= buffer_tally(b));
    } else {
        let whole = a + b;
        lemma_first_delim(a, newline);
        let i = first_delim(a, newline);
        assert(i < a.len()) by {
            if i >= a.len() {
                assert(!newline.contains(a[a.len() - 1]));
            }
        }
        assert forall|j: int| 0 <= j < i implies !newline.contains(#[trigger] whole[j]) by {
            assert(whole[j] == a[j]);
        }
        assert(whole[i] == a[i]);
        lemma_first_delim_unique(whole, newline, i);
        let rest = a.subrange(i + 1, a.len() as int);
        assert(whole.subrange(0, i) =~= a.subrange(0, i));
        assert(whole.subrange(i + 1, whole.len() as int) =~= rest + b);
        if rest.len() > 0 {
            assert(rest.last() == a.last());
        }
        lemma_tally_append(rest, b);
        lemma_buffer_tally_step(a);
        lemma_buffer_tally_step(whole);
        let first = record_tally(a.subrange(0, i));
        assert(first.add(buffer_tally(rest).add(buffer_tally(b))) =~= first.add(
            buffer_tally(rest),
        ).add(buffer_tally(b)));
    }
}

/// Tallying aligned chunks one by one and merging gives the tally of the
/// chunks put together, however many chunks there are.
pub proof fn lemma_aligned_chunks_tally(chunks: Seq<Seq<u8>>)
    requires
        aligned(chunks),
    ensures
        chunks_tally(chunks) == buffer_tally(chunks.flatten()),
    decreases chunks.len(),
{
    if chunks.len() == 0 {
        let nothing = Seq::<u8>::empty();
        lemma_buffer_tally_step(nothing);
        assert(record_tally(nothing) == Multiset::<Seq<u8>>::empty());
    } else {
        let head = chunks.first();
        let tail = chunks.drop_first();
        assert forall|i: int| 0 <= i < tail.len() - 1 implies ends_record(#[trigger] tail[i]) by {
            assert(tail[i] == chunks[i + 1]);
        }
        lemma_aligned_chunks_tally(tail);
        if tail.len() == 0 {
            assert(tail.flatten() =~= Seq::<u8>::empty());
            assert(head + tail.flatten() =~= head);
            assert(merged(buffer_tally(head), Multiset::empty()) =~= buffer_tally(head));
        } else {
            assert(ends_record(chunks[0]));
            lemma_tally_append(head, tail.flatten());
        }
    }
}

/// Tallying the whole buffer as one chunk gives the same counts as cutting
/// it into chunks of any size, tallying each and merging.
pub proof fn lemma_partition_keeps_tally(buf: Seq<u8>, target: nat)
    ensures
        chunks_tally(chunks_of(buf, target)) == buffer_tally(buf),
{
    lemma_chunks_aligned(buf, target, 0);
    lemma_partition_round_trip(buf, target);
    lemma_aligned_chunks_tally(chunks_of(buf, target));
}

/// In aligned chunks, every record of the chunks put together lies within
/// one chunk.
pub proof fn lemma_record_in_aligned_chunk(chunks: Seq<Seq<u8>>, from: int, to: int)
    requires
        chunks.len() >= 1,
        aligned(chunks),
        is_record(chunks.flatten(), from, to),
    ensures
        exists|i: int| holds_range(chunks, i, from, to),
    decreases chunks.len(),
{
    let buf = chunks.flatten();
    let head = chunks.first();
    let tail = chunks.drop_first();
    assert(chunks.take(0) =~= Seq::<Seq<u8>>::empty());
    assert(chunk_start(chunks, 0) == 0);
    if tail.len() == 0 {
        assert(tail.flatten() =~= Seq::<u8>::empty());
        assert(buf =~= head);
        assert(holds_range(chunks, 0, from, to));
    } else {
        assert(ends_record(chunks[0]));
        assert(buf[head.len() - 1] == NEWLINE);
        if from >= head.len() {
            let cut = head.len() as int;
            let rest = tail.flatten();
            assert forall|i: int| 0 <= i < tail.len() - 1 implies ends_record(
                #[trigger] tail[i],
            ) by {
                assert(tail[i] == chunks[i + 1]);
            }
            assert(is_record(rest, from - cut, to - cut)) by {
                assert(from - cut > 0 ==> rest[from - cut - 1] == buf[from - 1]);
                assert(to - cut < rest.len() ==> rest[to - cut] == buf[to]);
                assert forall|i: int| from - cut <= i < to - cut implies rest[i] != NEWLINE by {
                    assert(rest[i] == buf[i + cut]);
                }
            }
            let from_tail = from - cut;
            let to_tail = to - cut;
            lemma_record_in_aligned_chunk(tail, from_tail, to_tail);
            let i = choose|i: int| holds_range(tail, i, from_tail, to_tail);
            assert(chunks.take(i + 1) =~= seq![head] + tail.take(i));
            lemma_flatten_concat(seq![head], tail.take(i));
            seq![head].lemma_flatten_one_element();
            assert(chunk_start(chunks, i + 1) == cut + chunk_start(tail, i));
            assert(chunks[i + 1] == tail[i]);
            assert(holds_range(chunks, i + 1, from, to));
        } else {
            assert(to <= head.len() - 1) by {
                if to > head.len() - 1 {
                    assert(buf[head.len() - 1] != NEWLINE);
                }
            }
            assert(holds_range(chunks, 0, from, to));
        }
    }
}

/// No chunk boundary falls inside a record, whatever the buffer and the
/// chunk size.
pub proof fn lemma_records_stay_whole(buf: Seq<u8>, target: nat)
    ensures
        keeps_records_whole(buf, chunks_of(buf, target)),
{
    lemma_chunks_aligned(buf, target, 0);
    lemma_partition_round_trip(buf, target);
    assert forall|from: int, to: int| #[trigger] is_record(buf, from, to) implies exists|i: int|
        holds_range(chunks_of(buf, target), i, from, to) by {
        lemma_record_in_aligned_chunk(chunks_of(buf, target), from, to);
    }
}

/// Cuts `buf` into chunks of about `target` bytes that hold whole records.
///
/// Each chunk starts where the one before ended, the first at offset 0. A
/// chunk ends just after the first newline that stands `target` bytes or more
/// after its start; where the buffer ends before that, or no such newline
/// follows, the chunk takes the rest of the buffer and is the last.
pub fn partition<'a>(buf: &'a [u8], target: usize) -> (chunks: Vec<&'a [u8]>)
    ensures
        views(chunks@) == chunks_of(buf@, target as nat),
        views(chunks@).flatten() == buf@,
        aligned(views(chunks@)),
        keeps_records_whole(buf@, views(chunks@)),
        chunks@.len() >= 1,
{
    let mut chunks: Vec<&'a [u8]> = Vec::new();
    let mut start: usize = 0;
    assert(views(chunks@) + chunks_from(buf@, target as nat, 0) =~= chunks_of(buf@, target as nat));
    loop
        invariant
            start <= buf@.len(),
            chunks_of(buf@, target as nat) == views(chunks@) + chunks_from(
                buf@,
                target as nat,
                start as int,
            ),
        decreases buf@.len() - start,
    {
        let ghost done = views(chunks@);
        let end = if target >= buf.len() - start {
            buf.len()
        } else {
            let newline = find_delim(buf, start + target, NEWLINE, NEWLINE);
            assert(set![NEWLINE, NEWLINE] =~= set![NEWLINE]);
            if newline >= buf.len() {
                buf.len()
            } else {
                newline + 1
            }
        };
        assert(end == chunk_end(buf@, target as nat, start as int));
        proof {
            lemma_chunk_end(buf@, target as nat, start as int);
        }
        if end >= buf.len() {
            chunks.push(&buf[start..buf.len()]);
            proof {
                let last = buf@.subrange(start as int, buf@.len() as int);
                assert(views(chunks@) =~= done.push(last));
                assert(done.push(last) =~= done + seq![last]);
                lemma_partition_round_trip(buf@, target as nat);
                lemma_chunks_aligned(buf@, target as nat, 0);
                lemma_records_stay_whole(buf@, target as nat);
            }
            return chunks;
        }
        chunks.push(&buf[start..end]);
        proof {
            let chunk = buf@.subrange(start as int, end as int);
            assert(views(chunks@) =~= done.push(chunk));
            assert(done.push(chunk) + chunks_from(buf@, target as nat, end as int) =~= done + (
            seq![chunk] + chunks_from(buf@, target as nat, end as int)));
        }
        start = end;
    }
}

} // verus!
