//! Cutting a byte string at delimiter bytes.

use vstd::prelude::*;

verus! {

/// The byte that ends a record: a line feed.
pub const NEWLINE: u8 = 10;

/// The byte that separates the fields of a record: `|`.
pub const PIPE: u8 = 124;

/// The byte that separates the last name from the rest of the name field:
/// `,`.
pub const COMMA: u8 = 44;

/// The byte that separates the tokens after the comma: a space.
pub const SPACE: u8 = 32;

/// The index of the first byte of `s` that is in `delims`, or `s.len()` where
/// `s` holds none.
pub open spec fn first_delim(s: Seq<u8>, delims: Set<u8>) -> int
    decreases s.len(),
{
    if s.len() == 0 || delims.contains(s[0]) {
        0
    } else {
        1 + first_delim(s.drop_first(), delims)
    }
}

/// The parts of `s` between the bytes of `delims`, in order. A string with
/// `n` delimiter bytes has `n + 1` parts; a part may be empty.
pub open spec fn split(s: Seq<u8>, delims: Set<u8>) -> Seq<Seq<u8>>
    decreases s.len(),
{
    let i = first_delim(s, delims);
    if 0 <= i < s.len() {
        seq![s.subrange(0, i)] + split(s.subrange(i + 1, s.len() as int), delims)
    } else {
        seq![s]
    }
}

/// `part` is a run of consecutive bytes of `whole`.
pub open spec fn is_slice_of(part: Seq<u8>, whole: Seq<u8>) -> bool {
    exists|from: int, to: int|
        0 <= from <= to <= whole.len() && part == #[trigger] whole.subrange(from, to)
}

/// The part of `s` at index `n`, where there is one.
pub open spec fn part_at(s: Seq<u8>, delims: Set<u8>, n: int) -> Option<Seq<u8>> {
    let parts = split(s, delims);
    if 0 <= n < parts.len() {
        Some(parts[n])
    } else {
        None
    }
}

/// `first_delim` stays inside the string, passes no delimiter, and stops on one.
pub proof fn lemma_first_delim(s: Seq<u8>, delims: Set<u8>)
    ensures
        0 <= first_delim(s, delims) <= s.len(),
        forall|j: int| 0 <= j < first_delim(s, delims) ==> !delims.contains(#[trigger] s[j]),
        first_delim(s, delims) < s.len() ==> delims.contains(s[first_delim(s, delims)]),
    decreases s.len(),
{
    if s.len() != 0 && !delims.contains(s[0]) {
        let t = s.drop_first();
        lemma_first_delim(t, delims);
        assert forall|j: int| 0 <= j < first_delim(s, delims) implies !delims.contains(
            #[trigger] s[j],
        ) by {
            if j > 0 {
                assert(s[j] == t[j - 1]);
            }
        }
    }
}

/// An index that passes no delimiter and stops on one, or at the end, is the
/// one that `first_delim` gives.
pub proof fn lemma_first_delim_unique(s: Seq<u8>, delims: Set<u8>, i: int)
    requires
        0 <= i <= s.len(),
        forall|j: int| 0 <= j < i ==> !delims.contains(#[trigger] s[j]),
        i < s.len() ==> delims.contains(s[i]),
    ensures
        first_delim(s, delims) == i,
    decreases s.len(),
{
    if s.len() != 0 && !delims.contains(s[0]) {
        let t = s.drop_first();
        assert forall|j: int| 0 <= j < i - 1 implies !delims.contains(#[trigger] t[j]) by {
            assert(t[j] == s[j + 1]);
        }
        lemma_first_delim_unique(t, delims, i - 1);
    } else if s.len() != 0 {
        if i > 0 {
            assert(!delims.contains(s[0]));
        }
    }
}

/// A slice of a slice of a string is a slice of the string.
pub proof fn lemma_slice_of_slice(part: Seq<u8>, middle: Seq<u8>, whole: Seq<u8>)
    requires
        is_slice_of(part, middle),
        is_slice_of(middle, whole),
    ensures
        is_slice_of(part, whole),
{
    let (a, b) = choose|a: int, b: int|
        0 <= a <= b <= whole.len() && middle == #[trigger] whole.subrange(a, b);
    let (c, d) = choose|c: int, d: int|
        0 <= c <= d <= middle.len() && part == #[trigger] middle.subrange(c, d);
    assert(part =~= whole.subrange(a + c, a + d));
}

/// Every part of a string is a slice of it.
pub proof fn lemma_parts_are_slices(s: Seq<u8>, delims: Set<u8>, k: int)
    requires
        0 <= k < split(s, delims).len(),
    ensures
        is_slice_of(split(s, delims)[k], s),
    decreases s.len(),
{
    lemma_first_delim(s, delims);
    let i = first_delim(s, delims);
    if k == 0 {
        assert(s.subrange(0, s.len() as int) =~= s);
        assert(split(s, delims)[0] == s.subrange(0, i));
    } else {
        let rest = s.subrange(i + 1, s.len() as int);
        assert(split(s, delims)[k] == split(rest, delims)[k - 1]);
        lemma_parts_are_slices(rest, delims, k - 1);
        assert(is_slice_of(rest, s));
        lemma_slice_of_slice(split(rest, delims)[k - 1], rest, s);
    }
}

/// The index of the first byte at or after `from` that equals `d1` or `d2`,
/// or the length of `s` where there is none.
pub fn find_delim(s: &[u8], from: usize, d1: u8, d2: u8) -> (at: usize)
    requires
        from <= s@.len(),
    ensures
        from <= at <= s@.len(),
        at == from + first_delim(s@.subrange(from as int, s@.len() as int), set![d1, d2]),
{
    let mut at: usize = from;
    while at < s.len() && s[at] != d1 && s[at] != d2
        invariant
            from <= at <= s@.len(),
            forall|j: int| from <= j < at ==> s@[j] != d1 && s@[j] != d2,
        decreases s@.len() - at,
    {
        at = at + 1;
    }
    proof {
        let rest = s@.subrange(from as int, s@.len() as int);
        assert forall|j: int| 0 <= j < at - from implies !set![d1, d2].contains(
            #[trigger] rest[j],
        ) by {
            assert(rest[j] == s@[from + j]);
        }
        lemma_first_delim_unique(rest, set![d1, d2], at - from);
    }
    at
}

/// Cutting after the first delimiter: the parts of `s` are the bytes before
/// it, then the parts of what follows it.
pub proof fn lemma_split_step(s: Seq<u8>, delims: Set<u8>, n: int)
    requires
        n >= 1,
    ensures
        first_delim(s, delims) >= s.len() ==> part_at(s, delims, n) is None,
        first_delim(s, delims) < s.len() ==> part_at(s, delims, n) == part_at(
            s.subrange(first_delim(s, delims) + 1, s.len() as int),
            delims,
            n - 1,
        ),
        part_at(s, delims, 0) == Some(s.subrange(0, first_delim(s, delims))),
{
    lemma_first_delim(s, delims);
    let i = first_delim(s, delims);
    if i >= s.len() {
        assert(s.subrange(0, i) =~= s);
    }
}

/// The part of `s` at index `n`, where the bytes `d1` and `d2` are the
/// delimiters, or `None` where `s` has `n` parts or fewer. For a single
/// delimiter, pass it twice.
pub fn nth_part<'a>(s: &'a [u8], d1: u8, d2: u8, n: usize) -> (part: Option<&'a [u8]>)
    ensures
        match part {
            Some(p) => part_at(s@, set![d1, d2], n as int) == Some(p@),
            None => part_at(s@, set![d1, d2], n as int) is None,
        },
{
    let mut from: usize = 0;
    let mut skipped: usize = 0;
    assert(s@.subrange(0, s@.len() as int) =~= s@);
    loop
        invariant
            from <= s@.len(),
            skipped <= n,
            part_at(s@, set![d1, d2], n as int) == part_at(
                s@.subrange(from as int, s@.len() as int),
                set![d1, d2],
                n - skipped,
            ),
        decreases s@.len() - from,
    {
        let at = find_delim(s, from, d1, d2);
        proof {
            let rest = s@.subrange(from as int, s@.len() as int);
            lemma_split_step(rest, set![d1, d2], if skipped < n { n - skipped } else { 1 });
            assert(rest.subrange(0, at - from) =~= s@.subrange(from as int, at as int));
            if at < s@.len() {
                assert(rest.subrange(at - from + 1, rest.len() as int) =~= s@.subrange(
                    at + 1,
                    s@.len() as int,
                ));
            }
        }
        if skipped == n {
            return Some(&s[from..at]);
        }
        if at >= s.len() {
            return None;
        }
        from = at + 1;
        skipped = skipped + 1;
    }
}

} // verus!
