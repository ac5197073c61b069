//! One record: where the contributor's first name stands in it.

use crate::split::{
    is_slice_of, lemma_parts_are_slices, lemma_slice_of_slice, nth_part, split, COMMA, PIPE, SPACE,
};
use vstd::prelude::*;

verus! {

/// The index of the name field among the pipe-separated fields of a record.
pub const NAME_FIELD: usize = 7;

/// The first name in `record`, where it has one.
///
/// The name field is the pipe-separated field at index `NAME_FIELD`. It reads
/// `LAST, FIRST ...`: of its comma-separated parts the one at index 1 is cut
/// at spaces and pipes, and the first name is the token at index 1 (the token
/// at index 0 is what stands between the comma and the first space). A record
/// that lacks any of these has no first name.
pub open spec fn name_of(record: Seq<u8>) -> Option<Seq<u8>> {
    let fields = split(record, set![PIPE]);
    if fields.len() <= NAME_FIELD {
        None
    } else {
        let halves = split(fields[NAME_FIELD as int], set![COMMA]);
        if halves.len() < 2 {
            None
        } else {
            let tokens = split(halves[1], set![SPACE, PIPE]);
            if tokens.len() < 2 {
                None
            } else {
                Some(tokens[1])
            }
        }
    }
}

/// The first name of a record is a slice of the record.
pub proof fn lemma_name_is_slice(record: Seq<u8>)
    requires
        name_of(record) is Some,
    ensures
        is_slice_of(name_of(record)->0, record),
{
    let fields = split(record, set![PIPE]);
    let field = fields[NAME_FIELD as int];
    let halves = split(field, set![COMMA]);
    let tokens = split(halves[1], set![SPACE, PIPE]);
    lemma_parts_are_slices(record, set![PIPE], NAME_FIELD as int);
    lemma_parts_are_slices(field, set![COMMA], 1);
    lemma_parts_are_slices(halves[1], set![SPACE, PIPE], 1);
    lemma_slice_of_slice(tokens[1], halves[1], field);
    lemma_slice_of_slice(tokens[1], field, record);
}

/// The first name in `line`, as a slice of it, or `None` where the record has
/// fewer than eight fields, no comma in the name field, or neither space nor
/// pipe after the comma. Nothing is trimmed and no case is changed.
pub fn find_name<'a>(line: &'a [u8]) -> (name: Option<&'a [u8]>)
    ensures
        match name {
            Some(n) => name_of(line@) == Some(n@) && is_slice_of(n@, line@),
            None => name_of(line@) is None,
        },
        split(line@, set![PIPE]).len() < 8 ==> name is None,
        split(line@, set![PIPE]).len() >= 8 && split(
            split(line@, set![PIPE])[NAME_FIELD as int],
            set![COMMA],
        ).len() < 2 ==> name is None,
{
    assert(set![PIPE, PIPE] =~= set![PIPE]);
    assert(set![COMMA, COMMA] =~= set![COMMA]);
    proof {
        if name_of(line@) is Some {
            lemma_name_is_slice(line@);
        }
    }
    let name_part = match nth_part(line, PIPE, PIPE, NAME_FIELD) {
        Some(part) => part,
        None => {
            return None;
        },
    };
    let first_name_part = match nth_part(name_part, COMMA, COMMA, 1) {
        Some(part) => part,
        None => {
            return None;
        },
    };
    nth_part(first_name_part, SPACE, PIPE, 1)
}

} // verus!
