use name_tally::order::{rank, Rank};
use name_tally::record::{find_name, NAME_FIELD};
use name_tally::split::{find_delim, nth_part, COMMA, NEWLINE, PIPE, SPACE};

#[test]
fn delimiter_bytes_are_the_ascii_codes() {
    assert_eq!(NEWLINE, b'\n');
    assert_eq!(PIPE, b'|');
    assert_eq!(COMMA, b',');
    assert_eq!(SPACE, b' ');
    assert_eq!(NAME_FIELD, 7);
}

#[test]
fn find_delim_stops_on_the_first_delimiter() {
    let s = b"abc\ndef";
    assert_eq!(find_delim(s, 0, NEWLINE, NEWLINE), 3);
    assert_eq!(find_delim(s, 3, NEWLINE, NEWLINE), 3);
    assert_eq!(find_delim(s, 4, NEWLINE, NEWLINE), 7);
    assert_eq!(find_delim(s, 7, NEWLINE, NEWLINE), 7);
}

#[test]
fn find_delim_knows_two_delimiters() {
    let s = b"ab|cd ef";
    assert_eq!(find_delim(s, 0, SPACE, PIPE), 2);
    assert_eq!(find_delim(s, 3, SPACE, PIPE), 5);
    assert_eq!(find_delim(s, 6, SPACE, PIPE), 8);
    assert_eq!(find_delim(b"", 0, SPACE, PIPE), 0);
}

#[test]
fn nth_part_counts_empty_parts() {
    let s = b"a|b||c";
    assert_eq!(nth_part(s, PIPE, PIPE, 0), Some(&b"a"[..]));
    assert_eq!(nth_part(s, PIPE, PIPE, 1), Some(&b"b"[..]));
    assert_eq!(nth_part(s, PIPE, PIPE, 2), Some(&b""[..]));
    assert_eq!(nth_part(s, PIPE, PIPE, 3), Some(&b"c"[..]));
    assert_eq!(nth_part(s, PIPE, PIPE, 4), None);
}

#[test]
fn nth_part_of_nothing_is_one_empty_part() {
    assert_eq!(nth_part(b"", PIPE, PIPE, 0), Some(&b""[..]));
    assert_eq!(nth_part(b"", PIPE, PIPE, 1), None);
}

#[test]
fn nth_part_after_a_trailing_delimiter_is_empty() {
    assert_eq!(nth_part(b"a,", COMMA, COMMA, 1), Some(&b""[..]));
    assert_eq!(nth_part(b"a,", COMMA, COMMA, 2), None);
}

#[test]
fn nth_part_cuts_at_either_delimiter() {
    let s = b"x y|z";
    assert_eq!(nth_part(s, SPACE, PIPE, 0), Some(&b"x"[..]));
    assert_eq!(nth_part(s, SPACE, PIPE, 1), Some(&b"y"[..]));
    assert_eq!(nth_part(s, SPACE, PIPE, 2), Some(&b"z"[..]));
    assert_eq!(nth_part(s, SPACE, PIPE, 3), None);
}

#[test]
fn find_name_takes_the_token_after_comma_and_space() {
    assert_eq!(find_name(b"A|b|c|d|e|f|g|LAST, FIRST|i"), Some(&b"FIRST"[..]));
}

#[test]
fn find_name_stops_at_the_next_space() {
    assert_eq!(find_name(b"A|b|c|d|e|f|g|DOE, JOHN Q MR|i"), Some(&b"JOHN"[..]));
}

#[test]
fn find_name_works_on_a_record_that_ends_with_the_name_field() {
    assert_eq!(find_name(b"0|1|2|3|4|5|6|DOE, JANE"), Some(&b"JANE"[..]));
}

#[test]
fn find_name_needs_a_space_after_the_comma() {
    assert_eq!(find_name(b"A|b|c|d|e|f|g|LAST,FIRST|i"), None);
}

#[test]
fn find_name_without_space_after_comma_takes_the_second_token() {
    assert_eq!(find_name(b"A|b|c|d|e|f|g|LAST,FIRST M|i"), Some(&b"M"[..]));
}

#[test]
fn find_name_needs_eight_fields() {
    assert_eq!(find_name(b"a|b|c|d|e"), None);
    assert_eq!(find_name(b"0|1|2|3|4|5|DOE, JANE"), None);
    assert_eq!(find_name(b""), None);
    assert_eq!(find_name(b"DOE, JANE"), None);
}

#[test]
fn find_name_needs_a_comma_in_the_name_field() {
    assert_eq!(find_name(b"a|b|c|d|e|f|g|SMITH JOHN|i"), None);
    assert_eq!(find_name(b"a|b|c|d|e|f|g||i"), None);
}

#[test]
fn find_name_ignores_commas_in_other_fields() {
    assert_eq!(find_name(b"a, x|b|c|d|e|f|g|SMITH|i, j"), None);
    assert_eq!(find_name(b"a, x|b|c|d|e|f|g|SMITH, ANN|i, j"), Some(&b"ANN"[..]));
}

#[test]
fn find_name_does_not_trim() {
    assert_eq!(find_name(b"a|b|c|d|e|f|g|DOE,  JOHN|i"), Some(&b""[..]));
    assert_eq!(find_name(b"a|b|c|d|e|f|g|DOE, |i"), Some(&b""[..]));
}

#[test]
fn find_name_keeps_the_case() {
    assert_eq!(find_name(b"a|b|c|d|e|f|g|Doe, John|i"), Some(&b"John"[..]));
}

#[test]
fn find_name_uses_the_second_comma_part_only() {
    assert_eq!(find_name(b"a|b|c|d|e|f|g|DOE, JOHN, JR|i"), Some(&b"JOHN"[..]));
}

#[test]
fn find_name_returns_a_slice_of_the_record() {
    let record = b"A|b|c|d|e|f|g|LAST, FIRST|i";
    let name = find_name(record).unwrap();
    let start = name.as_ptr() as usize - record.as_ptr() as usize;
    assert_eq!(start, 20);
    assert_eq!(&record[start..start + name.len()], name);
}

#[test]
fn rank_orders_byte_by_byte() {
    assert_eq!(rank(b"a", b"b"), Rank::Before);
    assert_eq!(rank(b"b", b"a"), Rank::After);
    assert_eq!(rank(b"abc", b"abd"), Rank::Before);
    assert_eq!(rank(b"abd", b"abc"), Rank::After);
    assert_eq!(rank(b"Z", b"a"), Rank::Before);
}

#[test]
fn rank_puts_a_prefix_first() {
    assert_eq!(rank(b"ab", b"abc"), Rank::Before);
    assert_eq!(rank(b"abc", b"ab"), Rank::After);
    assert_eq!(rank(b"", b"a"), Rank::Before);
    assert_eq!(rank(b"a", b""), Rank::After);
}

#[test]
fn rank_finds_equal_names() {
    assert_eq!(rank(b"", b""), Rank::Same);
    assert_eq!(rank(b"JOHN", b"JOHN"), Rank::Same);
    let one = vec![74u8, 79, 72, 78];
    assert_eq!(rank(&one, b"JOHN"), Rank::Same);
}
