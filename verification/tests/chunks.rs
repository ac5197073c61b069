use name_tally::aggregate::{most_frequent_name, tally_buffer};
use name_tally::chunk::{partition, CHUNK_SIZE};
use name_tally::tally::{merge, tally_chunk, Tally};

fn sample() -> Vec<u8> {
    let names = ["JOHN", "MARY", "ANN", "JOHN", "ZOE", "MARY", "JOHN"];
    let mut buf = Vec::new();
    for (i, name) in names.iter().enumerate() {
        buf.extend_from_slice(format!("C{}|N|x|P|1|2|3|DOE{}, {} Q|CITY|ST\n", i, i, name).as_bytes());
        if i % 3 == 1 {
            buf.extend_from_slice(b"short|line\n");
        }
    }
    buf
}

#[test]
fn default_chunk_size_is_ten_mebibytes() {
    assert_eq!(CHUNK_SIZE, 10485760);
}

#[test]
fn partition_cuts_after_the_first_newline_past_the_target() {
    let buf = b"aa\nbb\ncc\n";
    assert_eq!(partition(buf, 4), vec![&b"aa\nbb\n"[..], &b"cc\n"[..]]);
    assert_eq!(partition(buf, 3), vec![&b"aa\nbb\n"[..], &b"cc\n"[..]]);
    assert_eq!(partition(buf, 5), vec![&b"aa\nbb\n"[..], &b"cc\n"[..]]);
    assert_eq!(partition(buf, 6), vec![&b"aa\nbb\ncc\n"[..]]);
}

#[test]
fn partition_counts_a_newline_at_the_target_offset() {
    let buf = b"aa\nbb\ncc\n";
    assert_eq!(partition(buf, 2), vec![&b"aa\n"[..], &b"bb\n"[..], &b"cc\n"[..]]);
}

#[test]
fn partition_with_target_zero_gives_one_record_per_chunk() {
    let buf = b"aa\nbb\n\ncc";
    assert_eq!(partition(buf, 0), vec![&b"aa\n"[..], &b"bb\n"[..], &b"\n"[..], &b"cc"[..]]);
}

#[test]
fn partition_with_a_large_target_gives_one_chunk() {
    let buf = b"aa\nbb\ncc\n";
    assert_eq!(partition(buf, 9), vec![&buf[..]]);
    assert_eq!(partition(buf, 10), vec![&buf[..]]);
    assert_eq!(partition(buf, usize::MAX), vec![&buf[..]]);
    assert_eq!(partition(buf, CHUNK_SIZE), vec![&buf[..]]);
}

#[test]
fn partition_of_an_empty_buffer_is_one_empty_chunk() {
    assert_eq!(partition(b"", 0), vec![&b""[..]]);
    assert_eq!(partition(b"", 5), vec![&b""[..]]);
}

#[test]
fn partition_without_a_further_newline_takes_the_rest() {
    assert_eq!(partition(b"abcdef", 2), vec![&b"abcdef"[..]]);
    assert_eq!(partition(b"aa\nbbbb", 1), vec![&b"aa\n"[..], &b"bbbb"[..]]);
    assert_eq!(partition(b"aa\nbbbb", 4), vec![&b"aa\nbbbb"[..]]);
}

#[test]
fn partition_leaves_no_empty_chunk_after_a_final_newline() {
    assert_eq!(partition(b"aa\nbb\n", 1), vec![&b"aa\n"[..], &b"bb\n"[..]]);
    assert_eq!(partition(b"\n", 0), vec![&b"\n"[..]]);
}

#[test]
fn partition_chunks_put_together_are_the_buffer() {
    let buf = sample();
    for target in 0..buf.len() + 2 {
        let chunks = partition(&buf, target);
        assert!(!chunks.is_empty());
        assert_eq!(chunks.concat(), buf);
    }
}

#[test]
fn partition_cuts_only_after_newlines() {
    let buf = sample();
    for target in 0..buf.len() + 2 {
        let chunks = partition(&buf, target);
        let (last, others) = chunks.split_last().unwrap();
        for chunk in others {
            assert_eq!(chunk.last(), Some(&b'\n'));
            assert!(chunk.len() > target);
            assert!(!chunk[target..chunk.len() - 1].contains(&b'\n'));
        }
        assert!(!last.is_empty());
    }
}

#[test]
fn partition_keeps_every_record_in_one_chunk() {
    let buf = sample();
    for target in [0, 1, 7, 40, 41, 100] {
        let chunks = partition(&buf, target);
        let mut bounds = vec![0];
        for chunk in &chunks {
            bounds.push(bounds.last().unwrap() + chunk.len());
        }
        let mut from = 0;
        for record in buf.split(|byte| *byte == b'\n') {
            let to = from + record.len();
            assert!(bounds.windows(2).any(|pair| pair[0] <= from && to <= pair[1]));
            from = to + 1;
        }
    }
}

#[test]
fn chunk_tallies_merged_equal_the_tally_of_the_whole() {
    let buf = sample();
    let whole = tally_chunk(&buf);
    assert_eq!(whole.count(b"JOHN"), 3);
    assert_eq!(whole.count(b"MARY"), 2);
    assert_eq!(whole.count(b"ANN"), 1);
    assert_eq!(whole.count(b"ZOE"), 1);
    assert_eq!(whole.distinct(), 4);
    let names: [&[u8]; 6] = [b"JOHN", b"MARY", b"ANN", b"ZOE", b"Q", b""];
    for target in 0..buf.len() + 2 {
        let mut total = Tally::empty();
        for chunk in partition(&buf, target) {
            total = merge(total, tally_chunk(chunk));
        }
        let direct = tally_buffer(&buf, target);
        for name in names {
            assert_eq!(total.count(name), whole.count(name));
            assert_eq!(direct.count(name), whole.count(name));
        }
        assert_eq!(total.distinct(), whole.distinct());
        assert_eq!(direct.distinct(), whole.distinct());
    }
}

#[test]
fn chunk_tallies_merged_in_reverse_equal_the_tally_of_the_whole() {
    let buf = sample();
    let whole = tally_chunk(&buf);
    let names: [&[u8]; 4] = [b"JOHN", b"MARY", b"ANN", b"ZOE"];
    for target in [0, 10, 50] {
        let mut total = Tally::empty();
        for chunk in partition(&buf, target).into_iter().rev() {
            total = merge(tally_chunk(chunk), total);
        }
        for name in names {
            assert_eq!(total.count(name), whole.count(name));
        }
    }
}

#[test]
fn most_frequent_name_of_two_records_with_one_name() {
    let buf = b"A|b|c|d|e|f|g|LAST, FIRST|i\nA|b|c|d|e|f|g|LAST, FIRST|i\n";
    let t = tally_buffer(buf, CHUNK_SIZE);
    assert_eq!(t.distinct(), 1);
    assert_eq!(t.count(b"FIRST"), 2);
    assert_eq!(most_frequent_name(buf, CHUNK_SIZE), Some((&b"FIRST"[..], 2)));
    assert_eq!(most_frequent_name(buf, 0), Some((&b"FIRST"[..], 2)));
}

#[test]
fn most_frequent_name_passes_over_a_name_without_space_after_the_comma() {
    let buf = b"A|b|c|d|e|f|g|LAST,FIRST|i\nA|b|c|d|e|f|g|LAST, FIRST|i\n";
    let t = tally_buffer(buf, CHUNK_SIZE);
    assert_eq!(t.distinct(), 1);
    assert_eq!(t.count(b"FIRST"), 1);
    assert_eq!(most_frequent_name(buf, CHUNK_SIZE), Some((&b"FIRST"[..], 1)));
}

#[test]
fn most_frequent_name_of_short_records_is_none() {
    assert_eq!(find_none(b"a|b|c|d|e"), None);
    assert_eq!(find_none(b"a|b|c|d|e\n"), None);
    assert_eq!(find_none(b"a|b|c|d|e\n1|2|3|4|5\nv|w|x|y|z\n"), None);
}

fn find_none(buf: &[u8]) -> Option<(&[u8], u64)> {
    assert_eq!(tally_buffer(buf, 3).distinct(), 0);
    most_frequent_name(buf, 3)
}

#[test]
fn most_frequent_name_of_an_empty_buffer_is_none() {
    assert_eq!(most_frequent_name(b"", CHUNK_SIZE), None);
    assert_eq!(most_frequent_name(b"", 0), None);
    assert_eq!(most_frequent_name(b"\n\n\n", 1), None);
}

#[test]
fn most_frequent_name_of_a_tie_is_one_of_the_tied_names() {
    let buf = b"A|b|c|d|e|f|g|DOE, MARY|i\nA|b|c|d|e|f|g|ROE, JOHN|i\n";
    let (name, count) = most_frequent_name(buf, CHUNK_SIZE).unwrap();
    assert!(name == b"MARY" || name == b"JOHN");
    assert_eq!(count, 1);
}

#[test]
fn most_frequent_name_of_a_tie_is_the_first_in_name_order() {
    let buf = b"A|b|c|d|e|f|g|DOE, MARY|i\nA|b|c|d|e|f|g|ROE, JOHN|i\nA|b|c|d|e|f|g|POE, JOHNNY|i\n";
    for target in 0..buf.len() + 1 {
        assert_eq!(most_frequent_name(buf, target), Some((&b"JOHN"[..], 1)));
    }
}

#[test]
fn most_frequent_name_does_not_depend_on_the_chunk_size() {
    let buf = sample();
    for target in 0..buf.len() + 2 {
        assert_eq!(most_frequent_name(&buf, target), Some((&b"JOHN"[..], 3)));
    }
}

#[test]
fn most_frequent_name_borrows_from_the_buffer() {
    let buf = sample();
    let (name, _) = most_frequent_name(&buf, 16).unwrap();
    let start = name.as_ptr() as usize;
    let low = buf.as_ptr() as usize;
    assert!(low <= start && start + name.len() <= low + buf.len());
}
