//! Names of segment files and reading their lines.

use rucelium::error::StoreError;
use rucelium::store::lines::read_segment;
use rucelium::store::segment::{list_segments, parse_segment_index, segment_file_name};

#[test]
fn file_names_are_zero_padded() {
    assert_eq!(segment_file_name("obs", 0), "obs-000000.jsonl");
    assert_eq!(segment_file_name("evt", 42), "evt-000042.jsonl");
}

#[test]
fn index_parsing_rejects_foreign_names() {
    assert_eq!(parse_segment_index("obs-000007.jsonl", "obs"), Some(7));
    assert_eq!(parse_segment_index("obs-000007.jsonl", "evt"), None);
    assert_eq!(parse_segment_index("obs-x7.jsonl", "obs"), None);
    assert_eq!(parse_segment_index("obs-.jsonl", "obs"), None);
    assert_eq!(parse_segment_index("obs-000007.tmp", "obs"), None);
}

#[test]
fn names_longer_than_the_padding_carry_their_index() {
    assert_eq!(segment_file_name("obs", 1_234_567), "obs-1234567.jsonl");
    assert_eq!(parse_segment_index("obs-1234567.jsonl", "obs"), Some(1_234_567));
    assert_eq!(segment_file_name("obs", u64::MAX), "obs-18446744073709551615.jsonl");
    assert_eq!(
        parse_segment_index("obs-18446744073709551615.jsonl", "obs"),
        Some(u64::MAX)
    );
    assert_eq!(parse_segment_index("obs-18446744073709551616.jsonl", "obs"), None);
}

#[test]
fn every_name_carries_its_index_and_names_sort_as_numbers() {
    let indexes = [0u64, 1, 9, 10, 99, 100, 4_095, 99_999, 100_000, 999_999];
    for pair in indexes.windows(2) {
        let a = segment_file_name("obs", pair[0]);
        let b = segment_file_name("obs", pair[1]);
        assert_eq!(parse_segment_index(&a, "obs"), Some(pair[0]));
        assert!(a < b);
    }
}

#[test]
fn listing_is_sorted_and_leaves_foreign_files_out() {
    let names: Vec<String> = ["obs-000002.jsonl", "notes.txt", "evt-000000.jsonl", "obs-000000.jsonl"]
        .iter()
        .map(|s| s.to_string())
        .collect();
    assert_eq!(
        list_segments(&names, "obs"),
        vec![
            ("obs-000000.jsonl".to_string(), 0),
            ("obs-000002.jsonl".to_string(), 2)
        ]
    );
    assert_eq!(
        list_segments(&names, "evt"),
        vec![("evt-000000.jsonl".to_string(), 0)]
    );
}

fn number(line: &str) -> Result<u32, String> {
    line.parse::<u32>().map_err(|e| e.to_string())
}

#[test]
fn clean_file_reads_in_full() {
    assert_eq!(
        read_segment(b"1\n22\n333\n", "f", false, &number),
        Ok((vec![1, 22, 333], 9))
    );
    assert_eq!(read_segment(b"", "f", true, &number), Ok((vec![], 0)));
    // A last line without its newline still counts if it decodes.
    assert_eq!(read_segment(b"1\n22", "f", true, &number), Ok((vec![1, 22], 4)));
}

#[test]
fn torn_tail_is_cut_only_where_asked() {
    assert_eq!(
        read_segment(b"1\n22\n3x", "f", true, &number),
        Ok((vec![1, 22], 5))
    );
    assert_eq!(
        read_segment(b"1\n22\n3x\n", "f", true, &number),
        Ok((vec![1, 22], 5))
    );
    match read_segment(b"1\n22\n3x", "f", false, &number) {
        Err(StoreError::Corrupt { segment, line, .. }) => {
            assert_eq!(segment, "f");
            assert_eq!(line, 3);
        }
        other => panic!("expected Corrupt, got {:?}", other),
    }
}

#[test]
fn bytes_that_are_no_text_are_corrupt() {
    match read_segment(b"1\n\xff\xfe\n3\n", "f", true, &number) {
        Err(StoreError::Corrupt { line, reason, .. }) => {
            assert_eq!(line, 2);
            let expected = String::from_utf8(vec![0xff, 0xfe]).unwrap_err();
            assert_eq!(reason, expected.utf8_error().to_string());
        }
        other => panic!("expected Corrupt, got {:?}", other),
    }
}
