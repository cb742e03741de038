use onebrc::aggregate::Aggregate;
use onebrc::chunking::{align_window, chunk_window, AlignError, BACKUP_BYTES, CHUNK_SIZE};
use onebrc::engine::{aggregate_bytes, process_bytes, read_aligned, worker_chunk_offsets, EngineError};
use onebrc::keys::compare_keys;
use onebrc::records::{find_byte, process_chunk, RecordError};
use onebrc::report::{mean_of, push_tenths, render_report};
use onebrc::stats::StatRecord;
use onebrc::value::{check_value_text, parse_ascii_digits};

fn sample() -> Vec<u8> {
    let stations = ["Rome", "Oslo", "Abha", "Zurich", "Hamburg", "Bulawayo", "St. John's", "Palembang"];
    let mut text = String::new();
    for i in 0..300usize {
        let name = stations[(i * 7 + i / 3) % stations.len()];
        let tenths = ((i * 37) % 1999) as i32 - 999;
        let sign = if tenths < 0 { "-" } else { "" };
        let a = tenths.abs();
        text.push_str(&format!("{};{}{}.{}\n", name, sign, a / 10, a % 10));
    }
    text.into_bytes()
}

fn report(data: &[u8], workers: u64, chunk_size: u64) -> String {
    String::from_utf8(process_bytes(data, workers, chunk_size).unwrap()).unwrap()
}

#[test]
fn end_to_end_scenario() {
    let data = b"Rome;12.3\nRome;5.0\nOslo;-2.1\n";
    assert_eq!(report(data, 1, CHUNK_SIZE), "Oslo: -2.1/-2.1/-2.1\nRome: 5.0/8.7/12.3\n");
}

#[test]
fn parser_matches_standard_conversion() {
    for s in ["0.0", "-0.0", "9.9", "-9.9", "123.4", "-123.4"] {
        let expected = (s.parse::<f64>().unwrap() * 10.0).round() as i32;
        assert!(check_value_text(s.as_bytes()));
        assert_eq!(parse_ascii_digits(s.as_bytes()), expected, "{}", s);
    }
}

#[test]
fn parser_exact_values() {
    assert_eq!(parse_ascii_digits(b"-3.2"), -32);
    assert_eq!(parse_ascii_digits(b"100.0"), 1000);
    assert_eq!(parse_ascii_digits(b"-0.5"), -5);
    assert_eq!(parse_ascii_digits(b"99999999.9"), 999_999_999);
}

#[test]
fn value_text_rejections() {
    assert!(!check_value_text(b""));
    assert!(!check_value_text(b"12"));
    assert!(!check_value_text(b"1.23"));
    assert!(!check_value_text(b"--1.2"));
    assert!(!check_value_text(b"1a.2"));
    assert!(!check_value_text(b".5"));
    assert!(!check_value_text(b"123456789.0"));
    assert!(check_value_text(b"12345678.0"));
}

#[test]
fn worker_counts_give_identical_output() {
    let data = sample();
    let one = report(&data, 1, 100);
    for workers in [2u64, 4, 8] {
        assert_eq!(report(&data, workers, 100), one);
    }
}

#[test]
fn boundary_chunk_sizes_give_identical_output() {
    let data = b"Rome;12.3\nRome;5.0\nOslo;-2.1\n";
    let record = "Rome;12.3\n".len() as u64;
    let small = report(data, 1, 3);
    assert_eq!(small, report(data, 1, record));
    assert_eq!(small, report(data, 1, data.len() as u64 + 100));
    assert_eq!(small, report(data, 3, 1));
    assert_eq!(small, "Oslo: -2.1/-2.1/-2.1\nRome: 5.0/8.7/12.3\n");
}

#[test]
fn aligned_chunks_reconstruct_the_text() {
    let data = sample();
    for chunk_size in [1u64, 7, 64, 1000, 100_000] {
        let mut joined: Vec<u8> = Vec::new();
        let mut offset = 0u64;
        while offset < data.len() as u64 {
            let slice = read_aligned(&data, offset, chunk_size).unwrap();
            if !slice.is_empty() {
                assert_eq!(*slice.last().unwrap(), b'\n');
            }
            joined.extend_from_slice(slice);
            offset += chunk_size;
        }
        assert_eq!(joined, data);
    }
}

#[test]
fn trailing_partial_line_is_dropped() {
    let data = b"Rome;1.0\nOslo;2.0";
    assert_eq!(read_aligned(data, 0, 100).unwrap(), b"Rome;1.0\n");
    assert_eq!(report(data, 1, 100), "Rome: 1.0/1.0/1.0\n");
}

#[test]
fn merge_order_does_not_matter() {
    let mut a = Aggregate::new();
    process_chunk(&mut a, b"Rome;1.0\nOslo;-3.0\n").unwrap();
    let mut b = Aggregate::new();
    process_chunk(&mut b, b"Rome;7.5\nAbha;0.1\nOslo;4.0\n").unwrap();
    let mut c = Aggregate::new();
    process_chunk(&mut c, b"Oslo;-9.9\n").unwrap();

    let mut first = Aggregate::new();
    let (a1, b1, c1) = (a, b, c);
    let mut a2 = Aggregate::new();
    process_chunk(&mut a2, b"Rome;1.0\nOslo;-3.0\n").unwrap();
    let mut b2 = Aggregate::new();
    process_chunk(&mut b2, b"Rome;7.5\nAbha;0.1\nOslo;4.0\n").unwrap();
    let mut c2 = Aggregate::new();
    process_chunk(&mut c2, b"Oslo;-9.9\n").unwrap();

    first.merge_from(a1);
    first.merge_from(b1);
    first.merge_from(c1);
    let mut second = Aggregate::new();
    second.merge_from(c2);
    second.merge_from(a2);
    second.merge_from(b2);
    assert_eq!(render_report(&first), render_report(&second));
    assert_eq!(
        String::from_utf8(render_report(&first)).unwrap(),
        "Abha: 0.1/0.1/0.1\nOslo: -9.9/-3.0/4.0\nRome: 1.0/4.3/7.5\n"
    );
    assert_eq!(first.observed(), 6);
}

#[test]
fn missing_separator_is_an_error() {
    let mut a = Aggregate::new();
    assert_eq!(process_chunk(&mut a, b"Rome;1.0\nOslo 2.0\n"), Err(RecordError::MissingSeparator));
    assert_eq!(process_bytes(b"Rome1.0\n", 1, 100), Err(EngineError::Record(RecordError::MissingSeparator)));
}

#[test]
fn bad_value_is_an_error() {
    let mut a = Aggregate::new();
    assert_eq!(process_chunk(&mut a, b"Rome;1.0\nOslo;2\n"), Err(RecordError::BadValue));
    assert_eq!(process_bytes(b"Rome;x.0\n", 2, 4), Err(EngineError::Record(RecordError::BadValue)));
}

#[test]
fn record_longer_than_backup_is_an_error() {
    let long_key = "K".repeat(BACKUP_BYTES as usize + 10);
    let data = format!("{};1.0\n{};2.0\n", long_key, long_key).into_bytes();
    let offset = BACKUP_BYTES + 5;
    assert!(matches!(read_aligned(&data, offset, 4), Err(AlignError { .. })));
    assert!(matches!(process_bytes(&data, 1, 4), Err(EngineError::Align(_))));
}

#[test]
fn empty_lines_are_skipped() {
    assert_eq!(report(b"\nRome;1.0\n\n\nRome;3.0\n", 1, 100), "Rome: 1.0/2.0/3.0\n");
    assert_eq!(report(b"", 4, 100), "");
}

#[test]
fn equal_keys_share_an_entry_and_distinct_keys_do_not() {
    let agg = aggregate_bytes(b"ab;1.0\nab;2.0\na;3.0\nabc;4.0\n", 2, 5).unwrap();
    let keys: Vec<&[u8]> = agg.entries.iter().map(|e| e.key.as_slice()).collect();
    assert_eq!(keys, vec![&b"a"[..], &b"ab"[..], &b"abc"[..]]);
    assert_eq!(agg.entries[1].stats.count, 2);
    assert_eq!(agg.entries[1].stats.sum, 30);
}

#[test]
fn mean_rounds_half_away_from_zero() {
    assert_eq!(report(b"A;-0.1\nA;0.0\n", 1, 100), "A: -0.1/-0.1/0.0\n");
    assert_eq!(report(b"A;0.1\nA;0.0\n", 1, 100), "A: 0.0/0.1/0.1\n");
    let st = StatRecord { min: 50, max: 123, sum: 173, count: 2 };
    assert_eq!(mean_of(&st), 87);
}

#[test]
fn stat_record_update_and_merge() {
    let mut a = StatRecord::new(-5);
    a.update(20);
    a.update(-30);
    assert_eq!((a.min, a.max, a.sum, a.count), (-30, 20, -15, 3));
    let mut b = StatRecord::new(100);
    b.merge(&a);
    assert_eq!((b.min, b.max, b.sum, b.count), (-30, 100, 85, 4));
}

#[test]
fn tenths_rendering() {
    let mut out = Vec::new();
    push_tenths(&mut out, -5);
    push_tenths(&mut out, 0);
    push_tenths(&mut out, 1234);
    assert_eq!(out, b"-0.50.0123.4");
}

#[test]
fn key_comparison() {
    assert!(compare_keys(b"Abha", b"Oslo") < 0);
    assert!(compare_keys(b"Oslo", b"Abha") > 0);
    assert_eq!(compare_keys(b"Rome", b"Rome"), 0);
    assert!(compare_keys(b"Ro", b"Rome") < 0);
    assert!(compare_keys(b"", b"a") < 0);
    assert!(compare_keys(b"\xc3\xa9", b"z") > 0);
}

#[test]
fn window_and_alignment() {
    assert_eq!(chunk_window(0, 10, 25), (0, 10));
    assert_eq!(chunk_window(100, 10, 105), (100 - BACKUP_BYTES, 105));
    assert_eq!(chunk_window(10, 10, 1000), (0, 20));
    let w = b"xx;1.0\nab;2.0\ncd;3";
    assert_eq!(align_window(w, 9, false), Ok((7, 14)));
    assert_eq!(align_window(w, 0, true), Ok((0, 14)));
    assert_eq!(align_window(b"abc;1.0", 3, false), Err(AlignError { head: 3 }));
    assert_eq!(find_byte(b"ab;c", b';'), 2);
    assert_eq!(find_byte(b"abc", b';'), 3);
}

#[test]
fn striding_offsets() {
    assert_eq!(worker_chunk_offsets(0, 3, 10, 65), vec![0, 30, 60]);
    assert_eq!(worker_chunk_offsets(1, 3, 10, 65), vec![10, 40]);
    assert_eq!(worker_chunk_offsets(2, 3, 10, 65), vec![20, 50]);
    assert_eq!(worker_chunk_offsets(2, 3, 10, 20), Vec::<u64>::new());
    assert_eq!(worker_chunk_offsets(0, 1, 10, 0), Vec::<u64>::new());
}
