use gxhash::GxHashMap;
use onebrc::format::{format_record, mean_of, name_less, push_station, sort_entries};
use onebrc::temperature::{is_valid_temperature, push_tenths};
use onebrc::{format_output, parse_to_i16, parse_to_i16_simd, ProcessedStation, StationMap};

fn text_of(tenths: i16) -> Vec<u8> {
    let mut buffer: Vec<u8> = Vec::new();
    push_tenths(&mut buffer, tenths);
    buffer
}

#[test]
fn temperatures_parse_to_tenths() {
    assert_eq!(parse_to_i16(b"-0.1"), -1);
    assert_eq!(parse_to_i16(b"9.9"), 99);
    assert_eq!(parse_to_i16(b"-99.9"), -999);
    assert_eq!(parse_to_i16(b"0.0"), 0);
    assert_eq!(parse_to_i16_simd(b"-0.1"), -1);
    assert_eq!(parse_to_i16_simd(b"9.9"), 99);
    assert_eq!(parse_to_i16_simd(b"-99.9"), -999);
    assert_eq!(parse_to_i16_simd(b"0.0"), 0);
    assert_eq!(parse_to_i16(b"12.3"), 123);
    assert_eq!(parse_to_i16_simd(b"12.3"), 123);
    assert_eq!(parse_to_i16(b"05.0"), 50);
    assert_eq!(parse_to_i16_simd(b"05.0"), 50);
}

#[test]
fn extremes_round_trip() {
    assert_eq!(text_of(-999), b"-99.9".to_vec());
    assert_eq!(text_of(999), b"99.9".to_vec());
    assert_eq!(parse_to_i16(&text_of(-999)), -999);
    assert_eq!(parse_to_i16(&text_of(999)), 999);
    assert_eq!(parse_to_i16_simd(&text_of(-999)), -999);
    assert_eq!(parse_to_i16_simd(&text_of(999)), 999);
}

#[test]
fn every_value_reads_back_from_its_text() {
    for tenths in -999i16..=999 {
        let text = text_of(tenths);
        assert!(is_valid_temperature(&text));
        assert_eq!(parse_to_i16(&text), tenths);
        assert_eq!(parse_to_i16_simd(&text), tenths);
    }
}

#[test]
fn tenths_are_written_with_one_digit_after_the_dot() {
    assert_eq!(text_of(0), b"0.0".to_vec());
    assert_eq!(text_of(5), b"0.5".to_vec());
    assert_eq!(text_of(-5), b"-0.5".to_vec());
    assert_eq!(text_of(10), b"1.0".to_vec());
    assert_eq!(text_of(-123), b"-12.3".to_vec());
    assert_eq!(text_of(100), b"10.0".to_vec());
    assert_eq!(text_of(99), b"9.9".to_vec());
}

#[test]
fn temperatures_are_told_from_other_text() {
    assert!(is_valid_temperature(b"0.0"));
    assert!(is_valid_temperature(b"-0.0"));
    assert!(is_valid_temperature(b"99.9"));
    assert!(is_valid_temperature(b"-99.9"));
    assert!(!is_valid_temperature(b""));
    assert!(!is_valid_temperature(b"-"));
    assert!(!is_valid_temperature(b"1"));
    assert!(!is_valid_temperature(b"1.23"));
    assert!(!is_valid_temperature(b"123.4"));
    assert!(!is_valid_temperature(b"--1.0"));
    assert!(!is_valid_temperature(b"1,0"));
    assert!(!is_valid_temperature(b"a.0"));
    assert!(!is_valid_temperature(b"1.a"));
    assert!(!is_valid_temperature(b"1/.0"));
    assert!(!is_valid_temperature(b"1:.0"));
}

#[test]
fn mean_rounds_a_half_away_from_zero() {
    assert_eq!(mean_of(ProcessedStation(-55, 121, 186, 3)), 62);
    assert_eq!(mean_of(ProcessedStation(2, 3, 5, 2)), 3);
    assert_eq!(mean_of(ProcessedStation(-3, -2, -5, 2)), -3);
    assert_eq!(mean_of(ProcessedStation(-1, 0, -1, 3)), 0);
    assert_eq!(mean_of(ProcessedStation(0, 1, 1, 3)), 0);
    assert_eq!(mean_of(ProcessedStation(0, 1, 2, 3)), 1);
    assert_eq!(mean_of(ProcessedStation(-1, 0, -2, 3)), -1);
    assert_eq!(mean_of(ProcessedStation(-999, 999, 0, 2)), 0);
    assert_eq!(mean_of(ProcessedStation(999, 999, 999, 1)), 999);
    assert_eq!(mean_of(ProcessedStation(-999, -999, -1998, 2)), -999);
    assert_eq!(mean_of(ProcessedStation(1, 2, 7, 4)), 2);
    assert_eq!(mean_of(ProcessedStation(1, 2, 5, 4)), 1);
}

#[test]
fn mean_lies_between_the_extremes() {
    let records = [
        ProcessedStation(-55, 121, 186, 3),
        ProcessedStation(-999, 999, -1, 2),
        ProcessedStation(7, 8, 15, 2),
        ProcessedStation(-8, -7, -15, 2),
        ProcessedStation(0, 0, 0, 9),
    ];
    for r in records {
        let mean = mean_of(r);
        assert!(r.0 <= mean && mean <= r.1);
    }
}

#[test]
fn a_record_is_written_as_three_numbers() {
    assert_eq!(format_record(ProcessedStation(-55, 121, 186, 3)), b"-5.5/6.2/12.1".to_vec());
    assert_eq!(format_record(ProcessedStation(-999, 999, 0, 2)), b"-99.9/0.0/99.9".to_vec());
    assert_eq!(format_record(ProcessedStation(-3, -2, -5, 2)), b"-0.3/-0.3/-0.2".to_vec());
    assert_eq!(format_record(ProcessedStation(-1, 0, -1, 3)), b"-0.1/0.0/0.0".to_vec());
    assert_eq!(
        format_record(ProcessedStation(7, 7, 7, 1)),
        format_record(ProcessedStation(7, 7, 7_000, 1_000))
    );
}

#[test]
fn a_station_is_written_as_name_and_three_numbers() {
    let mut out: Vec<u8> = b"{".to_vec();
    push_station(&mut out, b"Oslo", ProcessedStation(-32, 27, 10, 4));
    assert_eq!(out, b"{Oslo=-3.2/0.3/2.7".to_vec());
    let mut again: Vec<u8> = Vec::new();
    push_station(&mut again, b"X", ProcessedStation(-32, 27, 10, 4));
    assert_eq!(again, b"X=-3.2/0.3/2.7".to_vec());
}

#[test]
fn the_text_does_not_depend_on_how_the_table_was_filled() {
    let mut first: StationMap = GxHashMap::default();
    first.insert(b"b".to_vec(), ProcessedStation(1, 1, 1, 1));
    first.insert(b"a".to_vec(), ProcessedStation(2, 2, 2, 1));
    first.insert(b"ab".to_vec(), ProcessedStation(3, 3, 3, 1));
    first.insert(b"B".to_vec(), ProcessedStation(4, 4, 4, 1));
    let mut second: StationMap = GxHashMap::default();
    second.insert(b"B".to_vec(), ProcessedStation(4, 4, 4, 1));
    second.insert(b"ab".to_vec(), ProcessedStation(3, 3, 3, 1));
    second.insert(b"a".to_vec(), ProcessedStation(2, 2, 2, 1));
    second.insert(b"b".to_vec(), ProcessedStation(1, 1, 1, 1));
    let expected = b"{B=0.4/0.4/0.4, a=0.2/0.2/0.2, ab=0.3/0.3/0.3, b=0.1/0.1/0.1}".to_vec();
    assert_eq!(format_output(&first), expected);
    assert_eq!(format_output(&second), expected);
}

#[test]
fn an_empty_table_is_a_pair_of_braces() {
    let table: StationMap = GxHashMap::default();
    assert_eq!(format_output(&table), b"{}".to_vec());
}

#[test]
fn names_are_ordered_by_their_bytes() {
    assert!(name_less(b"", b"a"));
    assert!(!name_less(b"", b""));
    assert!(!name_less(b"a", b""));
    assert!(name_less(b"a", b"b"));
    assert!(!name_less(b"b", b"a"));
    assert!(name_less(b"a", b"ab"));
    assert!(!name_less(b"ab", b"a"));
    assert!(!name_less(b"ab", b"ab"));
    assert!(name_less(b"B", b"a"));
    assert!(name_less(b"az", b"b"));
    assert!(name_less("z".as_bytes(), "é".as_bytes()));
}

#[test]
fn entries_are_sorted_by_name() {
    let entries = vec![
        (b"pear".to_vec(), ProcessedStation(1, 1, 1, 1)),
        (b"apple".to_vec(), ProcessedStation(2, 2, 2, 1)),
        (b"fig".to_vec(), ProcessedStation(3, 3, 3, 1)),
        (b"app".to_vec(), ProcessedStation(4, 4, 4, 1)),
    ];
    assert_eq!(
        sort_entries(&entries),
        vec![
            (b"app".to_vec(), ProcessedStation(4, 4, 4, 1)),
            (b"apple".to_vec(), ProcessedStation(2, 2, 2, 1)),
            (b"fig".to_vec(), ProcessedStation(3, 3, 3, 1)),
            (b"pear".to_vec(), ProcessedStation(1, 1, 1, 1)),
        ]
    );
    assert_eq!(sort_entries(&Vec::new()), Vec::new());
}
