use gxhash::GxHashSet;
use onebrc::args::parse_count;
use onebrc::generator::{batch_rows, push_measurement};
use onebrc::{
    build_test_data, build_weather_station_name_list, check_args, fill_batch, is_well_formed,
    thread, NameSet, ProcessedStation,
};
use std::collections::BTreeMap;

const USAGE: &str = "Usage: create_measurements <positive integer number of records to create>";

fn names_of(dictionary: &[u8]) -> Vec<Vec<u8>> {
    let mut set: NameSet = GxHashSet::default();
    build_weather_station_name_list(&mut set, dictionary);
    let mut names: Vec<Vec<u8>> = set.into_iter().collect();
    names.sort();
    names
}

fn args(list: &[&str]) -> Vec<String> {
    list.iter().map(|s| s.to_string()).collect()
}

#[test]
fn dictionary_names_are_the_first_fields() {
    let dictionary = b"# a comment;with a field\nOslo;59.9\nLima;-12.0\n\n\
        Oslo;again\n#Cairo;30.0\nPune;18.5";
    assert_eq!(
        names_of(dictionary),
        vec![b"Lima".to_vec(), b"Oslo".to_vec(), b"Pune".to_vec()]
    );
    assert_eq!(names_of(b""), Vec::<Vec<u8>>::new());
    assert_eq!(names_of(b"# only\n# comments\n"), Vec::<Vec<u8>>::new());
    assert_eq!(names_of(b"Bare\n"), vec![b"Bare".to_vec()]);
}

#[test]
fn dictionary_names_join_what_the_set_held() {
    let mut set: NameSet = GxHashSet::default();
    set.insert(b"Kept".to_vec());
    build_weather_station_name_list(&mut set, b"New;1\nKept;2\n");
    let mut names: Vec<Vec<u8>> = set.into_iter().collect();
    names.sort();
    assert_eq!(names, vec![b"Kept".to_vec(), b"New".to_vec()]);
}

#[test]
fn a_row_is_station_semicolon_temperature() {
    let mut buffer: Vec<u8> = Vec::new();
    push_measurement(&mut buffer, b"Oslo", -123);
    push_measurement(&mut buffer, b"Lima", 7);
    push_measurement(&mut buffer, b"Pune", 999);
    assert_eq!(buffer, b"Oslo;-12.3\nLima;0.7\nPune;99.9\n".to_vec());
}

#[test]
fn a_batch_has_its_rows_and_keeps_what_was_there() {
    let names = vec![b"Oslo".to_vec(), b"Lima".to_vec()];
    let mut buffer: Vec<u8> = b"Pune;1.0\n".to_vec();
    fill_batch(&names, 500, &mut buffer);
    assert!(buffer.starts_with(b"Pune;1.0\n"));
    assert!(is_well_formed(&buffer));
    let table = thread(&buffer, 0, buffer.len());
    let total: u64 = table.values().map(|r| r.3).sum();
    assert_eq!(total, 501);
    assert_eq!(table.get(b"Pune".as_slice()), Some(&ProcessedStation(10, 10, 10, 1)));
    for name in table.keys() {
        assert!(name == b"Pune" || name == b"Oslo" || name == b"Lima");
    }
    let before = buffer.clone();
    fill_batch(&names, 0, &mut buffer);
    assert_eq!(buffer, before);
}

#[test]
fn batches_share_the_rows() {
    for rows in [0usize, 1, 999, 1000, 1001, 12_345, 100_000] {
        let total: usize = (0..1000u64).map(|b| batch_rows(rows, b)).sum();
        assert_eq!(total, rows);
    }
    assert_eq!(batch_rows(2_500, 0), 3);
    assert_eq!(batch_rows(2_500, 499), 3);
    assert_eq!(batch_rows(2_500, 500), 2);
    assert_eq!(batch_rows(2_500, 999), 2);
    assert_eq!(batch_rows(7, 6), 1);
    assert_eq!(batch_rows(7, 7), 0);
}

#[test]
fn generated_rows_aggregate_to_their_reference() {
    let dictionary = b"# stations\nOslo;59.9\nLima;-12.0\nCairo;30.0\nPune;18.5\nQuito;-0.2\n";
    let data = build_test_data(100_000, dictionary).unwrap();
    assert!(is_well_formed(&data));
    let mut reference: BTreeMap<Vec<u8>, (i64, i64, i64, u64)> = BTreeMap::new();
    let mut lines = 0usize;
    for line in data.split(|b| *b == b'\n') {
        if line.is_empty() {
            continue;
        }
        lines += 1;
        let semi = line.iter().position(|b| *b == b';').unwrap();
        let text = std::str::from_utf8(&line[semi + 1..]).unwrap();
        let value = (text.parse::<f64>().unwrap() * 10.0).round() as i64;
        assert!((-999..=999).contains(&value));
        let slot = reference
            .entry(line[..semi].to_vec())
            .or_insert((value, value, 0, 0));
        slot.0 = slot.0.min(value);
        slot.1 = slot.1.max(value);
        slot.2 += value;
        slot.3 += 1;
    }
    assert_eq!(lines, 100_000);
    assert_eq!(data.last(), Some(&b'\n'));
    let table = thread(&data, 0, data.len());
    assert_eq!(table.len(), reference.len());
    for (name, (min, max, sum, count)) in &reference {
        let known = [b"Oslo".as_slice(), b"Lima", b"Cairo", b"Pune", b"Quito"];
        assert!(known.contains(&name.as_slice()));
        let record = table.get(name.as_slice()).unwrap();
        assert_eq!(record.0 as i64, *min);
        assert_eq!(record.1 as i64, *max);
        assert_eq!(record.2, *sum);
        assert_eq!(record.3, *count);
    }
}

#[test]
fn generated_rows_number_what_was_asked() {
    let dictionary = b"Oslo;59.9\n";
    assert_eq!(build_test_data(0, dictionary), Some(Vec::<u8>::new()));
    let data = build_test_data(7, dictionary).unwrap();
    assert_eq!(data.iter().filter(|b| **b == b'\n').count(), 7);
    for line in data.split(|b| *b == b'\n') {
        assert!(line.is_empty() || line.starts_with(b"Oslo;"));
    }
    let data = build_test_data(1_001, dictionary).unwrap();
    assert_eq!(data.iter().filter(|b| **b == b'\n').count(), 1_001);
}

#[test]
fn a_dictionary_without_stations_gives_no_rows() {
    assert_eq!(build_test_data(10, b""), None);
    assert_eq!(build_test_data(10, b"# nothing here\n\n"), None);
    assert_eq!(build_test_data(0, b"\n"), None);
}

#[test]
fn arguments_name_a_number_of_rows() {
    assert_eq!(check_args(args(&["generate", "1"])), Ok(1));
    assert_eq!(check_args(args(&["generate", "1000000000"])), Ok(1_000_000_000));
    assert_eq!(check_args(args(&["generate", "+42"])), Ok(42));
    assert_eq!(check_args(args(&["generate", "007"])), Ok(7));
    assert_eq!(check_args(args(&["generate", "0"])), Err(USAGE));
    assert_eq!(check_args(args(&["generate"])), Err(USAGE));
    assert_eq!(check_args(args(&[])), Err(USAGE));
    assert_eq!(check_args(args(&["generate", "1", "2"])), Err(USAGE));
    assert_eq!(check_args(args(&["generate", "-1"])), Err(USAGE));
    assert_eq!(check_args(args(&["generate", "ten"])), Err(USAGE));
    assert_eq!(check_args(args(&["generate", ""])), Err(USAGE));
    assert_eq!(check_args(args(&["generate", "+"])), Err(USAGE));
    assert_eq!(check_args(args(&["generate", " 5"])), Err(USAGE));
    assert_eq!(check_args(args(&["generate", "5 "])), Err(USAGE));
    assert_eq!(check_args(args(&["generate", "1.5"])), Err(USAGE));
    assert_eq!(check_args(args(&["generate", "٣"])), Err(USAGE));
    assert_eq!(
        check_args(args(&["generate", "99999999999999999999999999"])),
        Err(USAGE)
    );
}

#[test]
fn counts_are_read_as_the_standard_library_reads_them() {
    let samples = [
        "0", "1", "+0", "+1", "-0", "00", "18446744073709551615", "18446744073709551616",
        "+18446744073709551615", "1844674407370955161", "184467440737095516150", "", "+", "++1",
        "1+", "a", "1a", "0x10", "1_000", " 1", "1\n", "९",
    ];
    for text in samples {
        assert_eq!(parse_count(text.as_bytes()), text.parse::<usize>().ok(), "{}", text);
    }
}
