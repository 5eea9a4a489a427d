use csv_stats::number::parse_decimal;
use csv_stats::record::Record;
use csv_stats::stats::{max_index, min_index, sort_by_value, sum_and_count};

fn micros(text: &str) -> i64 {
    parse_decimal(&text.as_bytes().to_vec()).unwrap()
}

fn rec(name: &str, value: &str) -> Record {
    Record { name: name.as_bytes().to_vec(), value: micros(value) }
}

#[test]
fn test_sort_records() {
    let mut records = vec![rec("Banana", "2.0"), rec("Apple", "3.0")];
    sort_by_value(&mut records);
    assert_eq!(records[0].name, b"Banana".to_vec());
    assert_eq!(records[1].name, b"Apple".to_vec());
}

#[test]
fn test_average_value() {
    let records = vec![rec("Cherry", "5.0"), rec("Date", "15.0")];
    let (total, count) = sum_and_count(&records);
    let average = total as f64 / 1_000_000.0 / count as f64;
    assert_eq!(average, 10.0);
}

#[test]
fn test_min_value() {
    let records = vec![rec("Fig", "7.5"), rec("Elderberry", "2.5")];
    let min_record = &records[min_index(&records).unwrap()];
    assert_eq!(min_record.value, micros("2.5"));
}

#[test]
fn test_max_value() {
    let records = vec![rec("Grape", "1.0"), rec("Apple", "3.0")];
    let max_record = &records[max_index(&records).unwrap()];
    assert_eq!(max_record.value, micros("3.0"));
}

#[test]
fn sort_orders_by_ascending_value() {
    let mut records = vec![
        rec("d", "4.0"),
        rec("a", "-1.5"),
        rec("c", "3.25"),
        rec("b", "0.0"),
    ];
    sort_by_value(&mut records);
    let names: Vec<&[u8]> = records.iter().map(|r| r.name.as_slice()).collect();
    assert_eq!(names, vec![b"a" as &[u8], b"b", b"c", b"d"]);
}

#[test]
fn sort_keeps_equal_values_in_input_order() {
    let mut records = vec![
        rec("first", "2.0"),
        rec("low", "1.0"),
        rec("second", "2.0"),
        rec("third", "2.0"),
    ];
    sort_by_value(&mut records);
    let names: Vec<&[u8]> = records.iter().map(|r| r.name.as_slice()).collect();
    assert_eq!(names, vec![b"low" as &[u8], b"first", b"second", b"third"]);
}

#[test]
fn min_takes_first_of_ties() {
    let records = vec![rec("b", "5.0"), rec("x", "1.0"), rec("y", "1.0")];
    assert_eq!(min_index(&records), Some(1));
}

#[test]
fn max_takes_first_of_ties() {
    let records = vec![rec("x", "9.0"), rec("b", "5.0"), rec("y", "9.0")];
    assert_eq!(max_index(&records), Some(0));
}

#[test]
fn empty_input_has_no_extremes_and_nan_average() {
    let records: Vec<Record> = vec![];
    assert_eq!(min_index(&records), None);
    assert_eq!(max_index(&records), None);
    let (total, count) = sum_and_count(&records);
    assert_eq!(total, 0);
    assert_eq!(count, 0);
    let average = total as f64 / 1_000_000.0 / count as f64;
    assert!(average.is_nan());
}

#[test]
fn sum_handles_negative_values() {
    let records = vec![rec("a", "-2.5"), rec("b", "1.0")];
    let (total, count) = sum_and_count(&records);
    assert_eq!(total, -1_500_000);
    assert_eq!(count, 2);
}
