use csv_stats::loader::load_records;
use csv_stats::record::Record;
use csv_stats::stats::{max_index, min_index, sort_by_value, sum_and_count};

fn load(text: &str) -> Vec<Record> {
    load_records(&text.as_bytes().to_vec())
}

fn name_of(r: &Record) -> &str {
    std::str::from_utf8(&r.name).unwrap()
}

#[test]
fn sort_scenario_lists_banana_then_apple() {
    let mut records = load("name,value\nBanana,2.0\nApple,3.0\n");
    sort_by_value(&mut records);
    assert_eq!(records.len(), 2);
    assert_eq!(name_of(&records[0]), "Banana");
    assert_eq!(name_of(&records[1]), "Apple");
}

#[test]
fn average_scenario_yields_ten() {
    let records = load("name,value\nCherry,5.0\nDate,15.0\n");
    let (total, count) = sum_and_count(&records);
    let average = total as f64 / 1_000_000.0 / count as f64;
    assert_eq!(average, 10.0);
    assert_eq!(format!("{}", average), "10");
}

#[test]
fn min_scenario_selects_elderberry() {
    let records = load("name,value\nFig,7.5\nElderberry,2.5\n");
    let min_record = &records[min_index(&records).unwrap()];
    assert_eq!(name_of(min_record), "Elderberry");
    assert_eq!(min_record.value, 2_500_000);
}

#[test]
fn max_scenario_selects_apple() {
    let records = load("name,value\nGrape,1.0\nApple,3.0\n");
    let max_record = &records[max_index(&records).unwrap()];
    assert_eq!(name_of(max_record), "Apple");
    assert_eq!(max_record.value, 3_000_000);
}

#[test]
fn non_numeric_value_row_is_dropped_everywhere() {
    let mut records = load("name,value\nMango,abc\nKiwi,4.0\nLime,6.0\n");
    assert_eq!(records.len(), 2);
    assert!(records.iter().all(|r| name_of(r) != "Mango"));
    let (total, count) = sum_and_count(&records);
    assert_eq!(total, 10_000_000);
    assert_eq!(count, 2);
    assert_eq!(name_of(&records[min_index(&records).unwrap()]), "Kiwi");
    assert_eq!(name_of(&records[max_index(&records).unwrap()]), "Lime");
    sort_by_value(&mut records);
    assert_eq!(name_of(&records[0]), "Kiwi");
}

#[test]
fn header_maps_columns_by_name_not_position() {
    let records = load("value,name\n3.5,Apple\n");
    assert_eq!(records.len(), 1);
    assert_eq!(name_of(&records[0]), "Apple");
    assert_eq!(records[0].value, 3_500_000);
}

#[test]
fn wrong_column_count_row_is_dropped() {
    let records = load("name,value\nApple,1.0,extra\nPear\nPlum,2.0\n");
    assert_eq!(records.len(), 1);
    assert_eq!(name_of(&records[0]), "Plum");
}

#[test]
fn missing_header_column_loads_nothing() {
    let records = load("name,weight\nApple,1.0\n");
    assert_eq!(records.len(), 0);
}

#[test]
fn empty_input_loads_nothing() {
    assert_eq!(load("").len(), 0);
    assert_eq!(load("name,value\n").len(), 0);
}

#[test]
fn crlf_line_endings_are_accepted() {
    let records = load("name,value\r\nApple,1.25\r\nPear,2.75\r\n");
    assert_eq!(records.len(), 2);
    assert_eq!(records[0].value, 1_250_000);
    assert_eq!(records[1].value, 2_750_000);
}

#[test]
fn out_of_range_value_row_is_dropped() {
    let records = load("name,value\nHuge,99999999999999999999\nOk,1.0\n");
    assert_eq!(records.len(), 1);
    assert_eq!(name_of(&records[0]), "Ok");
}

#[test]
fn rows_keep_file_order() {
    let records = load("name,value\nOne,3.0\nTwo,1.0\nThree,2.0\n");
    let names: Vec<&str> = records.iter().map(name_of).collect();
    assert_eq!(names, vec!["One", "Two", "Three"]);
}
