use columnar::encode::encode_column;
use columnar::rle::{decode_rle_data, encode_iter, Values};
use columnar::{DataType, Value};

#[test]
fn test_repeated_sum_equal_to_multiplication() {
    let run = Values { value: 5u64, run_length: 3 };
    let expanded = run.repeated();
    let mut sum: u64 = 0;
    for x in &expanded {
        sum += *x;
    }
    assert_eq!(sum, 15);
    assert_eq!(run.value * run.run_length, 15);
}

#[test]
fn test_encode_data_without_values_produces_no_values() {
    let runs = encode_iter(&Vec::new());
    assert!(runs.is_empty());
}

#[test]
fn test_encode_data_combines_repeated_values() {
    let mut values = Vec::new();
    for _ in 0..3 {
        values.push(Value::Str("repeated-3".to_string()));
    }
    values.push(Value::Str("no-repeat".to_string()));
    for _ in 0..2 {
        values.push(Value::Str("repeated-2".to_string()));
    }
    let runs = encode_iter(&values);
    assert_eq!(runs.len(), 3);
    assert_eq!(runs[0].value, Value::Str("repeated-3".to_string()));
    assert_eq!(runs[0].run_length, 3);
    assert_eq!(runs[1].value, Value::Str("no-repeat".to_string()));
    assert_eq!(runs[1].run_length, 1);
    assert_eq!(runs[2].value, Value::Str("repeated-2".to_string()));
    assert_eq!(runs[2].run_length, 2);
}

#[test]
fn single_wraps_one_value() {
    let rec = Values::single(Value::U8(9));
    assert_eq!(rec.value, Value::U8(9));
    assert_eq!(rec.run_length, 1);
}

#[test]
fn rle_data_decodes_one_page_of_runs() {
    let values = vec![
        Value::Str("a".to_string()),
        Value::Str("a".to_string()),
        Value::Str("b".to_string()),
    ];
    let (bytes, footer) = encode_column(&values, DataType::Str, true).unwrap();
    assert_eq!(footer.pages.len(), 1);
    assert_eq!(footer.pages[0].values_count, 3);
    assert_eq!(footer.pages[0].encoded_values_count, 2);
    // the data region starts right after the magic literal and the header
    let (items, _end) = decode_rle_data(DataType::Str, 3, &bytes, 11);
    assert_eq!(items.len(), 2);
    let first = items[0].as_ref().unwrap();
    assert_eq!(first.value, Value::Str("a".to_string()));
    assert_eq!(first.run_length, 2);
    let second = items[1].as_ref().unwrap();
    assert_eq!(second.value, Value::Str("b".to_string()));
    assert_eq!(second.run_length, 1);
}
