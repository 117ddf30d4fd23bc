use columnar::decode::{decode_all, decode_column, decode_footer_impl};
use columnar::encode::encode_column;
use columnar::{ColumnError, DataType, Value};

fn i64_column(xs: &[i64]) -> Vec<Value> {
    let mut out = Vec::new();
    for x in xs {
        out.push(Value::I64(*x));
    }
    out
}

fn str_column(xs: &[&str]) -> Vec<Value> {
    let mut out = Vec::new();
    for x in xs {
        out.push(Value::Str(x.to_string()));
    }
    out
}

#[test]
fn test_encode_decode_integer() {
    let values = i64_column(&[-1, 10, 10, 10, 11, 12, 12, 10]);
    let (bytes, _footer) = encode_column(&values, DataType::I64, false).unwrap();
    let decoded = decode_all(bytes, DataType::I64).unwrap();
    assert_eq!(decoded.len(), 8);
    for (i, rec) in decoded.iter().enumerate() {
        assert_eq!(rec.run_length, 1);
        assert_eq!(rec.value, values[i]);
    }
}

#[test]
fn test_encode_decode_string() {
    let values = str_column(&["foo", "bar", "baz"]);
    let (bytes, _footer) = encode_column(&values, DataType::Str, false).unwrap();
    let decoded = decode_all(bytes, DataType::Str).unwrap();
    assert_eq!(decoded.len(), 3);
    for (i, rec) in decoded.iter().enumerate() {
        assert_eq!(rec.run_length, 1);
        assert_eq!(rec.value, values[i]);
    }
}

#[test]
fn test_encode_decode_string_with_rle() {
    let values = str_column(&["foo", "foo", "foo", "bar", "baz", "foo"]);
    let (bytes, _footer) = encode_column(&values, DataType::Str, true).unwrap();
    let decoded = decode_all(bytes, DataType::Str).unwrap();
    assert_eq!(decoded.len(), 4);
    let expected = [("foo", 3u64), ("bar", 1), ("baz", 1), ("foo", 1)];
    for (rec, (s, n)) in decoded.iter().zip(expected.iter()) {
        assert_eq!(rec.value, Value::Str(s.to_string()));
        assert_eq!(rec.run_length, *n);
    }
}

#[test]
fn test_encode_decode_several() {
    let columns: Vec<(DataType, Vec<Value>)> = vec![
        (DataType::U8, vec![Value::U8(0), Value::U8(255), Value::U8(255)]),
        (DataType::I8, vec![Value::I8(-128), Value::I8(127), Value::I8(0)]),
        (DataType::U16, vec![Value::U16(250), Value::U16(251), Value::U16(65535)]),
        (DataType::I16, vec![Value::I16(-1), Value::I16(1), Value::I16(-32768)]),
        (DataType::U32, vec![Value::U32(70000), Value::U32(70000), Value::U32(3)]),
        (DataType::I32, vec![Value::I32(-70000), Value::I32(4), Value::I32(4)]),
        (DataType::U64, vec![Value::U64(u64::MAX), Value::U64(0), Value::U64(300)]),
        (DataType::I64, vec![Value::I64(i64::MIN), Value::I64(i64::MAX), Value::I64(-2)]),
        (DataType::Str, vec![Value::Str(String::new()), Value::Str("x".to_string())]),
    ];
    for (dt, values) in columns {
        for use_rle in [false, true] {
            let (bytes, _footer) = encode_column(&values, dt, use_rle).unwrap();
            let decoded = decode_all(bytes, dt).unwrap();
            let mut expanded: Vec<Value> = Vec::new();
            for rec in decoded {
                for _ in 0..rec.run_length {
                    expanded.push(rec.value.clone());
                }
            }
            assert_eq!(expanded, values);
        }
    }
}

#[test]
fn encode_on_many_values_outputs_several_pages() {
    let mut values = Vec::new();
    for _ in 0..1000000 {
        values.push(Value::I64(7));
    }
    let (bytes, footer) = encode_column(&values, DataType::I64, false).unwrap();
    assert!(footer.pages.len() > 1);
    let decoded = decode_all(bytes, DataType::I64).unwrap();
    let mut total: u64 = 0;
    for rec in &decoded {
        assert_eq!(rec.value, Value::I64(7));
        total += rec.run_length;
    }
    assert_eq!(total, 1000000);
}

#[test]
fn decode_on_wrong_data_type_fails() {
    let values = i64_column(&[1, 2, 3]);
    let (bytes, _footer) = encode_column(&values, DataType::I64, false).unwrap();
    for wrong in [DataType::U64, DataType::Str, DataType::I8, DataType::U8] {
        let r = decode_all(bytes.clone(), wrong);
        assert_eq!(
            r,
            Err(ColumnError::UnsupportedDataType { expected: DataType::I64, actual: wrong })
        );
    }
}

#[test]
fn footer_round_trips_bit_for_bit() {
    let values = str_column(&["a", "a", "b", "c", "c", "c"]);
    let (bytes, footer) = encode_column(&values, DataType::Str, true).unwrap();
    let read_back = decode_footer_impl(&bytes).unwrap();
    assert_eq!(read_back, footer);
    assert_eq!(footer.data_type, DataType::Str);
    assert!(footer.use_rle);
}

#[test]
fn magic_bytes_lead_every_stream() {
    let values = i64_column(&[5, 6]);
    let (bytes, _footer) = encode_column(&values, DataType::I64, false).unwrap();
    assert_eq!(&bytes[..9], b"wmedrano0");
    for i in 0..9 {
        let mut corrupted = bytes.clone();
        corrupted[i] ^= 0xff;
        assert_eq!(decode_all(corrupted, DataType::I64), Err(ColumnError::BadMagic));
    }
}

#[test]
fn empty_column_round_trips() {
    let values: Vec<Value> = Vec::new();
    let (bytes, footer) = encode_column(&values, DataType::U32, true).unwrap();
    assert_eq!(footer.pages.len(), 0);
    let decoded = decode_all(bytes, DataType::U32).unwrap();
    assert_eq!(decoded.len(), 0);
}

#[test]
fn encode_rejects_values_of_another_tag() {
    let values = vec![Value::I64(1), Value::U8(2)];
    let r = encode_column(&values, DataType::I64, false);
    assert_eq!(
        r,
        Err(ColumnError::UnsupportedDataType { expected: DataType::I64, actual: DataType::U8 })
    );
}

#[test]
fn overlong_run_is_reported_as_corruption() {
    let values = i64_column(&[5]);
    let (mut bytes, _footer) = encode_column(&values, DataType::I64, true).unwrap();
    // data region: one record at offset 11 -- the value's byte, then the
    // run length's byte; stretch the run length past the page's budget
    assert_eq!(bytes[12], 1);
    bytes[12] = 2;
    let r = decode_all(bytes, DataType::I64);
    assert_eq!(
        r,
        Err(ColumnError::NotEnoughValuesInReader { expected_total: 1, actual_total: 2 })
    );
}

#[test]
fn truncated_streams_are_rejected() {
    assert_eq!(decode_all(Vec::new(), DataType::I64), Err(ColumnError::BadMagic));
    let magic_only = b"wmedrano0".to_vec();
    assert_eq!(decode_all(magic_only, DataType::I64), Err(ColumnError::Truncated));
    assert_eq!(decode_footer_impl(&vec![1u8, 2, 3]), Err(ColumnError::Truncated));
}

#[test]
fn malformed_header_is_rejected() {
    let values = i64_column(&[1, 2]);
    let (bytes, _footer) = encode_column(&values, DataType::I64, false).unwrap();
    let mut bad_tag = bytes.clone();
    bad_tag[9] = 200;
    assert_eq!(decode_all(bad_tag, DataType::I64), Err(ColumnError::DecodeFailed));
    let mut bad_flag = bytes.clone();
    bad_flag[10] = 7;
    assert_eq!(decode_all(bad_flag, DataType::I64), Err(ColumnError::DecodeFailed));
}

#[test]
fn rle_never_grows_the_stream_on_repetition() {
    let mut values = Vec::new();
    for i in 0..1000 {
        values.push(Value::I64(i / 100));
    }
    let (raw, raw_footer) = encode_column(&values, DataType::I64, false).unwrap();
    let (rle, rle_footer) = encode_column(&values, DataType::I64, true).unwrap();
    assert!(rle.len() < raw.len());
    let raw_records: usize = raw_footer.pages.iter().map(|p| p.encoded_values_count).sum();
    let rle_records: usize = rle_footer.pages.iter().map(|p| p.encoded_values_count).sum();
    assert_eq!(raw_records, 1000);
    assert_eq!(rle_records, 10);
}

#[test]
fn footer_pages_account_for_every_value() {
    let mut values = Vec::new();
    for i in 0..5000 {
        values.push(Value::U64(i));
    }
    let (_bytes, footer) = encode_column(&values, DataType::U64, false).unwrap();
    assert!(footer.pages.len() > 1);
    let mut total = 0;
    for p in &footer.pages {
        assert!(p.encoded_values_count <= p.values_count);
        total += p.values_count;
    }
    assert_eq!(total, 5000);
}

#[test]
fn iterator_yields_records_lazily() {
    let values = str_column(&["x", "x", "y"]);
    let (bytes, _footer) = encode_column(&values, DataType::Str, true).unwrap();
    let mut it = decode_column(bytes, DataType::Str).unwrap();
    let first = it.next().unwrap().unwrap();
    assert_eq!(first.value, Value::Str("x".to_string()));
    assert_eq!(first.run_length, 2);
    let second = it.next().unwrap().unwrap();
    assert_eq!(second.value, Value::Str("y".to_string()));
    assert_eq!(second.run_length, 1);
    assert!(it.next().is_none());
    assert!(it.next().is_none());
}
