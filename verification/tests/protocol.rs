use rufsm::protocol::{DataValue, DefaultProtocolReader, DefaultProtocolWriter};

fn written(f: impl Fn(&mut DefaultProtocolWriter)) -> Vec<u8> {
    let mut w = DefaultProtocolWriter::new(Vec::new());
    f(&mut w);
    w.close();
    assert!(!w.has_error());
    w.get_writer().clone()
}

#[test]
fn protocol_small_numbers_take_one_byte() {
    assert_eq!(written(|w| w.write_uint(5)), vec![0x25]);
    assert_eq!(written(|w| w.write_uint(0)), vec![0x20]);
    assert_eq!(written(|w| w.write_uint(15)), vec![0x2F]);
}

#[test]
fn protocol_larger_numbers_carry_extra_bytes() {
    assert_eq!(written(|w| w.write_uint(300)), vec![0x31, 0x2C]);
    assert_eq!(written(|w| w.write_uint(0x12345)), vec![0x41, 0x23, 0x45]);
}

#[test]
fn protocol_numbers_round_trip() {
    for v in [0u64, 1, 15, 16, 255, 4095, 4096, 70000, 1 << 40, (1 << 60) - 1] {
        let bytes = written(|w| w.write_uint(v));
        let mut r = DefaultProtocolReader::new(bytes);
        assert_eq!(r.read_uint(), v);
        assert!(!r.has_error());
    }
}

#[test]
fn protocol_strings_and_flags_round_trip() {
    let bytes = written(|w| {
        w.write_version();
        w.write_str("abc");
        w.write_boolean(true);
        w.write_boolean(false);
        w.write_option_string(&None);
        w.write_option_string(&Some("a somewhat longer text of more than sixteen bytes".to_string()));
        w.write_usize(42);
        w.write_u8(7);
    });
    let mut r = DefaultProtocolReader::new(bytes);
    r.verify_version();
    assert_eq!(r.read_string(), "abc");
    assert!(r.read_boolean());
    assert!(!r.read_boolean());
    assert_eq!(r.read_option_string(), None);
    assert_eq!(
        r.read_option_string(),
        Some("a somewhat longer text of more than sixteen bytes".to_string())
    );
    assert_eq!(r.read_usize(), 42);
    assert_eq!(r.read_u8(), 7);
    assert!(!r.has_error());
    r.close();
}

#[test]
fn protocol_string_layout() {
    assert_eq!(written(|w| w.write_str("abc")), vec![0xB3, b'a', b'b', b'c']);
    assert_eq!(written(|w| w.write_boolean(true)), vec![0x11]);
    assert_eq!(written(|w| w.write_boolean(false)), vec![0x12]);
    assert_eq!(written(|w| w.write_option_string(&None)), vec![0x13]);
}

#[test]
fn protocol_reading_past_the_end_is_an_error() {
    let mut r = DefaultProtocolReader::new(Vec::new());
    let _ = r.read_uint();
    assert!(r.has_error());
}

#[test]
fn protocol_wrong_version_is_an_error() {
    let bytes = written(|w| w.write_str("OTHER1"));
    let mut r = DefaultProtocolReader::new(bytes);
    r.verify_version();
    assert!(r.has_error());
}

fn describe(v: &DataValue) -> String {
    match v {
        DataValue::Null() => "null".to_string(),
        DataValue::Integer(i) => format!("{}", i),
        DataValue::Double(t) => format!("d{}", t),
        DataValue::String(s) => format!("'{}'", s),
        DataValue::Boolean(b) => format!("{}", b),
        DataValue::Array(items) => {
            format!("[{}]", items.iter().map(describe).collect::<Vec<_>>().join(","))
        }
        DataValue::Dict(entries) => format!(
            "{{{}}}",
            entries
                .iter()
                .map(|(k, v)| format!("{}:{}", k, describe(v)))
                .collect::<Vec<_>>()
                .join(",")
        ),
    }
}

#[test]
fn protocol_data_values_round_trip() {
    let value = DataValue::Array(vec![
        DataValue::Null(),
        DataValue::Integer(-1234),
        DataValue::Double("1.5".to_string()),
        DataValue::String("text".to_string()),
        DataValue::Boolean(true),
        DataValue::Dict(vec![
            ("a".to_string(), DataValue::Integer(1)),
            ("b".to_string(), DataValue::Array(vec![])),
        ]),
    ]);
    let bytes = written(|w| w.write_data_value(&value));
    let mut r = DefaultProtocolReader::new(bytes);
    let back = r.read_data_value();
    assert!(!r.has_error());
    assert_eq!(describe(&back), describe(&value));
    assert_eq!(describe(&back), "[null,-1234,d1.5,'text',true,{a:1,b:[]}]");
}

#[test]
fn protocol_later_map_entries_replace_earlier_ones() {
    let value = DataValue::Dict(vec![
        ("a".to_string(), DataValue::Integer(1)),
        ("a".to_string(), DataValue::Integer(2)),
    ]);
    let bytes = written(|w| w.write_data_value(&value));
    let mut r = DefaultProtocolReader::new(bytes);
    assert_eq!(describe(&r.read_data_value()), "{a:2}");
}

#[test]
fn protocol_bad_double_text_is_an_error() {
    let value = DataValue::Double("1.5x".to_string());
    let bytes = written(|w| w.write_data_value(&value));
    let mut r = DefaultProtocolReader::new(bytes);
    let _ = r.read_data_value();
    assert!(r.has_error());
}
