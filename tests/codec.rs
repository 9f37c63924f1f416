use nbt::decode::{read_compound, read_list};
use nbt::dialect::{Nbt, NbtAfter764, MAX_DEPTH};
use nbt::encode::{fits_on_wire, write_compound, write_list};
use nbt::error::Error;
use nbt::reader::NbtReader;
use nbt::value::Value;
use nbt::writer::NbtWriter;

fn hello_world_named() -> Vec<u8> {
    let mut b = vec![10u8, 0, 11];
    b.extend_from_slice(b"hello world");
    b.extend_from_slice(&[8, 0, 4]);
    b.extend_from_slice(b"name");
    b.extend_from_slice(&[0, 9]);
    b.extend_from_slice(b"Bananrama");
    b.push(0);
    b
}

fn hello_world_anonymous() -> Vec<u8> {
    let mut b = vec![10u8];
    b.extend_from_slice(&[8, 0, 4]);
    b.extend_from_slice(b"name");
    b.extend_from_slice(&[0, 9]);
    b.extend_from_slice(b"Bananrama");
    b.push(0);
    b
}

fn entry(name: &str, v: Value) -> (String, Value) {
    (name.to_string(), v)
}

#[test]
fn test_nbt() {
    let mut data = hello_world_named();
    let mut reader = NbtReader::new(&mut data);
    let value = Nbt::from_reader(&mut reader).unwrap();
    let mut writer = NbtWriter::new();
    Nbt::write_to(&mut writer, &value).unwrap();
    assert_eq!(data, writer.data);
}

#[test]
fn named_root_scenario() {
    let data = hello_world_named();
    let value = Nbt::decode(&data).unwrap();
    assert_eq!(
        value,
        Value::Compound(
            Some("hello world".to_string()),
            vec![entry("name", Value::String("Bananrama".to_string()))]
        )
    );
    assert_eq!(Nbt::encode(&value).unwrap(), data);
}

#[test]
fn anonymous_root_scenario() {
    let data = hello_world_anonymous();
    let value = NbtAfter764::decode(&data).unwrap();
    assert_eq!(
        value,
        Value::Compound(None, vec![entry("name", Value::String("Bananrama".to_string()))])
    );
    assert_eq!(NbtAfter764::encode(&value).unwrap(), data);
}

#[test]
fn int_list_bytes() {
    let list = vec![Value::Int(1), Value::Int(2), Value::Int(3)];
    let mut w = NbtWriter::new();
    write_list(&mut w, &list).unwrap();
    assert_eq!(
        w.get_data(),
        vec![3, 0, 0, 0, 3, 0, 0, 0, 1, 0, 0, 0, 2, 0, 0, 0, 3]
    );
}

#[test]
fn heterogeneous_list_is_rejected() {
    let list = vec![Value::Int(1), Value::Int(2), Value::Byte(3), Value::Short(4)];
    let mut w = NbtWriter::new();
    assert_eq!(
        write_list(&mut w, &list),
        Err(Error::HeterogeneousList { expected: 3, found: 1, index: 2 })
    );
    let root = Value::Compound(None, vec![entry("l", Value::List(list))]);
    assert_eq!(
        Nbt::encode(&root),
        Err(Error::HeterogeneousList { expected: 3, found: 1, index: 2 })
    );
}

#[test]
fn empty_list_is_tag_zero_count_zero() {
    let mut w = NbtWriter::new();
    write_list(&mut w, &vec![]).unwrap();
    assert_eq!(w.get_data(), vec![0, 0, 0, 0, 0]);
}

#[test]
fn root_must_be_compound() {
    assert_eq!(Nbt::decode(&[3, 0, 0]), Err(Error::RootNotCompound { tag: 3 }));
    assert_eq!(NbtAfter764::decode(&[8]), Err(Error::RootNotCompound { tag: 8 }));
    assert_eq!(Nbt::encode(&Value::Int(5)), Err(Error::RootNotCompound { tag: 3 }));
    assert_eq!(
        NbtAfter764::encode(&Value::List(vec![])),
        Err(Error::RootNotCompound { tag: 9 })
    );
    assert_eq!(Nbt::decode(&[]), Err(Error::UnexpectedEndOfInput { offset: 0 }));
}

#[test]
fn every_truncation_fails_with_end_of_input() {
    let data = hello_world_named();
    for k in 0..data.len() {
        match Nbt::decode(&data[..k]) {
            Err(Error::UnexpectedEndOfInput { offset }) => assert!(offset <= k),
            other => panic!("prefix {} gave {:?}", k, other),
        }
    }
    let data = hello_world_anonymous();
    for k in 0..data.len() {
        match NbtAfter764::decode(&data[..k]) {
            Err(Error::UnexpectedEndOfInput { offset }) => assert!(offset <= k),
            other => panic!("prefix {} gave {:?}", k, other),
        }
    }
}

#[test]
fn truncated_field_offsets() {
    let data = hello_world_named();
    // inside the root name's length
    assert_eq!(Nbt::decode(&data[..2]), Err(Error::UnexpectedEndOfInput { offset: 1 }));
    // inside the root name's bytes
    assert_eq!(Nbt::decode(&data[..5]), Err(Error::UnexpectedEndOfInput { offset: 3 }));
    // before the end marker
    assert_eq!(
        Nbt::decode(&data[..data.len() - 1]),
        Err(Error::UnexpectedEndOfInput { offset: data.len() - 1 })
    );
}

#[test]
fn dialects_differ_only_in_root_name() {
    let root = Value::Compound(
        Some("r".to_string()),
        vec![
            entry("a", Value::Short(-2)),
            entry("c", Value::Compound(None, vec![entry("x", Value::Long(7))])),
        ],
    );
    let named = Nbt::encode(&root).unwrap();
    let anon = NbtAfter764::encode(&root).unwrap();
    let mut expected = vec![10u8, 0, 1, b'r'];
    expected.extend_from_slice(&anon[1..]);
    assert_eq!(named, expected);
    assert_eq!(anon[0], 10);
}

#[test]
fn tags_of_every_kind() {
    let values = vec![
        Value::Byte(0),
        Value::Short(0),
        Value::Int(0),
        Value::Long(0),
        Value::Float(0),
        Value::Double(0),
        Value::ByteArray(vec![]),
        Value::String(String::new()),
        Value::List(vec![Value::Byte(1)]),
        Value::Compound(None, vec![]),
        Value::IntArray(vec![]),
        Value::LongArray(vec![]),
    ];
    for (i, v) in values.iter().enumerate() {
        assert_eq!(v.tag() as usize, i + 1);
        assert_eq!(v.tag(), v.tag());
    }
}

#[test]
fn invalid_entry_tag() {
    let data = vec![10u8, 0, 0, 13, 0, 0];
    assert_eq!(Nbt::decode(&data), Err(Error::InvalidTag { tag: 13, offset: 3 }));
}

#[test]
fn invalid_list_element_tag() {
    // list "l" with element tag 0 and one element
    let data = vec![10u8, 9, 0, 1, b'l', 0, 0, 0, 0, 1, 0];
    assert_eq!(NbtAfter764::decode(&data), Err(Error::InvalidTag { tag: 0, offset: 5 }));
}

#[test]
fn invalid_utf8_string() {
    let data = vec![10u8, 8, 0, 1, b's', 0, 2, 0xff, 0xfe, 0];
    assert_eq!(
        NbtAfter764::decode(&data),
        Err(Error::InvalidUtf8 { offset: 7, len: 2 })
    );
}

#[test]
fn negative_list_count() {
    let data = vec![10u8, 9, 0, 1, b'l', 3, 0xff, 0xff, 0xff, 0xff, 0];
    assert_eq!(
        NbtAfter764::decode(&data),
        Err(Error::NegativeLength { length: -1, offset: 6 })
    );
}

#[test]
fn huge_list_count_fails_without_allocating() {
    let data = vec![10u8, 9, 0, 1, b'l', 1, 0x7f, 0xff, 0xff, 0xff, 5];
    assert_eq!(
        NbtAfter764::decode(&data),
        Err(Error::UnexpectedEndOfInput { offset: 11 })
    );
    let data = vec![10u8, 11, 0, 1, b'a', 0x7f, 0xff, 0xff, 0xff, 0];
    assert_eq!(
        NbtAfter764::decode(&data),
        Err(Error::UnexpectedEndOfInput { offset: 9 })
    );
}

#[test]
fn every_kind_round_trips() {
    let root = Value::Compound(
        Some("all".to_string()),
        vec![
            entry("b", Value::Byte(-128)),
            entry("s", Value::Short(-12345)),
            entry("i", Value::Int(i32::MIN)),
            entry("l", Value::Long(-0x0102030405060708)),
            entry("f", Value::Float(1.5f32.to_bits())),
            entry("d", Value::Double(f64::NAN.to_bits() | 1)),
            entry("ba", Value::ByteArray(vec![-1, 0, 1, 127])),
            entry("st", Value::String("h\u{e9}llo \u{1f600}".to_string())),
            entry(
                "li",
                Value::List(vec![
                    Value::List(vec![Value::Long(1)]),
                    Value::List(vec![]),
                ]),
            ),
            entry(
                "lc",
                Value::List(vec![
                    Value::Compound(None, vec![entry("x", Value::Int(1))]),
                    Value::Compound(None, vec![]),
                ]),
            ),
            entry("c", Value::Compound(None, vec![entry("", Value::IntArray(vec![1, -1]))])),
            entry("ia", Value::IntArray(vec![0x01020304, -2])),
            entry("la", Value::LongArray(vec![i64::MAX, i64::MIN])),
            entry("b", Value::Byte(1)),
        ],
    );
    let bytes = Nbt::encode(&root).unwrap();
    let back = Nbt::decode(&bytes).unwrap();
    assert_eq!(back, root);
    assert_eq!(Nbt::encode(&back).unwrap(), bytes);
    let bytes = NbtAfter764::encode(&root).unwrap();
    let back = NbtAfter764::decode(&bytes).unwrap();
    assert_eq!(NbtAfter764::encode(&back).unwrap(), bytes);
}

#[test]
fn float_bits_are_big_endian() {
    let mut w = NbtWriter::new();
    w.write_f32_bits(1.0f32.to_bits());
    w.write_f64_bits((-2.0f64).to_bits());
    let data = w.get_data();
    assert_eq!(data, vec![0x3f, 0x80, 0, 0, 0xc0, 0, 0, 0, 0, 0, 0, 0]);
    let mut r = NbtReader::new(&data);
    assert_eq!(f32::from_bits(r.read_f32_bits().unwrap()), 1.0);
    assert_eq!(f64::from_bits(r.read_f64_bits().unwrap()), -2.0);
}

#[test]
fn primitives_round_trip() {
    let mut w = NbtWriter::new();
    w.write_u8(0xab);
    w.write_i8(-1);
    w.write_i16(-2);
    w.write_i32(0x01020304);
    w.write_i64(-3);
    w.write_string("h\u{e9}");
    let data = w.get_data();
    assert_eq!(
        data,
        vec![
            0xab, 0xff, 0xff, 0xfe, 1, 2, 3, 4, 0xff, 0xff, 0xff, 0xff, 0xff, 0xff, 0xff, 0xfd,
            0, 3, b'h', 0xc3, 0xa9
        ]
    );
    let mut r = NbtReader::new(&data);
    assert_eq!(r.read_u8(), Ok(0xab));
    assert_eq!(r.read_i8(), Ok(-1));
    assert_eq!(r.read_i16(), Ok(-2));
    assert_eq!(r.read_i32(), Ok(0x01020304));
    assert_eq!(r.read_i64(), Ok(-3));
    assert_eq!(r.read_u16(), Ok(3));
    assert_eq!(r.read_string(3), Ok("h\u{e9}".to_string()));
    assert_eq!(r.read_u8(), Err(Error::UnexpectedEndOfInput { offset: 21 }));
    assert_eq!(r.cursor, 21);
}

#[test]
fn failed_reads_do_not_move_the_cursor() {
    let data = vec![0u8, 1, 2];
    let mut r = NbtReader::new(&data);
    assert_eq!(r.read_i32(), Err(Error::UnexpectedEndOfInput { offset: 0 }));
    assert_eq!(r.cursor, 0);
    assert_eq!(r.read_i8_array(4), Err(Error::UnexpectedEndOfInput { offset: 0 }));
    assert_eq!(r.read_string(4), Err(Error::UnexpectedEndOfInput { offset: 0 }));
    assert_eq!(r.read_i16(), Ok(1));
    assert_eq!(r.cursor, 2);
    r.roll_back(2);
    assert_eq!(r.cursor, 0);
    r.roll_down(1);
    assert_eq!(r.read_i8_array(2), Ok(vec![1, 2]));
}

#[test]
fn string_reads_check_utf8() {
    let data = vec![b'o', b'k', 0xc3, 0x28];
    let mut r = NbtReader::new(&data);
    assert_eq!(r.read_string(2), Ok("ok".to_string()));
    assert_eq!(r.read_string(2), Err(Error::InvalidUtf8 { offset: 2, len: 2 }));
    assert_eq!(r.cursor, 2);
}

#[test]
fn arrays_read_big_endian() {
    let data = vec![0u8, 0, 0, 1, 0xff, 0xff, 0xff, 0xfe, 0, 0, 0, 0, 0, 0, 0, 9];
    let mut r = NbtReader::new(&data);
    assert_eq!(r.read_i32_array(2), Ok(vec![1, -2]));
    assert_eq!(r.read_i64_array(1), Ok(vec![9]));
    let mut r = NbtReader::new(&data);
    assert_eq!(r.read_i64_array(3), Err(Error::UnexpectedEndOfInput { offset: 0 }));
}

#[test]
fn legacy_empty_list_tag_is_not_kept() {
    // an empty list whose element tag slot holds 5
    let data = vec![10u8, 9, 0, 1, b'l', 5, 0, 0, 0, 0, 0];
    let value = NbtAfter764::decode(&data).unwrap();
    assert_eq!(value, Value::Compound(None, vec![entry("l", Value::List(vec![]))]));
    assert_eq!(
        NbtAfter764::encode(&value).unwrap(),
        vec![10u8, 9, 0, 1, b'l', 0, 0, 0, 0, 0, 0]
    );
}

#[test]
fn nested_compound_and_list_functions() {
    let data = vec![1u8, 0, 1, b'a', 7, 0];
    let mut r = NbtReader::new(&data);
    assert_eq!(read_compound(&mut r, 4), Ok(vec![entry("a", Value::Byte(7))]));
    assert_eq!(r.cursor, 6);
    let mut w = NbtWriter::new();
    write_compound(&mut w, &vec![entry("a", Value::Byte(7))]).unwrap();
    assert_eq!(w.data, data);
    let data = vec![2u8, 0, 0, 0, 2, 0, 1, 0xff, 0xff];
    let mut r = NbtReader::new(&data);
    assert_eq!(read_list(&mut r, 4), Ok(vec![Value::Short(1), Value::Short(-1)]));
}

#[test]
fn named_root_with_given_name() {
    let root = Value::Compound(None, vec![]);
    let mut w = NbtWriter::new();
    Nbt::write_to_with_name(&mut w, "n", &root).unwrap();
    assert_eq!(w.data, vec![10, 0, 1, b'n', 0]);
    let mut w = NbtWriter::new();
    Nbt::write_to(&mut w, &root).unwrap();
    assert_eq!(w.data, vec![10, 0, 0, 0]);
    let mut w = NbtWriter::new();
    NbtAfter764::write_to_with_name(&mut w, "n", &root).unwrap();
    assert_eq!(w.data, vec![10, 0]);
    let _ = Nbt::new();
    let _ = NbtAfter764::new();
}

#[test]
fn wire_length_limits() {
    let long = "a".repeat(65535);
    assert!(fits_on_wire(&Value::String(long.clone())));
    let too_long = "a".repeat(65536);
    assert!(!fits_on_wire(&Value::String(too_long.clone())));
    let nested = Value::Compound(
        None,
        vec![entry("l", Value::List(vec![Value::String(too_long.clone())]))],
    );
    assert!(!fits_on_wire(&nested));
    let bad_name = Value::Compound(None, vec![(too_long, Value::Byte(0))]);
    assert!(!fits_on_wire(&bad_name));
    let ok = Value::Compound(Some(long), vec![entry("x", Value::IntArray(vec![1, 2]))]);
    assert!(fits_on_wire(&ok));
}

fn nested_lists(levels: usize) -> Vec<u8> {
    // a root holding list "l", whose only element is a list, and so on
    let mut b = vec![10u8, 9, 0, 1, b'l'];
    for _ in 1..levels {
        b.extend_from_slice(&[9, 0, 0, 0, 1]);
    }
    b.extend_from_slice(&[0, 0, 0, 0, 0]);
    b.push(0);
    b
}

#[test]
fn depth_limit() {
    // root, then three levels of lists
    let data = nested_lists(3);
    assert!(NbtAfter764::decode_with_depth(&data, 4).is_ok());
    assert_eq!(
        NbtAfter764::decode_with_depth(&data, 3),
        Err(Error::TooDeep { offset: 15 })
    );
    assert_eq!(
        NbtAfter764::decode_with_depth(&data, 0),
        Err(Error::TooDeep { offset: 0 })
    );
    let value = NbtAfter764::decode_with_depth(&data, 4).unwrap();
    assert_eq!(NbtAfter764::encode(&value).unwrap(), data);
    let deep = nested_lists(MAX_DEPTH + 10);
    assert_eq!(
        NbtAfter764::decode(&deep),
        Err(Error::TooDeep { offset: 5 * MAX_DEPTH })
    );
    let named = Nbt::decode_with_depth(&hello_world_named(), 1).unwrap();
    assert_eq!(named.tag(), 10);
}
