use logforward::codec::{decode_envelope, encode_envelope, Field, FieldValue, Record};

fn text_field(name: &str, value: &str) -> Field {
    Field {
        name: name.as_bytes().to_vec(),
        value: FieldValue::Text(value.as_bytes().to_vec()),
    }
}

fn u64_field(name: &str, value: u64) -> Field {
    Field {
        name: name.as_bytes().to_vec(),
        value: FieldValue::U64(value),
    }
}

fn assert_round_trip(sec: u32, nanos: u32, record: Record) {
    let bytes = encode_envelope(sec, nanos, &record);
    let decoded = decode_envelope(&bytes).expect("an encoded envelope must decode");
    assert_eq!(decoded.0, sec);
    assert_eq!(decoded.1, nanos);
    assert_eq!(decoded.2.fields.len(), record.fields.len());
    for (a, b) in decoded.2.fields.iter().zip(record.fields.iter()) {
        assert_eq!(a.name, b.name);
        match (&a.value, &b.value) {
            (FieldValue::Text(x), FieldValue::Text(y)) => assert_eq!(x, y),
            (FieldValue::U64(x), FieldValue::U64(y)) => assert_eq!(x, y),
            _ => panic!("value kind changed in the round trip"),
        }
    }
}

#[test]
fn event_time_encodes_as_big_endian_ext() {
    // Event time 1_700_000_000.123456789 s.
    let record = Record { fields: vec![text_field("msg", "hello")] };
    let bytes = encode_envelope(1_700_000_000, 123_456_789, &record);
    assert_eq!(bytes[0], 0x92); // two-element array
    assert_eq!(bytes[1], 0xd7); // fixext8
    assert_eq!(bytes[2], 0x00); // subtype 0
    assert_eq!(&bytes[3..7], &1_700_000_000u32.to_be_bytes());
    assert_eq!(&bytes[7..11], &123_456_789u32.to_be_bytes());
}

#[test]
fn self_test_record_has_exact_bytes() {
    let record = Record { fields: vec![u64_field("collect-calls", 1)] };
    let bytes = encode_envelope(0, 0, &record);
    let mut expected: Vec<u8> = vec![0x92, 0xd7, 0x00, 0, 0, 0, 0, 0, 0, 0, 0];
    expected.push(0x81); // map of one entry
    expected.push(0xa0 | 13); // fixstr of 13 bytes
    expected.extend_from_slice(b"collect-calls");
    expected.push(0xcf); // u64
    expected.extend_from_slice(&1u64.to_be_bytes());
    assert_eq!(bytes, expected);
}

#[test]
fn round_trip_simple() {
    assert_round_trip(
        7,
        8,
        Record { fields: vec![text_field("a", "x"), u64_field("n", 42)] },
    );
}

#[test]
fn round_trip_empty_record() {
    assert_round_trip(u32::MAX, u32::MAX, Record { fields: vec![] });
}

#[test]
fn round_trip_str8_and_str16_and_str32_lengths() {
    let mid = "m".repeat(40); // needs the 8-bit string header
    let long = "l".repeat(300); // needs the 16-bit string header
    let huge = "h".repeat(70_000); // needs the 32-bit string header
    assert_round_trip(
        1,
        2,
        Record {
            fields: vec![
                text_field("mid", &mid),
                text_field(&mid, "x"),
                text_field("long", &long),
                text_field(&long, "y"),
                text_field("huge", &huge),
            ],
        },
    );
}

#[test]
fn round_trip_sixteen_fields_uses_map16() {
    let mut fields = Vec::new();
    for i in 0..16u64 {
        fields.push(u64_field(&format!("field-{i}"), i));
    }
    let record = Record { fields };
    let bytes = encode_envelope(3, 4, &record);
    assert_eq!(bytes[11], 0xde); // 16-bit map header
    assert_eq!(&bytes[12..14], &16u16.to_be_bytes());
    assert_round_trip(3, 4, record);
}

#[test]
fn round_trip_u64_extremes() {
    assert_round_trip(
        0,
        999_999_999,
        Record { fields: vec![u64_field("max", u64::MAX), u64_field("min", 0)] },
    );
}

#[test]
fn decode_rejects_non_envelopes() {
    assert!(decode_envelope(&vec![]).is_none());
    assert!(decode_envelope(&vec![0x92, 0xd7, 0x00]).is_none());
    let record = Record { fields: vec![u64_field("k", 5)] };
    let good = encode_envelope(1, 2, &record);
    // wrong array marker
    let mut bad = good.clone();
    bad[0] = 0x93;
    assert!(decode_envelope(&bad).is_none());
    // wrong ext marker
    let mut bad = good.clone();
    bad[1] = 0xd6;
    assert!(decode_envelope(&bad).is_none());
    // truncated
    let mut bad = good.clone();
    bad.pop();
    assert!(decode_envelope(&bad).is_none());
    // trailing garbage
    let mut bad = good.clone();
    bad.push(0);
    assert!(decode_envelope(&bad).is_none());
}

#[test]
fn decode_rejects_non_canonical_headers() {
    let record = Record { fields: vec![] };
    let good = encode_envelope(0, 0, &record);
    assert_eq!(good[11], 0x80);
    // an empty map written with the 16-bit header is not canonical
    let mut bad = good[..11].to_vec();
    bad.push(0xde);
    bad.extend_from_slice(&0u16.to_be_bytes());
    assert!(decode_envelope(&bad).is_none());
}
