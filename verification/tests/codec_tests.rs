use retasync::codec::{
    canon_eq, decode_canonical, encode_canonical, normalize, tree_eq, CanonValue, CodecError,
};

fn s(text: &str) -> CanonValue {
    CanonValue::Str(text.to_string())
}

fn obj(entries: Vec<(&str, CanonValue)>) -> CanonValue {
    CanonValue::Obj(entries.into_iter().map(|(k, v)| (k.to_string(), v)).collect())
}

#[test]
fn round_trip_is_stable() {
    let sample = obj(vec![
        ("zulu", s("z")),
        ("nested", obj(vec![("alpha", s("a")), ("beta", s("b"))])),
    ]);

    let encoded = encode_canonical(&sample).expect("encode");
    let decoded: CanonValue = decode_canonical(&encoded).expect("decode");

    assert!(canon_eq(&sample, &decoded));
}

#[test]
fn encode_is_insensitive_to_key_order() {
    let first = obj(vec![("b", CanonValue::Int(1)), ("a", CanonValue::Int(2))]);
    let second = obj(vec![("a", CanonValue::Int(2)), ("b", CanonValue::Int(1))]);

    let eb = encode_canonical(&first).expect("encode");
    let ea = encode_canonical(&second).expect("encode");

    assert_eq!(eb, ea);
}

#[test]
fn encode_sorts_nested_keys() {
    let messy = obj(vec![(
        "outer",
        obj(vec![("z", CanonValue::Int(1)), ("a", CanonValue::Int(2))]),
    )]);
    let tidy = obj(vec![(
        "outer",
        obj(vec![("a", CanonValue::Int(2)), ("z", CanonValue::Int(1))]),
    )]);

    assert_eq!(
        encode_canonical(&messy).expect("encode"),
        encode_canonical(&tidy).expect("encode")
    );
}

#[test]
fn scalars_round_trip() {
    for value in [
        CanonValue::Null,
        CanonValue::Bool(true),
        CanonValue::Bool(false),
        CanonValue::Int(0),
        CanonValue::Int(127),
        CanonValue::Int(128),
        CanonValue::Int(-1),
        CanonValue::Int(-32),
        CanonValue::Int(-33),
        CanonValue::Int(i64::MAX),
        CanonValue::Int(i64::MIN),
        s(""),
        s("hello"),
        s("a string that is clearly longer than thirty-one bytes in total"),
        s("ünïcødé ⚙"),
    ] {
        let encoded = encode_canonical(&value).expect("encode");
        let decoded = decode_canonical(&encoded).expect("decode");
        assert!(canon_eq(&value, &decoded));
    }
}

#[test]
fn arrays_keep_order() {
    let arr = CanonValue::Arr(vec![CanonValue::Int(3), CanonValue::Int(1), CanonValue::Int(2)]);
    let encoded = encode_canonical(&arr).expect("encode");
    let decoded = decode_canonical(&encoded).expect("decode");
    // array order is untouched by normalization: structural equality holds
    assert!(tree_eq(&normalize(&arr), &decoded));
    match decoded {
        CanonValue::Arr(items) => {
            assert_eq!(items.len(), 3);
            assert!(matches!(items[0], CanonValue::Int(3)));
            assert!(matches!(items[1], CanonValue::Int(1)));
            assert!(matches!(items[2], CanonValue::Int(2)));
        }
        _ => panic!("expected an array"),
    }
}

#[test]
fn known_byte_layout() {
    // {"a": 1} -> fixmap(1), fixstr "a", positive fixint 1
    let v = obj(vec![("a", CanonValue::Int(1))]);
    let encoded = encode_canonical(&v).expect("encode");
    assert_eq!(encoded, vec![0x81, 0xa1, b'a', 0x01]);

    // null, booleans
    assert_eq!(encode_canonical(&CanonValue::Null).expect("encode"), vec![0xc0]);
    assert_eq!(encode_canonical(&CanonValue::Bool(false)).expect("encode"), vec![0xc2]);
    assert_eq!(encode_canonical(&CanonValue::Bool(true)).expect("encode"), vec![0xc3]);

    // negative fixint
    assert_eq!(encode_canonical(&CanonValue::Int(-1)).expect("encode"), vec![0xff]);
}

#[test]
fn decode_rejects_malformed_bytes() {
    // an unassigned header byte
    match decode_canonical(&[0xc1]) {
        Err(CodecError::DecodeFailure) => {}
        _ => panic!("expected a decode failure"),
    }
    // a truncated 64-bit integer
    match decode_canonical(&[0xd3, 0x00, 0x01]) {
        Err(CodecError::DecodeFailure) => {}
        _ => panic!("expected a decode failure"),
    }
    // trailing bytes after a complete value
    match decode_canonical(&[0xc0, 0xc0]) {
        Err(CodecError::DecodeFailure) => {}
        _ => panic!("expected a decode failure"),
    }
    // empty input
    match decode_canonical(&[]) {
        Err(CodecError::DecodeFailure) => {}
        _ => panic!("expected a decode failure"),
    }
}

#[test]
fn deep_nesting_round_trips() {
    let v = obj(vec![
        ("z", CanonValue::Arr(vec![obj(vec![("k2", s("v2")), ("k1", s("v1"))]), CanonValue::Null])),
        ("a", obj(vec![("inner", CanonValue::Arr(vec![CanonValue::Int(-100), s("x")]))])),
    ]);
    let encoded = encode_canonical(&v).expect("encode");
    let decoded = decode_canonical(&encoded).expect("decode");
    assert!(canon_eq(&v, &decoded));
    // the decoded value is already canonical: re-encoding is byte-identical
    let encoded2 = encode_canonical(&decoded).expect("encode");
    assert_eq!(encoded, encoded2);
}

#[test]
fn string_header_boundary() {
    // exactly 31 bytes: fixstr; 32 bytes: str32 header
    let short = s(&"x".repeat(31));
    let long = s(&"x".repeat(32));
    let eshort = encode_canonical(&short).expect("encode");
    let elong = encode_canonical(&long).expect("encode");
    assert_eq!(eshort[0], 0xa0 + 31);
    assert_eq!(eshort.len(), 32);
    assert_eq!(elong[0], 0xdb);
    assert_eq!(&elong[1..5], &[0, 0, 0, 32]);
    assert!(canon_eq(&long, &decode_canonical(&elong).expect("decode")));
}

#[test]
fn wide_collections_use_long_headers() {
    let items: Vec<CanonValue> = (0..20).map(CanonValue::Int).collect();
    let arr = CanonValue::Arr(items);
    let earr = encode_canonical(&arr).expect("encode");
    assert_eq!(earr[0], 0xdd);
    assert!(canon_eq(&arr, &decode_canonical(&earr).expect("decode")));

    let entries: Vec<(String, CanonValue)> =
        (0..20).map(|i| (format!("key{i:02}"), CanonValue::Int(i))).collect();
    let wide = CanonValue::Obj(entries);
    let ewide = encode_canonical(&wide).expect("encode");
    assert_eq!(ewide[0], 0xdf);
    assert!(canon_eq(&wide, &decode_canonical(&ewide).expect("decode")));
}
