use rkyv::Deserialize;

use ijson::ArchivableJson;
use ijson::ArchivedEntry;
use ijson::IArray;
use ijson::INumber;
use ijson::IObject;
use ijson::IString;
use ijson::IValue;
use ijson::JsonNumber;
use ijson::ObjectEntry;

fn istr(s: &str) -> IString {
    IString::from(s.to_string())
}

/// The tree `{"a": 1, "b": [true, null, 2.5]}`.
fn sample_tree() -> IValue {
    let mut inner = IArray::new();
    inner.push(IValue::Bool(true));
    inner.push(IValue::Null);
    inner.push(IValue::Number(INumber::from_f64_bits(2.5f64.to_bits()).unwrap()));
    IValue::Object(IObject::from_entries(vec![
        ObjectEntry { key: istr("a"), value: IValue::Number(INumber::from_i64(1)) },
        ObjectEntry { key: istr("b"), value: IValue::Array(inner) },
    ]))
}

#[test]
fn test_string_serialization() {
    let s = "hello".to_string();

    let encoded = rkyv::to_bytes::<_, 256>(&s).unwrap();
    let archived = rkyv::check_archived_root::<String>(&encoded[..]).unwrap();
    let text: String = archived.deserialize(&mut rkyv::Infallible).unwrap();
    let decoded: IString = IString::from(text);

    assert_eq!(istr(s.as_str()), decoded);
}

#[test]
fn test_value_round_trip() {
    let original = sample_tree();
    let archived = ArchivableJson::from_value(&original);
    assert!(archived.floats_finite());
    let rebuilt = IValue::from_archived(archived);
    assert_eq!(original, rebuilt);
}

#[test]
fn test_round_trip_all_kinds() {
    let mut arr = IArray::new();
    arr.push(IValue::Null);
    arr.push(IValue::Bool(false));
    arr.push(IValue::Number(INumber::from_i64(-7)));
    arr.push(IValue::Number(INumber::from_u64(u64::MAX)));
    arr.push(IValue::Number(INumber::from_f64_bits((-0.0f64).to_bits()).unwrap()));
    arr.push(IValue::String(istr("")));
    arr.push(IValue::Object(IObject::from_entries(Vec::new())));
    arr.push(IValue::Array(IArray::new()));
    let original = IValue::Array(arr);
    let rebuilt = IValue::from_archived(ArchivableJson::from_value(&original));
    assert_eq!(original, rebuilt);
}

#[test]
fn test_small_whole_number_archives_as_signed() {
    let five = IValue::Number(INumber::from_u64(5));
    let archived = ArchivableJson::from_value(&five);
    assert_eq!(archived, ArchivableJson::Number(JsonNumber::NegInt(5)));
    let rebuilt = IValue::from_archived(archived);
    assert_eq!(rebuilt, IValue::Number(INumber::from_i64(5)));
    assert_eq!(rebuilt, five);
}

#[test]
fn test_large_whole_number_archives_as_unsigned() {
    let big: u64 = i64::MAX as u64 + 1;
    let v = IValue::Number(INumber::from_u64(big));
    let archived = ArchivableJson::from_value(&v);
    assert_eq!(archived, ArchivableJson::Number(JsonNumber::PosInt(big)));
    assert_eq!(IValue::from_archived(archived), v);
}

#[test]
fn test_float_archives_as_float() {
    let v = IValue::Number(INumber::from_f64_bits(2.0f64.to_bits()).unwrap());
    let archived = ArchivableJson::from_value(&v);
    assert_eq!(
        archived,
        ArchivableJson::Number(JsonNumber::Float(2.0f64.to_bits())),
    );
    assert_eq!(IValue::from_archived(archived), v);
}

#[test]
fn test_non_finite_floats_rejected() {
    assert!(INumber::from_f64_bits(f64::NAN.to_bits()).is_none());
    assert!(INumber::from_f64_bits(f64::INFINITY.to_bits()).is_none());
    assert!(INumber::from_f64_bits(f64::NEG_INFINITY.to_bits()).is_none());
    assert!(INumber::from_f64_bits(1.5f64.to_bits()).is_some());

    let bad = ArchivableJson::Array(vec![
        ArchivableJson::Bool(true),
        ArchivableJson::Number(JsonNumber::Float(f64::NAN.to_bits())),
    ]);
    assert!(!bad.floats_finite());

    let bad_obj = ArchivableJson::Object(vec![ArchivedEntry {
        key: "k".to_string(),
        value: ArchivableJson::Number(JsonNumber::Float(f64::INFINITY.to_bits())),
    }]);
    assert!(!bad_obj.floats_finite());

    let good = ArchivableJson::Object(vec![ArchivedEntry {
        key: "k".to_string(),
        value: ArchivableJson::Number(JsonNumber::Float(0.25f64.to_bits())),
    }]);
    assert!(good.floats_finite());
}

#[test]
fn test_object_keys_canonicalized() {
    // Insertion order "b", "a": the archive sorts the entries by key.
    let original = IValue::Object(IObject::from_entries(vec![
        ObjectEntry { key: istr("b"), value: IValue::Number(INumber::from_i64(1)) },
        ObjectEntry { key: istr("a"), value: IValue::Number(INumber::from_i64(2)) },
    ]));
    let archived = ArchivableJson::from_value(&original);
    assert_eq!(
        archived,
        ArchivableJson::Object(vec![
            ArchivedEntry {
                key: "a".to_string(),
                value: ArchivableJson::Number(JsonNumber::NegInt(2)),
            },
            ArchivedEntry {
                key: "b".to_string(),
                value: ArchivableJson::Number(JsonNumber::NegInt(1)),
            },
        ]),
    );
    // Reconstruction keeps the canonical order; objects compare as
    // key-unique mappings, so the round trip is the identity.
    let rebuilt = IValue::from_archived(archived);
    let sorted = IValue::Object(IObject::from_entries(vec![
        ObjectEntry { key: istr("a"), value: IValue::Number(INumber::from_i64(2)) },
        ObjectEntry { key: istr("b"), value: IValue::Number(INumber::from_i64(1)) },
    ]));
    assert_eq!(rebuilt, sorted);
    assert_eq!(rebuilt, original);
}

#[test]
fn test_object_equality_ignores_entry_order() {
    let ab = IValue::Object(IObject::from_entries(vec![
        ObjectEntry { key: istr("a"), value: IValue::Number(INumber::from_i64(1)) },
        ObjectEntry { key: istr("b"), value: IValue::Bool(true) },
    ]));
    let ba = IValue::Object(IObject::from_entries(vec![
        ObjectEntry { key: istr("b"), value: IValue::Bool(true) },
        ObjectEntry { key: istr("a"), value: IValue::Number(INumber::from_i64(1)) },
    ]));
    assert_eq!(ab, ba);

    let other = IValue::Object(IObject::from_entries(vec![
        ObjectEntry { key: istr("b"), value: IValue::Bool(false) },
        ObjectEntry { key: istr("a"), value: IValue::Number(INumber::from_i64(1)) },
    ]));
    assert_ne!(ab, other);

    // A duplicated key counts by its last occurrence.
    let dup = IValue::Object(IObject::from_entries(vec![
        ObjectEntry { key: istr("a"), value: IValue::Null },
        ObjectEntry { key: istr("b"), value: IValue::Bool(true) },
        ObjectEntry { key: istr("a"), value: IValue::Number(INumber::from_i64(1)) },
    ]));
    assert_eq!(dup, ab);
}

#[test]
fn test_unsorted_object_round_trip() {
    let mut inner = IArray::new();
    inner.push(IValue::Object(IObject::from_entries(vec![
        ObjectEntry { key: istr("z"), value: IValue::Null },
        ObjectEntry { key: istr("y"), value: IValue::Number(INumber::from_u64(5)) },
    ])));
    let original = IValue::Object(IObject::from_entries(vec![
        ObjectEntry { key: istr("b"), value: IValue::Array(inner) },
        ObjectEntry { key: istr("a"), value: IValue::Bool(false) },
    ]));
    let rebuilt = IValue::from_archived(ArchivableJson::from_value(&original));
    assert_eq!(rebuilt, original);
}

#[test]
fn test_duplicate_keys_last_occurrence_wins() {
    let original = IValue::Object(IObject::from_entries(vec![
        ObjectEntry { key: istr("k"), value: IValue::Number(INumber::from_i64(1)) },
        ObjectEntry { key: istr("m"), value: IValue::Bool(true) },
        ObjectEntry { key: istr("k"), value: IValue::Number(INumber::from_i64(2)) },
    ]));
    let archived = ArchivableJson::from_value(&original);
    assert_eq!(
        archived,
        ArchivableJson::Object(vec![
            ArchivedEntry {
                key: "k".to_string(),
                value: ArchivableJson::Number(JsonNumber::NegInt(2)),
            },
            ArchivedEntry { key: "m".to_string(), value: ArchivableJson::Bool(true) },
        ]),
    );
}

#[test]
fn test_nested_object_keys_canonicalized() {
    let inner = IValue::Object(IObject::from_entries(vec![
        ObjectEntry { key: istr("z"), value: IValue::Null },
        ObjectEntry { key: istr("y"), value: IValue::Bool(false) },
    ]));
    let original = IValue::Array(IArray::from_vec(vec![inner]));
    let archived = ArchivableJson::from_value(&original);
    assert_eq!(
        archived,
        ArchivableJson::Array(vec![ArchivableJson::Object(vec![
            ArchivedEntry { key: "y".to_string(), value: ArchivableJson::Bool(false) },
            ArchivedEntry { key: "z".to_string(), value: ArchivableJson::Null },
        ])]),
    );
}

#[test]
fn test_archive_preserves_structure() {
    let original = sample_tree();
    let archived = ArchivableJson::from_value(&original);
    match archived {
        ArchivableJson::Object(entries) => {
            assert_eq!(entries.len(), 2);
            assert_eq!(entries[0].key, "a".to_string());
            assert_eq!(entries[0].value, ArchivableJson::Number(JsonNumber::NegInt(1)));
            assert_eq!(entries[1].key, "b".to_string());
            match &entries[1].value {
                ArchivableJson::Array(elems) => {
                    assert_eq!(elems.len(), 3);
                    assert_eq!(elems[0], ArchivableJson::Bool(true));
                    assert_eq!(elems[1], ArchivableJson::Null);
                    assert_eq!(
                        elems[2],
                        ArchivableJson::Number(JsonNumber::Float(2.5f64.to_bits())),
                    );
                },
                other => panic!("expected an array, got {:?}", other),
            }
        },
        other => panic!("expected an object, got {:?}", other),
    }
}

#[test]
fn test_number_accessors() {
    let n = INumber::from_i64(-3);
    assert!(!n.has_decimal_point());
    assert_eq!(n.to_i64(), Some(-3));
    assert_eq!(n.to_u64(), None);

    let n = INumber::from_u64(3);
    assert_eq!(n.to_i64(), Some(3));
    assert_eq!(n.to_u64(), Some(3));

    let n = INumber::from_u64(u64::MAX);
    assert_eq!(n.to_i64(), None);
    assert_eq!(n.to_u64(), Some(u64::MAX));

    let bits = 0.5f64.to_bits();
    let n = INumber::from_f64_bits(bits).unwrap();
    assert!(n.has_decimal_point());
    assert_eq!(n.to_f64_bits(), Some(bits));
    assert_eq!(n.to_i64(), None);
}

#[test]
fn test_value_equality_is_structural() {
    assert_eq!(IValue::Null, IValue::Null);
    assert_ne!(IValue::Null, IValue::Bool(false));
    assert_ne!(
        IValue::Number(INumber::from_i64(2)),
        IValue::Number(INumber::from_f64_bits(2.0f64.to_bits()).unwrap()),
    );
    assert_eq!(istr("abc"), istr("abc"));
    assert_ne!(istr("abc"), istr("abd"));

    let o1 = IValue::Object(IObject::from_entries(vec![ObjectEntry {
        key: istr("x"),
        value: IValue::Bool(true),
    }]));
    let o2 = IValue::Object(IObject::from_entries(vec![ObjectEntry {
        key: istr("x"),
        value: IValue::Bool(true),
    }]));
    let o3 = IValue::Object(IObject::from_entries(vec![ObjectEntry {
        key: istr("y"),
        value: IValue::Bool(true),
    }]));
    assert_eq!(o1, o2);
    assert_ne!(o1, o3);
}
