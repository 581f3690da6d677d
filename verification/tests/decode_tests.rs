use typed_interactions::decode::{
    decode_record, encode_record, DecodeError, FieldValue, RecordValue, WireEntry,
};
use typed_interactions::name::Name;
use typed_interactions::records::{Field, RecordType};
use typed_interactions::schema::Kind;

fn nm(s: &str) -> Name {
    Name::new(s).unwrap()
}

fn record_type(name: &str, fields: &[(&str, Kind)]) -> RecordType {
    RecordType {
        name: nm(name),
        fields: fields
            .iter()
            .map(|(n, k)| Field { name: nm(n), kind: *k })
            .collect(),
    }
}

fn sval(s: &str) -> FieldValue {
    FieldValue::Str(s.as_bytes().to_vec())
}

fn value_entry(name: &str, value: FieldValue) -> WireEntry {
    WireEntry::Value {
        name: name.as_bytes().to_vec(),
        value,
    }
}

fn options_entry(name: &str, entries: Vec<WireEntry>) -> WireEntry {
    WireEntry::Options {
        name: name.as_bytes().to_vec(),
        entries,
    }
}

#[test]
fn deser_impl() {
    // Three fields in order; every tag present once decodes positionally.
    let rt = record_type(
        "opts",
        &[("abc", Kind::Str), ("def", Kind::Str), ("ghi", Kind::U64)],
    );
    let entries = vec![
        value_entry("abc", sval("x")),
        value_entry("def", sval("y")),
        value_entry("ghi", FieldValue::U64(7)),
    ];
    let rv = decode_record(&rt, &entries).unwrap();
    assert_eq!(rv.values, vec![sval("x"), sval("y"), FieldValue::U64(7)]);
}

#[test]
fn missing_fields_get_defaults() {
    let rt = record_type(
        "opts",
        &[("a", Kind::Str), ("b", Kind::Bool), ("c", Kind::U64)],
    );
    let rv = decode_record(&rt, &vec![]).unwrap();
    assert_eq!(
        rv.values,
        vec![sval(""), FieldValue::Bool(false), FieldValue::U64(0)]
    );
}

#[test]
fn duplicate_tag_last_wins() {
    let rt = record_type("opts", &[("a", Kind::U64)]);
    let entries = vec![
        value_entry("a", FieldValue::U64(1)),
        value_entry("a", FieldValue::U64(2)),
    ];
    for _ in 0..3 {
        let rv = decode_record(&rt, &entries).unwrap();
        assert_eq!(rv.values, vec![FieldValue::U64(2)]);
    }
    let tripled = vec![
        value_entry("a", FieldValue::U64(1)),
        value_entry("a", FieldValue::U64(2)),
        value_entry("a", FieldValue::U64(3)),
    ];
    let rv = decode_record(&rt, &tripled).unwrap();
    assert_eq!(rv.values, vec![FieldValue::U64(3)]);
}

#[test]
fn unknown_tags_are_ignored() {
    let rt = record_type("opts", &[("a", Kind::Str)]);
    let entries = vec![
        value_entry("zzz", FieldValue::U64(9)),
        value_entry("a", sval("v")),
        options_entry("other", vec![]),
    ];
    let rv = decode_record(&rt, &entries).unwrap();
    assert_eq!(rv.values, vec![sval("v")]);
}

#[test]
fn type_mismatch_is_an_error() {
    let rt = record_type("opts", &[("points", Kind::U64)]);
    let entries = vec![value_entry("points", sval("many"))];
    let err = decode_record(&rt, &entries).unwrap_err();
    assert_eq!(
        err,
        DecodeError::TypeMismatch {
            field: b"points".to_vec(),
            expected: Kind::U64,
        }
    );
}

#[test]
fn nested_entry_for_a_field_is_a_mismatch() {
    let rt = record_type("opts", &[("a", Kind::Str)]);
    let entries = vec![options_entry("a", vec![])];
    let err = decode_record(&rt, &entries).unwrap_err();
    assert_eq!(
        err,
        DecodeError::TypeMismatch {
            field: b"a".to_vec(),
            expected: Kind::Str,
        }
    );
}

#[test]
fn empty_record_decodes_from_anything() {
    let rt = record_type("noop", &[]);
    let entries = vec![
        value_entry("junk", FieldValue::U64(1)),
        options_entry("more", vec![value_entry("deep", sval("x"))]),
    ];
    let rv = decode_record(&rt, &entries).unwrap();
    assert_eq!(rv.values, Vec::<FieldValue>::new());
}

#[test]
fn round_trip_all_default() {
    let rt = record_type(
        "opts",
        &[("a", Kind::Str), ("b", Kind::Bool), ("c", Kind::U64)],
    );
    let rv = decode_record(&rt, &vec![]).unwrap();
    let wire = encode_record(&rt, &rv);
    let back = decode_record(&rt, &wire).unwrap();
    assert_eq!(back, rv);
}

#[test]
fn round_trip_all_populated() {
    let rt = record_type(
        "opts",
        &[("a", Kind::Str), ("b", Kind::Bool), ("c", Kind::U64)],
    );
    let rv = RecordValue {
        values: vec![sval("hello"), FieldValue::Bool(true), FieldValue::U64(42)],
    };
    let wire = encode_record(&rt, &rv);
    let back = decode_record(&rt, &wire).unwrap();
    assert_eq!(back, rv);
}

#[test]
fn encode_tags_fields_with_stable_names() {
    let rt = record_type("opts", &[("play-now", Kind::Bool)]);
    let rv = RecordValue {
        values: vec![FieldValue::Bool(true)],
    };
    let wire = encode_record(&rt, &rv);
    assert_eq!(
        wire,
        vec![value_entry("play_now", FieldValue::Bool(true))]
    );
}
