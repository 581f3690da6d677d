use typed_interactions::compile::{decode_payload, structify, typify_driver, SchemaError};
use typed_interactions::decode::{DecodeError, FieldValue, RecordValue, WireEntry};
use typed_interactions::jsonio::parse_schema;
use typed_interactions::name::Name;
use typed_interactions::options::{decode_group, decode_options, encode_options, OptionsValue};
use typed_interactions::schema::{CommandOption, Kind};

fn nm(s: &str) -> Name {
    Name::new(s).unwrap()
}

fn sval(s: &str) -> FieldValue {
    FieldValue::Str(s.as_bytes().to_vec())
}

fn value_entry(name: &str, value: FieldValue) -> WireEntry {
    WireEntry::Value {
        name: name.as_bytes().to_vec(),
        value,
    }
}

fn options_entry(name: &str, entries: Vec<WireEntry>) -> WireEntry {
    WireEntry::Options {
        name: name.as_bytes().to_vec(),
        entries,
    }
}

#[test]
fn deserializes_command_option() {
    let v: serde_json::Value = serde_json::from_str(r#"{"type": 4, "name": "abc"}"#).unwrap();
    let co = parse_schema(&v, 40).unwrap();
    assert_eq!(
        co,
        CommandOption {
            name: nm("abc"),
            kind: Some(Kind::U64),
            options: None,
        }
    );
}

#[test]
fn command_data_no_options() {
    let rt = structify(r#"{"name": "test", "description": "test", "options": []}"#).unwrap();
    assert!(rt.flat);
    assert_eq!(rt.leaves.len(), 1);
    assert_eq!(rt.leaves[0].name, nm("test"));
    assert!(rt.leaves[0].fields.is_empty());
    assert!(rt.groups.is_empty());
    // Decoding anything against the empty record succeeds trivially.
    let junk = vec![value_entry("whatever", FieldValue::U64(1))];
    let out = decode_options(&rt, &junk).unwrap();
    assert_eq!(
        out,
        OptionsValue::Leaf {
            variant: 0,
            record: RecordValue { values: vec![] },
        }
    );
}

#[test]
fn command_data_no_subcommand() {
    let rt = structify(
        r#"{
            "name": "test",
            "description": "test",
            "options": [
                {"name": "opt", "description": "opt1", "type": 3, "required": true}
            ]
        }"#,
    )
    .unwrap();
    assert!(rt.flat);
    assert_eq!(rt.leaves.len(), 1);
    assert_eq!(rt.leaves[0].fields.len(), 1);
    assert_eq!(rt.leaves[0].fields[0].name, nm("opt"));
    assert_eq!(rt.leaves[0].fields[0].kind, Kind::Str);
    let out = decode_options(&rt, &vec![value_entry("opt", sval("hello"))]).unwrap();
    assert_eq!(
        out,
        OptionsValue::Leaf {
            variant: 0,
            record: RecordValue {
                values: vec![sval("hello")],
            },
        }
    );
}

#[test]
fn flat_scenario_defaults_missing_fields() {
    // Scenario A: three string options; a payload naming only `a` yields
    // `a == "x"` and empty strings for the rest.
    let rt = structify(
        r#"{
            "name": "test",
            "options": [
                {"name": "a", "type": 3},
                {"name": "b", "type": 3},
                {"name": "c", "type": 3}
            ]
        }"#,
    )
    .unwrap();
    assert!(rt.flat);
    let payload = r#"{
        "id": "868983602015252520",
        "name": "test",
        "options": [{"name": "a", "value": "x"}]
    }"#;
    let rv = decode_payload(&rt, payload).unwrap();
    assert_eq!(rv.id, b"868983602015252520".to_vec());
    assert_eq!(rv.name, b"test".to_vec());
    assert_eq!(
        rv.options,
        OptionsValue::Leaf {
            variant: 0,
            record: RecordValue {
                values: vec![sval("x"), sval(""), sval("")],
            },
        }
    );
}

fn players_schema() -> &'static str {
    r#"{
        "name": "cmd",
        "options": [
            {
                "type": 2,
                "name": "players",
                "options": [
                    {
                        "type": 1,
                        "name": "add",
                        "options": [{"type": 3, "name": "name", "required": true}]
                    },
                    {
                        "type": 1,
                        "name": "remove",
                        "options": [{"type": 3, "name": "name", "required": true}]
                    }
                ]
            }
        ]
    }"#
}

#[test]
fn group_scenario_decodes_active_member() {
    // Scenario B: the `players` group has members `add` and `remove`;
    // decoding `[{name: "add", options: [{name: "name", value: "bob"}]}]`
    // at the group level yields the `add` member with `name == "bob"`.
    let rt = structify(players_schema()).unwrap();
    assert!(!rt.flat);
    assert_eq!(rt.groups.len(), 1);
    assert_eq!(rt.groups[0].name, nm("players"));
    assert_eq!(rt.groups[0].members.len(), 2);
    assert_eq!(rt.groups[0].members[0].name, nm("add"));
    assert_eq!(rt.groups[0].members[1].name, nm("remove"));

    let group_payload = vec![options_entry(
        "add",
        vec![value_entry("name", sval("bob"))],
    )];
    let (member, record) = decode_group(&rt.groups[0], &group_payload).unwrap();
    assert_eq!(member, 0);
    assert_eq!(record.values, vec![sval("bob")]);

    // The same payload one level up selects the group, then the member.
    let full = vec![options_entry("players", group_payload)];
    let out = decode_options(&rt, &full).unwrap();
    assert_eq!(
        out,
        OptionsValue::Group {
            variant: 0,
            member: 0,
            record: RecordValue {
                values: vec![sval("bob")],
            },
        }
    );
}

#[test]
fn empty_options_terminal_decodes_trivially() {
    // A terminal command with an explicitly empty options array compiles
    // to a record with no fields, and decoding any payload against it
    // succeeds, unexpected contents included.
    let rt = structify(
        r#"{
            "name": "cmd",
            "options": [{"name": "noop", "type": 1, "options": []}]
        }"#,
    )
    .unwrap();
    assert!(!rt.flat);
    assert_eq!(rt.leaves.len(), 1);
    assert_eq!(rt.leaves[0].name, nm("noop"));
    assert!(rt.leaves[0].fields.is_empty());
    let payload = vec![options_entry(
        "noop",
        vec![value_entry("junk", FieldValue::U64(5))],
    )];
    let out = decode_options(&rt, &payload).unwrap();
    assert_eq!(
        out,
        OptionsValue::Leaf {
            variant: 0,
            record: RecordValue { values: vec![] },
        }
    );
}

fn ctf_schema() -> &'static str {
    r#"{
        "name": "ctf",
        "description": "placeholder",
        "options": [
            {
                "type": 1,
                "name": "play",
                "description": "placeholder",
                "options": [
                    {"type": 3, "name": "name", "description": "placeholder", "required": true}
                ]
            },
            {
                "type": 1,
                "name": "archive",
                "description": "placeholder",
                "options": [
                    {"type": 7, "name": "channel", "description": "placeholder"}
                ]
            },
            {
                "type": 1,
                "name": "chall",
                "description": "placeholder",
                "options": [
                    {"type": 3, "name": "name", "description": "placeholder", "required": true}
                ]
            },
            {
                "type": 1,
                "name": "solve",
                "description": "placeholder",
                "options": [
                    {"type": 3, "name": "flag", "description": "placeholder", "required": true},
                    {"type": 7, "name": "channel", "description": "placeholder"},
                    {"type": 4, "name": "points", "description": "placeholder"}
                ]
            },
            {
                "type": 2,
                "name": "players",
                "description": "placeholder",
                "options": [
                    {
                        "type": 1,
                        "name": "add",
                        "description": "placeholder",
                        "options": [
                            {"type": 9, "name": "name", "description": "placeholder", "required": true}
                        ]
                    },
                    {
                        "type": 1,
                        "name": "remove",
                        "description": "placeholder",
                        "options": [
                            {"type": 9, "name": "name", "description": "placeholder", "required": true}
                        ]
                    }
                ]
            }
        ]
    }"#
}

#[test]
fn real_life() {
    let rt = structify(ctf_schema()).unwrap();
    assert_eq!(rt.name, nm("ctf"));
    assert!(!rt.flat);
    let leaf_names: Vec<Name> = rt.leaves.iter().map(|r| r.name).collect();
    assert_eq!(
        leaf_names,
        vec![nm("play"), nm("archive"), nm("chall"), nm("solve")]
    );
    assert_eq!(rt.groups.len(), 1);
    assert_eq!(rt.groups[0].name, nm("players"));

    let solve = &rt.leaves[3];
    let solve_fields: Vec<(Name, Kind)> =
        solve.fields.iter().map(|f| (f.name, f.kind)).collect();
    assert_eq!(
        solve_fields,
        vec![
            (nm("flag"), Kind::Str),
            (nm("channel"), Kind::Str),
            (nm("points"), Kind::U64)
        ]
    );

    let play_payload = r#"{
        "id": "868983602015252520",
        "name": "ctf",
        "options": [
            {"name": "play", "options": [{"name": "name", "value": "howdy"}]}
        ]
    }"#;
    let rv = decode_payload(&rt, play_payload).unwrap();
    assert_eq!(
        rv.options,
        OptionsValue::Leaf {
            variant: 0,
            record: RecordValue {
                values: vec![sval("howdy")],
            },
        }
    );

    let add_payload = r#"{
        "id": "868983602015252520",
        "name": "ctf",
        "options": [
            {
                "name": "players",
                "options": [
                    {"name": "add", "options": [{"name": "name", "value": "174667467509989376"}]}
                ]
            }
        ]
    }"#;
    let rv2 = decode_payload(&rt, add_payload).unwrap();
    let decoded = rv2.options;
    assert_eq!(
        decoded,
        OptionsValue::Group {
            variant: 0,
            member: 0,
            record: RecordValue {
                values: vec![sval("174667467509989376")],
            },
        }
    );

    // Re-encoding the decoded value and decoding it again restores it.
    let wire = encode_options(&rt, &decoded);
    let again = decode_options(&rt, &wire).unwrap();
    assert_eq!(again, decoded);
}

#[test]
fn bad_name_is_reported_with_the_offending_string() {
    let err = structify(r#"{"name": "NotValid", "options": []}"#).unwrap_err();
    assert_eq!(err, SchemaError::BadName("NotValid".to_string()));
}

#[test]
fn bad_type_code_is_rejected() {
    let err =
        structify(r#"{"name": "cmd", "options": [{"name": "a", "type": 12}]}"#).unwrap_err();
    assert_eq!(err, SchemaError::BadType(12));
}

#[test]
fn missing_name_is_rejected() {
    let err = structify(r#"{"options": []}"#).unwrap_err();
    assert_eq!(err, SchemaError::MissingName);
}

#[test]
fn invalid_json_is_rejected() {
    let err = structify("{{not json").unwrap_err();
    assert_eq!(err, SchemaError::Json);
}

#[test]
fn primitive_with_children_is_a_shape_error() {
    let err = structify(
        r#"{"name": "cmd", "options": [{"name": "a", "type": 3, "options": [{"name": "b", "type": 3}]}]}"#,
    )
    .unwrap_err();
    assert_eq!(err, SchemaError::BadShape);
}

#[test]
fn root_without_children_is_rejected() {
    let err = structify(r#"{"name": "cmd"}"#).unwrap_err();
    assert_eq!(err, SchemaError::EmptyRoot);
}

#[test]
fn empty_union_payload_is_a_structural_error() {
    let rt = structify(players_schema()).unwrap();
    let err = decode_options(&rt, &vec![]).unwrap_err();
    assert_eq!(err, DecodeError::EmptyOptions);
}

#[test]
fn unknown_variant_is_an_error() {
    let rt = structify(players_schema()).unwrap();
    let err = decode_options(&rt, &vec![options_entry("zzz", vec![])]).unwrap_err();
    assert_eq!(
        err,
        DecodeError::UnknownVariant {
            name: b"zzz".to_vec(),
        }
    );
}

#[test]
fn known_variant_without_options_is_an_error() {
    let rt = structify(players_schema()).unwrap();
    let err = decode_options(&rt, &vec![value_entry("players", sval("x"))]).unwrap_err();
    assert_eq!(
        err,
        DecodeError::ExpectedOptions {
            name: b"players".to_vec(),
        }
    );
}

#[test]
fn payload_type_mismatch_names_field_and_kind() {
    let rt = structify(ctf_schema()).unwrap();
    let payload = r#"{
        "id": "1",
        "name": "ctf",
        "options": [
            {"name": "solve", "options": [{"name": "points", "value": "many"}]}
        ]
    }"#;
    let err = decode_payload(&rt, payload).unwrap_err();
    assert_eq!(
        err,
        DecodeError::TypeMismatch {
            field: b"points".to_vec(),
            expected: Kind::U64,
        }
    );
}

#[test]
fn typify_driver_compiles_each_schema_independently() {
    let inputs = vec![
        ctf_schema().to_string(),
        players_schema().to_string(),
    ];
    let rts = typify_driver(&inputs).unwrap();
    assert_eq!(rts.len(), 2);
    assert_eq!(rts[0].name, nm("ctf"));
    assert_eq!(rts[1].name, nm("cmd"));

    let bad = vec![ctf_schema().to_string(), "nope".to_string()];
    assert_eq!(typify_driver(&bad).unwrap_err(), SchemaError::Json);
}

#[test]
fn deep_nesting_is_cut_off() {
    let mut doc = String::new();
    for _ in 0..50 {
        doc.push_str(r#"{"name": "a", "options": ["#);
    }
    doc.push_str(r#"{"name": "b", "type": 3}"#);
    for _ in 0..50 {
        doc.push_str("]}");
    }
    let err = structify(&doc).unwrap_err();
    assert_eq!(err, SchemaError::TooDeep);
}
