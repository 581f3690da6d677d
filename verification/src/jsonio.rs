//! The JSON boundary: reading schema documents and wire payloads.
//!
//! JSON values are opaque here; each accessor below is a trusted wrapper
//! around one `serde_json` function. Everything built from what they hand
//! back — name validation, the type-tag mapping, the tree shape, the wire
//! entries — is constructed and checked by verified code.

use vstd::prelude::*;
use vstd::string::StrSliceExecFns;
use vstd::string::StringSliceAdditionalSpecFns;
use vstd::utf8::encode_utf8;
use serde_json::Value;
use crate::name::{Name, forms_of, valid_raw};
use crate::schema::{
    CommandOption, Kind, children_of, field_child_ok, is_terminal, kind_of_tag, parse_kind,
    shape_ok,
};
use crate::decode::{
    DecodeError, FieldValue, ValModel, WireEntry, entries_view, entry_view, lemma_entries_view,
    val_view, wire_name_of,
};
use crate::compile::SchemaError;

verus! {

#[verifier::external_type_specification]
#[verifier::external_body]
pub struct ExValue(Value);

/// The JSON value a document parses to, or nothing when the text is not
/// JSON the parser takes. A function of the text alone.
pub uninterp spec fn json_doc_of(s: Seq<char>) -> Option<Value>;

/// The value under a key of a JSON object, or nothing when the value is no
/// object or lacks the key.
pub uninterp spec fn json_field_of(v: Value, key: Seq<char>) -> Option<Value>;

/// The characters of a JSON string value, or nothing for any other value.
pub uninterp spec fn json_string_of(v: Value) -> Option<Seq<char>>;

/// A JSON number as an unsigned integer, or nothing when the value is no
/// number or does not fit.
pub uninterp spec fn json_uint_of(v: Value) -> Option<u64>;

/// A JSON boolean, or nothing for any other value.
pub uninterp spec fn json_bool_of(v: Value) -> Option<bool>;

/// The elements of a JSON array, or nothing for any other value.
pub uninterp spec fn json_items_of(v: Value) -> Option<Seq<Value>>;

/// Whether a JSON value is null.
pub uninterp spec fn json_null_of(v: Value) -> bool;

/// Deepest schema or payload nesting the parsers follow. Each node costs
/// two levels of raw JSON nesting, so this stays safely below the JSON
/// parser's own recursion limit and the cutoff is the library's.
pub const MAX_DEPTH: u64 = 40;

/// Relies on serde_json::from_str::<Value>: parses a JSON document. The
/// result is a function of the text alone.
#[verifier::external_body]
pub(crate) fn json_from_str(s: &str) -> (r: Option<Value>)
    ensures
        r == json_doc_of(s@),
{
    match serde_json::from_str::<Value>(s) {
        Ok(v) => Some(v),
        Err(_) => None,
    }
}

/// Relies on serde_json::Value::get: looks a key up in a JSON object.
#[verifier::external_body]
pub(crate) fn json_get<'a>(v: &'a Value, key: &str) -> (r: Option<&'a Value>)
    ensures
        match r {
            Some(f) => json_field_of(*v, key@) == Some(*f),
            None => json_field_of(*v, key@) is None,
        },
{
    v.get(key)
}

/// Relies on serde_json::Value::as_str: the contents of a JSON string.
#[verifier::external_body]
pub(crate) fn json_as_string(v: &Value) -> (r: Option<String>)
    ensures
        match r {
            Some(s) => json_string_of(*v) == Some(s@),
            None => json_string_of(*v) is None,
        },
{
    match v.as_str() {
        Some(s) => Some(s.to_string()),
        None => None,
    }
}

/// Relies on serde_json::Value::as_u64: a JSON number as an unsigned
/// integer, when it is one.
#[verifier::external_body]
pub(crate) fn json_as_u64(v: &Value) -> (r: Option<u64>)
    ensures
        r == json_uint_of(*v),
{
    v.as_u64()
}

/// Relies on serde_json::Value::as_bool: a JSON boolean.
#[verifier::external_body]
pub(crate) fn json_as_bool(v: &Value) -> (r: Option<bool>)
    ensures
        r == json_bool_of(*v),
{
    v.as_bool()
}

/// Relies on serde_json::Value::as_array: the elements of a JSON array.
#[verifier::external_body]
pub(crate) fn json_as_array<'a>(v: &'a Value) -> (r: Option<Vec<&'a Value>>)
    ensures
        match r {
            Some(arr) => json_items_of(*v) matches Some(items) && items.len() == arr@.len()
                && forall|i: int| 0 <= i < arr@.len() ==> items[i] == *(#[trigger] arr@[i]),
            None => json_items_of(*v) is None,
        },
{
    match v.as_array() {
        Some(a) => Some(a.iter().collect()),
        None => None,
    }
}

/// Relies on serde_json::Value::is_null: whether a value is JSON null.
#[verifier::external_body]
pub(crate) fn json_is_null(v: &Value) -> (r: bool)
    ensures
        r == json_null_of(*v),
{
    v.is_null()
}

/// The name field of a schema node is present, a string, and a valid raw
/// name.
pub open spec fn name_ok(v: Value) -> bool {
    json_field_of(v, "name"@) matches Some(nv) && json_string_of(nv) matches Some(s)
        && valid_raw(encode_utf8(s))
}

/// The node's name carries exactly the forms derived from the document's
/// name string.
pub open spec fn name_clause(v: Value, name: Name) -> bool {
    json_field_of(v, "name"@) matches Some(nv) && json_string_of(nv) matches Some(s)
        && valid_raw(encode_utf8(s)) && name@ == forms_of(encode_utf8(s))
}

/// The type field of a schema node is absent or a code of the fixed
/// mapping.
pub open spec fn type_ok(v: Value) -> bool {
    match json_field_of(v, "type"@) {
        None => true,
        Some(tv) => json_uint_of(tv) matches Some(t) && kind_of_tag(t) is Some,
    }
}

/// The node's tag is exactly the mapped type code, or absent together with
/// the field.
pub open spec fn type_clause(v: Value, kind: Option<Kind>) -> bool {
    match json_field_of(v, "type"@) {
        None => kind is None,
        Some(tv) => json_uint_of(tv) matches Some(t) && kind_of_tag(t) is Some && kind
            == kind_of_tag(t),
    }
}

/// Whether the schema parser accepts this JSON value within this depth
/// budget: a valid name, a mapped or absent type code, and an absent, null
/// or array-of-acceptable-nodes options field.
pub open spec fn parse_ok(v: Value, fuel: nat) -> bool
    decreases fuel,
{
    &&& fuel > 0
    &&& name_ok(v)
    &&& type_ok(v)
    &&& match json_field_of(v, "options"@) {
        None => true,
        Some(ov) => json_null_of(ov) || (json_items_of(ov) matches Some(items) && forall|i: int|
            0 <= i < items.len() ==> parse_ok(#[trigger] items[i], (fuel - 1) as nat)),
    }
}

/// The schema node this JSON value parses to: name forms, tag and children
/// are all pinned by the document's contents. An absent or null options
/// field gives a node without a list; an array gives one child per
/// element, in order.
pub open spec fn parses_to(v: Value, co: CommandOption, fuel: nat) -> bool
    decreases fuel,
{
    &&& fuel > 0
    &&& name_clause(v, co.name)
    &&& type_clause(v, co.kind)
    &&& match json_field_of(v, "options"@) {
        None => co.options is None,
        Some(ov) => if json_null_of(ov) {
            co.options is None
        } else {
            &&& json_items_of(ov) matches Some(items)
            &&& co.options matches Some(cs)
            &&& cs@.len() == items.len()
            &&& forall|i: int|
                0 <= i < items.len() ==> parses_to(items[i], #[trigger] cs@[i], (fuel - 1) as nat)
        },
    }
}

/// A value some node parses from is one the parser accepts.
pub proof fn lemma_parses_to_ok(v: Value, co: CommandOption, fuel: nat)
    requires
        parses_to(v, co, fuel),
    ensures
        parse_ok(v, fuel),
    decreases fuel,
{
    match json_field_of(v, "options"@) {
        None => {},
        Some(ov) => {
            if !json_null_of(ov) {
                let items = json_items_of(ov)->0;
                let cs = co.options->0;
                assert forall|i: int| 0 <= i < items.len() implies parse_ok(
                    #[trigger] items[i],
                    (fuel - 1) as nat,
                ) by {
                    assert(parses_to(items[i], cs@[i], (fuel - 1) as nat));
                    lemma_parses_to_ok(items[i], cs@[i], (fuel - 1) as nat);
                }
            }
        },
    }
}

/// Two nodes parsed from the same value have the same tags and the same
/// children layout, so they are well-shaped together or not at all.
pub proof fn lemma_parses_to_same_shape(
    v: Value,
    co1: CommandOption,
    co2: CommandOption,
    f1: nat,
    f2: nat,
)
    requires
        parses_to(v, co1, f1),
        parses_to(v, co2, f2),
    ensures
        shape_ok(co1) == shape_ok(co2),
        (co1.options is Some) == (co2.options is Some),
    decreases f1,
{
    match json_field_of(v, "options"@) {
        None => {},
        Some(ov) => {
            if !json_null_of(ov) {
                let items = json_items_of(ov)->0;
                let cs1 = co1.options->0;
                let cs2 = co2.options->0;
                assert forall|i: int| 0 <= i < items.len() implies {
                    &&& ((#[trigger] cs1@[i]).options is Some) == (cs2@[i].options is Some)
                    &&& cs1@[i].kind == cs2@[i].kind
                    &&& shape_ok(cs1@[i]) == shape_ok(cs2@[i])
                } by {
                    assert(parses_to(items[i], cs1@[i], (f1 - 1) as nat));
                    assert(parses_to(items[i], cs2@[i], (f2 - 1) as nat));
                    lemma_parses_to_same_shape(
                        items[i],
                        cs1@[i],
                        cs2@[i],
                        (f1 - 1) as nat,
                        (f2 - 1) as nat,
                    );
                }
                assert(children_of(co1) == cs1@);
                assert(children_of(co2) == cs2@);
                assert(is_terminal(co1) == is_terminal(co2)) by {
                    if is_terminal(co1) {
                        assert forall|i: int|
                            0 <= i < children_of(co2).len() implies (#[trigger] children_of(
                            co2,
                        )[i]).options is None by {
                            assert(children_of(co1)[i].options is None);
                        }
                    }
                    if is_terminal(co2) {
                        assert forall|i: int|
                            0 <= i < children_of(co1).len() implies (#[trigger] children_of(
                            co1,
                        )[i]).options is None by {
                            assert(children_of(co2)[i].options is None);
                        }
                    }
                }
                if shape_ok(co1) {
                    assert(shape_ok(co2)) by {
                        if is_terminal(co2) {
                            assert forall|i: int| 0 <= i < cs2@.len() implies field_child_ok(
                                #[trigger] cs2@[i],
                            ) by {
                                assert(field_child_ok(cs1@[i]));
                            }
                        }
                        assert forall|i: int| 0 <= i < cs2@.len() implies shape_ok(
                            #[trigger] cs2@[i],
                        ) by {
                            assert(shape_ok(cs1@[i]));
                        }
                    }
                }
                if shape_ok(co2) {
                    assert(shape_ok(co1)) by {
                        if is_terminal(co1) {
                            assert forall|i: int| 0 <= i < cs1@.len() implies field_child_ok(
                                #[trigger] cs1@[i],
                            ) by {
                                assert(field_child_ok(cs2@[i]));
                            }
                        }
                        assert forall|i: int| 0 <= i < cs1@.len() implies shape_ok(
                            #[trigger] cs1@[i],
                        ) by {
                            assert(shape_ok(cs2@[i]));
                        }
                    }
                }
            }
        },
    }
}

/// Parses one schema node from a JSON value: a mandatory `name` that must
/// validate, an optional `type` code that must lie in the fixed mapping,
/// and an optional `options` array of nested nodes. Duplicate keys in the
/// document collapse before this sees them, the last occurrence winning;
/// unknown keys are ignored. Succeeds exactly when the parser accepts the
/// value, and the returned node is pinned to the document's contents.
#[verifier::loop_isolation(false)]
pub fn parse_schema(v: &Value, fuel: u64) -> (r: Result<CommandOption, SchemaError>)
    ensures
        (r is Ok) == parse_ok(*v, fuel as nat),
        r matches Ok(co) ==> parses_to(*v, co, fuel as nat),
        r matches Err(SchemaError::BadName(bad)) ==> !valid_raw(encode_utf8(bad@)),
        r matches Err(SchemaError::BadType(t)) ==> kind_of_tag(t) is None,
    decreases fuel,
{
    if fuel == 0 {
        return Err(SchemaError::TooDeep);
    }
    let name_val = match json_get(v, "name") {
        Some(nv) => nv,
        None => {
            return Err(SchemaError::MissingName);
        },
    };
    let name_str = match json_as_string(name_val) {
        Some(s) => s,
        None => {
            return Err(SchemaError::Json);
        },
    };
    let ghost name_chars = name_str@;
    let name = match Name::new(name_str.as_str()) {
        Some(n) => n,
        None => {
            proof {
                assert(!name_ok(*v));
            }
            return Err(SchemaError::BadName(name_str));
        },
    };
    proof {
        assert(name@ == forms_of(encode_utf8(name_chars)));
        assert(name_clause(*v, name));
    }
    let kind: Option<Kind> = match json_get(v, "type") {
        None => None,
        Some(tv) => match json_as_u64(tv) {
            None => {
                return Err(SchemaError::Json);
            },
            Some(t) => match parse_kind(t) {
                Some(k) => Some(k),
                None => {
                    return Err(SchemaError::BadType(t));
                },
            },
        },
    };
    proof {
        assert(type_clause(*v, kind));
    }
    match json_get(v, "options") {
        None => {
            let co = CommandOption { name, kind, options: None };
            proof {
                assert(parses_to(*v, co, fuel as nat));
            }
            Ok(co)
        },
        Some(ov) => {
            if json_is_null(ov) {
                let co = CommandOption { name, kind, options: None };
                proof {
                    assert(parses_to(*v, co, fuel as nat));
                }
                Ok(co)
            } else {
                match json_as_array(ov) {
                    None => Err(SchemaError::Json),
                    Some(arr) => {
                        let ghost items = json_items_of(*ov)->0;
                        let n = arr.len();
                        let mut children: Vec<CommandOption> = Vec::new();
                        let mut i: usize = 0;
                        while i < n
                            invariant
                                i <= n,
                                children@.len() == i,
                                forall|j: int|
                                    0 <= j < i ==> parses_to(
                                        items[j],
                                        #[trigger] children@[j],
                                        (fuel - 1) as nat,
                                    ),
                            decreases n - i,
                        {
                            match parse_schema(arr[i], fuel - 1) {
                                Ok(c) => children.push(c),
                                Err(e) => {
                                    proof {
                                        assert(!parse_ok(items[i as int], (fuel - 1) as nat));
                                    }
                                    return Err(e);
                                },
                            }
                            i = i + 1;
                        }
                        let co = CommandOption { name, kind, options: Some(children) };
                        proof {
                            assert(parses_to(*v, co, fuel as nat));
                            assert forall|j: int| 0 <= j < items.len() implies parse_ok(
                                #[trigger] items[j],
                                (fuel - 1) as nat,
                            ) by {
                                lemma_parses_to_ok(
                                    items[j],
                                    children@[j],
                                    (fuel - 1) as nat,
                                );
                            }
                        }
                        Ok(co)
                    },
                }
            }
        },
    }
}

/// The wire parser accepts this JSON value within this depth budget: a
/// string name, and either a scalar `value` or an `options` array of
/// acceptable entries. A `value` key takes precedence when both appear.
pub open spec fn wire_parse_ok(v: Value, fuel: nat) -> bool
    decreases fuel,
{
    &&& fuel > 0
    &&& (json_field_of(v, "name"@) matches Some(nv) && json_string_of(nv) is Some)
    &&& match json_field_of(v, "value"@) {
        Some(val) => json_string_of(val) is Some || json_uint_of(val) is Some || json_bool_of(
            val,
        ) is Some,
        None => json_field_of(v, "options"@) matches Some(ov) && json_items_of(ov) matches Some(
            items,
        ) && forall|i: int| 0 <= i < items.len() ==> wire_parse_ok(
            #[trigger] items[i],
            (fuel - 1) as nat,
        ),
    }
}

/// The wire entry this JSON value parses to: the tag and the value or the
/// nested entries are pinned by the document's contents. A string value
/// wins over a number, a number over a boolean.
pub open spec fn wire_parses_to(v: Value, e: WireEntry, fuel: nat) -> bool
    decreases fuel,
{
    &&& fuel > 0
    &&& (json_field_of(v, "name"@) matches Some(nv) && json_string_of(nv) matches Some(s)
        && wire_name_of(e) == encode_utf8(s))
    &&& match json_field_of(v, "value"@) {
        Some(val) => e matches WireEntry::Value { value, .. } && (match json_string_of(val) {
            Some(sv) => val_view(value) == ValModel::Str(encode_utf8(sv)),
            None => match json_uint_of(val) {
                Some(u) => val_view(value) == ValModel::U64(u),
                None => json_bool_of(val) matches Some(b) && val_view(value) == ValModel::Bool(b),
            },
        }),
        None => {
            &&& json_field_of(v, "options"@) matches Some(ov)
            &&& json_items_of(ov) matches Some(items)
            &&& e matches WireEntry::Options { entries, .. } && entries@.len() == items.len()
                && forall|i: int|
                0 <= i < items.len() ==> wire_parses_to(
                    items[i],
                    #[trigger] entries@[i],
                    (fuel - 1) as nat,
                )
        },
    }
}

/// A value some wire entry parses from is one the wire parser accepts.
pub proof fn lemma_wire_parses_to_ok(v: Value, e: WireEntry, fuel: nat)
    requires
        wire_parses_to(v, e, fuel),
    ensures
        wire_parse_ok(v, fuel),
    decreases fuel,
{
    match json_field_of(v, "value"@) {
        Some(val) => {},
        None => {
            let items = json_items_of(json_field_of(v, "options"@)->0)->0;
            let entries = e->Options_entries;
            assert forall|i: int| 0 <= i < items.len() implies wire_parse_ok(
                #[trigger] items[i],
                (fuel - 1) as nat,
            ) by {
                assert(wire_parses_to(items[i], entries@[i], (fuel - 1) as nat));
                lemma_wire_parses_to_ok(items[i], entries@[i], (fuel - 1) as nat);
            }
        },
    }
}

/// Two wire entries parsed from the same value stand for the same
/// mathematical entry: the wire parse is deterministic.
pub proof fn lemma_wire_parse_deterministic(
    v: Value,
    e1: WireEntry,
    e2: WireEntry,
    f1: nat,
    f2: nat,
)
    requires
        wire_parses_to(v, e1, f1),
        wire_parses_to(v, e2, f2),
    ensures
        entry_view(e1) == entry_view(e2),
    decreases f1,
{
    match json_field_of(v, "value"@) {
        Some(val) => {},
        None => {
            let items = json_items_of(json_field_of(v, "options"@)->0)->0;
            let en1 = e1->Options_entries;
            let en2 = e2->Options_entries;
            assert forall|i: int| 0 <= i < items.len() implies entry_view(#[trigger] en1@[i])
                == entry_view(en2@[i]) by {
                assert(wire_parses_to(items[i], en1@[i], (f1 - 1) as nat));
                assert(wire_parses_to(items[i], en2@[i], (f2 - 1) as nat));
                lemma_wire_parse_deterministic(
                    items[i],
                    en1@[i],
                    en2@[i],
                    (f1 - 1) as nat,
                    (f2 - 1) as nat,
                );
            }
            lemma_entries_view(en1@);
            lemma_entries_view(en2@);
            assert forall|i: int| 0 <= i < entries_view(en1@).len() implies entries_view(en1@)[i]
                == entries_view(en2@)[i] by {
                assert(entry_view(en1@[i]) == entry_view(en2@[i]));
            }
            assert(entries_view(en1@) =~= entries_view(en2@));
        },
    }
}

/// Parses one wire entry from a JSON value: a mandatory `name`, and either
/// a `value` holding a string, integer or boolean, or an `options` array
/// of nested entries. A `value` key takes precedence when both appear.
/// Succeeds exactly when the wire parser accepts the value, and the
/// returned entry is pinned to the document's contents.
#[verifier::loop_isolation(false)]
pub fn parse_wire_entry(v: &Value, fuel: u64) -> (r: Result<WireEntry, DecodeError>)
    ensures
        (r is Ok) == wire_parse_ok(*v, fuel as nat),
        r matches Ok(e) ==> wire_parses_to(*v, e, fuel as nat),
    decreases fuel,
{
    if fuel == 0 {
        return Err(DecodeError::Malformed);
    }
    let name_val = match json_get(v, "name") {
        Some(nv) => nv,
        None => {
            return Err(DecodeError::Malformed);
        },
    };
    let name: Vec<u8> = match json_as_string(name_val) {
        Some(s) => s.as_str().as_bytes_vec(),
        None => {
            return Err(DecodeError::Malformed);
        },
    };
    match json_get(v, "value") {
        Some(val) => {
            let fv = match json_as_string(val) {
                Some(s) => FieldValue::Str(s.as_str().as_bytes_vec()),
                None => match json_as_u64(val) {
                    Some(u) => FieldValue::U64(u),
                    None => match json_as_bool(val) {
                        Some(b) => FieldValue::Bool(b),
                        None => {
                            return Err(DecodeError::Malformed);
                        },
                    },
                },
            };
            let e = WireEntry::Value { name, value: fv };
            proof {
                assert(wire_parses_to(*v, e, fuel as nat));
            }
            Ok(e)
        },
        None => match json_get(v, "options") {
            Some(ov) => match json_as_array(ov) {
                None => Err(DecodeError::Malformed),
                Some(arr) => {
                    let ghost items = json_items_of(*ov)->0;
                    let n = arr.len();
                    let mut entries: Vec<WireEntry> = Vec::new();
                    let mut i: usize = 0;
                    while i < n
                        invariant
                            i <= n,
                            entries@.len() == i,
                            forall|j: int|
                                0 <= j < i ==> wire_parses_to(
                                    items[j],
                                    #[trigger] entries@[j],
                                    (fuel - 1) as nat,
                                ),
                        decreases n - i,
                    {
                        match parse_wire_entry(arr[i], fuel - 1) {
                            Ok(e) => entries.push(e),
                            Err(e) => {
                                proof {
                                    assert(!wire_parse_ok(items[i as int], (fuel - 1) as nat));
                                }
                                return Err(e);
                            },
                        }
                        i = i + 1;
                    }
                    let e = WireEntry::Options { name, entries };
                    proof {
                        assert(wire_parses_to(*v, e, fuel as nat));
                        assert forall|j: int| 0 <= j < items.len() implies wire_parse_ok(
                            #[trigger] items[j],
                            (fuel - 1) as nat,
                        ) by {
                            lemma_wire_parses_to_ok(
                                items[j],
                                e->Options_entries@[j],
                                (fuel - 1) as nat,
                            );
                        }
                    }
                    Ok(e)
                },
            },
            None => Err(DecodeError::Malformed),
        },
    }
}

} // verus!
