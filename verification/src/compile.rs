//! The compile pass: schema text in, assembled type out.
//!
//! Validation and shape errors abort the whole compilation; nothing is
//! generated partially. Decoding a payload afterwards fails only that one
//! decode.

use vstd::prelude::*;
use vstd::string::StrSliceExecFns;
use vstd::utf8::encode_utf8;
use crate::schema::{CommandOption, shape_ok};
use crate::classify::extract_modules;
use crate::assemble::{RootModel, RootType, assemble, assembled_of, root_view, root_wf};
use crate::options::{OptionsModel, OptionsValue, decode_options, decode_options_spec, options_view};
use crate::decode::{
    DecodeError, ErrModel, WireEntry, entries_view, lemma_entries_view,
};
use crate::jsonio::{
    MAX_DEPTH, json_as_array, json_as_string, json_doc_of, json_field_of, json_from_str, json_get,
    json_items_of, json_string_of, lemma_parses_to_same_shape, lemma_wire_parse_deterministic,
    lemma_wire_parses_to_ok, parse_ok, parse_schema, parse_wire_entry, parses_to, wire_parses_to,
};

verus! {

/// Why a compilation failed.
#[derive(Debug, PartialEq)]
pub enum SchemaError {
    /// The document was not JSON of the shape the schema format calls for.
    Json,
    /// A node had no name.
    MissingName,
    /// A raw name broke the length or character-set constraints; it is
    /// carried for the caller to report.
    BadName(String),
    /// A type code outside the fixed mapping.
    BadType(u64),
    /// A primitive-tagged node has an options list, or a terminal command
    /// has a child that cannot become a field.
    BadShape,
    /// The schema root has no children at all.
    EmptyRoot,
    /// The document nests deeper than the supported bound.
    TooDeep,
}

/// Compiles one parsed schema tree into its assembled type. Succeeds
/// exactly on a well-shaped tree whose root has an options list, and then
/// returns exactly the assembled type of the tree.
pub fn compile_schema(root: &CommandOption) -> (r: Result<RootType, SchemaError>)
    ensures
        (r is Ok) == (shape_ok(*root) && root.options is Some),
        match r {
            Ok(rt) => {
                &&& shape_ok(*root)
                &&& root.options is Some
                &&& root_view(rt) == assembled_of(*root)
                &&& root_wf(rt)
            },
            Err(e) => {
                &&& (e matches SchemaError::BadShape <==> !shape_ok(*root))
                &&& (e matches SchemaError::EmptyRoot <==> shape_ok(*root) && root.options
                    is None)
            },
        },
{
    if !root.well_shaped() {
        return Err(SchemaError::BadShape);
    }
    if root.options.is_none() {
        return Err(SchemaError::EmptyRoot);
    }
    let (leaves, groups) = extract_modules(root);
    Ok(assemble(root, &leaves, &groups))
}

/// A schema text compiles to this assembled type: the text parses to a
/// JSON document, the document to a well-shaped rooted schema tree, and
/// that tree assembles to exactly this type.
pub open spec fn compiles_to(input: Seq<char>, rt: RootType) -> bool {
    &&& json_doc_of(input) matches Some(v)
    &&& parse_ok(v, MAX_DEPTH as nat)
    &&& exists|co: CommandOption|
        {
            &&& #[trigger] parses_to(v, co, MAX_DEPTH as nat)
            &&& shape_ok(co)
            &&& co.options is Some
            &&& root_view(rt) == assembled_of(co)
        }
}

/// Compiles one schema document into its assembled type: parse, shape
/// check, classification, assembly. Succeeds exactly when some assembled
/// type compiles from the text, and returns that type.
pub fn structify(input: &str) -> (r: Result<RootType, SchemaError>)
    ensures
        match r {
            Ok(rt) => root_wf(rt) && compiles_to(input@, rt),
            Err(_) => forall|rt2: RootType| !(#[trigger] compiles_to(input@, rt2)),
        },
        r matches Err(SchemaError::BadName(bad)) ==> !crate::name::valid_raw(
            encode_utf8(bad@),
        ),
        r matches Err(SchemaError::BadType(t)) ==> crate::schema::kind_of_tag(t) is None,
{
    let v = match json_from_str(input) {
        Some(v) => v,
        None => {
            return Err(SchemaError::Json);
        },
    };
    let co = match parse_schema(&v, MAX_DEPTH) {
        Ok(co) => co,
        Err(e) => {
            return Err(e);
        },
    };
    match compile_schema(&co) {
        Ok(rt) => {
            proof {
                assert(parses_to(v, co, MAX_DEPTH as nat) && shape_ok(co) && co.options is Some
                    && root_view(rt) == assembled_of(co));
            }
            Ok(rt)
        },
        Err(e) => {
            proof {
                assert forall|rt2: RootType| !(#[trigger] compiles_to(input@, rt2)) by {
                    if compiles_to(input@, rt2) {
                        let co2 = choose|co2: CommandOption|
                            {
                                &&& #[trigger] parses_to(v, co2, MAX_DEPTH as nat)
                                &&& shape_ok(co2)
                                &&& co2.options is Some
                                &&& root_view(rt2) == assembled_of(co2)
                            };
                        lemma_parses_to_same_shape(
                            v,
                            co,
                            co2,
                            MAX_DEPTH as nat,
                            MAX_DEPTH as nat,
                        );
                    }
                }
            }
            Err(e)
        },
    }
}

/// Compiles several independent schema documents, aborting on the first
/// failure: each output is the compiled type of its own input, in order,
/// and a failure names an input no assembled type compiles from. Nothing
/// is shared across the schemas, so equal inputs give equal results.
pub fn typify_driver(inputs: &Vec<String>) -> (r: Result<Vec<RootType>, SchemaError>)
    ensures
        match r {
            Ok(rts) => rts@.len() == inputs@.len() && forall|i: int|
                0 <= i < rts@.len() ==> root_wf(#[trigger] rts@[i]) && compiles_to(
                    inputs@[i]@,
                    rts@[i],
                ),
            Err(_) => exists|i: int|
                #![trigger inputs@[i]]
                0 <= i < inputs@.len() && (forall|rt2: RootType|
                    !(#[trigger] compiles_to(inputs@[i]@, rt2))),
        },
{
    let n = inputs.len();
    let mut out: Vec<RootType> = Vec::new();
    let mut i: usize = 0;
    while i < n
        invariant
            i <= n,
            n == inputs@.len(),
            out@.len() == i,
            forall|j: int|
                0 <= j < out@.len() ==> root_wf(#[trigger] out@[j]) && compiles_to(
                    inputs@[j]@,
                    out@[j],
                ),
        decreases n - i,
    {
        match structify(inputs[i].as_str()) {
            Ok(rt) => out.push(rt),
            Err(e) => {
                proof {
                    assert((i as int) < inputs@.len() && (forall|rt2: RootType|
                        !(#[trigger] compiles_to(inputs@[i as int]@, rt2))));
                }
                return Err(e);
            },
        }
        i = i + 1;
    }
    Ok(out)
}

/// One decoded top-level payload: its id, its command name, and the
/// decoded options value.
#[derive(Debug, PartialEq)]
pub struct RootValue {
    pub id: Vec<u8>,
    pub name: Vec<u8>,
    pub options: OptionsValue,
}

/// A payload document decodes against an assembled type to this value: the
/// document carries an id string, a name string and an options array; the
/// array parses to wire entries, one per element; and the options union
/// decodes from those entries to the value's options.
pub open spec fn payload_decodes_to(rm: RootModel, input: Seq<char>, rv: RootValue) -> bool {
    &&& json_doc_of(input) matches Some(v)
    &&& (json_field_of(v, "id"@) matches Some(iv) && json_string_of(iv) matches Some(ids)
        && rv.id@ == encode_utf8(ids))
    &&& (json_field_of(v, "name"@) matches Some(nv) && json_string_of(nv) matches Some(ns)
        && rv.name@ == encode_utf8(ns))
    &&& (json_field_of(v, "options"@) matches Some(ov) && json_items_of(ov) matches Some(items)
        && exists|es: Seq<WireEntry>|
        #![trigger entries_view(es)]
        {
            &&& es.len() == items.len()
            &&& forall|i: int|
                0 <= i < items.len() ==> wire_parses_to(
                    items[i],
                    #[trigger] es[i],
                    MAX_DEPTH as nat,
                )
            &&& decode_options_spec(rm, entries_view(es)) == Ok::<OptionsModel, ErrModel>(
                options_view(rv.options),
            )
        })
}

/// Decodes one payload document against an assembled type: reads `id`,
/// `name` and the `options` array, turns the array into wire entries, and
/// decodes the options union from them. Succeeds exactly when the document
/// decodes to some payload value, and returns that value.
#[verifier::loop_isolation(false)]
pub fn decode_payload(rt: &RootType, input: &str) -> (r: Result<RootValue, DecodeError>)
    requires
        root_wf(*rt),
    ensures
        match r {
            Ok(rv) => payload_decodes_to(root_view(*rt), input@, rv),
            Err(_) => forall|rv2: RootValue|
                !(#[trigger] payload_decodes_to(root_view(*rt), input@, rv2)),
        },
{
    let v = match json_from_str(input) {
        Some(v) => v,
        None => {
            return Err(DecodeError::Malformed);
        },
    };
    let id: Vec<u8> = match json_get(&v, "id") {
        Some(iv) => match json_as_string(iv) {
            Some(s) => s.as_str().as_bytes_vec(),
            None => {
                return Err(DecodeError::Malformed);
            },
        },
        None => {
            return Err(DecodeError::Malformed);
        },
    };
    let name: Vec<u8> = match json_get(&v, "name") {
        Some(nv) => match json_as_string(nv) {
            Some(s) => s.as_str().as_bytes_vec(),
            None => {
                return Err(DecodeError::Malformed);
            },
        },
        None => {
            return Err(DecodeError::Malformed);
        },
    };
    let ov = match json_get(&v, "options") {
        Some(ov) => ov,
        None => {
            return Err(DecodeError::Malformed);
        },
    };
    let arr = match json_as_array(ov) {
        Some(a) => a,
        None => {
            return Err(DecodeError::Malformed);
        },
    };
    let ghost items = json_items_of(*ov)->0;
    let n = arr.len();
    let mut entries: Vec<WireEntry> = Vec::new();
    let mut i: usize = 0;
    while i < n
        invariant
            i <= n,
            entries@.len() == i,
            forall|j: int|
                0 <= j < i ==> wire_parses_to(items[j], #[trigger] entries@[j], MAX_DEPTH as nat),
        decreases n - i,
    {
        match parse_wire_entry(arr[i], MAX_DEPTH) {
            Ok(e) => entries.push(e),
            Err(e) => {
                proof {
                    assert forall|rv2: RootValue|
                        !(#[trigger] payload_decodes_to(root_view(*rt), input@, rv2)) by {
                        if payload_decodes_to(root_view(*rt), input@, rv2) {
                            let es = choose|es: Seq<WireEntry>|
                                #![trigger entries_view(es)]
                                {
                                    &&& es.len() == items.len()
                                    &&& forall|j: int|
                                        0 <= j < items.len() ==> wire_parses_to(
                                            items[j],
                                            #[trigger] es[j],
                                            MAX_DEPTH as nat,
                                        )
                                    &&& decode_options_spec(root_view(*rt), entries_view(es))
                                        == Ok::<OptionsModel, ErrModel>(options_view(rv2.options))
                                };
                            lemma_wire_parses_to_ok(
                                items[i as int],
                                es[i as int],
                                MAX_DEPTH as nat,
                            );
                        }
                    }
                }
                return Err(e);
            },
        }
        i = i + 1;
    }
    match decode_options(rt, &entries) {
        Ok(opts) => {
            proof {
                assert(decode_options_spec(root_view(*rt), entries_view(entries@)) == Ok::<
                    OptionsModel,
                    ErrModel,
                >(options_view(opts)));
            }
            Ok(RootValue { id, name, options: opts })
        },
        Err(e) => {
            proof {
                lemma_entries_view(entries@);
                assert forall|rv2: RootValue|
                    !(#[trigger] payload_decodes_to(root_view(*rt), input@, rv2)) by {
                    if payload_decodes_to(root_view(*rt), input@, rv2) {
                        let es = choose|es: Seq<WireEntry>|
                            #![trigger entries_view(es)]
                            {
                                &&& es.len() == items.len()
                                &&& forall|j: int|
                                    0 <= j < items.len() ==> wire_parses_to(
                                        items[j],
                                        #[trigger] es[j],
                                        MAX_DEPTH as nat,
                                    )
                                &&& decode_options_spec(root_view(*rt), entries_view(es)) == Ok::<
                                    OptionsModel,
                                    ErrModel,
                                >(options_view(rv2.options))
                            };
                        lemma_entries_view(es);
                        assert forall|j: int|
                            0 <= j < entries_view(entries@).len() implies entries_view(
                            entries@,
                        )[j] == entries_view(es)[j] by {
                            lemma_wire_parse_deterministic(
                                items[j],
                                entries@[j],
                                es[j],
                                MAX_DEPTH as nat,
                                MAX_DEPTH as nat,
                            );
                        }
                        assert(entries_view(entries@) =~= entries_view(es));
                    }
                }
            }
            Err(e)
        },
    }
}

} // verus!
