//! The wire format and the record decoder and encoder.
//!
//! Sibling options travel as an ordered sequence of name-tagged values, not
//! as a keyed map. Decoding a record from such a sequence
//!  * lets the last occurrence of a duplicated tag win,
//!  * ignores unknown tags,
//!  * substitutes a default (empty string, zero, false) for a missing field,
//!  * succeeds trivially for a record with no fields, and
//!  * fails only when a present tag carries a value of the wrong type.

use vstd::prelude::*;
use crate::schema::{Kind, is_primitive};
use crate::records::{Field, RecordType, record_wf};

verus! {

/// A primitive wire value.
#[derive(Debug, PartialEq)]
pub enum FieldValue {
    Str(Vec<u8>),
    U64(u64),
    Bool(bool),
}

/// A primitive wire value, as mathematics.
pub enum ValModel {
    Str(Seq<u8>),
    U64(u64),
    Bool(bool),
}

/// The mathematical value a wire value stands for.
pub open spec fn val_view(v: FieldValue) -> ValModel {
    match v {
        FieldValue::Str(s) => ValModel::Str(s@),
        FieldValue::U64(u) => ValModel::U64(u),
        FieldValue::Bool(b) => ValModel::Bool(b),
    }
}

/// The contents of a sequence of wire values.
pub open spec fn vals_view(s: Seq<FieldValue>) -> Seq<ValModel> {
    s.map_values(|v: FieldValue| val_view(v))
}

/// The primitive tag a value belongs to.
pub open spec fn val_kind(v: ValModel) -> Kind {
    match v {
        ValModel::Str(_) => Kind::Str,
        ValModel::U64(_) => Kind::U64,
        ValModel::Bool(_) => Kind::Bool,
    }
}

/// The default value substituted for a missing field of a primitive tag.
pub open spec fn default_val(k: Kind) -> ValModel {
    match k {
        Kind::Str => ValModel::Str(Seq::empty()),
        Kind::U64 => ValModel::U64(0),
        Kind::Bool => ValModel::Bool(false),
        Kind::Subcommand => ValModel::Bool(false),
    }
}

/// The default wire value for a primitive tag.
pub fn default_value(k: Kind) -> (r: FieldValue)
    requires
        is_primitive(k),
    ensures
        val_view(r) == default_val(k),
{
    match k {
        Kind::Str => {
            let empty: Vec<u8> = Vec::new();
            FieldValue::Str(empty)
        },
        Kind::U64 => FieldValue::U64(0),
        Kind::Bool => FieldValue::Bool(false),
        Kind::Subcommand => vstd::pervasive::unreached(),
    }
}

/// One element of a wire sequence: either a name-tagged leaf value or a
/// name-tagged nested sequence.
#[derive(Debug, PartialEq)]
pub enum WireEntry {
    Value { name: Vec<u8>, value: FieldValue },
    Options { name: Vec<u8>, entries: Vec<WireEntry> },
}

/// A wire-sequence element, as mathematics.
pub enum EntryModel {
    Value { name: Seq<u8>, value: ValModel },
    Options { name: Seq<u8>, entries: Seq<EntryModel> },
}

/// The tag of a wire entry, leaf and nested alike.
pub open spec fn wire_name_of(e: WireEntry) -> Seq<u8> {
    match e {
        WireEntry::Value { name, .. } => name@,
        WireEntry::Options { name, .. } => name@,
    }
}

/// The mathematical entry a wire entry stands for.
pub open spec fn entry_view(e: WireEntry) -> EntryModel
    decreases e,
{
    match e {
        WireEntry::Value { name, value } => EntryModel::Value {
            name: name@,
            value: val_view(value),
        },
        WireEntry::Options { name, entries } => EntryModel::Options {
            name: name@,
            entries: entries_view(entries@),
        },
    }
}

/// The mathematical entries a wire sequence stands for.
pub open spec fn entries_view(es: Seq<WireEntry>) -> Seq<EntryModel>
    decreases es,
{
    if es.len() == 0 {
        seq![]
    } else {
        seq![entry_view(es[0])] + entries_view(es.drop_first())
    }
}

/// A viewed wire sequence has one model entry per wire entry, in order.
pub proof fn lemma_entries_view(es: Seq<WireEntry>)
    ensures
        entries_view(es).len() == es.len(),
        forall|i: int| 0 <= i < es.len() ==> entries_view(es)[i] == entry_view(#[trigger] es[i]),
    decreases es.len(),
{
    if es.len() > 0 {
        lemma_entries_view(es.drop_first());
        assert forall|i: int| 0 <= i < es.len() implies entries_view(es)[i] == entry_view(
            es[i],
        ) by {
            if i > 0 {
                assert(es.drop_first()[i - 1] == es[i]);
            }
        }
    }
}

/// Why a decode failed.
#[derive(Debug, PartialEq)]
pub enum DecodeError {
    /// A present tag carried a value that does not coerce to the named
    /// field's declared primitive type.
    TypeMismatch { field: Vec<u8>, expected: Kind },
    /// A discriminated union was handed a payload with no elements.
    EmptyOptions,
    /// A discriminated union was handed a tag naming none of its variants.
    UnknownVariant { name: Vec<u8> },
    /// A discriminated union was handed a known tag without a nested
    /// sequence to decode its record from.
    ExpectedOptions { name: Vec<u8> },
    /// A wire document did not have the shape the format calls for.
    Malformed,
}

/// A decode failure, as mathematics.
pub enum ErrModel {
    TypeMismatch { field: Seq<u8>, expected: Kind },
    EmptyOptions,
    UnknownVariant { name: Seq<u8> },
    ExpectedOptions { name: Seq<u8> },
    Malformed,
}

/// The mathematical failure a decode error stands for.
pub open spec fn err_view(e: DecodeError) -> ErrModel {
    match e {
        DecodeError::TypeMismatch { field, expected } => ErrModel::TypeMismatch {
            field: field@,
            expected,
        },
        DecodeError::EmptyOptions => ErrModel::EmptyOptions,
        DecodeError::UnknownVariant { name } => ErrModel::UnknownVariant { name: name@ },
        DecodeError::ExpectedOptions { name } => ErrModel::ExpectedOptions { name: name@ },
        DecodeError::Malformed => ErrModel::Malformed,
    }
}

/// The index of the first field whose stable name is `name`, searching from
/// `i`.
pub open spec fn find_field_from(fields: Seq<Field>, name: Seq<u8>, i: int) -> Option<int>
    decreases fields.len() - i,
{
    if i < 0 || i >= fields.len() {
        None
    } else if fields[i].name@.stable == name {
        Some(i)
    } else {
        find_field_from(fields, name, i + 1)
    }
}

/// The index of the first field whose stable name is `name`.
pub open spec fn find_field(fields: Seq<Field>, name: Seq<u8>) -> Option<int> {
    find_field_from(fields, name, 0)
}

/// A found field index lies in bounds and names the field searched for; a
/// miss means no field from the start index on carries the name.
pub proof fn lemma_find_field_from(fields: Seq<Field>, name: Seq<u8>, i: int)
    requires
        0 <= i,
    ensures
        match find_field_from(fields, name, i) {
            Some(j) => i <= j < fields.len() && fields[j].name@.stable == name,
            None => forall|k: int|
                i <= k < fields.len() ==> (#[trigger] fields[k]).name@.stable != name,
        },
    decreases fields.len() - i,
{
    if i < fields.len() && fields[i].name@.stable != name {
        lemma_find_field_from(fields, name, i + 1);
        if find_field_from(fields, name, i) is None {
            assert forall|k: int|
                i <= k < fields.len() implies (#[trigger] fields[k]).name@.stable != name by {
                if k > i {
                    assert(fields[k].name@.stable != name);
                }
            }
        }
    }
}

/// The defaults of a field list, in order.
pub open spec fn defaults_of(fields: Seq<Field>) -> Seq<ValModel> {
    fields.map_values(|f: Field| default_val(f.kind))
}

/// One decode step: how a single wire entry changes the record state.
/// An entry whose tag names no field is ignored; one whose tag names a
/// field overwrites that field when the value fits its type and fails
/// otherwise. A nested sequence never fits a primitive field.
pub open spec fn decode_step(fields: Seq<Field>, st: Seq<ValModel>, e: EntryModel) -> Result<
    Seq<ValModel>,
    ErrModel,
> {
    match e {
        EntryModel::Value { name, value } => match find_field(fields, name) {
            None => Ok(st),
            Some(i) => if val_kind(value) == fields[i].kind {
                Ok(st.update(i, value))
            } else {
                Err(
                    ErrModel::TypeMismatch {
                        field: fields[i].name@.stable,
                        expected: fields[i].kind,
                    },
                )
            },
        },
        EntryModel::Options { name, .. } => match find_field(fields, name) {
            None => Ok(st),
            Some(i) => Err(
                ErrModel::TypeMismatch { field: fields[i].name@.stable, expected: fields[i].kind },
            ),
        },
    }
}

/// Decoding runs the steps left to right and stops at the first failure.
pub open spec fn decode_run(fields: Seq<Field>, st: Seq<ValModel>, es: Seq<EntryModel>) -> Result<
    Seq<ValModel>,
    ErrModel,
>
    decreases es.len(),
{
    if es.len() == 0 {
        Ok(st)
    } else {
        match decode_step(fields, st, es[0]) {
            Ok(st2) => decode_run(fields, st2, es.drop_first()),
            Err(er) => Err(er),
        }
    }
}

/// What decoding a record from a wire sequence returns: for a record with
/// no fields, the empty record whatever the input holds; otherwise the
/// defaults overwritten by the entries in order.
pub open spec fn decode_record_spec(fields: Seq<Field>, es: Seq<EntryModel>) -> Result<
    Seq<ValModel>,
    ErrModel,
> {
    if fields.len() == 0 {
        Ok(seq![])
    } else {
        decode_run(fields, defaults_of(fields), es)
    }
}

/// A decoded record: the field values of its record type, in field order.
#[derive(Debug, PartialEq)]
pub struct RecordValue {
    pub values: Vec<FieldValue>,
}

/// The mathematical contents of a decoded record.
pub open spec fn record_value_view(rv: RecordValue) -> Seq<ValModel> {
    vals_view(rv.values@)
}

/// A decode result, as mathematics.
pub open spec fn decode_result_view(r: Result<RecordValue, DecodeError>) -> Result<
    Seq<ValModel>,
    ErrModel,
> {
    match r {
        Ok(rv) => Ok(record_value_view(rv)),
        Err(e) => Err(err_view(e)),
    }
}

/// The index of the first field whose stable name matches `name`.
fn find_field_exec(fields: &Vec<Field>, name: &Vec<u8>) -> (r: Option<usize>)
    ensures
        match r {
            Some(i) => find_field(fields@, name@) == Some(i as int),
            None => find_field(fields@, name@) is None,
        },
{
    let n = fields.len();
    let mut i: usize = 0;
    while i < n
        invariant
            i <= n,
            n == fields@.len(),
            find_field(fields@, name@) == find_field_from(fields@, name@, i as int),
        decreases n - i,
    {
        if fields[i].name.stable_is(name.as_slice()) {
            return Some(i);
        }
        i = i + 1;
    }
    None
}

/// The primitive tag of a wire value.
fn value_kind(v: &FieldValue) -> (r: Kind)
    ensures
        r == val_kind(val_view(*v)),
{
    match v {
        FieldValue::Str(_) => Kind::Str,
        FieldValue::U64(_) => Kind::U64,
        FieldValue::Bool(_) => Kind::Bool,
    }
}

/// A copy of a byte vector.
pub fn copy_bytes(s: &Vec<u8>) -> (r: Vec<u8>)
    ensures
        r@ == s@,
{
    let n = s.len();
    let mut r: Vec<u8> = Vec::new();
    let mut i: usize = 0;
    while i < n
        invariant
            i <= n,
            n == s@.len(),
            r@ == s@.take(i as int),
        decreases n - i,
    {
        r.push(s[i]);
        proof {
            assert(s@.take(i as int + 1) =~= s@.take(i as int).push(s@[i as int]));
        }
        i = i + 1;
    }
    proof {
        assert(s@.take(n as int) =~= s@);
    }
    r
}

/// A copy of a wire value.
pub fn copy_value(v: &FieldValue) -> (r: FieldValue)
    ensures
        val_view(r) == val_view(*v),
{
    match v {
        FieldValue::Str(s) => FieldValue::Str(copy_bytes(s)),
        FieldValue::U64(u) => FieldValue::U64(*u),
        FieldValue::Bool(b) => FieldValue::Bool(*b),
    }
}

/// Decodes a record from a wire sequence: defaults first, then each entry
/// in order, the last occurrence of a tag winning, unknown tags ignored,
/// and a type mismatch on a known tag failing the decode.
pub fn decode_record(rt: &RecordType, entries: &Vec<WireEntry>) -> (r: Result<
    RecordValue,
    DecodeError,
>)
    requires
        record_wf(*rt),
    ensures
        decode_result_view(r) == decode_record_spec(rt.fields@, entries_view(entries@)),
{
    let nf = rt.fields.len();
    if nf == 0 {
        let values: Vec<FieldValue> = Vec::new();
        let rv = RecordValue { values };
        proof {
            assert(record_value_view(rv) =~= Seq::<ValModel>::empty());
        }
        return Ok(rv);
    }

    let mut values: Vec<FieldValue> = Vec::new();
    let mut i: usize = 0;
    while i < nf
        invariant
            i <= nf,
            nf == rt.fields@.len(),
            record_wf(*rt),
            values@.len() == i,
            vals_view(values@) == defaults_of(rt.fields@).take(i as int),
        decreases nf - i,
    {
        let ghost vs0 = values@;
        let d = default_value(rt.fields[i].kind);
        values.push(d);
        proof {
            assert(vals_view(values@) =~= vals_view(vs0).push(default_val(
                rt.fields@[i as int].kind,
            )));
            assert(defaults_of(rt.fields@).take(i as int + 1) =~= defaults_of(rt.fields@).take(
                i as int,
            ).push(default_val(rt.fields@[i as int].kind)));
        }
        i = i + 1;
    }
    proof {
        assert(defaults_of(rt.fields@).take(nf as int) =~= defaults_of(rt.fields@));
    }

    let ghost em = entries_view(entries@);
    proof {
        lemma_entries_view(entries@);
        assert(em.skip(0) =~= em);
    }
    let ne = entries.len();
    let mut j: usize = 0;
    while j < ne
        invariant
            j <= ne,
            ne == entries@.len(),
            nf == rt.fields@.len(),
            nf > 0,
            record_wf(*rt),
            values@.len() == nf,
            em == entries_view(entries@),
            em.len() == ne,
            forall|k: int| 0 <= k < ne ==> em[k] == entry_view(#[trigger] entries@[k]),
            decode_run(rt.fields@, vals_view(values@), em.skip(j as int)) == decode_record_spec(
                rt.fields@,
                em,
            ),
        decreases ne - j,
    {
        let ghost st_before = vals_view(values@);
        proof {
            assert(em.skip(j as int)[0] == em[j as int]);
            assert(em.skip(j as int).drop_first() =~= em.skip(j as int + 1));
        }
        match &entries[j] {
            WireEntry::Value { name, value } => {
                match find_field_exec(&rt.fields, name) {
                    None => {},
                    Some(fi) => {
                        proof {
                            lemma_find_field_from(rt.fields@, name@, 0);
                        }
                        let vk = value_kind(value);
                        let fk = rt.fields[fi].kind;
                        if vk == fk {
                            let copied = copy_value(value);
                            let ghost cv = val_view(copied);
                            values[fi] = copied;
                            proof {
                                assert(vals_view(values@) =~= st_before.update(fi as int, cv));
                            }
                        } else {
                            let field = rt.fields[fi].name.stable();
                            let e = DecodeError::TypeMismatch { field, expected: fk };
                            proof {
                                assert(decode_run(rt.fields@, st_before, em.skip(j as int))
                                    == Err::<Seq<ValModel>, ErrModel>(err_view(e)));
                            }
                            return Err(e);
                        }
                    },
                }
            },
            WireEntry::Options { name, .. } => {
                match find_field_exec(&rt.fields, name) {
                    None => {},
                    Some(fi) => {
                        proof {
                            lemma_find_field_from(rt.fields@, name@, 0);
                        }
                        let fk = rt.fields[fi].kind;
                        let field = rt.fields[fi].name.stable();
                        let e = DecodeError::TypeMismatch { field, expected: fk };
                        proof {
                            assert(decode_run(rt.fields@, st_before, em.skip(j as int)) == Err::<
                                Seq<ValModel>,
                                ErrModel,
                            >(err_view(e)));
                        }
                        return Err(e);
                    },
                }
            },
        }
        j = j + 1;
    }
    proof {
        assert(em.skip(ne as int) =~= Seq::<EntryModel>::empty());
    }
    Ok(RecordValue { values })
}

/// The wire sequence a record encodes to: one name-tagged value per field,
/// in field order, tagged with the field's stable name.
pub open spec fn encode_record_spec(fields: Seq<Field>, vals: Seq<ValModel>) -> Seq<EntryModel> {
    Seq::new(
        fields.len(),
        |i: int| EntryModel::Value { name: fields[i].name@.stable, value: vals[i] },
    )
}

/// Encodes a decoded record back to a wire sequence.
pub fn encode_record(rt: &RecordType, rv: &RecordValue) -> (r: Vec<WireEntry>)
    requires
        rv.values@.len() == rt.fields@.len(),
    ensures
        entries_view(r@) == encode_record_spec(rt.fields@, record_value_view(*rv)),
{
    let nf = rt.fields.len();
    let mut out: Vec<WireEntry> = Vec::new();
    let mut i: usize = 0;
    while i < nf
        invariant
            i <= nf,
            nf == rt.fields@.len(),
            rv.values@.len() == nf,
            out@.len() == i,
            entries_view(out@) == encode_record_spec(rt.fields@, record_value_view(*rv)).take(
                i as int,
            ),
        decreases nf - i,
    {
        let name = rt.fields[i].name.stable();
        let value = copy_value(&rv.values[i]);
        let e = WireEntry::Value { name, value };
        let ghost ev = entry_view(e);
        let ghost out0 = out@;
        out.push(e);
        proof {
            lemma_entries_view_push(out0, e);
            assert(entries_view(out@) =~= encode_record_spec(
                rt.fields@,
                record_value_view(*rv),
            ).take(i as int + 1));
        }
        i = i + 1;
    }
    proof {
        assert(encode_record_spec(rt.fields@, record_value_view(*rv)).take(nf as int)
            =~= encode_record_spec(rt.fields@, record_value_view(*rv)));
    }
    out
}

/// No two fields share a stable name.
pub open spec fn distinct_field_names(fields: Seq<Field>) -> bool {
    forall|i: int, j: int|
        0 <= i < j < fields.len() ==> (#[trigger] fields[i]).name@.stable != (
        #[trigger] fields[j]).name@.stable
}

/// Searching for the name of field `j` from `i` finds `j` when no earlier
/// candidate carries that name.
proof fn lemma_find_field_hits(fields: Seq<Field>, name: Seq<u8>, j: int, i: int)
    requires
        0 <= i <= j < fields.len(),
        fields[j].name@.stable == name,
        forall|k: int| i <= k < j ==> (#[trigger] fields[k]).name@.stable != name,
    ensures
        find_field_from(fields, name, i) == Some(j),
    decreases j - i,
{
    if i < j {
        lemma_find_field_hits(fields, name, j, i + 1);
    }
}

/// With distinct field names, a field's own name finds exactly that field.
proof fn lemma_find_field_at(fields: Seq<Field>, j: int)
    requires
        distinct_field_names(fields),
        0 <= j < fields.len(),
    ensures
        find_field(fields, fields[j].name@.stable) == Some(j),
{
    assert forall|k: int| 0 <= k < j implies (#[trigger] fields[k]).name@.stable
        != fields[j].name@.stable by {
        assert(fields[k].name@.stable != fields[j].name@.stable);
    }
    lemma_find_field_hits(fields, fields[j].name@.stable, j, 0);
}

/// The state with every field from `j` on replaced by its value in `vals`.
spec fn overwrite_from(st: Seq<ValModel>, vals: Seq<ValModel>, j: int) -> Seq<ValModel> {
    Seq::new(st.len(), |i: int| if i >= j { vals[i] } else { st[i] })
}

/// Decoding the encoded tail from field `j` on overwrites exactly the
/// fields from `j` on.
proof fn lemma_decode_encoded(fields: Seq<Field>, vals: Seq<ValModel>, st: Seq<ValModel>, j: int)
    requires
        vals.len() == fields.len(),
        st.len() == fields.len(),
        forall|i: int| 0 <= i < fields.len() ==> val_kind(#[trigger] vals[i]) == fields[i].kind,
        distinct_field_names(fields),
        0 <= j <= fields.len(),
    ensures
        decode_run(fields, st, encode_record_spec(fields, vals).skip(j)) == Ok::<
            Seq<ValModel>,
            ErrModel,
        >(overwrite_from(st, vals, j)),
    decreases fields.len() - j,
{
    let es = encode_record_spec(fields, vals);
    if j == fields.len() {
        assert(es.skip(j) =~= Seq::<EntryModel>::empty());
        assert(overwrite_from(st, vals, j) =~= st);
    } else {
        assert(es.skip(j)[0] == es[j]);
        lemma_find_field_at(fields, j);
        let st2 = st.update(j, vals[j]);
        assert(decode_step(fields, st, es[j]) == Ok::<Seq<ValModel>, ErrModel>(st2));
        assert(es.skip(j).drop_first() =~= es.skip(j + 1));
        lemma_decode_encoded(fields, vals, st2, j + 1);
        assert(overwrite_from(st2, vals, j + 1) =~= overwrite_from(st, vals, j));
    }
}

/// Round trip: encoding a decoded record and decoding the result again
/// yields the same record, for any record whose field names are distinct
/// and whose values fit their fields, defaults and explicit values alike.
pub proof fn lemma_record_round_trip(fields: Seq<Field>, vals: Seq<ValModel>)
    requires
        vals.len() == fields.len(),
        forall|i: int| 0 <= i < fields.len() ==> val_kind(#[trigger] vals[i]) == fields[i].kind,
        distinct_field_names(fields),
    ensures
        decode_record_spec(fields, encode_record_spec(fields, vals)) == Ok::<
            Seq<ValModel>,
            ErrModel,
        >(vals),
{
    if fields.len() == 0 {
        assert(vals =~= Seq::<ValModel>::empty());
        assert(Seq::<ValModel>::empty() =~= seq![]);
    } else {
        lemma_decode_encoded(fields, vals, defaults_of(fields), 0);
        assert(encode_record_spec(fields, vals).skip(0) =~= encode_record_spec(fields, vals));
        assert(overwrite_from(defaults_of(fields), vals, 0) =~= vals);
    }
}

/// Last write wins: a wire sequence that tags the same field twice decodes
/// to the second value, whatever the first was.
pub proof fn lemma_duplicate_tag_last_wins(
    fields: Seq<Field>,
    name: Seq<u8>,
    v1: ValModel,
    v2: ValModel,
    i: int,
)
    requires
        0 <= i < fields.len(),
        find_field(fields, name) == Some(i),
        val_kind(v1) == fields[i].kind,
        val_kind(v2) == fields[i].kind,
    ensures
        decode_record_spec(
            fields,
            seq![
                EntryModel::Value { name, value: v1 },
                EntryModel::Value { name, value: v2 },
            ],
        ) == Ok::<Seq<ValModel>, ErrModel>(defaults_of(fields).update(i, v2)),
{
    let es = seq![EntryModel::Value { name, value: v1 }, EntryModel::Value { name, value: v2 }];
    reveal_with_fuel(decode_run, 4);
    assert(es[0] == EntryModel::Value { name, value: v1 });
    assert(es.drop_first() =~= seq![EntryModel::Value { name, value: v2 }]);
    assert(es.drop_first()[0] == EntryModel::Value { name, value: v2 });
    assert(es.drop_first().drop_first() =~= Seq::<EntryModel>::empty());
    assert(defaults_of(fields).update(i, v1).update(i, v2) =~= defaults_of(fields).update(i, v2));
}

/// A record with no fields decodes trivially from any wire sequence,
/// including a non-empty or ill-typed one.
pub proof fn lemma_empty_record_decodes(es: Seq<EntryModel>)
    ensures
        decode_record_spec(Seq::<Field>::empty(), es) == Ok::<Seq<ValModel>, ErrModel>(seq![]),
{
}

/// Viewing a wire sequence extended by one entry appends that entry's view.
proof fn lemma_entries_view_push(es: Seq<WireEntry>, x: WireEntry)
    ensures
        entries_view(es.push(x)) == entries_view(es) + seq![entry_view(x)],
    decreases es.len(),
{
    if es.len() == 0 {
        reveal_with_fuel(entries_view, 2);
        assert(es.push(x)[0] == x);
        assert(es.push(x).drop_first() =~= Seq::<WireEntry>::empty());
        assert(entries_view(es.push(x)) =~= entries_view(es) + seq![entry_view(x)]);
    } else {
        assert(es.push(x)[0] == es[0]);
        assert(es.push(x).drop_first() =~= es.drop_first().push(x));
        lemma_entries_view_push(es.drop_first(), x);
        assert(seq![entry_view(es[0])] + (entries_view(es.drop_first()) + seq![entry_view(x)])
            =~= (seq![entry_view(es[0])] + entries_view(es.drop_first())) + seq![entry_view(x)]);
    }
}

} // verus!
