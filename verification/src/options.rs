//! Decoding and encoding the root-level options union.
//!
//! A payload names exactly one active variant: a root leaf command, or a
//! group whose payload in turn names exactly one member. Resolution is by
//! the name tag alone, never by structural matching; a payload with zero
//! elements where a discriminant is required is a structural failure. For
//! a flat schema — the root itself the sole terminal — the options value is
//! the root record itself with no union around it.

use vstd::prelude::*;
use crate::records::RecordType;
use crate::assemble::{GroupModel, GroupType, RecordModel, RootModel, RootType, root_view, root_wf};
use crate::decode::{
    DecodeError, EntryModel, ErrModel, RecordValue, ValModel, WireEntry, copy_bytes,
    decode_record, decode_record_spec, distinct_field_names, encode_record, encode_record_spec,
    entries_view, entry_view, err_view, lemma_entries_view, lemma_record_round_trip,
    record_value_view, val_kind,
};

verus! {

/// One decoded options value: the active variant and its record.
#[derive(Debug, PartialEq)]
pub enum OptionsValue {
    Leaf { variant: usize, record: RecordValue },
    Group { variant: usize, member: usize, record: RecordValue },
}

/// A decoded options value, as mathematics.
pub enum OptionsModel {
    Leaf { variant: int, record: Seq<ValModel> },
    Group { variant: int, member: int, record: Seq<ValModel> },
}

/// The mathematical options value a decoded one stands for.
pub open spec fn options_view(v: OptionsValue) -> OptionsModel {
    match v {
        OptionsValue::Leaf { variant, record } => OptionsModel::Leaf {
            variant: variant as int,
            record: record_value_view(record),
        },
        OptionsValue::Group { variant, member, record } => OptionsModel::Group {
            variant: variant as int,
            member: member as int,
            record: record_value_view(record),
        },
    }
}

/// An options decode result, as mathematics.
pub open spec fn options_result_view(r: Result<OptionsValue, DecodeError>) -> Result<
    OptionsModel,
    ErrModel,
> {
    match r {
        Ok(v) => Ok(options_view(v)),
        Err(e) => Err(err_view(e)),
    }
}

/// The index of the first record whose stable name is `name`, searching
/// from `i`.
pub open spec fn find_record_from(rs: Seq<RecordModel>, name: Seq<u8>, i: int) -> Option<int>
    decreases rs.len() - i,
{
    if i < 0 || i >= rs.len() {
        None
    } else if rs[i].name@.stable == name {
        Some(i)
    } else {
        find_record_from(rs, name, i + 1)
    }
}

/// The index of the first record whose stable name is `name`.
pub open spec fn find_record(rs: Seq<RecordModel>, name: Seq<u8>) -> Option<int> {
    find_record_from(rs, name, 0)
}

/// The index of the first group whose stable name is `name`, searching
/// from `i`.
pub open spec fn find_group_from(gs: Seq<GroupModel>, name: Seq<u8>, i: int) -> Option<int>
    decreases gs.len() - i,
{
    if i < 0 || i >= gs.len() {
        None
    } else if gs[i].name@.stable == name {
        Some(i)
    } else {
        find_group_from(gs, name, i + 1)
    }
}

/// The index of the first group whose stable name is `name`.
pub open spec fn find_group(gs: Seq<GroupModel>, name: Seq<u8>) -> Option<int> {
    find_group_from(gs, name, 0)
}

/// A found record index lies in bounds and names the record searched for.
pub proof fn lemma_find_record_from(rs: Seq<RecordModel>, name: Seq<u8>, i: int)
    requires
        0 <= i,
    ensures
        match find_record_from(rs, name, i) {
            Some(j) => i <= j < rs.len() && rs[j].name@.stable == name,
            None => forall|k: int| i <= k < rs.len() ==> (#[trigger] rs[k]).name@.stable != name,
        },
    decreases rs.len() - i,
{
    if i < rs.len() && rs[i].name@.stable != name {
        lemma_find_record_from(rs, name, i + 1);
        if find_record_from(rs, name, i) is None {
            assert forall|k: int|
                i <= k < rs.len() implies (#[trigger] rs[k]).name@.stable != name by {
                if k > i {
                    assert(rs[k].name@.stable != name);
                }
            }
        }
    }
}

/// A found group index lies in bounds and names the group searched for.
pub proof fn lemma_find_group_from(gs: Seq<GroupModel>, name: Seq<u8>, i: int)
    requires
        0 <= i,
    ensures
        match find_group_from(gs, name, i) {
            Some(j) => i <= j < gs.len() && gs[j].name@.stable == name,
            None => forall|k: int| i <= k < gs.len() ==> (#[trigger] gs[k]).name@.stable != name,
        },
    decreases gs.len() - i,
{
    if i < gs.len() && gs[i].name@.stable != name {
        lemma_find_group_from(gs, name, i + 1);
        if find_group_from(gs, name, i) is None {
            assert forall|k: int|
                i <= k < gs.len() implies (#[trigger] gs[k]).name@.stable != name by {
                if k > i {
                    assert(gs[k].name@.stable != name);
                }
            }
        }
    }
}

/// What decoding a group's payload returns: the first element must be a
/// name-tagged nested sequence naming a member, whose record is decoded
/// from that sequence.
pub open spec fn decode_group_spec(gm: GroupModel, es: Seq<EntryModel>) -> Result<
    (int, Seq<ValModel>),
    ErrModel,
> {
    if es.len() == 0 {
        Err(ErrModel::EmptyOptions)
    } else {
        match es[0] {
            EntryModel::Options { name, entries } => match find_record(gm.members, name) {
                Some(m) => match decode_record_spec(gm.members[m].fields, entries) {
                    Ok(vals) => Ok((m, vals)),
                    Err(e) => Err(e),
                },
                None => Err(ErrModel::UnknownVariant { name }),
            },
            EntryModel::Value { name, .. } => match find_record(gm.members, name) {
                Some(_) => Err(ErrModel::ExpectedOptions { name }),
                None => Err(ErrModel::UnknownVariant { name }),
            },
        }
    }
}

/// What decoding the root options union returns. A flat root decodes its
/// sole record directly; otherwise the first element names the active
/// variant, a root leaf taking precedence over a group of the same name.
pub open spec fn decode_options_spec(rm: RootModel, es: Seq<EntryModel>) -> Result<
    OptionsModel,
    ErrModel,
> {
    if rm.flat {
        match decode_record_spec(rm.leaves[0].fields, es) {
            Ok(vals) => Ok(OptionsModel::Leaf { variant: 0, record: vals }),
            Err(e) => Err(e),
        }
    } else if es.len() == 0 {
        Err(ErrModel::EmptyOptions)
    } else {
        match es[0] {
            EntryModel::Options { name, entries } => match find_record(rm.leaves, name) {
                Some(i) => match decode_record_spec(rm.leaves[i].fields, entries) {
                    Ok(vals) => Ok(OptionsModel::Leaf { variant: i, record: vals }),
                    Err(e) => Err(e),
                },
                None => match find_group(rm.groups, name) {
                    Some(g) => match decode_group_spec(rm.groups[g], entries) {
                        Ok((m, vals)) => Ok(
                            OptionsModel::Group { variant: g, member: m, record: vals },
                        ),
                        Err(e) => Err(e),
                    },
                    None => Err(ErrModel::UnknownVariant { name }),
                },
            },
            EntryModel::Value { name, .. } => if find_record(rm.leaves, name) is Some
                || find_group(rm.groups, name) is Some {
                Err(ErrModel::ExpectedOptions { name })
            } else {
                Err(ErrModel::UnknownVariant { name })
            },
        }
    }
}

/// The wire sequence an options value encodes to. A flat root's record
/// encodes bare; a root leaf wraps its record in one name-tagged element;
/// a group member wraps its record twice, member inside group.
pub open spec fn encode_options_spec(rm: RootModel, v: OptionsModel) -> Seq<EntryModel> {
    match v {
        OptionsModel::Leaf { variant, record } => if rm.flat {
            encode_record_spec(rm.leaves[0].fields, record)
        } else {
            seq![
                EntryModel::Options {
                    name: rm.leaves[variant].name@.stable,
                    entries: encode_record_spec(rm.leaves[variant].fields, record),
                },
            ]
        },
        OptionsModel::Group { variant, member, record } => seq![
            EntryModel::Options {
                name: rm.groups[variant].name@.stable,
                entries: seq![
                    EntryModel::Options {
                        name: rm.groups[variant].members[member].name@.stable,
                        entries: encode_record_spec(
                            rm.groups[variant].members[member].fields,
                            record,
                        ),
                    },
                ],
            },
        ],
    }
}

/// An options value that belongs to the assembled type: its variant and
/// member indices exist and its record has one value per field.
pub open spec fn options_fits(rm: RootModel, v: OptionsModel) -> bool {
    match v {
        OptionsModel::Leaf { variant, record } => {
            &&& 0 <= variant < rm.leaves.len()
            &&& (rm.flat ==> variant == 0)
            &&& record.len() == rm.leaves[variant].fields.len()
        },
        OptionsModel::Group { variant, member, record } => {
            &&& !rm.flat
            &&& 0 <= variant < rm.groups.len()
            &&& 0 <= member < rm.groups[variant].members.len()
            &&& record.len() == rm.groups[variant].members[member].fields.len()
        },
    }
}

/// Encodes an options value back to a wire sequence.
pub fn encode_options(rt: &RootType, v: &OptionsValue) -> (r: Vec<WireEntry>)
    requires
        options_fits(root_view(*rt), options_view(*v)),
    ensures
        entries_view(r@) == encode_options_spec(root_view(*rt), options_view(*v)),
{
    match v {
        OptionsValue::Leaf { variant, record } => {
            proof {
                assert(root_view(*rt).leaves[*variant as int] == crate::assemble::record_view(
                    rt.leaves@[*variant as int],
                ));
            }
            if rt.flat {
                encode_record(&rt.leaves[0], record)
            } else {
                let name = rt.leaves[*variant].name.stable();
                let inner = encode_record(&rt.leaves[*variant], record);
                let e = WireEntry::Options { name, entries: inner };
                let ghost ev = entry_view(e);
                let mut out: Vec<WireEntry> = Vec::new();
                out.push(e);
                proof {
                    lemma_entries_view(out@);
                    assert(entries_view(out@) =~= seq![ev]);
                }
                out
            }
        },
        OptionsValue::Group { variant, member, record } => {
            let gt = &rt.groups[*variant];
            proof {
                assert(root_view(*rt).groups[*variant as int] == crate::assemble::group_type_view(
                    rt.groups@[*variant as int],
                ));
                assert(crate::assemble::group_type_view(*gt).members[*member as int]
                    == crate::assemble::record_view(gt.members@[*member as int]));
            }
            let mname = gt.members[*member].name.stable();
            let inner = encode_record(&gt.members[*member], record);
            let me = WireEntry::Options { name: mname, entries: inner };
            let ghost mev = entry_view(me);
            let mut mid: Vec<WireEntry> = Vec::new();
            mid.push(me);
            proof {
                lemma_entries_view(mid@);
                assert(entries_view(mid@) =~= seq![mev]);
            }
            let gname = gt.name.stable();
            let ge = WireEntry::Options { name: gname, entries: mid };
            let ghost gev = entry_view(ge);
            let mut out: Vec<WireEntry> = Vec::new();
            out.push(ge);
            proof {
                lemma_entries_view(out@);
                assert(entries_view(out@) =~= seq![gev]);
            }
            out
        },
    }
}

/// All record names in a list are pairwise distinct.
pub open spec fn record_names_distinct(rs: Seq<RecordModel>) -> bool {
    forall|i: int, j: int|
        0 <= i < j < rs.len() ==> (#[trigger] rs[i]).name@.stable != (#[trigger] rs[j]).name@.stable
}

/// The variant names of an assembled type are unambiguous: root-leaf names
/// pairwise distinct, group names pairwise distinct, no group named like a
/// root leaf, and each group's member names pairwise distinct.
pub open spec fn root_distinct(rm: RootModel) -> bool {
    &&& record_names_distinct(rm.leaves)
    &&& forall|i: int, j: int|
        0 <= i < j < rm.groups.len() ==> (#[trigger] rm.groups[i]).name@.stable != (
        #[trigger] rm.groups[j]).name@.stable
    &&& forall|i: int, j: int|
        0 <= i < rm.leaves.len() && 0 <= j < rm.groups.len() ==> (
        #[trigger] rm.leaves[i]).name@.stable != (#[trigger] rm.groups[j]).name@.stable
    &&& forall|g: int| 0 <= g < rm.groups.len() ==> record_names_distinct((#[trigger] rm.groups[g]).members)
}

/// A record value that fits a record type: one value per field, each of
/// its field's primitive type.
pub open spec fn record_fits(rmod: RecordModel, record: Seq<ValModel>) -> bool {
    &&& record.len() == rmod.fields.len()
    &&& forall|i: int| 0 <= i < record.len() ==> val_kind(#[trigger] record[i]) == rmod.fields[i].kind
}

/// Searching for the name of record `j` from `i` finds `j` when no earlier
/// candidate carries that name.
proof fn lemma_find_record_hits(rs: Seq<RecordModel>, name: Seq<u8>, j: int, i: int)
    requires
        0 <= i <= j < rs.len(),
        rs[j].name@.stable == name,
        forall|k: int| i <= k < j ==> (#[trigger] rs[k]).name@.stable != name,
    ensures
        find_record_from(rs, name, i) == Some(j),
    decreases j - i,
{
    if i < j {
        lemma_find_record_hits(rs, name, j, i + 1);
    }
}

/// With distinct record names, a record's own name finds exactly it.
proof fn lemma_find_record_at(rs: Seq<RecordModel>, j: int)
    requires
        record_names_distinct(rs),
        0 <= j < rs.len(),
    ensures
        find_record(rs, rs[j].name@.stable) == Some(j),
{
    assert forall|k: int| 0 <= k < j implies (#[trigger] rs[k]).name@.stable
        != rs[j].name@.stable by {
        assert(rs[k].name@.stable != rs[j].name@.stable);
    }
    lemma_find_record_hits(rs, rs[j].name@.stable, j, 0);
}

/// Searching for the name of group `j` from `i` finds `j` when no earlier
/// candidate carries that name.
proof fn lemma_find_group_hits(gs: Seq<GroupModel>, name: Seq<u8>, j: int, i: int)
    requires
        0 <= i <= j < gs.len(),
        gs[j].name@.stable == name,
        forall|k: int| i <= k < j ==> (#[trigger] gs[k]).name@.stable != name,
    ensures
        find_group_from(gs, name, i) == Some(j),
    decreases j - i,
{
    if i < j {
        lemma_find_group_hits(gs, name, j, i + 1);
    }
}

/// Round trip through the union: encoding any options value that fits an
/// unambiguous assembled type and decoding it again yields the value
/// back, variant, member and record alike.
pub proof fn lemma_options_round_trip(rm: RootModel, v: OptionsModel)
    requires
        options_fits(rm, v),
        root_distinct(rm),
        match v {
            OptionsModel::Leaf { variant, record } => record_fits(rm.leaves[variant], record)
                && distinct_field_names(rm.leaves[variant].fields),
            OptionsModel::Group { variant, member, record } => record_fits(
                rm.groups[variant].members[member],
                record,
            ) && distinct_field_names(rm.groups[variant].members[member].fields),
        },
    ensures
        decode_options_spec(rm, encode_options_spec(rm, v)) == Ok::<OptionsModel, ErrModel>(v),
{
    match v {
        OptionsModel::Leaf { variant, record } => {
            lemma_record_round_trip(rm.leaves[variant].fields, record);
            if rm.flat {
            } else {
                let name = rm.leaves[variant].name@.stable;
                let es = encode_options_spec(rm, v);
                assert(es[0] == EntryModel::Options {
                    name,
                    entries: encode_record_spec(rm.leaves[variant].fields, record),
                });
                lemma_find_record_at(rm.leaves, variant);
            }
        },
        OptionsModel::Group { variant, member, record } => {
            let gm = rm.groups[variant];
            lemma_record_round_trip(gm.members[member].fields, record);
            let gname = gm.name@.stable;
            let es = encode_options_spec(rm, v);
            let mes = seq![
                EntryModel::Options {
                    name: gm.members[member].name@.stable,
                    entries: encode_record_spec(gm.members[member].fields, record),
                },
            ];
            assert(es[0] == EntryModel::Options { name: gname, entries: mes });
            lemma_find_record_from(rm.leaves, gname, 0);
            if find_record(rm.leaves, gname) is Some {
                let j = find_record(rm.leaves, gname)->0;
                assert(rm.leaves[j].name@.stable != gname);
                assert(false);
            }
            assert forall|k: int| 0 <= k < variant implies (#[trigger] rm.groups[k]).name@.stable
                != gname by {
                assert(rm.groups[k].name@.stable != rm.groups[variant].name@.stable);
            }
            lemma_find_group_hits(rm.groups, gname, variant, 0);
            lemma_find_record_at(gm.members, member);
            assert(mes[0] == EntryModel::Options {
                name: gm.members[member].name@.stable,
                entries: encode_record_spec(gm.members[member].fields, record),
            });
        },
    }
}

/// The index of the first record type whose stable name matches `name`.
fn find_record_exec(rs: &Vec<RecordType>, name: &Vec<u8>) -> (r: Option<usize>)
    ensures
        match r {
            Some(i) => find_record(
                rs@.map_values(|m: RecordType| crate::assemble::record_view(m)),
                name@,
            ) == Some(i as int),
            None => find_record(
                rs@.map_values(|m: RecordType| crate::assemble::record_view(m)),
                name@,
            ) is None,
        },
{
    let ghost rm = rs@.map_values(|m: RecordType| crate::assemble::record_view(m));
    let n = rs.len();
    let mut i: usize = 0;
    while i < n
        invariant
            i <= n,
            n == rs@.len(),
            rm == rs@.map_values(|m: RecordType| crate::assemble::record_view(m)),
            find_record(rm, name@) == find_record_from(rm, name@, i as int),
        decreases n - i,
    {
        if rs[i].name.stable_is(name.as_slice()) {
            return Some(i);
        }
        i = i + 1;
    }
    None
}

/// The index of the first group whose stable name matches `name`.
fn find_group_exec(gs: &Vec<GroupType>, name: &Vec<u8>) -> (r: Option<usize>)
    ensures
        match r {
            Some(i) => find_group(
                gs@.map_values(|g: GroupType| crate::assemble::group_type_view(g)),
                name@,
            ) == Some(i as int),
            None => find_group(
                gs@.map_values(|g: GroupType| crate::assemble::group_type_view(g)),
                name@,
            ) is None,
        },
{
    let ghost gm = gs@.map_values(|g: GroupType| crate::assemble::group_type_view(g));
    let n = gs.len();
    let mut i: usize = 0;
    while i < n
        invariant
            i <= n,
            n == gs@.len(),
            gm == gs@.map_values(|g: GroupType| crate::assemble::group_type_view(g)),
            find_group(gm, name@) == find_group_from(gm, name@, i as int),
        decreases n - i,
    {
        if gs[i].name.stable_is(name.as_slice()) {
            return Some(i);
        }
        i = i + 1;
    }
    None
}

/// Decodes a group's payload: its first element names the active member.
pub fn decode_group(gt: &GroupType, entries: &Vec<WireEntry>) -> (r: Result<
    (usize, RecordValue),
    DecodeError,
>)
    requires
        forall|j: int| 0 <= j < gt.members@.len() ==> crate::records::record_wf(
            #[trigger] gt.members@[j],
        ),
    ensures
        match r {
            Ok(p) => decode_group_spec(
                crate::assemble::group_type_view(*gt),
                entries_view(entries@),
            ) == Ok::<(int, Seq<ValModel>), ErrModel>((
                p.0 as int,
                record_value_view(p.1),
            )),
            Err(e) => decode_group_spec(
                crate::assemble::group_type_view(*gt),
                entries_view(entries@),
            ) == Err::<(int, Seq<ValModel>), ErrModel>(err_view(e)),
        },
{
    proof {
        lemma_entries_view(entries@);
    }
    if entries.len() == 0 {
        return Err(DecodeError::EmptyOptions);
    }
    match &entries[0] {
        WireEntry::Options { name, entries: sub } => {
            match find_record_exec(&gt.members, name) {
                Some(m) => {
                    proof {
                        lemma_find_record_from(
                            gt.members@.map_values(|x: RecordType| crate::assemble::record_view(x)),
                            name@,
                            0,
                        );
                    }
                    match decode_record(&gt.members[m], sub) {
                        Ok(rv) => Ok((m, rv)),
                        Err(e) => Err(e),
                    }
                },
                None => Err(DecodeError::UnknownVariant { name: copy_bytes(name) }),
            }
        },
        WireEntry::Value { name, .. } => {
            match find_record_exec(&gt.members, name) {
                Some(_) => Err(DecodeError::ExpectedOptions { name: copy_bytes(name) }),
                None => Err(DecodeError::UnknownVariant { name: copy_bytes(name) }),
            }
        },
    }
}

/// Decodes the root options union from a payload: a flat root decodes its
/// sole record directly; otherwise the payload's first element names the
/// active root leaf or group.
pub fn decode_options(rt: &RootType, entries: &Vec<WireEntry>) -> (r: Result<
    OptionsValue,
    DecodeError,
>)
    requires
        root_wf(*rt),
    ensures
        options_result_view(r) == decode_options_spec(root_view(*rt), entries_view(entries@)),
{
    proof {
        lemma_entries_view(entries@);
    }
    if rt.flat {
        return match decode_record(&rt.leaves[0], entries) {
            Ok(rv) => Ok(OptionsValue::Leaf { variant: 0, record: rv }),
            Err(e) => Err(e),
        };
    }
    if entries.len() == 0 {
        return Err(DecodeError::EmptyOptions);
    }
    match &entries[0] {
        WireEntry::Options { name, entries: sub } => {
            match find_record_exec(&rt.leaves, name) {
                Some(i) => {
                    proof {
                        lemma_find_record_from(
                            rt.leaves@.map_values(|x: RecordType| crate::assemble::record_view(x)),
                            name@,
                            0,
                        );
                    }
                    match decode_record(&rt.leaves[i], sub) {
                        Ok(rv) => Ok(OptionsValue::Leaf { variant: i, record: rv }),
                        Err(e) => Err(e),
                    }
                },
                None => {
                    match find_group_exec(&rt.groups, name) {
                        Some(g) => {
                            proof {
                                lemma_find_group_from(
                                    rt.groups@.map_values(
                                        |x: GroupType| crate::assemble::group_type_view(x),
                                    ),
                                    name@,
                                    0,
                                );
                            }
                            match decode_group(&rt.groups[g], sub) {
                                Ok(p) => Ok(
                                    OptionsValue::Group {
                                        variant: g,
                                        member: p.0,
                                        record: p.1,
                                    },
                                ),
                                Err(e) => Err(e),
                            }
                        },
                        None => Err(DecodeError::UnknownVariant { name: copy_bytes(name) }),
                    }
                },
            }
        },
        WireEntry::Value { name, .. } => {
            let known = match find_record_exec(&rt.leaves, name) {
                Some(_) => true,
                None => match find_group_exec(&rt.groups, name) {
                    Some(_) => true,
                    None => false,
                },
            };
            if known {
                Err(DecodeError::ExpectedOptions { name: copy_bytes(name) })
            } else {
                Err(DecodeError::UnknownVariant { name: copy_bytes(name) })
            }
        },
    }
}

} // verus!
