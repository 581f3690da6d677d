//! Record derivation.
//!
//! A terminal command's record type has one field per child, in order, each
//! field named by the child and typed by the child's primitive tag.

use vstd::prelude::*;
use crate::name::Name;
use crate::schema::{CommandOption, Kind, children_of, field_child_ok, is_primitive};

verus! {

/// One field of a derived record.
#[derive(Clone, Copy, Debug)]
pub struct Field {
    pub name: Name,
    pub kind: Kind,
}

/// The record type derived for one terminal command.
#[derive(Debug)]
pub struct RecordType {
    pub name: Name,
    pub fields: Vec<Field>,
}

/// Every field of a record carries a primitive tag.
pub open spec fn record_wf(rt: RecordType) -> bool {
    forall|i: int| 0 <= i < rt.fields@.len() ==> is_primitive((#[trigger] rt.fields@[i]).kind)
}

/// The field derived from one schema child.
pub open spec fn field_of(c: CommandOption) -> Field {
    Field { name: c.name, kind: c.kind->0 }
}

/// The fields derived from a node: one per child, in order.
pub open spec fn fields_of(n: CommandOption) -> Seq<Field> {
    children_of(n).map_values(|c: CommandOption| field_of(c))
}

/// Derives the record type of a node: one field per child. A node without
/// an options list is a pure primitive leaf and derives no record; a node
/// with an empty options list derives a record with no fields.
pub fn structify_data(input: &CommandOption) -> (r: Option<RecordType>)
    requires
        forall|i: int|
            0 <= i < children_of(*input).len() ==> field_child_ok(
                #[trigger] children_of(*input)[i],
            ),
    ensures
        match r {
            Some(rt) => {
                &&& input.options is Some
                &&& rt.name == input.name
                &&& rt.fields@ == fields_of(*input)
                &&& record_wf(rt)
            },
            None => input.options is None,
        },
{
    match &input.options {
        None => None,
        Some(cs) => {
            let n = cs.len();
            let mut fields: Vec<Field> = Vec::new();
            let mut i: usize = 0;
            while i < n
                invariant
                    i <= n,
                    n == cs@.len(),
                    input.options matches Some(v) && v@ == cs@,
                    forall|j: int|
                        0 <= j < children_of(*input).len() ==> field_child_ok(
                            #[trigger] children_of(*input)[j],
                        ),
                    fields@ == fields_of(*input).take(i as int),
                decreases n - i,
            {
                let kind = match cs[i].kind {
                    Some(k) => k,
                    None => vstd::pervasive::unreached(),
                };
                fields.push(Field { name: cs[i].name, kind });
                proof {
                    assert(fields_of(*input).take(i as int + 1) =~= fields_of(*input).take(
                        i as int,
                    ).push(field_of(cs@[i as int])));
                }
                i = i + 1;
            }
            proof {
                assert(fields_of(*input).take(n as int) =~= fields_of(*input));
            }
            Some(RecordType { name: input.name, fields })
        },
    }
}

} // verus!
