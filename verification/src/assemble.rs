//! The module and variant assembler.
//!
//! From a classified schema this builds the final hierarchical type: one
//! record per root leaf and per grouped subcommand, one closed tagged union
//! per group, and one closed tagged union at the root over root leaves and
//! groups. A schema whose root is itself the sole terminal needs no union:
//! its root record holds that single record directly (the *flat* case).

use vstd::prelude::*;
use crate::name::Name;
use crate::schema::{CommandOption, derivable, shape_ok};
use crate::records::{Field, RecordType, record_wf, fields_of, structify_data};
use crate::classify::{
    ClassState, classification, deref_seq, groups_view, lemma_classification_derivable,
    state_derivable,
};

verus! {

/// A subcommand group: a name and the records of its member commands.
#[derive(Debug)]
pub struct GroupType {
    pub name: Name,
    pub members: Vec<RecordType>,
}

/// The assembled type of one schema: the root name, one record per root
/// leaf, one group per subcommand group, and whether the root record holds
/// the sole leaf record directly instead of a union.
#[derive(Debug)]
pub struct RootType {
    pub name: Name,
    pub leaves: Vec<RecordType>,
    pub groups: Vec<GroupType>,
    pub flat: bool,
}

/// A record type, as mathematics.
pub struct RecordModel {
    pub name: Name,
    pub fields: Seq<Field>,
}

/// A group, as mathematics.
pub struct GroupModel {
    pub name: Name,
    pub members: Seq<RecordModel>,
}

/// An assembled schema type, as mathematics.
pub struct RootModel {
    pub name: Name,
    pub leaves: Seq<RecordModel>,
    pub groups: Seq<GroupModel>,
    pub flat: bool,
}

/// The mathematical record a record type stands for.
pub open spec fn record_view(rt: RecordType) -> RecordModel {
    RecordModel { name: rt.name, fields: rt.fields@ }
}

/// The mathematical group a group type stands for.
pub open spec fn group_type_view(g: GroupType) -> GroupModel {
    GroupModel { name: g.name, members: g.members@.map_values(|m: RecordType| record_view(m)) }
}

/// The mathematical assembled type a root type stands for.
pub open spec fn root_view(rt: RootType) -> RootModel {
    RootModel {
        name: rt.name,
        leaves: rt.leaves@.map_values(|m: RecordType| record_view(m)),
        groups: rt.groups@.map_values(|g: GroupType| group_type_view(g)),
        flat: rt.flat,
    }
}

/// The record a derivable node derives to.
pub open spec fn record_of(n: CommandOption) -> RecordModel {
    RecordModel { name: n.name, fields: fields_of(n) }
}

/// The assembled type of a schema: the classified root leaves and groups,
/// each derived to its record, and the flat marker set exactly when some
/// root leaf has no tag — which is the schema root itself acting as the
/// sole terminal.
pub open spec fn assembled_of(root: CommandOption) -> RootModel {
    RootModel {
        name: root.name,
        leaves: classification(root).0.map_values(|n: CommandOption| record_of(n)),
        groups: classification(root).1.map_values(
            |g: (Name, Seq<CommandOption>)|
                GroupModel { name: g.0, members: g.1.map_values(|n: CommandOption| record_of(n)) },
        ),
        flat: exists|i: int|
            0 <= i < classification(root).0.len() && (#[trigger] classification(root).0[i]).kind
                is None,
    }
}

/// A well-formed assembled type: every record is well-formed, and a flat
/// root holds at least the one record its options field carries.
pub open spec fn root_wf(rt: RootType) -> bool {
    &&& forall|i: int| 0 <= i < rt.leaves@.len() ==> record_wf(#[trigger] rt.leaves@[i])
    &&& forall|i: int, j: int|
        0 <= i < rt.groups@.len() && 0 <= j < rt.groups@[i].members@.len() ==> record_wf(
            #[trigger] rt.groups@[i].members@[j],
        )
    &&& rt.flat ==> rt.leaves@.len() > 0
}

/// Derives the records of one member list.
fn assemble_members<'a>(nodes: &Vec<&'a CommandOption>) -> (r: Vec<RecordType>)
    requires
        forall|j: int| 0 <= j < nodes@.len() ==> derivable(*(#[trigger] nodes@[j])),
    ensures
        r@.map_values(|m: RecordType| record_view(m)) == deref_seq(nodes@).map_values(
            |n: CommandOption| record_of(n),
        ),
        forall|j: int| 0 <= j < r@.len() ==> record_wf(#[trigger] r@[j]),
{
    let ghost target = deref_seq(nodes@).map_values(|n: CommandOption| record_of(n));
    let n = nodes.len();
    let mut out: Vec<RecordType> = Vec::new();
    let mut i: usize = 0;
    while i < n
        invariant
            i <= n,
            n == nodes@.len(),
            target == deref_seq(nodes@).map_values(|n: CommandOption| record_of(n)),
            forall|j: int| 0 <= j < nodes@.len() ==> derivable(*(#[trigger] nodes@[j])),
            out@.len() == i,
            out@.map_values(|m: RecordType| record_view(m)) == target.take(i as int),
            forall|j: int| 0 <= j < out@.len() ==> record_wf(#[trigger] out@[j]),
        decreases n - i,
    {
        let node = nodes[i];
        proof {
            assert(derivable(*node));
        }
        let rt = match structify_data(node) {
            Some(rt) => rt,
            None => vstd::pervasive::unreached(),
        };
        let ghost out0 = out@;
        out.push(rt);
        proof {
            assert(out@.map_values(|m: RecordType| record_view(m)) =~= out0.map_values(
                |m: RecordType| record_view(m),
            ).push(record_view(out@[i as int])));
            assert(deref_seq(nodes@)[i as int] == *node);
            assert(target[i as int] == record_of(*node));
            assert(target.take(i as int + 1) =~= target.take(i as int).push(target[i as int]));
        }
        i = i + 1;
    }
    proof {
        assert(target.take(n as int) =~= target);
    }
    out
}

/// Builds the assembled type from a classified, well-shaped schema.
pub fn assemble<'a>(
    root: &CommandOption,
    leaves: &Vec<&'a CommandOption>,
    groups: &Vec<(Name, Vec<&'a CommandOption>)>,
) -> (r: RootType)
    requires
        shape_ok(*root),
        deref_seq(leaves@) == classification(*root).0,
        groups_view(groups@) == classification(*root).1,
    ensures
        root_view(r) == assembled_of(*root),
        root_wf(r),
{
    proof {
        lemma_classification_derivable(*root);
    }
    let ghost cls: ClassState = classification(*root);
    let ghost target = assembled_of(*root);

    proof {
        assert forall|j: int| 0 <= j < leaves@.len() implies derivable(
            *(#[trigger] leaves@[j]),
        ) by {
            assert(deref_seq(leaves@)[j] == *leaves@[j]);
        }
    }
    let rls = assemble_members(leaves);
    proof {
        assert(deref_seq(leaves@).map_values(|n: CommandOption| record_of(n)) == target.leaves);
    }

    let nl = leaves.len();
    let mut flat = false;
    let mut i: usize = 0;
    while i < nl
        invariant
            i <= nl,
            nl == leaves@.len(),
            deref_seq(leaves@) == cls.0,
            cls == classification(*root),
            flat == exists|k: int| 0 <= k < i && (#[trigger] cls.0[k]).kind is None,
            flat ==> nl > 0,
        decreases nl - i,
    {
        if leaves[i].kind.is_none() {
            proof {
                assert(deref_seq(leaves@)[i as int] == *leaves@[i as int]);
                assert((cls.0[i as int]).kind is None);
            }
            flat = true;
        } else {
            proof {
                assert(deref_seq(leaves@)[i as int] == *leaves@[i as int]);
                if exists|k: int| 0 <= k < i + 1 && (#[trigger] cls.0[k]).kind is None {
                    let k = choose|k: int| 0 <= k < i + 1 && (#[trigger] cls.0[k]).kind is None;
                    assert(k < i);
                }
            }
        }
        i = i + 1;
    }
    proof {
        assert(flat == target.flat);
    }

    let ng = groups.len();
    let mut gts: Vec<GroupType> = Vec::new();
    let mut g: usize = 0;
    while g < ng
        invariant
            g <= ng,
            ng == groups@.len(),
            groups_view(groups@) == cls.1,
            cls == classification(*root),
            state_derivable(cls),
            target == assembled_of(*root),
            gts@.len() == g,
            gts@.map_values(|gt: GroupType| group_type_view(gt)) == target.groups.take(g as int),
            forall|i2: int, j2: int|
                0 <= i2 < gts@.len() && 0 <= j2 < gts@[i2].members@.len() ==> record_wf(
                    #[trigger] gts@[i2].members@[j2],
                ),
        decreases ng - g,
    {
        let pair = &groups[g];
        proof {
            assert(groups_view(groups@)[g as int] == (pair.0, deref_seq(pair.1@)));
            assert forall|j: int| 0 <= j < pair.1@.len() implies derivable(
                *(#[trigger] pair.1@[j]),
            ) by {
                assert(deref_seq(pair.1@)[j] == *pair.1@[j]);
                assert(cls.1[g as int].1[j] == deref_seq(pair.1@)[j]);
            }
        }
        let members = assemble_members(&pair.1);
        let gt = GroupType { name: pair.0, members };
        let ghost gts0 = gts@;
        gts.push(gt);
        proof {
            assert(group_type_view(gts@[g as int]) == target.groups[g as int]);
            assert(gts@.map_values(|x: GroupType| group_type_view(x)) =~= gts0.map_values(
                |x: GroupType| group_type_view(x),
            ).push(group_type_view(gts@[g as int])));
            assert(target.groups.take(g as int + 1) =~= target.groups.take(g as int).push(
                target.groups[g as int],
            ));
        }
        g = g + 1;
    }
    proof {
        assert(target.groups.take(ng as int) =~= target.groups);
    }

    let r = RootType { name: root.name, leaves: rls, groups: gts, flat };
    proof {
        assert(root_view(r).leaves == target.leaves);
        assert(root_view(r).groups == target.groups);
    }
    r
}

} // verus!
