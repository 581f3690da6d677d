//! Tree classification.
//!
//! A depth-first pre-order walk of the schema tree finds every *terminal
//! command*: a node with an options list all of whose children are leaves.
//! A terminal found at depth zero or one is a *root leaf*; a terminal found
//! deeper belongs to the *group* named by its ancestor at depth one. Both
//! the root-leaf list and each group's member list preserve the walk order,
//! and all terminals under equally named depth-one ancestors share one
//! group, keyed by its first appearance: the groups form an ordered mapping
//! with no name occurring twice.

use vstd::prelude::*;
use crate::name::{Name, name_eq};
use crate::schema::{CommandOption, derivable, is_terminal, lemma_terminal_derivable, shape_ok};

verus! {

/// A classification in progress: the root leaves and the groups found so
/// far, in order.
pub type ClassState = (Seq<CommandOption>, Seq<(Name, Seq<CommandOption>)>);

/// A classified terminal: its group key (`None` for a root leaf) and the
/// node itself.
pub type LeafEntry = (Option<Name>, CommandOption);

/// Depth as the walk tracks it; everything below depth two behaves alike,
/// so the walk never counts past two.
pub open spec fn next_depth(depth: nat) -> nat {
    if depth < 2 {
        depth + 1
    } else {
        2
    }
}

/// The group key that the children of `n` inherit: the name of their
/// depth-one ancestor, once the walk passes depth one.
pub open spec fn child_key(n: CommandOption, key: Option<Name>, depth: nat) -> Option<Name> {
    if depth == 1 {
        Some(n.name)
    } else {
        key
    }
}

/// The entry recorded for a terminal at `depth` under `key`.
pub open spec fn entry_of(n: CommandOption, key: Option<Name>, depth: nat) -> LeafEntry {
    (if depth <= 1 { None } else { key }, n)
}

/// All terminals of the subtree at `n`, in pre-order, each with its group
/// key.
pub open spec fn leaf_entries(n: CommandOption, key: Option<Name>, depth: nat) -> Seq<LeafEntry>
    decreases n,
{
    match n.options {
        None => seq![],
        Some(cs) => (if is_terminal(n) {
            seq![entry_of(n, key, depth)]
        } else {
            seq![]
        }) + leaf_entries_seq(cs@, child_key(n, key, depth), next_depth(depth)),
    }
}

/// All terminals of a forest of sibling subtrees, in pre-order.
pub open spec fn leaf_entries_seq(cs: Seq<CommandOption>, key: Option<Name>, depth: nat) -> Seq<
    LeafEntry,
>
    decreases cs,
{
    if cs.len() == 0 {
        seq![]
    } else {
        leaf_entries(cs[0], key, depth) + leaf_entries_seq(cs.drop_first(), key, depth)
    }
}

/// The index of the first group whose name equals `key`, searching from
/// `i`.
pub open spec fn find_key_from(
    gs: Seq<(Name, Seq<CommandOption>)>,
    key: Name,
    i: int,
) -> Option<int>
    decreases gs.len() - i,
{
    if i < 0 || i >= gs.len() {
        None
    } else if name_eq(gs[i].0, key) {
        Some(i)
    } else {
        find_key_from(gs, key, i + 1)
    }
}

/// The index of the first group whose name equals `key`.
pub open spec fn find_key(gs: Seq<(Name, Seq<CommandOption>)>, key: Name) -> Option<int> {
    find_key_from(gs, key, 0)
}

/// A found group index lies in bounds and carries the name searched for; a
/// miss means no group from the start index on carries it.
pub proof fn lemma_find_key_from(gs: Seq<(Name, Seq<CommandOption>)>, key: Name, i: int)
    requires
        0 <= i,
    ensures
        match find_key_from(gs, key, i) {
            Some(j) => i <= j < gs.len() && name_eq(gs[j].0, key),
            None => forall|k: int| i <= k < gs.len() ==> !name_eq((#[trigger] gs[k]).0, key),
        },
    decreases gs.len() - i,
{
    if i < gs.len() && !name_eq(gs[i].0, key) {
        lemma_find_key_from(gs, key, i + 1);
        if find_key_from(gs, key, i) is None {
            assert forall|k: int| i <= k < gs.len() implies !name_eq(
                (#[trigger] gs[k]).0,
                key,
            ) by {
                if k > i {
                    assert(!name_eq(gs[k].0, key));
                }
            }
        }
    }
}

/// Adds one grouped terminal: appended to the existing group of that name,
/// wherever it stands, otherwise opening a new group.
pub open spec fn add_to_groups(
    gs: Seq<(Name, Seq<CommandOption>)>,
    key: Name,
    node: CommandOption,
) -> Seq<(Name, Seq<CommandOption>)> {
    match find_key(gs, key) {
        Some(i) => gs.update(i, (gs[i].0, gs[i].1.push(node))),
        None => gs.push((key, seq![node])),
    }
}

/// Records one classified terminal in the classification state.
pub open spec fn apply_entry(st: ClassState, e: LeafEntry) -> ClassState {
    match e.0 {
        None => (st.0.push(e.1), st.1),
        Some(k) => (st.0, add_to_groups(st.1, k, e.1)),
    }
}

/// Records a sequence of classified terminals, left to right.
pub open spec fn apply_entries(st: ClassState, es: Seq<LeafEntry>) -> ClassState
    decreases es.len(),
{
    if es.len() == 0 {
        st
    } else {
        apply_entries(apply_entry(st, es[0]), es.drop_first())
    }
}

/// The classification of a whole schema: all terminals of the tree,
/// recorded in pre-order into root leaves and groups.
pub open spec fn classification(root: CommandOption) -> ClassState {
    apply_entries((seq![], seq![]), leaf_entries(root, None, 0))
}

/// Recording a single terminal is one step.
proof fn lemma_apply_entries_singleton(st: ClassState, e: LeafEntry)
    ensures
        apply_entries(st, seq![e]) == apply_entry(st, e),
{
    reveal_with_fuel(apply_entries, 2);
    assert(seq![e][0] == e);
    assert(seq![e].drop_first() =~= Seq::<LeafEntry>::empty());
}

/// Recording a concatenation records the first part, then the second.
proof fn lemma_apply_entries_concat(st: ClassState, a: Seq<LeafEntry>, b: Seq<LeafEntry>)
    ensures
        apply_entries(st, a + b) == apply_entries(apply_entries(st, a), b),
    decreases a.len(),
{
    if a.len() == 0 {
        assert(a + b =~= b);
    } else {
        assert((a + b)[0] == a[0]);
        assert((a + b).drop_first() =~= a.drop_first() + b);
        lemma_apply_entries_concat(apply_entry(st, a[0]), a.drop_first(), b);
    }
}

/// The terminals of a forest extended by one subtree are the terminals of
/// the forest followed by the terminals of that subtree.
proof fn lemma_leaf_entries_seq_push(
    cs: Seq<CommandOption>,
    x: CommandOption,
    key: Option<Name>,
    depth: nat,
)
    ensures
        leaf_entries_seq(cs.push(x), key, depth) == leaf_entries_seq(cs, key, depth)
            + leaf_entries(x, key, depth),
    decreases cs.len(),
{
    if cs.len() == 0 {
        reveal_with_fuel(leaf_entries_seq, 2);
        assert(cs.push(x)[0] == x);
        assert(cs.push(x).drop_first() =~= Seq::<CommandOption>::empty());
        assert(leaf_entries_seq(cs.push(x), key, depth) =~= leaf_entries_seq(cs, key, depth)
            + leaf_entries(x, key, depth));
    } else {
        assert(cs.push(x)[0] == cs[0]);
        assert(cs.push(x).drop_first() =~= cs.drop_first().push(x));
        lemma_leaf_entries_seq_push(cs.drop_first(), x, key, depth);
        assert(leaf_entries(cs[0], key, depth) + (leaf_entries_seq(cs.drop_first(), key, depth)
            + leaf_entries(x, key, depth)) =~= (leaf_entries(cs[0], key, depth)
            + leaf_entries_seq(cs.drop_first(), key, depth)) + leaf_entries(x, key, depth));
    }
}

/// Every terminal the walk of a well-shaped subtree records is derivable.
proof fn lemma_leaf_entries_derivable(n: CommandOption, key: Option<Name>, depth: nat)
    requires
        shape_ok(n),
    ensures
        forall|t: int|
            0 <= t < leaf_entries(n, key, depth).len() ==> derivable(
                (#[trigger] leaf_entries(n, key, depth)[t]).1,
            ),
    decreases n,
{
    match n.options {
        None => {},
        Some(cs) => {
            let here: Seq<LeafEntry> = if is_terminal(n) {
                seq![entry_of(n, key, depth)]
            } else {
                seq![]
            };
            let rest = leaf_entries_seq(cs@, child_key(n, key, depth), next_depth(depth));
            if is_terminal(n) {
                lemma_terminal_derivable(n);
            }
            lemma_leaf_entries_seq_derivable(cs@, child_key(n, key, depth), next_depth(depth));
            assert forall|t: int|
                0 <= t < leaf_entries(n, key, depth).len() implies derivable(
                (#[trigger] leaf_entries(n, key, depth)[t]).1,
            ) by {
                if t < here.len() {
                    assert(leaf_entries(n, key, depth)[t] == here[t]);
                } else {
                    assert(leaf_entries(n, key, depth)[t] == rest[t - here.len()]);
                }
            }
        },
    }
}

/// Every terminal the walk of a forest of well-shaped subtrees records is
/// derivable.
proof fn lemma_leaf_entries_seq_derivable(cs: Seq<CommandOption>, key: Option<Name>, depth: nat)
    requires
        forall|i: int| 0 <= i < cs.len() ==> shape_ok(#[trigger] cs[i]),
    ensures
        forall|t: int|
            0 <= t < leaf_entries_seq(cs, key, depth).len() ==> derivable(
                (#[trigger] leaf_entries_seq(cs, key, depth)[t]).1,
            ),
    decreases cs,
{
    if cs.len() > 0 {
        let head = leaf_entries(cs[0], key, depth);
        let tail = leaf_entries_seq(cs.drop_first(), key, depth);
        lemma_leaf_entries_derivable(cs[0], key, depth);
        assert forall|i: int| 0 <= i < cs.drop_first().len() implies shape_ok(
            #[trigger] cs.drop_first()[i],
        ) by {
            assert(cs.drop_first()[i] == cs[i + 1]);
        }
        lemma_leaf_entries_seq_derivable(cs.drop_first(), key, depth);
        assert forall|t: int|
            0 <= t < leaf_entries_seq(cs, key, depth).len() implies derivable(
            (#[trigger] leaf_entries_seq(cs, key, depth)[t]).1,
        ) by {
            if t < head.len() {
                assert(leaf_entries_seq(cs, key, depth)[t] == head[t]);
            } else {
                assert(leaf_entries_seq(cs, key, depth)[t] == tail[t - head.len()]);
            }
        }
    }
}

/// Every node held by a classification state is derivable.
pub open spec fn state_derivable(st: ClassState) -> bool {
    &&& forall|i: int| 0 <= i < st.0.len() ==> derivable(#[trigger] st.0[i])
    &&& forall|i: int, j: int|
        0 <= i < st.1.len() && 0 <= j < st.1[i].1.len() ==> derivable(#[trigger] st.1[i].1[j])
}

/// Recording derivable terminals preserves a derivable state.
proof fn lemma_apply_entries_derivable(st: ClassState, es: Seq<LeafEntry>)
    requires
        state_derivable(st),
        forall|t: int| 0 <= t < es.len() ==> derivable((#[trigger] es[t]).1),
    ensures
        state_derivable(apply_entries(st, es)),
    decreases es.len(),
{
    if es.len() > 0 {
        let st2 = apply_entry(st, es[0]);
        assert(state_derivable(st2)) by {
            match es[0].0 {
                None => {
                    assert forall|i: int| 0 <= i < st2.0.len() implies derivable(
                        #[trigger] st2.0[i],
                    ) by {
                        if i < st.0.len() {
                            assert(st2.0[i] == st.0[i]);
                        } else {
                            assert(st2.0[i] == es[0].1);
                        }
                    }
                },
                Some(k) => {
                    lemma_find_key_from(st.1, k, 0);
                    assert forall|i: int, j: int|
                        0 <= i < st2.1.len() && 0 <= j < st2.1[i].1.len() implies derivable(
                        #[trigger] st2.1[i].1[j],
                    ) by {
                        match find_key(st.1, k) {
                            Some(gi) => {
                                if i == gi && j == st.1[gi].1.len() {
                                    assert(st2.1[i].1[j] == es[0].1);
                                } else {
                                    assert(st2.1[i].1[j] == st.1[i].1[j]);
                                }
                            },
                            None => {
                                if i < st.1.len() {
                                    assert(st2.1[i].1[j] == st.1[i].1[j]);
                                } else {
                                    assert(st2.1[i].1[j] == es[0].1);
                                }
                            },
                        }
                    }
                },
            }
        }
        assert forall|t: int| 0 <= t < es.drop_first().len() implies derivable(
            (#[trigger] es.drop_first()[t]).1,
        ) by {
            assert(es.drop_first()[t] == es[t + 1]);
        }
        lemma_apply_entries_derivable(st2, es.drop_first());
    }
}

/// No two groups share a name: the groups form a mapping.
pub open spec fn keys_distinct(gs: Seq<(Name, Seq<CommandOption>)>) -> bool {
    forall|i: int, j: int|
        0 <= i < j < gs.len() ==> !name_eq((#[trigger] gs[i]).0, (#[trigger] gs[j]).0)
}

/// Recording a grouped terminal never duplicates a group name.
proof fn lemma_add_to_groups_keys(gs: Seq<(Name, Seq<CommandOption>)>, key: Name, node: CommandOption)
    requires
        keys_distinct(gs),
    ensures
        keys_distinct(add_to_groups(gs, key, node)),
{
    lemma_find_key_from(gs, key, 0);
    let gs2 = add_to_groups(gs, key, node);
    match find_key(gs, key) {
        Some(gi) => {
            assert forall|i: int, j: int| 0 <= i < j < gs2.len() implies !name_eq(
                (#[trigger] gs2[i]).0,
                (#[trigger] gs2[j]).0,
            ) by {
                assert(gs2[i].0 == gs[i].0);
                assert(gs2[j].0 == gs[j].0);
            }
        },
        None => {
            assert forall|i: int, j: int| 0 <= i < j < gs2.len() implies !name_eq(
                (#[trigger] gs2[i]).0,
                (#[trigger] gs2[j]).0,
            ) by {
                if j < gs.len() {
                    assert(gs2[i].0 == gs[i].0);
                    assert(gs2[j].0 == gs[j].0);
                } else {
                    assert(gs2[i].0 == gs[i].0);
                    assert(gs2[j].0 == key);
                    assert(!name_eq(gs[i].0, key));
                }
            }
        },
    }
}

/// Recording any terminals preserves distinct group names.
proof fn lemma_apply_entries_keys(st: ClassState, es: Seq<LeafEntry>)
    requires
        keys_distinct(st.1),
    ensures
        keys_distinct(apply_entries(st, es).1),
    decreases es.len(),
{
    if es.len() > 0 {
        let st2 = apply_entry(st, es[0]);
        match es[0].0 {
            None => {},
            Some(k) => {
                lemma_add_to_groups_keys(st.1, k, es[0].1);
            },
        }
        lemma_apply_entries_keys(st2, es.drop_first());
    }
}

/// The groups of a classification form an ordered mapping: each group name
/// occurs exactly once.
pub proof fn lemma_classification_keys_unique(root: CommandOption)
    ensures
        keys_distinct(classification(root).1),
{
    lemma_apply_entries_keys((seq![], seq![]), leaf_entries(root, None, 0));
}

/// Every node classified out of a well-shaped schema is derivable.
pub proof fn lemma_classification_derivable(root: CommandOption)
    requires
        shape_ok(root),
    ensures
        state_derivable(classification(root)),
{
    lemma_leaf_entries_derivable(root, None, 0);
    lemma_apply_entries_derivable((seq![], seq![]), leaf_entries(root, None, 0));
}

/// The nodes a sequence of borrows points at.
pub open spec fn deref_seq(s: Seq<&CommandOption>) -> Seq<CommandOption> {
    s.map_values(|r: &CommandOption| *r)
}

/// The mathematical groups a vector of `(name, members)` pairs stands for.
pub open spec fn groups_view(gs: Seq<(Name, Vec<&CommandOption>)>) -> Seq<
    (Name, Seq<CommandOption>),
> {
    gs.map_values(|g: (Name, Vec<&CommandOption>)| (g.0, deref_seq(g.1@)))
}

/// The slot of the existing group with this name, if any.
fn find_group_slot(groups: &Vec<(Name, Vec<&CommandOption>)>, k: &Name) -> (r: Option<usize>)
    ensures
        match r {
            Some(i) => find_key(groups_view(groups@), *k) == Some(i as int),
            None => find_key(groups_view(groups@), *k) is None,
        },
{
    let ghost gv = groups_view(groups@);
    let n = groups.len();
    let mut i: usize = 0;
    while i < n
        invariant
            i <= n,
            n == groups@.len(),
            gv == groups_view(groups@),
            gv.len() == n,
            forall|j: int| 0 <= j < n ==> (#[trigger] gv[j]).0 == groups@[j].0,
            find_key(gv, *k) == find_key_from(gv, *k, i as int),
        decreases n - i,
    {
        if groups[i].0 == *k {
            return Some(i);
        }
        i = i + 1;
    }
    None
}

/// The classification walk over one subtree, appending what it finds to the
/// two accumulators.
fn recurse<'a>(
    next: &'a CommandOption,
    key: Option<Name>,
    depth: u64,
    root: &mut Vec<&'a CommandOption>,
    groups: &mut Vec<(Name, Vec<&'a CommandOption>)>,
)
    requires
        depth <= 2,
        (depth <= 1) == (key is None),
    ensures
        (deref_seq(final(root)@), groups_view(final(groups)@)) == apply_entries(
            (deref_seq(old(root)@), groups_view(old(groups)@)),
            leaf_entries(*next, key, depth as nat),
        ),
    decreases *next,
{
    let ghost st0: ClassState = (deref_seq(root@), groups_view(groups@));
    match &next.options {
        None => {},
        Some(cs) => {
            let ghost here: Seq<LeafEntry> = if is_terminal(*next) {
                seq![entry_of(*next, key, depth as nat)]
            } else {
                seq![]
            };
            let ghost st1 = apply_entries(st0, here);
            let term = next.terminal();
            if term {
                let ghost e = entry_of(*next, key, depth as nat);
                proof {
                    lemma_apply_entries_singleton(st0, e);
                    assert(st1 == apply_entry(st0, e));
                }
                if depth <= 1 {
                    root.push(next);
                    proof {
                        assert(e.0 is None);
                        assert(deref_seq(root@) =~= st0.0.push(*next));
                    }
                } else {
                    let k = match key {
                        Some(k) => k,
                        None => vstd::pervasive::unreached(),
                    };
                    proof {
                        assert(e.0 == Some(k));
                    }
                    match find_group_slot(groups, &k) {
                        Some(gi) => {
                            proof {
                                lemma_find_key_from(st0.1, k, 0);
                            }
                            let ghost g0 = groups@;
                            let mut entry = groups.remove(gi);
                            entry.1.push(next);
                            let ghost entryv = entry;
                            groups.insert(gi, entry);
                            proof {
                                assert(groups@ =~= g0.update(gi as int, entryv));
                                assert(deref_seq(entryv.1@) =~= st0.1[gi as int].1.push(*next));
                                assert(groups_view(groups@) =~= add_to_groups(st0.1, k, *next));
                            }
                        },
                        None => {
                            let mut v: Vec<&CommandOption> = Vec::new();
                            v.push(next);
                            let ghost vv = v;
                            groups.push((k, v));
                            proof {
                                assert(deref_seq(vv@) =~= seq![*next]);
                                assert(groups_view(groups@) =~= add_to_groups(st0.1, k, *next));
                            }
                        },
                    }
                }
            }
            proof {
                assert((deref_seq(root@), groups_view(groups@)) == st1);
            }
            let k2: Option<Name> = if depth == 1 {
                Some(next.name)
            } else {
                key
            };
            let d2: u64 = if depth < 2 {
                depth + 1
            } else {
                2
            };
            proof {
                assert(k2 == child_key(*next, key, depth as nat));
                assert(d2 as nat == next_depth(depth as nat));
            }
            let n = cs.len();
            let mut i: usize = 0;
            while i < n
                invariant
                    i <= n,
                    n == cs@.len(),
                    next.options matches Some(v) && v@ == cs@,
                    d2 <= 2,
                    (d2 <= 1) == (k2 is None),
                    (deref_seq(root@), groups_view(groups@)) == apply_entries(
                        st1,
                        leaf_entries_seq(cs@.take(i as int), k2, d2 as nat),
                    ),
                decreases n - i,
            {
                let ghost st_before = (deref_seq(root@), groups_view(groups@));
                recurse(&cs[i], k2, d2, root, groups);
                proof {
                    assert(cs@.take(i as int + 1) =~= cs@.take(i as int).push(cs@[i as int]));
                    lemma_leaf_entries_seq_push(
                        cs@.take(i as int),
                        cs@[i as int],
                        k2,
                        d2 as nat,
                    );
                    lemma_apply_entries_concat(
                        st1,
                        leaf_entries_seq(cs@.take(i as int), k2, d2 as nat),
                        leaf_entries(cs@[i as int], k2, d2 as nat),
                    );
                }
                i = i + 1;
            }
            proof {
                assert(cs@.take(n as int) =~= cs@);
                lemma_apply_entries_concat(
                    st0,
                    here,
                    leaf_entries_seq(cs@, k2, d2 as nat),
                );
                assert(here + leaf_entries_seq(cs@, k2, d2 as nat) == leaf_entries(
                    *next,
                    key,
                    depth as nat,
                ));
            }
        },
    }
}

/// Walks the schema tree and partitions its terminal commands into root
/// leaves and named groups, both in pre-order.
pub fn extract_modules<'a>(schema: &'a CommandOption) -> (r: (
    Vec<&'a CommandOption>,
    Vec<(Name, Vec<&'a CommandOption>)>,
))
    ensures
        deref_seq(r.0@) == classification(*schema).0,
        groups_view(r.1@) == classification(*schema).1,
        keys_distinct(groups_view(r.1@)),
{
    let mut root: Vec<&CommandOption> = Vec::new();
    let mut groups: Vec<(Name, Vec<&CommandOption>)> = Vec::new();
    proof {
        assert(deref_seq(root@) =~= Seq::<CommandOption>::empty());
        assert(groups_view(groups@) =~= Seq::<(Name, Seq<CommandOption>)>::empty());
    }
    recurse(schema, None, 0, &mut root, &mut groups);
    proof {
        lemma_classification_keys_unique(*schema);
    }
    (root, groups)
}

} // verus!
