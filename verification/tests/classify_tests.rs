use typed_interactions::classify::extract_modules;
use typed_interactions::name::Name;
use typed_interactions::schema::{CommandOption, Kind};

fn nm(s: &str) -> Name {
    Name::new(s).unwrap()
}

fn node(name: &str, kind: Option<Kind>, options: Option<Vec<CommandOption>>) -> CommandOption {
    CommandOption {
        name: nm(name),
        kind,
        options,
    }
}

fn leaf(name: &str, kind: Kind) -> CommandOption {
    node(name, Some(kind), None)
}

fn cmd(name: &str, options: Vec<CommandOption>) -> CommandOption {
    node(name, Some(Kind::Subcommand), Some(options))
}

#[test]
fn classification() {
    // One root leaf `a` and one two-level group `g` with terminals x and y:
    // `a` lands in the root leaves, x and y in the group, in input order.
    let root = node(
        "cmd",
        None,
        Some(vec![
            node("a", Some(Kind::Str), Some(vec![])),
            cmd(
                "g",
                vec![
                    cmd("x", vec![leaf("vx", Kind::Str)]),
                    cmd("y", vec![leaf("vy", Kind::Str)]),
                ],
            ),
        ]),
    );
    let (leaves, groups) = extract_modules(&root);
    assert_eq!(leaves.len(), 1);
    assert_eq!(leaves[0].name, nm("a"));
    assert_eq!(groups.len(), 1);
    assert_eq!(groups[0].0, nm("g"));
    let members: Vec<&str> = vec!["x", "y"];
    assert_eq!(groups[0].1.len(), members.len());
    for (m, expected) in groups[0].1.iter().zip(members) {
        assert_eq!(m.name, nm(expected));
    }
}

#[test]
fn extracts_modules() {
    // Several subgroups: each keeps its members in order, and a root-level
    // terminal stays out of every group.
    let root = node(
        "cmd",
        None,
        Some(vec![
            cmd("p", vec![leaf("v", Kind::U64)]),
            cmd(
                "g1",
                vec![
                    cmd("c1", vec![leaf("a", Kind::Str)]),
                    cmd("c2", vec![leaf("b", Kind::Bool)]),
                ],
            ),
            cmd("g2", vec![cmd("c3", vec![leaf("c", Kind::Str)])]),
        ]),
    );
    let (leaves, groups) = extract_modules(&root);
    assert_eq!(leaves.len(), 1);
    assert_eq!(leaves[0].name, nm("p"));
    assert_eq!(groups.len(), 2);
    assert_eq!(groups[0].0, nm("g1"));
    assert_eq!(groups[0].1.len(), 2);
    assert_eq!(groups[0].1[0].name, nm("c1"));
    assert_eq!(groups[0].1[1].name, nm("c2"));
    assert_eq!(groups[1].0, nm("g2"));
    assert_eq!(groups[1].1.len(), 1);
    assert_eq!(groups[1].1[0].name, nm("c3"));
}

#[test]
fn terminal_root_classifies_itself() {
    let root = node(
        "test",
        None,
        Some(vec![
            leaf("a", Kind::Str),
            leaf("b", Kind::Str),
            leaf("c", Kind::Str),
        ]),
    );
    let (leaves, groups) = extract_modules(&root);
    assert_eq!(leaves.len(), 1);
    assert_eq!(leaves[0].name, nm("test"));
    assert!(groups.is_empty());
}

#[test]
fn childless_root_classifies_nothing() {
    let root = leaf("test", Kind::Str);
    let (leaves, groups) = extract_modules(&root);
    assert!(leaves.is_empty());
    assert!(groups.is_empty());
}

#[test]
fn groups_with_equal_names_merge_even_apart() {
    // Two depth-one nodes named `g` separated by `h`: the groups form a
    // mapping, so the second `g` joins the first group where it stands.
    let root = node(
        "cmd",
        None,
        Some(vec![
            cmd("g", vec![cmd("s1", vec![leaf("a", Kind::Str)])]),
            cmd("h", vec![cmd("t1", vec![leaf("b", Kind::Str)])]),
            cmd("g", vec![cmd("s2", vec![leaf("c", Kind::Str)])]),
        ]),
    );
    let (leaves, groups) = extract_modules(&root);
    assert!(leaves.is_empty());
    assert_eq!(groups.len(), 2);
    assert_eq!(groups[0].0, nm("g"));
    assert_eq!(groups[0].1.len(), 2);
    assert_eq!(groups[0].1[0].name, nm("s1"));
    assert_eq!(groups[0].1[1].name, nm("s2"));
    assert_eq!(groups[1].0, nm("h"));
    assert_eq!(groups[1].1.len(), 1);
    assert_eq!(groups[1].1[0].name, nm("t1"));
}

#[test]
fn adjacent_groups_with_equal_names_merge() {
    let root = node(
        "cmd",
        None,
        Some(vec![
            cmd("g", vec![cmd("s1", vec![leaf("a", Kind::Str)])]),
            cmd("g", vec![cmd("s2", vec![leaf("b", Kind::Str)])]),
        ]),
    );
    let (leaves, groups) = extract_modules(&root);
    assert!(leaves.is_empty());
    assert_eq!(groups.len(), 1);
    assert_eq!(groups[0].0, nm("g"));
    assert_eq!(groups[0].1.len(), 2);
    assert_eq!(groups[0].1[0].name, nm("s1"));
    assert_eq!(groups[0].1[1].name, nm("s2"));
}
