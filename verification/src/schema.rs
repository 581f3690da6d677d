//! The schema model: one node of the command tree.
//!
//! A node carries a validated name, an optional type tag, and an optional
//! ordered list of child nodes. An absent list marks a leaf (a primitive
//! option); an empty-but-present list marks a command that takes no
//! arguments.

use vstd::prelude::*;
use crate::name::Name;

verus! {

/// The type tag of a schema node. `Str`, `Bool` and `U64` tag leaf options
/// carrying a value of that primitive type; `Subcommand` tags a node whose
/// children are themselves commands or groups.
#[derive(Clone, Copy, Debug, PartialEq, Eq, Structural)]
pub enum Kind {
    Str,
    Bool,
    U64,
    Subcommand,
}

/// A tag that carries a directly-typed value.
pub open spec fn is_primitive(k: Kind) -> bool {
    k != Kind::Subcommand
}

/// The fixed mapping from raw type codes to tags: 1 and 2 mark subcommands,
/// 3 and 6 through 9 mark strings, 4 marks integers, 5 marks booleans, and
/// every other code is invalid.
pub open spec fn kind_of_tag(raw: u64) -> Option<Kind> {
    if raw == 1 || raw == 2 {
        Some(Kind::Subcommand)
    } else if raw == 3 || (6 <= raw && raw <= 9) {
        Some(Kind::Str)
    } else if raw == 4 {
        Some(Kind::U64)
    } else if raw == 5 {
        Some(Kind::Bool)
    } else {
        None
    }
}

/// Maps a raw type code to its tag; fails exactly on codes outside the fixed
/// mapping.
pub fn parse_kind(raw: u64) -> (r: Option<Kind>)
    ensures
        r == kind_of_tag(raw),
{
    if raw == 1 || raw == 2 {
        Some(Kind::Subcommand)
    } else if raw == 3 || (6 <= raw && raw <= 9) {
        Some(Kind::Str)
    } else if raw == 4 {
        Some(Kind::U64)
    } else if raw == 5 {
        Some(Kind::Bool)
    } else {
        None
    }
}

/// One node of the schema tree.
#[derive(Debug, PartialEq)]
pub struct CommandOption {
    pub name: Name,
    pub kind: Option<Kind>,
    pub options: Option<Vec<CommandOption>>,
}

/// The children of a node; a node without an options list has none.
pub open spec fn children_of(n: CommandOption) -> Seq<CommandOption> {
    match n.options {
        Some(cs) => cs@,
        None => Seq::empty(),
    }
}

/// A terminal command: a node with an options list, all of whose children
/// are leaves. A node without an options list is never terminal.
pub open spec fn is_terminal(n: CommandOption) -> bool {
    n.options is Some && forall|i: int|
        0 <= i < children_of(n).len() ==> (#[trigger] children_of(n)[i]).options is None
}

/// A child that can become a record field: a leaf with a primitive tag.
pub open spec fn field_child_ok(c: CommandOption) -> bool {
    c.kind matches Some(k) && is_primitive(k)
}

/// A well-shaped schema subtree: no node tagged as a primitive has
/// children, and every child of a terminal command has a primitive tag.
/// An empty-but-present options list marks a command without arguments,
/// so it is no shape error, whatever the tag.
pub open spec fn shape_ok(n: CommandOption) -> bool
    decreases n,
{
    match n.options {
        None => true,
        Some(cs) => {
            &&& (cs@.len() > 0 ==> !(n.kind matches Some(k) && is_primitive(k)))
            &&& (is_terminal(n) ==> forall|i: int|
                0 <= i < cs@.len() ==> field_child_ok(#[trigger] cs@[i]))
            &&& forall|i: int| 0 <= i < cs@.len() ==> shape_ok(#[trigger] cs@[i])
        },
    }
}

/// A node whose record can be derived: it has an options list and every
/// child can become a field.
pub open spec fn derivable(n: CommandOption) -> bool {
    &&& n.options is Some
    &&& forall|j: int| 0 <= j < children_of(n).len() ==> field_child_ok(#[trigger] children_of(n)[j])
}

/// A well-shaped terminal command is derivable.
pub proof fn lemma_terminal_derivable(n: CommandOption)
    requires
        shape_ok(n),
        is_terminal(n),
    ensures
        derivable(n),
{
}

/// The name of the target-language type for a primitive tag.
pub open spec fn kind_name(k: Kind) -> Seq<char> {
    match k {
        Kind::Str => "String"@,
        Kind::Bool => "bool"@,
        Kind::U64 => "u64"@,
        Kind::Subcommand => Seq::empty(),
    }
}

impl CommandOption {
    /// The target-language type of this node's value, for a node tagged with
    /// a primitive.
    pub fn as_type(&self) -> (r: &'static str)
        requires
            self.kind matches Some(k) && is_primitive(k),
        ensures
            r@ == kind_name(self.kind->0),
    {
        self.print_kind()
    }

    /// The target-language type of this node's value, for a node tagged with
    /// a primitive.
    pub fn print_kind(&self) -> (r: &'static str)
        requires
            self.kind matches Some(k) && is_primitive(k),
        ensures
            r@ == kind_name(self.kind->0),
    {
        match self.kind {
            Some(Kind::Str) => "String",
            Some(Kind::Bool) => "bool",
            Some(Kind::U64) => "u64",
            _ => {
                proof {
                    assert(false);
                }
                ""
            },
        }
    }

    /// Whether this node is a terminal command.
    pub fn terminal(&self) -> (r: bool)
        ensures
            r == is_terminal(*self),
    {
        match &self.options {
            None => false,
            Some(cs) => {
                let n = cs.len();
                let mut i: usize = 0;
                while i < n
                    invariant
                        i <= n,
                        n == cs@.len(),
                        self.options matches Some(v) && v@ == cs@,
                        forall|j: int| 0 <= j < i ==> (#[trigger] cs@[j]).options is None,
                    decreases n - i,
                {
                    if cs[i].options.is_some() {
                        return false;
                    }
                    i = i + 1;
                }
                true
            },
        }
    }

    /// Whether this subtree is well-shaped.
    pub fn well_shaped(&self) -> (r: bool)
        ensures
            r == shape_ok(*self),
        decreases *self,
    {
        match &self.options {
            None => true,
            Some(cs) => {
                let prim = match self.kind {
                    Some(k) => !matches!(k, Kind::Subcommand),
                    None => false,
                };
                if prim && cs.len() > 0 {
                    return false;
                }
                let term = self.terminal();
                let n = cs.len();
                let mut i: usize = 0;
                while i < n
                    invariant
                        i <= n,
                        n == cs@.len(),
                        self.options matches Some(v) && v@ == cs@,
                        cs@.len() > 0 ==> !(self.kind matches Some(k) && is_primitive(k)),
                        term == is_terminal(*self),
                        term ==> forall|j: int| 0 <= j < i ==> field_child_ok(#[trigger] cs@[j]),
                        forall|j: int| 0 <= j < i ==> shape_ok(#[trigger] cs@[j]),
                    decreases n - i,
                {
                    if term {
                        let ok = match cs[i].kind {
                            Some(k) => !matches!(k, Kind::Subcommand),
                            None => false,
                        };
                        if !ok {
                            return false;
                        }
                    }
                    if !cs[i].well_shaped() {
                        return false;
                    }
                    i = i + 1;
                }
                true
            },
        }
    }
}

} // verus!
