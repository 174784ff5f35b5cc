//! The vocabulary every survey record shares: what a declaration is, how far
//! it is visible, and how it stands against the diff base.

use vstd::prelude::*;

verus! {

/// What a declaration is, as rust spells it.
#[derive(Clone, Copy, PartialEq, Eq, Structural, Debug, Hash)]
pub enum ItemKind {
    Struct,
    Enum,
    Union,
    Trait,
    Fn,
    Static,
    Const,
    Alias,
    Macro,
}

/// How far a declaration is visible.
#[derive(Clone, Copy, PartialEq, Eq, Structural, Debug, Hash)]
pub enum Vis {
    Pub,
    Crate,
    Private,
}

/// How a declaration differs from the diff base.
#[derive(Clone, Copy, PartialEq, Eq, Structural, Debug, Hash, Default)]
pub enum Delta {
    #[default]
    Same,
    Added,
    Changed,
}

/// How one type keeps another: by value, shared behind a pointer, or borrowed.
#[derive(Clone, Copy, PartialEq, Eq, Structural, Debug, Hash)]
pub enum HoldKind {
    Owns,
    Shares,
    Borrows,
}

/// A holding relation against the diff base.
#[derive(Clone, Copy, PartialEq, Eq, Structural, Debug, Hash)]
pub enum HoldEvent {
    Added,
    Removed,
}

/// The rank of a hold kind, in declaration order.
pub open spec fn hold_rank(kind: HoldKind) -> nat {
    match kind {
        HoldKind::Owns => 0,
        HoldKind::Shares => 1,
        HoldKind::Borrows => 2,
    }
}

/// The rank of a diff event: none first, then added, then removed.
pub open spec fn event_rank(event: Option<HoldEvent>) -> nat {
    match event {
        None => 0,
        Some(HoldEvent::Added) => 1,
        Some(HoldEvent::Removed) => 2,
    }
}

pub fn hold_rank_of(kind: HoldKind) -> (r: u8)
    ensures
        r as nat == hold_rank(kind),
{
    match kind {
        HoldKind::Owns => 0,
        HoldKind::Shares => 1,
        HoldKind::Borrows => 2,
    }
}

pub fn event_rank_of(event: Option<HoldEvent>) -> (r: u8)
    ensures
        r as nat == event_rank(event),
{
    match event {
        None => 0,
        Some(HoldEvent::Added) => 1,
        Some(HoldEvent::Removed) => 2,
    }
}

impl ItemKind {
    /// A declaration that runs: a function, a method, a macro.
    pub open spec fn spec_callable(self) -> bool {
        self == ItemKind::Fn || self == ItemKind::Macro
    }

    /// A declaration the data chart draws a block for.
    pub open spec fn spec_data(self) -> bool {
        self == ItemKind::Struct || self == ItemKind::Enum || self == ItemKind::Union
            || self == ItemKind::Static
    }

    #[verifier::when_used_as_spec(spec_callable)]
    pub fn is_callable(self) -> (b: bool)
        ensures
            b == self.spec_callable(),
    {
        self == ItemKind::Fn || self == ItemKind::Macro
    }

    #[verifier::when_used_as_spec(spec_data)]
    pub fn is_data(self) -> (b: bool)
        ensures
            b == self.spec_data(),
    {
        self == ItemKind::Struct || self == ItemKind::Enum || self == ItemKind::Union
            || self == ItemKind::Static
    }

    /// Rust's keyword for the declaration.
    pub open spec fn keyword(self) -> Seq<char> {
        match self {
            ItemKind::Struct => "struct"@,
            ItemKind::Enum => "enum"@,
            ItemKind::Union => "union"@,
            ItemKind::Trait => "trait"@,
            ItemKind::Fn => "fn"@,
            ItemKind::Static => "static"@,
            ItemKind::Const => "const"@,
            ItemKind::Alias => "type"@,
            ItemKind::Macro => "macro"@,
        }
    }

    /// What rust writes in front of a declaration's name: its visibility and
    /// its keyword. A `macro_rules!` macro has no visibility of its own.
    pub open spec fn spec_decl_words(self, vis: Vis) -> Seq<char> {
        if self == ItemKind::Macro {
            self.keyword()
        } else {
            vis_prefix(vis) + self.keyword()
        }
    }

    pub fn decl_words(self, vis: &Vis) -> (s: String)
        ensures
            s@ == self.spec_decl_words(*vis),
    {
        let word = match self {
            ItemKind::Struct => "struct",
            ItemKind::Enum => "enum",
            ItemKind::Union => "union",
            ItemKind::Trait => "trait",
            ItemKind::Fn => "fn",
            ItemKind::Static => "static",
            ItemKind::Const => "const",
            ItemKind::Alias => "type",
            ItemKind::Macro => "macro",
        };
        proof {
            reveal_strlit("struct");
            reveal_strlit("enum");
            reveal_strlit("union");
            reveal_strlit("trait");
            reveal_strlit("fn");
            reveal_strlit("static");
            reveal_strlit("const");
            reveal_strlit("type");
            reveal_strlit("macro");
        }
        if self == ItemKind::Macro {
            return String::from_str(word);
        }
        let prefix = match vis {
            Vis::Pub => "pub ",
            Vis::Crate => "pub(crate) ",
            Vis::Private => "",
        };
        proof {
            reveal_strlit("pub ");
            reveal_strlit("pub(crate) ");
            reveal_strlit("");
        }
        let s = String::from_str(prefix);
        s.concat(word)
    }
}

/// The visibility as rust writes it in front of a keyword.
pub open spec fn vis_prefix(vis: Vis) -> Seq<char> {
    match vis {
        Vis::Pub => "pub "@,
        Vis::Crate => "pub(crate) "@,
        Vis::Private => ""@,
    }
}

/// `1 ref`, `3 refs`: a count and its noun, the noun taking an `s` past one.
pub open spec fn spec_plural(n: nat, word: Seq<char>) -> Seq<char> {
    if n == 1 {
        crate::text::decimal(n) + " "@ + word
    } else {
        crate::text::decimal(n) + " "@ + word + "s"@
    }
}

pub fn plural(n: u64, word: &str) -> (s: String)
    ensures
        s@ == spec_plural(n as nat, word@),
{
    let mut s = crate::text::decimal_string(n);
    s.append(" ");
    s.append(word);
    if n != 1 {
        s.append("s");
    }
    proof {
        reveal_strlit(" ");
        reveal_strlit("s");
    }
    s
}

} // verus!
