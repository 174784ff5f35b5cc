//! The survey as the data chart reads it: files, declarations, the holding
//! edges between types, and the references between items.

use vstd::prelude::*;
use crate::kinds::{Delta, HoldEvent, HoldKind, ItemKind, Vis};

verus! {

/// One surveyed file.
#[derive(Clone, Debug)]
pub struct FileInfo {
    pub id: u32,
    /// Relative to the workspace root.
    pub path: String,
    /// The cargo package the file belongs to.
    pub krate: String,
    /// The epoch touched this file.
    pub changed: bool,
    pub lines: u32,
    pub items: u32,
    pub refs_in_files: u32,
}

/// One declaration the survey found, in the working copy.
#[derive(Clone, Debug)]
pub struct ItemMark {
    pub id: u32,
    /// Index of the defining file.
    pub file: u32,
    pub local: u32,
    pub name: String,
    pub label: String,
    pub kind: ItemKind,
    pub vis: Vis,
    pub line: u32,
    /// The type a method's impl names; none for a free declaration.
    pub parent: Option<u32>,
    /// How much of the workspace names it.
    pub fan_in: u32,
    pub impls: Vec<u32>,
    /// Fields — or a function's parameters — as (name, declared type).
    pub field_rows: Vec<(String, String)>,
    /// An enum's variants as written.
    pub variants: Vec<String>,
    /// A static's declared type or a function's return type.
    pub ty: String,
    pub delta: Delta,
    /// Indices of field rows the diff added.
    pub fields_added: Vec<u32>,
    /// Field rows the base had: (index they stood before, name, type).
    pub fields_removed: Vec<(u32, String, String)>,
    pub variants_added: Vec<u32>,
    pub variants_removed: Vec<(u32, String)>,
}

/// A declaration the base had and the working copy does not. Ghosts share the
/// marks' id space, continuing after the items.
#[derive(Clone, Debug)]
pub struct GhostMark {
    pub id: u32,
    pub path: String,
    pub krate: String,
    pub name: String,
    pub kind: ItemKind,
    pub vis: Vis,
    pub line: u32,
    pub field_rows: Vec<(String, String)>,
    pub variants: Vec<String>,
    pub ty: String,
}

/// One type holding another: `from` has fields of `to`.
#[derive(Clone, Debug)]
pub struct HoldEdge {
    pub from: u32,
    pub to: u32,
    pub kind: HoldKind,
    /// The strongest wrapper on the walk, in its own word.
    pub via: String,
    /// The fields drawing this edge, as (name, declared type).
    pub fields: Vec<(String, String)>,
    pub event: Option<HoldEvent>,
}

/// References between two items, summed.
#[derive(Clone, Debug)]
pub struct ItemEdge {
    pub from_file: u32,
    pub from: Option<u32>,
    pub to_file: u32,
    pub to: Option<u32>,
    pub count: u32,
}

/// References between two files, summed.
#[derive(Clone, Debug)]
pub struct FileRef {
    pub from: u32,
    pub to: u32,
    pub count: u32,
}

/// Everything the survey ships to the data chart.
#[derive(Clone, Debug)]
pub struct CodeGraph {
    pub files: Vec<FileInfo>,
    pub refs: Vec<FileRef>,
    pub items: Vec<ItemMark>,
    pub item_edges: Vec<ItemEdge>,
    pub holds: Vec<HoldEdge>,
    pub ghosts: Vec<GhostMark>,
    /// Names the survey could not resolve.
    pub unresolved: u32,
    pub notes: Vec<String>,
}

/// Which visibility the reader lets through as a block of its own; the rest
/// folds to its frame's counted row.
#[derive(Clone, Copy, PartialEq, Eq, Structural, Debug, Hash)]
pub enum Doors {
    /// Only `pub`.
    Pub,
    /// `pub` and `pub(crate)`.
    Crate,
    /// Everything.
    All,
}

impl Doors {
    pub open spec fn spec_admits(self, vis: Vis) -> bool {
        match self {
            Doors::Pub => vis == Vis::Pub,
            Doors::Crate => vis != Vis::Private,
            Doors::All => true,
        }
    }

    /// Whether a declaration at `vis` clears this door.
    #[verifier::when_used_as_spec(spec_admits)]
    pub fn admits(self, vis: Vis) -> (b: bool)
        ensures
            b == self.spec_admits(vis),
    {
        match self {
            Doors::Pub => vis == Vis::Pub,
            Doors::Crate => vis != Vis::Private,
            Doors::All => true,
        }
    }

    pub open spec fn spec_fold_word(self) -> Seq<char> {
        match self {
            Doors::Pub => "internal type"@,
            _ => "private type"@,
        }
    }

    /// What a frame's visibility fold row counts, in one word.
    pub fn fold_word(self) -> (s: &'static str)
        ensures
            s@ == self.spec_fold_word(),
    {
        match self {
            Doors::Pub => "internal type",
            _ => "private type",
        }
    }
}

/// Which reference ties rest on the paper: each type's uses, its users, or
/// every tie unthinned.
#[derive(Clone, Copy, PartialEq, Eq, Structural, Debug, Hash)]
pub enum RefDir {
    Uses,
    UsedBy,
    Both,
}

impl RefDir {
    pub open spec fn spec_per_territory(self) -> Option<usize> {
        match self {
            RefDir::Both => None,
            _ => Some(3),
        }
    }

    /// How many ties each type rests under this reading; none for an
    /// unthinned reading.
    #[verifier::when_used_as_spec(spec_per_territory)]
    pub fn per_territory(self) -> (r: Option<usize>)
        ensures
            r == self.spec_per_territory(),
    {
        match self {
            RefDir::Both => None,
            _ => Some(3),
        }
    }
}

impl CodeGraph {
    /// The outermost declaration containing `id`, climbing `parent` links —
    /// at most as many steps as there are items, so a malformed ring of
    /// parents still ends.
    pub open spec fn spec_root(self, id: int, fuel: nat) -> int
        decreases fuel,
    {
        if fuel == 0 || !(0 <= id < self.items.len()) {
            id
        } else {
            match self.items[id].parent {
                Some(p) => if (p as int) < self.items.len() && p as int != id {
                    self.spec_root(p as int, (fuel - 1) as nat)
                } else {
                    id
                },
                None => id,
            }
        }
    }

    /// The outermost declaration an item sits in.
    pub fn containment_root(&self, id: u32) -> (r: u32)
        ensures
            r as int == self.spec_root(id as int, self.items@.len()),
            (id as int) < self.items@.len() ==> (r as int) < self.items@.len(),
    {
        let mut at = id;
        let mut fuel = self.items.len();
        let ghost n = self.items@.len();
        while fuel > 0
            invariant
                self.spec_root(id as int, n) == self.spec_root(at as int, fuel as nat),
                fuel <= n,
                n == self.items@.len(),
                (id as int) < n ==> (at as int) < n,
            decreases fuel,
        {
            if (at as usize) >= self.items.len() {
                return at;
            }
            match self.items[at as usize].parent {
                Some(p) => {
                    if (p as usize) < self.items.len() && p != at {
                        at = p;
                        fuel = fuel - 1;
                    } else {
                        return at;
                    }
                },
                None => {
                    return at;
                },
            }
        }
        at
    }
}

} // verus!
