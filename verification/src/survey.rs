//! The survey as the function chart reads it: every declaration with its
//! head, its body rows and its diff, and the references, impls and holds
//! that run between them.

use vstd::prelude::*;

use crate::kinds::{Delta, HoldEvent, ItemKind, Vis};

verus! {

/// One source file: where it is written and the crate it belongs to.
#[derive(Clone, Debug, PartialEq)]
pub struct FileInfo {
    pub path: String,
    /// The cargo package name.
    pub krate: String,
}

/// What a declaration's head says.
#[derive(Clone, Debug, PartialEq)]
pub struct DeclHead {
    /// The last segment of the name.
    pub name: String,
    /// The label a URL selects it by: `Type::method`, or the plain name.
    pub label: String,
    pub kind: ItemKind,
    pub vis: Vis,
    pub line: u32,
}

/// One row of a declaration's body: a field, or a parameter.
#[derive(Clone, Debug, PartialEq)]
pub struct DeclRow {
    pub name: String,
    pub ty: String,
}

/// One method written on a type or trait, as its impl block lists it.
#[derive(Clone, Debug, PartialEq)]
pub struct MethodRow {
    pub name: String,
    pub sig: String,
    /// The method's own mark.
    pub mark: u32,
    /// The header of the block it is written in: `impl Clone for Vis`,
    /// `trait Words`, `impl Plate`.
    pub section: String,
}

/// A declaration's body: its rows, its type or return type, its methods.
#[derive(Clone, Debug, PartialEq, Default)]
pub struct DeclBody {
    pub field_rows: Vec<DeclRow>,
    /// The declared type of a static or alias, or a function's return type;
    /// empty where there is none.
    pub ty: String,
    pub method_rows: Vec<MethodRow>,
}

/// How far a declaration is reached from elsewhere; the function chart
/// reads none of it.
#[derive(Clone, Debug, PartialEq, Default)]
pub struct Reach {
    pub fan_in: u32,
}

/// How a declaration stands against the diff base.
#[derive(Clone, Debug, PartialEq, Default)]
pub struct Diff {
    pub delta: Delta,
    /// The body rows the diff added, by index.
    pub fields_added: Vec<u32>,
}

/// One declaration.
#[derive(Clone, Debug, PartialEq)]
pub struct ItemMark {
    pub id: u32,
    /// The file it is written in, by index into [`CodeGraph::files`].
    pub file: u32,
    /// The type or trait whose block a method is written in.
    pub parent: Option<u32>,
    pub head: DeclHead,
    pub body: DeclBody,
    pub reach: Reach,
    pub diff: Diff,
}

/// References from one declaration's body to another's, counted.
#[derive(Clone, Copy, Debug, PartialEq)]
pub struct MarkRef {
    pub from: u32,
    pub to: u32,
    pub count: u32,
}

/// A type that implements a workspace trait.
#[derive(Clone, Copy, Debug, PartialEq)]
pub struct ImplEdge {
    pub trait_mark: u32,
    pub ty: u32,
    pub event: Option<HoldEvent>,
}

/// One declaration's signature naming another: a field's type, or a
/// parameter's. A method's edges are filed on its owner with `from_method`
/// set, and name the method among their `fields`.
#[derive(Clone, Debug, PartialEq)]
pub struct HoldEdge {
    pub from: u32,
    pub to: u32,
    pub from_method: bool,
    /// (row name, row type) for every row that names `to`.
    pub fields: Vec<(String, String)>,
}

/// What the survey could not finish.
#[derive(Clone, Copy, Debug, PartialEq, Default)]
pub struct Limits {
    pub unresolved: u32,
}

/// The whole survey.
#[derive(Clone, Debug, PartialEq)]
pub struct CodeGraph {
    pub files: Vec<FileInfo>,
    /// Every declaration, its id its index.
    pub items: Vec<ItemMark>,
    pub implements: Vec<ImplEdge>,
    pub refs: Vec<MarkRef>,
    pub holds: Vec<HoldEdge>,
    /// Declarations the diff base has and the tree no longer does.
    pub ghosts: Vec<ItemMark>,
    pub limits: Limits,
}

impl CodeGraph {
    pub open spec fn has_item(&self, id: int) -> bool {
        0 <= id < self.items@.len()
    }

    pub open spec fn has_file(&self, id: int) -> bool {
        0 <= id < self.files@.len()
    }

    /// One declaration by id.
    pub fn item(&self, id: u32) -> (m: Option<&ItemMark>)
        ensures
            m matches Some(x) ==> self.has_item(id as int) && *x == self.items@[id as int],
            m is None ==> !self.has_item(id as int),
    {
        if (id as usize) < self.items.len() {
            Some(&self.items[id as usize])
        } else {
            None
        }
    }

    /// One file by index.
    pub fn file(&self, id: u32) -> (f: Option<&FileInfo>)
        ensures
            f matches Some(x) ==> self.has_file(id as int) && *x == self.files@[id as int],
            f is None ==> !self.has_file(id as int),
    {
        if (id as usize) < self.files.len() {
            Some(&self.files[id as usize])
        } else {
            None
        }
    }
}

} // verus!
