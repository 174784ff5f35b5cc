//! What one build of the function chart is asked to draw: how far the
//! visibility slider is open, and which boxes the reader folded by hand.

use vstd::prelude::*;

use vstd::std_specs::cmp::PartialEqSpec;

use crate::kinds::Vis;
use crate::paths::views;

verus! {

/// The visibility slider: the narrowest declaration the paper admits.
#[derive(Clone, Copy, PartialEq, Eq, Structural, Debug, Default)]
pub enum VisFloor {
    /// Everything, private declarations included.
    #[default]
    All,
    /// `pub(crate)` and wider.
    Crate,
    /// `pub` alone.
    Pub,
}

impl VisFloor {
    pub open spec fn spec_admits(self, vis: Vis) -> bool {
        match self {
            VisFloor::All => true,
            VisFloor::Crate => vis != Vis::Private,
            VisFloor::Pub => vis == Vis::Pub,
        }
    }

    /// Whether a declaration written at `vis` is on the paper.
    #[verifier::when_used_as_spec(spec_admits)]
    pub fn admits(self, vis: Vis) -> (b: bool)
        ensures
            b == self.spec_admits(vis),
    {
        match self {
            VisFloor::All => true,
            VisFloor::Crate => vis != Vis::Private,
            VisFloor::Pub => vis == Vis::Pub,
        }
    }
}

/// One fold, named the way it has to survive the next build: a module by
/// its crate and path, a container by the file and label its type is
/// selected by.
#[derive(Clone, PartialEq, Debug)]
pub enum FoldAt {
    Module(Vec<String>),
    Owner(String, String),
}

/// A fold's name as plain text.
pub enum FoldView {
    Module(Seq<Seq<char>>),
    Owner(Seq<char>, Seq<char>),
}

impl FoldAt {
    pub open spec fn view(self) -> FoldView {
        match self {
            FoldAt::Module(key) => FoldView::Module(views(key@)),
            FoldAt::Owner(path, label) => FoldView::Owner(path@, label@),
        }
    }
}

pub open spec fn fold_views(v: Seq<FoldAt>) -> Seq<FoldView> {
    v.map_values(|f: FoldAt| f.view())
}

/// A copy of a slice of strings, string for string.
pub fn copy_strings(v: &[String]) -> (out: Vec<String>)
    ensures
        views(out@) == views(v@),
{
    let mut out: Vec<String> = Vec::new();
    let mut i: usize = 0;
    while i < v.len()
        invariant
            i <= v@.len(),
            out@.len() == i,
            forall|k: int| 0 <= k < i ==> #[trigger] out@[k]@ == v@[k]@,
        decreases v.len() - i,
    {
        let x = v[i].clone();
        out.push(x);
        i = i + 1;
    }
    assert(views(out@) =~= views(v@));
    out
}

/// The fold of one module frame, by the key the frame carries.
pub fn mod_fold(key: &[String]) -> (f: FoldAt)
    ensures
        f.view() == FoldView::Module(views(key@)),
{
    FoldAt::Module(copy_strings(key))
}

/// The fold of one owner container, by its type's file and label.
pub fn owner_fold(path: &str, label: &str) -> (f: FoldAt)
    ensures
        f.view() == FoldView::Owner(path@, label@),
{
    FoldAt::Owner(path.to_string(), label.to_string())
}

/// Two lists of strings are the same, string for string.
pub fn same_strings(a: &Vec<String>, b: &Vec<String>) -> (r: bool)
    ensures
        r == (views(a@) == views(b@)),
{
    if a.len() != b.len() {
        proof {
            assert(views(a@).len() != views(b@).len());
        }
        return false;
    }
    let mut i: usize = 0;
    while i < a.len()
        invariant
            i <= a@.len(),
            a@.len() == b@.len(),
            forall|k: int| 0 <= k < i ==> #[trigger] a@[k]@ == b@[k]@,
        decreases a.len() - i,
    {
        if !a[i].eq(&b[i]) {
            proof {
                assert(views(a@)[i as int] != views(b@)[i as int]);
            }
            return false;
        }
        i = i + 1;
    }
    assert(views(a@) =~= views(b@));
    true
}

/// Two folds name the same box.
pub fn same_fold(a: &FoldAt, b: &FoldAt) -> (r: bool)
    ensures
        r == (a.view() == b.view()),
{
    match (a, b) {
        (FoldAt::Module(x), FoldAt::Module(y)) => same_strings(x, y),
        (FoldAt::Owner(p, l), FoldAt::Owner(q, m)) => p.eq(q) && l.eq(m),
        _ => false,
    }
}

/// Whether a fold is among a set of folds.
pub fn fold_in(folds: &Vec<FoldAt>, f: &FoldAt) -> (r: bool)
    ensures
        r == fold_views(folds@).contains(f.view()),
{
    let mut i: usize = 0;
    while i < folds.len()
        invariant
            i <= folds@.len(),
            forall|k: int| 0 <= k < i ==> #[trigger] folds@[k].view() != f.view(),
        decreases folds.len() - i,
    {
        if same_fold(&folds[i], f) {
            proof {
                assert(fold_views(folds@)[i as int] == f.view());
            }
            return true;
        }
        i = i + 1;
    }
    proof {
        if fold_views(folds@).contains(f.view()) {
            let k = choose|k: int| 0 <= k < fold_views(folds@).len() && fold_views(folds@)[k] == f.view();
            assert(folds@[k].view() == f.view());
        }
    }
    false
}

/// The whole reading one build of the chart draws.
#[derive(Clone, PartialEq, Debug, Default)]
pub struct FnReading {
    pub vis_floor: VisFloor,
    /// The boxes whose contents are off the paper.
    pub folds: Vec<FoldAt>,
    /// The folds the paper was packed around: a subset of `folds`, and
    /// usually empty. A fold outside it keeps its whole footprint.
    pub packed: Vec<FoldAt>,
}

/// How siblings seat on a shelf.
#[derive(Clone, Copy, PartialEq, Eq, Structural, Debug, Default)]
pub enum FnOrder {
    /// Heaviest chain first.
    #[default]
    Weight,
    /// Clustered by the module they are written in.
    Module,
    /// Clustered by the type or trait whose impl they are written in, free
    /// declarations first.
    Owner,
}

impl FnOrder {
    /// The order's name on its control.
    pub fn label(self) -> (s: &'static str)
        ensures
            s@ == match self {
                FnOrder::Weight => "weight"@,
                FnOrder::Module => "module"@,
                FnOrder::Owner => "owner"@,
            },
    {
        proof {
            reveal_strlit("weight");
            reveal_strlit("module");
            reveal_strlit("owner");
        }
        match self {
            FnOrder::Weight => "weight",
            FnOrder::Module => "module",
            FnOrder::Owner => "owner",
        }
    }

    /// What the order does, in words.
    pub fn hint(self) -> (s: &'static str)
        ensures
            s@ == match self {
                FnOrder::Weight => "heaviest chain first on every shelf"@,
                FnOrder::Module => "siblings cluster by the module they are written in"@,
                FnOrder::Owner => "siblings cluster by the type whose impl they are written in, free declarations first"@,
            },
    {
        proof {
            reveal_strlit("heaviest chain first on every shelf");
            reveal_strlit("siblings cluster by the module they are written in");
            reveal_strlit("siblings cluster by the type whose impl they are written in, free declarations first");
        }
        match self {
            FnOrder::Weight => "heaviest chain first on every shelf",
            FnOrder::Module => "siblings cluster by the module they are written in",
            FnOrder::Owner => "siblings cluster by the type whose impl they are written in, free declarations first",
        }
    }
}

/// Which calls the chart inks against the mark in focus: the direction it
/// reads them in.
#[derive(Clone, Copy, PartialEq, Eq, Structural, Debug, Default)]
pub enum FnWires {
    /// What the anchor's own body runs: its wires out.
    #[default]
    Calls,
    /// Whose code runs the anchor: its wires in.
    Callers,
    /// Both ways round.
    Both,
}

impl FnWires {
    /// The stop's name on the slider.
    pub fn label(self) -> (s: &'static str)
        ensures
            s@ == match self {
                FnWires::Calls => "calls"@,
                FnWires::Callers => "callers"@,
                FnWires::Both => "both"@,
            },
    {
        proof {
            reveal_strlit("calls");
            reveal_strlit("callers");
            reveal_strlit("both");
        }
        match self {
            FnWires::Calls => "calls",
            FnWires::Callers => "callers",
            FnWires::Both => "both",
        }
    }

    /// What the stop draws, in words.
    pub fn hint(self) -> (s: &'static str)
        ensures
            s@ == match self {
                FnWires::Calls => "what the mark in focus runs \u{2014} with nothing selected, what the diff's own declarations run"@,
                FnWires::Callers => "whose code runs the mark in focus \u{2014} with nothing selected, whose code runs the diff's own declarations"@,
                FnWires::Both => "both ways round; with nothing in focus, every call the shelving cannot say"@,
            },
    {
        proof {
            reveal_strlit("what the mark in focus runs \u{2014} with nothing selected, what the diff's own declarations run");
            reveal_strlit("whose code runs the mark in focus \u{2014} with nothing selected, whose code runs the diff's own declarations");
            reveal_strlit("both ways round; with nothing in focus, every call the shelving cannot say");
        }
        match self {
            FnWires::Calls => "what the mark in focus runs \u{2014} with nothing selected, what the diff's own declarations run",
            FnWires::Callers => "whose code runs the mark in focus \u{2014} with nothing selected, whose code runs the diff's own declarations",
            FnWires::Both => "both ways round; with nothing in focus, every call the shelving cannot say",
        }
    }

    /// Whether this reading draws one wire anchored on `at`: `def` is the
    /// callee end, `user` the caller.
    pub fn draws<T: PartialEq>(self, at: &T, def: &T, user: &T) -> (r: bool)
        ensures
            T::obeys_eq_spec() ==> r == match self {
                FnWires::Calls => user.eq_spec(at),
                FnWires::Callers => def.eq_spec(at),
                FnWires::Both => user.eq_spec(at) || def.eq_spec(at),
            },
    {
        match self {
            FnWires::Calls => user == at,
            FnWires::Callers => def == at,
            FnWires::Both => user == at || def == at,
        }
    }
}

/// Which row of a sheet is open as a quotation, as the address writes it:
/// the file the quoted item is written in, `@`, then its label.
pub fn peek_key(path: &str, label: &str) -> (k: String)
    ensures
        k@ == path@ + seq!['@'] + label@,
{
    proof {
        reveal_strlit("@");
    }
    let mut k = String::from_str(path);
    k.append("@");
    k.append(label);
    k
}

/// `i` is where the first `@` of `s` stands.
pub open spec fn first_at(s: Seq<char>, i: int) -> bool {
    0 <= i < s.len() && s[i] == '@' && forall|j: int| 0 <= j < i ==> s[j] != '@'
}

/// The (file, label) a quotation key names: what stands before its first
/// `@` and what stands after it, where neither is empty.
pub open spec fn spec_peek_at(s: Seq<char>) -> Option<(Seq<char>, Seq<char>)> {
    if exists|i: int| first_at(s, i) {
        let i = choose|i: int| first_at(s, i);
        if i > 0 && i + 1 < s.len() {
            Some((s.subrange(0, i), s.subrange(i + 1, s.len() as int)))
        } else {
            None
        }
    } else {
        None
    }
}

/// The (file, label) a quotation key names, or `None` where it names
/// nothing.
pub fn peek_at(key: &str) -> (r: Option<(&str, &str)>)
    ensures
        match r {
            Some((path, label)) => spec_peek_at(key@) == Some((path@, label@)),
            None => spec_peek_at(key@) is None,
        },
{
    let n = key.unicode_len();
    let mut i: usize = 0;
    while i < n
        invariant
            n == key@.len(),
            i <= n,
            forall|j: int| 0 <= j < i ==> key@[j] != '@',
        decreases n - i,
    {
        if key.get_char(i) == '@' {
            proof {
                assert(first_at(key@, i as int));
                assert forall|j: int| first_at(key@, j) implies j == i by {
                    if j < i {
                    } else if j > i {
                        assert(key@[i as int] == '@');
                    }
                }
            }
            if i > 0 && i + 1 < n {
                let path = key.substring_char(0, i);
                let label = key.substring_char(i + 1, n);
                return Some((path, label));
            } else {
                return None;
            }
        }
        i = i + 1;
    }
    None
}

} // verus!
