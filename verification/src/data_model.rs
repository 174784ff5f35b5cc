//! The data chart's reading of the survey: types as marks, holding as edges.
//!
//! The survey ships every type it found, private ones included; this module
//! decides which of them the chart draws as marks, which frame each one sits
//! in, where the rest fold to, and which anchor every edge lands on. Nothing
//! is dropped without a count: a private type folds to its frame's counted
//! row and the edges touching it land there.

use vstd::prelude::*;
use crate::kinds::{Delta, HoldEvent, HoldKind, ItemKind, Vis};
use crate::text::{decimal, push_decimal};
use crate::wire::{Doors, ItemMark};

verus! {

/// Marks the first paint budgets for. Past it, each frame folds its quietest
/// types into a counted row.
pub const MARK_BUDGET: usize = 200;

/// Incoming holds edges a type draws before folding them to a count on its
/// own mark.
pub const HELD_CAP: usize = 3;

/// Holding fields a resting mark quotes before it defers to a counted line.
pub const FIELD_CAP: usize = 8;

/// Resting reference ties whose counts are engraved.
pub const TIE_LABELS: usize = 12;

/// Reference ties one type rests in an anchored reading.
pub const TIES_PER_MARK: usize = 2;

/// Where an edge can land: a drawn mark, or one of a frame's counted fold
/// rows.
#[derive(Clone, Copy, PartialEq, Eq, Structural, Debug, Hash)]
pub enum Anchor {
    /// A type, static or function with a block of its own.
    Mark(u32),
    /// A frame's `+ n private types` row.
    Private(u32),
    /// A frame's `+ n more types` row, where the budget folded the quietest.
    More(u32),
}

/// One seat in a frame's ownership forest: a block, and the blocks that sit
/// under it because it owns them.
#[derive(PartialEq, Debug)]
pub struct Seat {
    pub anchor: Anchor,
    /// Seated one layer beneath, in the survey's order.
    pub children: Vec<Seat>,
}

impl Seat {
    /// A seat with nothing under it.
    pub fn leaf(anchor: Anchor) -> (s: Self)
        ensures
            s.anchor == anchor,
            s.children@.len() == 0,
    {
        Seat { anchor, children: Vec::new() }
    }
}

/// One frame on the paper: a workspace crate, or one top-level module inside
/// a crate.
#[derive(PartialEq, Debug)]
pub struct Frame {
    pub id: u32,
    pub krate: String,
    /// The top-level module; `None` is the crate's own frame.
    pub module: Option<String>,
    /// The crate frame a module frame sits in.
    pub parent: Option<u32>,
    /// Drawn marks seated here, in the survey's order.
    pub marks: Vec<u32>,
    /// Private types, never drawn, counted here.
    pub private: u32,
    /// Types the budget folded away, counted here.
    pub more: u32,
    /// How they seat: statics, then trees biggest first, then the free
    /// functions, then the vocabulary leaves, then the counted fold rows.
    pub forest: Vec<Seat>,
}

/// The label engraved on a frame's border.
pub open spec fn spec_frame_label(module: Option<Seq<char>>, krate: Seq<char>, multi_crate: bool) -> Option<Seq<char>> {
    match module {
        Some(m) => Some("mod "@ + m),
        None => if multi_crate { Some(krate) } else { None },
    }
}

pub open spec fn opt_view(o: Option<String>) -> Option<Seq<char>> {
    match o {
        Some(s) => Some(s@),
        None => None,
    }
}

impl Frame {
    /// The label engraved on the frame's border, in rust's own words. A crate
    /// frame names its crate only where the survey has more than one to tell
    /// apart.
    pub fn label(&self, multi_crate: bool) -> (l: Option<String>)
        ensures
            opt_view(l) == spec_frame_label(opt_view(self.module), self.krate@, multi_crate),
    {
        match &self.module {
            Some(module) => {
                let s = String::from_str("mod ");
                Some(s.concat(module.as_str()))
            },
            None => if multi_crate {
                Some(self.krate.clone())
            } else {
                None
            },
        }
    }
}

/// One quoted row's own diff state.
#[derive(Clone, Copy, PartialEq, Eq, Structural, Debug, Default)]
pub enum RowState {
    #[default]
    Same,
    Added,
    Removed,
}

impl RowState {
    /// The diff's own marker for the row.
    pub fn marker(self) -> (m: Option<&'static str>)
        ensures
            self == RowState::Same ==> m.is_none(),
            self == RowState::Added ==> m.is_some() && m.unwrap()@ == "+"@,
            self == RowState::Removed ==> m.is_some() && m.unwrap()@ == "\u{2212}"@,
    {
        match self {
            RowState::Same => None,
            RowState::Added => Some("+"),
            RowState::Removed => Some("\u{2212}"),
        }
    }

    /// The row's CSS class, empty for an untouched row.
    pub fn class(self) -> (c: &'static str)
        ensures
            self == RowState::Same ==> c@ == ""@,
            self == RowState::Added ==> c@ == "is-add"@,
            self == RowState::Removed ==> c@ == "is-del"@,
    {
        match self {
            RowState::Same => "",
            RowState::Added => "is-add",
            RowState::Removed => "is-del",
        }
    }
}

/// One holding field, quoted from the source.
#[derive(Clone, PartialEq, Debug)]
pub struct FieldRow {
    pub name: String,
    pub decl: String,
    /// The held type's name: the run of the declaration drawn in full ink.
    pub target: String,
    pub state: RowState,
}

/// One type, static, or free function with a block on the paper.
#[derive(Clone, PartialEq, Debug)]
pub struct DataMark {
    pub id: u32,
    pub frame: u32,
    pub kind: ItemKind,
    pub vis: Vis,
    pub name: String,
    pub label: String,
    pub path: String,
    pub line: u32,
    pub delta: Delta,
    /// The base had it, the working copy does not.
    pub ghosted: bool,
    pub fields: Vec<FieldRow>,
    pub variants: Vec<FieldRow>,
    pub ty: String,
    pub ty_target: String,
    /// Incoming holds edges folded to a count: how many types hold this one.
    pub held_by: u32,
    /// How many signatures name this type, in the same fold.
    pub named_by: u32,
}

/// `path:line`, and ` (base)` after a ghost's.
pub open spec fn spec_locator(path: Seq<char>, line: nat, ghosted: bool) -> Seq<char> {
    if ghosted {
        path + ":"@ + decimal(line) + " (base)"@
    } else {
        path + ":"@ + decimal(line)
    }
}

/// The letter a mark wears, in git's own alphabet.
pub open spec fn spec_letter(ghosted: bool, delta: Delta) -> Option<Seq<char>> {
    if ghosted {
        Some("D"@)
    } else {
        match delta {
            Delta::Added => Some("A"@),
            Delta::Changed => Some("M"@),
            Delta::Same => None,
        }
    }
}

pub open spec fn str_opt_view(o: Option<&str>) -> Option<Seq<char>> {
    match o {
        Some(s) => Some(s@),
        None => None,
    }
}

impl DataMark {
    /// A static is state no type holds.
    pub fn is_static(&self) -> (b: bool)
        ensures
            b == (self.kind == ItemKind::Static),
    {
        self.kind == ItemKind::Static
    }

    /// A free function: a contract rather than a shape.
    pub fn is_fn(&self) -> (b: bool)
        ensures
            b == (self.kind == ItemKind::Fn),
    {
        self.kind == ItemKind::Fn
    }

    /// Where it is written: `src/views/codemap/model.rs:278`. A ghost's line
    /// is the base edition's, and says so.
    pub fn locator(&self) -> (s: String)
        ensures
            s@ == spec_locator(self.path@, self.line as nat, self.ghosted),
    {
        let mut s = self.path.clone();
        s.append(":");
        push_decimal(&mut s, self.line as u64);
        if self.ghosted {
            s.append(" (base)");
        }
        s
    }

    /// The letter the mark wears: `A`dded since the base, `D` for a ghost,
    /// `M` for a rewritten declaration, none where the base wrote it as it
    /// stands.
    pub fn letter(&self) -> (l: Option<&'static str>)
        ensures
            str_opt_view(l) == spec_letter(self.ghosted, self.delta),
    {
        if self.ghosted {
            return Some("D");
        }
        match self.delta {
            Delta::Added => Some("A"),
            Delta::Changed => Some("M"),
            Delta::Same => None,
        }
    }
}

/// One holding relation, placed on the chart's anchors. Drawn from the held
/// type to its holder.
#[derive(Clone, PartialEq, Debug)]
pub struct Hold {
    pub held: Anchor,
    pub holder: Anchor,
    pub kind: HoldKind,
    pub via: String,
    /// Fields drawing this edge.
    pub fields: u32,
    /// Drawn at rest.
    pub rest: bool,
    pub event: Option<HoldEvent>,
}

/// An anchor as `{:?}` writes it.
pub open spec fn anchor_words(a: Anchor) -> Seq<char> {
    match a {
        Anchor::Mark(id) => "Mark("@ + decimal(id as nat) + ")"@,
        Anchor::Private(id) => "Private("@ + decimal(id as nat) + ")"@,
        Anchor::More(id) => "More("@ + decimal(id as nat) + ")"@,
    }
}

pub open spec fn kind_words(k: HoldKind) -> Seq<char> {
    match k {
        HoldKind::Owns => "Owns"@,
        HoldKind::Shares => "Shares"@,
        HoldKind::Borrows => "Borrows"@,
    }
}

pub open spec fn event_words(e: Option<HoldEvent>) -> Seq<char> {
    match e {
        None => "None"@,
        Some(HoldEvent::Added) => "Some(Added)"@,
        Some(HoldEvent::Removed) => "Some(Removed)"@,
    }
}

fn push_anchor(s: &mut String, a: Anchor)
    ensures
        final(s)@ == old(s)@ + anchor_words(a),
{
    let id = match a {
        Anchor::Mark(id) => {
            s.append("Mark(");
            id
        },
        Anchor::Private(id) => {
            s.append("Private(");
            id
        },
        Anchor::More(id) => {
            s.append("More(");
            id
        },
    };
    push_decimal(s, id as u64);
    s.append(")");
}

impl Hold {
    /// The edge's identity on the paper: its ends, kind, wrapper and event.
    pub fn key(&self) -> (k: String)
        ensures
            k@ == anchor_words(self.held) + ">"@ + anchor_words(self.holder) + ":"@
                + kind_words(self.kind) + ":"@ + self.via@ + ":"@ + event_words(self.event),
    {
        let mut s = String::new();
        push_anchor(&mut s, self.held);
        s.append(">");
        push_anchor(&mut s, self.holder);
        s.append(":");
        s.append(
            match self.kind {
                HoldKind::Owns => "Owns",
                HoldKind::Shares => "Shares",
                HoldKind::Borrows => "Borrows",
            },
        );
        s.append(":");
        s.append(self.via.as_str());
        s.append(":");
        s.append(
            match self.event {
                None => "None",
                Some(HoldEvent::Added) => "Some(Added)",
                Some(HoldEvent::Removed) => "Some(Removed)",
            },
        );
        s
    }
}

/// One reference tie between two types, summed. The arrowhead rests on the
/// user.
#[derive(Clone, PartialEq, Debug)]
pub struct Tie {
    pub def: Anchor,
    pub user: Anchor,
    pub count: u32,
    /// Drawn at rest under the current reading.
    pub rest: bool,
    /// Heavy enough among the resting ties to carry its count on the paper.
    pub labeled: bool,
}

impl Tie {
    pub fn key(&self) -> (k: String)
        ensures
            k@ == anchor_words(self.def) + "~"@ + anchor_words(self.user),
    {
        let mut s = String::new();
        push_anchor(&mut s, self.def);
        s.append("~");
        push_anchor(&mut s, self.user);
        s
    }
}

/// `y` is reached from `from` in at most `n` holds steps, walking holder-ward:
/// each step leaves `from` itself or a type already reached, and never comes
/// back to `from`. A counted fold row can be reached but a walk never leaves
/// one.
pub open spec fn reached(pairs: Seq<(Anchor, Anchor)>, from: Anchor, y: Anchor, n: nat) -> bool
    decreases n,
{
    n > 0 && y != from && exists|i: int|
        0 <= i < pairs.len() && #[trigger] pairs[i].1 == y && (pairs[i].0 == from || (
        pairs[i].0 is Mark && reached(pairs, from, pairs[i].0, (n - 1) as nat)))
}

/// The walk can take a step out of `at`.
pub open spec fn walks_from(from: Anchor, s: Seq<Anchor>, at: Anchor) -> bool {
    at == from || (at is Mark && s.contains(at))
}

/// `s` holds every anchor one step out of `from` or out of a type in `s`.
pub open spec fn closed_upstream(pairs: Seq<(Anchor, Anchor)>, from: Anchor, s: Seq<Anchor>) -> bool {
    forall|i: int|
        0 <= i < pairs.len() && #[trigger] walks_from(from, s, pairs[i].0) && pairs[i].1 != from
            ==> s.contains(pairs[i].1)
}

pub open spec fn count_false(flags: Seq<bool>) -> nat
    decreases flags.len(),
{
    if flags.len() == 0 {
        0
    } else {
        count_false(flags.drop_last()) + if flags.last() { 0nat } else { 1nat }
    }
}

proof fn lemma_count_false_all(flags: Seq<bool>)
    requires
        forall|j: int| 0 <= j < flags.len() ==> !flags[j],
    ensures
        count_false(flags) == flags.len(),
    decreases flags.len(),
{
    if flags.len() > 0 {
        lemma_count_false_all(flags.drop_last());
    }
}

proof fn lemma_count_false_set(flags: Seq<bool>, i: int)
    requires
        0 <= i < flags.len(),
        !flags[i],
    ensures
        count_false(flags.update(i, true)) + 1 == count_false(flags),
    decreases flags.len(),
{
    if i < flags.len() - 1 {
        lemma_count_false_set(flags.drop_last(), i);
        assert(flags.update(i, true).drop_last() =~= flags.drop_last().update(i, true));
    } else {
        assert(flags.update(i, true).drop_last() =~= flags.drop_last());
    }
}

/// `y` is reached from `from` by some number of steps.
pub open spec fn is_reached(pairs: Seq<(Anchor, Anchor)>, from: Anchor, y: Anchor) -> bool {
    exists|n: nat| reached(pairs, from, y, n)
}

proof fn lemma_push_contains<A>(s: Seq<A>, x: A, y: A)
    ensures
        s.push(x).contains(y) <==> (s.contains(y) || y == x),
{
    if s.contains(y) {
        let k = choose|k: int| 0 <= k < s.len() && s[k] == y;
        assert(s.push(x)[k] == y);
    }
    if y == x {
        assert(s.push(x)[s.len() as int] == y);
    }
    if s.push(x).contains(y) {
        let k = choose|k: int| 0 <= k < s.push(x).len() && s.push(x)[k] == y;
        if k < s.len() {
            assert(s[k] == y);
        }
    }
}

/// Every anchor a shape change to `from` could reach, walking holds edges
/// holder-ward: the transitive holders, and the contracts that name them.
/// `pairs` are (held, holder). A counted fold row can join the set but the
/// walk ends there: a row is a count, not a type with holders of its own.
pub fn upstream(pairs: &[(Anchor, Anchor)], from: Anchor) -> (seen: Vec<Anchor>)
    ensures
        !seen@.contains(from),
        seen@.no_duplicates(),
        closed_upstream(pairs@, from, seen@),
        forall|k: int| 0 <= k < seen@.len() ==> is_reached(pairs@, from, #[trigger] seen@[k]),
{
    let np = pairs.len();
    let mut flags: Vec<bool> = Vec::new();
    let mut f: usize = 0;
    while f < np
        invariant
            f <= np,
            np == pairs@.len(),
            flags@.len() == f,
            forall|j: int| 0 <= j < f ==> !flags@[j],
        decreases np - f,
    {
        flags.push(false);
        f = f + 1;
    }
    proof {
        lemma_count_false_all(flags@);
    }
    let mut remaining: usize = np;
    let mut seen: Vec<Anchor> = Vec::new();
    let mut stack: Vec<Anchor> = Vec::new();
    stack.push(from);
    proof {
        assert(stack@[0] == from);
    }
    while stack.len() > 0
        invariant
            np == pairs@.len(),
            flags@.len() == np,
            remaining as nat == count_false(flags@),
            forall|j: int| 0 <= j < np ==> (flags@[j] <==> seen@.contains(#[trigger] pairs@[j].1)),
            !seen@.contains(from),
            seen@.no_duplicates(),
            forall|k: int| 0 <= k < seen@.len() ==> is_reached(pairs@, from, #[trigger] seen@[k]),
            forall|k: int| 0 <= k < stack@.len() ==> walks_from(from, seen@, #[trigger] stack@[k]),
            forall|i: int|
                0 <= i < np && #[trigger] walks_from(from, seen@, pairs@[i].0) && pairs@[i].1 != from
                    && !stack@.contains(pairs@[i].0) ==> seen@.contains(pairs@[i].1),
        decreases remaining, stack.len(),
    {
        let ghost old_stack = stack@;
        let at = stack.pop().unwrap();
        let ghost stack_after_pop = stack@;
        let ghost remaining_at_pop = remaining;
        proof {
            assert(old_stack =~= stack_after_pop.push(at));
            assert(walks_from(from, seen@, old_stack[old_stack.len() - 1]));
            assert forall|j: int|
                0 <= j < np && #[trigger] walks_from(from, seen@, pairs@[j].0) && pairs@[j].1 != from
                    && !stack@.contains(pairs@[j].0) && pairs@[j].0 != at implies seen@.contains(pairs@[j].1) by {
                lemma_push_contains(stack_after_pop, at, pairs@[j].0);
            }
        }
        let mut i: usize = 0;
        while i < np
            invariant
                np == pairs@.len(),
                flags@.len() == np,
                remaining as nat == count_false(flags@),
                remaining <= remaining_at_pop,
                remaining < remaining_at_pop || stack@ == stack_after_pop,
                forall|j: int| 0 <= j < np ==> (flags@[j] <==> seen@.contains(#[trigger] pairs@[j].1)),
                !seen@.contains(from),
                seen@.no_duplicates(),
                forall|k: int| 0 <= k < seen@.len() ==> is_reached(pairs@, from, #[trigger] seen@[k]),
                walks_from(from, seen@, at),
                i <= np,
                forall|k: int| 0 <= k < stack@.len() ==> walks_from(from, seen@, #[trigger] stack@[k]),
                forall|j: int| 0 <= j < i && #[trigger] pairs@[j].0 == at && pairs@[j].1 != from
                    ==> seen@.contains(pairs@[j].1),
                forall|j: int|
                    0 <= j < np && #[trigger] walks_from(from, seen@, pairs@[j].0) && pairs@[j].1 != from
                        && !stack@.contains(pairs@[j].0) && pairs@[j].0 != at ==> seen@.contains(pairs@[j].1),
            decreases np - i,
        {
            let (held, holder) = pairs[i];
            if held == at && holder != from && !flags[i] {
                // `holder` is new: flag every pair it closes.
                let ghost old_seen = seen@;
                let ghost old_flags = flags@;
                let ghost old_stack2 = stack@;
                proof {
                    assert(!seen@.contains(holder));
                    assert(pairs@[i as int].1 == holder);
                    if at == from {
                        assert(reached(pairs@, from, holder, 1));
                    } else {
                        let k = choose|k: int| 0 <= k < seen@.len() && seen@[k] == at;
                        assert(is_reached(pairs@, from, seen@[k]));
                        let n = choose|n: nat| reached(pairs@, from, at, n);
                        assert(reached(pairs@, from, holder, n + 1));
                    }
                }
                seen.push(holder);
                proof {
                    assert forall|k: int| 0 <= k < seen@.len() implies is_reached(pairs@, from, #[trigger] seen@[k]) by {
                        if k < old_seen.len() {
                            assert(seen@[k] == old_seen[k]);
                        }
                    }
                    assert forall|x: Anchor| #[trigger] walks_from(from, old_seen, x) implies walks_from(from, seen@, x) by {
                        lemma_push_contains(old_seen, holder, x);
                    }
                    lemma_push_contains(old_seen, holder, from);
                    assert forall|j: int| 0 <= j < i && #[trigger] pairs@[j].0 == at && pairs@[j].1 != from
                        implies seen@.contains(pairs@[j].1) by {
                        lemma_push_contains(old_seen, holder, pairs@[j].1);
                    }
                }
                let mut j: usize = 0;
                while j < np
                    invariant
                        np == pairs@.len(),
                        flags@.len() == np,
                        remaining as nat == count_false(flags@),
                        remaining <= remaining_at_pop,
                        seen@ == old_seen.push(holder),
                        !old_seen.contains(holder),
                        forall|q: int| 0 <= q < j ==> (flags@[q] <==> seen@.contains(#[trigger] pairs@[q].1)),
                        forall|q: int| j <= q < np ==> (flags@[q] <==> old_seen.contains(#[trigger] pairs@[q].1)),
                        !flags@[i as int] || i < j,
                        j <= np,
                        count_false(flags@) + (if i < j { 1int } else { 0int }) <= count_false(old_flags),
                        count_false(old_flags) == remaining_at_pop || remaining < remaining_at_pop,
                        count_false(old_flags) <= remaining_at_pop,
                        i < np,
                        pairs@[i as int].1 == holder,
                    decreases np - j,
                {
                    proof {
                        lemma_push_contains(old_seen, holder, pairs@[j as int].1);
                    }
                    if pairs[j].1 == holder && !flags[j] {
                        proof {
                            lemma_count_false_set(flags@, j as int);
                        }
                        flags.set(j, true);
                        remaining = remaining - 1;
                    }
                    j = j + 1;
                }
                if matches!(holder, Anchor::Mark(_)) {
                    stack.push(holder);
                    proof {
                        assert forall|k: int| 0 <= k < stack@.len() implies walks_from(from, seen@, #[trigger] stack@[k]) by {
                            if k < old_stack2.len() {
                                assert(stack@[k] == old_stack2[k]);
                            } else {
                                lemma_push_contains(old_seen, holder, holder);
                            }
                        }
                    }
                }
                proof {
                    assert forall|j: int|
                        0 <= j < np && #[trigger] walks_from(from, seen@, pairs@[j].0) && pairs@[j].1 != from
                            && !stack@.contains(pairs@[j].0) && pairs@[j].0 != at implies seen@.contains(pairs@[j].1) by {
                        lemma_push_contains(old_seen, holder, pairs@[j].0);
                        lemma_push_contains(old_seen, holder, pairs@[j].1);
                        lemma_push_contains(old_stack2, holder, pairs@[j].0);
                        if pairs@[j].0 != holder {
                            assert(walks_from(from, old_seen, pairs@[j].0));
                            assert(!old_stack2.contains(pairs@[j].0));
                        }
                    }
                    lemma_push_contains(old_seen, holder, holder);
                    assert(flags@[i as int]);
                }
            }
            proof {
                if held == at && holder != from {
                    assert(flags@[i as int]);
                }
            }
            i = i + 1;
        }
    }
    proof {
        assert forall|i: int|
            0 <= i < pairs@.len() && #[trigger] walks_from(from, seen@, pairs@[i].0) && pairs@[i].1 != from
                implies seen@.contains(pairs@[i].1) by {
            assert(!stack@.contains(pairs@[i].0));
        }
    }
    seen
}

/// Everything one build of the data chart reads out of the survey.
#[derive(PartialEq, Debug)]
pub struct DataModel {
    pub frames: Vec<Frame>,
    /// Drawn marks, in the survey's (file, source) order, then the ghosts.
    pub marks: Vec<DataMark>,
    pub holds: Vec<Hold>,
    pub ties: Vec<Tie>,
    /// More than one crate in the survey: crate frames earn their names.
    pub multi_crate: bool,
    /// The reading this model was built at.
    pub doors: Doors,
    pub structs: usize,
    pub enums: usize,
    /// Drawn free functions.
    pub fns: usize,
    /// Statics, plus every drawn type no other type holds.
    pub roots: usize,
    pub added: usize,
    pub removed: usize,
    pub changed: usize,
    /// Top-level modules holding a diff-touched mark, in name order.
    pub changed_modules: Vec<String>,
    /// Holds edges whose held end is a workspace trait, which has no mark.
    pub trait_holds: usize,
}

/// What the cartouche and the legend state about the survey.
#[derive(Clone, PartialEq, Debug)]
pub struct DataFacts {
    pub structs: usize,
    pub enums: usize,
    pub fns: usize,
    pub roots: usize,
    pub added: usize,
    pub removed: usize,
    pub changed: usize,
    pub changed_modules: Vec<String>,
    pub trait_holds: usize,
    /// Names the survey could not resolve.
    pub unresolved: u32,
}

pub open spec fn strings_view(v: Seq<String>) -> Seq<Seq<char>> {
    v.map_values(|s: String| s@)
}

/// A copy of a list of strings, string for string.
pub fn clone_strings(v: &Vec<String>) -> (out: Vec<String>)
    ensures
        strings_view(out@) == strings_view(v@),
{
    let mut out: Vec<String> = Vec::new();
    let mut i: usize = 0;
    while i < v.len()
        invariant
            i <= v@.len(),
            out@.len() == i,
            forall|k: int| 0 <= k < i ==> #[trigger] out@[k]@ == v@[k]@,
        decreases v.len() - i,
    {
        let x = v[i].clone();
        assert(x@ == v@[i as int]@);
        out.push(x);
        i = i + 1;
    }
    assert(strings_view(out@) =~= strings_view(v@));
    out
}

impl DataModel {
    /// The facts, lifted off the model for the furniture that states them.
    pub fn facts(&self, unresolved: u32) -> (f: DataFacts)
        ensures
            f.structs == self.structs,
            f.enums == self.enums,
            f.fns == self.fns,
            f.roots == self.roots,
            f.added == self.added,
            f.removed == self.removed,
            f.changed == self.changed,
            strings_view(f.changed_modules@) == strings_view(self.changed_modules@),
            f.trait_holds == self.trait_holds,
            f.unresolved == unresolved,
    {
        DataFacts {
            structs: self.structs,
            enums: self.enums,
            fns: self.fns,
            roots: self.roots,
            added: self.added,
            removed: self.removed,
            changed: self.changed,
            changed_modules: clone_strings(&self.changed_modules),
            trait_holds: self.trait_holds,
            unresolved,
        }
    }
}

/// A function the file itself declares, not a method.
pub open spec fn spec_is_free_fn(mark: ItemMark) -> bool {
    mark.kind == ItemKind::Fn && mark.parent.is_none()
}

/// A mark the chart can draw as a block: a static always; a type or a free
/// function where it clears the door the reader set.
pub open spec fn spec_drawable(mark: ItemMark, doors: Doors) -> bool {
    match mark.kind {
        ItemKind::Static => true,
        ItemKind::Struct | ItemKind::Enum | ItemKind::Union => doors.spec_admits(mark.vis),
        ItemKind::Fn => spec_is_free_fn(mark) && doors.spec_admits(mark.vis),
        _ => false,
    }
}

/// A mark the chart could draw or fold.
pub open spec fn spec_charted(mark: ItemMark) -> bool {
    match mark.kind {
        ItemKind::Static | ItemKind::Struct | ItemKind::Enum | ItemKind::Union => true,
        ItemKind::Fn => spec_is_free_fn(mark),
        _ => false,
    }
}

pub(crate) fn drawable(mark: &ItemMark, doors: Doors) -> (b: bool)
    ensures
        b == spec_drawable(*mark, doors),
{
    match mark.kind {
        ItemKind::Static => true,
        ItemKind::Struct | ItemKind::Enum | ItemKind::Union => doors.admits(mark.vis),
        ItemKind::Fn => is_free_fn(mark) && doors.admits(mark.vis),
        _ => false,
    }
}

pub(crate) fn charted(mark: &ItemMark) -> (b: bool)
    ensures
        b == spec_charted(*mark),
{
    match mark.kind {
        ItemKind::Static | ItemKind::Struct | ItemKind::Enum | ItemKind::Union => true,
        ItemKind::Fn => is_free_fn(mark),
        _ => false,
    }
}

fn is_free_fn(mark: &ItemMark) -> (b: bool)
    ensures
        b == spec_is_free_fn(*mark),
{
    mark.kind == ItemKind::Fn && mark.parent.is_none()
}

/// How loudly a type asks for a block of its own: the holding edges touching
/// it, how much of the workspace names it, and whether this epoch touched its
/// file.
pub(crate) fn interest(mark: &ItemMark, degree: u32, changed: bool) -> (r: u64)
    ensures
        r == degree + mark.fan_in + if changed { 2int } else { 0int },
{
    degree as u64 + mark.fan_in as u64 + if changed { 2 } else { 0 }
}

/// The seat chosen for each mark so far, by mark id.
pub open spec fn seat_parent_of(parents: Seq<Option<Anchor>>, id: int) -> Option<Anchor> {
    if 0 <= id < parents.len() { parents[id] } else { None }
}

/// Climbing seats from `at` for at most `fuel` steps reaches `target`.
pub open spec fn climbs_to(parents: Seq<Option<Anchor>>, at: Anchor, target: u32, fuel: nat) -> bool
    decreases fuel,
{
    match at {
        Anchor::Mark(id) => id == target || (fuel > 0 && match seat_parent_of(parents, id as int) {
            Some(up) => climbs_to(parents, up, target, (fuel - 1) as nat),
            None => false,
        }),
        _ => false,
    }
}

/// Climbing seats from `at`, however far, reaches `target`.
pub open spec fn reaches(parents: Seq<Option<Anchor>>, at: Anchor, target: u32) -> bool {
    exists|fuel: nat| #[trigger] climbs_to(parents, at, target, fuel)
}

/// Every seat taken climbs to a mark of lower depth: no seat chain comes
/// back to where it started.
pub open spec fn ranked_seats(parents: Seq<Option<Anchor>>, depth: Seq<nat>) -> bool {
    &&& depth.len() == parents.len()
    &&& forall|y: int| 0 <= y < parents.len() ==> match #[trigger] parents[y] {
        Some(Anchor::Mark(p)) => (p as int) < parents.len() ==> depth[p as int] < depth[y],
        _ => true,
    }
}

/// No mark sits, however far up, under itself.
pub open spec fn seats_acyclic(parents: Seq<Option<Anchor>>) -> bool {
    forall|y: int| 0 <= y < parents.len() && (#[trigger] parents[y]) is Some ==> !reaches(parents, parents[y]->Some_0, y as u32)
}

/// One step of a climb: from a mark that is not the target, the climb goes
/// on from its seat.
pub proof fn lemma_reach_step(parents: Seq<Option<Anchor>>, id: u32, target: u32)
    requires
        id != target,
    ensures
        reaches(parents, Anchor::Mark(id), target) <==> match seat_parent_of(parents, id as int) {
            Some(up) => reaches(parents, up, target),
            None => false,
        },
{
    if reaches(parents, Anchor::Mark(id), target) {
        let f = choose|f: nat| #[trigger] climbs_to(parents, Anchor::Mark(id), target, f);
        if let Some(up) = seat_parent_of(parents, id as int) {
            assert(climbs_to(parents, up, target, (f - 1) as nat));
        }
    }
    if let Some(up) = seat_parent_of(parents, id as int) {
        if reaches(parents, up, target) {
            let f = choose|f: nat| #[trigger] climbs_to(parents, up, target, f);
            assert(climbs_to(parents, Anchor::Mark(id), target, f + 1));
        }
    }
}

/// A climb from a ranked mark only reaches marks of no greater depth.
proof fn lemma_climb_depth(parents: Seq<Option<Anchor>>, depth: Seq<nat>, id: u32, target: u32, fuel: nat)
    requires
        ranked_seats(parents, depth),
        (id as int) < parents.len(),
        (target as int) < parents.len(),
        climbs_to(parents, Anchor::Mark(id), target, fuel),
    ensures
        depth[target as int] <= depth[id as int],
    decreases fuel,
{
    if id != target {
        let up = seat_parent_of(parents, id as int)->Some_0;
        assert(parents[id as int] == Some(up));
        match up {
            Anchor::Mark(p) => {
                if (p as int) < parents.len() {
                    lemma_climb_depth(parents, depth, p, target, (fuel - 1) as nat);
                }
            },
            _ => {},
        }
    }
}

/// Ranked seats close no ring.
pub proof fn lemma_ranked_acyclic(parents: Seq<Option<Anchor>>, depth: Seq<nat>)
    requires
        ranked_seats(parents, depth),
        parents.len() <= 0x1_0000_0000,
    ensures
        seats_acyclic(parents),
{
    assert forall|y: int| 0 <= y < parents.len() && (#[trigger] parents[y]) is Some implies !reaches(parents, parents[y]->Some_0, y as u32) by {
        let up = parents[y]->Some_0;
        if reaches(parents, up, y as u32) {
            let f = choose|f: nat| #[trigger] climbs_to(parents, up, y as u32, f);
            if let Anchor::Mark(p) = up {
                if (p as int) < parents.len() {
                    lemma_climb_depth(parents, depth, p, y as u32, f);
                } else {
                    assert(p != y as u32);
                }
            }
        }
    }
}

/// The depths after seating `x`, a mark with no seat yet, under `c`: the
/// marks that climb to `x` go down by the depth `c` sits at, plus one.
pub open spec fn reseat_depth(parents: Seq<Option<Anchor>>, depth: Seq<nat>, x: int, c: Anchor) -> Seq<nat> {
    let d: nat = match c {
        Anchor::Mark(p) => if (p as int) < depth.len() { depth[p as int] + 1 } else { 0 },
        _ => 0,
    };
    Seq::new(depth.len(), |y: int| depth[y] + if reaches(parents, Anchor::Mark(y as u32), x as u32) { d } else { 0 })
}

/// Seating a mark with no seat yet under an anchor that does not climb
/// back to it keeps the seats ranked.
pub proof fn lemma_reseat(parents: Seq<Option<Anchor>>, depth: Seq<nat>, x: int, c: Anchor)
    requires
        ranked_seats(parents, depth),
        0 <= x < parents.len(),
        parents.len() <= 0x1_0000_0000,
        parents[x] is None,
        !reaches(parents, c, x as u32),
    ensures
        ranked_seats(parents.update(x, Some(c)), reseat_depth(parents, depth, x, c)),
{
    let p2 = parents.update(x, Some(c));
    let d2 = reseat_depth(parents, depth, x, c);
    assert(climbs_to(parents, Anchor::Mark(x as u32), x as u32, 0));
    assert forall|y: int| 0 <= y < p2.len() implies match #[trigger] p2[y] {
        Some(Anchor::Mark(q)) => (q as int) < p2.len() ==> d2[q as int] < d2[y],
        _ => true,
    } by {
        if let Some(Anchor::Mark(q)) = p2[y] {
            if (q as int) < p2.len() {
                if y == x {
                    assert(c == Anchor::Mark(q));
                    assert(!reaches(parents, Anchor::Mark(q), x as u32));
                    assert(reaches(parents, Anchor::Mark(y as u32), x as u32));
                } else {
                    assert(parents[y] == Some(Anchor::Mark(q)));
                    assert(y as u32 != x as u32);
                    lemma_reach_step(parents, y as u32, x as u32);
                    assert(seat_parent_of(parents, y as u32 as int) == Some(Anchor::Mark(q)));
                }
            }
        }
    }
}

/// The measure a climb from `at` decreases.
pub open spec fn climb_measure(depth: Seq<nat>, at: Anchor) -> nat {
    match at {
        Anchor::Mark(id) => if (id as int) < depth.len() { depth[id as int] + 1 } else { 0 },
        _ => 0,
    }
}

/// Whether seating `child` under `candidate` would close a loop: whether
/// climbing the seats already taken from `candidate` comes back to `child`.
/// Two types that own each other cannot both sit above the other.
pub(crate) fn would_cycle(child: u32, candidate: Anchor, parents: &Vec<Option<Anchor>>, Ghost(depth): Ghost<Seq<nat>>) -> (b: bool)
    requires
        ranked_seats(parents@, depth),
    ensures
        b == reaches(parents@, candidate, child),
{
    let mut at = candidate;
    loop
        invariant
            ranked_seats(parents@, depth),
            reaches(parents@, candidate, child) == reaches(parents@, at, child),
        decreases climb_measure(depth, at),
    {
        match at {
            Anchor::Mark(id) => {
                if id == child {
                    proof {
                        assert(climbs_to(parents@, at, child, 0));
                    }
                    return true;
                }
                proof {
                    lemma_reach_step(parents@, id, child);
                }
                let up = if (id as usize) < parents.len() { parents[id as usize] } else { None };
                match up {
                    Some(next) => {
                        proof {
                            assert(parents@[id as int] == Some(next));
                        }
                        at = next;
                    },
                    None => {
                        return false;
                    },
                }
            },
            _ => {
                proof {
                    if reaches(parents@, at, child) {
                        let f = choose|f: nat| #[trigger] climbs_to(parents@, at, child, f);
                    }
                }
                return false;
            },
        }
    }
}

} // verus!
