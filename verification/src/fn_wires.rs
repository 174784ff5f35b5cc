//! The corridors of the resting plate: one line per ordered pair of frames,
//! standing for every cross-frame call wire between them, with the count it
//! carries.

use vstd::prelude::*;

use crate::fn_model::{FnModel, Spot};
use crate::fn_reading::FnWires;
use crate::sort::{lex_le, sort_by_key, values_of};

verus! {

/// One drawn wire's ends and what it carries.
#[derive(Clone, Copy, PartialEq, Eq, Structural, Debug)]
pub struct WireEnds {
    /// The end leaned on.
    pub def: Spot,
    /// The end that leans.
    pub user: Spot,
    /// References the wire stands for.
    pub count: u32,
    /// A contract's wire rather than a call.
    pub answers: bool,
    /// Its two ends sit in different frames.
    pub cross: bool,
    /// The diff touched the end leaned on.
    pub def_dirty: bool,
    /// The diff touched the end that leans.
    pub user_dirty: bool,
    /// It is a corridor, standing for a frame pair's cross calls.
    pub bundle: bool,
}

impl WireEnds {
    /// The diff anchor reads this wire in the given direction: `calls` asks
    /// whether the diff touched the end that leans, `callers` the end leaned
    /// on, `both` either.
    pub open spec fn spec_anchored(self, reading: FnWires) -> bool {
        match reading {
            FnWires::Calls => self.user_dirty,
            FnWires::Callers => self.def_dirty,
            FnWires::Both => self.def_dirty || self.user_dirty,
        }
    }

    pub fn anchored(&self, reading: FnWires) -> (b: bool)
        ensures
            b == self.spec_anchored(reading),
    {
        match reading {
            FnWires::Calls => self.user_dirty,
            FnWires::Callers => self.def_dirty,
            FnWires::Both => self.def_dirty || self.user_dirty,
        }
    }
}

/// Whether a wire is on the paper under a reading: a corridor only at rest;
/// a wire the selection lights, or a contract's, always; with a selection,
/// nothing else; with a diff, the wires it anchors in the reading's
/// direction; else the wires within one frame.
pub open spec fn spec_drawn_under(reading: FnWires, w: WireEnds, picked: bool, dirty: bool, lit: bool) -> bool {
    if w.bundle {
        !picked
    } else if lit || w.answers {
        true
    } else if picked {
        false
    } else if dirty {
        w.spec_anchored(reading)
    } else {
        !w.cross
    }
}

/// The same wire read the other way round: its ends swapped, with their
/// diff marks.
pub open spec fn turned(w: WireEnds) -> WireEnds {
    WireEnds { def: w.user, user: w.def, def_dirty: w.user_dirty, user_dirty: w.def_dirty, ..w }
}

/// With a diff and no selection, a call wire that is neither lit nor a
/// corridor is drawn by the end the reading's direction asks for: `calls`
/// by whether the diff touched the caller, `callers` by whether it touched
/// the callee, whatever the other end; `both` by either.
pub proof fn law_direction_reads_one_end(w: WireEnds)
    requires
        !w.bundle,
        !w.answers,
    ensures
        spec_drawn_under(FnWires::Calls, w, false, true, false) == w.user_dirty,
        spec_drawn_under(FnWires::Callers, w, false, true, false) == w.def_dirty,
        spec_drawn_under(FnWires::Both, w, false, true, false) == (w.def_dirty || w.user_dirty),
{
}

/// `callers` draws a wire exactly where `calls` draws it turned round, and
/// `both` draws what either of them draws.
pub proof fn law_callers_mirror_calls(w: WireEnds, picked: bool, dirty: bool, lit: bool)
    ensures
        spec_drawn_under(FnWires::Callers, w, picked, dirty, lit) == spec_drawn_under(FnWires::Calls, turned(w), picked, dirty, lit),
        spec_drawn_under(FnWires::Both, w, picked, dirty, lit) == (spec_drawn_under(FnWires::Calls, w, picked, dirty, lit)
            || spec_drawn_under(FnWires::Callers, w, picked, dirty, lit)),
{
}

pub fn drawn_under(reading: FnWires, w: &WireEnds, picked: bool, dirty: bool, lit: bool) -> (b: bool)
    ensures
        b == spec_drawn_under(reading, *w, picked, dirty, lit),
{
    if w.bundle {
        return !picked;
    }
    if lit || w.answers {
        return true;
    }
    if picked {
        return false;
    }
    if dirty {
        w.anchored(reading)
    } else {
        !w.cross
    }
}

/// The wire runs between frame `d` and frame `u` and a corridor counts it:
/// a cross-frame call.
pub open spec fn in_corridor(model: FnModel, w: WireEnds, d: u32, u: u32) -> bool {
    &&& w.cross
    &&& !w.answers
    &&& model.spec_frame_of(w.def) == Some(d)
    &&& model.spec_frame_of(w.user) == Some(u)
}

/// What a wire adds to its corridor: its count, and at least one.
pub open spec fn corridor_share(w: WireEnds) -> nat {
    if w.count == 0 {
        1
    } else {
        w.count as nat
    }
}

/// The count the corridor from frame `d` to frame `u` carries.
pub open spec fn corridor_count(model: FnModel, wires: Seq<WireEnds>, d: u32, u: u32) -> nat
    decreases wires.len(),
{
    if wires.len() == 0 {
        0
    } else {
        corridor_count(model, wires.drop_last(), d, u) + if in_corridor(model, wires.last(), d, u) {
            corridor_share(wires.last())
        } else {
            0
        }
    }
}

/// Some wire runs in the corridor from frame `d` to frame `u`.
pub open spec fn has_corridor(model: FnModel, wires: Seq<WireEnds>, d: u32, u: u32) -> bool {
    exists|k: int| 0 <= k < wires.len() && in_corridor(model, #[trigger] wires[k], d, u)
}

/// Pair `a` sorts strictly before pair `b`.
pub open spec fn pair_before(a: (u32, u32, u32), b: (u32, u32, u32)) -> bool {
    a.0 < b.0 || (a.0 == b.0 && a.1 < b.1)
}

proof fn lemma_count_le(model: FnModel, wires: Seq<WireEnds>, i: int, d: u32, u: u32)
    requires
        0 <= i <= wires.len(),
    ensures
        corridor_count(model, wires.take(i), d, u) <= corridor_count(model, wires, d, u),
    decreases wires.len() - i,
{
    if i < wires.len() {
        lemma_count_le(model, wires, i + 1, d, u);
        assert(wires.take(i + 1).drop_last() =~= wires.take(i));
    } else {
        assert(wires.take(i) =~= wires);
    }
}

/// One corridor per ordered pair of frames that a cross-frame call wire
/// joins, in pair order, each carrying the sum of its wires' counts, a wire
/// of no count counting one. Contracts are never counted into one.
pub fn corridors(model: &FnModel, wires: &Vec<WireEnds>) -> (r: Vec<(u32, u32, u32)>)
    requires
        forall|d: u32, u: u32| #[trigger] corridor_count(*model, wires@, d, u) <= 0xFFFF_FFFF,
    ensures
        forall|i: int, j: int| 0 <= i < j < r@.len() ==> pair_before(#[trigger] r@[i], #[trigger] r@[j]),
        forall|d: u32, u: u32| has_corridor(*model, wires@, d, u) <==> exists|k: int| 0 <= k < r@.len() && (#[trigger] r@[k]).0 == d && r@[k].1 == u,
        forall|k: int| 0 <= k < r@.len() ==> (#[trigger] r@[k]).2 == corridor_count(*model, wires@, r@[k].0, r@[k].1),
{
    let mut acc: Vec<(u32, u32, u32)> = Vec::new();
    let mut i: usize = 0;
    while i < wires.len()
        invariant
            i <= wires@.len(),
            forall|d: u32, u: u32| #[trigger] corridor_count(*model, wires@, d, u) <= 0xFFFF_FFFF,
            forall|a: int, b: int| 0 <= a < b < acc@.len() ==> ((#[trigger] acc@[a]).0, acc@[a].1) != ((#[trigger] acc@[b]).0, acc@[b].1),
            forall|d: u32, u: u32| has_corridor(*model, wires@.take(i as int), d, u) <==> exists|k: int| 0 <= k < acc@.len() && (#[trigger] acc@[k]).0 == d && acc@[k].1 == u,
            forall|k: int| 0 <= k < acc@.len() ==> (#[trigger] acc@[k]).2 == corridor_count(*model, wires@.take(i as int), acc@[k].0, acc@[k].1),
        decreases wires.len() - i,
    {
        let w = wires[i];
        let ghost pre = wires@.take(i as int);
        let ghost next = wires@.take(i + 1);
        let ghost before = acc@;
        proof {
            assert(next.drop_last() =~= pre);
            assert(next.last() == w);
        }
        let fd = model.frame_of(w.def);
        let fu = model.frame_of(w.user);
        let mut joined = false;
        if w.cross && !w.answers {
            if let (Some(d), Some(u)) = (fd, fu) {
                joined = true;
                let share: u32 = if w.count == 0 { 1 } else { w.count };
                let mut at: usize = 0;
                while at < acc.len() && !(acc[at].0 == d && acc[at].1 == u)
                    invariant
                        at <= acc@.len(),
                        forall|k: int| 0 <= k < at ==> !((#[trigger] acc@[k]).0 == d && acc@[k].1 == u),
                    decreases acc.len() - at,
                {
                    at = at + 1;
                }
                proof {
                    lemma_count_le(*model, wires@, i + 1, d, u);
                }
                if at < acc.len() {
                    let total = acc[at].2 + share;
                    acc.set(at, (d, u, total));
                } else {
                    acc.push((d, u, share));
                }
                proof {
                    assert forall|a: int, b: int| 0 <= a < b < acc@.len() implies ((#[trigger] acc@[a]).0, acc@[a].1) != ((#[trigger] acc@[b]).0, acc@[b].1) by {
                        if a < before.len() && b < before.len() {
                            assert(before[a] == acc@[a] || a == at);
                            if a != at && b != at {
                                assert(before[a] == acc@[a] && before[b] == acc@[b]);
                            } else if a == at {
                                assert(before[b] == acc@[b]);
                            } else {
                                assert(before[a] == acc@[a]);
                            }
                        } else {
                            assert(before[a] == acc@[a]);
                        }
                    }
                    assert forall|e: u32, v: u32| has_corridor(*model, next, e, v) <==> exists|k: int| 0 <= k < acc@.len() && (#[trigger] acc@[k]).0 == e && acc@[k].1 == v by {
                        if has_corridor(*model, next, e, v) {
                            let k = choose|k: int| 0 <= k < next.len() && in_corridor(*model, #[trigger] next[k], e, v);
                            if k < i {
                                assert(pre[k] == next[k]);
                                assert(in_corridor(*model, pre[k], e, v));
                                assert(has_corridor(*model, pre, e, v));
                                let q = choose|q: int| 0 <= q < before.len() && (#[trigger] before[q]).0 == e && before[q].1 == v;
                                if q != at {
                                    assert(acc@[q] == before[q]);
                                } else {
                                    assert(acc@[at as int].0 == e);
                                }
                            } else {
                                assert(acc@[at as int].0 == d && acc@[at as int].1 == u);
                            }
                        }
                        if exists|k: int| 0 <= k < acc@.len() && (#[trigger] acc@[k]).0 == e && acc@[k].1 == v {
                            let k = choose|k: int| 0 <= k < acc@.len() && (#[trigger] acc@[k]).0 == e && acc@[k].1 == v;
                            if k == at {
                                assert(in_corridor(*model, next[i as int], d, u));
                            } else {
                                assert(acc@[k] == before[k]);
                                assert(before[k].0 == e && before[k].1 == v);
                                assert(has_corridor(*model, pre, e, v));
                                let q = choose|q: int| 0 <= q < pre.len() && in_corridor(*model, #[trigger] pre[q], e, v);
                                assert(next[q] == pre[q]);
                            }
                        }
                    }
                    assert forall|k: int| 0 <= k < acc@.len() implies (#[trigger] acc@[k]).2 == corridor_count(*model, next, acc@[k].0, acc@[k].1) by {
                        if k != at {
                            assert(acc@[k] == before[k]);
                        } else if at == before.len() {
                            if has_corridor(*model, pre, d, u) {
                                let q = choose|q: int| 0 <= q < before.len() && (#[trigger] before[q]).0 == d && before[q].1 == u;
                            }
                            lemma_no_corridor(*model, pre, d, u);
                        }
                    }
                }
            }
        }
        if !joined {
            proof {
                assert forall|e: u32, v: u32| has_corridor(*model, next, e, v) <==> has_corridor(*model, pre, e, v) by {
                    if has_corridor(*model, next, e, v) {
                        let k = choose|k: int| 0 <= k < next.len() && in_corridor(*model, #[trigger] next[k], e, v);
                        assert(pre[k] == next[k]);
                    }
                    if has_corridor(*model, pre, e, v) {
                        let k = choose|k: int| 0 <= k < pre.len() && in_corridor(*model, #[trigger] pre[k], e, v);
                        assert(pre[k] == next[k]);
                    }
                }
            }
        }
        i = i + 1;
    }
    proof {
        assert(wires@.take(wires@.len() as int) =~= wires@);
    }
    let mut keyed: Vec<(Vec<u64>, (u32, u32, u32))> = Vec::new();
    let mut q: usize = 0;
    while q < acc.len()
        invariant
            q <= acc@.len(),
            keyed@.len() == q,
            forall|k: int| 0 <= k < q ==> (#[trigger] keyed@[k]).1 == acc@[k] && keyed@[k].0@ == seq![acc@[k].0 as u64, acc@[k].1 as u64],
        decreases acc.len() - q,
    {
        let e = acc[q];
        let mut key: Vec<u64> = Vec::new();
        key.push(e.0 as u64);
        key.push(e.1 as u64);
        keyed.push((key, e));
        q = q + 1;
    }
    let ghost unsorted = keyed@;
    let ranked = sort_by_key(keyed);
    let r = values_of(ranked);
    proof {
        crate::sort::lemma_same_entries(ranked@, unsorted);
        assert(unsorted.no_duplicates()) by {
            assert forall|x: int, y: int| 0 <= x < unsorted.len() && 0 <= y < unsorted.len() && x != y implies unsorted[x] != unsorted[y] by {
                if x < y {
                    assert((acc@[x].0, acc@[x].1) != (acc@[y].0, acc@[y].1));
                } else {
                    assert((acc@[y].0, acc@[y].1) != (acc@[x].0, acc@[x].1));
                }
            }
        }
        crate::sort::lemma_no_dup_moves(unsorted, ranked@);
        assert forall|k: int| #![trigger r@[k]] 0 <= k < r@.len() implies exists|a: int| 0 <= a < acc@.len() && #[trigger] acc@[a] == r@[k] by {
            assert(ranked@.contains(ranked@[k]));
            let a = choose|a: int| 0 <= a < unsorted.len() && unsorted[a] == ranked@[k];
            assert(acc@[a] == r@[k]);
        }
        assert forall|a: int| #![trigger acc@[a]] 0 <= a < acc@.len() implies exists|k: int| 0 <= k < r@.len() && #[trigger] r@[k] == acc@[a] by {
            assert(unsorted.contains(unsorted[a]));
            let k = choose|k: int| 0 <= k < ranked@.len() && ranked@[k] == unsorted[a];
            assert(r@[k] == acc@[a]);
        }
        assert forall|i: int, j: int| 0 <= i < j < r@.len() implies pair_before(#[trigger] r@[i], #[trigger] r@[j]) by {
            assert(ranked@.contains(ranked@[i]));
            assert(ranked@.contains(ranked@[j]));
            let a = choose|a: int| 0 <= a < unsorted.len() && unsorted[a] == ranked@[i];
            let b = choose|b: int| 0 <= b < unsorted.len() && unsorted[b] == ranked@[j];
            assert(lex_le(ranked@[i].0@, ranked@[j].0@));
            let ki = ranked@[i].0@;
            let kj = ranked@[j].0@;
            assert(ki == seq![acc@[a].0 as u64, acc@[a].1 as u64]);
            assert(kj == seq![acc@[b].0 as u64, acc@[b].1 as u64]);
            assert(ki.drop_first() =~= seq![acc@[a].1 as u64]);
            assert(kj.drop_first() =~= seq![acc@[b].1 as u64]);
            assert(ki.drop_first().drop_first() =~= Seq::<u64>::empty());
            assert(kj.drop_first().drop_first() =~= Seq::<u64>::empty());
            assert(ranked@[i] != ranked@[j]);
            assert(a != b);
            assert(unsorted[a].1 == acc@[a] && unsorted[b].1 == acc@[b]);
            assert(r@[i] == acc@[a] && r@[j] == acc@[b]);
            reveal_with_fuel(lex_le, 3);
            if a < b {
                assert((acc@[a].0, acc@[a].1) != (acc@[b].0, acc@[b].1));
            } else {
                assert((acc@[b].0, acc@[b].1) != (acc@[a].0, acc@[a].1));
            }
        }
    }
    r
}

/// A corridor no wire runs in counts nothing.
proof fn lemma_no_corridor(model: FnModel, wires: Seq<WireEnds>, d: u32, u: u32)
    ensures
        !has_corridor(model, wires, d, u) ==> corridor_count(model, wires, d, u) == 0,
    decreases wires.len(),
{
    if wires.len() > 0 && !has_corridor(model, wires, d, u) {
        assert(!has_corridor(model, wires.drop_last(), d, u)) by {
            if has_corridor(model, wires.drop_last(), d, u) {
                let k = choose|k: int| 0 <= k < wires.drop_last().len() && in_corridor(model, #[trigger] wires.drop_last()[k], d, u);
                assert(wires[k] == wires.drop_last()[k]);
            }
        }
        lemma_no_corridor(model, wires.drop_last(), d, u);
        assert(!in_corridor(model, wires[wires.len() - 1], d, u));
    }
}

} // verus!
