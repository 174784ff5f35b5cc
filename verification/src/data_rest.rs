//! When a holds edge rests: diff ink always does, and a structural edge does
//! unless the mark it lands on has more than [`HELD_CAP`] live holders, in
//! which case its fan-in folds to a count.

use vstd::prelude::*;

use crate::data_build::{fan_held, fan_holds, fold_read, folds_of, is_folded, marks_fold_read, named_count, spec_is_fn_id};
use crate::data_model::{Anchor, DataMark, Hold, HELD_CAP};
use crate::wire::CodeGraph;

verus! {

/// The anchors a structural hold has holding `x`.
pub open spec fn live_holders(holds: Seq<Hold>, x: Anchor) -> Set<Anchor> {
    Set::new(|y: Anchor| fan_holds(holds, holds.len() as int, x, y))
}

/// The fan-in of `x` folds to a count: `x` is a mark with more than
/// [`HELD_CAP`] live holders.
pub open spec fn fan_folds(holds: Seq<Hold>, x: Anchor) -> bool {
    x is Mark && live_holders(holds, x).len() > HELD_CAP
}

/// Every hold rests exactly when it is diff ink or its held end's fan-in
/// does not fold.
#[verifier::opaque]
pub open spec fn rests_fit(holds: Seq<Hold>) -> bool {
    forall|k: int| 0 <= k < holds.len() ==> (#[trigger] holds[k]).rest == (holds[k].event.is_some() || !fan_folds(
        holds,
        holds[k].held,
    ))
}

/// The fan-in as gathered: each held anchor once, with each of its live
/// holders once.
#[verifier::opaque]
pub open spec fn fan_exact(holds: Seq<Hold>, fan: Seq<(Anchor, Vec<Anchor>)>) -> bool {
    &&& forall|a: int, b: int| 0 <= a < b < fan.len() ==> (#[trigger] fan[a]).0 != (#[trigger] fan[b]).0
    &&& forall|x: Anchor| fan_held(holds, holds.len() as int, x) <==> exists|k: int| 0 <= k < fan.len() && (#[trigger] fan[k]).0 == x
    &&& forall|k: int, p: int, q: int| 0 <= k < fan.len() && 0 <= p < q < fan[k].1@.len() ==> (#[trigger] fan[k].1@[p]) != (#[trigger] fan[k].1@[q])
    &&& forall|k: int, y: Anchor| 0 <= k < fan.len() ==> ((#[trigger] fan[k].1@.contains(y)) <==> fan_holds(holds, holds.len() as int, fan[k].0, y))
}

/// Each hold rests as the folds say, its other parts as gathered.
#[verifier::opaque]
pub open spec fn rest_marked(holds0: Seq<Hold>, holds: Seq<Hold>, folds: Seq<(Anchor, u32, u32)>) -> bool {
    &&& holds.len() == holds0.len()
    &&& forall|k: int| 0 <= k < holds.len() ==> (#[trigger] holds[k]).held == holds0[k].held && holds[k].holder == holds0[k].holder
        && holds[k].event == holds0[k].event && holds[k].rest == (holds[k].event.is_some() || !is_folded(folds, holds[k].held))
}

/// An anchor folds exactly where its fan entry is a mark's with more than
/// [`HELD_CAP`] holders.
proof fn lemma_folds_of(graph: CodeGraph, fan: Seq<(Anchor, Vec<Anchor>)>, a: Anchor)
    ensures
        is_folded(folds_of(graph, fan), a) <==> exists|k: int|
            0 <= k < fan.len() && (#[trigger] fan[k]).0 == a && a is Mark && fan[k].1@.len() > HELD_CAP,
    decreases fan.len(),
{
    if fan.len() > 0 {
        let r = folds_of(graph, fan.drop_last());
        lemma_folds_of(graph, fan.drop_last(), a);
        let e = fan.last();
        let f = folds_of(graph, fan);
        if is_folded(f, a) {
            let k = choose|k: int| 0 <= k < f.len() && (#[trigger] f[k]).0 == a;
            if k < r.len() {
                assert(r[k] == f[k]);
                let j = choose|j: int|
                    0 <= j < fan.drop_last().len() && (#[trigger] fan.drop_last()[j]).0 == a && a is Mark && fan.drop_last()[j].1@.len()
                        > HELD_CAP;
                assert(fan[j] == fan.drop_last()[j]);
            } else {
                assert(fan[fan.len() - 1] == e);
            }
        }
        if exists|k: int| 0 <= k < fan.len() && (#[trigger] fan[k]).0 == a && a is Mark && fan[k].1@.len() > HELD_CAP {
            let k = choose|k: int| 0 <= k < fan.len() && (#[trigger] fan[k]).0 == a && a is Mark && fan[k].1@.len() > HELD_CAP;
            if k < fan.len() - 1 {
                assert(fan.drop_last()[k] == fan[k]);
                let i = choose|i: int| 0 <= i < r.len() && (#[trigger] r[i]).0 == a;
                if e.0 is Mark && e.1@.len() > HELD_CAP {
                    assert(f[i] == r[i]);
                }
            } else {
                assert(f[r.len() as int].0 == a);
            }
        }
    }
}

/// The rest rule, read off the fan-in the holds were gathered into.
#[verifier::rlimit(40)]
#[verifier::spinoff_prover]
pub proof fn lemma_rests(
    graph: CodeGraph,
    holds0: Seq<Hold>,
    holds: Seq<Hold>,
    fan: Seq<(Anchor, Vec<Anchor>)>,
    folds: Seq<(Anchor, u32, u32)>,
)
    requires
        fan_exact(holds0, fan),
        folds == folds_of(graph, fan),
        rest_marked(holds0, holds, folds),
    ensures
        rests_fit(holds),
{
    reveal(fan_exact);
    reveal(rest_marked);
    reveal(rests_fit);
    assert forall|x: Anchor, y: Anchor| fan_holds(holds, holds.len() as int, x, y) == fan_holds(holds0, holds0.len() as int, x, y) by {
        if fan_holds(holds, holds.len() as int, x, y) {
            let i = choose|i: int|
                0 <= i < holds.len() && (#[trigger] holds[i]).event != Some(crate::kinds::HoldEvent::Removed) && holds[i].held == x
                    && holds[i].holder == y;
            assert(holds0[i].event == holds[i].event);
        }
        if fan_holds(holds0, holds0.len() as int, x, y) {
            let i = choose|i: int|
                0 <= i < holds0.len() && (#[trigger] holds0[i]).event != Some(crate::kinds::HoldEvent::Removed) && holds0[i].held == x
                    && holds0[i].holder == y;
            assert(holds[i].event == holds0[i].event);
        }
    }
    assert forall|k: int| 0 <= k < holds.len() implies (#[trigger] holds[k]).rest == (holds[k].event.is_some() || !fan_folds(
        holds,
        holds[k].held,
    )) by {
        let x = holds[k].held;
        lemma_folds_of(graph, fan, x);
        if holds[k].event.is_none() {
            assert(fan_held(holds0, holds0.len() as int, x)) by {
                assert(holds0[k].event == holds[k].event && holds0[k].held == x);
            }
            let j = choose|j: int| 0 <= j < fan.len() && (#[trigger] fan[j]).0 == x;
            let list = fan[j].1@;
            assert(list.no_duplicates()) by {
                assert forall|p: int, q: int| 0 <= p < list.len() && 0 <= q < list.len() && p != q implies list[p] != list[q] by {
                    if p < q {
                        assert(fan[j].1@[p] != fan[j].1@[q]);
                    } else {
                        assert(fan[j].1@[q] != fan[j].1@[p]);
                    }
                }
            }
            list.unique_seq_to_set();
            assert(list.to_set() =~= live_holders(holds, x)) by {
                assert forall|y: Anchor| list.to_set().contains(y) <==> live_holders(holds, x).contains(y) by {
                    assert(fan[j].1@.contains(y) <==> fan_holds(holds0, holds0.len() as int, fan[j].0, y));
                }
            }
            if is_folded(folds, x) {
                let i = choose|i: int| 0 <= i < fan.len() && (#[trigger] fan[i]).0 == x && x is Mark && fan[i].1@.len() > HELD_CAP;
                assert(i == j) by {
                    if i < j {
                        assert(fan[i].0 != fan[j].0);
                    } else if j < i {
                        assert(fan[j].0 != fan[i].0);
                    }
                }
            } else {
                if x is Mark && list.len() > HELD_CAP {
                    assert(fan[j].0 == x);
                }
            }
        }
    }
}

/// The holder is a signature: the mark of a function.
pub open spec fn names_it(graph: CodeGraph, y: Anchor) -> bool {
    match y {
        Anchor::Mark(id) => spec_is_fn_id(graph, id),
        _ => false,
    }
}

/// The live holders of `x` that are signatures.
pub open spec fn named_holders(graph: CodeGraph, holds: Seq<Hold>, x: Anchor) -> Set<Anchor> {
    live_holders(holds, x).filter(|y: Anchor| names_it(graph, y))
}

/// Each mark counts its holders where its fan-in folds, and nothing
/// elsewhere: `named_by` the signatures among them, `held_by` the rest.
#[verifier::opaque]
pub open spec fn held_counts_fit(graph: CodeGraph, holds: Seq<Hold>, marks: Seq<DataMark>) -> bool {
    forall|k: int| 0 <= k < marks.len() ==> {
        let m = #[trigger] marks[k];
        let x = Anchor::Mark(m.id);
        if !m.ghosted && fan_folds(holds, x) {
            m.named_by == named_holders(graph, holds, x).len() && m.held_by + m.named_by == live_holders(holds, x).len()
        } else {
            m.held_by == 0 && m.named_by == 0
        }
    }
}

proof fn lemma_named_le(graph: CodeGraph, list: Seq<Anchor>)
    ensures
        named_count(graph, list) <= list.len(),
    decreases list.len(),
{
    if list.len() > 0 {
        lemma_named_le(graph, list.drop_last());
    }
}

/// Counted along a list with nothing twice, the signatures are those of the
/// list's set.
proof fn lemma_named_set(graph: CodeGraph, list: Seq<Anchor>)
    requires
        list.no_duplicates(),
    ensures
        list.to_set().filter(|y: Anchor| names_it(graph, y)).finite(),
        list.to_set().filter(|y: Anchor| names_it(graph, y)).len() == named_count(graph, list),
    decreases list.len(),
{
    let f = |y: Anchor| names_it(graph, y);
    if list.len() == 0 {
        assert(list.to_set().filter(f) =~= Set::<Anchor>::empty());
    } else {
        let r = list.drop_last();
        let e = list.last();
        assert(r.no_duplicates()) by {
            assert forall|p: int, q: int| 0 <= p < r.len() && 0 <= q < r.len() && p != q implies r[p] != r[q] by {
                assert(r[p] == list[p] && r[q] == list[q]);
            }
        }
        lemma_named_set(graph, r);
        assert(list =~= r + seq![e]);
        Seq::<Anchor>::lemma_to_set_insert_commutes(r, e);
        assert(!r.to_set().contains(e)) by {
            if r.to_set().contains(e) {
                let i = choose|i: int| 0 <= i < r.len() && r[i] == e;
                assert(list[i] == list[list.len() - 1]);
            }
        }
        let s0 = r.to_set().filter(f);
        if names_it(graph, e) {
            assert(list.to_set().filter(f) =~= s0.insert(e));
            assert(!s0.contains(e));
        } else {
            assert(list.to_set().filter(f) =~= s0);
        }
    }
}

/// A fan-in fold stands for a fan entry: a mark with more than
/// [`HELD_CAP`] holders, counted as signatures and the rest.
proof fn lemma_fold_entry(graph: CodeGraph, fan: Seq<(Anchor, Vec<Anchor>)>, j: int)
    requires
        0 <= j < folds_of(graph, fan).len(),
        forall|k: int| 0 <= k < fan.len() ==> (#[trigger] fan[k]).1@.len() < 0x4000_0000,
    ensures
        exists|k: int|
            0 <= k < fan.len() && (#[trigger] fan[k]).0 == folds_of(graph, fan)[j].0 && fan[k].0 is Mark && fan[k].1@.len()
                > HELD_CAP && folds_of(graph, fan)[j].2 == named_count(graph, fan[k].1@) && folds_of(graph, fan)[j].1
                + folds_of(graph, fan)[j].2 == fan[k].1@.len(),
    decreases fan.len(),
{
    let r = folds_of(graph, fan.drop_last());
    let e = fan.last();
    assert forall|k: int| 0 <= k < fan.drop_last().len() implies (#[trigger] fan.drop_last()[k]).1@.len() < 0x4000_0000 by {
        assert(fan.drop_last()[k] == fan[k]);
    }
    if j < r.len() {
        lemma_fold_entry(graph, fan.drop_last(), j);
        let k = choose|k: int|
            0 <= k < fan.drop_last().len() && (#[trigger] fan.drop_last()[k]).0 == r[j].0 && fan.drop_last()[k].0 is Mark
                && fan.drop_last()[k].1@.len() > HELD_CAP && r[j].2 == named_count(graph, fan.drop_last()[k].1@) && r[j].1
                + r[j].2 == fan.drop_last()[k].1@.len();
        assert(fan[k] == fan.drop_last()[k]);
    } else {
        let k = fan.len() - 1;
        assert(fan[k] == e);
        lemma_named_le(graph, e.1@);
    }
}

/// Where the holds are those gathered, with only their rest set anew, the
/// live holders are those of the holds gathered.
proof fn lemma_same_fan(holds0: Seq<Hold>, holds: Seq<Hold>, folds: Seq<(Anchor, u32, u32)>)
    requires
        rest_marked(holds0, holds, folds),
    ensures
        forall|x: Anchor, y: Anchor| #[trigger] fan_holds(holds, holds.len() as int, x, y) == fan_holds(holds0, holds0.len() as int, x, y),
        forall|x: Anchor| #[trigger] fan_held(holds, holds.len() as int, x) == fan_held(holds0, holds0.len() as int, x),
{
    reveal(rest_marked);
    assert forall|x: Anchor, y: Anchor| #[trigger] fan_holds(holds, holds.len() as int, x, y) == fan_holds(holds0, holds0.len() as int, x, y) by {
        if fan_holds(holds, holds.len() as int, x, y) {
            let i = choose|i: int|
                0 <= i < holds.len() && (#[trigger] holds[i]).event != Some(crate::kinds::HoldEvent::Removed) && holds[i].held == x
                    && holds[i].holder == y;
            assert(holds0[i].event == holds[i].event);
        }
        if fan_holds(holds0, holds0.len() as int, x, y) {
            let i = choose|i: int|
                0 <= i < holds0.len() && (#[trigger] holds0[i]).event != Some(crate::kinds::HoldEvent::Removed) && holds0[i].held == x
                    && holds0[i].holder == y;
            assert(holds[i].event == holds0[i].event);
        }
    }
    assert forall|x: Anchor| #[trigger] fan_held(holds, holds.len() as int, x) == fan_held(holds0, holds0.len() as int, x) by {
        if fan_held(holds, holds.len() as int, x) {
            let i = choose|i: int| 0 <= i < holds.len() && (#[trigger] holds[i]).event != Some(crate::kinds::HoldEvent::Removed) && holds[i].held == x;
            assert(holds0[i].event == holds[i].event);
        }
        if fan_held(holds0, holds0.len() as int, x) {
            let i = choose|i: int| 0 <= i < holds0.len() && (#[trigger] holds0[i]).event != Some(crate::kinds::HoldEvent::Removed) && holds0[i].held == x;
            assert(holds[i].event == holds0[i].event);
        }
    }
}

/// The fan entry of a held anchor lists exactly its live holders, once each.
proof fn lemma_entry_set(holds0: Seq<Hold>, holds: Seq<Hold>, folds: Seq<(Anchor, u32, u32)>, fan: Seq<(Anchor, Vec<Anchor>)>, j: int)
    requires
        fan_exact(holds0, fan),
        rest_marked(holds0, holds, folds),
        0 <= j < fan.len(),
    ensures
        fan[j].1@.no_duplicates(),
        fan[j].1@.to_set() =~= live_holders(holds, fan[j].0),
        live_holders(holds, fan[j].0).finite(),
        live_holders(holds, fan[j].0).len() == fan[j].1@.len(),
{
    reveal(fan_exact);
    lemma_same_fan(holds0, holds, folds);
    let list = fan[j].1@;
    assert(list.no_duplicates()) by {
        assert forall|p: int, q: int| 0 <= p < list.len() && 0 <= q < list.len() && p != q implies list[p] != list[q] by {
            if p < q {
                assert(fan[j].1@[p] != fan[j].1@[q]);
            } else {
                assert(fan[j].1@[q] != fan[j].1@[p]);
            }
        }
    }
    list.unique_seq_to_set();
    assert forall|y: Anchor| list.to_set().contains(y) <==> live_holders(holds, fan[j].0).contains(y) by {
        assert(fan[j].1@.contains(y) <==> fan_holds(holds0, holds0.len() as int, fan[j].0, y));
    }
    assert(list.to_set() =~= live_holders(holds, fan[j].0));
}

/// The fold counts each mark carries are its live holders, split into
/// signatures and the rest.
#[verifier::rlimit(40)]
#[verifier::spinoff_prover]
pub proof fn lemma_held_counts(
    graph: CodeGraph,
    holds0: Seq<Hold>,
    holds: Seq<Hold>,
    fan: Seq<(Anchor, Vec<Anchor>)>,
    folds: Seq<(Anchor, u32, u32)>,
    marks: Seq<DataMark>,
)
    requires
        fan_exact(holds0, fan),
        forall|k: int| 0 <= k < fan.len() ==> (#[trigger] fan[k]).1@.len() < 0x4000_0000,
        folds == folds_of(graph, fan),
        rest_marked(holds0, holds, folds),
        marks_fold_read(folds, marks),
    ensures
        held_counts_fit(graph, holds, marks),
{
    reveal(held_counts_fit);
    reveal(marks_fold_read);
    assert forall|i: int| 0 <= i < marks.len() implies {
        let m = #[trigger] marks[i];
        let x = Anchor::Mark(m.id);
        if !m.ghosted && fan_folds(holds, x) {
            m.named_by == named_holders(graph, holds, x).len() && m.held_by + m.named_by == live_holders(holds, x).len()
        } else {
            m.held_by == 0 && m.named_by == 0
        }
    } by {
        let m = marks[i];
        let x = Anchor::Mark(m.id);
        assert(fold_read(folds, m));
        reveal(fold_read);
        lemma_folds_of(graph, fan, x);
        lemma_same_fan(holds0, holds, folds);
        if !m.ghosted && is_folded(folds, x) {
            let j = choose|j: int| 0 <= j < folds.len() && #[trigger] folds[j] == (x, m.held_by, m.named_by);
            lemma_fold_entry(graph, fan, j);
            let k = choose|k: int|
                0 <= k < fan.len() && (#[trigger] fan[k]).0 == folds[j].0 && fan[k].0 is Mark && fan[k].1@.len() > HELD_CAP
                    && folds[j].2 == named_count(graph, fan[k].1@) && folds[j].1 + folds[j].2 == fan[k].1@.len();
            lemma_entry_set(holds0, holds, folds, fan, k);
            lemma_named_set(graph, fan[k].1@);
            assert(named_holders(graph, holds, x) =~= fan[k].1@.to_set().filter(|y: Anchor| names_it(graph, y)));
        } else if !m.ghosted && fan_folds(holds, x) {
            assert(exists|y: Anchor| live_holders(holds, x).contains(y)) by {
                if !(exists|y: Anchor| live_holders(holds, x).contains(y)) {
                    assert(live_holders(holds, x) =~= Set::<Anchor>::empty());
                }
            }
            let y = choose|y: Anchor| live_holders(holds, x).contains(y);
            assert(fan_holds(holds, holds.len() as int, x, y));
            assert(fan_holds(holds0, holds0.len() as int, x, y));
            let w = choose|w: int|
                0 <= w < holds0.len() && (#[trigger] holds0[w]).event != Some(crate::kinds::HoldEvent::Removed) && holds0[w].held == x
                    && holds0[w].holder == y;
            reveal(fan_exact);
            assert(fan_held(holds0, holds0.len() as int, x));
            let k = choose|k: int| 0 <= k < fan.len() && (#[trigger] fan[k]).0 == x;
            lemma_entry_set(holds0, holds, folds, fan, k);
        }
    }
}

} // verus!
