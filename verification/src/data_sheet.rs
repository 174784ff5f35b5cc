//! One selected type's sheet on the data chart: what holds it, which
//! signatures name it, what it holds, and how much further than its direct
//! holders a change to its shape travels.

use vstd::prelude::*;

use crate::data_build::is_fn_mark;
use crate::data_model::{closed_upstream, is_reached, upstream, Anchor, DataMark, DataModel, Hold};

verus! {

/// The sheet's rows, as positions in the model's holds, and the reach
/// beyond the direct holders.
pub struct DataSheetRows {
    /// The holds whose held end is the selection and whose holder keeps it.
    pub held_by: Vec<usize>,
    /// The holds whose held end is the selection and whose holder is a
    /// signature that names it.
    pub contracts: Vec<usize>,
    /// The holds whose holder is the selection.
    pub holds: Vec<usize>,
    /// Types further up than the direct holders.
    pub beyond_types: usize,
    /// Signatures further up than the direct holders.
    pub beyond_fns: usize,
}

/// The anchor is a drawn function's mark: a signature, which keeps nothing.
pub open spec fn is_contract(marks: Seq<DataMark>, a: Anchor) -> bool {
    match a {
        Anchor::Mark(id) => exists|k: int| 0 <= k < marks.len() && (#[trigger] marks[k]).id == id && is_fn_mark(marks[k]),
        _ => false,
    }
}

/// The positions of the holds that meet `pred`, in order, each once.
pub open spec fn picks_exact(holds: Seq<Hold>, picks: Seq<usize>, pred: spec_fn(Hold) -> bool) -> bool {
    &&& forall|a: int, b: int| 0 <= a < b < picks.len() ==> picks[a] < picks[b]
    &&& forall|k: int| 0 <= k < picks.len() ==> (#[trigger] picks[k] as int) < holds.len() && pred(holds[picks[k] as int])
    &&& forall|i: int| 0 <= i < holds.len() && pred(#[trigger] holds[i]) ==> picks.contains(i as usize)
}

/// Each hold as (held, holder).
pub open spec fn pairs_of(holds: Seq<Hold>) -> Seq<(Anchor, Anchor)> {
    holds.map_values(|h: Hold| (h.held, h.holder))
}

/// Some hold has `a` holding `at` directly.
pub open spec fn direct_holder(holds: Seq<Hold>, at: Anchor, a: Anchor) -> bool {
    exists|i: int| 0 <= i < holds.len() && (#[trigger] holds[i]).held == at && holds[i].holder == a
}

/// A mark the walk reaches that does not hold `at` directly.
pub open spec fn beyond(model: DataModel, at: Anchor, a: Anchor) -> bool {
    a is Mark && !direct_holder(model.holds@, at, a)
}

/// `seen` is the set the walk holder-ward from `at` reaches, each once.
pub open spec fn upstream_fits(pairs: Seq<(Anchor, Anchor)>, at: Anchor, seen: Seq<Anchor>) -> bool {
    &&& !seen.contains(at)
    &&& seen.no_duplicates()
    &&& closed_upstream(pairs, at, seen)
    &&& forall|k: int| 0 <= k < seen.len() ==> is_reached(pairs, at, #[trigger] seen[k])
}

fn contract_at(marks: &Vec<DataMark>, a: Anchor) -> (b: bool)
    ensures
        b == is_contract(marks@, a),
{
    match a {
        Anchor::Mark(id) => {
            let mut k: usize = 0;
            while k < marks.len()
                invariant
                    k <= marks@.len(),
                    a == Anchor::Mark(id),
                    forall|q: int| 0 <= q < k ==> !((#[trigger] marks@[q]).id == id && is_fn_mark(marks@[q])),
                decreases marks.len() - k,
            {
                if marks[k].id == id && !marks[k].ghosted && matches!(marks[k].kind, crate::kinds::ItemKind::Fn) {
                    proof {
                        assert(marks@[k as int].id == id && is_fn_mark(marks@[k as int]));
                        assert(a == Anchor::Mark(id));
                        assert(is_contract(marks@, a));
                    }
                    return true;
                }
                k = k + 1;
            }
            false
        },
        _ => false,
    }
}

fn holds_directly(holds: &Vec<Hold>, at: Anchor, a: Anchor) -> (b: bool)
    ensures
        b == direct_holder(holds@, at, a),
{
    let mut i: usize = 0;
    while i < holds.len()
        invariant
            i <= holds@.len(),
            forall|q: int| 0 <= q < i ==> !((#[trigger] holds@[q]).held == at && holds@[q].holder == a),
        decreases holds.len() - i,
    {
        if holds[i].held == at && holds[i].holder == a {
            return true;
        }
        i = i + 1;
    }
    false
}

/// The sheet of the selection `at`: its holders apart from the signatures
/// that name it, what it holds, and how many types and signatures beyond
/// its direct holders a change to its shape reaches.
pub fn sheet_of(model: &DataModel, at: Anchor) -> (s: DataSheetRows)
    ensures
        picks_exact(model.holds@, s.held_by@, |h: Hold| h.held == at && !is_contract(model.marks@, h.holder)),
        picks_exact(model.holds@, s.contracts@, |h: Hold| h.held == at && is_contract(model.marks@, h.holder)),
        picks_exact(model.holds@, s.holds@, |h: Hold| h.holder == at),
        exists|seen: Seq<Anchor>|
            #[trigger] upstream_fits(pairs_of(model.holds@), at, seen) && s.beyond_types == seen.filter(
                |a: Anchor| beyond(*model, at, a) && !is_contract(model.marks@, a),
            ).len() && s.beyond_fns == seen.filter(|a: Anchor| beyond(*model, at, a) && is_contract(model.marks@, a)).len(),
{
    let ghost hv = model.holds@;
    let mut held_by: Vec<usize> = Vec::new();
    let mut contracts: Vec<usize> = Vec::new();
    let mut holds: Vec<usize> = Vec::new();
    let mut pairs: Vec<(Anchor, Anchor)> = Vec::new();
    let mut i: usize = 0;
    while i < model.holds.len()
        invariant
            i <= hv.len(),
            hv == model.holds@,
            pairs@ == pairs_of(hv.take(i as int)),
            forall|a: int, b: int| 0 <= a < b < held_by@.len() ==> held_by@[a] < held_by@[b],
            forall|a: int, b: int| 0 <= a < b < contracts@.len() ==> contracts@[a] < contracts@[b],
            forall|a: int, b: int| 0 <= a < b < holds@.len() ==> holds@[a] < holds@[b],
            forall|k: int| 0 <= k < held_by@.len() ==> (#[trigger] held_by@[k] as int) < i && hv[held_by@[k] as int].held == at
                && !is_contract(model.marks@, hv[held_by@[k] as int].holder),
            forall|k: int| 0 <= k < contracts@.len() ==> (#[trigger] contracts@[k] as int) < i && hv[contracts@[k] as int].held == at
                && is_contract(model.marks@, hv[contracts@[k] as int].holder),
            forall|k: int| 0 <= k < holds@.len() ==> (#[trigger] holds@[k] as int) < i && hv[holds@[k] as int].holder == at,
            forall|q: int| 0 <= q < i && (#[trigger] hv[q]).held == at && !is_contract(model.marks@, hv[q].holder) ==> held_by@.contains(q as usize),
            forall|q: int| 0 <= q < i && (#[trigger] hv[q]).held == at && is_contract(model.marks@, hv[q].holder) ==> contracts@.contains(q as usize),
            forall|q: int| 0 <= q < i && (#[trigger] hv[q]).holder == at ==> holds@.contains(q as usize),
        decreases hv.len() - i,
    {
        let h = &model.holds[i];
        let ghost b1 = held_by@;
        let ghost b2 = contracts@;
        let ghost b3 = holds@;
        if h.held == at {
            if contract_at(&model.marks, h.holder) {
                contracts.push(i);
                proof {
                    assert forall|q: int| 0 <= q < i + 1 && (#[trigger] hv[q]).held == at && is_contract(model.marks@, hv[q].holder) implies contracts@.contains(q as usize) by {
                        if q < i {
                            let w = choose|w: int| 0 <= w < b2.len() && b2[w] == q as usize;
                            assert(contracts@[w] == b2[w]);
                        } else {
                            assert(contracts@[contracts@.len() - 1] == i);
                        }
                    }
                }
            } else {
                held_by.push(i);
                proof {
                    assert forall|q: int| 0 <= q < i + 1 && (#[trigger] hv[q]).held == at && !is_contract(model.marks@, hv[q].holder) implies held_by@.contains(q as usize) by {
                        if q < i {
                            let w = choose|w: int| 0 <= w < b1.len() && b1[w] == q as usize;
                            assert(held_by@[w] == b1[w]);
                        } else {
                            assert(held_by@[held_by@.len() - 1] == i);
                        }
                    }
                }
            }
        }
        if h.holder == at {
            holds.push(i);
            proof {
                assert forall|q: int| 0 <= q < i + 1 && (#[trigger] hv[q]).holder == at implies holds@.contains(q as usize) by {
                    if q < i {
                        let w = choose|w: int| 0 <= w < b3.len() && b3[w] == q as usize;
                        assert(holds@[w] == b3[w]);
                    } else {
                        assert(holds@[holds@.len() - 1] == i);
                    }
                }
            }
        }
        pairs.push((h.held, h.holder));
        proof {
            assert(pairs@ =~= pairs_of(hv.take(i + 1)));
        }
        i = i + 1;
    }
    proof {
        assert(hv.take(hv.len() as int) =~= hv);
    }
    let seen = upstream(pairs.as_slice(), at);
    let mut beyond_types: usize = 0;
    let mut beyond_fns: usize = 0;
    let mut k: usize = 0;
    while k < seen.len()
        invariant
            k <= seen@.len(),
            beyond_types + beyond_fns <= k,
            beyond_types == seen@.take(k as int).filter(|a: Anchor| beyond(*model, at, a) && !is_contract(model.marks@, a)).len(),
            beyond_fns == seen@.take(k as int).filter(|a: Anchor| beyond(*model, at, a) && is_contract(model.marks@, a)).len(),
        decreases seen.len() - k,
    {
        proof {
            reveal(Seq::filter);
            assert(seen@.take(k + 1).drop_last() =~= seen@.take(k as int));
            assert(seen@.take(k + 1).last() == seen@[k as int]);
        }
        let a = seen[k];
        if matches!(a, Anchor::Mark(_)) && !holds_directly(&model.holds, at, a) {
            if contract_at(&model.marks, a) {
                beyond_fns = beyond_fns + 1;
            } else {
                beyond_types = beyond_types + 1;
            }
        }
        k = k + 1;
    }
    proof {
        assert(seen@.take(seen@.len() as int) =~= seen@);
        assert(upstream_fits(pairs_of(model.holds@), at, seen@));
    }
    DataSheetRows { held_by, contracts, holds, beyond_types, beyond_fns }
}

} // verus!
