//! A declaration's sheet: what calls it and what it calls, one row per
//! drawn call whose far end the survey can place, heaviest first and then
//! by the far end's name.

use vstd::prelude::*;

use crate::fn_model::{Call, FnModel};
use crate::sort::{lex_le, push_text, sort_by_key, text_key, values_of};
use crate::survey::CodeGraph;

verus! {

/// The far end of a call as a sheet row reads it: the caller on the side of
/// what calls the declaration, the callee on the side of what it calls.
pub open spec fn far_end(c: Call, callers: bool) -> u32 {
    if callers {
        c.user
    } else {
        c.def
    }
}

/// The sheet can write a row for the declaration: the survey has it, and
/// the file it is written in.
pub open spec fn row_writable(g: CodeGraph, id: u32) -> bool {
    g.has_item(id as int) && g.has_file(g.items@[id as int].file as int)
}

/// The call is on the asked side of `id` and its far end can be written.
pub open spec fn on_side(g: CodeGraph, id: u32, callers: bool, c: Call) -> bool {
    (if callers {
        c.def == id
    } else {
        c.user == id
    }) && row_writable(g, far_end(c, callers))
}

/// The calls on one side of `id` that the sheet writes a row for, in the
/// model's order.
pub open spec fn side_calls(g: CodeGraph, calls: Seq<Call>, id: u32, callers: bool) -> Seq<Call> {
    calls.filter(|c: Call| on_side(g, id, callers, c))
}

/// A row's place: more references first, then the far end's name.
pub open spec fn row_key(g: CodeGraph, c: Call, callers: bool) -> Seq<u64> {
    seq![(0xFFFF_FFFF_FFFF_FFFFu64 - c.count) as u64] + text_key(g.items@[far_end(c, callers) as int].head.name@)
}

/// Of two rows on one side of a sheet, the one listed first carries at
/// least as many references, and of equal counts its far end's name sorts
/// first.
pub proof fn law_sheet_heaviest_first(g: CodeGraph, c: Call, d: Call, callers: bool)
    requires
        lex_le(row_key(g, c, callers), row_key(g, d, callers)),
    ensures
        c.count >= d.count,
        c.count == d.count ==> lex_le(
            text_key(g.items@[far_end(c, callers) as int].head.name@),
            text_key(g.items@[far_end(d, callers) as int].head.name@),
        ),
{
    let a = row_key(g, c, callers);
    let b = row_key(g, d, callers);
    assert(a[0] == (0xFFFF_FFFF_FFFF_FFFFu64 - c.count) as u64);
    assert(b[0] == (0xFFFF_FFFF_FFFF_FFFFu64 - d.count) as u64);
    assert(a.len() > 0 && b.len() > 0);
    if a[0] == b[0] {
        assert(lex_le(a.drop_first(), b.drop_first()));
        assert(a.drop_first() =~= text_key(g.items@[far_end(c, callers) as int].head.name@));
        assert(b.drop_first() =~= text_key(g.items@[far_end(d, callers) as int].head.name@));
    }
}

/// One side of the sheet, as [`side_calls`] picks it, ordered by
/// [`row_key`].
fn sheet_side(g: &CodeGraph, calls: &Vec<Call>, id: u32, callers: bool) -> (r: Vec<Call>)
    ensures
        r@.to_multiset() == side_calls(*g, calls@, id, callers).to_multiset(),
        forall|i: int, j: int| 0 <= i < j < r@.len() ==> lex_le(row_key(*g, #[trigger] r@[i], callers), row_key(*g, #[trigger] r@[j], callers)),
{
    let mut keyed: Vec<(Vec<u64>, Call)> = Vec::new();
    let mut i: usize = 0;
    while i < calls.len()
        invariant
            i <= calls@.len(),
            keyed@.map_values(|e: (Vec<u64>, Call)| e.1) == side_calls(*g, calls@.take(i as int), id, callers),
            forall|k: int| 0 <= k < keyed@.len() ==> (#[trigger] keyed@[k]).0@ == row_key(*g, keyed@[k].1, callers),
        decreases calls.len() - i,
    {
        let c = calls[i];
        let ghost before = keyed@;
        proof {
            reveal(Seq::filter);
            assert(calls@.take(i + 1).drop_last() =~= calls@.take(i as int));
            assert(calls@.take(i + 1).last() == c);
        }
        let near = if callers { c.def } else { c.user };
        let far = if callers { c.user } else { c.def };
        if near == id {
            match g.item(far) {
                Some(item) => {
                    if g.file(item.file).is_some() {
                        let mut key: Vec<u64> = Vec::new();
                        key.push(0xFFFF_FFFF_FFFF_FFFFu64 - c.count as u64);
                        push_text(&mut key, item.head.name.as_str());
                        proof {
                            assert(key@ =~= row_key(*g, c, callers));
                        }
                        keyed.push((key, c));
                        proof {
                            assert(keyed@.map_values(|e: (Vec<u64>, Call)| e.1) =~= before.map_values(|e: (Vec<u64>, Call)| e.1).push(c));
                        }
                    }
                },
                None => {},
            }
        }
        i = i + 1;
    }
    proof {
        assert(calls@.take(calls@.len() as int) =~= calls@);
    }
    let ghost unsorted = keyed@;
    let ranked = sort_by_key(keyed);
    let r = values_of(ranked);
    proof {
        crate::sort::lemma_map_multiset(ranked@, unsorted, |e: (Vec<u64>, Call)| e.1);
        assert(r@ =~= ranked@.map_values(|e: (Vec<u64>, Call)| e.1));
        assert forall|i: int, j: int| 0 <= i < j < r@.len() implies lex_le(row_key(*g, #[trigger] r@[i], callers), row_key(*g, #[trigger] r@[j], callers)) by {
            assert(ranked@.contains(ranked@[i]));
            assert(ranked@.contains(ranked@[j]));
            crate::sort::lemma_same_entries(ranked@, unsorted);
            let a = choose|a: int| 0 <= a < unsorted.len() && unsorted[a] == ranked@[i];
            let b = choose|b: int| 0 <= b < unsorted.len() && unsorted[b] == ranked@[j];
            assert(lex_le(ranked@[i].0@, ranked@[j].0@));
        }
    }
    r
}

/// What calls the declaration and what it calls, as its sheet lists them:
/// the drawn calls whose far end the survey can place, heaviest first, then
/// by the far end's name.
pub fn sheet_rows(g: &CodeGraph, model: &FnModel, id: u32) -> (r: (Vec<Call>, Vec<Call>))
    ensures
        r.0@.to_multiset() == side_calls(*g, model.calls@, id, true).to_multiset(),
        forall|i: int, j: int| 0 <= i < j < r.0@.len() ==> lex_le(row_key(*g, #[trigger] r.0@[i], true), row_key(*g, #[trigger] r.0@[j], true)),
        r.1@.to_multiset() == side_calls(*g, model.calls@, id, false).to_multiset(),
        forall|i: int, j: int| 0 <= i < j < r.1@.len() ==> lex_le(row_key(*g, #[trigger] r.1@[i], false), row_key(*g, #[trigger] r.1@[j], false)),
{
    (sheet_side(g, &model.calls, id, true), sheet_side(g, &model.calls, id, false))
}

} // verus!
