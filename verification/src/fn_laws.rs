//! What holds of every model the chart reads, whatever the survey and the
//! reading: the wires the paper draws, the calls a sheet keeps, and where
//! each mark stands in the running order.

use vstd::prelude::*;

use crate::fn_build::{model_fits, pairs_fit, calls_listed, mark_stands};
use crate::fn_calls::{
    answer_call, call_key, call_lt, call_ref, caller_of, drawn_id, edge_answers, first_clause, keep_drawn, pair_in,
    row_answers, spec_answers, survey_fits,
};
use crate::fn_marks::marked_id;
use crate::fn_rank::{ends_at, rank_key, ranked};
use crate::fn_touch::{rows_fit, sig_names, touch_key};
use crate::kinds::ItemKind;
use crate::sort::text_key;
use crate::fn_model::{Call, CallKind, FnModel, Tier};
use crate::fn_reading::{FnReading, VisFloor};
use crate::fn_tier::{is_entry, shortest_way_in};
use crate::sort::{lemma_lex_antisym, lex_le};
use crate::survey::{CodeGraph, ImplEdge, ItemMark, MarkRef, MethodRow};
use crate::fn_model::Touch;

verus! {

broadcast use vstd::seq_lib::group_to_multiset_ensures;

/// What the reading keeps of a list of calls is in the list, with both ends
/// drawn; and every call of the list with both ends drawn is kept.
proof fn lemma_keep_drawn(g: CodeGraph, floor: VisFloor, s: Seq<Call>)
    ensures
        forall|k: int| 0 <= k < keep_drawn(g, floor, s).len() ==> {
            let c = #[trigger] keep_drawn(g, floor, s)[k];
            &&& drawn_id(g, floor, c.def)
            &&& drawn_id(g, floor, c.user)
            &&& s.contains(c)
        },
        forall|k: int| 0 <= k < s.len() && drawn_id(g, floor, (#[trigger] s[k]).def) && drawn_id(g, floor, s[k].user)
            ==> keep_drawn(g, floor, s).contains(s[k]),
    decreases s.len(),
{
    if s.len() > 0 {
        let rest = s.drop_last();
        lemma_keep_drawn(g, floor, rest);
        let keep = keep_drawn(g, floor, s);
        assert forall|k: int| 0 <= k < keep.len() implies {
            let c = #[trigger] keep[k];
            &&& drawn_id(g, floor, c.def)
            &&& drawn_id(g, floor, c.user)
            &&& s.contains(c)
        } by {
            if k < keep_drawn(g, floor, rest).len() {
                let c = keep_drawn(g, floor, rest)[k];
                assert(keep[k] == c);
                let j = choose|j: int| 0 <= j < rest.len() && rest[j] == c;
                assert(s[j] == c);
            } else {
                assert(keep[k] == s.last());
                assert(s[s.len() - 1] == s.last());
            }
        }
        assert forall|k: int| 0 <= k < s.len() && drawn_id(g, floor, (#[trigger] s[k]).def) && drawn_id(g, floor, s[k].user)
            implies keep.contains(s[k]) by {
            if k < s.len() - 1 {
                assert(rest[k] == s[k]);
                let j = choose|j: int| 0 <= j < keep_drawn(g, floor, rest).len() && keep_drawn(g, floor, rest)[j] == s[k];
                assert(keep[j] == s[k]);
            } else {
                assert(keep[keep.len() - 1] == s[k]);
            }
        }
    }
}

/// A narrow reading draws no wire to a mark it leaves off: every wire on the
/// paper is a call of the whole workspace with both ends drawn, and every
/// such call is a wire.
pub proof fn law_wires_join_drawn_marks(g: CodeGraph, reading: FnReading, m: FnModel)
    requires
        survey_fits(g),
        model_fits(g, reading, m),
    ensures
        forall|k: int| 0 <= k < m.calls@.len() ==> {
            let c = #[trigger] m.calls@[k];
            &&& drawn_id(g, reading.vis_floor, c.def)
            &&& drawn_id(g, reading.vis_floor, c.user)
            &&& m.all_calls@.contains(c)
        },
        forall|k: int| 0 <= k < m.all_calls@.len() && drawn_id(g, reading.vis_floor, (#[trigger] m.all_calls@[k]).def)
            && drawn_id(g, reading.vis_floor, m.all_calls@[k].user) ==> m.calls@.contains(m.all_calls@[k]),
{
    lemma_keep_drawn(g, reading.vis_floor, m.all_calls@);
}

/// The clause a row answers is never the row itself.
proof fn lemma_first_clause_other(rows: Seq<MethodRow>, name: Seq<char>, mark: u32)
    ensures
        first_clause(rows, name, mark) matches Some(c) ==> c != mark,
    decreases rows.len(),
{
    if rows.len() > 0 {
        lemma_first_clause_other(rows.drop_first(), name, mark);
    }
}

proof fn lemma_row_answers_other(promise: ItemMark, rows: Seq<MethodRow>)
    ensures
        forall|k: int| 0 <= k < row_answers(promise, rows).len() ==> (#[trigger] row_answers(promise, rows)[k]).0
            != row_answers(promise, rows)[k].1,
    decreases rows.len(),
{
    if rows.len() > 0 {
        let rest = row_answers(promise, rows.drop_last());
        lemma_row_answers_other(promise, rows.drop_last());
        let row = rows.last();
        lemma_first_clause_other(promise.body.method_rows@, row.name@, row.mark);
        assert forall|k: int| 0 <= k < row_answers(promise, rows).len() implies (#[trigger] row_answers(promise, rows)[k]).0
            != row_answers(promise, rows)[k].1 by {
            if k < rest.len() {
                assert(row_answers(promise, rows)[k] == rest[k]);
            }
        }
    }
}

/// No contract has a method answer itself.
proof fn lemma_answers_other(g: CodeGraph, edges: Seq<ImplEdge>)
    ensures
        forall|k: int| 0 <= k < spec_answers(g, edges).len() ==> (#[trigger] spec_answers(g, edges)[k]).0
            != spec_answers(g, edges)[k].1,
    decreases edges.len(),
{
    if edges.len() > 0 {
        lemma_answers_other(g, edges.drop_last());
        let e = edges.last();
        if e.trait_mark < g.items@.len() && e.ty < g.items@.len() {
            lemma_row_answers_other(g.items@[e.trait_mark as int], g.items@[e.ty as int].body.method_rows@);
        }
        let rest = spec_answers(g, edges.drop_last());
        let more = edge_answers(g, e);
        assert forall|k: int| 0 <= k < spec_answers(g, edges).len() implies (#[trigger] spec_answers(g, edges)[k]).0
            != spec_answers(g, edges)[k].1 by {
            if k < rest.len() {
                assert(spec_answers(g, edges)[k] == rest[k]);
            } else {
                assert(spec_answers(g, edges)[k] == more[k - rest.len()]);
            }
        }
    }
}

/// A declaration that calls itself draws no wire: no call of the whole
/// workspace, and so no wire on the paper, has the same declaration at
/// both ends.
pub proof fn law_no_wire_to_itself(g: CodeGraph, reading: FnReading, m: FnModel)
    requires
        survey_fits(g),
        model_fits(g, reading, m),
    ensures
        forall|k: int| 0 <= k < m.all_calls@.len() ==> (#[trigger] m.all_calls@[k]).def != m.all_calls@[k].user,
        forall|k: int| 0 <= k < m.calls@.len() ==> (#[trigger] m.calls@[k]).def != m.calls@[k].user,
{
    let ans = spec_answers(g, g.implements@);
    let p = choose|p: Seq<Call>|
        #![trigger pairs_fit(g, p)]
        pairs_fit(g, p) && m.all_calls@.to_multiset() == (p + ans.map_values(|a: (u32, u32)| answer_call(a))).to_multiset();
    let whole = p + ans.map_values(|a: (u32, u32)| answer_call(a));
    lemma_answers_other(g, g.implements@);
    assert forall|k: int| 0 <= k < m.all_calls@.len() implies (#[trigger] m.all_calls@[k]).def != m.all_calls@[k].user by {
        let c = m.all_calls@[k];
        assert(m.all_calls@.contains(c));
        assert(m.all_calls@.to_multiset().count(c) > 0);
        assert(whole.contains(c));
        let j = choose|j: int| 0 <= j < whole.len() && whole[j] == c;
        if j < p.len() {
            assert(pair_in(g, g.refs@, p[j].def, p[j].user));
            let i = choose|i: int| 0 <= i < g.refs@.len() && call_ref(g, #[trigger] g.refs@[i]) && g.refs@[i].to == p[j].def
                && g.refs@[i].from == p[j].user;
        } else {
            assert(whole[j] == answer_call(ans[j - p.len()]));
        }
    }
    law_wires_join_drawn_marks(g, reading, m);
}

/// Two lists of calls, each strictly ordered by callee then caller, that
/// hold the same calls are the same list.
proof fn lemma_strict_same(p1: Seq<Call>, p2: Seq<Call>)
    requires
        forall|a: int, b: int| 0 <= a < b < p1.len() ==> call_lt(#[trigger] p1[a], #[trigger] p1[b]),
        forall|a: int, b: int| 0 <= a < b < p2.len() ==> call_lt(#[trigger] p2[a], #[trigger] p2[b]),
        forall|c: Call| p1.contains(c) <==> p2.contains(c),
    ensures
        p1 == p2,
    decreases p1.len(),
{
    if p1.len() == 0 {
        if p2.len() > 0 {
            assert(p2.contains(p2[0]));
        }
        assert(p1 =~= p2);
    } else {
        assert(p1.contains(p1[0]));
        let j = choose|j: int| 0 <= j < p2.len() && p2[j] == p1[0];
        assert(p2.contains(p2[0]));
        let i = choose|i: int| 0 <= i < p1.len() && p1[i] == p2[0];
        if j > 0 {
            assert(call_lt(p2[0], p2[j]));
            if i > 0 {
                assert(call_lt(p1[0], p1[i]));
            }
            assert(false);
        }
        let r1 = p1.drop_first();
        let r2 = p2.drop_first();
        assert forall|c: Call| r1.contains(c) <==> r2.contains(c) by {
            if r1.contains(c) {
                let a = choose|a: int| 0 <= a < r1.len() && r1[a] == c;
                assert(call_lt(p1[0], p1[a + 1]));
                assert(p1.contains(c));
                let b = choose|b: int| 0 <= b < p2.len() && p2[b] == c;
                assert(b != 0);
                assert(r2[b - 1] == c);
            }
            if r2.contains(c) {
                let b = choose|b: int| 0 <= b < r2.len() && r2[b] == c;
                assert(call_lt(p2[0], p2[b + 1]));
                assert(p2.contains(c));
                let a = choose|a: int| 0 <= a < p1.len() && p1[a] == c;
                assert(a != 0);
                assert(r1[a - 1] == c);
            }
        }
        assert forall|a: int, b: int| 0 <= a < b < r1.len() implies call_lt(#[trigger] r1[a], #[trigger] r1[b]) by {
            assert(call_lt(p1[a + 1], p1[b + 1]));
        }
        assert forall|a: int, b: int| 0 <= a < b < r2.len() implies call_lt(#[trigger] r2[a], #[trigger] r2[b]) by {
            assert(call_lt(p2[a + 1], p2[b + 1]));
        }
        lemma_strict_same(r1, r2);
        assert(p1 =~= p2) by {
            assert forall|k: int| 0 <= k < p1.len() implies p1[k] == p2[k] by {
                if k > 0 {
                    assert(p1[k] == r1[k - 1]);
                    assert(p2[k] == r2[k - 1]);
                }
            }
        }
    }
}

/// The calls the survey resolved are one list, however it was read.
proof fn lemma_pairs_unique(g: CodeGraph, p1: Seq<Call>, p2: Seq<Call>)
    requires
        pairs_fit(g, p1),
        pairs_fit(g, p2),
    ensures
        p1 == p2,
{
    assert forall|c: Call| p1.contains(c) implies p2.contains(c) by {
        let a = choose|a: int| 0 <= a < p1.len() && p1[a] == c;
        assert(pair_in(g, g.refs@, p1[a].def, p1[a].user));
        let b = choose|b: int| 0 <= b < p2.len() && (#[trigger] p2[b]).def == c.def && p2[b].user == c.user;
        assert(p2[b] == c);
    }
    assert forall|c: Call| p2.contains(c) implies p1.contains(c) by {
        let b = choose|b: int| 0 <= b < p2.len() && p2[b] == c;
        assert(pair_in(g, g.refs@, p2[b].def, p2[b].user));
        let a = choose|a: int| 0 <= a < p1.len() && (#[trigger] p1[a]).def == c.def && p1[a].user == c.user;
        assert(p1[a] == c);
    }
    lemma_strict_same(p1, p2);
}

/// Two lists in call order holding the same calls, where calls at the same
/// place in that order are the same call, are the same list.
proof fn lemma_sorted_same(s1: Seq<Call>, s2: Seq<Call>)
    requires
        s1.to_multiset() == s2.to_multiset(),
        forall|a: int, b: int| 0 <= a < b < s1.len() ==> lex_le(call_key(#[trigger] s1[a]), call_key(#[trigger] s1[b])),
        forall|a: int, b: int| 0 <= a < b < s2.len() ==> lex_le(call_key(#[trigger] s2[a]), call_key(#[trigger] s2[b])),
        forall|x: Call, y: Call| s1.contains(x) && s1.contains(y) && call_key(x) == call_key(y) ==> x == y,
    ensures
        s1 == s2,
    decreases s1.len(),
{
    if s1.len() == 0 {
        vstd::seq_lib::to_multiset_len(s1);
        vstd::seq_lib::to_multiset_len(s2);
        assert(s2.to_multiset().len() == 0);
        assert(s1 =~= s2);
    } else {
        vstd::seq_lib::to_multiset_len(s1);
        vstd::seq_lib::to_multiset_len(s2);
        assert(s2.len() == s1.len());
        assert(s1.contains(s1[0]));
        assert(s1.to_multiset().count(s1[0]) > 0);
        assert(s2.contains(s1[0]));
        assert(s2.contains(s2[0]));
        assert(s2.to_multiset().count(s2[0]) > 0);
        assert(s1.contains(s2[0]));
        let j = choose|j: int| 0 <= j < s2.len() && s2[j] == s1[0];
        let i = choose|i: int| 0 <= i < s1.len() && s1[i] == s2[0];
        assert(lex_le(call_key(s2[0]), call_key(s1[0]))) by {
            if j > 0 {
                assert(lex_le(call_key(s2[0]), call_key(s2[j])));
            } else {
                crate::sort::lemma_lex_refl(call_key(s2[0]));
            }
        }
        assert(lex_le(call_key(s1[0]), call_key(s2[0]))) by {
            if i > 0 {
                assert(lex_le(call_key(s1[0]), call_key(s1[i])));
            } else {
                crate::sort::lemma_lex_refl(call_key(s1[0]));
            }
        }
        lemma_lex_antisym(call_key(s1[0]), call_key(s2[0]));
        assert(s1[0] == s2[0]);
        let r1 = s1.drop_first();
        let r2 = s2.drop_first();
        assert(s1.remove(0) =~= r1);
        assert(s2.remove(0) =~= r2);
        assert(r1.to_multiset() == s1.to_multiset().remove(s1[0]));
        assert(r2.to_multiset() == s2.to_multiset().remove(s2[0]));
        assert forall|a: int, b: int| 0 <= a < b < r1.len() implies lex_le(call_key(#[trigger] r1[a]), call_key(#[trigger] r1[b])) by {
            assert(lex_le(call_key(s1[a + 1]), call_key(s1[b + 1])));
        }
        assert forall|a: int, b: int| 0 <= a < b < r2.len() implies lex_le(call_key(#[trigger] r2[a]), call_key(#[trigger] r2[b])) by {
            assert(lex_le(call_key(s2[a + 1]), call_key(s2[b + 1])));
        }
        assert forall|x: Call, y: Call| r1.contains(x) && r1.contains(y) && call_key(x) == call_key(y) implies x == y by {
            let a = choose|a: int| 0 <= a < r1.len() && r1[a] == x;
            let b = choose|b: int| 0 <= b < r1.len() && r1[b] == y;
            assert(s1[a + 1] == x);
            assert(s1[b + 1] == y);
        }
        lemma_sorted_same(r1, r2);
        assert(s1 =~= s2) by {
            assert forall|k: int| 0 <= k < s1.len() implies s1[k] == s2[k] by {
                if k > 0 {
                    assert(s1[k] == r1[k - 1]);
                    assert(s2[k] == r2[k - 1]);
                }
            }
        }
    }
}

/// A sheet keeps the calls the paper drops: every call of the whole
/// workspace is listed the same, in the same order, whatever the reading.
pub proof fn law_every_call_whatever_the_reading(g: CodeGraph, r1: FnReading, m1: FnModel, r2: FnReading, m2: FnModel)
    requires
        survey_fits(g),
        model_fits(g, r1, m1),
        model_fits(g, r2, m2),
    ensures
        m1.all_calls@ == m2.all_calls@,
{
    lemma_listed_unique(g, m1.all_calls@, m2.all_calls@);
}

/// The survey's calls and contracts are listed one way only.
proof fn lemma_listed_unique(g: CodeGraph, c1: Seq<Call>, c2: Seq<Call>)
    requires
        calls_listed(g, c1),
        calls_listed(g, c2),
    ensures
        c1 == c2,
{
    let ans = spec_answers(g, g.implements@).map_values(|a: (u32, u32)| answer_call(a));
    let p1 = choose|p: Seq<Call>|
        #![trigger pairs_fit(g, p)]
        pairs_fit(g, p) && c1.to_multiset() == (p + ans).to_multiset();
    let p2 = choose|p: Seq<Call>|
        #![trigger pairs_fit(g, p)]
        pairs_fit(g, p) && c2.to_multiset() == (p + ans).to_multiset();
    lemma_pairs_unique(g, p1, p2);
    let whole = p1 + ans;
    let s1 = c1;
    assert forall|x: Call, y: Call| s1.contains(x) && s1.contains(y) && call_key(x) == call_key(y) implies x == y by {
        assert(s1.to_multiset().count(x) > 0);
        assert(s1.to_multiset().count(y) > 0);
        assert(whole.contains(x));
        assert(whole.contains(y));
        let a = choose|a: int| 0 <= a < whole.len() && whole[a] == x;
        let b = choose|b: int| 0 <= b < whole.len() && whole[b] == y;
        if a < p1.len() {
            assert(x.kind == CallKind::Call);
        } else {
            assert(x == answer_call(spec_answers(g, g.implements@)[a - p1.len()]));
        }
        if b < p1.len() {
            assert(y.kind == CallKind::Call);
        } else {
            assert(y == answer_call(spec_answers(g, g.implements@)[b - p1.len()]));
        }
        if a < p1.len() && b < p1.len() {
            if a != b {
                if a < b {
                    assert(call_lt(p1[a], p1[b]));
                } else {
                    assert(call_lt(p1[b], p1[a]));
                }
            }
        }
    }
    lemma_sorted_same(c1, c2);
}

/// Where a mark stands in the running order is a fact of the workspace,
/// never of the reading: the same declaration drawn under two readings
/// stands at the same tier.
pub proof fn law_tier_whatever_the_reading(
    g: CodeGraph,
    r1: FnReading,
    m1: FnModel,
    r2: FnReading,
    m2: FnModel,
    k1: int,
    k2: int,
)
    requires
        survey_fits(g),
        model_fits(g, r1, m1),
        model_fits(g, r2, m2),
        0 <= k1 < m1.marks@.len(),
        0 <= k2 < m2.marks@.len(),
        m1.marks@[k1].id == m2.marks@[k2].id,
    ensures
        m1.marks@[k1].tier == m2.marks@[k2].tier,
{
    let d = choose|d: Seq<Option<u32>>| #[trigger] shortest_way_in(g, d);
    assert(mark_stands(g, d, m1.touches@, m1.marks@[k1]));
    assert(mark_stands(g, d, m2.touches@, m2.marks@[k2]));
}

/// An entry point is a drawn declaration nothing in the workspace calls,
/// and every drawn declaration nothing calls is one.
pub proof fn law_entry_is_uncalled(g: CodeGraph, reading: FnReading, m: FnModel, k: int)
    requires
        survey_fits(g),
        model_fits(g, reading, m),
        0 <= k < m.marks@.len(),
    ensures
        m.marks@[k].tier == Tier::Entry <==> forall|y: u32| !#[trigger] caller_of(g, m.marks@[k].id, y),
{
    let d = choose|d: Seq<Option<u32>>| #[trigger] shortest_way_in(g, d);
    assert(mark_stands(g, d, m.touches@, m.marks@[k]));
    assert(marked_id(g, reading.vis_floor, m.marks@[k].id));
    lemma_entry_at(g, d, m.touches@, m.marks@[k], reading.vis_floor);
}

proof fn lemma_entry_at(g: CodeGraph, d: Seq<Option<u32>>, t: Map<u32, Vec<crate::fn_model::Touch>>, mark: crate::fn_model::FnMark, floor: VisFloor)
    requires
        shortest_way_in(g, d),
        mark_stands(g, d, t, mark),
        marked_id(g, floor, mark.id),
    ensures
        mark.tier == Tier::Entry <==> forall|y: u32| !#[trigger] caller_of(g, mark.id, y),
{
    let id = mark.id as int;
    assert(0 <= id < d.len());
    assert(d[id] == Some(0u32) <==> is_entry(g, id));
    assert(crate::fn_calls::callable_id(g, id));
    assert(mark.tier == crate::fn_marks::spec_tier(d[id]));
    match d[id] {
        Some(v) => {
            if v == 0 {
                assert(mark.tier == Tier::Entry);
            } else {
                assert(mark.tier == Tier::Deep(v));
            }
        },
        None => {},
    }
    assert((id as u32) == mark.id);
    if mark.tier == Tier::Entry {
        assert(is_entry(g, id));
        assert forall|y: u32| !#[trigger] caller_of(g, mark.id, y) by {
            assert(!caller_of(g, id as u32, y));
        }
    }
    if forall|y: u32| !#[trigger] caller_of(g, mark.id, y) {
        assert forall|y: u32| !#[trigger] caller_of(g, id as u32, y) by {
            assert(!caller_of(g, mark.id, y));
        }
        assert(is_entry(g, id));
    }
}

/// Everything that runs is charted: a declaration the reading admits, whose
/// file the survey lists, is a mark exactly when it is a function or a
/// macro.
pub proof fn law_what_runs_is_a_mark(g: CodeGraph, reading: FnReading, m: FnModel, id: u32)
    requires
        model_fits(g, reading, m),
        (id as int) < g.items@.len(),
        (g.items@[id as int].file as int) < g.files@.len(),
        reading.vis_floor.spec_admits(g.items@[id as int].head.vis),
    ensures
        (g.items@[id as int].head.kind == ItemKind::Fn || g.items@[id as int].head.kind == ItemKind::Macro) <==> exists|k: int|
            0 <= k < m.marks@.len() && (#[trigger] m.marks@[k]).id == id,
{
    assert(marked_id(g, reading.vis_floor, id) <==> (g.items@[id as int].head.kind == ItemKind::Fn || g.items@[id as int].head.kind
        == ItemKind::Macro));
}

/// The kinds of declaration that run: a function and a macro, no other.
pub proof fn law_runs_means_fn_or_macro(k: ItemKind)
    ensures
        k.spec_callable() <==> (k == ItemKind::Fn || k == ItemKind::Macro),
{
}

/// A reference from one running declaration to another, both on the paper,
/// is drawn as a wire from the callee to the caller, a macro's as much as a
/// function's.
pub proof fn law_a_reference_between_runners_is_a_wire(g: CodeGraph, reading: FnReading, m: FnModel, i: int)
    requires
        model_fits(g, reading, m),
        0 <= i < g.refs@.len(),
        g.refs@[i].from != g.refs@[i].to,
        (g.refs@[i].from as int) < g.items@.len(),
        (g.refs@[i].to as int) < g.items@.len(),
        g.items@[g.refs@[i].from as int].head.kind == ItemKind::Fn || g.items@[g.refs@[i].from as int].head.kind == ItemKind::Macro,
        g.items@[g.refs@[i].to as int].head.kind == ItemKind::Fn || g.items@[g.refs@[i].to as int].head.kind == ItemKind::Macro,
        reading.vis_floor.spec_admits(g.items@[g.refs@[i].from as int].head.vis),
        reading.vis_floor.spec_admits(g.items@[g.refs@[i].to as int].head.vis),
    ensures
        exists|k: int| 0 <= k < m.calls@.len() && (#[trigger] m.calls@[k]).def == g.refs@[i].to && m.calls@[k].user == g.refs@[i].from
            && m.calls@[k].kind == CallKind::Call,
{
    let r = g.refs@[i];
    assert(call_ref(g, r));
    assert(pair_in(g, g.refs@, r.to, r.from));
    let ans = spec_answers(g, g.implements@).map_values(|a: (u32, u32)| answer_call(a));
    let p = choose|p: Seq<Call>|
        #![trigger pairs_fit(g, p)]
        pairs_fit(g, p) && m.all_calls@.to_multiset() == (p + ans).to_multiset();
    let k = choose|k: int| 0 <= k < p.len() && (#[trigger] p[k]).def == r.to && p[k].user == r.from;
    let c = p[k];
    assert((p + ans)[k] == c);
    assert((p + ans).contains(c));
    assert((p + ans).to_multiset().count(c) > 0);
    assert(m.all_calls@.to_multiset().count(c) > 0);
    assert(m.all_calls@.contains(c));
    let j = choose|j: int| 0 <= j < m.all_calls@.len() && m.all_calls@[j] == c;
    lemma_keep_drawn(g, reading.vis_floor, m.all_calls@);
    assert(drawn_id(g, reading.vis_floor, m.all_calls@[j].def));
    assert(drawn_id(g, reading.vis_floor, m.all_calls@[j].user));
    assert(m.calls@.contains(c));
    let q = choose|q: int| 0 <= q < m.calls@.len() && m.calls@[q] == c;
    assert(m.calls@[q].def == r.to);
}

/// What a ranking key says of two ends: the heavier comes first, and of two
/// equally heavy ends the lower id.
proof fn lemma_rank_key_order(p: (u32, u32), q: (u32, u32))
    requires
        lex_le(rank_key(p), rank_key(q)),
    ensures
        p.0 >= q.0,
        p.0 == q.0 ==> p.1 <= q.1,
{
    reveal_with_fuel(lex_le, 3);
    let a = rank_key(p);
    let b = rank_key(q);
    assert(a.drop_first() =~= seq![p.1 as u64]);
    assert(b.drop_first() =~= seq![q.1 as u64]);
    assert(a.drop_first().drop_first() =~= Seq::<u64>::empty());
    assert(b.drop_first().drop_first() =~= Seq::<u64>::empty());
}

/// The ends are listed heaviest first: of two listed ends, the one listed
/// first has a wire count at least as large, and of equal counts the lower
/// id comes first.
pub open spec fn heaviest_first(ends: Seq<(u32, u32)>, ids: Seq<u32>) -> bool {
    exists|e: Seq<(u32, u32)>|
        #![trigger e.to_multiset()]
        e.to_multiset() == ends.to_multiset() && e.len() == ids.len() && (forall|k: int| 0 <= k < e.len() ==> #[trigger] e[k].1 == ids[k])
            && (forall|a: int, b: int|
            0 <= a < b < e.len() ==> (#[trigger] e[a]).0 >= (#[trigger] e[b]).0 && (e[a].0 == e[b].0 ==> e[a].1 <= e[b].1))
}

proof fn lemma_ranked_heaviest_first(ends: Seq<(u32, u32)>, ids: Seq<u32>)
    requires
        ranked(ends, ids),
    ensures
        heaviest_first(ends, ids),
{
    let e = choose|e: Seq<(u32, u32)>|
        #![trigger e.to_multiset()]
        e.to_multiset() == ends.to_multiset() && e.len() == ids.len() && (forall|k: int| 0 <= k < e.len() ==> #[trigger] e[k].1 == ids[k])
            && (forall|a: int, b: int| 0 <= a < b < e.len() ==> lex_le(rank_key(#[trigger] e[a]), rank_key(#[trigger] e[b])));
    assert forall|a: int, b: int| 0 <= a < b < e.len() implies (#[trigger] e[a]).0 >= (#[trigger] e[b]).0 && (e[a].0 == e[b].0
        ==> e[a].1 <= e[b].1) by {
        lemma_rank_key_order(e[a], e[b]);
    }
}

/// What each mark calls and what calls it are listed heaviest first: each
/// list holds the far ends of the mark's wires, with their counts, and an
/// end listed earlier carries at least the count of one listed later, of
/// equal counts the lower id first.
pub proof fn law_ends_heaviest_first(g: CodeGraph, reading: FnReading, m: FnModel, x: u32)
    requires
        model_fits(g, reading, m),
    ensures
        m.callees@.contains_key(x) ==> heaviest_first(ends_at(m.calls@, x, true), m.callees@[x]@),
        m.callers@.contains_key(x) ==> heaviest_first(ends_at(m.calls@, x, false), m.callers@[x]@),
{
    if m.callees@.contains_key(x) {
        lemma_ranked_heaviest_first(ends_at(m.calls@, x, true), m.callees@[x]@);
    }
    if m.callers@.contains_key(x) {
        lemma_ranked_heaviest_first(ends_at(m.calls@, x, false), m.callers@[x]@);
    }
}

/// What a touch key says of two rows.
proof fn lemma_touch_key_order(g: CodeGraph, id: u32, r: Touch, s: Touch)
    requires
        lex_le(touch_key(g, id, r), touch_key(g, id, s)),
    ensures
        sig_names(g, id, r.ty) || !sig_names(g, id, s.ty),
        sig_names(g, id, r.ty) == sig_names(g, id, s.ty) ==> r.count >= s.count,
        sig_names(g, id, r.ty) == sig_names(g, id, s.ty) && r.count == s.count ==> lex_le(text_key(r.name@), text_key(s.name@)),
{
    let a = touch_key(g, id, r);
    let b = touch_key(g, id, s);
    assert(a[0] == if sig_names(g, id, r.ty) { 0u64 } else { 1u64 });
    assert(b[0] == if sig_names(g, id, s.ty) { 0u64 } else { 1u64 });
    assert(a[1] == (u32::MAX - r.count) as u64);
    assert(b[1] == (u32::MAX - s.count) as u64);
    assert(a.drop_first().drop_first() =~= text_key(r.name@));
    assert(b.drop_first().drop_first() =~= text_key(s.name@));
    assert(a.drop_first()[0] == a[1]);
    assert(b.drop_first()[0] == b[1]);
    assert(a.len() > 0 && b.len() > 0);
    assert(a.drop_first().len() > 0 && b.drop_first().len() > 0);
    if a[0] == b[0] {
        assert(lex_le(a.drop_first(), b.drop_first()));
        let a1 = a.drop_first();
        let b1 = b.drop_first();
        if a1[0] == b1[0] {
            assert(lex_le(a1.drop_first(), b1.drop_first()));
        }
    }
}

/// The sheet's touch rows put what the signature names first; within each
/// part the heavier body use comes first, and equal counts go by name.
pub proof fn law_touches_heaviest_first(g: CodeGraph, id: u32, rows: Seq<Touch>, a: int, b: int)
    requires
        rows_fit(g, id, rows),
        0 <= a < b < rows.len(),
    ensures
        sig_names(g, id, rows[a].ty) || !sig_names(g, id, rows[b].ty),
        sig_names(g, id, rows[a].ty) == sig_names(g, id, rows[b].ty) ==> rows[a].count >= rows[b].count,
        sig_names(g, id, rows[a].ty) == sig_names(g, id, rows[b].ty) && rows[a].count == rows[b].count ==> lex_le(
            text_key(rows[a].name@),
            text_key(rows[b].name@),
        ),
{
    lemma_touch_key_order(g, id, rows[a], rows[b]);
}

/// The same of the touch rows a model holds for each mark.
pub proof fn law_model_touches_heaviest_first(g: CodeGraph, reading: FnReading, m: FnModel, x: u32, a: int, b: int)
    requires
        model_fits(g, reading, m),
        m.touches@.contains_key(x),
        0 <= a < b < m.touches@[x]@.len(),
    ensures
        sig_names(g, x, m.touches@[x]@[a].ty) || !sig_names(g, x, m.touches@[x]@[b].ty),
        sig_names(g, x, m.touches@[x]@[a].ty) == sig_names(g, x, m.touches@[x]@[b].ty) ==> m.touches@[x]@[a].count
            >= m.touches@[x]@[b].count,
{
    law_touches_heaviest_first(g, x, m.touches@[x]@, a, b);
}

} // verus!
