//! Reading a survey into the function chart's model: the marks, the two
//! families of ink and what the reading draws of them, where each mark
//! stands in the running order, the household, the bands and the facts.

use std::collections::HashMap;

use vstd::prelude::*;

use crate::fn_calls::{
    adjacency, all_calls_of, answer_call, answers, ascending, call_key, call_lt, call_pairs, caller_of, callers_map,
    drawn_calls, keep_drawn, pair_in, pair_sum, self_ref, spec_answers, survey_fits,
};
use crate::fn_house::{house_fits, read_house, House};
use crate::fn_marks::{build_marks, mark_fits, mark_key, mark_reads, marked_id, spec_tier};
use crate::fn_model::{spec_band, spec_caption, Call, CallKind, FnFacts, FnMark, FnModel, Tier, Touch};
use crate::fn_rank::{ends_at, rank_all, ranked};
use crate::fn_reading::FnReading;
use crate::fn_runs::{seeded_in_order, walked_first, way_in_fits, way_in_reach};
use crate::fn_tier::{depths, shortest_way_in};
use crate::fn_touch::{read_touches, rows_fit, touched};
use crate::kinds::{Delta, ItemKind};
use crate::paths::views;
use crate::sort::lex_le;
use crate::survey::{CodeGraph, ItemMark};

verus! {

broadcast use vstd::std_specs::hash::group_hash_axioms;

/// How many of `s` meet `p`.
pub open spec fn tally<T>(s: Seq<T>, p: spec_fn(T) -> bool) -> nat
    decreases s.len(),
{
    if s.len() == 0 {
        0
    } else {
        tally(s.drop_last(), p) + if p(s.last()) { 1nat } else { 0nat }
    }
}

/// The deepest depth in the list, or zero where nothing is reached.
pub open spec fn deepest_of(depth: Seq<Option<u32>>) -> nat
    decreases depth.len(),
{
    if depth.len() == 0 {
        0
    } else {
        let rest = deepest_of(depth.drop_last());
        match depth.last() {
            Some(d) => if d > rest { d as nat } else { rest },
            None => rest,
        }
    }
}

/// The calls the survey resolved, one per (callee, caller) pair, strictly
/// ordered, each with its references counted.
pub open spec fn pairs_fit(g: CodeGraph, p: Seq<Call>) -> bool {
    &&& forall|a: int, b: int| 0 <= a < b < p.len() ==> call_lt(#[trigger] p[a], #[trigger] p[b])
    &&& forall|k: int|
        0 <= k < p.len() ==> {
            &&& (#[trigger] p[k]).kind == CallKind::Call
            &&& pair_in(g, g.refs@, p[k].def, p[k].user)
            &&& p[k].count as nat == pair_sum(g, g.refs@, p[k].def, p[k].user)
        }
    &&& forall|d: u32, u: u32|
        pair_in(g, g.refs@, d, u) ==> exists|k: int| 0 <= k < p.len() && (#[trigger] p[k]).def == d && p[k].user == u
}

/// Every call and every contract of the survey, in the order calls are
/// listed in: callee, then caller, a call before a contract.
pub open spec fn calls_listed(g: CodeGraph, s: Seq<Call>) -> bool {
    &&& exists|p: Seq<Call>|
        #![trigger pairs_fit(g, p)]
        pairs_fit(g, p) && s.to_multiset() == (p + spec_answers(g, g.implements@).map_values(
            |a: (u32, u32)| answer_call(a),
        )).to_multiset()
    &&& forall|a: int, b: int| 0 <= a < b < s.len() ==> lex_le(call_key(#[trigger] s[a]), call_key(#[trigger] s[b]))
}

/// How many declarations step into `x`.
pub open spec fn callers_count(g: CodeGraph, x: u32) -> nat {
    Set::new(|y: u32| caller_of(g, x, y)).len()
}

/// How many declarations `y` steps into.
pub open spec fn callees_count(g: CodeGraph, y: u32) -> nat {
    Set::new(|x: u32| caller_of(g, x, y)).len()
}

/// How many types the mark touches, by the touches read for it.
pub open spec fn touch_count(t: Map<u32, Vec<Touch>>, id: u32) -> usize {
    if t.contains_key(id) { t[id]@.len() as usize } else { 0usize }
}

/// Which declarations the paper draws, by id.
pub open spec fn on_flags(g: CodeGraph, reading: FnReading) -> Seq<bool> {
    Seq::new(g.items@.len(), |x: int| marked_id(g, reading.vis_floor, x as u32))
}

/// The drawn declarations nothing drawn calls: where the way in starts.
pub open spec fn ground_flags(g: CodeGraph, reading: FnReading, calls: Seq<Call>) -> Seq<bool> {
    Seq::new(g.items@.len(), |x: int| marked_id(g, reading.vis_floor, x as u32) && ends_at(calls, x as u32, false).len() == 0)
}

/// `k` is the first mark whose tier sits in band `b`.
pub open spec fn first_in_band(marks: Seq<FnMark>, deepest: nat, k: int, b: nat) -> bool {
    &&& 0 <= k < marks.len()
    &&& spec_band(marks[k].tier, deepest) == b
    &&& forall|q: int| 0 <= q < k ==> spec_band((#[trigger] marks[q]).tier, deepest) != b
}

/// Band `e.0` is one some mark sits in, captioned by its first mark.
pub open spec fn band_named(marks: Seq<FnMark>, deepest: nat, e: (u32, String)) -> bool {
    exists|k: int| first_in_band(marks, deepest, k, e.0 as nat) && e.1@ == spec_caption(marks[k].tier)
}

/// The list names band `b`.
pub open spec fn band_listed(bands: Seq<(u32, String)>, b: nat) -> bool {
    exists|j: int| 0 <= j < bands.len() && (#[trigger] bands[j]).0 as nat == b
}

/// Every band some mark sits in, ascending, each captioned by its first
/// mark.
pub open spec fn bands_fit(marks: Seq<FnMark>, deepest: nat, bands: Seq<(u32, String)>) -> bool {
    &&& forall|a: int, b: int| 0 <= a < b < bands.len() ==> (#[trigger] bands[a]).0 < (#[trigger] bands[b]).0
    &&& forall|k: int| 0 <= k < marks.len() ==> band_listed(bands, spec_band((#[trigger] marks[k]).tier, deepest))
    &&& forall|j: int| 0 <= j < bands.len() ==> band_named(marks, deepest, #[trigger] bands[j])
}

pub open spec fn is_free_fn(m: FnMark) -> bool {
    m.head.kind == ItemKind::Fn && m.head.section@.len() == 0
}

pub open spec fn is_method(m: FnMark) -> bool {
    m.head.kind == ItemKind::Fn && m.head.section@.len() > 0
}

/// The facts line: what the paper draws, counted, and what it leaves off.
pub open spec fn facts_fit(g: CodeGraph, reading: FnReading, marks: Seq<FnMark>, deepest: nat, f: FnFacts) -> bool {
    &&& f.fns as nat == tally(marks, |m: FnMark| is_free_fn(m))
    &&& f.methods as nat == tally(marks, |m: FnMark| is_method(m))
    &&& f.macros as nat == tally(marks, |m: FnMark| m.head.kind == ItemKind::Macro)
    &&& f.entries as nat == tally(marks, |m: FnMark| m.tier == Tier::Entry)
    &&& f.ring as nat == tally(marks, |m: FnMark| m.tier == Tier::Ring)
    &&& f.deepest as nat == deepest
    &&& f.added as nat == tally(marks, |m: FnMark| m.delta == Delta::Added)
    &&& f.changed as nat == tally(marks, |m: FnMark| m.delta == Delta::Changed)
    &&& f.unresolved == g.limits.unresolved
    &&& f.off_paper as nat == tally(
        g.items@,
        |it: ItemMark| it.head.kind.spec_callable() && !reading.vis_floor.spec_admits(it.head.vis),
    )
}

/// The household a model holds.
pub open spec fn house_of(m: FnModel) -> House {
    House {
        frames: m.frames,
        owners: m.owners,
        home: m.home,
        folded: m.folded,
        packed: m.packed,
        packs: m.packs,
        multi_crate: m.multi_crate,
    }
}

/// The model is what the survey says under this reading.
pub open spec fn model_fits(g: CodeGraph, reading: FnReading, m: FnModel) -> bool {
    let n = g.items@.len();
    let marks = m.marks@;
    &&& forall|d: Seq<Option<u32>>| #[trigger] shortest_way_in(g, d) ==> {
        &&& forall|k: int| 0 <= k < marks.len() ==> mark_stands(g, d, m.touches@, #[trigger] marks[k])
        &&& m.facts.deepest as nat == deepest_of(d)
    }
    &&& exists|d: Seq<Option<u32>>| #[trigger] shortest_way_in(g, d)
    &&& marks_cover(g, reading, marks)
    &&& calls_listed(g, m.all_calls@)
    &&& m.calls@ == keep_drawn(g, reading.vis_floor, m.all_calls@)
    &&& all_callers_fit(g, m.all_callers@)
    &&& forall|x: u32| #[trigger] m.callees@.contains_key(x) <==> ((x as int) < n && ends_at(m.calls@, x, true).len() > 0)
    &&& forall|x: u32| #[trigger] m.callees@.contains_key(x) ==> ranked(ends_at(m.calls@, x, true), m.callees@[x]@)
    &&& forall|x: u32| #[trigger] m.callers@.contains_key(x) <==> ((x as int) < n && ends_at(m.calls@, x, false).len() > 0)
    &&& forall|x: u32| #[trigger] m.callers@.contains_key(x) ==> ranked(ends_at(m.calls@, x, false), m.callers@[x]@)
    &&& touches_fit(g, marks, m.touches@)
    &&& exists|order: Seq<u32>, parent: Seq<Option<u32>>, runs: Seq<u32>|
        #![trigger way_in_fits(on_flags(g, reading), ground_flags(g, reading, m.calls@), m.callees@, order, parent, runs)]
        way_in_fits(on_flags(g, reading), ground_flags(g, reading, m.calls@), m.callees@, order, parent, runs)
            && walked_first(on_flags(g, reading), ground_flags(g, reading, m.calls@), m.callees@, order, parent, order.len() as int)
            && seeded_in_order(on_flags(g, reading), ground_flags(g, reading, m.calls@), order, parent)
            && forall|k: int| 0 <= k < marks.len() ==> (#[trigger] marks[k]).runs == runs[marks[k].id as int]
    &&& house_fits(g, marks, reading, house_of(m))
    &&& bands_fit(marks, m.facts.deepest as nat, m.bands@)
    &&& facts_fit(g, reading, marks, m.facts.deepest as nat, m.facts)
    &&& m.dirty == (m.facts.added + m.facts.changed > 0)
}

/// The deepest depth any declaration is reached at.
fn deepest(depth: &Vec<Option<u32>>) -> (r: u32)
    requires
        forall|x: int| 0 <= x < depth@.len() && (#[trigger] depth@[x]) is Some ==> (depth@[x]->0 as int) < depth@.len(),
    ensures
        r as nat == deepest_of(depth@),
        (r as int) <= depth@.len(),
{
    let mut r: u32 = 0;
    let mut x: usize = 0;
    while x < depth.len()
        invariant
            x <= depth@.len(),
            r as nat == deepest_of(depth@.take(x as int)),
            (r as int) <= depth@.len(),
            forall|z: int| 0 <= z < depth@.len() && (#[trigger] depth@[z]) is Some ==> (depth@[z]->0 as int) < depth@.len(),
        decreases depth.len() - x,
    {
        assert(depth@.take(x + 1).drop_last() =~= depth@.take(x as int));
        assert(depth@.take(x + 1).last() == depth@[x as int]);
        match depth[x] {
            Some(d) => {
                if d > r {
                    r = d;
                }
            },
            None => {},
        }
        x = x + 1;
    }
    assert(depth@.take(depth@.len() as int) =~= depth@);
    r
}

/// The first mark that sits in band `b`, if any does.
fn first_with_band(marks: &Vec<FnMark>, deepest: u32, b: u32) -> (r: Option<usize>)
    requires
        deepest < u32::MAX,
    ensures
        match r {
            Some(k) => first_in_band(marks@, deepest as nat, k as int, b as nat),
            None => forall|q: int| 0 <= q < marks@.len() ==> spec_band((#[trigger] marks@[q]).tier, deepest as nat) != b,
        },
{
    let mut k: usize = 0;
    while k < marks.len()
        invariant
            k <= marks@.len(),
            deepest < u32::MAX,
            forall|q: int| 0 <= q < k ==> spec_band((#[trigger] marks@[q]).tier, deepest as nat) != b,
        decreases marks.len() - k,
    {
        if marks[k].tier.band(deepest) == b {
            return Some(k);
        }
        k = k + 1;
    }
    None
}

/// Every band some mark sits in, ascending, each with the caption of the
/// first mark that sits in it.
fn band_list(marks: &Vec<FnMark>, deepest: u32) -> (out: Vec<(u32, String)>)
    requires
        deepest < u32::MAX - 1,
        forall|q: int| 0 <= q < marks@.len() ==> spec_band((#[trigger] marks@[q]).tier, deepest as nat) <= deepest + 1,
    ensures
        bands_fit(marks@, deepest as nat, out@),
{
    let mut out: Vec<(u32, String)> = Vec::new();
    let top = deepest + 1;
    let mut b: u32 = 0;
    while b <= top
        invariant
            deepest < u32::MAX - 1,
            top == deepest + 1,
            b <= top + 1,
            forall|q: int| 0 <= q < marks@.len() ==> spec_band((#[trigger] marks@[q]).tier, deepest as nat) <= deepest + 1,
            forall|a: int, c: int| 0 <= a < c < out@.len() ==> (#[trigger] out@[a]).0 < (#[trigger] out@[c]).0,
            forall|j: int| 0 <= j < out@.len() ==> (#[trigger] out@[j]).0 < b,
            forall|q: int| 0 <= q < marks@.len() && spec_band((#[trigger] marks@[q]).tier, deepest as nat) < b ==> band_listed(
                out@,
                spec_band(marks@[q].tier, deepest as nat),
            ),
            forall|j: int| 0 <= j < out@.len() ==> band_named(marks@, deepest as nat, #[trigger] out@[j]),
        decreases top + 1 - b,
    {
        let ghost before = out@;
        match first_with_band(marks, deepest, b) {
            Some(k) => {
                let caption = marks[k].tier.caption();
                out.push((b, caption));
                proof {
                    let last = before.len() as int;
                    assert(out@[last].0 == b);
                    assert(band_named(marks@, deepest as nat, out@[last]));
                    assert forall|j: int| 0 <= j < out@.len() implies band_named(marks@, deepest as nat, #[trigger] out@[j]) by {
                        if j < last {
                            assert(out@[j] == before[j]);
                        }
                    }
                    assert forall|q: int| 0 <= q < marks@.len() && spec_band((#[trigger] marks@[q]).tier, deepest as nat) < b + 1 implies band_listed(
                        out@,
                        spec_band(marks@[q].tier, deepest as nat),
                    ) by {
                        if spec_band(marks@[q].tier, deepest as nat) < b {
                            let j = choose|j: int| 0 <= j < before.len() && (#[trigger] before[j]).0 as nat == spec_band(marks@[q].tier, deepest as nat);
                            assert(out@[j] == before[j]);
                        } else {
                            assert(out@[last].0 as nat == spec_band(marks@[q].tier, deepest as nat));
                        }
                    }
                }
            },
            None => {},
        }
        b = b + 1;
    }
    out
}

/// The marks counted by kind, by tier and by diff.
fn mark_tallies(marks: &Vec<FnMark>) -> (out: (usize, usize, usize, usize, usize, usize, usize))
    ensures
        out.0 as nat == tally(marks@, |m: FnMark| is_free_fn(m)),
        out.1 as nat == tally(marks@, |m: FnMark| is_method(m)),
        out.2 as nat == tally(marks@, |m: FnMark| m.head.kind == ItemKind::Macro),
        out.3 as nat == tally(marks@, |m: FnMark| m.tier == Tier::Entry),
        out.4 as nat == tally(marks@, |m: FnMark| m.tier == Tier::Ring),
        out.5 as nat == tally(marks@, |m: FnMark| m.delta == Delta::Added),
        out.6 as nat == tally(marks@, |m: FnMark| m.delta == Delta::Changed),
{
    let (mut fns, mut methods, mut macros, mut entries, mut ring, mut added, mut changed): (usize, usize, usize, usize, usize, usize, usize) = (0, 0, 0, 0, 0, 0, 0);
    let mut k: usize = 0;
    while k < marks.len()
        invariant
            k <= marks@.len(),
            fns as nat == tally(marks@.take(k as int), |m: FnMark| is_free_fn(m)),
            methods as nat == tally(marks@.take(k as int), |m: FnMark| is_method(m)),
            macros as nat == tally(marks@.take(k as int), |m: FnMark| m.head.kind == ItemKind::Macro),
            entries as nat == tally(marks@.take(k as int), |m: FnMark| m.tier == Tier::Entry),
            ring as nat == tally(marks@.take(k as int), |m: FnMark| m.tier == Tier::Ring),
            added as nat == tally(marks@.take(k as int), |m: FnMark| m.delta == Delta::Added),
            changed as nat == tally(marks@.take(k as int), |m: FnMark| m.delta == Delta::Changed),
            fns <= k && methods <= k && macros <= k && entries <= k && ring <= k && added <= k && changed <= k,
        decreases marks.len() - k,
    {
        let m = &marks[k];
        assert(marks@.take(k + 1).drop_last() =~= marks@.take(k as int));
        assert(marks@.take(k + 1).last() == marks@[k as int]);
        let fun = matches!(m.head.kind, ItemKind::Fn);
        let bare = m.head.section.unicode_len() == 0;
        if fun && bare {
            fns = fns + 1;
        }
        if fun && !bare {
            methods = methods + 1;
        }
        if matches!(m.head.kind, ItemKind::Macro) {
            macros = macros + 1;
        }
        if matches!(m.tier, Tier::Entry) {
            entries = entries + 1;
        }
        if matches!(m.tier, Tier::Ring) {
            ring = ring + 1;
        }
        if matches!(m.delta, Delta::Added) {
            added = added + 1;
        }
        if matches!(m.delta, Delta::Changed) {
            changed = changed + 1;
        }
        k = k + 1;
    }
    assert(marks@.take(marks@.len() as int) =~= marks@);
    (fns, methods, macros, entries, ring, added, changed)
}

/// The declarations that run and that the reading leaves off the paper.
fn off_paper(g: &CodeGraph, reading: &FnReading) -> (r: usize)
    ensures
        r as nat == tally(
            g.items@,
            |it: ItemMark| it.head.kind.spec_callable() && !reading.vis_floor.spec_admits(it.head.vis),
        ),
{
    let floor = reading.vis_floor;
    let mut r: usize = 0;
    let mut i: usize = 0;
    while i < g.items.len()
        invariant
            i <= g.items@.len(),
            floor == reading.vis_floor,
            r <= i,
            r as nat == tally(
                g.items@.take(i as int),
                |it: ItemMark| it.head.kind.spec_callable() && !reading.vis_floor.spec_admits(it.head.vis),
            ),
        decreases g.items.len() - i,
    {
        assert(g.items@.take(i + 1).drop_last() =~= g.items@.take(i as int));
        assert(g.items@.take(i + 1).last() == g.items@[i as int]);
        if g.items[i].head.kind.is_callable() && !floor.admits(g.items[i].head.vis) {
            r = r + 1;
        }
        i = i + 1;
    }
    assert(g.items@.take(g.items@.len() as int) =~= g.items@);
    r
}

/// An ascending list of ids holds exactly as many as the set it lists.
proof fn lemma_listed_count(s: Seq<u32>, p: Set<u32>)
    requires
        ascending(s),
        forall|y: u32| s.contains(y) <==> p.contains(y),
    ensures
        s.len() == p.len(),
{
    assert(s.no_duplicates()) by {
        assert forall|a: int, b: int| 0 <= a < s.len() && 0 <= b < s.len() && a != b implies s[a] != s[b] by {
            if a < b {
                assert(s[a] < s[b]);
            } else {
                assert(s[b] < s[a]);
            }
        }
    }
    s.unique_seq_to_set();
    assert(s.to_set() =~= p);
}

/// No declaration is deeper than the deepest.
proof fn lemma_deepest_bounds(depth: Seq<Option<u32>>, x: int)
    requires
        0 <= x < depth.len(),
        depth[x] is Some,
    ensures
        depth[x]->0 <= deepest_of(depth),
    decreases depth.len(),
{
    if x < depth.len() - 1 {
        lemma_deepest_bounds(depth.drop_last(), x);
    }
}

/// An ascending list of ids below `n` has at most `n` of them.
proof fn lemma_ascending_below(s: Seq<u32>, n: nat)
    requires
        ascending(s),
        forall|k: int| 0 <= k < s.len() ==> (#[trigger] s[k] as nat) < n,
    ensures
        s.len() <= n,
{
    assert(s.no_duplicates()) by {
        assert forall|a: int, b: int| 0 <= a < s.len() && 0 <= b < s.len() && a != b implies s[a] != s[b] by {
            if a < b {
                assert(s[a] < s[b]);
            } else {
                assert(s[b] < s[a]);
            }
        }
    }
    crate::reach::lemma_distinct_below(s, n);
}

/// Each mark's count of the types it touches.
fn set_touches(marks: &mut Vec<FnMark>, touches: &HashMap<u32, Vec<Touch>>)
    ensures
        final(marks)@.len() == old(marks)@.len(),
        forall|k: int| 0 <= k < old(marks)@.len() ==> #[trigger] final(marks)@[k] == (FnMark {
            touches: touch_count(touches@, old(marks)@[k].id),
            ..old(marks)@[k]
        }),
{
    let ghost start = marks@;
    let mut k: usize = 0;
    while k < marks.len()
        invariant
            k <= marks@.len(),
            marks@.len() == start.len(),
            forall|q: int| 0 <= q < k ==> #[trigger] marks@[q] == (FnMark { touches: touch_count(touches@, start[q].id), ..start[q] }),
            forall|q: int| k <= q < marks@.len() ==> #[trigger] marks@[q] == start[q],
        decreases marks.len() - k,
    {
        let id = marks[k].id;
        let t: usize = match touches.get(&id) {
            Some(rows) => rows.len(),
            None => 0,
        };
        marks[k].touches = t;
        k = k + 1;
    }
}

/// Each mark's count of what it reaches by the way in.
fn set_runs(marks: &mut Vec<FnMark>, runs: &Vec<u32>)
    requires
        forall|k: int| 0 <= k < old(marks)@.len() ==> ((#[trigger] old(marks)@[k]).id as int) < runs@.len(),
    ensures
        final(marks)@.len() == old(marks)@.len(),
        forall|k: int| 0 <= k < old(marks)@.len() ==> #[trigger] final(marks)@[k] == (FnMark {
            runs: runs@[old(marks)@[k].id as int],
            ..old(marks)@[k]
        }),
{
    let ghost start = marks@;
    let mut k: usize = 0;
    while k < marks.len()
        invariant
            k <= marks@.len(),
            marks@.len() == start.len(),
            forall|q: int| 0 <= q < start.len() ==> ((#[trigger] start[q]).id as int) < runs@.len(),
            forall|q: int| 0 <= q < k ==> #[trigger] marks@[q] == (FnMark { runs: runs@[start[q].id as int], ..start[q] }),
            forall|q: int| k <= q < marks@.len() ==> #[trigger] marks@[q] == start[q],
        decreases marks.len() - k,
    {
        let id = marks[k].id;
        assert(start[k as int].id == id);
        marks[k].runs = runs[id as usize];
        k = k + 1;
    }
}

/// Which declarations the paper draws, and which of them nothing drawn
/// calls.
fn flags(g: &CodeGraph, reading: &FnReading, marks: &Vec<FnMark>, calls: &Vec<Call>, callers: &HashMap<u32, Vec<u32>>) -> (out: (Vec<bool>, Vec<bool>))
    requires
        g.items@.len() < 0x1_0000_0000,
        forall|id: u32| marked_id(*g, reading.vis_floor, id) <==> exists|k: int| 0 <= k < marks@.len() && (#[trigger] marks@[k]).id == id,
        forall|k: int| 0 <= k < marks@.len() ==> ((#[trigger] marks@[k]).id as int) < g.items@.len(),
        forall|x: u32| #[trigger] callers@.contains_key(x) <==> ((x as int) < g.items@.len() && ends_at(calls@, x, false).len() > 0),
    ensures
        out.0@ == on_flags(*g, *reading),
        out.1@ == ground_flags(*g, *reading, calls@),
{
    let n = g.items.len();
    let mut on: Vec<bool> = Vec::new();
    let mut x: usize = 0;
    while x < n
        invariant
            x <= n,
            n == g.items@.len(),
            on@.len() == x,
            forall|z: int| 0 <= z < x ==> !(#[trigger] on@[z]),
        decreases n - x,
    {
        on.push(false);
        x = x + 1;
    }
    let mut k: usize = 0;
    while k < marks.len()
        invariant
            k <= marks@.len(),
            n == g.items@.len(),
            on@.len() == n,
            forall|q: int| 0 <= q < marks@.len() ==> ((#[trigger] marks@[q]).id as int) < n,
            forall|z: int| 0 <= z < n ==> (#[trigger] on@[z] <==> exists|q: int| 0 <= q < k && (#[trigger] marks@[q]).id == z),
        decreases marks.len() - k,
    {
        let id = marks[k].id;
        on.set(id as usize, true);
        proof {
            assert forall|z: int| 0 <= z < n implies (#[trigger] on@[z] <==> exists|q: int| 0 <= q < k + 1 && (#[trigger] marks@[q]).id == z) by {
                if z == id {
                    assert(marks@[k as int].id == z);
                }
            }
        }
        k = k + 1;
    }
    let mut ground: Vec<bool> = Vec::new();
    let mut y: usize = 0;
    while y < n
        invariant
            y <= n,
            n == g.items@.len(),
            n < 0x1_0000_0000,
            on@.len() == n,
            ground@.len() == y,
            forall|z: int| 0 <= z < y ==> #[trigger] ground@[z] == (on@[z] && ends_at(calls@, z as u32, false).len() == 0),
            forall|x: u32| #[trigger] callers@.contains_key(x) <==> ((x as int) < n && ends_at(calls@, x, false).len() > 0),
        decreases n - y,
    {
        let b = on[y] && !callers.contains_key(&(y as u32));
        ground.push(b);
        y = y + 1;
    }
    proof {
        assert forall|z: int| 0 <= z < n implies #[trigger] on@[z] == on_flags(*g, *reading)[z] by {
            if marked_id(*g, reading.vis_floor, z as u32) {
                let q = choose|q: int| 0 <= q < marks@.len() && (#[trigger] marks@[q]).id == z as u32;
            }
            if on@[z] {
                let q = choose|q: int| 0 <= q < marks@.len() && (#[trigger] marks@[q]).id == z;
                assert(marks@[q].id == z as u32);
            }
        }
        assert(on@ =~= on_flags(*g, *reading));
        assert(ground@ =~= ground_flags(*g, *reading, calls@));
    }
    (on, ground)
}

/// The mark stands where the survey puts it: it reads its declaration, sits
/// at the depth `depth` gives it, counts its callers, its callees and the
/// types it touches.
pub open spec fn mark_stands(g: CodeGraph, depth: Seq<Option<u32>>, t: Map<u32, Vec<Touch>>, m: FnMark) -> bool {
    &&& mark_reads(g, m)
    &&& m.tier == spec_tier(depth[m.id as int])
    &&& m.callers as nat == callers_count(g, m.id)
    &&& m.calls as nat == callees_count(g, m.id)
    &&& m.touches == touch_count(t, m.id)
}

/// The marks are one per declaration the reading draws, in declaration
/// order.
pub open spec fn marks_cover(g: CodeGraph, reading: FnReading, marks: Seq<FnMark>) -> bool {
    &&& forall|id: u32| marked_id(g, reading.vis_floor, id) <==> exists|k: int| 0 <= k < marks.len() && (#[trigger] marks[k]).id == id
    &&& forall|a: int, b: int| 0 <= a < b < marks.len() ==> (#[trigger] marks[a]).id != (#[trigger] marks[b]).id
    &&& forall|a: int, b: int| 0 <= a < b < marks.len() ==> lex_le(mark_key(#[trigger] marks[a]), mark_key(#[trigger] marks[b]))
}

/// What calls each declaration, over the whole workspace.
pub open spec fn all_callers_fit(g: CodeGraph, m: Map<u32, Vec<u32>>) -> bool {
    &&& forall|x: u32| #[trigger] m.contains_key(x) <==> exists|y: u32| caller_of(g, x, y)
    &&& forall|x: u32, y: u32| #[trigger] m.contains_key(x) ==> ascending(m[x]@) && (#[trigger] m[x]@.contains(y) <==> caller_of(g, x, y))
}

/// What each mark touches, for the marks that touch anything.
pub open spec fn touches_fit(g: CodeGraph, marks: Seq<FnMark>, t: Map<u32, Vec<Touch>>) -> bool {
    &&& forall|x: u32| #[trigger] t.contains_key(x) <==> (exists|k: int| 0 <= k < marks.len() && (#[trigger] marks[k]).id == x)
        && exists|ty: u32| touched(g, x, ty)
    &&& forall|x: u32| #[trigger] t.contains_key(x) ==> rows_fit(g, x, t[x]@)
}

/// Every call and contract, whole, and which declarations name themselves.
fn ink(g: &CodeGraph) -> (out: (Vec<Call>, Vec<bool>, Vec<(u32, u32)>, Vec<Call>))
    requires
        survey_fits(*g),
    ensures
        pairs_fit(*g, out.0@),
        out.1@.len() == g.items@.len(),
        forall|x: int| 0 <= x < g.items@.len() ==> (out.1@[x] <==> self_ref(*g, g.refs@, x as u32)),
        out.2@ == spec_answers(*g, g.implements@),
        calls_listed(*g, out.3@),
{
    let (pairs, recurses) = call_pairs(g);
    let ans = answers(g);
    let all_calls = all_calls_of(&pairs, &ans);
    assert(pairs_fit(*g, pairs@));
    (pairs, recurses, ans, all_calls)
}

/// Both directions of the running order, every declaration's depth by the
/// shortest way in, and what calls each one.
fn running(g: &CodeGraph, pairs: &Vec<Call>, ans: &Vec<(u32, u32)>) -> (out: (Vec<Vec<u32>>, Vec<Vec<u32>>, Vec<Option<u32>>, HashMap<u32, Vec<u32>>))
    requires
        survey_fits(*g),
        pairs_fit(*g, pairs@),
        ans@ == spec_answers(*g, g.implements@),
    ensures
        out.0@.len() == g.items@.len(),
        out.1@.len() == g.items@.len(),
        forall|x: int| 0 <= x < g.items@.len() ==> ascending((#[trigger] out.0@[x])@) && out.0@[x]@.len() < 0x1_0000_0000,
        forall|x: int| 0 <= x < g.items@.len() ==> ascending((#[trigger] out.1@[x])@) && out.1@[x]@.len() < 0x1_0000_0000,
        forall|x: int, y: u32| 0 <= x < g.items@.len() ==> (#[trigger] out.0@[x]@.contains(y) <==> caller_of(*g, x as u32, y)),
        forall|y: int, x: u32| 0 <= y < g.items@.len() ==> (#[trigger] out.1@[y]@.contains(x) <==> caller_of(*g, x, y as u32)),
        shortest_way_in(*g, out.2@),
        forall|x: int| 0 <= x < out.2@.len() && (#[trigger] out.2@[x]) is Some ==> (out.2@[x]->0 as int) < out.2@.len(),
        all_callers_fit(*g, out.3@),
{
    let n = g.items.len();
    proof {
        crate::fn_calls::lemma_caller_in_range(*g);
    }
    let (ins, outs) = adjacency(g, pairs, ans);
    let all_callers = callers_map(&ins);
    let depth = depths(g, &ins, &outs);
    proof {
        assert forall|x: int| 0 <= x < n implies (#[trigger] ins@[x])@.len() < 0x1_0000_0000 by {
            assert forall|k: int| 0 <= k < ins@[x]@.len() implies (#[trigger] ins@[x]@[k] as nat) < n by {
                assert(ins@[x]@.contains(ins@[x]@[k]));
            }
            lemma_ascending_below(ins@[x]@, n as nat);
        }
        assert forall|x: int| 0 <= x < n implies (#[trigger] outs@[x])@.len() < 0x1_0000_0000 by {
            assert forall|k: int| 0 <= k < outs@[x]@.len() implies (#[trigger] outs@[x]@[k] as nat) < n by {
                assert(outs@[x]@.contains(outs@[x]@[k]));
            }
            lemma_ascending_below(outs@[x]@, n as nat);
        }
        assert forall|x: u32| #[trigger] all_callers@.contains_key(x) <==> exists|y: u32| caller_of(*g, x, y) by {
            if exists|y: u32| caller_of(*g, x, y) {
                let y = choose|y: u32| caller_of(*g, x, y);
                assert(ins@[x as int]@.contains(y));
            }
            if all_callers@.contains_key(x) {
                let y = ins@[x as int]@[0];
                assert(ins@[x as int]@.contains(y));
            }
        }
    }
    (ins, outs, depth, all_callers)
}

/// The marks, each with what it touches, and the touches themselves.
#[verifier::rlimit(40)]
fn touched_marks(
    g: &CodeGraph,
    reading: &FnReading,
    depth: &Vec<Option<u32>>,
    ins: &Vec<Vec<u32>>,
    outs: &Vec<Vec<u32>>,
    recurses: &Vec<bool>,
) -> (out: (Vec<FnMark>, HashMap<u32, Vec<Touch>>))
    requires
        survey_fits(*g),
        depth@.len() == g.items@.len(),
        ins@.len() == g.items@.len(),
        outs@.len() == g.items@.len(),
        forall|x: int| 0 <= x < g.items@.len() ==> ascending((#[trigger] ins@[x])@) && ins@[x]@.len() < 0x1_0000_0000,
        forall|x: int| 0 <= x < g.items@.len() ==> ascending((#[trigger] outs@[x])@) && outs@[x]@.len() < 0x1_0000_0000,
        forall|x: int, y: u32| 0 <= x < g.items@.len() ==> (#[trigger] ins@[x]@.contains(y) <==> caller_of(*g, x as u32, y)),
        forall|y: int, x: u32| 0 <= y < g.items@.len() ==> (#[trigger] outs@[y]@.contains(x) <==> caller_of(*g, x, y as u32)),
        recurses@.len() == g.items@.len(),
        forall|x: int| 0 <= x < g.items@.len() ==> (recurses@[x] <==> self_ref(*g, g.refs@, x as u32)),
    ensures
        forall|k: int| 0 <= k < out.0@.len() ==> mark_stands(*g, depth@, out.1@, #[trigger] out.0@[k]),
        marks_cover(*g, *reading, out.0@),
        touches_fit(*g, out.0@, out.1@),
{
    let mut marks = build_marks(g, reading.vis_floor, depth, ins, outs, recurses);
    let touches = read_touches(g, &marks);
    let ghost built = marks@;
    set_touches(&mut marks, &touches);
    proof {
        lemma_all_stand(*g, depth@, ins@, outs@, touches@, built, marks@);
        assert forall|k: int| 0 <= k < built.len() implies (#[trigger] marks@[k]).id == built[k].id && mark_key(marks@[k]) == mark_key(built[k]) by {}
        lemma_touches_keep(*g, *reading, touches@, built, marks@);
    }
    (marks, touches)
}

/// One mark as built, with what it touches set, stands where the survey
/// puts it.
proof fn lemma_stands_one(
    g: CodeGraph,
    depth: Seq<Option<u32>>,
    ins: Seq<Vec<u32>>,
    outs: Seq<Vec<u32>>,
    t: Map<u32, Vec<Touch>>,
    b: FnMark,
    f: FnMark,
)
    requires
        ins.len() == g.items@.len(),
        outs.len() == g.items@.len(),
        forall|x: int| 0 <= x < g.items@.len() ==> ascending((#[trigger] ins[x])@),
        forall|x: int| 0 <= x < g.items@.len() ==> ascending((#[trigger] outs[x])@),
        forall|x: int, y: u32| 0 <= x < g.items@.len() ==> (#[trigger] ins[x]@.contains(y) <==> caller_of(g, x as u32, y)),
        forall|y: int, x: u32| 0 <= y < g.items@.len() ==> (#[trigger] outs[y]@.contains(x) <==> caller_of(g, x, y as u32)),
        f == (FnMark { touches: touch_count(t, b.id), ..b }),
        mark_fits(g, b, depth, ins, outs),
    ensures
        mark_stands(g, depth, t, f),
{
    let id = b.id;
    lemma_listed_count(ins[id as int]@, Set::new(|y: u32| caller_of(g, id, y)));
    lemma_listed_count(outs[id as int]@, Set::new(|x: u32| caller_of(g, x, id)));
}

/// Every mark as built, with what it touches set, stands where the survey
/// puts it.
proof fn lemma_all_stand(
    g: CodeGraph,
    depth: Seq<Option<u32>>,
    ins: Seq<Vec<u32>>,
    outs: Seq<Vec<u32>>,
    t: Map<u32, Vec<Touch>>,
    built: Seq<FnMark>,
    fin: Seq<FnMark>,
)
    requires
        ins.len() == g.items@.len(),
        outs.len() == g.items@.len(),
        forall|x: int| 0 <= x < g.items@.len() ==> ascending((#[trigger] ins[x])@),
        forall|x: int| 0 <= x < g.items@.len() ==> ascending((#[trigger] outs[x])@),
        forall|x: int, y: u32| 0 <= x < g.items@.len() ==> (#[trigger] ins[x]@.contains(y) <==> caller_of(g, x as u32, y)),
        forall|y: int, x: u32| 0 <= y < g.items@.len() ==> (#[trigger] outs[y]@.contains(x) <==> caller_of(g, x, y as u32)),
        fin.len() == built.len(),
        forall|k: int| 0 <= k < built.len() ==> #[trigger] fin[k] == (FnMark { touches: touch_count(t, built[k].id), ..built[k] }),
        forall|k: int| 0 <= k < built.len() ==> mark_fits(g, #[trigger] built[k], depth, ins, outs),
    ensures
        forall|k: int| 0 <= k < fin.len() ==> mark_stands(g, depth, t, #[trigger] fin[k]),
{
    assert forall|k: int| 0 <= k < fin.len() implies mark_stands(g, depth, t, #[trigger] fin[k]) by {
        lemma_stands_one(g, depth, ins, outs, t, built[k], fin[k]);
    }
}

/// Setting what each mark touches keeps which marks there are, their
/// order, and what the touches say of them.
proof fn lemma_touches_keep(
    g: CodeGraph,
    reading: FnReading,
    t: Map<u32, Vec<Touch>>,
    built: Seq<FnMark>,
    fin: Seq<FnMark>,
)
    requires
        fin.len() == built.len(),
        forall|k: int| 0 <= k < built.len() ==> (#[trigger] fin[k]).id == built[k].id && mark_key(fin[k]) == mark_key(built[k]),
        forall|id: u32| marked_id(g, reading.vis_floor, id) <==> exists|k: int| 0 <= k < built.len() && (#[trigger] built[k]).id == id,
        forall|a: int, b: int| 0 <= a < b < built.len() ==> (#[trigger] built[a]).id != (#[trigger] built[b]).id,
        forall|a: int, b: int| 0 <= a < b < built.len() ==> lex_le(mark_key(#[trigger] built[a]), mark_key(#[trigger] built[b])),
        forall|x: u32| #[trigger] t.contains_key(x) <==> (exists|k: int| 0 <= k < built.len() && (#[trigger] built[k]).id == x)
            && exists|ty: u32| touched(g, x, ty),
        forall|x: u32| #[trigger] t.contains_key(x) ==> rows_fit(g, x, t[x]@),
    ensures
        marks_cover(g, reading, fin),
        touches_fit(g, fin, t),
{
    assert forall|id: u32| marked_id(g, reading.vis_floor, id) <==> exists|k: int| 0 <= k < fin.len() && (#[trigger] fin[k]).id == id by {
        if marked_id(g, reading.vis_floor, id) {
            let k = choose|k: int| 0 <= k < built.len() && (#[trigger] built[k]).id == id;
            assert(fin[k].id == id);
        }
        if exists|k: int| 0 <= k < fin.len() && (#[trigger] fin[k]).id == id {
            let k = choose|k: int| 0 <= k < fin.len() && (#[trigger] fin[k]).id == id;
            assert(built[k].id == id);
        }
    }
    assert forall|a: int, b: int| 0 <= a < b < fin.len() implies (#[trigger] fin[a]).id != (#[trigger] fin[b]).id by {
        assert(built[a].id != built[b].id);
    }
    assert forall|a: int, b: int| 0 <= a < b < fin.len() implies lex_le(mark_key(#[trigger] fin[a]), mark_key(#[trigger] fin[b])) by {
        assert(lex_le(mark_key(built[a]), mark_key(built[b])));
    }
    assert forall|x: u32| #[trigger] t.contains_key(x) <==> (exists|k: int| 0 <= k < fin.len() && (#[trigger] fin[k]).id == x)
        && exists|ty: u32| touched(g, x, ty) by {
        if exists|k: int| 0 <= k < fin.len() && (#[trigger] fin[k]).id == x {
            let k = choose|k: int| 0 <= k < fin.len() && (#[trigger] fin[k]).id == x;
            assert(built[k].id == x);
        }
        if exists|k: int| 0 <= k < built.len() && (#[trigger] built[k]).id == x {
            let k = choose|k: int| 0 <= k < built.len() && (#[trigger] built[k]).id == x;
            assert(fin[k].id == x);
        }
    }
}

/// Setting what each mark runs keeps everything else it says.
proof fn lemma_runs_keep(
    g: CodeGraph,
    reading: FnReading,
    depth: Seq<Option<u32>>,
    t: Map<u32, Vec<Touch>>,
    mid: Seq<FnMark>,
    fin: Seq<FnMark>,
    runs: Seq<u32>,
)
    requires
        fin.len() == mid.len(),
        forall|k: int| 0 <= k < mid.len() ==> #[trigger] fin[k] == (FnMark { runs: runs[mid[k].id as int], ..mid[k] }),
        forall|k: int| 0 <= k < mid.len() ==> mark_stands(g, depth, t, #[trigger] mid[k]),
        marks_cover(g, reading, mid),
        touches_fit(g, mid, t),
    ensures
        forall|k: int| 0 <= k < fin.len() ==> mark_stands(g, depth, t, #[trigger] fin[k]),
        forall|k: int| 0 <= k < fin.len() ==> (#[trigger] fin[k]).runs == runs[fin[k].id as int],
        marks_cover(g, reading, fin),
        touches_fit(g, fin, t),
{
    assert forall|k: int| 0 <= k < fin.len() implies mark_stands(g, depth, t, #[trigger] fin[k]) by {
        assert(mark_stands(g, depth, t, mid[k]));
    }
    assert forall|id: u32| marked_id(g, reading.vis_floor, id) <==> exists|k: int| 0 <= k < fin.len() && (#[trigger] fin[k]).id == id by {
        if marked_id(g, reading.vis_floor, id) {
            let k = choose|k: int| 0 <= k < mid.len() && (#[trigger] mid[k]).id == id;
            assert(fin[k].id == id);
        }
        if exists|k: int| 0 <= k < fin.len() && (#[trigger] fin[k]).id == id {
            let k = choose|k: int| 0 <= k < fin.len() && (#[trigger] fin[k]).id == id;
            assert(mid[k].id == id);
        }
    }
    assert forall|a: int, b: int| 0 <= a < b < fin.len() implies (#[trigger] fin[a]).id != (#[trigger] fin[b]).id by {
        assert(mid[a].id != mid[b].id);
    }
    assert forall|a: int, b: int| 0 <= a < b < fin.len() implies lex_le(mark_key(#[trigger] fin[a]), mark_key(#[trigger] fin[b])) by {
        assert(lex_le(mark_key(mid[a]), mark_key(mid[b])));
    }
    assert forall|x: u32| #[trigger] t.contains_key(x) <==> (exists|k: int| 0 <= k < fin.len() && (#[trigger] fin[k]).id == x)
        && exists|ty: u32| touched(g, x, ty) by {
        if exists|k: int| 0 <= k < fin.len() && (#[trigger] fin[k]).id == x {
            let k = choose|k: int| 0 <= k < fin.len() && (#[trigger] fin[k]).id == x;
            assert(mid[k].id == x);
        }
        if exists|k: int| 0 <= k < mid.len() && (#[trigger] mid[k]).id == x {
            let k = choose|k: int| 0 <= k < mid.len() && (#[trigger] mid[k]).id == x;
            assert(fin[k].id == x);
        }
    }
}

/// Tiers read at the one shortest way in are read at any list that reads
/// it.
proof fn lemma_tiers(g: CodeGraph, depth: Seq<Option<u32>>, t: Map<u32, Vec<Touch>>, marks: Seq<FnMark>, deep: nat)
    requires
        shortest_way_in(g, depth),
        deep == deepest_of(depth),
        forall|k: int| 0 <= k < marks.len() ==> mark_stands(g, depth, t, #[trigger] marks[k]),
    ensures
        forall|d: Seq<Option<u32>>| #[trigger] shortest_way_in(g, d) ==> {
            &&& forall|k: int| 0 <= k < marks.len() ==> mark_stands(g, d, t, #[trigger] marks[k])
            &&& deep == deepest_of(d)
        },
        forall|q: int| 0 <= q < marks.len() ==> spec_band((#[trigger] marks[q]).tier, deep) <= deep + 1,
{
    assert forall|d: Seq<Option<u32>>| #[trigger] shortest_way_in(g, d) implies {
        &&& forall|k: int| 0 <= k < marks.len() ==> mark_stands(g, d, t, #[trigger] marks[k])
        &&& deep == deepest_of(d)
    } by {
        crate::fn_tier::lemma_way_in_unique(g, d, depth);
    }
    assert forall|q: int| 0 <= q < marks.len() implies spec_band((#[trigger] marks[q]).tier, deep) <= deep + 1 by {
        assert(mark_stands(g, depth, t, marks[q]));
        let id = marks[q].id as int;
        if depth[id] is Some {
            lemma_deepest_bounds(depth, id);
        }
    }
}

impl FnModel {
    /// Read the function chart's model off a survey, under one reading.
    #[verifier::rlimit(60)]
    #[verifier::spinoff_prover]
    pub fn build(graph: &CodeGraph, reading: &FnReading) -> (m: FnModel)
        requires
            survey_fits(*graph),
        ensures
            model_fits(*graph, *reading, m),
    {
        let g = graph;
        let n = g.items.len();

        // The two families, whole, and what this reading draws of them.
        let (pairs, recurses, ans, all_calls) = ink(g);
        let calls = drawn_calls(g, reading.vis_floor, &all_calls);

        // The running order and the marks.
        let (ins, outs, depth, all_callers) = running(g, &pairs, &ans);
        let (mut marks, touches) = touched_marks(g, reading, &depth, &ins, &outs, &recurses);

        // What each drawn mark calls and what calls it, heaviest first, and
        // how much runs under each mark by the way in.
        let callees = rank_all(&calls, n, true);
        let callers = rank_all(&calls, n, false);
        let (on, ground) = flags(g, reading, &marks, &calls, &callers);
        let (runs, Ghost(order), Ghost(parent)) = way_in_reach(&on, &ground, &callees);
        let ghost mid = marks@;
        set_runs(&mut marks, &runs);
        proof {
            lemma_runs_keep(*g, *reading, depth@, touches@, mid, marks@, runs@);
            assert forall|k: int| 0 <= k < marks@.len() implies views((#[trigger] marks@[k]).module@).len() < 0x100 by {
                assert(mark_stands(*g, depth@, touches@, marks@[k]));
                let f = g.items@[marks@[k].id as int].file as int;
                assert(crate::paths::spec_module_segments(g.files@[f].path@).len() < 0x100);
            }
        }

        // The household, read over the finished marks.
        let house = read_house(g, &marks, reading);

        // The bands and the facts.
        let deep = deepest(&depth);
        proof {
            lemma_tiers(*g, depth@, touches@, marks@, deep as nat);
        }
        let bands = band_list(&marks, deep);
        let (fns, methods, macros, entries, ring, added, changed) = mark_tallies(&marks);
        let facts = FnFacts {
            fns,
            methods,
            macros,
            entries,
            ring,
            deepest: deep,
            added,
            changed,
            unresolved: g.limits.unresolved,
            off_paper: off_paper(g, reading),
        };
        let dirty = added > 0 || changed > 0;
        let m = FnModel {
            marks,
            calls,
            all_calls,
            all_callers,
            frames: house.frames,
            owners: house.owners,
            home: house.home,
            callees,
            callers,
            folded: house.folded,
            packed: house.packed,
            packs: house.packs,
            bands,
            facts,
            touches,
            dirty,
            multi_crate: house.multi_crate,
        };
        proof {
            assert(shortest_way_in(*g, depth@));
            assert(way_in_fits(on_flags(*g, *reading), ground_flags(*g, *reading, m.calls@), m.callees@, order, parent, runs@));
            assert(walked_first(on_flags(*g, *reading), ground_flags(*g, *reading, m.calls@), m.callees@, order, parent, order.len() as int));
            assert(seeded_in_order(on_flags(*g, *reading), ground_flags(*g, *reading, m.calls@), order, parent));
            assert(house_of(m) == house);
        }
        m
    }
}

} // verus!
