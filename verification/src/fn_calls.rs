//! The two families of ink between declarations that run: calls, read off
//! the survey's resolved references, and contracts, read off the impl
//! headers a trait's implementers are written under.

use std::collections::HashMap;

use vstd::prelude::*;

use crate::fn_model::{empty_promise, spec_promises, Call, CallKind};
use crate::fn_reading::VisFloor;
use crate::sort::{lemma_map_multiset, lemma_same_entries, lex_le, sort_by_key, values_of};
use crate::survey::ImplEdge;
use crate::fn_query::same_text;
use crate::survey::{CodeGraph, ItemMark, MarkRef, MethodRow};

verus! {

/// The survey as the function chart can read it: every declaration's id is
/// its index, every method row names a declaration, no impl header has an
/// empty promise, and the counts fit the integers they are kept in (a
/// frame per module is numbered in 32 bits, so declarations and module
/// nesting are bounded together).
pub open spec fn survey_fits(g: CodeGraph) -> bool {
    &&& g.items@.len() < 0x40_0000
    &&& g.files@.len() < 0x4000_0000
    &&& forall|f: int| 0 <= f < g.files@.len() ==> crate::paths::spec_module_segments((#[trigger] g.files@[f]).path@).len() < 0x100
    &&& g.refs@.len() < 0x4000_0000
    &&& g.holds@.len() < 0x4000_0000
    &&& g.implements@.len() < 0x4000_0000
    &&& forall|i: int| 0 <= i < g.items@.len() ==> (#[trigger] g.items@[i]).id == i
    &&& forall|i: int, k: int|
        0 <= i < g.items@.len() && 0 <= k < g.items@[i].body.method_rows@.len() ==> {
            &&& (#[trigger] g.items@[i].body.method_rows@[k]).mark < g.items@.len()
            &&& !empty_promise(g.items@[i].body.method_rows@[k].section@)
        }
    &&& forall|i: int| 0 <= i < g.items@.len() ==> (#[trigger] g.items@[i]).body.field_rows@.len() < 0x1_0000_0000
    &&& ref_total(g.refs@) <= u32::MAX
}

/// Every reference's count, summed.
pub open spec fn ref_total(refs: Seq<MarkRef>) -> nat
    decreases refs.len(),
{
    if refs.len() == 0 { 0 } else { ref_total(refs.drop_last()) + refs.last().count as nat }
}

/// A declaration that runs.
pub open spec fn callable_id(g: CodeGraph, id: int) -> bool {
    0 <= id < g.items@.len() && g.items@[id].head.kind.spec_callable()
}

/// A reference between two declarations that run.
pub open spec fn runs_both(g: CodeGraph, r: MarkRef) -> bool {
    callable_id(g, r.from as int) && callable_id(g, r.to as int)
}

/// A call: one declaration that runs naming another.
pub open spec fn call_ref(g: CodeGraph, r: MarkRef) -> bool {
    runs_both(g, r) && r.from != r.to
}

/// Some reference among `refs` has `user` calling `def`.
pub open spec fn pair_in(g: CodeGraph, refs: Seq<MarkRef>, def: u32, user: u32) -> bool {
    exists|i: int| 0 <= i < refs.len() && call_ref(g, #[trigger] refs[i]) && refs[i].to == def && refs[i].from == user
}

/// The references among `refs` that have `user` calling `def`, counted.
pub open spec fn pair_sum(g: CodeGraph, refs: Seq<MarkRef>, def: u32, user: u32) -> nat
    decreases refs.len(),
{
    if refs.len() == 0 {
        0
    } else {
        pair_sum(g, refs.drop_last(), def, user) + if call_ref(g, refs.last()) && refs.last().to == def
            && refs.last().from == user {
            refs.last().count as nat
        } else {
            0nat
        }
    }
}

/// Some reference among `refs` has `id` naming itself.
pub open spec fn self_ref(g: CodeGraph, refs: Seq<MarkRef>, id: u32) -> bool {
    exists|i: int| 0 <= i < refs.len() && runs_both(g, #[trigger] refs[i]) && refs[i].from == id && refs[i].to == id
}

pub open spec fn call_lt(a: Call, b: Call) -> bool {
    a.def < b.def || (a.def == b.def && a.user < b.user)
}

proof fn lemma_pair_sum_bound(g: CodeGraph, refs: Seq<MarkRef>, def: u32, user: u32)
    ensures
        pair_sum(g, refs, def, user) <= ref_total(refs),
    decreases refs.len(),
{
    if refs.len() > 0 {
        lemma_pair_sum_bound(g, refs.drop_last(), def, user);
    }
}

/// Users of one callee, strictly ascending, with their counts.
pub open spec fn users_ok(g: CodeGraph, refs: Seq<MarkRef>, def: u32, list: Seq<(u32, u32)>) -> bool {
    &&& forall|a: int, b: int| 0 <= a < b < list.len() ==> (#[trigger] list[a]).0 < (#[trigger] list[b]).0
    &&& forall|q: int| 0 <= q < list.len() ==> pair_in(g, refs, def, (#[trigger] list[q]).0)
            && list[q].1 as nat == pair_sum(g, refs, def, list[q].0)
    &&& forall|u: u32| pair_in(g, refs, def, u) ==> exists|q: int| 0 <= q < list.len() && (#[trigger] list[q]).0 == u
}

/// A copy of a list of pairs.
fn copy_pairs(v: &Vec<(u32, u32)>) -> (out: Vec<(u32, u32)>)
    ensures
        out@ == v@,
{
    let mut out: Vec<(u32, u32)> = Vec::new();
    let mut i: usize = 0;
    while i < v.len()
        invariant
            i <= v@.len(),
            out@ == v@.take(i as int),
        decreases v.len() - i,
    {
        out.push(v[i]);
        i = i + 1;
        assert(out@ =~= v@.take(i as int));
    }
    assert(v@.take(v@.len() as int) =~= v@);
    out
}

/// Adds one call reference to its callee's list of users.
fn add_user(list: &Vec<(u32, u32)>, g: Ghost<CodeGraph>, refs: Ghost<Seq<MarkRef>>, r: MarkRef) -> (out: Vec<(u32, u32)>)
    requires
        call_ref(g@, r),
        users_ok(g@, refs@, r.to, list@),
        ref_total(refs@.push(r)) <= u32::MAX,
    ensures
        users_ok(g@, refs@.push(r), r.to, out@),
{
    let ghost nrefs = refs@.push(r);
    let ghost def = r.to;
    assert(nrefs.drop_last() =~= refs@);
    let mut q: usize = 0;
    while q < list.len() && list[q].0 < r.from
        invariant
            q <= list@.len(),
            forall|p: int| 0 <= p < q ==> (#[trigger] list@[p]).0 < r.from,
        decreases list.len() - q,
    {
        q = q + 1;
    }
    let mut out = copy_pairs(list);
    proof {
        assert forall|u: u32| #![trigger pair_sum(g@, nrefs, def, u)]
            pair_sum(g@, nrefs, def, u) == pair_sum(g@, refs@, def, u) + if u == r.from { r.count as nat } else { 0nat } by {
        }
        assert forall|u: u32| pair_in(g@, nrefs, def, u) <==> (pair_in(g@, refs@, def, u) || u == r.from) by {
            if pair_in(g@, refs@, def, u) {
                let i = choose|i: int| 0 <= i < refs@.len() && call_ref(g@, #[trigger] refs@[i]) && refs@[i].to == def && refs@[i].from == u;
                assert(nrefs[i] == refs@[i]);
            }
            if u == r.from {
                assert(nrefs[refs@.len() as int] == r);
            }
            if pair_in(g@, nrefs, def, u) {
                let i = choose|i: int| 0 <= i < nrefs.len() && call_ref(g@, #[trigger] nrefs[i]) && nrefs[i].to == def && nrefs[i].from == u;
                if i < refs@.len() {
                    assert(refs@[i] == nrefs[i]);
                }
            }
        }
        lemma_pair_sum_bound(g@, nrefs, def, r.from);
    }
    if q < list.len() && list[q].0 == r.from {
        let c = list[q].1;
        proof {
            assert(pair_sum(g@, nrefs, def, r.from) == c + r.count);
        }
        out.set(q, (r.from, c + r.count));
        proof {
            assert forall|a: int, b: int| 0 <= a < b < out@.len() implies (#[trigger] out@[a]).0 < (#[trigger] out@[b]).0 by {
                assert(list@[a].0 < list@[b].0);
            }
            assert forall|u: u32| pair_in(g@, nrefs, def, u) implies exists|p: int| 0 <= p < out@.len() && (#[trigger] out@[p]).0 == u by {
                if u == r.from {
                    assert(out@[q as int].0 == u);
                } else {
                    let p = choose|p: int| 0 <= p < list@.len() && (#[trigger] list@[p]).0 == u;
                    assert(out@[p].0 == u);
                }
            }
            assert forall|p: int| 0 <= p < out@.len() implies pair_in(g@, nrefs, def, (#[trigger] out@[p]).0)
                && out@[p].1 as nat == pair_sum(g@, nrefs, def, out@[p].0) by {
                if p != q {
                    assert(list@[p].0 != r.from) by {
                        if p < q {
                        } else {
                            assert(list@[q as int].0 < list@[p].0);
                        }
                    }
                }
            }
        }
    } else {
        proof {
            assert(!pair_in(g@, refs@, def, r.from)) by {
                if pair_in(g@, refs@, def, r.from) {
                    let p = choose|p: int| 0 <= p < list@.len() && (#[trigger] list@[p]).0 == r.from;
                    if p < q {
                    } else {
                        assert(p == q || list@[q as int].0 < list@[p].0);
                    }
                }
            }
            assert(pair_sum(g@, refs@, def, r.from) == 0) by {
                lemma_absent_sum(g@, refs@, def, r.from);
            }
        }
        out.insert(q, (r.from, r.count));
        proof {
            assert forall|a: int, b: int| 0 <= a < b < out@.len() implies (#[trigger] out@[a]).0 < (#[trigger] out@[b]).0 by {
                if b < q {
                    assert(list@[a].0 < list@[b].0);
                } else if b == q {
                    assert(list@[a].0 < r.from);
                } else if a < q {
                    assert(list@[a].0 < r.from);
                    assert(list@[b - 1].0 > r.from) by {
                        assert(q < list@.len());
                        if b - 1 > q {
                            assert(list@[q as int].0 < list@[b - 1].0);
                        }
                    }
                } else if a == q {
                    assert(list@[b - 1].0 > r.from) by {
                        if b - 1 > q {
                            assert(list@[q as int].0 < list@[b - 1].0);
                        }
                    }
                } else {
                    assert(list@[a - 1].0 < list@[b - 1].0);
                }
            }
            assert forall|u: u32| pair_in(g@, nrefs, def, u) implies exists|p: int| 0 <= p < out@.len() && (#[trigger] out@[p]).0 == u by {
                if u == r.from {
                    assert(out@[q as int].0 == u);
                } else {
                    let p = choose|p: int| 0 <= p < list@.len() && (#[trigger] list@[p]).0 == u;
                    if p < q {
                        assert(out@[p].0 == u);
                    } else {
                        assert(out@[p + 1].0 == u);
                    }
                }
            }
            assert forall|p: int| 0 <= p < out@.len() implies pair_in(g@, nrefs, def, (#[trigger] out@[p]).0)
                && out@[p].1 as nat == pair_sum(g@, nrefs, def, out@[p].0) by {
                if p < q {
                    assert(out@[p] == list@[p]);
                } else if p > q {
                    assert(out@[p] == list@[p - 1]);
                    assert(list@[p - 1].0 != r.from) by {
                        if p - 1 > q {
                            assert(list@[q as int].0 < list@[p - 1].0);
                        }
                    }
                }
            }
        }
    }
    out
}

proof fn lemma_absent_sum(g: CodeGraph, refs: Seq<MarkRef>, def: u32, user: u32)
    requires
        !pair_in(g, refs, def, user),
    ensures
        pair_sum(g, refs, def, user) == 0,
    decreases refs.len(),
{
    if refs.len() > 0 {
        assert(!pair_in(g, refs.drop_last(), def, user)) by {
            if pair_in(g, refs.drop_last(), def, user) {
                let i = choose|i: int| 0 <= i < refs.drop_last().len() && call_ref(g, #[trigger] refs.drop_last()[i])
                    && refs.drop_last()[i].to == def && refs.drop_last()[i].from == user;
                assert(refs[i] == refs.drop_last()[i]);
            }
        }
        lemma_absent_sum(g, refs.drop_last(), def, user);
        assert(!(call_ref(g, refs.last()) && refs.last().to == def && refs.last().from == user)) by {
            if call_ref(g, refs.last()) && refs.last().to == def && refs.last().from == user {
                assert(refs[refs.len() - 1] == refs.last());
            }
        }
    }
}

/// A prefix of the references counts no more than all of them.
pub proof fn lemma_total_prefix_pub(refs: Seq<MarkRef>, i: int)
    requires
        0 <= i <= refs.len(),
    ensures
        ref_total(refs.take(i)) <= ref_total(refs),
{
    lemma_total_prefix(refs, i);
}

proof fn lemma_total_prefix(refs: Seq<MarkRef>, i: int)
    requires
        0 <= i <= refs.len(),
    ensures
        ref_total(refs.take(i)) <= ref_total(refs),
    decreases refs.len() - i,
{
    if i < refs.len() {
        lemma_total_prefix(refs, i + 1);
        assert(refs.take(i + 1).drop_last() =~= refs.take(i));
        assert(refs.take(i + 1).last() == refs[i]);
    } else {
        assert(refs.take(i) =~= refs);
    }
}

/// Every call the survey resolved, one per (callee, caller) pair with its
/// references counted, ordered by callee then caller; and which
/// declarations name themselves.
pub fn call_pairs(g: &CodeGraph) -> (out: (Vec<Call>, Vec<bool>))
    requires
        survey_fits(*g),
    ensures
        forall|a: int, b: int| 0 <= a < b < out.0@.len() ==> call_lt(#[trigger] out.0@[a], #[trigger] out.0@[b]),
        forall|k: int|
            0 <= k < out.0@.len() ==> {
                &&& (#[trigger] out.0@[k]).kind == CallKind::Call
                &&& pair_in(*g, g.refs@, out.0@[k].def, out.0@[k].user)
                &&& out.0@[k].count as nat == pair_sum(*g, g.refs@, out.0@[k].def, out.0@[k].user)
            },
        forall|d: u32, u: u32|
            pair_in(*g, g.refs@, d, u) ==> exists|k: int|
                0 <= k < out.0@.len() && (#[trigger] out.0@[k]).def == d && out.0@[k].user == u,
        out.1@.len() == g.items@.len(),
        forall|x: int| 0 <= x < g.items@.len() ==> (out.1@[x] <==> self_ref(*g, g.refs@, x as u32)),
{
    let n = g.items.len();
    let ghost refs = g.refs@;
    let mut per_def: Vec<Vec<(u32, u32)>> = Vec::new();
    let mut recurses: Vec<bool> = Vec::new();
    let mut d: usize = 0;
    while d < n
        invariant
            d <= n,
            n == g.items@.len(),
            per_def@.len() == d,
            recurses@.len() == d,
            forall|x: int| 0 <= x < d ==> (#[trigger] per_def@[x])@.len() == 0,
            forall|x: int| 0 <= x < d ==> !(#[trigger] recurses@[x]),
        decreases n - d,
    {
        per_def.push(Vec::new());
        recurses.push(false);
        d = d + 1;
    }
    let mut i: usize = 0;
    while i < g.refs.len()
        invariant
            i <= refs.len(),
            refs == g.refs@,
            n == g.items@.len(),
            survey_fits(*g),
            per_def@.len() == n,
            recurses@.len() == n,
            forall|x: int| 0 <= x < n ==> users_ok(*g, refs.take(i as int), x as u32, (#[trigger] per_def@[x])@),
            forall|x: int| 0 <= x < n ==> (#[trigger] recurses@[x] <==> self_ref(*g, refs.take(i as int), x as u32)),
        decreases refs.len() - i,
    {
        let r = g.refs[i];
        let ghost before = refs.take(i as int);
        let ghost after = refs.take(i + 1);
        assert(after =~= before.push(r));
        let both = (r.from as usize) < n && (r.to as usize) < n && g.items[r.from as usize].head.kind.is_callable()
            && g.items[r.to as usize].head.kind.is_callable();
        proof {
            lemma_total_prefix(refs, i + 1);
            assert forall|x: int| 0 <= x < n implies (#[trigger] self_ref(*g, after, x as u32) <==> (self_ref(*g, before, x as u32)
                || (runs_both(*g, r) && r.from == x && r.to == x))) by {
                if self_ref(*g, before, x as u32) {
                    let k = choose|k: int| 0 <= k < before.len() && runs_both(*g, #[trigger] before[k]) && before[k].from == x as u32 && before[k].to == x as u32;
                    assert(after[k] == before[k]);
                }
                if runs_both(*g, r) && r.from == x && r.to == x {
                    assert(after[i as int] == r);
                }
                if self_ref(*g, after, x as u32) {
                    let k = choose|k: int| 0 <= k < after.len() && runs_both(*g, #[trigger] after[k]) && after[k].from == x as u32 && after[k].to == x as u32;
                    if k < before.len() {
                        assert(before[k] == after[k]);
                    }
                }
            }
        }
        if both && r.from == r.to {
            recurses.set(r.from as usize, true);
            proof {
                assert forall|x: int| 0 <= x < n implies users_ok(*g, after, x as u32, (#[trigger] per_def@[x])@) by {
                    lemma_users_unchanged(*g, before, r, x as u32, per_def@[x]@);
                }
            }
        } else if both {
            let list = add_user(&per_def[r.to as usize], Ghost(*g), Ghost(before), r);
            let ghost old_defs = per_def@;
            per_def.set(r.to as usize, list);
            proof {
                assert forall|x: int| 0 <= x < n implies users_ok(*g, after, x as u32, (#[trigger] per_def@[x])@) by {
                    if x != r.to {
                        assert(per_def@[x] == old_defs[x]);
                        lemma_users_unchanged(*g, before, r, x as u32, per_def@[x]@);
                    }
                }
            }
        } else {
            proof {
                assert forall|x: int| 0 <= x < n implies users_ok(*g, after, x as u32, (#[trigger] per_def@[x])@) by {
                    lemma_users_unchanged(*g, before, r, x as u32, per_def@[x]@);
                }
            }
        }
        i = i + 1;
    }
    assert(refs.take(refs.len() as int) =~= refs);
    let mut out: Vec<Call> = Vec::new();
    let mut d: usize = 0;
    while d < n
        invariant
            d <= n,
            n == g.items@.len(),
            n < 0x4000_0000,
            per_def@.len() == n,
            forall|x: int| 0 <= x < n ==> users_ok(*g, refs, x as u32, (#[trigger] per_def@[x])@),
            refs == g.refs@,
            forall|a: int, b: int| 0 <= a < b < out@.len() ==> call_lt(#[trigger] out@[a], #[trigger] out@[b]),
            forall|k: int| 0 <= k < out@.len() ==> (#[trigger] out@[k]).def < d,
            forall|k: int|
                0 <= k < out@.len() ==> {
                    &&& (#[trigger] out@[k]).kind == CallKind::Call
                    &&& pair_in(*g, refs, out@[k].def, out@[k].user)
                    &&& out@[k].count as nat == pair_sum(*g, refs, out@[k].def, out@[k].user)
                },
            forall|dd: u32, u: u32|
                dd < d && pair_in(*g, refs, dd, u) ==> exists|k: int|
                    0 <= k < out@.len() && (#[trigger] out@[k]).def == dd && out@[k].user == u,
        decreases n - d,
    {
        let list = &per_def[d];
        let ghost start = out@;
        let mut q: usize = 0;
        while q < list.len()
            invariant
                q <= list@.len(),
                *list == per_def@[d as int],
                d < n,
                n < 0x4000_0000,
                users_ok(*g, refs, d as u32, list@),
                out@.len() == start.len() + q,
                forall|k: int| 0 <= k < start.len() ==> out@[k] == start[k],
                forall|k: int| 0 <= k < start.len() ==> (#[trigger] start[k]).def < d,
                forall|p: int| 0 <= p < q ==> out@[start.len() + p] == (Call { def: d as u32, user: (#[trigger] list@[p]).0, kind: CallKind::Call, count: list@[p].1 }),
                forall|a: int, b: int| 0 <= a < b < out@.len() ==> call_lt(#[trigger] out@[a], #[trigger] out@[b]),
                forall|k: int|
                    0 <= k < out@.len() ==> {
                        &&& (#[trigger] out@[k]).kind == CallKind::Call
                        &&& pair_in(*g, refs, out@[k].def, out@[k].user)
                        &&& out@[k].count as nat == pair_sum(*g, refs, out@[k].def, out@[k].user)
                    },
            decreases list.len() - q,
        {
            let (u, c) = list[q];
            let ghost before = out@;
            out.push(Call { def: d as u32, user: u, kind: CallKind::Call, count: c });
            proof {
                assert forall|a: int, b: int| 0 <= a < b < out@.len() implies call_lt(#[trigger] out@[a], #[trigger] out@[b]) by {
                    if b < before.len() {
                        assert(out@[a] == before[a]);
                        assert(out@[b] == before[b]);
                    } else {
                        assert(out@[b].def == d && out@[b].user == list@[q as int].0);
                        if a < start.len() {
                            assert(out@[a] == start[a]);
                            assert(start[a].def < d);
                        } else {
                            let pa = a - start.len();
                            assert(out@[a] == before[a]);
                            assert(before[start.len() + pa] == (Call { def: d as u32, user: list@[pa].0, kind: CallKind::Call, count: list@[pa].1 }));
                            assert(list@[pa].0 < list@[q as int].0);
                        }
                    }
                }
                assert(out@[before.len() as int] == (Call { def: d as u32, user: list@[q as int].0, kind: CallKind::Call, count: list@[q as int].1 }));
            }
            q = q + 1;
        }
        proof {
            assert forall|k: int| 0 <= k < out@.len() implies (#[trigger] out@[k]).def < d + 1 by {
                if k < start.len() {
                    assert(out@[k] == start[k]);
                } else {
                    let p = k - start.len();
                    assert(out@[start.len() + p] == (Call { def: d as u32, user: list@[p].0, kind: CallKind::Call, count: list@[p].1 }));
                }
            }
            assert forall|dd: u32, u: u32|
                dd < d + 1 && pair_in(*g, refs, dd, u) implies exists|k: int|
                    0 <= k < out@.len() && (#[trigger] out@[k]).def == dd && out@[k].user == u by {
                if dd == d {
                    let p = choose|p: int| 0 <= p < list@.len() && (#[trigger] list@[p]).0 == u;
                    assert(out@[start.len() + p].def == dd && out@[start.len() + p].user == u);
                } else {
                    let k = choose|k: int| 0 <= k < start.len() && (#[trigger] start[k]).def == dd && start[k].user == u;
                    assert(out@[k] == start[k]);
                }
            }
        }
        d = d + 1;
    }
    proof {
        assert forall|dd: u32, u: u32| pair_in(*g, refs, dd, u) implies exists|k: int|
            0 <= k < out@.len() && (#[trigger] out@[k]).def == dd && out@[k].user == u by {
            let i = choose|i: int| 0 <= i < refs.len() && call_ref(*g, #[trigger] refs[i]) && refs[i].to == dd && refs[i].from == u;
            assert(dd < n);
        }
    }
    (out, recurses)
}

/// A reference that adds no call to `x`'s users leaves its list as it was.
proof fn lemma_users_unchanged(g: CodeGraph, refs: Seq<MarkRef>, r: MarkRef, x: u32, list: Seq<(u32, u32)>)
    requires
        users_ok(g, refs, x, list),
        !(call_ref(g, r) && r.to == x),
    ensures
        users_ok(g, refs.push(r), x, list),
{
    let nrefs = refs.push(r);
    assert(nrefs.drop_last() =~= refs);
    assert forall|u: u32| pair_in(g, nrefs, x, u) <==> pair_in(g, refs, x, u) by {
        if pair_in(g, refs, x, u) {
            let i = choose|i: int| 0 <= i < refs.len() && call_ref(g, #[trigger] refs[i]) && refs[i].to == x && refs[i].from == u;
            assert(nrefs[i] == refs[i]);
        }
        if pair_in(g, nrefs, x, u) {
            let i = choose|i: int| 0 <= i < nrefs.len() && call_ref(g, #[trigger] nrefs[i]) && nrefs[i].to == x && nrefs[i].from == u;
            if i < refs.len() {
                assert(refs[i] == nrefs[i]);
            }
        }
    }
    assert forall|u: u32| #![trigger pair_sum(g, nrefs, x, u)] pair_sum(g, nrefs, x, u) == pair_sum(g, refs, x, u) by {
    }
}

broadcast use vstd::std_specs::hash::group_hash_axioms;

/// The first clause of a trait, by its rows, that another method answers:
/// the same name, a different mark.
pub open spec fn first_clause(rows: Seq<MethodRow>, name: Seq<char>, mark: u32) -> Option<u32>
    decreases rows.len(),
{
    if rows.len() == 0 {
        None
    } else if rows[0].name@ == name && rows[0].mark != mark {
        Some(rows[0].mark)
    } else {
        first_clause(rows.drop_first(), name, mark)
    }
}

/// The (clause, answer) contracts one implementer's rows answer for one
/// trait: a row whose impl header promises the trait, matched to the
/// trait's clause of the same name.
pub open spec fn row_answers(promise: ItemMark, rows: Seq<MethodRow>) -> Seq<(u32, u32)>
    decreases rows.len(),
{
    if rows.len() == 0 {
        Seq::empty()
    } else {
        let rest = row_answers(promise, rows.drop_last());
        let row = rows.last();
        if spec_promises(row.section@) == Some(promise.head.name@) {
            match first_clause(promise.body.method_rows@, row.name@, row.mark) {
                Some(c) => rest.push((c, row.mark)),
                None => rest,
            }
        } else {
            rest
        }
    }
}

/// The contracts one impl edge carries.
pub open spec fn edge_answers(g: CodeGraph, e: ImplEdge) -> Seq<(u32, u32)> {
    if e.trait_mark < g.items@.len() && e.ty < g.items@.len() {
        row_answers(g.items@[e.trait_mark as int], g.items@[e.ty as int].body.method_rows@)
    } else {
        Seq::empty()
    }
}

/// Every (clause, answer) contract, impl edge by impl edge.
pub open spec fn spec_answers(g: CodeGraph, edges: Seq<ImplEdge>) -> Seq<(u32, u32)>
    decreases edges.len(),
{
    if edges.len() == 0 {
        Seq::empty()
    } else {
        spec_answers(g, edges.drop_last()) + edge_answers(g, edges.last())
    }
}

/// The first clause of `rows` that a method named `name` with mark `mark`
/// answers.
fn clause_for(rows: &Vec<MethodRow>, name: &String, mark: u32) -> (r: Option<u32>)
    ensures
        r == first_clause(rows@, name@, mark),
{
    let mut i: usize = 0;
    assert(rows@.skip(0) =~= rows@);
    while i < rows.len()
        invariant
            i <= rows@.len(),
            first_clause(rows@, name@, mark) == first_clause(rows@.skip(i as int), name@, mark),
        decreases rows.len() - i,
    {
        assert(rows@.skip(i as int)[0] == rows@[i as int]);
        assert(rows@.skip(i as int).drop_first() =~= rows@.skip(i + 1));
        if rows[i].name.eq(name) && rows[i].mark != mark {
            return Some(rows[i].mark);
        }
        i = i + 1;
    }
    None
}

/// Every (clause, answer) contract the survey's impls carry, in impl order.
pub fn answers(g: &CodeGraph) -> (out: Vec<(u32, u32)>)
    requires
        survey_fits(*g),
    ensures
        out@ == spec_answers(*g, g.implements@),
{
    let n = g.items.len();
    let mut out: Vec<(u32, u32)> = Vec::new();
    let mut i: usize = 0;
    assert(g.implements@.take(0) =~= Seq::<ImplEdge>::empty());
    while i < g.implements.len()
        invariant
            i <= g.implements@.len(),
            n == g.items@.len(),
            survey_fits(*g),
            out@ == spec_answers(*g, g.implements@.take(i as int)),
        decreases g.implements.len() - i,
    {
        let e = g.implements[i];
        let ghost start = out@;
        assert(g.implements@.take(i + 1).drop_last() =~= g.implements@.take(i as int));
        assert(g.implements@.take(i + 1).last() == e);
        if (e.trait_mark as usize) < n && (e.ty as usize) < n {
            let promise = &g.items[e.trait_mark as usize];
            let rows = &g.items[e.ty as usize].body.method_rows;
            let mut j: usize = 0;
            assert(rows@.take(0) =~= Seq::<MethodRow>::empty());
            while j < rows.len()
                invariant
                    j <= rows@.len(),
                    *rows == g.items@[e.ty as int].body.method_rows,
                    *promise == g.items@[e.trait_mark as int],
                    (e.ty as int) < g.items@.len(),
                    survey_fits(*g),
                    out@ == start + row_answers(*promise, rows@.take(j as int)),
                decreases rows.len() - j,
            {
                let row = &rows[j];
                assert(rows@.take(j + 1).drop_last() =~= rows@.take(j as int));
                assert(rows@.take(j + 1).last() == *row);
                assert(!empty_promise(row.section@)) by {
                    assert(g.items@[e.ty as int].body.method_rows@[j as int] == *row);
                }
                let ghost mid = out@;
                match row.promises() {
                    Some(p) => {
                        if same_text(p, promise.head.name.as_str()) {
                            match clause_for(&promise.body.method_rows, &row.name, row.mark) {
                                Some(c) => {
                                    out.push((c, row.mark));
                                    assert(out@ =~= start + row_answers(*promise, rows@.take(j + 1)));
                                },
                                None => {},
                            }
                        }
                    },
                    None => {},
                }
                j = j + 1;
            }
            assert(rows@.take(rows@.len() as int) =~= rows@);
            assert(out@ =~= spec_answers(*g, g.implements@.take(i + 1)));
        } else {
            assert(out@ =~= spec_answers(*g, g.implements@.take(i + 1)));
        }
        i = i + 1;
    }
    assert(g.implements@.take(g.implements@.len() as int) =~= g.implements@);
    out
}

/// Every contract joins two declarations of the survey.
pub proof fn lemma_answers_in_range(g: CodeGraph, edges: Seq<ImplEdge>)
    requires
        survey_fits(g),
    ensures
        forall|k: int| 0 <= k < spec_answers(g, edges).len() ==> (#[trigger] spec_answers(g, edges)[k]).0 < g.items@.len()
            && spec_answers(g, edges)[k].1 < g.items@.len(),
    decreases edges.len(),
{
    if edges.len() > 0 {
        lemma_answers_in_range(g, edges.drop_last());
        let e = edges.last();
        let prev = spec_answers(g, edges.drop_last());
        let here = edge_answers(g, e);
        if e.trait_mark < g.items@.len() && e.ty < g.items@.len() {
            lemma_row_answers_in_range(g, e.trait_mark as int, g.items@[e.ty as int].body.method_rows@, e.ty as int);
        }
        assert forall|k: int| 0 <= k < spec_answers(g, edges).len() implies (#[trigger] spec_answers(g, edges)[k]).0 < g.items@.len()
            && spec_answers(g, edges)[k].1 < g.items@.len() by {
            if k < prev.len() {
                assert(spec_answers(g, edges)[k] == prev[k]);
            } else {
                assert(spec_answers(g, edges)[k] == here[k - prev.len()]);
            }
        }
    }
}

proof fn lemma_first_clause_in(rows: Seq<MethodRow>, name: Seq<char>, mark: u32)
    ensures
        first_clause(rows, name, mark) matches Some(c) ==> exists|k: int| 0 <= k < rows.len() && rows[k].mark == c,
    decreases rows.len(),
{
    if rows.len() > 0 && !(rows[0].name@ == name && rows[0].mark != mark) {
        lemma_first_clause_in(rows.drop_first(), name, mark);
        if first_clause(rows, name, mark) is Some {
            let c = first_clause(rows, name, mark)->0;
            let k = choose|k: int| 0 <= k < rows.drop_first().len() && rows.drop_first()[k].mark == c;
            assert(rows[k + 1].mark == c);
        }
    }
}

proof fn lemma_row_answers_in_range(g: CodeGraph, t: int, rows: Seq<MethodRow>, ty: int)
    requires
        survey_fits(g),
        0 <= t < g.items@.len(),
        0 <= ty < g.items@.len(),
        rows.len() <= g.items@[ty].body.method_rows@.len(),
        forall|k: int| 0 <= k < rows.len() ==> rows[k] == g.items@[ty].body.method_rows@[k],
    ensures
        forall|k: int| 0 <= k < row_answers(g.items@[t], rows).len() ==> (#[trigger] row_answers(g.items@[t], rows)[k]).0
            < g.items@.len() && row_answers(g.items@[t], rows)[k].1 < g.items@.len(),
    decreases rows.len(),
{
    if rows.len() > 0 {
        lemma_row_answers_in_range(g, t, rows.drop_last(), ty);
        let row = rows.last();
        assert(row == g.items@[ty].body.method_rows@[rows.len() - 1]);
        assert(g.items@[ty].body.method_rows@[rows.len() - 1].mark < g.items@.len());
        let promise = g.items@[t];
        let rest = row_answers(promise, rows.drop_last());
        lemma_first_clause_in(promise.body.method_rows@, row.name@, row.mark);
        if first_clause(promise.body.method_rows@, row.name@, row.mark) is Some {
            let c = first_clause(promise.body.method_rows@, row.name@, row.mark)->0;
            let k = choose|k: int| 0 <= k < promise.body.method_rows@.len() && promise.body.method_rows@[k].mark == c;
            assert(g.items@[t].body.method_rows@[k].mark < g.items@.len());
        }
        assert forall|k: int| 0 <= k < row_answers(g.items@[t], rows).len() implies (#[trigger] row_answers(g.items@[t], rows)[k]).0
            < g.items@.len() && row_answers(g.items@[t], rows)[k].1 < g.items@.len() by {
            if k < rest.len() {
                assert(row_answers(g.items@[t], rows)[k] == rest[k]);
            }
        }
    }
}

/// A contract as ink: from the clause to the method that answers it.
pub open spec fn answer_call(a: (u32, u32)) -> Call {
    Call { def: a.0, user: a.1, kind: CallKind::Answers, count: 0 }
}

/// The order calls are listed in: callee, then caller, a call before a
/// contract.
pub open spec fn call_key(c: Call) -> Seq<u64> {
    seq![c.def as u64, c.user as u64, if c.kind == CallKind::Answers { 1u64 } else { 0u64 }]
}

pub open spec fn second<T>(e: (Vec<u64>, T)) -> T {
    e.1
}

/// Every call and every contract, in the order calls are listed in.
pub fn all_calls_of(pairs: &Vec<Call>, answers: &Vec<(u32, u32)>) -> (out: Vec<Call>)
    ensures
        out@.to_multiset() == (pairs@ + answers@.map_values(|a: (u32, u32)| answer_call(a))).to_multiset(),
        forall|a: int, b: int| 0 <= a < b < out@.len() ==> lex_le(call_key(#[trigger] out@[a]), call_key(#[trigger] out@[b])),
{
    let ghost want = pairs@ + answers@.map_values(|a: (u32, u32)| answer_call(a));
    let mut keyed: Vec<(Vec<u64>, Call)> = Vec::new();
    let mut i: usize = 0;
    while i < pairs.len()
        invariant
            i <= pairs@.len(),
            keyed@.len() == i,
            forall|k: int| 0 <= k < i ==> (#[trigger] keyed@[k]).1 == want[k] && keyed@[k].0@ == call_key(keyed@[k].1),
            want == pairs@ + answers@.map_values(|a: (u32, u32)| answer_call(a)),
        decreases pairs.len() - i,
    {
        let c = pairs[i];
        let kind: u64 = match c.kind {
            CallKind::Call => 0,
            CallKind::Answers => 1,
        };
        let key = vec![c.def as u64, c.user as u64, kind];
        assert(key@ =~= call_key(c));
        keyed.push((key, c));
        i = i + 1;
    }
    let mut j: usize = 0;
    while j < answers.len()
        invariant
            j <= answers@.len(),
            keyed@.len() == pairs@.len() + j,
            forall|k: int| 0 <= k < keyed@.len() ==> (#[trigger] keyed@[k]).1 == want[k] && keyed@[k].0@ == call_key(keyed@[k].1),
            want == pairs@ + answers@.map_values(|a: (u32, u32)| answer_call(a)),
        decreases answers.len() - j,
    {
        let (d, u) = answers[j];
        let c = Call { def: d, user: u, kind: CallKind::Answers, count: 0 };
        let key = vec![d as u64, u as u64, 1u64];
        assert(key@ =~= call_key(c));
        assert(want[pairs@.len() + j] == c);
        keyed.push((key, c));
        j = j + 1;
    }
    let ghost all = keyed@;
    assert(all.map_values(|e: (Vec<u64>, Call)| second(e)) =~= want);
    let sorted = sort_by_key(keyed);
    let ghost s = sorted@;
    proof {
        lemma_map_multiset(s, all, |e: (Vec<u64>, Call)| second(e));
        lemma_same_entries(s, all);
        assert forall|k: int| 0 <= k < s.len() implies (#[trigger] s[k]).0@ == call_key(s[k].1) by {
            assert(all.contains(s[k]));
            let q = choose|q: int| 0 <= q < all.len() && all[q] == s[k];
        }
    }
    let out = values_of(sorted);
    proof {
        assert(out@ =~= s.map_values(|e: (Vec<u64>, Call)| second(e)));
        assert forall|a: int, b: int| 0 <= a < b < out@.len() implies lex_le(call_key(#[trigger] out@[a]), call_key(#[trigger] out@[b])) by {
            assert(lex_le(s[a].0@, s[b].0@));
        }
    }
    out
}

/// A declaration the reading draws: it runs, and the slider admits it.
pub open spec fn drawn_id(g: CodeGraph, floor: VisFloor, id: u32) -> bool {
    callable_id(g, id as int) && floor.spec_admits(g.items@[id as int].head.vis)
}

/// The calls whose both ends the reading draws, in the order given.
pub open spec fn keep_drawn(g: CodeGraph, floor: VisFloor, s: Seq<Call>) -> Seq<Call>
    decreases s.len(),
{
    if s.len() == 0 {
        Seq::empty()
    } else {
        let rest = keep_drawn(g, floor, s.drop_last());
        let c = s.last();
        if drawn_id(g, floor, c.def) && drawn_id(g, floor, c.user) {
            rest.push(c)
        } else {
            rest
        }
    }
}

/// Whether the reading draws a declaration.
pub fn is_drawn(g: &CodeGraph, floor: VisFloor, id: u32) -> (b: bool)
    ensures
        b == drawn_id(*g, floor, id),
{
    (id as usize) < g.items.len() && g.items[id as usize].head.kind.is_callable() && floor.admits(
        g.items[id as usize].head.vis,
    )
}

/// The calls whose both ends the reading draws.
pub fn drawn_calls(g: &CodeGraph, floor: VisFloor, all: &Vec<Call>) -> (out: Vec<Call>)
    ensures
        out@ == keep_drawn(*g, floor, all@),
{
    let mut out: Vec<Call> = Vec::new();
    let mut i: usize = 0;
    while i < all.len()
        invariant
            i <= all@.len(),
            out@ == keep_drawn(*g, floor, all@.take(i as int)),
        decreases all.len() - i,
    {
        let c = all[i];
        assert(all@.take(i + 1).drop_last() =~= all@.take(i as int));
        assert(all@.take(i + 1).last() == c);
        if is_drawn(g, floor, c.def) && is_drawn(g, floor, c.user) {
            out.push(c);
        }
        i = i + 1;
    }
    assert(all@.take(all@.len() as int) =~= all@);
    out
}

/// `y` calls `x`, or `y` is the clause that `x` answers: a step of the
/// running order from `y` to `x`.
pub open spec fn caller_of(g: CodeGraph, x: u32, y: u32) -> bool {
    pair_in(g, g.refs@, x, y) || spec_answers(g, g.implements@).contains((y, x))
}

/// Both ends of every step of the running order are declarations of the
/// survey.
pub proof fn lemma_caller_in_range(g: CodeGraph)
    requires
        survey_fits(g),
    ensures
        forall|x: u32, y: u32| #[trigger] caller_of(g, x, y) ==> (x as int) < g.items@.len() && (y as int) < g.items@.len(),
{
    lemma_answers_in_range(g, g.implements@);
    assert forall|x: u32, y: u32| #[trigger] caller_of(g, x, y) implies (x as int) < g.items@.len() && (y as int) < g.items@.len() by {
        if pair_in(g, g.refs@, x, y) {
            let i = choose|i: int| 0 <= i < g.refs@.len() && call_ref(g, #[trigger] g.refs@[i]) && g.refs@[i].to == x && g.refs@[i].from == y;
        } else {
            let k = choose|k: int| 0 <= k < spec_answers(g, g.implements@).len() && spec_answers(g, g.implements@)[k] == (y, x);
            assert(spec_answers(g, g.implements@)[k].0 < g.items@.len());
        }
    }
}

/// Strictly ascending.
pub open spec fn ascending(v: Seq<u32>) -> bool {
    forall|a: int, b: int| 0 <= a < b < v.len() ==> v[a] < v[b]
}

/// A list of ids with one more, kept ascending and without repeats.
fn insert_sorted(list: &Vec<u32>, x: u32) -> (out: Vec<u32>)
    requires
        ascending(list@),
    ensures
        ascending(out@),
        forall|y: u32| out@.contains(y) <==> (list@.contains(y) || y == x),
{
    let mut q: usize = 0;
    while q < list.len() && list[q] < x
        invariant
            q <= list@.len(),
            forall|p: int| 0 <= p < q ==> list@[p] < x,
        decreases list.len() - q,
    {
        q = q + 1;
    }
    let mut out = copy_ids(list);
    if q < list.len() && list[q] == x {
        return out;
    }
    out.insert(q, x);
    proof {
        assert forall|a: int, b: int| 0 <= a < b < out@.len() implies out@[a] < out@[b] by {
            if b < q {
            } else if b == q {
                assert(out@[a] == list@[a]);
            } else if a < q {
                assert(out@[b] == list@[b - 1]);
                assert(list@[q as int] <= list@[b - 1]) by {
                    if b - 1 > q {
                        assert(list@[q as int] < list@[b - 1]);
                    }
                }
            } else if a == q {
                assert(out@[b] == list@[b - 1]);
                assert(list@[q as int] <= list@[b - 1]) by {
                    if b - 1 > q {
                        assert(list@[q as int] < list@[b - 1]);
                    }
                }
            } else {
                assert(out@[a] == list@[a - 1]);
                assert(out@[b] == list@[b - 1]);
            }
        }
        assert forall|y: u32| out@.contains(y) <==> (list@.contains(y) || y == x) by {
            if list@.contains(y) {
                let p = choose|p: int| 0 <= p < list@.len() && list@[p] == y;
                if p < q {
                    assert(out@[p] == y);
                } else {
                    assert(out@[p + 1] == y);
                }
            }
            if y == x {
                assert(out@[q as int] == y);
            }
            if out@.contains(y) {
                let p = choose|p: int| 0 <= p < out@.len() && out@[p] == y;
                if p < q {
                    assert(list@[p] == y);
                } else if p > q {
                    assert(list@[p - 1] == y);
                }
            }
        }
    }
    out
}

/// A copy of a list of ids.
pub fn copy_ids(v: &Vec<u32>) -> (out: Vec<u32>)
    ensures
        out@ == v@,
{
    let mut out: Vec<u32> = Vec::new();
    let mut i: usize = 0;
    while i < v.len()
        invariant
            i <= v@.len(),
            out@ == v@.take(i as int),
        decreases v.len() - i,
    {
        out.push(v[i]);
        i = i + 1;
        assert(out@ =~= v@.take(i as int));
    }
    assert(v@.take(v@.len() as int) =~= v@);
    out
}

/// Both directions of the running order, by declaration: what steps into
/// each one, and what each one steps into, ascending and without repeats.
pub fn adjacency(g: &CodeGraph, pairs: &Vec<Call>, ans: &Vec<(u32, u32)>) -> (out: (Vec<Vec<u32>>, Vec<Vec<u32>>))
    requires
        survey_fits(*g),
        forall|k: int| 0 <= k < pairs@.len() ==> pair_in(*g, g.refs@, (#[trigger] pairs@[k]).def, pairs@[k].user),
        forall|d: u32, u: u32|
            pair_in(*g, g.refs@, d, u) ==> exists|k: int|
                0 <= k < pairs@.len() && (#[trigger] pairs@[k]).def == d && pairs@[k].user == u,
        ans@ == spec_answers(*g, g.implements@),
    ensures
        out.0@.len() == g.items@.len(),
        out.1@.len() == g.items@.len(),
        forall|x: int| 0 <= x < g.items@.len() ==> ascending((#[trigger] out.0@[x])@),
        forall|x: int| 0 <= x < g.items@.len() ==> ascending((#[trigger] out.1@[x])@),
        forall|x: int, y: u32| 0 <= x < g.items@.len() ==> (#[trigger] out.0@[x]@.contains(y) <==> caller_of(*g, x as u32, y)),
        forall|y: int, x: u32| 0 <= y < g.items@.len() ==> (#[trigger] out.1@[y]@.contains(x) <==> caller_of(*g, x, y as u32)),
{
    let n = g.items.len();
    proof {
        lemma_answers_in_range(*g, g.implements@);
        assert forall|k: int| 0 <= k < pairs@.len() implies (#[trigger] pairs@[k]).def < n && pairs@[k].user < n by {
            let i = choose|i: int| 0 <= i < g.refs@.len() && call_ref(*g, #[trigger] g.refs@[i]) && g.refs@[i].to == pairs@[k].def && g.refs@[i].from == pairs@[k].user;
        }
    }
    let mut ins: Vec<Vec<u32>> = Vec::new();
    let mut outs: Vec<Vec<u32>> = Vec::new();
    let mut d: usize = 0;
    while d < n
        invariant
            d <= n,
            ins@.len() == d,
            outs@.len() == d,
            forall|x: int| 0 <= x < d ==> (#[trigger] ins@[x])@.len() == 0,
            forall|x: int| 0 <= x < d ==> (#[trigger] outs@[x])@.len() == 0,
        decreases n - d,
    {
        ins.push(Vec::new());
        outs.push(Vec::new());
        d = d + 1;
    }
    let mut i: usize = 0;
    while i < pairs.len()
        invariant
            i <= pairs@.len(),
            n == g.items@.len(),
            n < 0x4000_0000,
            forall|k: int| 0 <= k < pairs@.len() ==> (#[trigger] pairs@[k]).def < n && pairs@[k].user < n,
            ins@.len() == n,
            outs@.len() == n,
            forall|x: int| 0 <= x < n ==> ascending((#[trigger] ins@[x])@),
            forall|x: int| 0 <= x < n ==> ascending((#[trigger] outs@[x])@),
            forall|x: int, y: u32| 0 <= x < n ==> (#[trigger] ins@[x]@.contains(y) <==> exists|k: int|
                0 <= k < i && (#[trigger] pairs@[k]).def == x && pairs@[k].user == y),
            forall|y: int, x: u32| 0 <= y < n ==> (#[trigger] outs@[y]@.contains(x) <==> exists|k: int|
                0 <= k < i && (#[trigger] pairs@[k]).def == x && pairs@[k].user == y),
        decreases pairs.len() - i,
    {
        let c = pairs[i];
        let ghost old_ins = ins@;
        let ghost old_outs = outs@;
        let a = insert_sorted(&ins[c.def as usize], c.user);
        ins.set(c.def as usize, a);
        let b = insert_sorted(&outs[c.user as usize], c.def);
        outs.set(c.user as usize, b);
        proof {
            assert forall|x: int| 0 <= x < n implies ascending((#[trigger] ins@[x])@) by {
                if x != c.def {
                    assert(ins@[x] == old_ins[x]);
                }
            }
            assert forall|x: int| 0 <= x < n implies ascending((#[trigger] outs@[x])@) by {
                if x != c.user {
                    assert(outs@[x] == old_outs[x]);
                }
            }
            assert forall|x: int, y: u32| 0 <= x < n implies (#[trigger] ins@[x]@.contains(y) <==> exists|k: int|
                0 <= k < i + 1 && (#[trigger] pairs@[k]).def == x && pairs@[k].user == y) by {
                if x != c.def {
                    assert(ins@[x] == old_ins[x]);
                }
                if exists|k: int| 0 <= k < i + 1 && (#[trigger] pairs@[k]).def == x && pairs@[k].user == y {
                    let k = choose|k: int| 0 <= k < i + 1 && (#[trigger] pairs@[k]).def == x && pairs@[k].user == y;
                    if k < i {
                        assert(old_ins[x]@.contains(y));
                    }
                }
                if x == c.def && y == c.user {
                    assert(pairs@[i as int].def == x && pairs@[i as int].user == y);
                }
            }
            assert forall|y: int, x: u32| 0 <= y < n implies (#[trigger] outs@[y]@.contains(x) <==> exists|k: int|
                0 <= k < i + 1 && (#[trigger] pairs@[k]).def == x && pairs@[k].user == y) by {
                if y != c.user {
                    assert(outs@[y] == old_outs[y]);
                }
                if exists|k: int| 0 <= k < i + 1 && (#[trigger] pairs@[k]).def == x && pairs@[k].user == y {
                    let k = choose|k: int| 0 <= k < i + 1 && (#[trigger] pairs@[k]).def == x && pairs@[k].user == y;
                    if k < i {
                        assert(old_outs[y]@.contains(x));
                    }
                }
                if y == c.user && x == c.def {
                    assert(pairs@[i as int].def == x && pairs@[i as int].user == y);
                }
            }
        }
        i = i + 1;
    }
    let mut j: usize = 0;
    while j < ans.len()
        invariant
            j <= ans@.len(),
            n == g.items@.len(),
            n < 0x4000_0000,
            forall|k: int| 0 <= k < ans@.len() ==> (#[trigger] ans@[k]).0 < n && ans@[k].1 < n,
            ins@.len() == n,
            outs@.len() == n,
            forall|x: int| 0 <= x < n ==> ascending((#[trigger] ins@[x])@),
            forall|x: int| 0 <= x < n ==> ascending((#[trigger] outs@[x])@),
            forall|x: int, y: u32| 0 <= x < n ==> (#[trigger] ins@[x]@.contains(y) <==> (exists|k: int|
                0 <= k < pairs@.len() && (#[trigger] pairs@[k]).def == x && pairs@[k].user == y) || ans@.take(j as int).contains((y, x as u32))),
            forall|y: int, x: u32| 0 <= y < n ==> (#[trigger] outs@[y]@.contains(x) <==> (exists|k: int|
                0 <= k < pairs@.len() && (#[trigger] pairs@[k]).def == x && pairs@[k].user == y) || ans@.take(j as int).contains((y as u32, x))),
        decreases ans.len() - j,
    {
        let (cl, an) = ans[j];
        let ghost old_ins = ins@;
        let ghost old_outs = outs@;
        let ghost t0 = ans@.take(j as int);
        let ghost t1 = ans@.take(j + 1);
        assert(t1 =~= t0.push((cl, an)));
        let a = insert_sorted(&ins[an as usize], cl);
        ins.set(an as usize, a);
        let b = insert_sorted(&outs[cl as usize], an);
        outs.set(cl as usize, b);
        proof {
            assert forall|p: (u32, u32)| t1.contains(p) <==> (t0.contains(p) || p == (cl, an)) by {
                if t1.contains(p) {
                    let q = choose|q: int| 0 <= q < t1.len() && t1[q] == p;
                    if q < t0.len() {
                        assert(t0[q] == p);
                    }
                }
                if t0.contains(p) {
                    let q = choose|q: int| 0 <= q < t0.len() && t0[q] == p;
                    assert(t1[q] == p);
                }
                if p == (cl, an) {
                    assert(t1[j as int] == p);
                }
            }
            assert forall|x: int| 0 <= x < n implies ascending((#[trigger] ins@[x])@) by {
                if x != an {
                    assert(ins@[x] == old_ins[x]);
                }
            }
            assert forall|x: int| 0 <= x < n implies ascending((#[trigger] outs@[x])@) by {
                if x != cl {
                    assert(outs@[x] == old_outs[x]);
                }
            }
            assert forall|x: int, y: u32| 0 <= x < n implies (#[trigger] ins@[x]@.contains(y) <==> (exists|k: int|
                0 <= k < pairs@.len() && (#[trigger] pairs@[k]).def == x && pairs@[k].user == y) || t1.contains((y, x as u32))) by {
                if x != an {
                    assert(ins@[x] == old_ins[x]);
                }
            }
            assert forall|y: int, x: u32| 0 <= y < n implies (#[trigger] outs@[y]@.contains(x) <==> (exists|k: int|
                0 <= k < pairs@.len() && (#[trigger] pairs@[k]).def == x && pairs@[k].user == y) || t1.contains((y as u32, x))) by {
                if y != cl {
                    assert(outs@[y] == old_outs[y]);
                }
            }
        }
        j = j + 1;
    }
    proof {
        assert(ans@.take(ans@.len() as int) =~= ans@);
        assert forall|x: int, y: u32| 0 <= x < n implies (#[trigger] ins@[x]@.contains(y) <==> caller_of(*g, x as u32, y)) by {
            if pair_in(*g, g.refs@, x as u32, y) {
                let k = choose|k: int| 0 <= k < pairs@.len() && (#[trigger] pairs@[k]).def == x as u32 && pairs@[k].user == y;
            }
        }
        assert forall|y: int, x: u32| 0 <= y < n implies (#[trigger] outs@[y]@.contains(x) <==> caller_of(*g, x, y as u32)) by {
            if pair_in(*g, g.refs@, x, y as u32) {
                let k = choose|k: int| 0 <= k < pairs@.len() && (#[trigger] pairs@[k]).def == x && pairs@[k].user == y as u32;
            }
        }
    }
    (ins, outs)
}

/// What steps into each declaration, by id, for those that something
/// steps into.
pub fn callers_map(ins: &Vec<Vec<u32>>) -> (m: HashMap<u32, Vec<u32>>)
    requires
        ins@.len() < 0x1_0000_0000,
    ensures
        forall|x: u32| #[trigger] m@.contains_key(x) <==> ((x as int) < ins@.len() && ins@[x as int]@.len() > 0),
        forall|x: u32| #[trigger] m@.contains_key(x) ==> m@[x]@ == ins@[x as int]@,
{
    let mut m: HashMap<u32, Vec<u32>> = HashMap::new();
    let mut x: usize = 0;
    while x < ins.len()
        invariant
            x <= ins@.len(),
            ins@.len() < 0x1_0000_0000,
            forall|y: u32| #[trigger] m@.contains_key(y) <==> ((y as int) < x && ins@[y as int]@.len() > 0),
            forall|y: u32| #[trigger] m@.contains_key(y) ==> m@[y]@ == ins@[y as int]@,
        decreases ins.len() - x,
    {
        if ins[x].len() > 0 {
            let v = copy_ids(&ins[x]);
            m.insert(x as u32, v);
        }
        x = x + 1;
    }
    m
}

} // verus!
