//! How much each mark reaches by the way in: the shortest way something
//! that starts gets to each mark, walked as a forest, and every mark's count
//! of what hangs under it there.

use std::collections::HashMap;

use vstd::prelude::*;

use crate::reach::step;

verus! {

broadcast use vstd::std_specs::hash::group_hash_axioms;

/// `p` comes before `x` in the walk.
pub open spec fn before_in(order: Seq<u32>, p: u32, x: u32) -> bool {
    exists|i: int, j: int| 0 <= i < j < order.len() && #[trigger] order[i] == p && #[trigger] order[j] == x
}

/// What the marks after position `k` of the walk that hang directly under
/// `x` carry: one each, and what each carries.
pub open spec fn under_sum(order: Seq<u32>, parent: Seq<Option<u32>>, runs: Seq<u32>, x: u32, k: int) -> int
    decreases order.len() - k,
{
    if k >= order.len() || k < 0 {
        0
    } else {
        under_sum(order, parent, runs, x, k + 1) + if parent[order[k] as int] == Some(x) {
            1 + runs[order[k] as int]
        } else {
            0int
        }
    }
}

/// The way in as a forest: each mark's parent is a mark that calls it and
/// comes earlier in the walk; what nothing calls has no parent; and each
/// mark's count is one for every mark directly under it plus that mark's
/// own count.
pub open spec fn way_in_fits(
    on: Seq<bool>,
    ground: Seq<bool>,
    callees: Map<u32, Vec<u32>>,
    order: Seq<u32>,
    parent: Seq<Option<u32>>,
    runs: Seq<u32>,
) -> bool {
    &&& order.no_duplicates()
    &&& forall|x: u32| (x as int) < on.len() ==> (on[x as int] <==> order.contains(x))
    &&& forall|k: int| 0 <= k < order.len() ==> (#[trigger] order[k] as int) < on.len()
    &&& parent.len() == on.len()
    &&& runs.len() == on.len()
    &&& forall|x: int| 0 <= x < on.len() && (#[trigger] parent[x]) is Some ==> {
        let p = parent[x]->0;
        &&& on[x] && (p as int) < on.len() && on[p as int]
        &&& step(callees, p, x as u32)
        &&& before_in(order, p, x as u32)
    }
    &&& forall|x: int| 0 <= x < on.len() && #[trigger] ground[x] ==> parent[x] is None
    &&& forall|x: int| 0 <= x < on.len() && #[trigger] on[x] ==> runs[x] as int == under_sum(order, parent, runs, x as u32, 0)
}

/// The weight the counting keeps constant: what is still open counts its
/// own tally, a finished top of a tree counts itself and its tally.
spec fn weight(done: Seq<bool>, parent: Seq<Option<u32>>, reach: Seq<u32>, z: int) -> int {
    if done[z] {
        if parent[z] is None { 1 + reach[z] as int } else { 0 }
    } else {
        reach[z] as int
    }
}

spec fn wsum(done: Seq<bool>, parent: Seq<Option<u32>>, reach: Seq<u32>, m: int) -> int
    decreases m,
{
    if m <= 0 { 0 } else { wsum(done, parent, reach, m - 1) + weight(done, parent, reach, m - 1) }
}

proof fn lemma_wsum_nonneg_parts(done: Seq<bool>, parent: Seq<Option<u32>>, reach: Seq<u32>, m: int, z: int)
    requires
        0 <= z < m,
    ensures
        wsum(done, parent, reach, m) >= weight(done, parent, reach, z),
    decreases m,
{
    if m - 1 > z {
        lemma_wsum_nonneg_parts(done, parent, reach, m - 1, z);
    }
    lemma_wsum_nonneg(done, parent, reach, m - 1);
}

proof fn lemma_wsum_nonneg(done: Seq<bool>, parent: Seq<Option<u32>>, reach: Seq<u32>, m: int)
    ensures
        wsum(done, parent, reach, m) >= 0,
    decreases m,
{
    if m > 0 {
        lemma_wsum_nonneg(done, parent, reach, m - 1);
    }
}

proof fn lemma_wsum_change(
    d1: Seq<bool>, p1: Seq<Option<u32>>, r1: Seq<u32>,
    d2: Seq<bool>, p2: Seq<Option<u32>>, r2: Seq<u32>,
    m: int, i: int,
)
    requires
        0 <= i < m,
        forall|z: int| 0 <= z < m && z != i ==> weight(d1, p1, r1, z) == weight(d2, p2, r2, z),
    ensures
        wsum(d2, p2, r2, m) == wsum(d1, p1, r1, m) - weight(d1, p1, r1, i) + weight(d2, p2, r2, i),
    decreases m,
{
    if m - 1 > i {
        lemma_wsum_change(d1, p1, r1, d2, p2, r2, m - 1, i);
    } else {
        lemma_wsum_same(d1, p1, r1, d2, p2, r2, m - 1);
    }
}

proof fn lemma_wsum_same(
    d1: Seq<bool>, p1: Seq<Option<u32>>, r1: Seq<u32>,
    d2: Seq<bool>, p2: Seq<Option<u32>>, r2: Seq<u32>,
    m: int,
)
    requires
        forall|z: int| 0 <= z < m ==> weight(d1, p1, r1, z) == weight(d2, p2, r2, z),
    ensures
        wsum(d2, p2, r2, m) == wsum(d1, p1, r1, m),
    decreases m,
{
    if m > 0 {
        lemma_wsum_same(d1, p1, r1, d2, p2, r2, m - 1);
    }
}

proof fn lemma_wsum_zero(done: Seq<bool>, parent: Seq<Option<u32>>, reach: Seq<u32>, m: int)
    requires
        forall|z: int| 0 <= z < m ==> !done[z] && reach[z] == 0,
    ensures
        wsum(done, parent, reach, m) == 0,
    decreases m,
{
    if m > 0 {
        lemma_wsum_zero(done, parent, reach, m - 1);
    }
}

proof fn lemma_under_sum_same(order: Seq<u32>, parent: Seq<Option<u32>>, r1: Seq<u32>, r2: Seq<u32>, x: u32, k: int)
    requires
        forall|j: int| k <= j < order.len() ==> r1[order[j] as int] == r2[order[j] as int],
    ensures
        under_sum(order, parent, r1, x, k) == under_sum(order, parent, r2, x, k),
    decreases order.len() - k,
{
    if 0 <= k < order.len() {
        lemma_under_sum_same(order, parent, r1, r2, x, k + 1);
    }
}

/// What a breadth-first walk makes of the call `order[k]` to `c`: where
/// `c` has a parent, the parent stands at or before `k` in the walk (the
/// first caller the walk reached); where it has none, `c` is ground or was
/// itself seeded at or before `k`.
pub open spec fn first_reached(order: Seq<u32>, parent: Seq<Option<u32>>, ground: Seq<bool>, c: u32, k: int) -> bool {
    match parent[c as int] {
        Some(p) => forall|k2: int| 0 <= k2 < order.len() && #[trigger] order[k2] == p ==> k2 <= k,
        None => ground[c as int] || forall|k2: int| 0 <= k2 < order.len() && #[trigger] order[k2] == c ==> k2 <= k,
    }
}

/// The walk is breadth first over its first `upto` marks: each call they
/// make to a mark on the paper lands where [`first_reached`] says.
pub open spec fn walked_first(
    on: Seq<bool>,
    ground: Seq<bool>,
    callees: Map<u32, Vec<u32>>,
    order: Seq<u32>,
    parent: Seq<Option<u32>>,
    upto: int,
) -> bool {
    forall|k: int, c: u32| 0 <= k < upto && k < order.len() && #[trigger] step(callees, order[k], c) && (c as int) < on.len()
        && on[c as int] ==> first_reached(order, parent, ground, c, k)
}

/// Every call the first `upto` marks of the walk make to a mark on the
/// paper has been seen.
pub open spec fn walked_closed(on: Seq<bool>, callees: Map<u32, Vec<u32>>, order: Seq<u32>, seen: Seq<bool>, upto: int) -> bool {
    forall|k: int, c: u32| 0 <= k < upto && k < order.len() && #[trigger] step(callees, order[k], c) && (c as int) < on.len()
        && on[c as int] ==> seen[c as int]
}

/// Walks the callees of the marks in `order` from position `head` on,
/// adding every mark not yet seen, as a kid of the mark it was reached from.
fn grow(
    n: usize,
    on: &Vec<bool>,
    ground: &Vec<bool>,
    callees: &HashMap<u32, Vec<u32>>,
    seen: &mut Vec<bool>,
    parent: &mut Vec<Option<u32>>,
    order: &mut Vec<u32>,
    head: usize,
)
    requires
        n == on@.len(),
        n == ground@.len(),
        n < 0x4000_0000,
        old(seen)@.len() == n,
        old(parent)@.len() == n,
        head <= old(order)@.len(),
        walk_ok(on@, ground@, callees@, old(seen)@, old(parent)@, old(order)@),
        forall|x: int| 0 <= x < n && #[trigger] ground[x] ==> old(seen)@[x],
        walked_closed(on@, callees@, old(order)@, old(seen)@, head as int),
        walked_first(on@, ground@, callees@, old(order)@, old(parent)@, head as int),
        parents_before(old(parent)@, old(order)@, n as int, head as int),
        seeds_before(old(parent)@, old(order)@, ground@, head as int),
    ensures
        final(seen)@.len() == n,
        final(parent)@.len() == n,
        walk_ok(on@, ground@, callees@, final(seen)@, final(parent)@, final(order)@),
        forall|x: int| 0 <= x < n && #[trigger] old(seen)@[x] ==> final(seen)@[x],
        forall|k: int| 0 <= k < old(order)@.len() ==> final(order)@[k] == old(order)@[k],
        old(order)@.len() <= final(order)@.len(),
        forall|k: int| old(order)@.len() <= k < final(order)@.len() ==> !ground@[#[trigger] final(order)@[k] as int]
            && final(parent)@[final(order)@[k] as int] is Some,
        forall|k: int| 0 <= k < old(order)@.len() ==> final(parent)@[#[trigger] old(order)@[k] as int] == old(parent)@[old(order)@[k] as int],
        walked_closed(on@, callees@, final(order)@, final(seen)@, final(order)@.len() as int),
        walked_first(on@, ground@, callees@, final(order)@, final(parent)@, final(order)@.len() as int),
{
    let mut at_k: usize = head;
    while at_k < order.len()
        invariant
            n == on@.len(),
            n == ground@.len(),
            n < 0x4000_0000,
            seen@.len() == n,
            parent@.len() == n,
            at_k <= order@.len(),
            walk_ok(on@, ground@, callees@, seen@, parent@, order@),
            forall|x: int| 0 <= x < n && #[trigger] ground[x] ==> seen@[x],
            forall|x: int| 0 <= x < n && #[trigger] old(seen)@[x] ==> seen@[x],
            forall|k: int| 0 <= k < old(order)@.len() ==> order@[k] == old(order)@[k],
            old(order)@.len() <= order@.len(),
            forall|k: int| old(order)@.len() <= k < order@.len() ==> !ground@[#[trigger] order@[k] as int]
                && parent@[order@[k] as int] is Some,
            forall|k: int| 0 <= k < old(order)@.len() ==> parent@[#[trigger] old(order)@[k] as int] == old(parent)@[old(order)@[k] as int],
            head <= at_k,
            walked_closed(on@, callees@, order@, seen@, at_k as int),
            walked_first(on@, ground@, callees@, order@, parent@, at_k as int),
            parents_before(parent@, order@, n as int, at_k as int),
            seeds_before(parent@, order@, ground@, head as int),
        decreases n - at_k, n - order@.len(),
    {
        proof {
            crate::reach::lemma_distinct_below(order@, n as nat);
        }
        let at = order[at_k];
        assert(order@[at_k as int] == at);
        at_k = at_k + 1;
        match callees.get(&at) {
            None => {
                proof {
                    assert forall|k: int, c: u32| 0 <= k < at_k && k < order@.len() && #[trigger] step(callees@, order@[k], c)
                        && (c as int) < n && on@[c as int] implies seen@[c as int] && first_reached(order@, parent@, ground@, c, k) by {
                        if k == at_k - 1 {
                            assert(!callees@.contains_key(at));
                        }
                    }
                }
            },
            Some(list) => {
                let mut i: usize = 0;
                while i < list.len()
                    invariant
                        callees@.contains_key(at),
                        callees@[at] == *list,
                        i <= list@.len(),
                        n == on@.len(),
                        n == ground@.len(),
                        n < 0x4000_0000,
                        seen@.len() == n,
                        parent@.len() == n,
                        1 <= at_k <= order@.len(),
                        order@[at_k - 1] == at,
                        walk_ok(on@, ground@, callees@, seen@, parent@, order@),
                        forall|x: int| 0 <= x < n && #[trigger] ground[x] ==> seen@[x],
                        forall|x: int| 0 <= x < n && #[trigger] old(seen)@[x] ==> seen@[x],
                        forall|k: int| 0 <= k < old(order)@.len() ==> order@[k] == old(order)@[k],
                        old(order)@.len() <= order@.len(),
                        forall|k: int| old(order)@.len() <= k < order@.len() ==> !ground@[#[trigger] order@[k] as int]
                            && parent@[order@[k] as int] is Some,
                        forall|k: int| 0 <= k < old(order)@.len() ==> parent@[#[trigger] old(order)@[k] as int] == old(parent)@[old(order)@[k] as int],
                        head <= at_k - 1,
                        walked_closed(on@, callees@, order@, seen@, at_k - 1),
                        walked_first(on@, ground@, callees@, order@, parent@, at_k - 1),
                        forall|q: int| 0 <= q < i && (#[trigger] list@[q] as int) < n && on@[list@[q] as int] ==> seen@[list@[q] as int]
                            && first_reached(order@, parent@, ground@, list@[q], at_k - 1),
                        parents_before(parent@, order@, n as int, at_k as int),
                        seeds_before(parent@, order@, ground@, head as int),
                    decreases list.len() - i,
                {
                    let callee = list[i];
                    if (callee as usize) < n && on[callee as usize] && !seen[callee as usize] {
                        let ghost o0 = order@;
                        let ghost s0 = seen@;
                        let ghost p0 = parent@;
                        proof {
                            assert(!o0.contains(callee));
                            crate::reach::lemma_distinct_below(o0, n as nat);
                            assert(step(callees@, at, callee)) by {
                                assert(list@[i as int] == callee);
                            }
                            lemma_push_first(on@, ground@, callees@, s0, p0, o0, at_k - 1, callee, head as int);
                        }
                        seen.set(callee as usize, true);
                        parent.set(callee as usize, Some(at));
                        order.push(callee);
                        proof {
                            assert(order@ == o0.push(callee));
                            assert(order@[at_k - 1] == o0[at_k - 1]);
                            lemma_walk_push(on@, ground@, callees@, s0, p0, o0, at, (at_k - 1) as int, callee);
                            assert(!ground@[callee as int]);
                            assert forall|k: int| old(order)@.len() <= k < order@.len() implies !ground@[#[trigger] order@[k] as int]
                                && parent@[order@[k] as int] is Some by {
                                if k < o0.len() {
                                    assert(order@[k] == o0[k]);
                                    assert(o0[k] != callee) by {
                                        assert(o0.contains(o0[k]));
                                    }
                                }
                            }
                            assert forall|k: int| 0 <= k < old(order)@.len() implies parent@[#[trigger] old(order)@[k] as int] == old(parent)@[old(order)@[k] as int] by {
                                assert(o0[k] == old(order)@[k]);
                                assert(o0[k] != callee) by {
                                    assert(o0.contains(o0[k]));
                                }
                            }
                            assert forall|q: int| 0 <= q < i + 1 && (#[trigger] list@[q] as int) < n && on@[list@[q] as int]
                                implies seen@[list@[q] as int] && first_reached(order@, parent@, ground@, list@[q], at_k - 1) by {
                                if q < i {
                                    assert(s0[list@[q] as int]);
                                    let c2 = list@[q];
                                    if p0[c2 as int] is Some {
                                        let pq = p0[c2 as int]->0;
                                        let (i1, j1) = choose|i1: int, j1: int| 0 <= i1 < j1 < o0.len() && #[trigger] o0[i1] == pq && #[trigger] o0[j1] == c2;
                                        assert(o0.contains(pq));
                                    }
                                    lemma_first_extend(o0, p0, ground@, c2, at_k - 1, callee, Some(at));
                                }
                            }
                        }
                    } else {
                        proof {
                            if (callee as int) < n && on@[callee as int] {
                                lemma_seen_first(order@, parent@, ground@, callee, at_k - 1, head as int, n as int);
                            }
                        }
                    }
                    i = i + 1;
                }
                proof {
                    assert forall|k: int, c: u32| 0 <= k < at_k && k < order@.len() && #[trigger] step(callees@, order@[k], c)
                        && (c as int) < n && on@[c as int] implies seen@[c as int] && first_reached(order@, parent@, ground@, c, k) by {
                        if k == at_k - 1 {
                            let q = choose|q: int| 0 <= q < list@.len() && list@[q] == c;
                        }
                    }
                }
            },
        }
    }
}

/// Where the parent of a mark stands in the walk, and where the marks with
/// no parent do.
pub open spec fn parents_before(parent: Seq<Option<u32>>, order: Seq<u32>, n: int, bound: int) -> bool {
    forall|x: int, k2: int| 0 <= x < n && 0 <= k2 < order.len() && #[trigger] parent[x] == Some(#[trigger] order[k2])
        ==> k2 < bound
}

pub open spec fn seeds_before(parent: Seq<Option<u32>>, order: Seq<u32>, ground: Seq<bool>, head: int) -> bool {
    forall|k2: int| 0 <= k2 < order.len() && (#[trigger] parent[order[k2] as int]) is None
        ==> ground[order[k2] as int] || k2 <= head
}

/// A mark the walk has already met, called again from position `a`.
proof fn lemma_seen_first(
    order: Seq<u32>,
    parent: Seq<Option<u32>>,
    ground: Seq<bool>,
    c: u32,
    a: int,
    head: int,
    n: int,
)
    requires
        0 <= c < n,
        parents_before(parent, order, n, a + 1),
        seeds_before(parent, order, ground, head),
        head <= a,
    ensures
        first_reached(order, parent, ground, c, a),
{
    match parent[c as int] {
        Some(q) => {
            assert forall|k2: int| 0 <= k2 < order.len() && #[trigger] order[k2] == q implies k2 <= a by {
                assert(parent[c as int] == Some(order[k2]));
            }
        },
        None => {
            assert forall|k2: int| 0 <= k2 < order.len() && #[trigger] order[k2] == c implies ground[c as int] || k2 <= a by {
                assert(parent[order[k2] as int] is None);
            }
        },
    }
}

/// A call that [`first_reached`] accounts for stays accounted for when the
/// walk meets another mark.
proof fn lemma_first_extend(
    order: Seq<u32>,
    parent: Seq<Option<u32>>,
    ground: Seq<bool>,
    c2: u32,
    k: int,
    c: u32,
    np: Option<u32>,
)
    requires
        first_reached(order, parent, ground, c2, k),
        c2 != c,
        !order.contains(c),
        (c2 as int) < parent.len(),
        (c as int) < parent.len(),
        parent[c2 as int] matches Some(q) ==> order.contains(q),
    ensures
        first_reached(order.push(c), parent.update(c as int, np), ground, c2, k),
{
    let o1 = order.push(c);
    let p1 = parent.update(c as int, np);
    assert(p1[c2 as int] == parent[c2 as int]);
    match parent[c2 as int] {
        Some(q) => {
            assert forall|k2: int| 0 <= k2 < o1.len() && #[trigger] o1[k2] == q implies k2 <= k by {
                if k2 < order.len() {
                    assert(order[k2] == q);
                } else {
                    assert(o1[k2] == c);
                }
            }
        },
        None => {
            if !ground[c2 as int] {
                assert forall|k2: int| 0 <= k2 < o1.len() && #[trigger] o1[k2] == c2 implies k2 <= k by {
                    if k2 < order.len() {
                        assert(order[k2] == c2);
                    }
                }
            }
        },
    }
}

/// Meeting a new mark from position `a` keeps the walk breadth first.
#[verifier::rlimit(40)]
#[verifier::spinoff_prover]
proof fn lemma_push_first(
    on: Seq<bool>,
    ground: Seq<bool>,
    callees: Map<u32, Vec<u32>>,
    seen: Seq<bool>,
    parent: Seq<Option<u32>>,
    order: Seq<u32>,
    a: int,
    c: u32,
    head: int,
)
    requires
        walk_ok(on, ground, callees, seen, parent, order),
        seen.len() == on.len(),
        parent.len() == on.len(),
        0 <= a < order.len(),
        (c as int) < on.len(),
        !seen[c as int],
        walked_closed(on, callees, order, seen, a),
        walked_first(on, ground, callees, order, parent, a),
        parents_before(parent, order, on.len() as int, a + 1),
        seeds_before(parent, order, ground, head),
    ensures
        walked_closed(on, callees, order.push(c), seen.update(c as int, true), a),
        walked_first(on, ground, callees, order.push(c), parent.update(c as int, Some(order[a])), a),
        parents_before(parent.update(c as int, Some(order[a])), order.push(c), on.len() as int, a + 1),
        seeds_before(parent.update(c as int, Some(order[a])), order.push(c), ground, head),
        first_reached(order.push(c), parent.update(c as int, Some(order[a])), ground, c, a),
        !order.contains(c),
{
    let o1 = order.push(c);
    let s1 = seen.update(c as int, true);
    let p1 = parent.update(c as int, Some(order[a]));
    let n = on.len() as int;
    assert(!order.contains(c));
    assert forall|k: int, c2: u32| 0 <= k < a && k < o1.len() && #[trigger] step(callees, o1[k], c2) && (c2 as int) < n
        && on[c2 as int] implies s1[c2 as int] by {
        assert(o1[k] == order[k]);
        assert(step(callees, order[k], c2));
    }
    assert forall|k: int, c2: u32| 0 <= k < a && k < o1.len() && #[trigger] step(callees, o1[k], c2) && (c2 as int) < n
        && on[c2 as int] implies first_reached(o1, p1, ground, c2, k) by {
        assert(o1[k] == order[k]);
        assert(step(callees, order[k], c2));
        assert(seen[c2 as int]);
        if parent[c2 as int] is Some {
            let q = parent[c2 as int]->0;
            let (i, j) = choose|i: int, j: int| 0 <= i < j < order.len() && #[trigger] order[i] == q && #[trigger] order[j] == c2;
            assert(order.contains(q));
        }
        lemma_first_extend(order, parent, ground, c2, k, c, Some(order[a]));
    }
    assert forall|x: int, k2: int| 0 <= x < n && 0 <= k2 < o1.len() && #[trigger] p1[x] == Some(#[trigger] o1[k2])
        implies k2 < a + 1 by {
        if x == c as int {
            if k2 < order.len() {
                assert(order[k2] == order[a]);
            } else {
                assert(o1[k2] == c);
                assert(order.contains(order[a]));
            }
        } else {
            assert(p1[x] == parent[x]);
            if k2 < order.len() {
                assert(o1[k2] == order[k2]);
            } else {
                assert(o1[k2] == c);
                let (i, j) = choose|i: int, j: int| 0 <= i < j < order.len() && #[trigger] order[i] == c && #[trigger] order[j] == x as u32;
                assert(order.contains(c));
            }
        }
    }
    assert forall|k2: int| 0 <= k2 < o1.len() && (#[trigger] p1[o1[k2] as int]) is None
        implies ground[o1[k2] as int] || k2 <= head by {
        if k2 < order.len() {
            assert(o1[k2] == order[k2]);
            assert(order[k2] != c) by {
                assert(order.contains(order[k2]));
            }
            assert(p1[order[k2] as int] == parent[order[k2] as int]);
        } else {
            assert(o1[k2] == c);
        }
    }
    assert forall|k2: int| 0 <= k2 < o1.len() && #[trigger] o1[k2] == order[a] implies k2 <= a by {
        if k2 < order.len() {
            assert(o1[k2] == order[k2]);
        } else {
            assert(o1[k2] == c);
            assert(order.contains(order[a]));
        }
    }
}

/// Seeding the walk afresh from a mark it has not met keeps it breadth
/// first: nothing walked so far calls that mark.
#[verifier::rlimit(40)]
#[verifier::spinoff_prover]
proof fn lemma_seed_first(
    on: Seq<bool>,
    ground: Seq<bool>,
    callees: Map<u32, Vec<u32>>,
    seen: Seq<bool>,
    parent: Seq<Option<u32>>,
    order: Seq<u32>,
    id: u32,
)
    requires
        walk_ok(on, ground, callees, seen, parent, order),
        seen.len() == on.len(),
        parent.len() == on.len(),
        (id as int) < on.len(),
        !seen[id as int],
        walked_closed(on, callees, order, seen, order.len() as int),
        walked_first(on, ground, callees, order, parent, order.len() as int),
        parents_before(parent, order, on.len() as int, order.len() as int),
    ensures
        walked_closed(on, callees, order.push(id), seen.update(id as int, true), order.len() as int),
        walked_first(on, ground, callees, order.push(id), parent, order.len() as int),
        parents_before(parent, order.push(id), on.len() as int, order.len() as int),
        seeds_before(parent, order.push(id), ground, order.len() as int),
{
    let o1 = order.push(id);
    let s1 = seen.update(id as int, true);
    let n = on.len() as int;
    assert(!order.contains(id));
    assert forall|k: int, c2: u32| 0 <= k < order.len() && k < o1.len() && #[trigger] step(callees, o1[k], c2) && (c2 as int) < n
        && on[c2 as int] implies s1[c2 as int] by {
        assert(o1[k] == order[k]);
        assert(step(callees, order[k], c2));
    }
    assert forall|k: int, c2: u32| 0 <= k < order.len() && k < o1.len() && #[trigger] step(callees, o1[k], c2) && (c2 as int) < n
        && on[c2 as int] implies first_reached(o1, parent, ground, c2, k) by {
        assert(o1[k] == order[k]);
        assert(step(callees, order[k], c2));
        assert(seen[c2 as int]);
        if parent[c2 as int] is Some {
            let q = parent[c2 as int]->0;
            let (i, j) = choose|i: int, j: int| 0 <= i < j < order.len() && #[trigger] order[i] == q && #[trigger] order[j] == c2;
            assert(order.contains(q));
        }
        lemma_first_extend(order, parent, ground, c2, k, id, parent[id as int]);
        assert(parent.update(id as int, parent[id as int]) =~= parent);
    }
    assert forall|x: int, k2: int| 0 <= x < n && 0 <= k2 < o1.len() && #[trigger] parent[x] == Some(#[trigger] o1[k2])
        implies k2 < order.len() by {
        if k2 == order.len() {
            assert(o1[k2] == id);
            let (i, j) = choose|i: int, j: int| 0 <= i < j < order.len() && #[trigger] order[i] == id && #[trigger] order[j] == x as u32;
            assert(order.contains(id));
        } else {
            assert(o1[k2] == order[k2]);
        }
    }
}

/// The walk is seeded as it should be: the ground marks first, in id
/// order; every other mark with no parent is the lowest mark on the paper
/// that the walk had not met when it was seeded.
pub open spec fn seeded_in_order(on: Seq<bool>, ground: Seq<bool>, order: Seq<u32>, parent: Seq<Option<u32>>) -> bool {
    &&& forall|a: int, b: int| 0 <= a < b < order.len() && ground[#[trigger] order[b] as int] ==> ground[#[trigger] order[a] as int]
        && order[a] < order[b]
    &&& forall|k2: int, z: u32|
        #![trigger order[k2], on[z as int]]
        0 <= k2 < order.len() && parent[order[k2] as int] is None && !ground[order[k2] as int] && z < order[k2] && (z as int)
            < on.len() && on[z as int] ==> exists|k3: int| 0 <= k3 < k2 && order[k3] == z
}

/// Growing the walk from its seeds keeps its seeding.
proof fn lemma_seeded_grow(
    on: Seq<bool>,
    ground: Seq<bool>,
    o0: Seq<u32>,
    p0: Seq<Option<u32>>,
    o1: Seq<u32>,
    p1: Seq<Option<u32>>,
)
    requires
        seeded_in_order(on, ground, o0, p0),
        o0.len() <= o1.len(),
        forall|k: int| 0 <= k < o0.len() ==> #[trigger] o1[k] == o0[k],
        forall|k: int| o0.len() <= k < o1.len() ==> !ground[#[trigger] o1[k] as int] && p1[o1[k] as int] is Some,
        forall|k: int| 0 <= k < o0.len() ==> p1[#[trigger] o0[k] as int] == p0[o0[k] as int],
    ensures
        seeded_in_order(on, ground, o1, p1),
{
    assert forall|a: int, b: int| 0 <= a < b < o1.len() && ground[#[trigger] o1[b] as int] implies ground[#[trigger] o1[a] as int]
        && o1[a] < o1[b] by {
        assert(b < o0.len());
        assert(o1[a] == o0[a] && o1[b] == o0[b]);
    }
    assert forall|k2: int, z: u32|
        #![trigger o1[k2], on[z as int]]
        0 <= k2 < o1.len() && p1[o1[k2] as int] is None && !ground[o1[k2] as int] && z < o1[k2] && (z as int) < on.len()
            && on[z as int] implies exists|k3: int| 0 <= k3 < k2 && o1[k3] == z by {
        assert(k2 < o0.len());
        assert(o1[k2] == o0[k2]);
        assert(p0[o0[k2] as int] is None);
        let k3 = choose|k3: int| 0 <= k3 < k2 && o0[k3] == z;
        assert(o1[k3] == z);
    }
}

/// Seeding the walk afresh from the lowest mark it has not met keeps its
/// seeding.
proof fn lemma_seeded_push(
    on: Seq<bool>,
    ground: Seq<bool>,
    callees: Map<u32, Vec<u32>>,
    seen: Seq<bool>,
    parent: Seq<Option<u32>>,
    order: Seq<u32>,
    id: u32,
)
    requires
        walk_ok(on, ground, callees, seen, parent, order),
        seeded_in_order(on, ground, order, parent),
        seen.len() == on.len(),
        parent.len() == on.len(),
        ground.len() == on.len(),
        (id as int) < on.len(),
        !seen[id as int],
        forall|x: int| 0 <= x < on.len() && #[trigger] ground[x] ==> seen[x],
        forall|z: int| 0 <= z < id && #[trigger] on[z] ==> seen[z],
    ensures
        seeded_in_order(on, ground, order.push(id), parent),
{
    let o1 = order.push(id);
    assert(!order.contains(id));
    assert(!ground[id as int]);
    assert(parent[id as int] is None) by {
        if parent[id as int] is Some {
            assert(seen[id as int]);
        }
    }
    assert forall|a: int, b: int| 0 <= a < b < o1.len() && ground[#[trigger] o1[b] as int] implies ground[#[trigger] o1[a] as int]
        && o1[a] < o1[b] by {
        assert(b < order.len());
        assert(o1[a] == order[a] && o1[b] == order[b]);
    }
    assert forall|k2: int, z: u32|
        #![trigger o1[k2], on[z as int]]
        0 <= k2 < o1.len() && parent[o1[k2] as int] is None && !ground[o1[k2] as int] && z < o1[k2] && (z as int) < on.len()
            && on[z as int] implies exists|k3: int| 0 <= k3 < k2 && o1[k3] == z by {
        if k2 < order.len() {
            assert(o1[k2] == order[k2]);
            let k3 = choose|k3: int| 0 <= k3 < k2 && order[k3] == z;
            assert(o1[k3] == z);
        } else {
            assert(o1[k2] == id);
            assert(seen[z as int]);
            assert(order.contains(z));
            let k3 = choose|k3: int| 0 <= k3 < order.len() && order[k3] == z;
            assert(o1[k3] == z);
        }
    }
}

/// What the walk keeps true as it grows: the order holds the seen marks
/// once each, and every parent is a caller seen earlier.
pub open spec fn walk_ok(
    on: Seq<bool>,
    ground: Seq<bool>,
    callees: Map<u32, Vec<u32>>,
    seen: Seq<bool>,
    parent: Seq<Option<u32>>,
    order: Seq<u32>,
) -> bool {
    &&& order.no_duplicates()
    &&& forall|k: int| 0 <= k < order.len() ==> (#[trigger] order[k] as int) < on.len() && on[order[k] as int]
    &&& forall|x: u32| (x as int) < seen.len() ==> (seen[x as int] <==> order.contains(x))
    &&& forall|x: int| 0 <= x < parent.len() && (#[trigger] parent[x]) is Some ==> {
        let p = parent[x]->0;
        &&& (p as int) < on.len() && on[p as int] && seen[x]
        &&& step(callees, p, x as u32)
        &&& before_in(order, p, x as u32)
    }
    &&& forall|x: int| 0 <= x < parent.len() && #[trigger] ground[x] ==> parent[x] is None
}

proof fn lemma_walk_push(
    on: Seq<bool>,
    ground: Seq<bool>,
    callees: Map<u32, Vec<u32>>,
    seen: Seq<bool>,
    parent: Seq<Option<u32>>,
    order: Seq<u32>,
    at: u32,
    at_k: int,
    callee: u32,
)
    requires
        walk_ok(on, ground, callees, seen, parent, order),
        seen.len() == on.len(),
        parent.len() == on.len(),
        ground.len() == on.len(),
        0 <= at_k < order.len(),
        order[at_k] == at,
        (callee as int) < on.len(),
        on[callee as int],
        !seen[callee as int],
        step(callees, at, callee),
        forall|x: int| 0 <= x < on.len() && #[trigger] ground[x] ==> seen[x],
    ensures
        walk_ok(on, ground, callees, seen.update(callee as int, true), parent.update(callee as int, Some(at)),
            order.push(callee)),
{
    let s2 = seen.update(callee as int, true);
    let p2 = parent.update(callee as int, Some(at));
    let o2 = order.push(callee);
    assert(!order.contains(callee));
    assert(o2.no_duplicates()) by {
        assert forall|a: int, b: int| 0 <= a < o2.len() && 0 <= b < o2.len() && a != b implies o2[a] != o2[b] by {
            if a < order.len() && b < order.len() {
                assert(order[a] != order[b]);
            } else if a < order.len() {
                assert(order.contains(order[a]));
            } else if b < order.len() {
                assert(order.contains(order[b]));
            }
        }
    }
    assert forall|x: u32| (x as int) < s2.len() implies (s2[x as int] <==> o2.contains(x)) by {
        if order.contains(x) {
            let k = choose|k: int| 0 <= k < order.len() && order[k] == x;
            assert(o2[k] == x);
        }
        if x == callee {
            assert(o2[order.len() as int] == x);
        }
        if o2.contains(x) {
            let k = choose|k: int| 0 <= k < o2.len() && o2[k] == x;
            if k < order.len() {
                assert(order[k] == x);
            }
        }
    }
    assert forall|x: int| 0 <= x < p2.len() && (#[trigger] p2[x]) is Some implies {
        let p = p2[x]->0;
        &&& (p as int) < on.len() && on[p as int] && s2[x]
        &&& step(callees, p, x as u32)
        &&& before_in(o2, p, x as u32)
    } by {
        if x == callee {
            assert(o2[at_k] == at && o2[order.len() as int] == callee);
            assert(at_k < order.len());
        } else {
            let p = parent[x]->0;
            let (i, j) = choose|i: int, j: int| 0 <= i < j < order.len() && #[trigger] order[i] == p && #[trigger] order[j] == x as u32;
            assert(o2[i] == p && o2[j] == x as u32);
        }
    }
    assert forall|x: int| 0 <= x < p2.len() && #[trigger] ground[x] implies p2[x] is None by {
        if x == callee {
            assert(seen[x]);
        }
    }
}

/// How much each mark reaches by the way in: the walk seeded from what
/// nothing on the paper calls, in id order, then from each mark the walk
/// has not met yet, lowest id first, so a ring counts once; then every
/// mark's count of what hangs under it.
pub fn way_in_reach(on: &Vec<bool>, ground: &Vec<bool>, callees: &HashMap<u32, Vec<u32>>) -> (out: (Vec<u32>, Ghost<Seq<u32>>, Ghost<Seq<Option<u32>>>))
    requires
        on@.len() == ground@.len(),
        on@.len() < 0x4000_0000,
        forall|x: int| 0 <= x < on@.len() && #[trigger] ground@[x] ==> on@[x],
    ensures
        way_in_fits(on@, ground@, callees@, out.1@, out.2@, out.0@),
        walked_first(on@, ground@, callees@, out.1@, out.2@, out.1@.len() as int),
        seeded_in_order(on@, ground@, out.1@, out.2@),
{
    let n = on.len();
    let mut seen: Vec<bool> = Vec::new();
    let mut parent: Vec<Option<u32>> = Vec::new();
    let mut order: Vec<u32> = Vec::new();
    let mut x: usize = 0;
    while x < n
        invariant
            x <= n,
            n == on@.len(),
            seen@.len() == x,
            parent@.len() == x,
            forall|z: int| 0 <= z < x ==> !(#[trigger] seen@[z]),
            forall|z: int| 0 <= z < x ==> (#[trigger] parent@[z]) is None,
        decreases n - x,
    {
        seen.push(false);
        parent.push(None);
        x = x + 1;
    }
    let mut id: usize = 0;
    while id < n
        invariant
            id <= n,
            n == on@.len(),
            n == ground@.len(),
            n < 0x4000_0000,
            seen@.len() == n,
            parent@.len() == n,
            forall|z: int| 0 <= z < n ==> #[trigger] parent@[z] is None,
            forall|z: int| 0 <= z < n ==> (#[trigger] seen@[z] <==> (z < id && ground@[z])),
            forall|k: int| 0 <= k < order@.len() ==> (#[trigger] order@[k] as int) < id && ground@[order@[k] as int],
            forall|x: int| 0 <= x < on@.len() && #[trigger] ground@[x] ==> on@[x],
            forall|a: int, b: int| 0 <= a < b < order@.len() ==> (#[trigger] order@[a]) < (#[trigger] order@[b]),
            forall|z: u32| (z as int) < n ==> (seen@[z as int] <==> order@.contains(z)),
        decreases n - id,
    {
        let ghost o0 = order@;
        if ground[id] {
            seen.set(id, true);
            order.push(id as u32);
            proof {
                assert forall|z: u32| (z as int) < n implies (seen@[z as int] <==> order@.contains(z)) by {
                    if o0.contains(z) {
                        let k = choose|k: int| 0 <= k < o0.len() && o0[k] == z;
                        assert(order@[k] == z);
                    }
                    if z == id {
                        assert(order@[o0.len() as int] == z);
                    }
                    if order@.contains(z) {
                        let k = choose|k: int| 0 <= k < order@.len() && order@[k] == z;
                        if k < o0.len() {
                            assert(o0[k] == z);
                        }
                    }
                }
            }
        }
        id = id + 1;
    }
    proof {
        assert(order@.no_duplicates()) by {
            assert forall|a: int, b: int| 0 <= a < order@.len() && 0 <= b < order@.len() && a != b implies order@[a] != order@[b] by {
                if a < b {
                    assert(order@[a] < order@[b]);
                } else {
                    assert(order@[b] < order@[a]);
                }
            }
        }
    }
    let ghost s_seeded = seen@;
    proof {
        assert forall|x: int| 0 <= x < n && #[trigger] ground@[x] implies seen@[x] by {
            assert(seen@[x] <==> (x < n && ground@[x]));
        }
        assert forall|x: int| 0 <= x < parent@.len() && #[trigger] ground@[x] implies parent@[x] is None by {
            assert(parent@[x] is None);
        }
        assert forall|k: int| 0 <= k < order@.len() implies (#[trigger] order@[k] as int) < on@.len() && on@[order@[k] as int] by {
            assert(ground@[order@[k] as int]);
        }
        assert(walk_ok(on@, ground@, callees@, seen@, parent@, order@));
        assert(parents_before(parent@, order@, n as int, 0));
        assert(seeds_before(parent@, order@, ground@, 0)) by {
            assert forall|k2: int| 0 <= k2 < order@.len() && (#[trigger] parent@[order@[k2] as int]) is None
                implies ground@[order@[k2] as int] || k2 <= 0 by {
                assert(ground@[order@[k2] as int]);
            }
        }
    }
    let ghost o_g = order@;
    let ghost p_g = parent@;
    proof {
        assert(seeded_in_order(on@, ground@, o_g, p_g)) by {
            assert forall|k2: int, z: u32|
                #![trigger o_g[k2], on@[z as int]]
                0 <= k2 < o_g.len() && p_g[o_g[k2] as int] is None && !ground@[o_g[k2] as int] && z < o_g[k2] && (z as int)
                    < on@.len() && on@[z as int] implies exists|k3: int| 0 <= k3 < k2 && o_g[k3] == z by {
                assert(ground@[o_g[k2] as int]);
            }
        }
    }
    grow(n, on, ground, callees, &mut seen, &mut parent, &mut order, 0);
    proof {
        lemma_seeded_grow(on@, ground@, o_g, p_g, order@, parent@);
    }
    proof {
        assert forall|x: int| 0 <= x < n && #[trigger] ground@[x] implies seen@[x] by {
            assert(s_seeded[x]);
        }
    }
    let mut id: usize = 0;
    while id < n
        invariant
            id <= n,
            n == on@.len(),
            n == ground@.len(),
            n < 0x4000_0000,
            seen@.len() == n,
            parent@.len() == n,
            walk_ok(on@, ground@, callees@, seen@, parent@, order@),
            forall|x: int| 0 <= x < n && #[trigger] ground@[x] ==> seen@[x],
            forall|z: int| 0 <= z < id && #[trigger] on@[z] ==> seen@[z],
            walked_closed(on@, callees@, order@, seen@, order@.len() as int),
            walked_first(on@, ground@, callees@, order@, parent@, order@.len() as int),
            parents_before(parent@, order@, n as int, order@.len() as int),
            seeded_in_order(on@, ground@, order@, parent@),
        decreases n - id,
    {
        if on[id] && !seen[id] {
            let ghost o0 = order@;
            let ghost s0 = seen@;
            let start = order.len();
            proof {
                crate::reach::lemma_distinct_below(o0, n as nat);
                lemma_walk_seed(on@, ground@, callees@, s0, parent@, o0, id as u32);
                lemma_seed_first(on@, ground@, callees@, s0, parent@, o0, id as u32);
                lemma_seeded_push(on@, ground@, callees@, s0, parent@, o0, id as u32);
            }
            seen.set(id, true);
            order.push(id as u32);
            let ghost s1 = seen@;
            let ghost o1 = order@;
            let ghost p1 = parent@;
            grow(n, on, ground, callees, &mut seen, &mut parent, &mut order, start);
            proof {
                lemma_seeded_grow(on@, ground@, o1, p1, order@, parent@);
                assert forall|x: int| 0 <= x < n && #[trigger] ground@[x] implies seen@[x] by {
                    assert(s0[x]);
                    assert(s1[x]);
                }
                assert forall|z: int| 0 <= z < id + 1 && #[trigger] on@[z] implies seen@[z] by {
                    if z < id {
                        assert(s0[z]);
                    }
                    assert(s1[z]);
                }
            }
        }
        id = id + 1;
    }
    // Count what hangs under each mark, deepest first.
    let mut reach: Vec<u32> = Vec::new();
    let mut done: Vec<bool> = Vec::new();
    let mut z: usize = 0;
    while z < n
        invariant
            z <= n,
            reach@.len() == z,
            done@.len() == z,
            forall|q: int| 0 <= q < z ==> #[trigger] reach@[q] == 0 && !done@[q],
            walked_first(on@, ground@, callees@, order@, parent@, order@.len() as int),
            seeded_in_order(on@, ground@, order@, parent@),
        decreases n - z,
    {
        reach.push(0);
        done.push(false);
        z = z + 1;
    }
    proof {
        assert forall|q: int| 0 <= q < n implies !done@[q] && reach@[q] == 0 by {
            assert(reach@[q] == 0);
        }
        assert forall|j: int| 0 <= j < order@.len() implies (done@[order@[j] as int] <==> j >= order@.len()) by {
            assert(reach@[order@[j] as int] == 0);
        }
        lemma_wsum_zero(done@, parent@, reach@, n as int);
        crate::reach::lemma_distinct_below(order@, n as nat);
    }
    let ghost ord = order@;
    let ghost par = parent@;
    let mut k: usize = order.len();
    while k > 0
        invariant
            k <= ord.len(),
            ord == order@,
            par == parent@,
            walked_first(on@, ground@, callees@, ord, par, ord.len() as int),
            seeded_in_order(on@, ground@, ord, par),
            ord.len() <= n,
            n == on@.len(),
            n < 0x4000_0000,
            reach@.len() == n,
            done@.len() == n,
            parent@.len() == n,
            walk_ok(on@, ground@, callees@, seen@, parent@, order@),
            forall|j: int| 0 <= j < ord.len() ==> (done@[ord[j] as int] <==> j >= k),
            forall|q: int| 0 <= q < n && !ord.contains(q as u32) ==> !(#[trigger] done@[q]) && reach@[q] == 0,
            wsum(done@, par, reach@, n as int) == ord.len() - k,
            forall|x: u32| (x as int) < n ==> reach@[x as int] as int == under_sum(ord, par, reach@, x, k as int),
        decreases k,
    {
        k = k - 1;
        let y = order[k];
        let ghost d0 = done@;
        let ghost r0 = reach@;
        proof {
            assert(!d0[y as int]);
            lemma_wsum_nonneg_parts(d0, par, r0, n as int, y as int);
        }
        done.set(y as usize, true);
        let ghost d1 = done@;
        proof {
            lemma_wsum_change(d0, par, r0, d1, par, r0, n as int, y as int);
        }
        match parent[y as usize] {
            None => {
                proof {
                    lemma_under_sum_same(ord, par, r0, reach@, 0, 0);
                }
            },
            Some(p) => {
                proof {
                    let (i, j) = choose|i: int, j: int| 0 <= i < j < ord.len() && #[trigger] ord[i] == p && #[trigger] ord[j] == y;
                    assert(j == k) by {
                        if j != k {
                            assert(ord[j] != ord[k as int]);
                        }
                    }
                    assert(!d1[p as int]);
                    lemma_wsum_nonneg_parts(d1, par, r0, n as int, p as int);
                }
                let add = 1 + reach[y as usize];
                reach.set(p as usize, reach[p as usize] + add);
                proof {
                    lemma_wsum_change(d1, par, r0, d1, par, reach@, n as int, p as int);
                }
            },
        }
        proof {
            assert forall|q: int| 0 <= q < n && !ord.contains(q as u32) implies !(#[trigger] done@[q]) && reach@[q] == 0 by {
                assert(q != y as int) by {
                    assert(ord[k as int] == y);
                }
                assert(done@[q] == d0[q]);
                assert(!d0[q] && r0[q] == 0);
                if par[y as int] is Some {
                    let p = par[y as int]->0;
                    let (i, j) = choose|i: int, j: int| 0 <= i < j < ord.len() && #[trigger] ord[i] == p && #[trigger] ord[j] == y;
                    assert(q != p as int);
                }
                assert(reach@[q] == r0[q]);
            }
            assert forall|x: u32| (x as int) < n implies reach@[x as int] as int == under_sum(ord, par, reach@, x, k as int) by {
                lemma_under_sum_same(ord, par, r0, reach@, x, k + 1);
                assert(ord[k as int] == y);
                if par[y as int] is Some {
                    let p = par[y as int]->0;
                    assert(reach@[y as int] == r0[y as int]) by {
                        assert(p != y) by {
                            let (i, j) = choose|i: int, j: int| 0 <= i < j < ord.len() && #[trigger] ord[i] == p && #[trigger] ord[j] == y;
                            assert(ord[i] != ord[j]);
                        }
                    }
                }
            }
            assert forall|j: int| 0 <= j < ord.len() implies (done@[ord[j] as int] <==> j >= k) by {
                if j != k {
                    assert(ord[j] != ord[k as int]);
                }
            }
        }
    }
    proof {
        assert forall|x: int| 0 <= x < n && #[trigger] on@[x] implies reach@[x] as int == under_sum(ord, par, reach@, x as u32, 0) by {
        }
    }
    (reach, Ghost(order@), Ghost(parent@))
}

proof fn lemma_walk_seed(
    on: Seq<bool>,
    ground: Seq<bool>,
    callees: Map<u32, Vec<u32>>,
    seen: Seq<bool>,
    parent: Seq<Option<u32>>,
    order: Seq<u32>,
    id: u32,
)
    requires
        walk_ok(on, ground, callees, seen, parent, order),
        seen.len() == on.len(),
        parent.len() == on.len(),
        (id as int) < on.len(),
        on[id as int],
        !seen[id as int],
    ensures
        walk_ok(on, ground, callees, seen.update(id as int, true), parent, order.push(id)),
{
    let s2 = seen.update(id as int, true);
    let o2 = order.push(id);
    assert(!order.contains(id));
    assert(o2.no_duplicates()) by {
        assert forall|a: int, b: int| 0 <= a < o2.len() && 0 <= b < o2.len() && a != b implies o2[a] != o2[b] by {
            if a < order.len() && b < order.len() {
                assert(order[a] != order[b]);
            } else if a < order.len() {
                assert(order.contains(order[a]));
            } else if b < order.len() {
                assert(order.contains(order[b]));
            }
        }
    }
    assert forall|x: u32| (x as int) < s2.len() implies (s2[x as int] <==> o2.contains(x)) by {
        if order.contains(x) {
            let k = choose|k: int| 0 <= k < order.len() && order[k] == x;
            assert(o2[k] == x);
        }
        if x == id {
            assert(o2[order.len() as int] == x);
        }
        if o2.contains(x) {
            let k = choose|k: int| 0 <= k < o2.len() && o2[k] == x;
            if k < order.len() {
                assert(order[k] == x);
            }
        }
    }
    assert forall|x: int| 0 <= x < parent.len() && (#[trigger] parent[x]) is Some implies {
        let p = parent[x]->0;
        &&& (p as int) < on.len() && on[p as int] && s2[x]
        &&& step(callees, p, x as u32)
        &&& before_in(o2, p, x as u32)
    } by {
        let p = parent[x]->0;
        let (i, j) = choose|i: int, j: int| 0 <= i < j < order.len() && #[trigger] order[i] == p && #[trigger] order[j] == x as u32;
        assert(o2[i] == p && o2[j] == x as u32);
    }
}

} // verus!
