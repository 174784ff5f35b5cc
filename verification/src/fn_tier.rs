//! Where each declaration stands in the running order: an entry point where
//! nothing steps into it, else as many steps in as the shortest way from an
//! entry point, else in a ring nothing reaches.

use vstd::prelude::*;

use crate::fn_calls::{callable_id, caller_of};
use crate::survey::CodeGraph;

verus! {

/// An entry point: a declaration that runs and that nothing steps into.
pub open spec fn is_entry(g: CodeGraph, x: int) -> bool {
    callable_id(g, x) && forall|y: u32| !#[trigger] caller_of(g, x as u32, y)
}

/// A depth for each declaration is the shortest way in: entry points at
/// zero, every other reached declaration one step past some declaration a
/// step shallower, and no step ever skips a depth.
pub open spec fn shortest_way_in(g: CodeGraph, depth: Seq<Option<u32>>) -> bool {
    &&& depth.len() == g.items@.len()
    &&& forall|x: int| 0 <= x < depth.len() ==> (#[trigger] depth[x] == Some(0u32) <==> is_entry(g, x))
    &&& forall|x: int|
        0 <= x < depth.len() && (#[trigger] depth[x]) is Some && depth[x]->0 > 0 ==> exists|y: int|
            0 <= y < depth.len() && caller_of(g, x as u32, y as u32) && #[trigger] depth[y] == Some(
                (depth[x]->0 - 1) as u32,
            )
    &&& forall|x: int, y: int|
        0 <= x < depth.len() && 0 <= y < depth.len() && (#[trigger] depth[y]) is Some && #[trigger] caller_of(
            g,
            x as u32,
            y as u32,
        ) ==> depth[x] is Some && depth[x]->0 <= depth[y]->0 + 1
}

spec fn dep(depth: Seq<Option<u32>>, x: u32) -> int {
    depth[x as int]->0 as int
}

/// The depth of every declaration by the shortest way in from an entry
/// point, over both families of ink; `None` for what no entry reaches.
#[verifier::rlimit(80)]
#[verifier::spinoff_prover]
pub fn depths(
    g: &CodeGraph,
    ins: &Vec<Vec<u32>>,
    outs: &Vec<Vec<u32>>,
) -> (depth: Vec<Option<u32>>)
    requires
        g.items@.len() < 0x4000_0000,
        ins@.len() == g.items@.len(),
        outs@.len() == g.items@.len(),
        forall|x: int, y: u32| 0 <= x < g.items@.len() ==> (#[trigger] ins@[x]@.contains(y) <==> caller_of(*g, x as u32, y)),
        forall|y: int, x: u32| 0 <= y < g.items@.len() ==> (#[trigger] outs@[y]@.contains(x) <==> caller_of(*g, x, y as u32)),
        forall|x: u32, y: u32| #[trigger] caller_of(*g, x, y) ==> (x as int) < g.items@.len() && (y as int) < g.items@.len(),
    ensures
        shortest_way_in(*g, depth@),
        forall|x: int| 0 <= x < depth@.len() && (#[trigger] depth@[x]) is Some ==> (depth@[x]->0 as int) < depth@.len(),
{
    let n = g.items.len();
    let mut depth: Vec<Option<u32>> = Vec::new();
    let mut queue: Vec<u32> = Vec::new();
    let mut x: usize = 0;
    while x < n
        invariant
            x <= n,
            n == g.items@.len(),
            n < 0x4000_0000,
            ins@.len() == n,
            forall|a: int, y: u32| 0 <= a < n ==> (#[trigger] ins@[a]@.contains(y) <==> caller_of(*g, a as u32, y)),
            depth@.len() == x,
            forall|a: int| 0 <= a < x ==> (#[trigger] depth@[a] == Some(0u32) <==> is_entry(*g, a)),
            forall|a: int| 0 <= a < x ==> (#[trigger] depth@[a] is Some ==> depth@[a] == Some(0u32)),
            forall|k: int| 0 <= k < queue@.len() ==> (#[trigger] queue@[k]) < x && depth@[queue@[k] as int] == Some(0u32),
            forall|a: int| 0 <= a < x && #[trigger] depth@[a] is Some ==> queue@.contains(a as u32),
            forall|a: int, b: int| 0 <= a < b < queue@.len() ==> (#[trigger] queue@[a]) < (#[trigger] queue@[b]),
        decreases n - x,
    {
        let entry = g.items[x].head.kind.is_callable() && ins[x].len() == 0;
        let ghost dq = depth@;
        let ghost qq = queue@;
        proof {
            if g.items@[x as int].head.kind.spec_callable() && ins@[x as int]@.len() == 0 {
                assert forall|y: u32| !#[trigger] caller_of(*g, x as u32, y) by {
                    if caller_of(*g, x as u32, y) {
                        assert(ins@[x as int]@.contains(y));
                    }
                }
            }
            if is_entry(*g, x as int) {
                if ins@[x as int]@.len() > 0 {
                    assert(ins@[x as int]@.contains(ins@[x as int]@[0]));
                }
            }
        }
        if entry {
            depth.push(Some(0));
            queue.push(x as u32);
            proof {
                assert(queue@[queue@.len() - 1] == x as u32);
            }
        } else {
            depth.push(None);
        }
        proof {
            assert forall|a: int| 0 <= a < x + 1 && #[trigger] depth@[a] is Some implies queue@.contains(a as u32) by {
                if a < x {
                    assert(depth@[a] == dq[a]);
                    assert(qq.contains(a as u32));
                    let k = choose|k: int| 0 <= k < qq.len() && qq[k] == a as u32;
                    assert(queue@[k] == a as u32);
                } else {
                    assert(queue@[queue@.len() - 1] == x as u32);
                }
            }
        }
        x = x + 1;
    }
    proof {
        assert(queue@.no_duplicates()) by {
            assert forall|a: int, b: int| 0 <= a < queue@.len() && 0 <= b < queue@.len() && a != b implies queue@[a] != queue@[b] by {
                if a < b {
                    assert(queue@[a] < queue@[b]);
                } else {
                    assert(queue@[b] < queue@[a]);
                }
            }
        }
        crate::reach::lemma_distinct_below(queue@, n as nat);
    }
    let mut head: usize = 0;
    while head < queue.len()
        invariant
            n == g.items@.len(),
            n < 0x4000_0000,
            outs@.len() == n,
            forall|b: int, a: u32| 0 <= b < n ==> (#[trigger] outs@[b]@.contains(a) <==> caller_of(*g, a, b as u32)),
            forall|a: u32, y: u32| #[trigger] caller_of(*g, a, y) ==> (a as int) < n && (y as int) < n,
            depth@.len() == n,
            head <= queue@.len(),
            queue@.len() <= n,
            forall|k: int| 0 <= k < queue@.len() ==> (#[trigger] queue@[k] as int) < n && depth@[queue@[k] as int] is Some,
            forall|a: int| 0 <= a < n && #[trigger] depth@[a] is Some ==> queue@.contains(a as u32),
            queue@.no_duplicates(),
            forall|a: int, b: int| 0 <= a < b < queue@.len() ==> dep(depth@, #[trigger] queue@[a]) <= dep(depth@, #[trigger] queue@[b]),
            head < queue@.len() ==> dep(depth@, queue@[queue@.len() - 1]) <= dep(depth@, queue@[head as int]) + 1,
            forall|k: int| 0 <= k < queue@.len() ==> dep(depth@, #[trigger] queue@[k]) <= k,
            forall|a: int| 0 <= a < n ==> (#[trigger] depth@[a] == Some(0u32) <==> is_entry(*g, a)),
            forall|a: int|
                0 <= a < n && (#[trigger] depth@[a]) is Some && depth@[a]->0 > 0 ==> exists|y: int|
                    0 <= y < n && caller_of(*g, a as u32, y as u32) && #[trigger] depth@[y] == Some(
                        (depth@[a]->0 - 1) as u32,
                    ),
            forall|k: int, a: u32|
                0 <= k < head && #[trigger] outs@[queue@[k] as int]@.contains(a) ==> depth@[a as int] is Some
                    && dep(depth@, a) <= dep(depth@, queue@[k]) + 1,
        decreases n - head, n - queue@.len(),
    {
        let at = queue[head];
        let dat = match depth[at as usize] {
            Some(d) => d,
            None => 0,
        };
        assert(dat as int == dep(depth@, at));
        assert(dat as int <= head);
        let ghost q0 = queue@;
        let ghost d0 = depth@;
        let ghost h0 = head;
        head = head + 1;
        let list = &outs[at as usize];
        let mut i: usize = 0;
        while i < list.len()
            invariant
                *list == outs@[at as int],
                (at as int) < n,
                n == g.items@.len(),
                n < 0x4000_0000,
                outs@.len() == n,
                forall|b: int, a: u32| 0 <= b < n ==> (#[trigger] outs@[b]@.contains(a) <==> caller_of(*g, a, b as u32)),
                forall|a: u32, y: u32| #[trigger] caller_of(*g, a, y) ==> (a as int) < n && (y as int) < n,
                i <= list@.len(),
                head == h0 + 1,
                h0 < q0.len(),
                q0[h0 as int] == at,
                dat as int == dep(d0, at),
                dat as int <= h0,
                depth@.len() == n,
                depth@[at as int] == Some(dat),
                q0.len() <= queue@.len(),
                queue@.len() <= n,
                forall|k: int| 0 <= k < q0.len() ==> queue@[k] == q0[k],
                forall|k: int| q0.len() <= k < queue@.len() ==> dep(depth@, #[trigger] queue@[k]) == dat + 1,
                forall|a: int| 0 <= a < n && d0[a] is Some ==> #[trigger] depth@[a] == d0[a],
                forall|k: int| 0 <= k < queue@.len() ==> (#[trigger] queue@[k] as int) < n && depth@[queue@[k] as int] is Some,
                forall|a: int| 0 <= a < n && #[trigger] depth@[a] is Some ==> queue@.contains(a as u32),
                queue@.no_duplicates(),
                forall|a: int, b: int| 0 <= a < b < queue@.len() ==> dep(depth@, #[trigger] queue@[a]) <= dep(depth@, #[trigger] queue@[b]),
                dep(depth@, queue@[queue@.len() - 1]) <= dat + 1,
                forall|k: int| 0 <= k < queue@.len() ==> dep(depth@, #[trigger] queue@[k]) <= k,
                forall|a: int| 0 <= a < n ==> (#[trigger] depth@[a] == Some(0u32) <==> is_entry(*g, a)),
                forall|a: int|
                    0 <= a < n && (#[trigger] depth@[a]) is Some && depth@[a]->0 > 0 ==> exists|y: int|
                        0 <= y < n && caller_of(*g, a as u32, y as u32) && #[trigger] depth@[y] == Some(
                            (depth@[a]->0 - 1) as u32,
                        ),
                forall|k: int, a: u32|
                    0 <= k < h0 && #[trigger] outs@[queue@[k] as int]@.contains(a) ==> depth@[a as int] is Some
                        && dep(depth@, a) <= dep(depth@, queue@[k]) + 1,
                forall|p: int| 0 <= p < i ==> depth@[(#[trigger] list@[p]) as int] is Some && dep(depth@, list@[p]) <= dat + 1,
            decreases list.len() - i,
        {
            let callee = list[i];
            assert(outs@[at as int]@.contains(callee)) by {
                assert(list@[i as int] == callee);
            }
            assert((callee as int) < n);
            match depth[callee as usize] {
                Some(_) => {
                    proof {
                        let c = choose|c: int| 0 <= c < queue@.len() && queue@[c] == callee;
                        assert(dep(depth@, queue@[c]) <= dep(depth@, queue@[queue@.len() - 1])) by {
                            if c < queue@.len() - 1 {
                            }
                        }
                    }
                },
                None => {
                    let ghost qb = queue@;
                    let ghost db = depth@;
                    depth.set(callee as usize, Some(dat + 1));
                    proof {
                        assert(!qb.contains(callee));
                        lemma_queue_grows(qb, callee, n as nat);
                    }
                    queue.push(callee);
                    proof {
                        assert(queue@ =~= qb.push(callee));
                        assert forall|k: int| 0 <= k < queue@.len() implies dep(depth@, #[trigger] queue@[k]) == dep(db, queue@[k])
                            || queue@[k] == callee by {
                        }
                        assert forall|k: int| 0 <= k < qb.len() implies dep(depth@, #[trigger] qb[k]) == dep(db, qb[k]) by {
                            assert(qb[k] != callee);
                        }
                        assert(queue@.len() - 1 >= h0 + 1);
                        assert forall|a: int| 0 <= a < n && #[trigger] depth@[a] is Some implies queue@.contains(a as u32) by {
                            if a != callee {
                                assert(db[a] is Some);
                                let k = choose|k: int| 0 <= k < qb.len() && qb[k] == a as u32;
                                assert(queue@[k] == a as u32);
                            } else {
                                assert(queue@[queue@.len() - 1] == callee);
                            }
                        }
                        assert forall|a: int, b: int| 0 <= a < b < queue@.len() implies dep(depth@, #[trigger] queue@[a]) <= dep(depth@, #[trigger] queue@[b]) by {
                            if b < qb.len() {
                                assert(queue@[a] == qb[a] && queue@[b] == qb[b]);
                                assert(dep(depth@, qb[a]) == dep(db, qb[a]));
                                assert(dep(depth@, qb[b]) == dep(db, qb[b]));
                            } else {
                                assert(queue@[a] == qb[a]);
                                assert(dep(depth@, qb[a]) == dep(db, qb[a]));
                                assert(dep(db, qb[a]) <= dep(db, qb[qb.len() - 1])) by {
                                    if a < qb.len() - 1 {
                                    }
                                }
                            }
                        }
                        assert(depth@[at as int] == Some(dat)) by {
                            assert(at != callee);
                        }
                        assert forall|a: int|
                            0 <= a < n && (#[trigger] depth@[a]) is Some && depth@[a]->0 > 0 implies exists|y: int|
                                0 <= y < n && caller_of(*g, a as u32, y as u32) && #[trigger] depth@[y] == Some(
                                    (depth@[a]->0 - 1) as u32,
                                ) by {
                            if a == callee {
                                assert(caller_of(*g, callee, at));
                                assert(depth@[at as int] == Some(dat));
                            } else {
                                let y = choose|y: int|
                                    0 <= y < n && caller_of(*g, a as u32, y as u32) && #[trigger] db[y] == Some(
                                        (db[a]->0 - 1) as u32,
                                    );
                                assert(y != callee);
                                assert(depth@[y] == db[y]);
                            }
                        }
                        assert forall|a: int| 0 <= a < n implies (#[trigger] depth@[a] == Some(0u32) <==> is_entry(*g, a)) by {
                            if a == callee {
                                assert(caller_of(*g, callee, at));
                            }
                        }
                        assert forall|k: int, a: u32|
                            0 <= k < h0 && #[trigger] outs@[queue@[k] as int]@.contains(a) implies depth@[a as int] is Some
                                && dep(depth@, a) <= dep(depth@, queue@[k]) + 1 by {
                            assert(queue@[k] == qb[k]);
                            assert(db[a as int] is Some);
                            assert(a != callee);
                            assert(qb[k] != callee);
                        }
                        assert forall|p: int| 0 <= p < i implies depth@[(#[trigger] list@[p]) as int] is Some && dep(depth@, list@[p]) <= dat + 1 by {
                            assert(outs@[at as int]@.contains(list@[p]));
                            assert((list@[p] as int) < n);
                            assert(db[list@[p] as int] is Some);
                            assert(list@[p] != callee);
                            assert(depth@[list@[p] as int] == db[list@[p] as int]);
                        }
                    }
                },
            }
            i = i + 1;
        }
        proof {
            assert forall|k: int, a: u32|
                0 <= k < head && #[trigger] outs@[queue@[k] as int]@.contains(a) implies depth@[a as int] is Some
                    && dep(depth@, a) <= dep(depth@, queue@[k]) + 1 by {
                if k == h0 {
                    assert(queue@[k] == at);
                    let p = choose|p: int| 0 <= p < list@.len() && list@[p] == a;
                    assert(depth@[list@[p] as int] is Some);
                }
            }
            if head < queue@.len() {
                assert(dep(depth@, queue@[h0 as int]) <= dep(depth@, queue@[head as int]));
                assert(queue@[h0 as int] == at);
            }
        }
    }
    proof {
        assert forall|x: int, y: int|
            0 <= x < n && 0 <= y < n && (#[trigger] depth@[y]) is Some && #[trigger] caller_of(*g, x as u32, y as u32)
                implies depth@[x] is Some && depth@[x]->0 <= depth@[y]->0 + 1 by {
            let k = choose|k: int| 0 <= k < queue@.len() && queue@[k] == y as u32;
            assert(outs@[queue@[k] as int]@.contains(x as u32));
        }
        assert forall|x: int| 0 <= x < depth@.len() && (#[trigger] depth@[x]) is Some implies (depth@[x]->0 as int) < depth@.len() by {
            let k = choose|k: int| 0 <= k < queue@.len() && queue@[k] == x as u32;
            assert(dep(depth@, queue@[k]) <= k);
        }
    }
    depth
}

/// A queue of distinct declarations with room for one more.
proof fn lemma_queue_grows(q: Seq<u32>, x: u32, n: nat)
    requires
        q.no_duplicates(),
        !q.contains(x),
        (x as int) < n,
        forall|k: int| 0 <= k < q.len() ==> (#[trigger] q[k] as int) < n,
    ensures
        q.push(x).no_duplicates(),
        q.push(x).len() <= n,
{
    let p = q.push(x);
    assert forall|a: int, b: int| 0 <= a < p.len() && 0 <= b < p.len() && a != b implies p[a] != p[b] by {
        if a < q.len() && b < q.len() {
            assert(q[a] != q[b]);
        } else if a < q.len() {
            assert(q.contains(q[a]));
        } else if b < q.len() {
            assert(q.contains(q[b]));
        }
    }
    crate::reach::lemma_distinct_below(p, n);
}

/// What one shortest-way-in depth reaches at `k`, any other reaches at no
/// more than `k`.
proof fn lemma_way_in_below(g: CodeGraph, d1: Seq<Option<u32>>, d2: Seq<Option<u32>>, x: int, k: u32)
    requires
        shortest_way_in(g, d1),
        shortest_way_in(g, d2),
        0 <= x < d1.len(),
        d1[x] == Some(k),
    ensures
        d2[x] is Some,
        d2[x]->0 <= k,
    decreases k,
{
    if k > 0 {
        assert(d1[x] is Some && d1[x]->0 > 0);
        let y = choose|y: int| 0 <= y < d1.len() && caller_of(g, x as u32, y as u32) && #[trigger] d1[y] == Some((d1[x]->0 - 1) as u32);
        lemma_way_in_below(g, d1, d2, y, (k - 1) as u32);
    } else {
        assert(is_entry(g, x));
    }
}

/// There is one shortest way in: two depth lists that both read it agree
/// everywhere.
pub proof fn lemma_way_in_unique(g: CodeGraph, d1: Seq<Option<u32>>, d2: Seq<Option<u32>>)
    requires
        shortest_way_in(g, d1),
        shortest_way_in(g, d2),
    ensures
        d1 == d2,
{
    assert forall|x: int| 0 <= x < d1.len() implies #[trigger] d1[x] == d2[x] by {
        if d1[x] is Some {
            lemma_way_in_below(g, d1, d2, x, d1[x]->0);
            lemma_way_in_below(g, d2, d1, x, d2[x]->0);
        } else if d2[x] is Some {
            lemma_way_in_below(g, d2, d1, x, d2[x]->0);
        }
    }
    assert(d1 =~= d2);
}

} // verus!
