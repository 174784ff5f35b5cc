//! Walks over a map from each declaration to its neighbours: what a start
//! reaches, step by step.

use std::collections::{HashMap, HashSet};

use vstd::prelude::*;

verus! {

broadcast use vstd::std_specs::hash::group_hash_axioms;

/// One step of the walk: `y` is listed under `x`.
pub open spec fn step(m: Map<u32, Vec<u32>>, x: u32, y: u32) -> bool {
    m.contains_key(x) && m[x]@.contains(y)
}

/// `y` is reached from `from` in at most `n` steps, never through `from`
/// itself again.
pub open spec fn reached_in(m: Map<u32, Vec<u32>>, from: u32, y: u32, n: nat) -> bool
    decreases n,
{
    n > 0 && y != from && (step(m, from, y) || exists|x: u32|
        #[trigger] step(m, x, y) && reached_in(m, from, x, (n - 1) as nat))
}

/// `y` is reached from `from` in some number of steps.
pub open spec fn reached(m: Map<u32, Vec<u32>>, from: u32, y: u32) -> bool {
    exists|n: nat| reached_in(m, from, y, n)
}

/// Every step out of `from`, or out of a member, lands in `s` or on `from`.
pub open spec fn closed(m: Map<u32, Vec<u32>>, from: u32, s: Set<u32>) -> bool {
    forall|x: u32, y: u32|
        (x == from || s.contains(x)) && #[trigger] step(m, x, y) && y != from ==> s.contains(y)
}

proof fn lemma_closed_holds_reached(m: Map<u32, Vec<u32>>, from: u32, s: Set<u32>, y: u32, n: nat)
    requires
        closed(m, from, s),
        reached_in(m, from, y, n),
    ensures
        s.contains(y),
    decreases n,
{
    if step(m, from, y) {
        assert(s.contains(y));
    } else {
        let x = choose|x: u32| #[trigger] step(m, x, y) && reached_in(m, from, x, (n - 1) as nat);
        lemma_closed_holds_reached(m, from, s, x, (n - 1) as nat);
        assert(s.contains(x));
        assert(step(m, x, y));
    }
}

/// A list of distinct numbers below `n` is at most `n` long.
pub proof fn lemma_distinct_below(s: Seq<u32>, n: nat)
    requires
        s.no_duplicates(),
        forall|k: int| 0 <= k < s.len() ==> (#[trigger] s[k] as nat) < n,
    ensures
        s.len() <= n,
{
    let t = s.map_values(|x: u32| x as int);
    assert forall|i: int, j: int| 0 <= i < t.len() && 0 <= j < t.len() && i != j implies t[i] != t[j] by {
        assert(s[i] != s[j]);
    }
    assert(t.no_duplicates());
    t.unique_seq_to_set();
    vstd::set_lib::lemma_int_range(0, n as int);
    assert forall|v: int| t.to_set().contains(v) implies vstd::set_lib::set_int_range(0, n as int).contains(v) by {
        let k = choose|k: int| 0 <= k < t.len() && t[k] == v;
        assert((s[k] as nat) < n);
    }
    vstd::set_lib::lemma_len_subset(t.to_set(), vstd::set_lib::set_int_range(0, n as int));
}

/// Everything `from` reaches over the map, `from` itself left out: the
/// set holds exactly the declarations some walk out of `from` arrives at.
pub fn reach_set(m: &HashMap<u32, Vec<u32>>, from: u32) -> (out: HashSet<u32>)
    ensures
        forall|y: u32| out@.contains(y) <==> reached(m@, from, y),
{
    let mut out: HashSet<u32> = HashSet::new();
    let ghost mut seen: Seq<u32> = Seq::empty();
    let mut stack: Vec<u32> = Vec::new();
    stack.push(from);
    assert(stack@[0] == from);
    while stack.len() > 0
        invariant
            out@ == seen.to_set(),
            seen.no_duplicates(),
            !seen.contains(from),
            forall|k: int| 0 <= k < seen.len() ==> reached(m@, from, #[trigger] seen[k]),
            forall|k: int| 0 <= k < stack@.len() ==> (stack@[k] == from || seen.contains(#[trigger] stack@[k])),
            forall|x: u32, y: u32|
                (x == from || seen.contains(x)) && !stack@.contains(x) && #[trigger] step(m@, x, y)
                    && y != from ==> seen.contains(y),
        decreases 0x1_0000_0000 - seen.len(), stack.len(),
    {
        proof {
            lemma_distinct_below(seen, 0x1_0000_0000);
        }
        let ghost seen_before = seen;
        let ghost stack_before = stack@;
        let at = stack.pop().unwrap();
        let ghost popped = stack@;
        assert(stack_before == popped.push(at));
        assert(at == from || seen.contains(at)) by {
            assert(stack_before[stack_before.len() - 1] == at);
        }
        match m.get(&at) {
            None => {
                proof {
                    assert forall|x: u32, y: u32|
                        (x == from || seen.contains(x)) && !stack@.contains(x) && #[trigger] step(m@, x, y)
                            && y != from implies seen.contains(y) by {
                        if x != at {
                            assert(!stack_before.contains(x)) by {
                                if stack_before.contains(x) {
                                    let k = choose|k: int| 0 <= k < stack_before.len() && stack_before[k] == x;
                                    if k < popped.len() {
                                        assert(popped[k] == x);
                                    }
                                }
                            }
                        }
                    }
                }
            },
            Some(list) => {
                proof {
                    assert forall|x: u32, y: u32|
                        (x == from || seen.contains(x)) && !stack@.contains(x) && x != at
                            && #[trigger] step(m@, x, y) && y != from implies seen.contains(y) by {
                        assert(!stack_before.contains(x)) by {
                            if stack_before.contains(x) {
                                let k = choose|k: int| 0 <= k < stack_before.len() && stack_before[k] == x;
                                assert(popped[k] == x);
                            }
                        }
                    }
                }
                let mut i: usize = 0;
                while i < list.len()
                    invariant
                        m@.contains_key(at),
                        m@[at] == *list,
                        i <= list@.len(),
                        at == from || seen.contains(at),
                        out@ == seen.to_set(),
                        seen.no_duplicates(),
                        !seen.contains(from),
                        seen_before.len() <= seen.len(),
                        seen.len() <= 0x1_0000_0000,
                        seen.len() == seen_before.len() || 0x1_0000_0000 - seen.len() < 0x1_0000_0000 - seen_before.len(),
                        seen.len() > seen_before.len() || stack@ == popped,
                        forall|k: int| 0 <= k < seen_before.len() ==> seen[k] == seen_before[k],
                        forall|k: int| 0 <= k < seen.len() ==> reached(m@, from, #[trigger] seen[k]),
                        forall|k: int| 0 <= k < stack@.len() ==> (stack@[k] == from || seen.contains(#[trigger] stack@[k])),
                        forall|k: int| 0 <= k < popped.len() ==> stack@.contains(#[trigger] popped[k]),
                        forall|j: int| 0 <= j < i && #[trigger] list@[j] != from ==> seen.contains(list@[j]),
                        forall|x: u32, y: u32|
                            (x == from || seen.contains(x)) && !stack@.contains(x) && x != at
                                && #[trigger] step(m@, x, y) && y != from ==> seen.contains(y),
                    decreases list.len() - i,
                {
                    let user = list[i];
                    if user != from && !out.contains(&user) {
                        proof {
                            assert(step(m@, at, user)) by {
                                assert(list@[i as int] == user);
                            }
                            if at == from {
                                assert(reached_in(m@, from, user, 1));
                            } else {
                                let k = choose|k: int| 0 <= k < seen.len() && seen[k] == at;
                                assert(reached(m@, from, seen[k]));
                                let n = choose|n: nat| reached_in(m@, from, at, n);
                                assert(reached_in(m@, from, at, ((n + 1) - 1) as nat));
                                assert(reached_in(m@, from, user, n + 1));
                            }
                            lemma_distinct_below(seen, 0x1_0000_0000);
                        }
                        let ghost s0 = seen;
                        let ghost st0 = stack@;
                        out.insert(user);
                        proof {
                            seen = seen.push(user);
                            assert(seen == s0 + seq![user]);
                            Seq::<u32>::lemma_to_set_insert_commutes(s0, user);
                            assert(seen.no_duplicates()) by {
                                assert forall|a: int, b: int| 0 <= a < seen.len() && 0 <= b < seen.len() && a != b
                                    implies seen[a] != seen[b] by {
                                    if a < s0.len() && b < s0.len() {
                                        assert(s0[a] != s0[b]);
                                    } else if a < s0.len() {
                                        assert(s0.contains(s0[a]));
                                    } else if b < s0.len() {
                                        assert(s0.contains(s0[b]));
                                    }
                                }
                            }
                            lemma_distinct_below(seen, 0x1_0000_0000);
                            assert forall|k: int| 0 <= k < seen.len() implies reached(m@, from, #[trigger] seen[k]) by {
                                if k < s0.len() {
                                    assert(seen[k] == s0[k]);
                                }
                            }
                            assert forall|v: u32| s0.contains(v) implies seen.contains(v) by {
                                let k = choose|k: int| 0 <= k < s0.len() && s0[k] == v;
                                assert(seen[k] == v);
                            }
                            assert(seen[seen.len() - 1] == user);
                            assert(!seen.contains(from)) by {
                                if seen.contains(from) {
                                    let k = choose|k: int| 0 <= k < seen.len() && seen[k] == from;
                                    if k < s0.len() {
                                        assert(s0[k] == from);
                                    }
                                }
                            }
                        }
                        stack.push(user);
                        proof {
                            assert forall|k: int| 0 <= k < stack@.len() implies (stack@[k] == from || seen.contains(#[trigger] stack@[k])) by {
                                if k < st0.len() {
                                    assert(stack@[k] == st0[k]);
                                }
                            }
                            assert(stack@[stack@.len() - 1] == user);
                            assert forall|x: u32, y: u32|
                                (x == from || seen.contains(x)) && !stack@.contains(x) && x != at
                                    && #[trigger] step(m@, x, y) && y != from implies seen.contains(y) by {
                                if x != user {
                                    if x != from {
                                        let k = choose|k: int| 0 <= k < seen.len() && seen[k] == x;
                                        if k < s0.len() {
                                            assert(s0[k] == x);
                                        }
                                    }
                                    assert(!st0.contains(x)) by {
                                        if st0.contains(x) {
                                            let q = choose|q: int| 0 <= q < st0.len() && st0[q] == x;
                                            assert(stack@[q] == x);
                                        }
                                    }
                                    assert(s0.contains(y));
                                } else {
                                    assert(stack@.contains(user));
                                }
                            }
                            assert forall|k: int| 0 <= k < popped.len() implies stack@.contains(#[trigger] popped[k]) by {
                                assert(st0.contains(popped[k]));
                                let q = choose|q: int| 0 <= q < st0.len() && st0[q] == popped[k];
                                assert(stack@[q] == popped[k]);
                            }
                        }
                    } else {
                        proof {
                            if user != from {
                                assert(out@.contains(user));
                            }
                        }
                    }
                    i = i + 1;
                }
                proof {
                    assert forall|x: u32, y: u32|
                        (x == from || seen.contains(x)) && !stack@.contains(x) && #[trigger] step(m@, x, y)
                            && y != from implies seen.contains(y) by {
                        if x == at {
                            let j = choose|j: int| 0 <= j < list@.len() && list@[j] == y;
                            assert(list@[j] != from);
                        }
                    }
                }
            },
        }
    }
    proof {
        assert(closed(m@, from, seen.to_set())) by {
            assert forall|x: u32, y: u32|
                (x == from || seen.to_set().contains(x)) && #[trigger] step(m@, x, y) && y != from
                    implies seen.to_set().contains(y) by {
                assert(!stack@.contains(x));
            }
        }
        assert forall|y: u32| out@.contains(y) <==> reached(m@, from, y) by {
            if reached(m@, from, y) {
                let n = choose|n: nat| reached_in(m@, from, y, n);
                lemma_closed_holds_reached(m@, from, seen.to_set(), y, n);
            }
            if out@.contains(y) {
                let k = choose|k: int| 0 <= k < seen.len() && seen[k] == y;
                assert(reached(m@, from, seen[k]));
            }
        }
    }
    out
}

} // verus!
