//! What each drawn mark calls, and what calls it, over the wires the paper
//! draws: heaviest first, then by id.

use std::collections::HashMap;

use vstd::prelude::*;

use crate::fn_model::Call;
use crate::sort::{lemma_map_multiset, lemma_same_entries, lex_le, sort_by_key, values_of};

verus! {

broadcast use vstd::std_specs::hash::group_hash_axioms;

/// The far ends of the wires at `x`, with their counts, in wire order:
/// the callees where `x` is the caller, the callers where it is the callee.
pub open spec fn ends_at(calls: Seq<Call>, x: u32, callee_side: bool) -> Seq<(u32, u32)>
    decreases calls.len(),
{
    if calls.len() == 0 {
        Seq::empty()
    } else {
        let rest = ends_at(calls.drop_last(), x, callee_side);
        let c = calls.last();
        if callee_side && c.user == x {
            rest.push((c.count, c.def))
        } else if !callee_side && c.def == x {
            rest.push((c.count, c.user))
        } else {
            rest
        }
    }
}

/// Heaviest first, then by id.
pub open spec fn rank_key(e: (u32, u32)) -> Seq<u64> {
    seq![(u32::MAX - e.0) as u64, e.1 as u64]
}

/// `ids` lists the ends of `ends`, heaviest first, then by id.
pub open spec fn ranked(ends: Seq<(u32, u32)>, ids: Seq<u32>) -> bool {
    exists|e: Seq<(u32, u32)>|
        #![trigger e.to_multiset()]
        e.to_multiset() == ends.to_multiset() && e.len() == ids.len() && (forall|k: int|
            0 <= k < e.len() ==> #[trigger] e[k].1 == ids[k]) && (forall|a: int, b: int|
            0 <= a < b < e.len() ==> lex_le(rank_key(#[trigger] e[a]), rank_key(#[trigger] e[b])))
}

pub open spec fn entry_of(e: (Vec<u64>, (u32, u32))) -> (u32, u32) {
    e.1
}

/// One mark's ends, heaviest first.
fn rank_ends(calls: &Vec<Call>, x: u32, callee_side: bool) -> (ids: Vec<u32>)
    ensures
        ranked(ends_at(calls@, x, callee_side), ids@),
{
    let mut keyed: Vec<(Vec<u64>, (u32, u32))> = Vec::new();
    let mut i: usize = 0;
    while i < calls.len()
        invariant
            i <= calls@.len(),
            keyed@.map_values(|e: (Vec<u64>, (u32, u32))| entry_of(e)) == ends_at(calls@.take(i as int), x, callee_side),
            forall|k: int| 0 <= k < keyed@.len() ==> (#[trigger] keyed@[k]).0@ == rank_key(keyed@[k].1),
        decreases calls.len() - i,
    {
        let c = calls[i];
        assert(calls@.take(i + 1).drop_last() =~= calls@.take(i as int));
        assert(calls@.take(i + 1).last() == c);
        let ghost before = keyed@;
        let weight: u64 = (u32::MAX - c.count) as u64;
        if callee_side && c.user == x {
            keyed.push((vec![weight, c.def as u64], (c.count, c.def)));
        } else if !callee_side && c.def == x {
            keyed.push((vec![weight, c.user as u64], (c.count, c.user)));
        }
        proof {
            assert(keyed@.map_values(|e: (Vec<u64>, (u32, u32))| entry_of(e)) =~= ends_at(calls@.take(i + 1), x, callee_side));
            assert forall|k: int| 0 <= k < keyed@.len() implies (#[trigger] keyed@[k]).0@ == rank_key(keyed@[k].1) by {
                if k < before.len() {
                    assert(keyed@[k] == before[k]);
                } else {
                    assert(keyed@[k].0@ =~= rank_key(keyed@[k].1));
                }
            }
        }
        i = i + 1;
    }
    assert(calls@.take(calls@.len() as int) =~= calls@);
    let ghost all = keyed@;
    let sorted = sort_by_key(keyed);
    let ghost s = sorted@;
    proof {
        lemma_map_multiset(s, all, |e: (Vec<u64>, (u32, u32))| entry_of(e));
        lemma_same_entries(s, all);
    }
    let entries = values_of(sorted);
    let mut ids: Vec<u32> = Vec::new();
    let mut k: usize = 0;
    while k < entries.len()
        invariant
            k <= entries@.len(),
            ids@.len() == k,
            forall|q: int| 0 <= q < k ==> #[trigger] ids@[q] == entries@[q].1,
        decreases entries.len() - k,
    {
        ids.push(entries[k].1);
        k = k + 1;
    }
    proof {
        let e = entries@;
        assert(e =~= s.map_values(|p: (Vec<u64>, (u32, u32))| entry_of(p)));
        assert forall|a: int, b: int| 0 <= a < b < e.len() implies lex_le(rank_key(#[trigger] e[a]), rank_key(#[trigger] e[b])) by {
            assert(lex_le(s[a].0@, s[b].0@));
            assert(s.contains(s[a]));
            assert(s.contains(s[b]));
            let pa = choose|p: int| 0 <= p < all.len() && all[p] == s[a];
            let pb = choose|p: int| 0 <= p < all.len() && all[p] == s[b];
        }
        assert(e.to_multiset() == ends_at(calls@, x, callee_side).to_multiset());
    }
    ids
}

/// Every mark's ends on one side, heaviest first, for the marks below `n`
/// that have any.
pub fn rank_all(calls: &Vec<Call>, n: usize, callee_side: bool) -> (m: HashMap<u32, Vec<u32>>)
    requires
        n < 0x1_0000_0000,
    ensures
        forall|x: u32| #[trigger] m@.contains_key(x) <==> ((x as int) < n && ends_at(calls@, x, callee_side).len() > 0),
        forall|x: u32| #[trigger] m@.contains_key(x) ==> ranked(ends_at(calls@, x, callee_side), m@[x]@),
{
    let mut m: HashMap<u32, Vec<u32>> = HashMap::new();
    let mut x: usize = 0;
    while x < n
        invariant
            x <= n,
            n < 0x1_0000_0000,
            forall|y: u32| #[trigger] m@.contains_key(y) <==> ((y as int) < x && ends_at(calls@, y, callee_side).len() > 0),
            forall|y: u32| #[trigger] m@.contains_key(y) ==> ranked(ends_at(calls@, y, callee_side), m@[y]@),
        decreases n - x,
    {
        let ids = rank_ends(calls, x as u32, callee_side);
        if ids.len() > 0 {
            proof {
                broadcast use vstd::seq_lib::group_to_multiset_ensures;
                let e = choose|e: Seq<(u32, u32)>|
                    #![trigger e.to_multiset()]
                    e.to_multiset() == ends_at(calls@, x as u32, callee_side).to_multiset() && e.len() == ids@.len() && (forall|k: int|
                        0 <= k < e.len() ==> #[trigger] e[k].1 == ids@[k]) && (forall|a: int, b: int|
                        0 <= a < b < e.len() ==> lex_le(rank_key(#[trigger] e[a]), rank_key(#[trigger] e[b])));
                assert(e.to_multiset().len() == e.len());
                assert(ends_at(calls@, x as u32, callee_side).to_multiset().len() == ends_at(calls@, x as u32, callee_side).len());
            }
            m.insert(x as u32, ids);
        } else {
            proof {
                broadcast use vstd::seq_lib::group_to_multiset_ensures;
                let e = choose|e: Seq<(u32, u32)>|
                    #![trigger e.to_multiset()]
                    e.to_multiset() == ends_at(calls@, x as u32, callee_side).to_multiset() && e.len() == ids@.len() && (forall|k: int|
                        0 <= k < e.len() ==> #[trigger] e[k].1 == ids@[k]) && (forall|a: int, b: int|
                        0 <= a < b < e.len() ==> lex_le(rank_key(#[trigger] e[a]), rank_key(#[trigger] e[b])));
                assert(e.to_multiset().len() == e.len());
                assert(ends_at(calls@, x as u32, callee_side).to_multiset().len() == ends_at(calls@, x as u32, callee_side).len());
            }
        }
        x = x + 1;
    }
    m
}

} // verus!
