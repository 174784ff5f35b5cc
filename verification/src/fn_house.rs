//! The household a reading draws: crate and module frames, the owner
//! containers inside them, and the box each drawn mark is written in.

use std::collections::HashMap;

use vstd::prelude::*;

use crate::fn_keys::{frame_code, from_wanted, has_key, key_view, lemma_extension_sorts_after, prefix_key, room_keys, same_key};
use crate::fn_marks::has_owner;
use crate::fn_model::{crate_key, module_of, Container, FnMark, Frame, Spot};
use crate::fn_query::frames_nest;
use crate::fn_reading::{fold_in, fold_views, mod_fold, owner_fold, FnReading, FoldView};
use crate::kinds::ItemKind;
use crate::paths::{spec_module_segments, views};
use crate::fn_reading::copy_strings;
use crate::sort::{lemma_no_dup_moves, lemma_same_entries, lex_le, push_text, sort_by_key, text_key, values_of};
use crate::survey::CodeGraph;

verus! {

/// The type whose container a method stands in: its parent, where the
/// survey can name it.
pub open spec fn owner_ty(g: CodeGraph, id: u32) -> Option<u32> {
    if (id as int) < g.items@.len() {
        match g.items@[id as int].parent {
            Some(p) => if has_owner(g, p) { Some(p) } else { None },
            None => None,
        }
    } else {
        None
    }
}

/// The room a mark stands in: its owner type's module for a method, its
/// own module for a free declaration.
pub open spec fn home_key(g: CodeGraph, m: FnMark) -> (Seq<char>, Seq<Seq<char>>) {
    match owner_ty(g, m.id) {
        Some(ty) => (
            g.files@[g.items@[ty as int].file as int].krate@,
            spec_module_segments(g.files@[g.items@[ty as int].file as int].path@),
        ),
        None => (m.krate@, views(m.module@)),
    }
}

/// The type whose container a method stands in.
pub fn owner_ty_of(g: &CodeGraph, id: u32) -> (r: Option<u32>)
    ensures
        r == owner_ty(*g, id),
{
    if (id as usize) >= g.items.len() {
        return None;
    }
    match g.items[id as usize].parent {
        Some(p) => {
            if (p as usize) < g.items.len() && (g.items[p as usize].file as usize) < g.files.len() {
                Some(p)
            } else {
                None
            }
        },
        None => None,
    }
}

/// Each mark's room key, and its owner type where it is a method.
pub fn home_keys(g: &CodeGraph, marks: &Vec<FnMark>) -> (out: (Vec<(String, Vec<String>)>, Vec<Option<u32>>))
    ensures
        out.0@.len() == marks@.len(),
        out.1@.len() == marks@.len(),
        forall|k: int| 0 <= k < marks@.len() ==> key_view(#[trigger] out.0@[k]) == home_key(*g, marks@[k]),
        forall|k: int| 0 <= k < marks@.len() ==> #[trigger] out.1@[k] == owner_ty(*g, marks@[k].id),
{
    let mut keys: Vec<(String, Vec<String>)> = Vec::new();
    let mut tys: Vec<Option<u32>> = Vec::new();
    let mut k: usize = 0;
    while k < marks.len()
        invariant
            k <= marks@.len(),
            keys@.len() == k,
            tys@.len() == k,
            forall|q: int| 0 <= q < k ==> key_view(#[trigger] keys@[q]) == home_key(*g, marks@[q]),
            forall|q: int| 0 <= q < k ==> #[trigger] tys@[q] == owner_ty(*g, marks@[q].id),
        decreases marks.len() - k,
    {
        let m = &marks[k];
        let ty = owner_ty_of(g, m.id);
        let key = match ty {
            Some(t) => {
                let file = &g.files[g.items[t as usize].file as usize];
                module_of(file.krate.as_str(), file.path.as_str())
            },
            None => (m.krate.clone(), copy_strings(m.module.as_slice())),
        };
        keys.push(key);
        tys.push(ty);
        k = k + 1;
    }
    (keys, tys)
}

/// The index of a key known to be among the keys.
pub fn find_key(keys: &Vec<(String, Vec<String>)>, k: &(String, Vec<String>)) -> (i: usize)
    requires
        has_key(keys@, key_view(*k)),
    ensures
        i < keys@.len(),
        key_view(keys@[i as int]) == key_view(*k),
{
    let mut i: usize = 0;
    while i < keys.len()
        invariant
            i <= keys@.len(),
            has_key(keys@, key_view(*k)),
            forall|q: int| 0 <= q < i ==> key_view(#[trigger] keys@[q]) != key_view(*k),
        decreases keys.len() - i,
    {
        if same_key(&keys[i], k) {
            return i;
        }
        i = i + 1;
    }
    proof {
        let q = choose|q: int| 0 <= q < keys@.len() && key_view(#[trigger] keys@[q]) == key_view(*k);
    }
    0
}

/// The frame each room sits inside: the room one segment up, listed
/// before it; none for a crate's own room.
pub fn room_parents(keys: &Vec<(String, Vec<String>)>, wanted: Ghost<Seq<(String, Vec<String>)>>) -> (parents: Vec<Option<u32>>)
    requires
        keys@.len() < 0x8000_0000,
        forall|a: int, b: int| 0 <= a < b < keys@.len() ==> key_view(#[trigger] keys@[a]) != key_view(#[trigger] keys@[b]),
        forall|a: int, b: int| 0 <= a < b < keys@.len() ==> lex_le(
            frame_code((#[trigger] keys@[a]).0@, views(keys@[a].1@)),
            frame_code((#[trigger] keys@[b]).0@, views(keys@[b].1@)),
        ),
        forall|i: int, cut: int| 0 <= i < wanted@.len() && 0 <= cut <= wanted@[i].1@.len() ==> has_key(
            keys@,
            #[trigger] prefix_key(key_view(wanted@[i]), cut),
        ),
        forall|k: int| 0 <= k < keys@.len() ==> from_wanted(wanted@, key_view(#[trigger] keys@[k])),
    ensures
        parents@.len() == keys@.len(),
        forall|i: int| 0 <= i < keys@.len() ==> (#[trigger] parents@[i] is None <==> keys@[i].1@.len() == 0),
        forall|i: int| 0 <= i < keys@.len() && (#[trigger] parents@[i]) is Some ==> {
            let p = parents@[i]->0 as int;
            &&& 0 <= p < i
            &&& key_view(keys@[p]) == (keys@[i].0@, views(keys@[i].1@).drop_last())
        },
{
    let mut parents: Vec<Option<u32>> = Vec::new();
    let mut i: usize = 0;
    while i < keys.len()
        invariant
            i <= keys@.len(),
            keys@.len() < 0x8000_0000,
            parents@.len() == i,
            forall|a: int, b: int| 0 <= a < b < keys@.len() ==> key_view(#[trigger] keys@[a]) != key_view(#[trigger] keys@[b]),
            forall|a: int, b: int| 0 <= a < b < keys@.len() ==> lex_le(
                frame_code((#[trigger] keys@[a]).0@, views(keys@[a].1@)),
                frame_code((#[trigger] keys@[b]).0@, views(keys@[b].1@)),
            ),
            forall|w: int, cut: int| 0 <= w < wanted@.len() && 0 <= cut <= wanted@[w].1@.len() ==> has_key(
                keys@,
                #[trigger] prefix_key(key_view(wanted@[w]), cut),
            ),
            forall|k: int| 0 <= k < keys@.len() ==> from_wanted(wanted@, key_view(#[trigger] keys@[k])),
            forall|q: int| 0 <= q < i ==> (#[trigger] parents@[q] is None <==> keys@[q].1@.len() == 0),
            forall|q: int| 0 <= q < i && (#[trigger] parents@[q]) is Some ==> {
                let p = parents@[q]->0 as int;
                &&& 0 <= p < q
                &&& key_view(keys@[p]) == (keys@[q].0@, views(keys@[q].1@).drop_last())
            },
        decreases keys.len() - i,
    {
        let key = &keys[i];
        let n = key.1.len();
        if n == 0 {
            parents.push(None);
        } else {
            let mut up: Vec<String> = Vec::new();
            let mut j: usize = 0;
            while j < n - 1
                invariant
                    j <= n - 1,
                    n == key.1@.len(),
                    views(up@) == views(key.1@).take(j as int),
                decreases n - 1 - j,
            {
                let s = key.1[j].clone();
                let ghost before = up@;
                up.push(s);
                assert(views(up@) =~= views(before).push(s@));
                assert(views(key.1@).take(j + 1) =~= views(key.1@).take(j as int).push(key.1@[j as int]@));
                j = j + 1;
            }
            let pk = (key.0.clone(), up);
            proof {
                assert(views(key.1@).take(n - 1) =~= views(key.1@).drop_last());
                assert(from_wanted(wanted@, key_view(keys@[i as int])));
                let (w, cut) = choose|w: int, cut: int|
                    0 <= w < wanted@.len() && 0 <= cut <= wanted@[w].1@.len() && key_view(keys@[i as int]) == #[trigger] prefix_key(
                        key_view(wanted@[w]),
                        cut,
                    );
                assert(views(wanted@[w].1@).take(cut).drop_last() =~= views(wanted@[w].1@).take(cut - 1));
                assert(key_view(pk) == prefix_key(key_view(wanted@[w]), cut - 1));
            }
            let p = find_key(keys, &pk);
            proof {
                if p >= i {
                    if p == i {
                        assert(key_view(keys@[p as int]).1.len() == n - 1);
                    } else {
                        let code_p = frame_code(keys@[p as int].0@, views(keys@[p as int].1@));
                        let tail = text_key(views(key.1@).last());
                        assert(frame_code(key.0@, views(key.1@)) == code_p + tail) by {
                            assert(views(keys@[p as int].1@) == views(key.1@).drop_last());
                        }
                        assert(lex_le(frame_code(key.0@, views(key.1@)), code_p));
                        lemma_extension_sorts_after(code_p, tail);
                    }
                }
            }
            parents.push(Some(p as u32));
        }
        i = i + 1;
    }
    parents
}

/// Room `f` is room `i` or sits inside it, however deep, by the parents
/// each room names.
pub open spec fn above(parents: Seq<Option<u32>>, i: int, f: int) -> bool
    decreases f,
{
    0 <= f < parents.len() && (f == i || (parents[f] is Some && (parents[f]->0 as int) < f && above(
        parents,
        i,
        parents[f]->0 as int,
    )))
}

proof fn lemma_above_below(parents: Seq<Option<u32>>, i: int, f: int)
    ensures
        above(parents, i, f) ==> i <= f && 0 <= i,
    decreases f,
{
    if 0 <= f < parents.len() && f != i && parents[f] is Some && (parents[f]->0 as int) < f {
        lemma_above_below(parents, i, parents[f]->0 as int);
    }
}

/// How many of the first `k` marks stand in room `i` or below it.
pub open spec fn count_above(parents: Seq<Option<u32>>, rooms: Seq<u32>, i: int, k: int) -> int
    decreases k,
{
    if k <= 0 {
        0
    } else {
        count_above(parents, rooms, i, k - 1) + if above(parents, i, rooms[k - 1] as int) { 1int } else { 0int }
    }
}

proof fn lemma_count_above_bound(parents: Seq<Option<u32>>, rooms: Seq<u32>, i: int, k: int)
    ensures
        0 <= count_above(parents, rooms, i, k) <= if k < 0 { 0 } else { k },
    decreases k,
{
    if k > 0 {
        lemma_count_above_bound(parents, rooms, i, k - 1);
    }
}

/// Every room's count of the marks standing in it or below it.
pub fn held_counts(parents: &Vec<Option<u32>>, rooms: &Vec<u32>) -> (held: Vec<u32>)
    requires
        parents@.len() < 0x8000_0000,
        rooms@.len() < 0x8000_0000,
        forall|k: int| 0 <= k < rooms@.len() ==> (#[trigger] rooms@[k] as int) < parents@.len(),
        forall|i: int| 0 <= i < parents@.len() && (#[trigger] parents@[i]) is Some ==> (parents@[i]->0 as int) < i,
    ensures
        held@.len() == parents@.len(),
        forall|i: int| 0 <= i < parents@.len() ==> #[trigger] held@[i] as int == count_above(parents@, rooms@, i, rooms@.len() as int),
{
    let n = parents.len();
    let mut held: Vec<u32> = Vec::new();
    let mut i: usize = 0;
    while i < n
        invariant
            i <= n,
            n == parents@.len(),
            held@.len() == i,
            forall|q: int| 0 <= q < i ==> #[trigger] held@[q] == 0,
        decreases n - i,
    {
        held.push(0);
        i = i + 1;
    }
    let mut k: usize = 0;
    while k < rooms.len()
        invariant
            k <= rooms@.len(),
            n == parents@.len(),
            n < 0x8000_0000,
            rooms@.len() < 0x8000_0000,
            held@.len() == n,
            forall|q: int| 0 <= q < rooms@.len() ==> (#[trigger] rooms@[q] as int) < n,
            forall|x: int| 0 <= x < n && (#[trigger] parents@[x]) is Some ==> (parents@[x]->0 as int) < x,
            forall|x: int| 0 <= x < n ==> #[trigger] held@[x] as int == count_above(parents@, rooms@, x, k as int),
        decreases rooms.len() - k,
    {
        let f = rooms[k];
        let mut at: usize = f as usize;
        proof {
            assert forall|x: int| 0 <= x < n implies #[trigger] held@[x] as int == count_above(parents@, rooms@, x, k as int)
                + if above(parents@, x, f as int) && !above(parents@, x, at as int) { 1int } else { 0int } by {
            }
        }
        loop
            invariant_except_break
                at < n,
                above(parents@, at as int, f as int),
                forall|x: int| 0 <= x < n ==> #[trigger] held@[x] as int == count_above(parents@, rooms@, x, k as int)
                    + if above(parents@, x, f as int) && !above(parents@, x, at as int) { 1int } else { 0int },
            invariant
                k < rooms@.len(),
                rooms@.len() < 0x8000_0000,
                n == parents@.len(),
                n < 0x8000_0000,
                held@.len() == n,
                f == rooms@[k as int],
                (f as int) < n,
                forall|x: int| 0 <= x < n && (#[trigger] parents@[x]) is Some ==> (parents@[x]->0 as int) < x,
            ensures
                forall|x: int| 0 <= x < n ==> #[trigger] held@[x] as int == count_above(parents@, rooms@, x, k as int)
                    + if above(parents@, x, f as int) { 1int } else { 0int },
            decreases at,
        {
            proof {
                lemma_count_above_bound(parents@, rooms@, at as int, k as int);
                assert(above(parents@, at as int, at as int));
            }
            let h = held[at];
            assert(h as int == count_above(parents@, rooms@, at as int, k as int));
            held.set(at, h + 1);
            match parents[at] {
                Some(p) => {
                    proof {
                        assert forall|x: int| 0 <= x < n implies #[trigger] held@[x] as int == count_above(parents@, rooms@, x, k as int)
                            + if above(parents@, x, f as int) && !above(parents@, x, p as int) { 1int } else { 0int } by {
                            assert(above(parents@, x, at as int) == (x == at || above(parents@, x, p as int)));
                            lemma_above_below(parents@, x, p as int);
                            if x == at as int {
                                assert(!above(parents@, x, p as int));
                            }
                        }
                        assert(above(parents@, p as int, p as int));
                        assert(above(parents@, p as int, at as int));
                        lemma_above_trans(parents@, p as int, at as int, f as int);
                    }
                    at = p as usize;
                },
                None => {
                    proof {
                        assert forall|x: int| 0 <= x < n implies #[trigger] held@[x] as int == count_above(parents@, rooms@, x, k as int)
                            + if above(parents@, x, f as int) { 1int } else { 0int } by {
                            assert(above(parents@, x, at as int) == (x == at));
                        }
                    }
                    break;
                },
            }
        }
        k = k + 1;
    }
    held
}

proof fn lemma_above_trans(parents: Seq<Option<u32>>, i: int, j: int, f: int)
    requires
        above(parents, i, j),
        above(parents, j, f),
    ensures
        above(parents, i, f),
    decreases f,
{
    if f != j {
        lemma_above_trans(parents, i, j, parents[f]->0 as int);
    }
}

broadcast use vstd::std_specs::hash::group_hash_axioms;

/// The household a reading draws.
pub struct House {
    pub frames: Vec<Frame>,
    pub owners: Vec<Container>,
    pub home: HashMap<u32, Spot>,
    pub folded: Vec<Spot>,
    pub packed: Vec<Spot>,
    pub packs: Vec<(Spot, Spot)>,
    pub multi_crate: bool,
}

/// The outermost room folded among `f` and the rooms it sits inside.
pub open spec fn rep_of(parents: Seq<Option<u32>>, ffold: Seq<bool>, f: int) -> Option<u32>
    decreases f,
{
    if !(0 <= f < parents.len()) {
        None
    } else {
        let up = if parents[f] is Some && (parents[f]->0 as int) < f {
            rep_of(parents, ffold, parents[f]->0 as int)
        } else {
            None
        };
        match up {
            Some(r) => Some(r),
            None => if ffold[f] { Some(f as u32) } else { None },
        }
    }
}

pub open spec fn as_frame(r: Option<u32>) -> Option<Spot> {
    match r {
        Some(f) => Some(Spot::Frame(f)),
        None => None,
    }
}

pub open spec fn parents_of(frames: Seq<Frame>) -> Seq<Option<u32>> {
    frames.map_values(|f: Frame| f.parent)
}

pub open spec fn folds_of(frames: Seq<Frame>) -> Seq<bool> {
    frames.map_values(|f: Frame| f.folded)
}

/// The box standing for `spot` on the paper where a fold hides it: the
/// outermost folded room around it, else its own folded container.
pub open spec fn stands_for(frames: Seq<Frame>, owners: Seq<Container>, home: Map<u32, Spot>, spot: Spot) -> Option<Spot> {
    let parents = parents_of(frames);
    let ffold = folds_of(frames);
    match spot {
        Spot::Frame(f) => if (f as int) < frames.len() && parents[f as int] is Some {
            as_frame(rep_of(parents, ffold, parents[f as int]->0 as int))
        } else {
            None
        },
        Spot::Owner(o) => if (o as int) < owners.len() {
            as_frame(rep_of(parents, ffold, owners[o as int].frame as int))
        } else {
            None
        },
        Spot::Mark(m) => if home.contains_key(m) {
            match home[m] {
                Spot::Frame(f) => as_frame(rep_of(parents, ffold, f as int)),
                Spot::Owner(o) => if (o as int) < owners.len() {
                    match as_frame(rep_of(parents, ffold, owners[o as int].frame as int)) {
                        Some(s) => Some(s),
                        None => if owners[o as int].folded { Some(Spot::Owner(o)) } else { None },
                    }
                } else {
                    None
                },
                Spot::Mark(_) => None,
            }
        } else {
            None
        },
    }
}

/// A list of pairs naming each box at most once.
pub open spec fn keys_once(packs: Seq<(Spot, Spot)>) -> bool {
    forall|a: int, b: int| 0 <= a < b < packs.len() ==> (#[trigger] packs[a]).0 != (#[trigger] packs[b]).0
}

proof fn lemma_first_pack_once(packs: Seq<(Spot, Spot)>, spot: Spot)
    requires
        keys_once(packs),
    ensures
        crate::fn_query::first_pack(packs, spot) matches Some(v) ==> exists|k: int| 0 <= k < packs.len() && #[trigger] packs[k] == (spot, v),
        crate::fn_query::first_pack(packs, spot) is None ==> forall|k: int| 0 <= k < packs.len() ==> (#[trigger] packs[k]).0 != spot,
        forall|k: int| 0 <= k < packs.len() && (#[trigger] packs[k]).0 == spot ==> crate::fn_query::first_pack(packs, spot) == Some(packs[k].1),
    decreases packs.len(),
{
    if packs.len() > 0 {
        let rest = packs.drop_first();
        assert forall|a: int, b: int| 0 <= a < b < rest.len() implies (#[trigger] rest[a]).0 != (#[trigger] rest[b]).0 by {
            assert(packs[a + 1].0 != packs[b + 1].0);
        }
        lemma_first_pack_once(rest, spot);
        if packs[0].0 != spot {
            if crate::fn_query::first_pack(packs, spot) is Some {
                let v = crate::fn_query::first_pack(packs, spot)->0;
                let k = choose|k: int| 0 <= k < rest.len() && #[trigger] rest[k] == (spot, v);
                assert(packs[k + 1] == (spot, v));
            }
            assert forall|k: int| 0 <= k < packs.len() && (#[trigger] packs[k]).0 == spot implies crate::fn_query::first_pack(packs, spot) == Some(packs[k].1) by {
                assert(rest[k - 1] == packs[k]);
            }
        } else {
            assert(packs[0] == (spot, packs[0].1));
            assert forall|k: int| 0 <= k < packs.len() && (#[trigger] packs[k]).0 == spot implies crate::fn_query::first_pack(packs, spot) == Some(packs[k].1) by {
                if k > 0 {
                    assert(packs[0].0 != packs[k].0);
                }
            }
        }
    }
}

/// Each room's outermost folded room among itself and those it sits in.
fn rep_all(parents: &Vec<Option<u32>>, ffold: &Vec<bool>) -> (rep: Vec<Option<u32>>)
    requires
        ffold@.len() == parents@.len(),
        parents@.len() < 0x8000_0000,
        forall|i: int| 0 <= i < parents@.len() && (#[trigger] parents@[i]) is Some ==> (parents@[i]->0 as int) < i,
    ensures
        rep@.len() == parents@.len(),
        forall|i: int| 0 <= i < parents@.len() ==> #[trigger] rep@[i] == rep_of(parents@, ffold@, i),
{
    let mut rep: Vec<Option<u32>> = Vec::new();
    let mut i: usize = 0;
    while i < parents.len()
        invariant
            i <= parents@.len(),
            ffold@.len() == parents@.len(),
            parents@.len() < 0x8000_0000,
            rep@.len() == i,
            forall|x: int| 0 <= x < parents@.len() && (#[trigger] parents@[x]) is Some ==> (parents@[x]->0 as int) < x,
            forall|q: int| 0 <= q < i ==> #[trigger] rep@[q] == rep_of(parents@, ffold@, q),
        decreases parents.len() - i,
    {
        let up = match parents[i] {
            Some(p) => rep[p as usize],
            None => None,
        };
        let r = match up {
            Some(x) => Some(x),
            None => if ffold[i] { Some(i as u32) } else { None },
        };
        rep.push(r);
        i = i + 1;
    }
    rep
}

/// Some mark is a method of container `c`.
pub open spec fn has_member(mowner: Seq<Option<u32>>, c: int) -> bool {
    exists|k: int| 0 <= k < mowner.len() && mowner[k] == Some(c as u32)
}

/// The distinct owner types in first-seen order, and which of them each
/// mark is a method of.
fn gather_owners(tys: &Vec<Option<u32>>) -> (out: (Vec<u32>, Vec<Option<u32>>))
    requires
        tys@.len() < 0x8000_0000,
    ensures
        out.1@.len() == tys@.len(),
        forall|a: int, b: int| 0 <= a < b < out.0@.len() ==> (#[trigger] out.0@[a]) != (#[trigger] out.0@[b]),
        forall|k: int| 0 <= k < tys@.len() ==> (#[trigger] tys@[k] is None <==> out.1@[k] is None),
        forall|k: int| 0 <= k < tys@.len() && (#[trigger] out.1@[k]) is Some ==> (out.1@[k]->0 as int) < out.0@.len()
            && tys@[k] == Some(out.0@[out.1@[k]->0 as int]),
        out.0@.len() <= tys@.len(),
        forall|c: int| 0 <= c < out.0@.len() ==> #[trigger] has_member(out.1@, c),
{
    let mut ctys: Vec<u32> = Vec::new();
    let mut mowner: Vec<Option<u32>> = Vec::new();
    let mut k: usize = 0;
    while k < tys.len()
        invariant
            k <= tys@.len(),
            tys@.len() < 0x8000_0000,
            mowner@.len() == k,
            ctys@.len() <= k,
            forall|a: int, b: int| 0 <= a < b < ctys@.len() ==> (#[trigger] ctys@[a]) != (#[trigger] ctys@[b]),
            forall|q: int| 0 <= q < k ==> (#[trigger] tys@[q] is None <==> mowner@[q] is None),
            forall|q: int| 0 <= q < k && (#[trigger] mowner@[q]) is Some ==> (mowner@[q]->0 as int) < ctys@.len()
                && tys@[q] == Some(ctys@[mowner@[q]->0 as int]),
            forall|c: int| 0 <= c < ctys@.len() ==> #[trigger] has_member(mowner@, c),
        decreases tys.len() - k,
    {
        match tys[k] {
            None => {
                let ghost mo = mowner@;
                mowner.push(None);
                proof {
                    assert forall|cc: int| 0 <= cc < ctys@.len() implies #[trigger] has_member(mowner@, cc) by {
                        assert(has_member(mo, cc));
                        let q = choose|q: int| 0 <= q < mo.len() && mo[q] == Some(cc as u32);
                        assert(mowner@[q] == Some(cc as u32));
                    }
                }
            },
            Some(t) => {
                let mut c: usize = 0;
                while c < ctys.len() && ctys[c] != t
                    invariant
                        c <= ctys@.len(),
                        forall|q: int| 0 <= q < c ==> ctys@[q] != t,
                    decreases ctys.len() - c,
                {
                    c = c + 1;
                }
                let ghost before = ctys@;
                if c == ctys.len() {
                    ctys.push(t);
                    proof {
                        assert forall|a: int, b: int| 0 <= a < b < ctys@.len() implies (#[trigger] ctys@[a]) != (#[trigger] ctys@[b]) by {
                            if b == before.len() {
                                assert(ctys@[a] == before[a]);
                            }
                        }
                    }
                }
                let ghost mo = mowner@;
                mowner.push(Some(c as u32));
                proof {
                    assert forall|cc: int| 0 <= cc < ctys@.len() implies #[trigger] has_member(mowner@, cc) by {
                        if cc < before.len() {
                            assert(has_member(mo, cc));
                            let q = choose|q: int| 0 <= q < mo.len() && mo[q] == Some(cc as u32);
                            assert(mowner@[q] == Some(cc as u32));
                        } else {
                            assert(mowner@[k as int] == Some(cc as u32));
                        }
                    }
                }
            },
        }
        k = k + 1;
    }
    (ctys, mowner)
}

/// The ids of the marks a predicate on their position selects, in mark
/// order: a room's own shelf.
/// The ids at `a` and `b` are those of marks in the same order.
pub open spec fn pair_in_order(marks: Seq<FnMark>, ids: Seq<u32>, a: int, b: int) -> bool {
    exists|ka: int, kb: int| 0 <= ka < kb < marks.len() && #[trigger] marks[ka].id == ids[a] && #[trigger] marks[kb].id == ids[b]
}

/// The ids come in the order their marks do.
#[verifier::opaque]
pub open spec fn in_mark_order(marks: Seq<FnMark>, ids: Seq<u32>) -> bool {
    forall|a: int, b: int| 0 <= a < b < ids.len() ==> #[trigger] pair_in_order(marks, ids, a, b)
}

/// Ids picked from the marks in a rising run of positions come in mark
/// order.
proof fn lemma_in_mark_order(marks: Seq<FnMark>, ids: Seq<u32>, pos: Seq<int>)
    requires
        pos.len() == ids.len(),
        forall|j: int| 0 <= j < pos.len() ==> 0 <= #[trigger] pos[j] < marks.len() && marks[pos[j]].id == ids[j],
        forall|a: int, b: int| 0 <= a < b < pos.len() ==> #[trigger] pos[a] < #[trigger] pos[b],
    ensures
        in_mark_order(marks, ids),
{
    reveal(in_mark_order);
    assert forall|a: int, b: int| 0 <= a < b < ids.len() implies #[trigger] pair_in_order(marks, ids, a, b) by {
        assert(pos[a] < pos[b]);
        assert(marks[pos[a]].id == ids[a] && marks[pos[b]].id == ids[b]);
        assert(0 <= pos[a] < pos[b] < marks.len());
    }
}

fn shelf_of(marks: &Vec<FnMark>, mowner: &Vec<Option<u32>>, rooms: &Vec<u32>, room: u32) -> (out: Vec<u32>)
    requires
        mowner@.len() == marks@.len(),
        rooms@.len() == marks@.len(),
    ensures
        forall|m: u32| out@.contains(m) <==> exists|k: int| 0 <= k < marks@.len() && #[trigger] marks@[k].id == m
            && mowner@[k] is None && rooms@[k] == room,
        in_mark_order(marks@, out@),
{
    let mut out: Vec<u32> = Vec::new();
    let ghost mut pos: Seq<int> = Seq::empty();
    let mut k: usize = 0;
    while k < marks.len()
        invariant
            k <= marks@.len(),
            pos.len() == out@.len(),
            forall|j: int| 0 <= j < pos.len() ==> 0 <= #[trigger] pos[j] < k && marks@[pos[j]].id == out@[j],
            forall|x: int, y: int| 0 <= x < y < pos.len() ==> #[trigger] pos[x] < #[trigger] pos[y],
            mowner@.len() == marks@.len(),
            rooms@.len() == marks@.len(),
            forall|m: u32| out@.contains(m) <==> exists|q: int| 0 <= q < k && #[trigger] marks@[q].id == m
                && mowner@[q] is None && rooms@[q] == room,
        decreases marks.len() - k,
    {
        let ghost before = out@;
        if mowner[k].is_none() && rooms[k] == room {
            out.push(marks[k].id);
            proof {
                pos = pos.push(k as int);
            }
        }
        proof {
            assert forall|m: u32| out@.contains(m) <==> exists|q: int| 0 <= q < k + 1 && #[trigger] marks@[q].id == m
                && mowner@[q] is None && rooms@[q] == room by {
                if before.contains(m) {
                    let i = choose|i: int| 0 <= i < before.len() && before[i] == m;
                    assert(out@[i] == m);
                }
                if out@.contains(m) {
                    let i = choose|i: int| 0 <= i < out@.len() && out@[i] == m;
                    if i < before.len() {
                        assert(before[i] == m);
                    }
                }
                if marks@[k as int].id == m && mowner@[k as int] is None && rooms@[k as int] == room {
                    assert(out@[out@.len() - 1] == m);
                }
            }
        }
        k = k + 1;
    }
    proof {
        lemma_in_mark_order(marks@, out@, pos);
    }
    out
}

/// The ids of one container's methods, in mark order.
fn methods_of(marks: &Vec<FnMark>, mowner: &Vec<Option<u32>>, c: u32) -> (out: Vec<u32>)
    requires
        mowner@.len() == marks@.len(),
    ensures
        forall|m: u32| out@.contains(m) <==> exists|k: int| 0 <= k < marks@.len() && #[trigger] marks@[k].id == m
            && mowner@[k] == Some(c),
        (exists|k: int| 0 <= k < marks@.len() && #[trigger] mowner@[k] == Some(c)) ==> out@.len() > 0,
        in_mark_order(marks@, out@),
{
    let mut out: Vec<u32> = Vec::new();
    let ghost mut pos: Seq<int> = Seq::empty();
    let mut k: usize = 0;
    while k < marks.len()
        invariant
            k <= marks@.len(),
            pos.len() == out@.len(),
            forall|j: int| 0 <= j < pos.len() ==> 0 <= #[trigger] pos[j] < k && marks@[pos[j]].id == out@[j],
            forall|x: int, y: int| 0 <= x < y < pos.len() ==> #[trigger] pos[x] < #[trigger] pos[y],
            mowner@.len() == marks@.len(),
            forall|m: u32| out@.contains(m) <==> exists|q: int| 0 <= q < k && #[trigger] marks@[q].id == m
                && mowner@[q] == Some(c),
            (exists|q: int| 0 <= q < k && #[trigger] mowner@[q] == Some(c)) ==> out@.len() > 0,
        decreases marks.len() - k,
    {
        let ghost before = out@;
        if mowner[k] == Some(c) {
            out.push(marks[k].id);
            proof {
                pos = pos.push(k as int);
            }
        }
        proof {
            assert forall|m: u32| out@.contains(m) <==> exists|q: int| 0 <= q < k + 1 && #[trigger] marks@[q].id == m
                && mowner@[q] == Some(c) by {
                if before.contains(m) {
                    let i = choose|i: int| 0 <= i < before.len() && before[i] == m;
                    assert(out@[i] == m);
                }
                if out@.contains(m) {
                    let i = choose|i: int| 0 <= i < out@.len() && out@[i] == m;
                    if i < before.len() {
                        assert(before[i] == m);
                    }
                }
                if marks@[k as int].id == m && mowner@[k as int] == Some(c) {
                    assert(out@[out@.len() - 1] == m);
                }
            }
        }
        k = k + 1;
    }
    proof {
        lemma_in_mark_order(marks@, out@, pos);
    }
    out
}

/// The rooms whose parent is `i`, ascending.
fn kids_of(parents: &Vec<Option<u32>>, i: u32) -> (out: Vec<u32>)
    requires
        parents@.len() < 0x8000_0000,
    ensures
        forall|j: int| 0 <= j < out@.len() ==> (#[trigger] out@[j] as int) < parents@.len() && parents@[out@[j] as int] == Some(i),
        forall|j: int| 0 <= j < parents@.len() && #[trigger] parents@[j] == Some(i) ==> out@.contains(j as u32),
{
    let mut out: Vec<u32> = Vec::new();
    let mut j: usize = 0;
    while j < parents.len()
        invariant
            j <= parents@.len(),
            parents@.len() < 0x8000_0000,
            forall|q: int| 0 <= q < out@.len() ==> (#[trigger] out@[q] as int) < parents@.len() && parents@[out@[q] as int] == Some(i),
            forall|q: int| 0 <= q < j && #[trigger] parents@[q] == Some(i) ==> out@.contains(q as u32),
        decreases parents.len() - j,
    {
        let ghost before = out@;
        if parents[j] == Some(i) {
            out.push(j as u32);
            proof {
                assert(out@[out@.len() - 1] == j as u32);
            }
        }
        proof {
            assert forall|q: int| 0 <= q < j + 1 && #[trigger] parents@[q] == Some(i) implies out@.contains(q as u32) by {
                if q < j {
                    let x = choose|x: int| 0 <= x < before.len() && before[x] == q as u32;
                    assert(out@[x] == q as u32);
                }
            }
        }
        j = j + 1;
    }
    out
}

/// A container's key in a fold set, as plain text.
pub open spec fn owner_fold_view(o: Container) -> FoldView {
    FoldView::Owner(o.path@, o.label@)
}

/// A room's key in a fold set, as plain text.
pub open spec fn frame_fold_view(f: Frame) -> FoldView {
    FoldView::Module(seq![f.krate@] + views(f.module@))
}

/// The order containers stand in within a room: where their type is
/// declared, file then line, then by index.
pub open spec fn owner_key(g: CodeGraph, o: Container) -> Seq<u64> {
    text_key(o.path@) + seq![g.items@[o.ty as int].head.line as u64, o.id as u64]
}

/// What a container says of the type whose methods it gathers.
pub open spec fn container_fits(g: CodeGraph, o: Container) -> bool {
    let item = g.items@[o.ty as int];
    &&& has_owner(g, o.ty)
    &&& o.decl@ == (if item.head.kind == ItemKind::Trait { "trait"@ } else { "impl"@ })
    &&& o.name@ == item.head.name@
    &&& o.kind == item.head.kind
    &&& o.vis == item.head.vis
    &&& o.path@ == g.files@[item.file as int].path@
    &&& o.label@ == item.head.label@
    &&& o.on_data == (item.head.kind.spec_data() && item.parent is None)
}

/// The first mark that is a method of container `c`.
fn first_member(mowner: &Vec<Option<u32>>, c: u32) -> (k: usize)
    requires
        has_member(mowner@, c as int),
    ensures
        k < mowner@.len(),
        mowner@[k as int] == Some(c),
{
    let mut k: usize = 0;
    while k < mowner.len()
        invariant
            k <= mowner@.len(),
            has_member(mowner@, c as int),
            forall|q: int| 0 <= q < k ==> mowner@[q] != Some(c),
        decreases mowner.len() - k,
    {
        if mowner[k] == Some(c) {
            return k;
        }
        k = k + 1;
    }
    proof {
        let q = choose|q: int| 0 <= q < mowner@.len() && mowner@[q] == Some(c);
    }
    0
}

/// One container per owner type, standing in the room of the first of its
/// methods, holding every one of them.
fn build_owners(
    g: &CodeGraph,
    marks: &Vec<FnMark>,
    mowner: &Vec<Option<u32>>,
    ctys: &Vec<u32>,
    rooms: &Vec<u32>,
    reading: &FnReading,
) -> (owners: Vec<Container>)
    requires
        mowner@.len() == marks@.len(),
        rooms@.len() == marks@.len(),
        ctys@.len() < 0x8000_0000,
        forall|c: int| 0 <= c < ctys@.len() ==> #[trigger] has_member(mowner@, c),
        forall|c: int| 0 <= c < ctys@.len() ==> has_owner(*g, #[trigger] ctys@[c]),
    ensures
        owners@.len() == ctys@.len(),
        forall|c: int| 0 <= c < owners@.len() ==> {
            let o = #[trigger] owners@[c];
            &&& o.id == c
            &&& o.ty == ctys@[c]
            &&& container_fits(*g, o)
            &&& exists|k: int| 0 <= k < marks@.len() && mowner@[k] == Some(c as u32) && o.frame == rooms@[k]
            &&& forall|m: u32| o.marks@.contains(m) <==> exists|k: int| 0 <= k < marks@.len() && #[trigger] marks@[k].id == m
                && mowner@[k] == Some(c as u32)
            &&& o.folded == (fold_views(reading.folds@).contains(owner_fold_view(o)) && o.marks@.len() > 0)
        },
        forall|c: int| 0 <= c < owners@.len() ==> in_mark_order(marks@, (#[trigger] owners@[c]).marks@),
{
    proof {
        reveal_strlit("trait");
        reveal_strlit("impl");
    }
    let mut owners: Vec<Container> = Vec::new();
    let mut c: usize = 0;
    while c < ctys.len()
        invariant
            c <= ctys@.len(),
            ctys@.len() < 0x8000_0000,
            mowner@.len() == marks@.len(),
            rooms@.len() == marks@.len(),
            forall|q: int| 0 <= q < ctys@.len() ==> #[trigger] has_member(mowner@, q),
            forall|q: int| 0 <= q < ctys@.len() ==> has_owner(*g, #[trigger] ctys@[q]),
            owners@.len() == c,
            forall|q: int| 0 <= q < c ==> {
                let o = #[trigger] owners@[q];
                &&& o.id == q
                &&& o.ty == ctys@[q]
                &&& container_fits(*g, o)
                &&& exists|k: int| 0 <= k < marks@.len() && mowner@[k] == Some(q as u32) && o.frame == rooms@[k]
                &&& forall|m: u32| o.marks@.contains(m) <==> exists|k: int| 0 <= k < marks@.len() && #[trigger] marks@[k].id == m
                    && mowner@[k] == Some(q as u32)
                &&& o.folded == (fold_views(reading.folds@).contains(owner_fold_view(o)) && o.marks@.len() > 0)
            },
            forall|q: int| 0 <= q < c ==> in_mark_order(marks@, (#[trigger] owners@[q]).marks@),
        decreases ctys.len() - c,
    {
        let ty = ctys[c];
        assert(has_owner(*g, ctys@[c as int]));
        assert(has_member(mowner@, c as int));
        let first = first_member(mowner, c as u32);
        let item = &g.items[ty as usize];
        let file = &g.files[item.file as usize];
        let decl: &'static str = match item.head.kind {
            ItemKind::Trait => "trait",
            _ => "impl",
        };
        let methods = methods_of(marks, mowner, c as u32);
        let path = file.path.clone();
        let label = item.head.label.clone();
        let key = owner_fold(path.as_str(), label.as_str());
        let folded = fold_in(&reading.folds, &key) && methods.len() > 0;
        let o = Container {
            id: c as u32,
            frame: rooms[first],
            ty,
            decl,
            name: item.head.name.clone(),
            kind: item.head.kind,
            vis: item.head.vis,
            path,
            label,
            on_data: item.head.kind.is_data() && item.parent.is_none(),
            marks: methods,
            folded,
        };
        let ghost before = owners@;
        owners.push(o);
        proof {
            assert forall|q: int| 0 <= q < c + 1 implies {
                let o = #[trigger] owners@[q];
                &&& o.id == q
                &&& o.ty == ctys@[q]
                &&& container_fits(*g, o)
                &&& exists|k: int| 0 <= k < marks@.len() && mowner@[k] == Some(q as u32) && o.frame == rooms@[k]
                &&& forall|m: u32| o.marks@.contains(m) <==> exists|k: int| 0 <= k < marks@.len() && #[trigger] marks@[k].id == m
                    && mowner@[k] == Some(q as u32)
                &&& o.folded == (fold_views(reading.folds@).contains(owner_fold_view(o)) && o.marks@.len() > 0)
            } by {
                if q < c {
                    assert(owners@[q] == before[q]);
                } else {
                    assert(mowner@[first as int] == Some(q as u32));
                }
            }
            assert forall|q: int| 0 <= q < c + 1 implies in_mark_order(marks@, (#[trigger] owners@[q]).marks@) by {
                if q < c {
                    assert(owners@[q] == before[q]);
                }
            }
        }
        c = c + 1;
    }
    owners
}

/// The containers standing in room `f`, in the order their types are
/// declared.
fn owners_in(g: &CodeGraph, owners: &Vec<Container>, f: u32) -> (out: Vec<u32>)
    requires
        owners@.len() < 0x8000_0000,
        forall|c: int| 0 <= c < owners@.len() ==> (#[trigger] owners@[c]).id == c && has_owner(*g, owners@[c].ty),
    ensures
        forall|c: u32| out@.contains(c) <==> ((c as int) < owners@.len() && owners@[c as int].frame == f),
        forall|a: int, b: int| 0 <= a < b < out@.len() ==> (#[trigger] out@[a]) != (#[trigger] out@[b]),
        forall|a: int, b: int| 0 <= a < b < out@.len() ==> lex_le(
            owner_key(*g, owners@[(#[trigger] out@[a]) as int]),
            owner_key(*g, owners@[(#[trigger] out@[b]) as int]),
        ),
{
    let mut keyed: Vec<(Vec<u64>, u32)> = Vec::new();
    let mut c: usize = 0;
    while c < owners.len()
        invariant
            c <= owners@.len(),
            owners@.len() < 0x8000_0000,
            forall|q: int| 0 <= q < owners@.len() ==> (#[trigger] owners@[q]).id == q && has_owner(*g, owners@[q].ty),
            forall|q: int| 0 <= q < keyed@.len() ==> ((#[trigger] keyed@[q]).1 as int) < c && owners@[keyed@[q].1 as int].frame == f
                && keyed@[q].0@ == owner_key(*g, owners@[keyed@[q].1 as int]),
            forall|x: u32| (x as int) < c && owners@[x as int].frame == f ==> exists|q: int| 0 <= q < keyed@.len() && (#[trigger] keyed@[q]).1 == x,
            forall|a: int, b: int| 0 <= a < b < keyed@.len() ==> (#[trigger] keyed@[a]).1 < (#[trigger] keyed@[b]).1,
        decreases owners.len() - c,
    {
        let ghost before = keyed@;
        if owners[c].frame == f {
            let o = &owners[c];
            let mut key: Vec<u64> = Vec::new();
            push_text(&mut key, o.path.as_str());
            key.push(g.items[o.ty as usize].head.line as u64);
            key.push(c as u64);
            assert(key@ =~= owner_key(*g, owners@[c as int]));
            keyed.push((key, c as u32));
            proof {
                assert forall|x: u32| (x as int) < c + 1 && owners@[x as int].frame == f implies exists|q: int| 0 <= q < keyed@.len() && (#[trigger] keyed@[q]).1 == x by {
                    if x == c {
                        assert(keyed@[before.len() as int].1 == x);
                    } else {
                        let q = choose|q: int| 0 <= q < before.len() && (#[trigger] before[q]).1 == x;
                        assert(keyed@[q] == before[q]);
                    }
                }
            }
        }
        c = c + 1;
    }
    let ghost all = keyed@;
    proof {
        assert(all.no_duplicates()) by {
            assert forall|a: int, b: int| 0 <= a < all.len() && 0 <= b < all.len() && a != b implies all[a] != all[b] by {
                if a < b {
                    assert(all[a].1 < all[b].1);
                } else {
                    assert(all[b].1 < all[a].1);
                }
            }
        }
    }
    let sorted = sort_by_key(keyed);
    let ghost s = sorted@;
    proof {
        lemma_same_entries(s, all);
        lemma_no_dup_moves(all, s);
    }
    let out = values_of(sorted);
    proof {
        assert forall|x: u32| out@.contains(x) <==> ((x as int) < owners@.len() && owners@[x as int].frame == f) by {
            if out@.contains(x) {
                let k = choose|k: int| 0 <= k < out@.len() && out@[k] == x;
                assert(all.contains(s[k]));
            }
            if (x as int) < owners@.len() && owners@[x as int].frame == f {
                let q = choose|q: int| 0 <= q < all.len() && (#[trigger] all[q]).1 == x;
                assert(s.contains(all[q]));
                let k = choose|k: int| 0 <= k < s.len() && s[k] == all[q];
                assert(out@[k] == x);
            }
        }
        assert forall|a: int, b: int| 0 <= a < b < out@.len() implies (#[trigger] out@[a]) != (#[trigger] out@[b]) by {
            assert(all.contains(s[a]));
            assert(all.contains(s[b]));
            let pa = choose|p: int| 0 <= p < all.len() && all[p] == s[a];
            let pb = choose|p: int| 0 <= p < all.len() && all[p] == s[b];
            if pa != pb {
                if pa < pb {
                    assert(all[pa].1 < all[pb].1);
                } else {
                    assert(all[pb].1 < all[pa].1);
                }
            } else {
                assert(s[a] != s[b]);
            }
        }
        assert forall|a: int, b: int| 0 <= a < b < out@.len() implies lex_le(
            owner_key(*g, owners@[(#[trigger] out@[a]) as int]),
            owner_key(*g, owners@[(#[trigger] out@[b]) as int]),
        ) by {
            assert(lex_le(s[a].0@, s[b].0@));
            assert(all.contains(s[a]));
            assert(all.contains(s[b]));
            let pa = choose|p: int| 0 <= p < all.len() && all[p] == s[a];
            let pb = choose|p: int| 0 <= p < all.len() && all[p] == s[b];
        }
    }
    out
}

/// One frame per room.
fn build_frames(
    g: &CodeGraph,
    keys: &Vec<(String, Vec<String>)>,
    parents: &Vec<Option<u32>>,
    held: &Vec<u32>,
    marks: &Vec<FnMark>,
    mowner: &Vec<Option<u32>>,
    rooms: &Vec<u32>,
    owners: &Vec<Container>,
    reading: &FnReading,
) -> (frames: Vec<Frame>)
    requires
        keys@.len() < 0x8000_0000,
        parents@.len() == keys@.len(),
        held@.len() == keys@.len(),
        mowner@.len() == marks@.len(),
        rooms@.len() == marks@.len(),
        owners@.len() < 0x8000_0000,
        forall|c: int| 0 <= c < owners@.len() ==> (#[trigger] owners@[c]).id == c && has_owner(*g, owners@[c].ty),
    ensures
        frames@.len() == keys@.len(),
        forall|i: int| 0 <= i < frames@.len() ==> {
            let f = #[trigger] frames@[i];
            &&& f.id == i
            &&& f.krate@ == keys@[i].0@
            &&& views(f.module@) == views(keys@[i].1@)
            &&& f.parent == parents@[i]
            &&& f.held == held@[i]
            &&& f.folded == (fold_views(reading.folds@).contains(frame_fold_view(f)) && f.held > 0)
            &&& forall|m: u32| f.marks@.contains(m) <==> exists|k: int| 0 <= k < marks@.len() && #[trigger] marks@[k].id == m
                && mowner@[k] is None && rooms@[k] == i
            &&& forall|c: u32| f.owners@.contains(c) <==> ((c as int) < owners@.len() && owners@[c as int].frame == i)
            &&& forall|a: int, b: int| 0 <= a < b < f.owners@.len() ==> lex_le(
                owner_key(*g, owners@[(#[trigger] f.owners@[a]) as int]),
                owner_key(*g, owners@[(#[trigger] f.owners@[b]) as int]),
            )
            &&& forall|j: int| 0 <= j < f.kids@.len() ==> (#[trigger] f.kids@[j] as int) < parents@.len() && parents@[f.kids@[j] as int] == Some(i as u32)
            &&& forall|j: int| 0 <= j < parents@.len() && #[trigger] parents@[j] == Some(i as u32) ==> f.kids@.contains(j as u32)
        },
        forall|i: int| 0 <= i < frames@.len() ==> in_mark_order(marks@, (#[trigger] frames@[i]).marks@),
{
    let mut frames: Vec<Frame> = Vec::new();
    let mut i: usize = 0;
    while i < keys.len()
        invariant
            i <= keys@.len(),
            keys@.len() < 0x8000_0000,
            parents@.len() == keys@.len(),
            held@.len() == keys@.len(),
            mowner@.len() == marks@.len(),
            rooms@.len() == marks@.len(),
            owners@.len() < 0x8000_0000,
            forall|c: int| 0 <= c < owners@.len() ==> (#[trigger] owners@[c]).id == c && has_owner(*g, owners@[c].ty),
            frames@.len() == i,
            forall|q: int| 0 <= q < i ==> {
                let f = #[trigger] frames@[q];
                &&& f.id == q
                &&& f.krate@ == keys@[q].0@
                &&& views(f.module@) == views(keys@[q].1@)
                &&& f.parent == parents@[q]
                &&& f.held == held@[q]
                &&& f.folded == (fold_views(reading.folds@).contains(frame_fold_view(f)) && f.held > 0)
                &&& forall|m: u32| f.marks@.contains(m) <==> exists|k: int| 0 <= k < marks@.len() && #[trigger] marks@[k].id == m
                    && mowner@[k] is None && rooms@[k] == q
                &&& forall|c: u32| f.owners@.contains(c) <==> ((c as int) < owners@.len() && owners@[c as int].frame == q)
                &&& forall|a: int, b: int| 0 <= a < b < f.owners@.len() ==> lex_le(
                    owner_key(*g, owners@[(#[trigger] f.owners@[a]) as int]),
                    owner_key(*g, owners@[(#[trigger] f.owners@[b]) as int]),
                )
                &&& forall|j: int| 0 <= j < f.kids@.len() ==> (#[trigger] f.kids@[j] as int) < parents@.len() && parents@[f.kids@[j] as int] == Some(q as u32)
                &&& forall|j: int| 0 <= j < parents@.len() && #[trigger] parents@[j] == Some(q as u32) ==> f.kids@.contains(j as u32)
            },
            forall|q: int| 0 <= q < i ==> in_mark_order(marks@, (#[trigger] frames@[q]).marks@),
        decreases keys.len() - i,
    {
        let krate = keys[i].0.clone();
        let module = copy_strings(keys[i].1.as_slice());
        let key = crate_key(&krate, &module);
        let fold = mod_fold(key.as_slice());
        let folded = fold_in(&reading.folds, &fold) && held[i] > 0;
        let f = Frame {
            id: i as u32,
            krate,
            module,
            parent: parents[i],
            marks: shelf_of(marks, mowner, rooms, i as u32),
            owners: owners_in(g, owners, i as u32),
            kids: kids_of(parents, i as u32),
            folded,
            held: held[i],
        };
        assert(fold.view() == frame_fold_view(f));
        let ghost before = frames@;
        frames.push(f);
        proof {
            assert forall|q: int| 0 <= q < i + 1 implies {
                let f = #[trigger] frames@[q];
                &&& f.id == q
                &&& f.krate@ == keys@[q].0@
                &&& views(f.module@) == views(keys@[q].1@)
                &&& f.parent == parents@[q]
                &&& f.held == held@[q]
                &&& f.folded == (fold_views(reading.folds@).contains(frame_fold_view(f)) && f.held > 0)
                &&& forall|m: u32| f.marks@.contains(m) <==> exists|k: int| 0 <= k < marks@.len() && #[trigger] marks@[k].id == m
                    && mowner@[k] is None && rooms@[k] == q
                &&& forall|c: u32| f.owners@.contains(c) <==> ((c as int) < owners@.len() && owners@[c as int].frame == q)
                &&& forall|a: int, b: int| 0 <= a < b < f.owners@.len() ==> lex_le(
                    owner_key(*g, owners@[(#[trigger] f.owners@[a]) as int]),
                    owner_key(*g, owners@[(#[trigger] f.owners@[b]) as int]),
                )
                &&& forall|j: int| 0 <= j < f.kids@.len() ==> (#[trigger] f.kids@[j] as int) < parents@.len() && parents@[f.kids@[j] as int] == Some(q as u32)
                &&& forall|j: int| 0 <= j < parents@.len() && #[trigger] parents@[j] == Some(q as u32) ==> f.kids@.contains(j as u32)
            } by {
                if q < i {
                    assert(frames@[q] == before[q]);
                }
            }
            assert forall|q: int| 0 <= q < i + 1 implies in_mark_order(marks@, (#[trigger] frames@[q]).marks@) by {
                if q < i {
                    assert(frames@[q] == before[q]);
                }
            }
        }
        i = i + 1;
    }
    frames
}

/// The box each mark is written in: its container, or its room's shelf.
fn build_home(marks: &Vec<FnMark>, mowner: &Vec<Option<u32>>, rooms: &Vec<u32>) -> (home: HashMap<u32, Spot>)
    requires
        mowner@.len() == marks@.len(),
        rooms@.len() == marks@.len(),
        forall|a: int, b: int| 0 <= a < b < marks@.len() ==> (#[trigger] marks@[a]).id != (#[trigger] marks@[b]).id,
    ensures
        forall|x: u32| #[trigger] home@.contains_key(x) <==> exists|k: int| 0 <= k < marks@.len() && #[trigger] marks@[k].id == x,
        forall|k: int| 0 <= k < marks@.len() ==> #[trigger] home@[marks@[k].id] == match mowner@[k] {
            Some(c) => Spot::Owner(c),
            None => Spot::Frame(rooms@[k]),
        },
{
    let mut home: HashMap<u32, Spot> = HashMap::new();
    let mut k: usize = 0;
    while k < marks.len()
        invariant
            k <= marks@.len(),
            mowner@.len() == marks@.len(),
            rooms@.len() == marks@.len(),
            forall|a: int, b: int| 0 <= a < b < marks@.len() ==> (#[trigger] marks@[a]).id != (#[trigger] marks@[b]).id,
            forall|x: u32| #[trigger] home@.contains_key(x) <==> exists|q: int| 0 <= q < k && #[trigger] marks@[q].id == x,
            forall|q: int| 0 <= q < k ==> #[trigger] home@[marks@[q].id] == match mowner@[q] {
                Some(c) => Spot::Owner(c),
                None => Spot::Frame(rooms@[q]),
            },
        decreases marks.len() - k,
    {
        let spot = match mowner[k] {
            Some(c) => Spot::Owner(c),
            None => Spot::Frame(rooms[k]),
        };
        home.insert(marks[k].id, spot);
        proof {
            assert forall|q: int| 0 <= q < k + 1 implies #[trigger] home@[marks@[q].id] == match mowner@[q] {
                Some(c) => Spot::Owner(c),
                None => Spot::Frame(rooms@[q]),
            } by {
                if q < k {
                    assert(marks@[q].id != marks@[k as int].id);
                }
            }
            assert forall|x: u32| #[trigger] home@.contains_key(x) <==> exists|q: int| 0 <= q < k + 1 && #[trigger] marks@[q].id == x by {
                if x == marks@[k as int].id {
                    assert(marks@[k as int].id == x);
                }
            }
        }
        k = k + 1;
    }
    home
}

/// The boxes folded by hand, rooms first, and those of them the packer
/// may skip.
fn fold_lists(frames: &Vec<Frame>, owners: &Vec<Container>, reading: &FnReading) -> (out: (Vec<Spot>, Vec<Spot>))
    requires
        frames@.len() < 0x8000_0000,
        owners@.len() < 0x8000_0000,
    ensures
        forall|s: Spot| out.0@.contains(s) <==> match s {
            Spot::Frame(f) => (f as int) < frames@.len() && frames@[f as int].folded,
            Spot::Owner(o) => (o as int) < owners@.len() && owners@[o as int].folded,
            Spot::Mark(_) => false,
        },
        forall|s: Spot| out.1@.contains(s) <==> match s {
            Spot::Frame(f) => (f as int) < frames@.len() && frames@[f as int].folded && fold_views(reading.packed@).contains(
                frame_fold_view(frames@[f as int]),
            ),
            Spot::Owner(o) => (o as int) < owners@.len() && owners@[o as int].folded && fold_views(reading.packed@).contains(
                owner_fold_view(owners@[o as int]),
            ),
            Spot::Mark(_) => false,
        },
{
    let mut folded: Vec<Spot> = Vec::new();
    let mut packed: Vec<Spot> = Vec::new();
    let mut i: usize = 0;
    while i < frames.len()
        invariant
            i <= frames@.len(),
            frames@.len() < 0x8000_0000,
            forall|s: Spot| folded@.contains(s) <==> match s {
                Spot::Frame(f) => (f as int) < i && frames@[f as int].folded,
                _ => false,
            },
            forall|s: Spot| packed@.contains(s) <==> match s {
                Spot::Frame(f) => (f as int) < i && frames@[f as int].folded && fold_views(reading.packed@).contains(
                    frame_fold_view(frames@[f as int]),
                ),
                _ => false,
            },
        decreases frames.len() - i,
    {
        let ghost f0 = folded@;
        let ghost p0 = packed@;
        if frames[i].folded {
            folded.push(Spot::Frame(i as u32));
            let key = frames[i].key();
            let fold = mod_fold(key.as_slice());
            assert(fold.view() == frame_fold_view(frames@[i as int]));
            if fold_in(&reading.packed, &fold) {
                packed.push(Spot::Frame(i as u32));
            }
        }
        proof {
            assert forall|s: Spot| folded@.contains(s) <==> match s {
                Spot::Frame(f) => (f as int) < i + 1 && frames@[f as int].folded,
                _ => false,
            } by {
                lemma_push_has(f0, Spot::Frame(i as u32), s);
            }
            assert forall|s: Spot| packed@.contains(s) <==> match s {
                Spot::Frame(f) => (f as int) < i + 1 && frames@[f as int].folded && fold_views(reading.packed@).contains(
                    frame_fold_view(frames@[f as int]),
                ),
                _ => false,
            } by {
                lemma_push_has(p0, Spot::Frame(i as u32), s);
            }
        }
        i = i + 1;
    }
    let mut c: usize = 0;
    while c < owners.len()
        invariant
            c <= owners@.len(),
            owners@.len() < 0x8000_0000,
            forall|s: Spot| folded@.contains(s) <==> match s {
                Spot::Frame(f) => (f as int) < frames@.len() && frames@[f as int].folded,
                Spot::Owner(o) => (o as int) < c && owners@[o as int].folded,
                Spot::Mark(_) => false,
            },
            forall|s: Spot| packed@.contains(s) <==> match s {
                Spot::Frame(f) => (f as int) < frames@.len() && frames@[f as int].folded && fold_views(reading.packed@).contains(
                    frame_fold_view(frames@[f as int]),
                ),
                Spot::Owner(o) => (o as int) < c && owners@[o as int].folded && fold_views(reading.packed@).contains(
                    owner_fold_view(owners@[o as int]),
                ),
                Spot::Mark(_) => false,
            },
        decreases owners.len() - c,
    {
        let ghost f0 = folded@;
        let ghost p0 = packed@;
        if owners[c].folded {
            folded.push(Spot::Owner(c as u32));
            let fold = owners[c].key();
            if fold_in(&reading.packed, &fold) {
                packed.push(Spot::Owner(c as u32));
            }
        }
        proof {
            assert forall|s: Spot| folded@.contains(s) <==> match s {
                Spot::Frame(f) => (f as int) < frames@.len() && frames@[f as int].folded,
                Spot::Owner(o) => (o as int) < c + 1 && owners@[o as int].folded,
                Spot::Mark(_) => false,
            } by {
                lemma_push_has(f0, Spot::Owner(c as u32), s);
            }
            assert forall|s: Spot| packed@.contains(s) <==> match s {
                Spot::Frame(f) => (f as int) < frames@.len() && frames@[f as int].folded && fold_views(reading.packed@).contains(
                    frame_fold_view(frames@[f as int]),
                ),
                Spot::Owner(o) => (o as int) < c + 1 && owners@[o as int].folded && fold_views(reading.packed@).contains(
                    owner_fold_view(owners@[o as int]),
                ),
                Spot::Mark(_) => false,
            } by {
                lemma_push_has(p0, Spot::Owner(c as u32), s);
            }
        }
        c = c + 1;
    }
    (folded, packed)
}

proof fn lemma_push_has<A>(s: Seq<A>, x: A, y: A)
    ensures
        s.push(x).contains(y) <==> (s.contains(y) || y == x),
{
    if s.contains(y) {
        let k = choose|k: int| 0 <= k < s.len() && s[k] == y;
        assert(s.push(x)[k] == y);
    }
    if y == x {
        assert(s.push(x)[s.len() as int] == y);
    }
    if s.push(x).contains(y) {
        let k = choose|k: int| 0 <= k < s.push(x).len() && s.push(x)[k] == y;
        if k < s.len() {
            assert(s[k] == y);
        }
    }
}

proof fn lemma_rep_below(parents: Seq<Option<u32>>, ffold: Seq<bool>, f: int)
    ensures
        rep_of(parents, ffold, f) matches Some(r) ==> (r as int) <= f,
    decreases f,
{
    if 0 <= f < parents.len() && parents[f] is Some && (parents[f]->0 as int) < f {
        lemma_rep_below(parents, ffold, parents[f]->0 as int);
    }
}

/// Every box a fold hides, with the box that stands for it.
fn pack_list(
    frames: &Vec<Frame>,
    owners: &Vec<Container>,
    marks: &Vec<FnMark>,
    mowner: &Vec<Option<u32>>,
    rooms: &Vec<u32>,
    home: Ghost<Map<u32, Spot>>,
) -> (packs: Vec<(Spot, Spot)>)
    requires
        frames@.len() < 0x8000_0000,
        owners@.len() < 0x8000_0000,
        mowner@.len() == marks@.len(),
        rooms@.len() == marks@.len(),
        forall|i: int| 0 <= i < frames@.len() && (#[trigger] frames@[i]).parent is Some ==> (frames@[i].parent->0 as int) < i,
        forall|c: int| 0 <= c < owners@.len() ==> ((#[trigger] owners@[c]).frame as int) < frames@.len(),
        forall|k: int| 0 <= k < marks@.len() ==> (#[trigger] rooms@[k] as int) < frames@.len(),
        forall|k: int| 0 <= k < marks@.len() && (#[trigger] mowner@[k]) is Some ==> (mowner@[k]->0 as int) < owners@.len(),
        forall|a: int, b: int| 0 <= a < b < marks@.len() ==> (#[trigger] marks@[a]).id != (#[trigger] marks@[b]).id,
        forall|x: u32| #[trigger] home@.contains_key(x) <==> exists|k: int| 0 <= k < marks@.len() && #[trigger] marks@[k].id == x,
        forall|k: int| 0 <= k < marks@.len() ==> #[trigger] home@[marks@[k].id] == match mowner@[k] {
            Some(c) => Spot::Owner(c),
            None => Spot::Frame(rooms@[k]),
        },
    ensures
        keys_once(packs@),
        forall|k: int| 0 <= k < packs@.len() ==> (#[trigger] packs@[k]).0 != packs@[k].1,
        forall|spot: Spot| #[trigger] crate::fn_query::first_pack(packs@, spot) == stands_for(frames@, owners@, home@, spot),
{
    let ghost parents = parents_of(frames@);
    let ghost ffold = folds_of(frames@);
    let mut par: Vec<Option<u32>> = Vec::new();
    let mut fol: Vec<bool> = Vec::new();
    let mut i: usize = 0;
    while i < frames.len()
        invariant
            i <= frames@.len(),
            par@ == parents.take(i as int),
            fol@ == ffold.take(i as int),
            parents == parents_of(frames@),
            ffold == folds_of(frames@),
        decreases frames.len() - i,
    {
        par.push(frames[i].parent);
        fol.push(frames[i].folded);
        i = i + 1;
        assert(par@ =~= parents.take(i as int));
        assert(fol@ =~= ffold.take(i as int));
    }
    assert(par@ =~= parents);
    assert(fol@ =~= ffold);
    let rep = rep_all(&par, &fol);
    let mut packs: Vec<(Spot, Spot)> = Vec::new();
    // Rooms inside a folded room.
    let mut f: usize = 0;
    while f < frames.len()
        invariant
            f <= frames@.len(),
            frames@.len() < 0x8000_0000,
            rep@.len() == frames@.len(),
            par@ == parents,
            parents == parents_of(frames@),
            ffold == folds_of(frames@),
            forall|x: int| 0 <= x < frames@.len() ==> #[trigger] rep@[x] == rep_of(parents, ffold, x),
            forall|x: int| 0 <= x < frames@.len() && (#[trigger] frames@[x]).parent is Some ==> (frames@[x].parent->0 as int) < x,
            forall|k: int| 0 <= k < packs@.len() ==> (#[trigger] packs@[k]).0 is Frame && (packs@[k].0->Frame_0 as int) < f
                && packs@[k].0 != packs@[k].1,
            keys_once(packs@),
            forall|x: u32| (x as int) < f ==> (exists|k: int| 0 <= k < packs@.len() && (#[trigger] packs@[k]).0 == Spot::Frame(x)
                && Some(packs@[k].1) == stands_for(frames@, owners@, home@, Spot::Frame(x)))
                || stands_for(frames@, owners@, home@, Spot::Frame(x)) is None,
            forall|x: u32| (x as int) < f && stands_for(frames@, owners@, home@, Spot::Frame(x)) is None ==> forall|k: int| 0 <= k < packs@.len() ==> (#[trigger] packs@[k]).0 != Spot::Frame(x),
        decreases frames.len() - f,
    {
        let ghost before = packs@;
        match par[f] {
            Some(p) => {
                match rep[p as usize] {
                    Some(r) => {
                        proof {
                            lemma_rep_below(parents, ffold, p as int);
                        }
                        packs.push((Spot::Frame(f as u32), Spot::Frame(r)));
                    },
                    None => {},
                }
            },
            None => {},
        }
        proof {
            assert(parents[f as int] == frames@[f as int].parent);
            assert forall|a: int, b: int| 0 <= a < b < packs@.len() implies (#[trigger] packs@[a]).0 != (#[trigger] packs@[b]).0 by {
                if b >= before.len() {
                    assert(packs@[a] == before[a]);
                }
            }
            assert forall|x: u32| (x as int) < f + 1 implies (exists|k: int| 0 <= k < packs@.len() && (#[trigger] packs@[k]).0 == Spot::Frame(x)
                && Some(packs@[k].1) == stands_for(frames@, owners@, home@, Spot::Frame(x)))
                || stands_for(frames@, owners@, home@, Spot::Frame(x)) is None by {
                if (x as int) < f {
                    if stands_for(frames@, owners@, home@, Spot::Frame(x)) is Some {
                        let k = choose|k: int| 0 <= k < before.len() && (#[trigger] before[k]).0 == Spot::Frame(x)
                            && Some(before[k].1) == stands_for(frames@, owners@, home@, Spot::Frame(x));
                        assert(packs@[k] == before[k]);
                    }
                } else if stands_for(frames@, owners@, home@, Spot::Frame(x)) is Some {
                    assert(packs@[before.len() as int].0 == Spot::Frame(x));
                }
            }
            assert forall|x: u32| (x as int) < f + 1 && stands_for(frames@, owners@, home@, Spot::Frame(x)) is None implies forall|k: int| 0 <= k < packs@.len() ==> (#[trigger] packs@[k]).0 != Spot::Frame(x) by {
                assert forall|k: int| 0 <= k < packs@.len() implies (#[trigger] packs@[k]).0 != Spot::Frame(x) by {
                    if k < before.len() {
                        assert(packs@[k] == before[k]);
                    }
                }
            }
        }
        f = f + 1;
    }
    let ghost nf = packs@.len();
    // Containers inside a folded room.
    let mut c: usize = 0;
    while c < owners.len()
        invariant
            c <= owners@.len(),
            owners@.len() < 0x8000_0000,
            nf <= packs@.len(),
            rep@.len() == frames@.len(),
            parents == parents_of(frames@),
            ffold == folds_of(frames@),
            forall|x: int| 0 <= x < frames@.len() ==> #[trigger] rep@[x] == rep_of(parents, ffold, x),
            forall|q: int| 0 <= q < owners@.len() ==> ((#[trigger] owners@[q]).frame as int) < frames@.len(),
            forall|k: int| 0 <= k < nf ==> (#[trigger] packs@[k]).0 is Frame && packs@[k].0 != packs@[k].1,
            forall|k: int| nf <= k < packs@.len() ==> (#[trigger] packs@[k]).0 is Owner && (packs@[k].0->Owner_0 as int) < c
                && packs@[k].1 is Frame,
            keys_once(packs@),
            forall|x: u32| (exists|k: int| 0 <= k < packs@.len() && (#[trigger] packs@[k]).0 == Spot::Frame(x)
                && Some(packs@[k].1) == stands_for(frames@, owners@, home@, Spot::Frame(x)))
                || stands_for(frames@, owners@, home@, Spot::Frame(x)) is None,
            forall|x: u32| stands_for(frames@, owners@, home@, Spot::Frame(x)) is None ==> forall|k: int| 0 <= k < packs@.len() ==> (#[trigger] packs@[k]).0 != Spot::Frame(x),
            forall|x: u32| (x as int) < c ==> (exists|k: int| 0 <= k < packs@.len() && (#[trigger] packs@[k]).0 == Spot::Owner(x)
                && Some(packs@[k].1) == stands_for(frames@, owners@, home@, Spot::Owner(x)))
                || stands_for(frames@, owners@, home@, Spot::Owner(x)) is None,
            forall|x: u32| (x as int) < c && stands_for(frames@, owners@, home@, Spot::Owner(x)) is None ==> forall|k: int| 0 <= k < packs@.len() ==> (#[trigger] packs@[k]).0 != Spot::Owner(x),
        decreases owners.len() - c,
    {
        let ghost before = packs@;
        match rep[owners[c].frame as usize] {
            Some(r) => {
                packs.push((Spot::Owner(c as u32), Spot::Frame(r)));
            },
            None => {},
        }
        proof {
            assert forall|a: int, b: int| 0 <= a < b < packs@.len() implies (#[trigger] packs@[a]).0 != (#[trigger] packs@[b]).0 by {
                if b >= before.len() {
                    assert(packs@[a] == before[a]);
                }
            }
            assert forall|x: u32| (exists|k: int| 0 <= k < packs@.len() && (#[trigger] packs@[k]).0 == Spot::Frame(x)
                && Some(packs@[k].1) == stands_for(frames@, owners@, home@, Spot::Frame(x)))
                || stands_for(frames@, owners@, home@, Spot::Frame(x)) is None by {
                if stands_for(frames@, owners@, home@, Spot::Frame(x)) is Some {
                    let k = choose|k: int| 0 <= k < before.len() && (#[trigger] before[k]).0 == Spot::Frame(x)
                        && Some(before[k].1) == stands_for(frames@, owners@, home@, Spot::Frame(x));
                    assert(packs@[k] == before[k]);
                }
            }
            assert forall|x: u32| stands_for(frames@, owners@, home@, Spot::Frame(x)) is None implies forall|k: int| 0 <= k < packs@.len() ==> (#[trigger] packs@[k]).0 != Spot::Frame(x) by {
                assert forall|k: int| 0 <= k < packs@.len() implies (#[trigger] packs@[k]).0 != Spot::Frame(x) by {
                    if k < before.len() {
                        assert(packs@[k] == before[k]);
                    }
                }
            }
            assert forall|x: u32| (x as int) < c + 1 implies (exists|k: int| 0 <= k < packs@.len() && (#[trigger] packs@[k]).0 == Spot::Owner(x)
                && Some(packs@[k].1) == stands_for(frames@, owners@, home@, Spot::Owner(x)))
                || stands_for(frames@, owners@, home@, Spot::Owner(x)) is None by {
                if (x as int) < c {
                    if stands_for(frames@, owners@, home@, Spot::Owner(x)) is Some {
                        let k = choose|k: int| 0 <= k < before.len() && (#[trigger] before[k]).0 == Spot::Owner(x)
                            && Some(before[k].1) == stands_for(frames@, owners@, home@, Spot::Owner(x));
                        assert(packs@[k] == before[k]);
                    }
                } else if stands_for(frames@, owners@, home@, Spot::Owner(x)) is Some {
                    assert(packs@[before.len() as int].0 == Spot::Owner(x));
                }
            }
            assert forall|x: u32| (x as int) < c + 1 && stands_for(frames@, owners@, home@, Spot::Owner(x)) is None implies forall|k: int| 0 <= k < packs@.len() ==> (#[trigger] packs@[k]).0 != Spot::Owner(x) by {
                assert forall|k: int| 0 <= k < packs@.len() implies (#[trigger] packs@[k]).0 != Spot::Owner(x) by {
                    if k < before.len() {
                        assert(packs@[k] == before[k]);
                    }
                }
            }
        }
        c = c + 1;
    }
    let ghost no = packs@.len();
    // Marks inside a folded room or a folded container.
    let mut k: usize = 0;
    while k < marks.len()
        invariant
            k <= marks@.len(),
            nf <= no,
            no <= packs@.len(),
            mowner@.len() == marks@.len(),
            rooms@.len() == marks@.len(),
            rep@.len() == frames@.len(),
            parents == parents_of(frames@),
            ffold == folds_of(frames@),
            forall|x: int| 0 <= x < frames@.len() ==> #[trigger] rep@[x] == rep_of(parents, ffold, x),
            forall|q: int| 0 <= q < owners@.len() ==> ((#[trigger] owners@[q]).frame as int) < frames@.len(),
            forall|q: int| 0 <= q < marks@.len() ==> (#[trigger] rooms@[q] as int) < frames@.len(),
            forall|q: int| 0 <= q < marks@.len() && (#[trigger] mowner@[q]) is Some ==> (mowner@[q]->0 as int) < owners@.len(),
            forall|a: int, b: int| 0 <= a < b < marks@.len() ==> (#[trigger] marks@[a]).id != (#[trigger] marks@[b]).id,
            forall|x: u32| #[trigger] home@.contains_key(x) <==> exists|q: int| 0 <= q < marks@.len() && #[trigger] marks@[q].id == x,
            forall|q: int| 0 <= q < marks@.len() ==> #[trigger] home@[marks@[q].id] == match mowner@[q] {
                Some(c) => Spot::Owner(c),
                None => Spot::Frame(rooms@[q]),
            },
            forall|q: int| 0 <= q < nf ==> (#[trigger] packs@[q]).0 is Frame && packs@[q].0 != packs@[q].1,
            forall|q: int| nf <= q < no ==> (#[trigger] packs@[q]).0 is Owner && packs@[q].1 is Frame,
            forall|q: int| no <= q < packs@.len() ==> exists|j: int| 0 <= j < k && (#[trigger] packs@[q]).0 == Spot::Mark(marks@[j].id),
            forall|q: int| no <= q < packs@.len() ==> (#[trigger] packs@[q]).0 is Mark && packs@[q].1 !is Mark,
            keys_once(packs@),
            forall|x: u32| (exists|q: int| 0 <= q < packs@.len() && (#[trigger] packs@[q]).0 == Spot::Frame(x)
                && Some(packs@[q].1) == stands_for(frames@, owners@, home@, Spot::Frame(x)))
                || stands_for(frames@, owners@, home@, Spot::Frame(x)) is None,
            forall|x: u32| stands_for(frames@, owners@, home@, Spot::Frame(x)) is None ==> forall|q: int| 0 <= q < packs@.len() ==> (#[trigger] packs@[q]).0 != Spot::Frame(x),
            forall|x: u32| (exists|q: int| 0 <= q < packs@.len() && (#[trigger] packs@[q]).0 == Spot::Owner(x)
                && Some(packs@[q].1) == stands_for(frames@, owners@, home@, Spot::Owner(x)))
                || stands_for(frames@, owners@, home@, Spot::Owner(x)) is None,
            forall|x: u32| stands_for(frames@, owners@, home@, Spot::Owner(x)) is None ==> forall|q: int| 0 <= q < packs@.len() ==> (#[trigger] packs@[q]).0 != Spot::Owner(x),
            forall|j: int| 0 <= j < k ==> (exists|q: int| 0 <= q < packs@.len() && (#[trigger] packs@[q]).0 == Spot::Mark(marks@[j].id)
                && Some(packs@[q].1) == stands_for(frames@, owners@, home@, Spot::Mark(marks@[j].id)))
                || stands_for(frames@, owners@, home@, Spot::Mark(marks@[j].id)) is None,
            forall|j: int| 0 <= j < k && stands_for(frames@, owners@, home@, Spot::Mark(marks@[j].id)) is None ==> forall|q: int| 0 <= q < packs@.len() ==> (#[trigger] packs@[q]).0 != Spot::Mark(marks@[j].id),
        decreases marks.len() - k,
    {
        let ghost before = packs@;
        let id = marks[k].id;
        proof {
            assert(home@[marks@[k as int].id] == match mowner@[k as int] {
                Some(c) => Spot::Owner(c),
                None => Spot::Frame(rooms@[k as int]),
            });
            assert(home@.contains_key(id));
        }
        match mowner[k] {
            Some(c) => {
                match rep[owners[c as usize].frame as usize] {
                    Some(r) => {
                        packs.push((Spot::Mark(id), Spot::Frame(r)));
                    },
                    None => {
                        if owners[c as usize].folded {
                            packs.push((Spot::Mark(id), Spot::Owner(c)));
                        }
                    },
                }
            },
            None => {
                match rep[rooms[k] as usize] {
                    Some(r) => {
                        packs.push((Spot::Mark(id), Spot::Frame(r)));
                    },
                    None => {},
                }
            },
        }
        proof {
            assert forall|a: int, b: int| 0 <= a < b < packs@.len() implies (#[trigger] packs@[a]).0 != (#[trigger] packs@[b]).0 by {
                if b >= before.len() {
                    assert(packs@[a] == before[a]);
                    if a >= no {
                        let j = choose|j: int| 0 <= j < k && (#[trigger] before[a]).0 == Spot::Mark(marks@[j].id);
                        assert(marks@[j].id != marks@[k as int].id);
                    }
                }
            }
            assert forall|q: int| no <= q < packs@.len() implies exists|j: int| 0 <= j < k + 1 && (#[trigger] packs@[q]).0 == Spot::Mark(marks@[j].id) by {
                if q < before.len() {
                    assert(packs@[q] == before[q]);
                    let j = choose|j: int| 0 <= j < k && (#[trigger] before[q]).0 == Spot::Mark(marks@[j].id);
                } else {
                    assert(packs@[q].0 == Spot::Mark(marks@[k as int].id));
                }
            }
            assert forall|x: u32| (exists|q: int| 0 <= q < packs@.len() && (#[trigger] packs@[q]).0 == Spot::Frame(x)
                && Some(packs@[q].1) == stands_for(frames@, owners@, home@, Spot::Frame(x)))
                || stands_for(frames@, owners@, home@, Spot::Frame(x)) is None by {
                if stands_for(frames@, owners@, home@, Spot::Frame(x)) is Some {
                    let q = choose|q: int| 0 <= q < before.len() && (#[trigger] before[q]).0 == Spot::Frame(x)
                        && Some(before[q].1) == stands_for(frames@, owners@, home@, Spot::Frame(x));
                    assert(packs@[q] == before[q]);
                }
            }
            assert forall|x: u32| stands_for(frames@, owners@, home@, Spot::Frame(x)) is None implies forall|q: int| 0 <= q < packs@.len() ==> (#[trigger] packs@[q]).0 != Spot::Frame(x) by {
                assert forall|q: int| 0 <= q < packs@.len() implies (#[trigger] packs@[q]).0 != Spot::Frame(x) by {
                    if q < before.len() {
                        assert(packs@[q] == before[q]);
                    }
                }
            }
            assert forall|x: u32| (exists|q: int| 0 <= q < packs@.len() && (#[trigger] packs@[q]).0 == Spot::Owner(x)
                && Some(packs@[q].1) == stands_for(frames@, owners@, home@, Spot::Owner(x)))
                || stands_for(frames@, owners@, home@, Spot::Owner(x)) is None by {
                if stands_for(frames@, owners@, home@, Spot::Owner(x)) is Some {
                    let q = choose|q: int| 0 <= q < before.len() && (#[trigger] before[q]).0 == Spot::Owner(x)
                        && Some(before[q].1) == stands_for(frames@, owners@, home@, Spot::Owner(x));
                    assert(packs@[q] == before[q]);
                }
            }
            assert forall|x: u32| stands_for(frames@, owners@, home@, Spot::Owner(x)) is None implies forall|q: int| 0 <= q < packs@.len() ==> (#[trigger] packs@[q]).0 != Spot::Owner(x) by {
                assert forall|q: int| 0 <= q < packs@.len() implies (#[trigger] packs@[q]).0 != Spot::Owner(x) by {
                    if q < before.len() {
                        assert(packs@[q] == before[q]);
                    }
                }
            }
            assert forall|j: int| 0 <= j < k + 1 implies (exists|q: int| 0 <= q < packs@.len() && (#[trigger] packs@[q]).0 == Spot::Mark(marks@[j].id)
                && Some(packs@[q].1) == stands_for(frames@, owners@, home@, Spot::Mark(marks@[j].id)))
                || stands_for(frames@, owners@, home@, Spot::Mark(marks@[j].id)) is None by {
                if j < k {
                    if stands_for(frames@, owners@, home@, Spot::Mark(marks@[j].id)) is Some {
                        let q = choose|q: int| 0 <= q < before.len() && (#[trigger] before[q]).0 == Spot::Mark(marks@[j].id)
                            && Some(before[q].1) == stands_for(frames@, owners@, home@, Spot::Mark(marks@[j].id));
                        assert(packs@[q] == before[q]);
                    }
                } else if stands_for(frames@, owners@, home@, Spot::Mark(marks@[j].id)) is Some {
                    assert(packs@[before.len() as int].0 == Spot::Mark(marks@[j].id));
                }
            }
            assert forall|j: int| 0 <= j < k + 1 && stands_for(frames@, owners@, home@, Spot::Mark(marks@[j].id)) is None implies forall|q: int| 0 <= q < packs@.len() ==> (#[trigger] packs@[q]).0 != Spot::Mark(marks@[j].id) by {
                assert forall|q: int| 0 <= q < packs@.len() implies (#[trigger] packs@[q]).0 != Spot::Mark(marks@[j].id) by {
                    if q < before.len() {
                        assert(packs@[q] == before[q]);
                    }
                }
            }
        }
        k = k + 1;
    }
    proof {
        assert forall|spot: Spot| #[trigger] crate::fn_query::first_pack(packs@, spot) == stands_for(frames@, owners@, home@, spot) by {
            lemma_first_pack_once(packs@, spot);
            match spot {
                Spot::Frame(x) => {
                    if stands_for(frames@, owners@, home@, spot) is Some {
                        let q = choose|q: int| 0 <= q < packs@.len() && (#[trigger] packs@[q]).0 == Spot::Frame(x)
                            && Some(packs@[q].1) == stands_for(frames@, owners@, home@, Spot::Frame(x));
                    }
                },
                Spot::Owner(x) => {
                    if stands_for(frames@, owners@, home@, spot) is Some {
                        let q = choose|q: int| 0 <= q < packs@.len() && (#[trigger] packs@[q]).0 == Spot::Owner(x)
                            && Some(packs@[q].1) == stands_for(frames@, owners@, home@, Spot::Owner(x));
                    }
                },
                Spot::Mark(m) => {
                    if home@.contains_key(m) {
                        let j = choose|j: int| 0 <= j < marks@.len() && #[trigger] marks@[j].id == m;
                        if stands_for(frames@, owners@, home@, spot) is Some {
                            let q = choose|q: int| 0 <= q < packs@.len() && (#[trigger] packs@[q]).0 == Spot::Mark(marks@[j].id)
                                && Some(packs@[q].1) == stands_for(frames@, owners@, home@, Spot::Mark(marks@[j].id));
                        }
                    } else {
                        assert forall|q: int| 0 <= q < packs@.len() implies (#[trigger] packs@[q]).0 != Spot::Mark(m) by {
                            if q >= no {
                                let j = choose|j: int| 0 <= j < marks@.len() && (#[trigger] packs@[q]).0 == Spot::Mark(marks@[j].id);
                                assert(home@.contains_key(marks@[j].id));
                            }
                        }
                    }
                },
            }
        }
    }
    packs
}

/// The room a mark stands in, read off its box.
pub open spec fn room_of(owners: Seq<Container>, s: Spot) -> int {
    match s {
        Spot::Frame(f) => f as int,
        Spot::Owner(o) => owners[o as int].frame as int,
        Spot::Mark(_) => -1,
    }
}

/// What the household says of the marks it seats.
pub open spec fn house_fits(g: CodeGraph, marks: Seq<FnMark>, reading: FnReading, h: House) -> bool {
    let frames = h.frames@;
    let owners = h.owners@;
    &&& frames.len() < 0x8000_0000
    &&& owners.len() < 0x8000_0000
    &&& crate::fn_query::frames_nest(frames)
    &&& forall|i: int| 0 <= i < frames.len() ==> (#[trigger] frames[i]).id == i
    &&& forall|i: int| 0 <= i < frames.len() ==> ((#[trigger] frames[i]).parent is None <==> frames[i].module@.len() == 0)
    &&& forall|i: int| 0 <= i < frames.len() && (#[trigger] frames[i]).parent is Some ==> {
        let p = frames[i].parent->0 as int;
        &&& 0 <= p < i
        &&& frames[p].krate@ == frames[i].krate@
        &&& views(frames[p].module@) == views(frames[i].module@).drop_last()
    }
    &&& forall|a: int, b: int| 0 <= a < b < frames.len() ==> (#[trigger] frames[a]).krate@ != (#[trigger] frames[b]).krate@
        || views(frames[a].module@) != views(frames[b].module@)
    &&& forall|a: int, b: int| 0 <= a < b < frames.len() ==> lex_le(
        frame_code((#[trigger] frames[a]).krate@, views(frames[a].module@)),
        frame_code((#[trigger] frames[b]).krate@, views(frames[b].module@)),
    )
    &&& forall|x: u32| #[trigger] h.home@.contains_key(x) <==> exists|k: int| 0 <= k < marks.len() && #[trigger] marks[k].id == x
    &&& forall|k: int| 0 <= k < marks.len() ==> {
        let s = #[trigger] h.home@[marks[k].id];
        let r = room_of(owners, s);
        &&& match owner_ty(g, marks[k].id) {
            Some(ty) => s is Owner && (s->Owner_0 as int) < owners.len() && owners[s->Owner_0 as int].ty == ty,
            None => s is Frame,
        }
        &&& 0 <= r < frames.len()
        &&& (frames[r].krate@, views(frames[r].module@)) == home_key(g, marks[k])
    }
    &&& forall|i: int, m: u32| 0 <= i < frames.len() ==> ((#[trigger] frames[i].marks@.contains(m)) <==> (h.home@.contains_key(m)
        && h.home@[m] == Spot::Frame(i as u32)))
    &&& forall|i: int| 0 <= i < frames.len() ==> in_mark_order(marks, (#[trigger] frames[i]).marks@)
    &&& forall|o: int| 0 <= o < owners.len() ==> in_mark_order(marks, (#[trigger] owners[o]).marks@)
    &&& forall|o: int| 0 <= o < owners.len() ==> {
        let c = #[trigger] owners[o];
        &&& c.id == o
        &&& container_fits(g, c)
        &&& (c.frame as int) < frames.len()
        &&& frames[c.frame as int].owners@.contains(o as u32)
        &&& forall|m: u32| c.marks@.contains(m) <==> (h.home@.contains_key(m) && h.home@[m] == Spot::Owner(o as u32))
        &&& c.folded == (fold_views(reading.folds@).contains(owner_fold_view(c)) && c.marks@.len() > 0)
    }
    &&& forall|i: int, o: u32| 0 <= i < frames.len() && (#[trigger] frames[i].owners@.contains(o)) ==> (o as int) < owners.len()
        && owners[o as int].frame == i
    &&& forall|i: int, a: int, b: int| 0 <= i < frames.len() && 0 <= a < b < frames[i].owners@.len() ==> lex_le(
        owner_key(g, owners[(#[trigger] frames[i].owners@[a]) as int]),
        owner_key(g, owners[(#[trigger] frames[i].owners@[b]) as int]),
    )
    &&& forall|i: int| 0 <= i < frames.len() ==> (#[trigger] frames[i]).held as int == count_above(
        parents_of(frames),
        marks.map_values(|m: FnMark| room_of(owners, h.home@[m.id]) as u32),
        i,
        marks.len() as int,
    )
    &&& forall|i: int| 0 <= i < frames.len() ==> (#[trigger] frames[i]).folded == (fold_views(reading.folds@).contains(
        frame_fold_view(frames[i]),
    ) && frames[i].held > 0)
    &&& forall|s: Spot| h.folded@.contains(s) <==> match s {
        Spot::Frame(f) => (f as int) < frames.len() && frames[f as int].folded,
        Spot::Owner(o) => (o as int) < owners.len() && owners[o as int].folded,
        Spot::Mark(_) => false,
    }
    &&& forall|s: Spot| h.packed@.contains(s) <==> match s {
        Spot::Frame(f) => (f as int) < frames.len() && frames[f as int].folded && fold_views(reading.packed@).contains(
            frame_fold_view(frames[f as int]),
        ),
        Spot::Owner(o) => (o as int) < owners.len() && owners[o as int].folded && fold_views(reading.packed@).contains(
            owner_fold_view(owners[o as int]),
        ),
        Spot::Mark(_) => false,
    }
    &&& keys_once(h.packs@)
    &&& forall|k: int| 0 <= k < h.packs@.len() ==> (#[trigger] h.packs@[k]).0 != h.packs@[k].1
    &&& forall|spot: Spot| #[trigger] crate::fn_query::first_pack(h.packs@, spot) == stands_for(frames, owners, h.home@, spot)
    &&& h.multi_crate == exists|i: int| 0 <= i < frames.len() && (#[trigger] frames[i]).krate@ != frames[0].krate@
}

/// Read the household over the marks one reading draws.
#[verifier::rlimit(100)]
#[verifier::spinoff_prover]
pub fn read_house(g: &CodeGraph, marks: &Vec<FnMark>, reading: &FnReading) -> (h: House)
    requires
        crate::fn_calls::survey_fits(*g),
        forall|k: int| 0 <= k < marks@.len() ==> ((#[trigger] marks@[k]).id as int) < g.items@.len(),
        forall|a: int, b: int| 0 <= a < b < marks@.len() ==> (#[trigger] marks@[a]).id != (#[trigger] marks@[b]).id,
        forall|k: int| 0 <= k < marks@.len() ==> views((#[trigger] marks@[k]).module@).len() < 0x100,
    ensures
        house_fits(*g, marks@, *reading, h),
{
    let ghost n = g.items@.len();
    proof {
        let ids = marks@.map_values(|m: FnMark| m.id);
        assert(ids.no_duplicates()) by {
            assert forall|a: int, b: int| 0 <= a < ids.len() && 0 <= b < ids.len() && a != b implies ids[a] != ids[b] by {
                if a < b {
                    assert(marks@[a].id != marks@[b].id);
                } else {
                    assert(marks@[b].id != marks@[a].id);
                }
            }
        }
        crate::reach::lemma_distinct_below(ids, n as nat);
    }
    let (wanted, tys) = home_keys(g, marks);
    proof {
        assert forall|k: int| 0 <= k < wanted@.len() implies (#[trigger] wanted@[k]).1@.len() < 0x100 by {
            assert(key_view(wanted@[k]) == home_key(*g, marks@[k]));
            match owner_ty(*g, marks@[k].id) {
                Some(ty) => {
                    let f = g.items@[ty as int].file as int;
                    assert(crate::paths::spec_module_segments(g.files@[f].path@).len() < 0x100);
                },
                None => {},
            }
        }
    }
    let keys = room_keys(&wanted);
    let parents = room_parents(&keys, Ghost(wanted@));
    let mut rooms: Vec<u32> = Vec::new();
    let mut k: usize = 0;
    while k < wanted.len()
        invariant
            k <= wanted@.len(),
            keys@.len() < 0x8000_0000,
            rooms@.len() == k,
            forall|i: int, cut: int| 0 <= i < wanted@.len() && 0 <= cut <= wanted@[i].1@.len() ==> has_key(
                keys@,
                #[trigger] prefix_key(key_view(wanted@[i]), cut),
            ),
            forall|q: int| 0 <= q < k ==> (#[trigger] rooms@[q] as int) < keys@.len() && key_view(keys@[rooms@[q] as int]) == key_view(wanted@[q]),
        decreases wanted.len() - k,
    {
        proof {
            assert(views(wanted@[k as int].1@).take(wanted@[k as int].1@.len() as int) =~= views(wanted@[k as int].1@));
            assert(has_key(keys@, prefix_key(key_view(wanted@[k as int]), wanted@[k as int].1@.len() as int)));
        }
        let r = find_key(&keys, &wanted[k]);
        rooms.push(r as u32);
        k = k + 1;
    }
    let (ctys, mowner) = gather_owners(&tys);
    proof {
        assert forall|c: int| 0 <= c < ctys@.len() implies has_owner(*g, #[trigger] ctys@[c]) by {
            assert(has_member(mowner@, c));
            let q = choose|q: int| 0 <= q < mowner@.len() && mowner@[q] == Some(c as u32);
            assert(tys@[q] == Some(ctys@[c]));
            assert(tys@[q] == owner_ty(*g, marks@[q].id));
        }
        assert forall|q: int| 0 <= q < rooms@.len() implies (#[trigger] rooms@[q] as int) < parents@.len() by {}
        assert forall|i: int| 0 <= i < parents@.len() && (#[trigger] parents@[i]) is Some implies (parents@[i]->0 as int) < i by {}
    }
    let held = held_counts(&parents, &rooms);
    let owners = build_owners(g, marks, &mowner, &ctys, &rooms, reading);
    proof {
        // Every method of one container stands in the container's room.
        assert forall|q: int| 0 <= q < marks@.len() && (#[trigger] mowner@[q]) is Some implies
            rooms@[q] == owners@[mowner@[q]->0 as int].frame by {
            let c = mowner@[q]->0 as int;
            let k0 = choose|k0: int| 0 <= k0 < marks@.len() && mowner@[k0] == Some(c as u32) && owners@[c].frame == rooms@[k0];
            assert(tys@[q] == Some(ctys@[c]));
            assert(tys@[k0] == Some(ctys@[c]));
            assert(key_view(wanted@[q]) == home_key(*g, marks@[q]));
            assert(key_view(wanted@[k0]) == home_key(*g, marks@[k0]));
            assert(key_view(keys@[rooms@[q] as int]) == key_view(keys@[rooms@[k0] as int]));
            if rooms@[q] != rooms@[k0] {
                if rooms@[q] < rooms@[k0] {
                    assert(key_view(keys@[rooms@[q] as int]) != key_view(keys@[rooms@[k0] as int]));
                } else {
                    assert(key_view(keys@[rooms@[k0] as int]) != key_view(keys@[rooms@[q] as int]));
                }
            }
        }
    }
    let frames = build_frames(g, &keys, &parents, &held, marks, &mowner, &rooms, &owners, reading);
    let home = build_home(marks, &mowner, &rooms);
    let (folded, packed) = fold_lists(&frames, &owners, reading);
    let packs = pack_list(&frames, &owners, marks, &mowner, &rooms, Ghost(home@));
    let mut multi_crate = false;
    let mut i: usize = 0;
    while i < frames.len()
        invariant
            i <= frames@.len(),
            multi_crate == exists|q: int| 0 <= q < i && (#[trigger] frames@[q]).krate@ != frames@[0].krate@,
        decreases frames.len() - i,
    {
        if !frames[i].krate.eq(&frames[0].krate) {
            multi_crate = true;
        }
        i = i + 1;
    }
    let h = House { frames, owners, home, folded, packed, packs, multi_crate };
    proof {
        let fr = h.frames@;
        let ow = h.owners@;
        assert(crate::fn_query::frames_nest(fr)) by {
            assert forall|i: int, q: int| 0 <= i < fr.len() && 0 <= q < fr[i].kids@.len() implies i < #[trigger] fr[i].kids@[q]
                < fr.len() by {
                let j = fr[i].kids@[q] as int;
                assert(parents@[j] == Some(i as u32));
            }
        }
        assert forall|i: int| 0 <= i < fr.len() implies ((#[trigger] fr[i]).parent is None <==> fr[i].module@.len() == 0) by {
            assert(views(fr[i].module@).len() == fr[i].module@.len());
            assert(views(keys@[i].1@).len() == keys@[i].1@.len());
        }
        assert forall|a: int, b: int| 0 <= a < b < fr.len() implies (#[trigger] fr[a]).krate@ != (#[trigger] fr[b]).krate@
            || views(fr[a].module@) != views(fr[b].module@) by {
            assert(key_view(keys@[a]) != key_view(keys@[b]));
        }
        assert forall|k: int| 0 <= k < marks@.len() implies {
            let s = #[trigger] h.home@[marks@[k].id];
            let r = room_of(ow, s);
            &&& match owner_ty(*g, marks@[k].id) {
                Some(ty) => s is Owner && (s->Owner_0 as int) < ow.len() && ow[s->Owner_0 as int].ty == ty,
                None => s is Frame,
            }
            &&& 0 <= r < fr.len()
            &&& (fr[r].krate@, views(fr[r].module@)) == home_key(*g, marks@[k])
        } by {
            assert(tys@[k] == owner_ty(*g, marks@[k].id));
            assert(key_view(wanted@[k]) == home_key(*g, marks@[k]));
            if mowner@[k] is Some {
                assert(rooms@[k] == ow[mowner@[k]->0 as int].frame);
            }
        }
        assert forall|i: int, m: u32| 0 <= i < fr.len() implies ((#[trigger] fr[i].marks@.contains(m)) <==> (h.home@.contains_key(m)
            && h.home@[m] == Spot::Frame(i as u32))) by {
            if h.home@.contains_key(m) {
                let k = choose|k: int| 0 <= k < marks@.len() && #[trigger] marks@[k].id == m;
                assert(h.home@[marks@[k].id] == match mowner@[k] {
                    Some(c) => Spot::Owner(c),
                    None => Spot::Frame(rooms@[k]),
                });
            }
        }
        assert forall|o: int| 0 <= o < ow.len() implies {
            let c = #[trigger] ow[o];
            &&& c.id == o
            &&& container_fits(*g, c)
            &&& (c.frame as int) < fr.len()
            &&& fr[c.frame as int].owners@.contains(o as u32)
            &&& forall|m: u32| c.marks@.contains(m) <==> (h.home@.contains_key(m) && h.home@[m] == Spot::Owner(o as u32))
            &&& c.folded == (fold_views(reading.folds@).contains(owner_fold_view(c)) && c.marks@.len() > 0)
        } by {
            let c = ow[o];
            let k0 = choose|k0: int| 0 <= k0 < marks@.len() && mowner@[k0] == Some(o as u32) && c.frame == rooms@[k0];
            assert forall|m: u32| c.marks@.contains(m) <==> (h.home@.contains_key(m) && h.home@[m] == Spot::Owner(o as u32)) by {
                if h.home@.contains_key(m) {
                    let k = choose|k: int| 0 <= k < marks@.len() && #[trigger] marks@[k].id == m;
                    assert(h.home@[marks@[k].id] == match mowner@[k] {
                        Some(c) => Spot::Owner(c),
                        None => Spot::Frame(rooms@[k]),
                    });
                }
            }
        }
        let rs = marks@.map_values(|m: FnMark| room_of(ow, h.home@[m.id]) as u32);
        assert(rs =~= rooms@) by {
            assert forall|k: int| 0 <= k < marks@.len() implies rs[k] == rooms@[k] by {
                assert(h.home@[marks@[k].id] == match mowner@[k] {
                    Some(c) => Spot::Owner(c),
                    None => Spot::Frame(rooms@[k]),
                });
                if mowner@[k] is Some {
                    assert(rooms@[k] == ow[mowner@[k]->0 as int].frame);
                }
            }
        }
        assert(parents_of(fr) =~= parents@);
        assert forall|i: int| 0 <= i < fr.len() implies (#[trigger] fr[i]).held as int == count_above(
            parents_of(fr),
            marks@.map_values(|m: FnMark| room_of(ow, h.home@[m.id]) as u32),
            i,
            marks@.len() as int,
        ) by {
            assert(fr[i].held == held@[i]);
        }
    }
    h
}

} // verus!
