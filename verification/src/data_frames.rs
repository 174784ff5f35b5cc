//! Which frames the data chart draws: one per crate and one per top-level
//! module that holds a charted item or a ghost, crate frames first.

use vstd::prelude::*;

use crate::data_build::{crate_part, first_frame, first_frame_of, frame_key_of, framed_count, frame_named, item_key, key_matches, key_source, key_view, module_part, drawable_ids, no_frame};
use crate::data_model::{opt_view, spec_charted, spec_drawable, DataMark, Frame};
use crate::wire::{CodeGraph, Doors};

verus! {

/// A frame as plain values: its crate and its module.
pub open spec fn frame_view(f: Frame) -> (Seq<char>, Option<Seq<char>>) {
    (f.krate@, opt_view(f.module))
}

/// `v` is the (crate, module) key of an item the chart could draw or fold,
/// or of a ghost.
pub open spec fn charted_key(graph: CodeGraph, v: (Seq<char>, Option<Seq<char>>)) -> bool {
    ||| exists|i: u32| (i as int) < graph.items@.len() && spec_charted(graph.items@[i as int]) && #[trigger] item_key(graph, i)
        == Some(v)
    ||| exists|g: int|
        0 <= g < graph.ghosts@.len() && v == ((#[trigger] graph.ghosts@[g]).krate@, crate::paths::spec_module_of(
            graph.ghosts@[g].path@,
        ))
}

/// The frame keys of a survey, each once, in key order.
pub open spec fn keys_fit(graph: CodeGraph, kv: Seq<(Seq<char>, Option<Seq<char>>)>) -> bool {
    &&& forall|k: int| 0 <= k < kv.len() ==> charted_key(graph, #[trigger] kv[k])
    &&& forall|v: (Seq<char>, Option<Seq<char>>)| #[trigger] charted_key(graph, v) ==> kv.contains(v)
    &&& forall|a: int, b: int| 0 <= a < b < kv.len() ==> crate::sort::lex_le(frame_key_of(#[trigger] kv[a]), frame_key_of(#[trigger] kv[b]))
        && kv[a] != kv[b]
}

/// The frames are exactly these: one crate frame for each crate holding a
/// charted item or a ghost, then one frame for each top-level module holding
/// one, both in key order.
#[verifier::opaque]
pub open spec fn frames_exact(graph: CodeGraph, frames: Seq<Frame>) -> bool {
    exists|kv: Seq<(Seq<char>, Option<Seq<char>>)>|
        #[trigger] keys_fit(graph, kv) && frames.map_values(|f: Frame| frame_view(f)) == crate_part(kv) + module_part(kv)
}

/// What splitting the survey gives: the drawable items, and the charted
/// ones the doors keep off the paper.
#[verifier::opaque]
pub open spec fn split_fits(graph: CodeGraph, doors: Doors, drawn0: Seq<u32>, private: Seq<u32>) -> bool {
    &&& forall|k: int| 0 <= k < drawn0.len() ==> (#[trigger] drawn0[k] as int) < graph.items@.len()
        && spec_drawable(graph.items@[drawn0[k] as int], doors)
    &&& forall|k: int| 0 <= k < private.len() ==> (#[trigger] private[k] as int) < graph.items@.len()
        && spec_charted(graph.items@[private[k] as int]) && !spec_drawable(graph.items@[private[k] as int], doors)
    &&& forall|i: int| 0 <= i < graph.items@.len() && spec_charted(#[trigger] graph.items@[i])
        && !spec_drawable(graph.items@[i], doors) ==> private.contains(i as u32)
    &&& forall|i: int| 0 <= i < graph.items@.len() && spec_drawable(#[trigger] graph.items@[i], doors)
        ==> drawn0.contains(i as u32)
    &&& forall|a: int, b: int| 0 <= a < b < private.len() ==> private[a] < private[b]
}

/// What the budget does to the drawable items: each is kept or folded.
#[verifier::opaque]
pub open spec fn budget_fits(drawn0: Seq<u32>, drawn: Seq<u32>, folded: Seq<u32>) -> bool {
    &&& forall|k: int| 0 <= k < drawn.len() ==> drawn0.contains(#[trigger] drawn[k])
    &&& forall|k: int| 0 <= k < folded.len() ==> drawn0.contains(#[trigger] folded[k])
    &&& forall|k: int| 0 <= k < drawn0.len() ==> drawn.contains(#[trigger] drawn0[k]) || folded.contains(drawn0[k])
    &&& forall|k: int| 0 <= k < folded.len() ==> !drawn.contains(#[trigger] folded[k])
    &&& forall|a: int, b: int| 0 <= a < b < folded.len() ==> folded[a] < folded[b]
}

/// The frame keys named by the items among `ids` and by the ghosts, each
/// once, in key order.
#[verifier::opaque]
pub open spec fn keys_exact(graph: CodeGraph, ids: Seq<u32>, keys: Seq<(String, Option<String>)>) -> bool {
    &&& forall|k: int| 0 <= k < keys.len() ==> key_source(graph, ids, key_view(#[trigger] keys[k]))
    &&& forall|v: (Seq<char>, Option<Seq<char>>)| key_source(graph, ids, v) ==> exists|k: int|
        0 <= k < keys.len() && key_view(#[trigger] keys[k]) == v
    &&& forall|a: int, b: int| 0 <= a < b < keys.len() ==> crate::sort::lex_le(frame_key_of(key_view(#[trigger] keys[a])), frame_key_of(key_view(#[trigger] keys[b])))
        && key_view(keys[a]) != key_view(keys[b])
}

/// `ids` holds exactly the marks of the three lists.
#[verifier::opaque]
pub open spec fn ids_exact(drawn: Seq<u32>, folded: Seq<u32>, private: Seq<u32>, ids: Seq<u32>) -> bool {
    forall|x: u32| #[trigger] ids.contains(x) <==> (drawn.contains(x) || folded.contains(x) || private.contains(x))
}

/// The ids among the drawn, budget-folded and private marks, each once, in
/// id order.
pub(crate) fn named_ids(ni: usize, drawn: &Vec<u32>, folded: &Vec<u32>, private: &Vec<u32>) -> (ids: Vec<u32>)
    requires
        ni < 0x4000_0000,
        forall|k: int| 0 <= k < drawn@.len() ==> (#[trigger] drawn@[k] as int) < ni,
        forall|k: int| 0 <= k < folded@.len() ==> (#[trigger] folded@[k] as int) < ni,
        forall|k: int| 0 <= k < private@.len() ==> (#[trigger] private@[k] as int) < ni,
    ensures
        ids@.len() <= ni,
        ids_exact(drawn@, folded@, private@, ids@),
{
    let mut ids: Vec<u32> = Vec::new();
    let mut k: usize = 0;
    while k < ni
        invariant
            k <= ni,
            ni < 0x4000_0000,
            ids@.len() <= k,
            forall|q: int| 0 <= q < ids@.len() ==> (#[trigger] ids@[q] as int) < k,
            forall|x: u32| (x as int) < k ==> (ids@.contains(x) <==> (drawn@.contains(x) || folded@.contains(x)
                || private@.contains(x))),
        decreases ni - k,
    {
        let ghost before = ids@;
        let x = k as u32;
        let wanted = contains_u32(drawn, x) || contains_u32(folded, x) || contains_u32(private, x);
        if wanted {
            ids.push(x);
        }
        proof {
            assert forall|y: u32| (y as int) < k + 1 implies (ids@.contains(y) <==> (drawn@.contains(y) || folded@.contains(y)
                || private@.contains(y))) by {
                if y == x {
                    if wanted {
                        assert(ids@[ids@.len() - 1] == y);
                    } else if ids@.contains(y) {
                        let q = choose|q: int| 0 <= q < ids@.len() && ids@[q] == y;
                        assert(before[q] == y);
                    }
                } else {
                    if ids@.contains(y) {
                        let q = choose|q: int| 0 <= q < ids@.len() && ids@[q] == y;
                        if q < before.len() {
                            assert(before[q] == y);
                        }
                    }
                    if before.contains(y) {
                        let q = choose|q: int| 0 <= q < before.len() && before[q] == y;
                        assert(ids@[q] == y);
                    }
                }
            }
        }
        k = k + 1;
    }
    proof {
        reveal(ids_exact);
        assert forall|x: u32| #[trigger] ids@.contains(x) <==> (drawn@.contains(x) || folded@.contains(x) || private@.contains(x)) by {
            if ids@.contains(x) {
                let q = choose|q: int| 0 <= q < ids@.len() && ids@[q] == x;
            }
            if drawn@.contains(x) {
                let q = choose|q: int| 0 <= q < drawn@.len() && drawn@[q] == x;
            }
            if folded@.contains(x) {
                let q = choose|q: int| 0 <= q < folded@.len() && folded@[q] == x;
            }
            if private@.contains(x) {
                let q = choose|q: int| 0 <= q < private@.len() && private@[q] == x;
            }
        }
    }
    ids
}

fn contains_u32(v: &Vec<u32>, x: u32) -> (b: bool)
    ensures
        b == v@.contains(x),
{
    let mut i: usize = 0;
    while i < v.len()
        invariant
            i <= v@.len(),
            forall|q: int| 0 <= q < i ==> v@[q] != x,
        decreases v.len() - i,
    {
        if v[i] == x {
            return true;
        }
        i = i + 1;
    }
    false
}

/// The frames built from the survey's frame keys are exactly the frames of
/// its charted items and ghosts.
#[verifier::rlimit(60)]
#[verifier::spinoff_prover]
pub(crate) proof fn lemma_frames_exact(
    graph: CodeGraph,
    doors: Doors,
    drawn0: Seq<u32>,
    drawn: Seq<u32>,
    folded: Seq<u32>,
    private: Seq<u32>,
    ids: Seq<u32>,
    keys: Seq<(String, Option<String>)>,
    flist: Seq<(String, Option<String>)>,
    frames: Seq<Frame>,
)
    requires
        split_fits(graph, doors, drawn0, private),
        budget_fits(drawn0, drawn, folded),
        ids_exact(drawn, folded, private, ids),
        keys_exact(graph, ids, keys),
        flist.map_values(|e: (String, Option<String>)| key_view(e)) == crate_part(
            keys.map_values(|e: (String, Option<String>)| key_view(e)),
        ) + module_part(keys.map_values(|e: (String, Option<String>)| key_view(e))),
        frames.len() == flist.len(),
        forall|f: int| 0 <= f < frames.len() ==> (#[trigger] frames[f]).krate@ == flist[f].0@
            && opt_view(frames[f].module) == opt_view(flist[f].1),
    ensures
        frames_exact(graph, frames),
{
    reveal(frames_exact);
    reveal(ids_exact);
    reveal(split_fits);
    reveal(budget_fits);
    reveal(keys_exact);
    let kv = keys.map_values(|e: (String, Option<String>)| key_view(e));
    // Every id is a charted item.
    assert forall|x: u32| #[trigger] ids.contains(x) implies (x as int) < graph.items@.len() && spec_charted(graph.items@[x as int]) by {
        if drawn.contains(x) {
            let q = choose|q: int| 0 <= q < drawn.len() && drawn[q] == x;
            assert(drawn0.contains(drawn[q]));
            let w = choose|w: int| 0 <= w < drawn0.len() && drawn0[w] == x;
        } else if folded.contains(x) {
            let q = choose|q: int| 0 <= q < folded.len() && folded[q] == x;
            assert(drawn0.contains(folded[q]));
            let w = choose|w: int| 0 <= w < drawn0.len() && drawn0[w] == x;
        } else {
            let q = choose|q: int| 0 <= q < private.len() && private[q] == x;
        }
    }
    assert forall|k: int| 0 <= k < kv.len() implies charted_key(graph, #[trigger] kv[k]) by {
        let v = kv[k];
        assert(v == key_view(keys[k]));
        assert(key_source(graph, ids, v));
        if exists|i: int| 0 <= i < ids.len() && item_key(graph, #[trigger] ids[i]) == Some(v) {
            let i = choose|i: int| 0 <= i < ids.len() && item_key(graph, #[trigger] ids[i]) == Some(v);
            assert(ids.contains(ids[i]));
            assert(spec_charted(graph.items@[ids[i] as int]));
        }
    }
    assert forall|v: (Seq<char>, Option<Seq<char>>)| #[trigger] charted_key(graph, v) implies kv.contains(v) by {
        if exists|i: u32| (i as int) < graph.items@.len() && spec_charted(graph.items@[i as int]) && #[trigger] item_key(graph, i)
            == Some(v) {
            let i = choose|i: u32| (i as int) < graph.items@.len() && spec_charted(graph.items@[i as int]) && #[trigger] item_key(
                graph,
                i,
            ) == Some(v);
            assert(ids.contains(i)) by {
                if spec_drawable(graph.items@[i as int], doors) {
                    assert(drawn0.contains(i));
                    let w = choose|w: int| 0 <= w < drawn0.len() && drawn0[w] == i;
                    assert(drawn.contains(drawn0[w]) || folded.contains(drawn0[w]));
                } else {
                    assert(private.contains(i));
                }
            }
            let x = choose|x: int| 0 <= x < ids.len() && ids[x] == i;
            assert(item_key(graph, ids[x]) == Some(v));
        }
        assert(key_source(graph, ids, v));
        let k = choose|k: int| 0 <= k < keys.len() && key_view(#[trigger] keys[k]) == v;
        assert(kv[k] == v);
    }
    assert forall|a: int, b: int| 0 <= a < b < kv.len() implies crate::sort::lex_le(frame_key_of(#[trigger] kv[a]), frame_key_of(#[trigger] kv[b]))
        && kv[a] != kv[b] by {
        assert(kv[a] == key_view(keys[a]) && kv[b] == key_view(keys[b]));
    }
    assert(keys_fit(graph, kv));
    assert(frames.map_values(|f: Frame| frame_view(f)) =~= flist.map_values(|e: (String, Option<String>)| key_view(e)));
}

/// How many of `ids` are framed first at frame `f` of the model.
pub open spec fn framed_count_of(graph: CodeGraph, frames: Seq<Frame>, ids: Seq<u32>, f: int) -> nat
    decreases ids.len(),
{
    if ids.len() == 0 {
        0
    } else {
        framed_count_of(graph, frames, ids.drop_last(), f) + if (item_key(graph, ids.last()) matches Some(k) && first_frame_of(
            frames,
            k.0,
            k.1,
            f,
        )) {
            1nat
        } else {
            0nat
        }
    }
}

/// Each frame counts the charted items the doors keep off the paper whose
/// module it is.
pub open spec fn private_fit(graph: CodeGraph, frames: Seq<Frame>, doors: Doors) -> bool {
    exists|ps: Seq<u32>|
        #![trigger ps.no_duplicates()]
        ps.no_duplicates() && (forall|x: u32| #[trigger] ps.contains(x) <==> (x as int) < graph.items@.len() && spec_charted(
            graph.items@[x as int],
        ) && !spec_drawable(graph.items@[x as int], doors)) && (forall|f: int| 0 <= f < frames.len() ==> (#[trigger] frames[f]).private
            == framed_count_of(graph, frames, ps, f))
}

/// Each frame counts the items the doors admit but the budget folds away,
/// those outside `kept`, whose module it is.
pub open spec fn more_fit(graph: CodeGraph, frames: Seq<Frame>, doors: Doors, kept: Set<u32>) -> bool {
    exists|fs: Seq<u32>|
        #![trigger fs.no_duplicates()]
        fs.no_duplicates() && (forall|x: u32| #[trigger] fs.contains(x) <==> drawable_ids(graph, doors).contains(x) && !kept.contains(
            x,
        )) && (forall|f: int| 0 <= f < frames.len() ==> (#[trigger] frames[f]).more == framed_count_of(graph, frames, fs, f))
}

/// The counts placed per frame key.
#[verifier::opaque]
pub open spec fn counts_placed(
    graph: CodeGraph,
    keys: Seq<(String, Option<String>)>,
    private: Seq<u32>,
    folded: Seq<u32>,
    privs: Seq<u32>,
    mores: Seq<u32>,
) -> bool {
    &&& privs.len() == keys.len()
    &&& mores.len() == keys.len()
    &&& forall|f: int| 0 <= f < keys.len() ==> #[trigger] privs[f] == framed_count(graph, keys, private, f)
        && mores[f] == framed_count(graph, keys, folded, f)
}

/// The frames carry the placed counts.
#[verifier::opaque]
pub open spec fn counts_carried(frames: Seq<Frame>, privs: Seq<u32>, mores: Seq<u32>) -> bool {
    forall|f: int| 0 <= f < frames.len() ==> (#[trigger] frames[f]).private == privs[f] && frames[f].more == mores[f]
}

proof fn lemma_count_views(graph: CodeGraph, keys: Seq<(String, Option<String>)>, frames: Seq<Frame>, ids: Seq<u32>, f: int)
    requires
        frames.len() == keys.len(),
        forall|g: int| 0 <= g < frames.len() ==> (#[trigger] frames[g]).krate@ == keys[g].0@
            && opt_view(frames[g].module) == opt_view(keys[g].1),
    ensures
        framed_count(graph, keys, ids, f) == framed_count_of(graph, frames, ids, f),
    decreases ids.len(),
{
    if ids.len() > 0 {
        lemma_count_views(graph, keys, frames, ids.drop_last(), f);
        if item_key(graph, ids.last()) is Some {
            let k = item_key(graph, ids.last())->0;
            assert forall|j: int| 0 <= j < frames.len() implies (key_matches(keys, j, k.0, k.1) <==> frame_named(frames, j, k.0, k.1)) by {
                assert(frames[j].krate@ == keys[j].0@);
            }
            if first_frame(keys, k.0, k.1, f) {
                assert(frame_named(frames, f, k.0, k.1));
                assert forall|j: int| 0 <= j < f implies !#[trigger] frame_named(frames, j, k.0, k.1) by {
                    assert(!key_matches(keys, j, k.0, k.1));
                }
            }
            if first_frame_of(frames, k.0, k.1, f) {
                assert(key_matches(keys, f, k.0, k.1));
                assert forall|j: int| 0 <= j < f implies !#[trigger] key_matches(keys, j, k.0, k.1) by {
                    assert(!frame_named(frames, j, k.0, k.1));
                }
            }
        }
    }
}

/// The counts of private and folded items each frame carries.
#[verifier::rlimit(60)]
#[verifier::spinoff_prover]
pub(crate) proof fn lemma_counts(
    graph: CodeGraph,
    doors: Doors,
    drawn0: Seq<u32>,
    drawn: Seq<u32>,
    folded: Seq<u32>,
    private: Seq<u32>,
    flist: Seq<(String, Option<String>)>,
    frames: Seq<Frame>,
    privs: Seq<u32>,
    mores: Seq<u32>,
)
    requires
        split_fits(graph, doors, drawn0, private),
        budget_fits(drawn0, drawn, folded),
        counts_placed(graph, flist, private, folded, privs, mores),
        counts_carried(frames, privs, mores),
        frames.len() == flist.len(),
        forall|f: int| 0 <= f < frames.len() ==> (#[trigger] frames[f]).krate@ == flist[f].0@
            && opt_view(frames[f].module) == opt_view(flist[f].1),
    ensures
        private_fit(graph, frames, doors),
        more_fit(graph, frames, doors, Set::new(|x: u32| drawn.contains(x))),
{
    reveal(split_fits);
    reveal(budget_fits);
    reveal(counts_placed);
    reveal(counts_carried);
    let kept = Set::new(|x: u32| drawn.contains(x));
    assert(private.no_duplicates()) by {
        assert forall|a: int, b: int| 0 <= a < private.len() && 0 <= b < private.len() && a != b implies private[a] != private[b] by {
            if a < b {
                assert(private[a] < private[b]);
            } else {
                assert(private[b] < private[a]);
            }
        }
    }
    assert(folded.no_duplicates()) by {
        assert forall|a: int, b: int| 0 <= a < folded.len() && 0 <= b < folded.len() && a != b implies folded[a] != folded[b] by {
            if a < b {
                assert(folded[a] < folded[b]);
            } else {
                assert(folded[b] < folded[a]);
            }
        }
    }
    assert forall|x: u32| #[trigger] private.contains(x) <==> (x as int) < graph.items@.len() && spec_charted(graph.items@[x as int])
        && !spec_drawable(graph.items@[x as int], doors) by {
        if private.contains(x) {
            let q = choose|q: int| 0 <= q < private.len() && private[q] == x;
        }
        if (x as int) < graph.items@.len() && spec_charted(graph.items@[x as int]) && !spec_drawable(graph.items@[x as int], doors) {
            assert(spec_charted(graph.items@[x as int]));
        }
    }
    assert forall|x: u32| #[trigger] folded.contains(x) <==> drawable_ids(graph, doors).contains(x) && !kept.contains(x) by {
        if folded.contains(x) {
            let q = choose|q: int| 0 <= q < folded.len() && folded[q] == x;
            assert(drawn0.contains(folded[q]));
            let w = choose|w: int| 0 <= w < drawn0.len() && drawn0[w] == x;
            assert(!drawn.contains(folded[q]));
        }
        if drawable_ids(graph, doors).contains(x) && !kept.contains(x) {
            assert(spec_drawable(graph.items@[x as int], doors));
            assert(drawn0.contains(x));
            let w = choose|w: int| 0 <= w < drawn0.len() && drawn0[w] == x;
            assert(drawn.contains(drawn0[w]) || folded.contains(drawn0[w]));
        }
    }
    assert forall|f: int| 0 <= f < frames.len() implies (#[trigger] frames[f]).private == framed_count_of(graph, frames, private, f)
        && frames[f].more == framed_count_of(graph, frames, folded, f) by {
        lemma_count_views(graph, flist, frames, private, f);
        lemma_count_views(graph, flist, frames, folded, f);
    }
    assert(private_fit(graph, frames, doors));
    assert(more_fit(graph, frames, doors, kept));
}

/// Every crate frame has no module.
proof fn lemma_crate_part_bare(keys: Seq<(Seq<char>, Option<Seq<char>>)>)
    ensures
        forall|i: int| 0 <= i < crate_part(keys).len() ==> (#[trigger] crate_part(keys)[i]).1 is None,
    decreases keys.len(),
{
    if keys.len() > 0 {
        lemma_crate_part_bare(keys.drop_last());
    }
}

/// Each key's crate has a crate frame.
proof fn lemma_crate_part_has(keys: Seq<(Seq<char>, Option<Seq<char>>)>, j: int)
    requires
        0 <= j < keys.len(),
    ensures
        crate_part(keys).contains((keys[j].0, None::<Seq<char>>)),
    decreases keys.len(),
{
    let r = crate_part(keys.drop_last());
    lemma_crate_part_bare(keys.drop_last());
    if j == keys.len() - 1 {
        if r.len() == 0 || r.last().0 != keys.last().0 {
            assert(crate_part(keys)[r.len() as int] == (keys[j].0, None::<Seq<char>>));
        } else {
            assert(r.last().1 is None);
            assert(r[r.len() - 1] == (keys[j].0, None::<Seq<char>>));
        }
    } else {
        lemma_crate_part_has(keys.drop_last(), j);
        assert(keys.drop_last()[j] == keys[j]);
        let i = choose|i: int| 0 <= i < r.len() && r[i] == (keys[j].0, None::<Seq<char>>);
        if r.len() == 0 || r.last().0 != keys.last().0 {
            assert(crate_part(keys)[i] == r[i]);
        }
    }
}

/// Each key naming a module has that module's frame.
proof fn lemma_module_part_has(keys: Seq<(Seq<char>, Option<Seq<char>>)>, j: int)
    requires
        0 <= j < keys.len(),
        keys[j].1 is Some,
    ensures
        module_part(keys).contains(keys[j]),
    decreases keys.len(),
{
    let r = module_part(keys.drop_last());
    if j == keys.len() - 1 {
        assert(module_part(keys)[r.len() as int] == keys[j]);
    } else {
        lemma_module_part_has(keys.drop_last(), j);
        assert(keys.drop_last()[j] == keys[j]);
        let i = choose|i: int| 0 <= i < r.len() && r[i] == keys[j];
        if keys.last().1 is Some {
            assert(module_part(keys)[i] == r[i]);
        }
    }
}

/// Each frame key has its frame among the frames built from the keys.
proof fn lemma_key_framed(keys: Seq<(String, Option<String>)>, flist: Seq<(String, Option<String>)>, k: int)
    requires
        0 <= k < keys.len(),
        flist.map_values(|e: (String, Option<String>)| key_view(e)) == crate_part(
            keys.map_values(|e: (String, Option<String>)| key_view(e)),
        ) + module_part(keys.map_values(|e: (String, Option<String>)| key_view(e))),
    ensures
        !no_frame(flist, keys[k].0@, opt_view(keys[k].1)),
{
    let kv = keys.map_values(|e: (String, Option<String>)| key_view(e));
    let fv = flist.map_values(|e: (String, Option<String>)| key_view(e));
    let v = kv[k];
    assert(v == (keys[k].0@, opt_view(keys[k].1)));
    let cp = crate_part(kv);
    let mp = module_part(kv);
    assert(fv.len() == flist.len());
    assert(fv == cp + mp);
    let f: int = if v.1 is Some {
        lemma_module_part_has(kv, k);
        let i = choose|i: int| 0 <= i < mp.len() && mp[i] == v;
        assert(fv[cp.len() + i] == v);
        cp.len() + i
    } else {
        lemma_crate_part_has(kv, k);
        let i = choose|i: int| 0 <= i < cp.len() && cp[i] == (v.0, None::<Seq<char>>);
        assert(fv[i] == v);
        i
    };
    assert(0 <= f < flist.len());
    assert(fv[f] == key_view(flist[f]));
    assert(key_matches(flist, f, keys[k].0@, opt_view(keys[k].1)));
}

/// The marks as built: each drawn item of a framed module has one, and the
/// working copy's marks are drawn items.
#[verifier::opaque]
pub open spec fn marks_drawn(graph: CodeGraph, flist: Seq<(String, Option<String>)>, drawn: Seq<u32>, marks: Seq<DataMark>) -> bool {
    &&& forall|k: int| 0 <= k < marks.len() && !(#[trigger] marks[k]).ghosted ==> drawn.contains(marks[k].id)
        && item_key(graph, marks[k].id) is Some
    &&& forall|i: int| 0 <= i < drawn.len() && (item_key(graph, #[trigger] drawn[i]) matches Some(key) && !no_frame(flist, key.0, key.1))
        ==> exists|k: int| 0 <= k < marks.len() && !(#[trigger] marks[k]).ghosted && marks[k].id == drawn[i]
}

/// The working copy's marks are exactly the kept items whose file the
/// survey lists.
#[verifier::opaque]
pub open spec fn marks_kept(graph: CodeGraph, kept: Set<u32>, marks: Seq<DataMark>) -> bool {
    forall|i: u32| #[trigger] kept.contains(i) && item_key(graph, i) is Some <==> exists|k: int|
        0 <= k < marks.len() && !(#[trigger] marks[k]).ghosted && marks[k].id == i
}

#[verifier::rlimit(60)]
#[verifier::spinoff_prover]
pub(crate) proof fn lemma_kept_marks(
    graph: CodeGraph,
    drawn: Seq<u32>,
    folded: Seq<u32>,
    private: Seq<u32>,
    ids: Seq<u32>,
    keys: Seq<(String, Option<String>)>,
    flist: Seq<(String, Option<String>)>,
    marks: Seq<DataMark>,
)
    requires
        ids_exact(drawn, folded, private, ids),
        keys_exact(graph, ids, keys),
        flist.map_values(|e: (String, Option<String>)| key_view(e)) == crate_part(
            keys.map_values(|e: (String, Option<String>)| key_view(e)),
        ) + module_part(keys.map_values(|e: (String, Option<String>)| key_view(e))),
        marks_drawn(graph, flist, drawn, marks),
    ensures
        marks_kept(graph, Set::new(|x: u32| drawn.contains(x)), marks),
{
    reveal(ids_exact);
    reveal(keys_exact);
    reveal(marks_drawn);
    reveal(marks_kept);
    let kept = Set::new(|x: u32| drawn.contains(x));
    assert forall|i: u32| #[trigger] kept.contains(i) && item_key(graph, i) is Some <==> exists|k: int|
        0 <= k < marks.len() && !(#[trigger] marks[k]).ghosted && marks[k].id == i by {
        if kept.contains(i) && item_key(graph, i) is Some {
            let key = item_key(graph, i)->0;
            let j = choose|j: int| 0 <= j < drawn.len() && drawn[j] == i;
            assert(ids.contains(i));
            let x = choose|x: int| 0 <= x < ids.len() && ids[x] == i;
            assert(item_key(graph, ids[x]) == Some(key));
            assert(key_source(graph, ids, key));
            let k = choose|k: int| 0 <= k < keys.len() && key_view(#[trigger] keys[k]) == key;
            lemma_key_framed(keys, flist, k);
            assert(item_key(graph, drawn[j]) == Some(key));
        }
        if exists|k: int| 0 <= k < marks.len() && !(#[trigger] marks[k]).ghosted && marks[k].id == i {
            let k = choose|k: int| 0 <= k < marks.len() && !(#[trigger] marks[k]).ghosted && marks[k].id == i;
            assert(drawn.contains(marks[k].id));
        }
    }
}

} // verus!
