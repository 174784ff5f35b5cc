//! One build of the data chart: which marks are drawn and which fold, the
//! frames they sit in, the holds edges on their anchors, the ownership forest
//! inside each frame, the quoted blocks, the reference ties and the facts.

use vstd::prelude::*;
use crate::data_model::{Anchor, DataMark, DataModel, FieldRow, Frame, Hold, RowState, Seat, Tie, opt_view, str_opt_view, spec_drawable, spec_charted, MARK_BUDGET, HELD_CAP, TIE_LABELS, TIES_PER_MARK, drawable, charted, interest, would_cycle, spec_letter};
use crate::kinds::{Delta, HoldEvent, HoldKind, ItemKind, hold_rank_of, event_rank_of};
use crate::paths::module_of;
use crate::sort::{char_code, sort_by_key, push_text, lex_le_exec, text_key};
use crate::wire::{CodeGraph, Doors, GhostMark, ItemMark, RefDir};

verus! {

/// Nothing in the survey outgrows the numbers the chart counts in: ids fit a
/// `u32` with room to spare, the counted fields and references fit their
/// `u32` sums, ghosts continue the marks' id space, and every reference names
/// a surveyed item.
pub open spec fn within_limits(g: CodeGraph) -> bool {
    &&& g.items@.len() + g.ghosts@.len() < 0x1000_0000
    &&& g.holds@.len() < 0x4000_0000
    &&& g.files@.len() < 0x4000_0000
    &&& forall|k: int| 0 <= k < g.ghosts@.len() ==> (#[trigger] g.ghosts@[k]).id < g.items@.len() + g.ghosts@.len()
    &&& forall|k: int| 0 <= k < g.item_edges@.len() ==> match (#[trigger] g.item_edges@[k]).from {
        Some(f) => (f as int) < g.items@.len(),
        None => true,
    }
    &&& forall|k: int| 0 <= k < g.item_edges@.len() ==> match (#[trigger] g.item_edges@[k]).to {
        Some(f) => (f as int) < g.items@.len(),
        None => true,
    }
    &&& fields_total(g.holds@) < 0x1_0000_0000
    &&& refs_total(g.item_edges@) < 0x1_0000_0000
}

pub open spec fn fields_total(h: Seq<crate::wire::HoldEdge>) -> nat
    decreases h.len(),
{
    if h.len() == 0 { 0 } else { fields_total(h.drop_last()) + h.last().fields@.len() }
}

pub open spec fn refs_total(e: Seq<crate::wire::ItemEdge>) -> nat
    decreases e.len(),
{
    if e.len() == 0 { 0 } else { refs_total(e.drop_last()) + e.last().count as nat }
}

/// The declaration behind an id: an item, or past the items a ghost.
pub open spec fn spec_kind_of(graph: CodeGraph, id: u32) -> Option<ItemKind> {
    if (id as int) < graph.items@.len() {
        Some(graph.items@[id as int].kind)
    } else if (id as int) - graph.items@.len() < graph.ghosts@.len() {
        Some(graph.ghosts@[(id as int) - graph.items@.len()].kind)
    } else {
        None
    }
}

/// The name of the declaration behind an id, or nothing.
pub open spec fn spec_name_of(graph: CodeGraph, id: u32) -> Seq<char> {
    if (id as int) < graph.items@.len() {
        graph.items@[id as int].name@
    } else if (id as int) - graph.items@.len() < graph.ghosts@.len() {
        graph.ghosts@[(id as int) - graph.items@.len()].name@
    } else {
        Seq::empty()
    }
}

/// The declaration behind an id is a free function.
pub open spec fn spec_is_fn_id(graph: CodeGraph, id: u32) -> bool {
    spec_kind_of(graph, id) == Some(ItemKind::Fn)
}

fn kind_of(graph: &CodeGraph, id: u32) -> (k: Option<ItemKind>)
    ensures
        k == spec_kind_of(*graph, id),
{
    let ni = graph.items.len();
    if (id as usize) < ni {
        Some(graph.items[id as usize].kind)
    } else {
        let at = (id as usize) - ni;
        if at < graph.ghosts.len() {
            Some(graph.ghosts[at].kind)
        } else {
            None
        }
    }
}

fn is_fn_id(graph: &CodeGraph, id: u32) -> (b: bool)
    ensures
        b == spec_is_fn_id(*graph, id),
{
    match kind_of(graph, id) {
        Some(ItemKind::Fn) => true,
        _ => false,
    }
}

fn name_of(graph: &CodeGraph, id: u32) -> (s: String)
    ensures
        s@ == spec_name_of(*graph, id),
{
    let ni = graph.items.len();
    if (id as usize) < ni {
        graph.items[id as usize].name.clone()
    } else {
        let at = (id as usize) - ni;
        if at < graph.ghosts.len() {
            graph.ghosts[at].name.clone()
        } else {
            String::new()
        }
    }
}

fn opt_str_eq(a: &Option<String>, b: &Option<String>) -> (r: bool)
    ensures
        r == (opt_view(*a) == opt_view(*b)),
{
    match a {
        Some(x) => match b {
            Some(y) => {
                let r = x.eq(y);
                r
            },
            None => false,
        },
        None => b.is_none(),
    }
}

fn to_opt_string(m: Option<&str>) -> (r: Option<String>)
    ensures
        opt_view(r) == str_opt_view(m),
{
    match m {
        Some(s) => Some(s.to_string()),
        None => None,
    }
}

/// Frame key `i` is the (crate, module) pair given.
pub open spec fn key_matches(keys: Seq<(String, Option<String>)>, i: int, krate: Seq<char>, module: Option<Seq<char>>) -> bool {
    keys[i].0@ == krate && opt_view(keys[i].1) == module
}

/// `f` is the first frame key naming (crate, module).
pub open spec fn first_frame(keys: Seq<(String, Option<String>)>, krate: Seq<char>, module: Option<Seq<char>>, f: int) -> bool {
    &&& 0 <= f < keys.len()
    &&& key_matches(keys, f, krate, module)
    &&& forall|j: int| 0 <= j < f ==> !#[trigger] key_matches(keys, j, krate, module)
}

/// No frame key names (crate, module).
pub open spec fn no_frame(keys: Seq<(String, Option<String>)>, krate: Seq<char>, module: Option<Seq<char>>) -> bool {
    forall|j: int| 0 <= j < keys.len() ==> !#[trigger] key_matches(keys, j, krate, module)
}

/// The (crate, module) key of the file an item is written in.
pub open spec fn item_key(graph: CodeGraph, id: u32) -> Option<(Seq<char>, Option<Seq<char>>)> {
    if (id as int) < graph.items@.len() && (graph.items@[id as int].file as int) < graph.files@.len() {
        let f = graph.files@[graph.items@[id as int].file as int];
        Some((f.krate@, crate::paths::spec_module_of(f.path@)))
    } else {
        None
    }
}

/// The frame a (crate, module) key names.
fn find_frame(keys: &Vec<(String, Option<String>)>, krate: &String, module: &Option<String>) -> (f: Option<u32>)
    requires
        keys@.len() < 0x4000_0000,
    ensures
        match f {
            Some(i) => first_frame(keys@, krate@, opt_view(*module), i as int),
            None => no_frame(keys@, krate@, opt_view(*module)),
        },
{
    let mut i: usize = 0;
    while i < keys.len()
        invariant
            i <= keys@.len(),
            keys@.len() < 0x4000_0000,
            forall|j: int| 0 <= j < i ==> !#[trigger] key_matches(keys@, j, krate@, opt_view(*module)),
        decreases keys.len() - i,
    {
        if keys[i].0.eq(krate) && opt_str_eq(&keys[i].1, module) {
            return Some(i as u32);
        }
        i = i + 1;
    }
    None
}

/// The frame key of the file an item is written in.
fn file_key(graph: &CodeGraph, file: u32) -> (r: Option<(String, Option<String>)>)
    ensures
        match r {
            Some(k) => (file as int) < graph.files@.len() && k.0@ == graph.files@[file as int].krate@
                && opt_view(k.1) == crate::paths::spec_module_of(graph.files@[file as int].path@),
            None => (file as int) >= graph.files@.len(),
        },
{
    if (file as usize) < graph.files.len() {
        let f = &graph.files[file as usize];
        Some((f.krate.clone(), to_opt_string(module_of(f.path.as_str()))))
    } else {
        None
    }
}

fn ghost_key(g: &GhostMark) -> (r: (String, Option<String>))
    ensures
        r.0@ == g.krate@,
        opt_view(r.1) == crate::paths::spec_module_of(g.path@),
{
    (g.krate.clone(), to_opt_string(module_of(g.path.as_str())))
}

/// The frame an item's file frames in.
fn frame_of_item(graph: &CodeGraph, keys: &Vec<(String, Option<String>)>, id: u32) -> (f: Option<u32>)
    requires
        keys@.len() < 0x4000_0000,
    ensures
        match item_key(*graph, id) {
            Some(k) => match f {
                Some(i) => first_frame(keys@, k.0, k.1, i as int),
                None => no_frame(keys@, k.0, k.1),
            },
            None => f is None,
        },
{
    if (id as usize) >= graph.items.len() {
        return None;
    }
    match file_key(graph, graph.items[id as usize].file) {
        Some(key) => find_frame(keys, &key.0, &key.1),
        None => None,
    }
}

/// A frame key as plain values.
pub open spec fn key_view(k: (String, Option<String>)) -> (Seq<char>, Option<Seq<char>>) {
    (k.0@, opt_view(k.1))
}

/// A frame key as sort material: the crate, then no module before any module.
#[verifier::opaque]
pub open spec fn frame_key_of(k: (Seq<char>, Option<Seq<char>>)) -> Seq<u64> {
    text_key(k.0) + match k.1 {
        None => seq![0u64],
        Some(m) => seq![1u64] + text_key(m),
    }
}

/// Two names read as key material, each followed by more, match only where
/// the names and what follows them match.
proof fn lemma_text_key_split(x: Seq<char>, y: Seq<char>, r1: Seq<u64>, r2: Seq<u64>)
    requires
        text_key(x) + r1 == text_key(y) + r2,
    ensures
        x == y,
        r1 == r2,
{
    let a = text_key(x) + r1;
    let b = text_key(y) + r2;
    if x.len() < y.len() {
        assert(a[x.len() as int] == 0u64);
        assert(b[x.len() as int] == char_code(y[x.len() as int]));
        assert(false);
    } else if y.len() < x.len() {
        assert(b[y.len() as int] == 0u64);
        assert(a[y.len() as int] == char_code(x[y.len() as int]));
        assert(false);
    } else {
        assert(text_key(x).len() == x.len() + 1);
        assert(text_key(y).len() == y.len() + 1);
        assert forall|i: int| 0 <= i < x.len() implies x[i] == y[i] by {
            assert(a[i] == text_key(x)[i]);
            assert(b[i] == text_key(y)[i]);
            assert(text_key(x)[i] == x.map_values(|c: char| char_code(c))[i]);
            assert(text_key(y)[i] == y.map_values(|c: char| char_code(c))[i]);
            crate::sort::lemma_char_code_inj(x[i], y[i]);
        }
        assert(x =~= y);
        assert(a.len() == b.len());
        assert(r1.len() == r2.len());
        assert forall|i: int| 0 <= i < r1.len() implies r1[i] == r2[i] by {
            assert(a[x.len() + 1 + i] == r1[i]);
            assert(b[y.len() + 1 + i] == r2[i]);
        }
        assert(r1 =~= r2);
    }
}

/// Different frame keys are different key material.
proof fn lemma_frame_key_inj(a: (Seq<char>, Option<Seq<char>>), b: (Seq<char>, Option<Seq<char>>))
    requires
        frame_key_of(a) == frame_key_of(b),
    ensures
        a == b,
{
    reveal(frame_key_of);
    let ra = match a.1 {
        None => seq![0u64],
        Some(m) => seq![1u64] + text_key(m),
    };
    let rb = match b.1 {
        None => seq![0u64],
        Some(m) => seq![1u64] + text_key(m),
    };
    lemma_text_key_split(a.0, b.0, ra, rb);
    assert(ra[0] == rb[0]);
    match (a.1, b.1) {
        (Some(m), Some(n)) => {
            assert(ra.drop_first() =~= text_key(m));
            assert(rb.drop_first() =~= text_key(n));
            lemma_text_key_split(m, n, Seq::empty(), Seq::empty());
            assert(text_key(m) + Seq::<u64>::empty() =~= text_key(m));
            assert(text_key(n) + Seq::<u64>::empty() =~= text_key(n));
        },
        _ => {},
    }
}

fn frame_sort_key(key: &(String, Option<String>)) -> (k: Vec<u64>)
    ensures
        k@ == frame_key_of(key_view(*key)),
{
    let mut k: Vec<u64> = Vec::new();
    push_text(&mut k, key.0.as_str());
    match &key.1 {
        None => k.push(0),
        Some(m) => {
            k.push(1);
            push_text(&mut k, m.as_str());
        },
    }
    proof {
        reveal(frame_key_of);
    }
    assert(k@ =~= frame_key_of(key_view(*key)));
    k
}

/// Frame `v` is named by an item among `ids` or by a ghost.
pub open spec fn key_source(graph: CodeGraph, ids: Seq<u32>, v: (Seq<char>, Option<Seq<char>>)) -> bool {
    ||| exists|i: int| 0 <= i < ids.len() && item_key(graph, #[trigger] ids[i]) == Some(v)
    ||| exists|g: int|
        0 <= g < graph.ghosts@.len() && v == ((#[trigger] graph.ghosts@[g]).krate@, crate::paths::spec_module_of(
            graph.ghosts@[g].path@,
        ))
}

/// Every frame the marks and ghosts name, sorted and each once: crate frames
/// first, then the module frames, each after the crate it sits in.
#[verifier::rlimit(100)]
#[verifier::spinoff_prover]
fn frame_keys(graph: &CodeGraph, ids: &Vec<u32>) -> (keys: Vec<(String, Option<String>)>)
    requires
        graph.files@.len() < 0x4000_0000,
        ids@.len() + graph.ghosts@.len() < 0x4000_0000,
    ensures
        keys@.len() <= ids@.len() + graph.ghosts@.len(),
        forall|k: int| 0 <= k < keys@.len() ==> key_source(*graph, ids@, key_view(#[trigger] keys@[k])),
        forall|v: (Seq<char>, Option<Seq<char>>)| key_source(*graph, ids@, v) ==> exists|k: int|
            0 <= k < keys@.len() && key_view(#[trigger] keys@[k]) == v,
        forall|a: int, b: int| 0 <= a < b < keys@.len() ==> crate::sort::lex_le(frame_key_of(key_view(#[trigger] keys@[a])), frame_key_of(key_view(#[trigger] keys@[b])))
            && key_view(keys@[a]) != key_view(keys@[b]),
        crate::data_frames::keys_exact(*graph, ids@, keys@),
{
    proof {
        reveal(crate::data_frames::keys_exact);
    }
    let mut keyed: Vec<(Vec<u64>, (String, Option<String>))> = Vec::new();
    let mut i: usize = 0;
    while i < ids.len()
        invariant
            i <= ids@.len(),
            keyed@.len() <= i,
            forall|k: int| 0 <= k < keyed@.len() ==> (#[trigger] keyed@[k]).0@ == frame_key_of(key_view(keyed@[k].1))
                && key_source(*graph, ids@, key_view(keyed@[k].1)),
            forall|j: int| 0 <= j < i && (item_key(*graph, #[trigger] ids@[j]) is Some) ==> exists|k: int|
                0 <= k < keyed@.len() && Some(key_view((#[trigger] keyed@[k]).1)) == item_key(*graph, ids@[j]),
        decreases ids.len() - i,
    {
        let id = ids[i];
        let ghost before = keyed@;
        if (id as usize) < graph.items.len() {
            match file_key(graph, graph.items[id as usize].file) {
                Some(key) => {
                    let k = frame_sort_key(&key);
                    keyed.push((k, key));
                    proof {
                        assert(item_key(*graph, ids@[i as int]) == Some(key_view(key)));
                        assert(keyed@[keyed@.len() - 1].1 == key);
                    }
                },
                None => {},
            }
        }
        proof {
            assert forall|k: int| 0 <= k < keyed@.len() implies (#[trigger] keyed@[k]).0@ == frame_key_of(key_view(keyed@[k].1))
                && key_source(*graph, ids@, key_view(keyed@[k].1)) by {
                if k < before.len() {
                    assert(keyed@[k] == before[k]);
                }
            }
            assert forall|j: int| 0 <= j < i + 1 && (item_key(*graph, #[trigger] ids@[j]) is Some) implies exists|k: int|
                0 <= k < keyed@.len() && Some(key_view((#[trigger] keyed@[k]).1)) == item_key(*graph, ids@[j]) by {
                if j < i {
                    let k = choose|k: int| 0 <= k < before.len() && Some(key_view((#[trigger] before[k]).1)) == item_key(*graph, ids@[j]);
                    assert(keyed@[k] == before[k]);
                } else {
                    assert(keyed@[keyed@.len() - 1].1 == keyed@[keyed@.len() - 1].1);
                }
            }
        }
        i = i + 1;
    }
    let mut g: usize = 0;
    while g < graph.ghosts.len()
        invariant
            g <= graph.ghosts@.len(),
            keyed@.len() <= ids@.len() + g,
            forall|k: int| 0 <= k < keyed@.len() ==> (#[trigger] keyed@[k]).0@ == frame_key_of(key_view(keyed@[k].1))
                && key_source(*graph, ids@, key_view(keyed@[k].1)),
            forall|j: int| 0 <= j < ids@.len() && (item_key(*graph, #[trigger] ids@[j]) is Some) ==> exists|k: int|
                0 <= k < keyed@.len() && Some(key_view((#[trigger] keyed@[k]).1)) == item_key(*graph, ids@[j]),
            forall|q: int| 0 <= q < g ==> exists|k: int|
                0 <= k < keyed@.len() && key_view((#[trigger] keyed@[k]).1) == ((#[trigger] graph.ghosts@[q]).krate@, crate::paths::spec_module_of(graph.ghosts@[q].path@)),
        decreases graph.ghosts.len() - g,
    {
        let ghost before = keyed@;
        let key = ghost_key(&graph.ghosts[g]);
        let k = frame_sort_key(&key);
        keyed.push((k, key));
        proof {
            let last = keyed@.len() - 1;
            assert(keyed@[last].1 == key);
            assert(key_source(*graph, ids@, key_view(key))) by {
                assert(key_view(key) == (graph.ghosts@[g as int].krate@, crate::paths::spec_module_of(graph.ghosts@[g as int].path@)));
            }
            assert forall|k: int| 0 <= k < keyed@.len() implies (#[trigger] keyed@[k]).0@ == frame_key_of(key_view(keyed@[k].1))
                && key_source(*graph, ids@, key_view(keyed@[k].1)) by {
                if k < before.len() {
                    assert(keyed@[k] == before[k]);
                }
            }
            assert forall|j: int| 0 <= j < ids@.len() && (item_key(*graph, #[trigger] ids@[j]) is Some) implies exists|k: int|
                0 <= k < keyed@.len() && Some(key_view((#[trigger] keyed@[k]).1)) == item_key(*graph, ids@[j]) by {
                let k = choose|k: int| 0 <= k < before.len() && Some(key_view((#[trigger] before[k]).1)) == item_key(*graph, ids@[j]);
                assert(keyed@[k] == before[k]);
            }
            assert forall|q: int| 0 <= q < g + 1 implies exists|k: int|
                0 <= k < keyed@.len() && key_view((#[trigger] keyed@[k]).1) == ((#[trigger] graph.ghosts@[q]).krate@, crate::paths::spec_module_of(graph.ghosts@[q].path@)) by {
                if q < g {
                    let k = choose|k: int| 0 <= k < before.len() && key_view((#[trigger] before[k]).1) == (graph.ghosts@[q].krate@, crate::paths::spec_module_of(graph.ghosts@[q].path@));
                    assert(keyed@[k] == before[k]);
                } else {
                    assert(key_view(keyed@[last].1) == (graph.ghosts@[q].krate@, crate::paths::spec_module_of(graph.ghosts@[q].path@)));
                }
            }
        }
        g = g + 1;
    }
    let ghost kv = keyed@;
    let sorted = sort_by_key(keyed);
    let ghost sk = sorted@;
    proof {
        crate::sort::lemma_same_entries(sk, kv);
    }
    // Equal keys sit together: keep the first of each run.
    let mut out: Vec<(String, Option<String>)> = Vec::new();
    let mut last: Option<Vec<u64>> = None;
    let mut j: usize = 0;
    let ghost mut pos: Seq<int> = Seq::empty();
    let ghost mut src: Seq<int> = Seq::empty();
    proof {
        assert forall|q: int| 0 <= q < sk.len() implies (#[trigger] sk[q]).0@ == frame_key_of(key_view(sk[q].1)) by {
            assert(sk.contains(sk[q]));
            let w = choose|w: int| 0 <= w < kv.len() && kv[w] == sk[q];
        }
        reveal(dedup_fits);
    }
    while j < sorted.len()
        invariant
            j <= sorted@.len(),
            sk == sorted@,
            out@.len() <= j,
            sorted@.len() <= ids@.len() + graph.ghosts@.len(),
            forall|q: int| 0 <= q < sk.len() ==> (#[trigger] sk[q]).0@ == frame_key_of(key_view(sk[q].1)),
            crate::sort::sorted_by_key(sk),
            dedup_fits(sk, j as int, out@, pos, src),
            j == 0 <==> last is None,
            j > 0 ==> (last matches Some(l) && l@ == sk[j - 1].0@),
        decreases sorted.len() - j,
    {
        let same = match &last {
            Some(prev) => lex_le_exec(prev, &sorted[j].0) && lex_le_exec(&sorted[j].0, prev),
            None => false,
        };
        proof {
            lemma_dedup_len(sk, j as int, out@, pos, src);
        }
        if !same {
            let e = (sorted[j].1.0.clone(), match &sorted[j].1.1 {
                Some(m) => Some(m.clone()),
                None => None,
            });
            proof {
                if j > 0 {
                    if sk[j - 1].0@ == sk[j as int].0@ {
                        crate::sort::lemma_lex_refl(sk[j as int].0@);
                    }
                }
                lemma_dedup_push(sk, j as int, out@, pos, src, e);
                pos = pos.push(out@.len() as int);
                src = src.push(j as int);
            }
            out.push(e);
            last = Some(sorted[j].0.clone());
        } else {
            proof {
                crate::sort::lemma_lex_antisym(sk[j - 1].0@, sk[j as int].0@);
                lemma_dedup_skip(sk, j as int, out@, pos, src);
                pos = pos.push(out@.len() - 1);
            }
        }
        j = j + 1;
    }
    proof {
        lemma_dedup_done(sk, out@, pos, src);
        assert forall|k: int| 0 <= k < out@.len() implies key_source(*graph, ids@, key_view(#[trigger] out@[k])) by {
            let q = choose|q: int| 0 <= q < sk.len() && key_view(out@[k]) == key_view((#[trigger] sk[q]).1);
            assert(sk.contains(sk[q]));
            let w = choose|w: int| 0 <= w < kv.len() && kv[w] == sk[q];
        }
        assert forall|v: (Seq<char>, Option<Seq<char>>)| key_source(*graph, ids@, v) implies exists|k: int|
            0 <= k < out@.len() && key_view(#[trigger] out@[k]) == v by {
            let w: int = if exists|i: int| 0 <= i < ids@.len() && item_key(*graph, #[trigger] ids@[i]) == Some(v) {
                let i = choose|i: int| 0 <= i < ids@.len() && item_key(*graph, #[trigger] ids@[i]) == Some(v);
                choose|k: int| 0 <= k < kv.len() && Some(key_view((#[trigger] kv[k]).1)) == item_key(*graph, ids@[i])
            } else {
                let g = choose|g: int|
                    0 <= g < graph.ghosts@.len() && v == ((#[trigger] graph.ghosts@[g]).krate@, crate::paths::spec_module_of(graph.ghosts@[g].path@));
                choose|k: int| 0 <= k < kv.len() && key_view((#[trigger] kv[k]).1) == ((#[trigger] graph.ghosts@[g]).krate@, crate::paths::spec_module_of(graph.ghosts@[g].path@))
            };
            assert(key_view(kv[w].1) == v);
            assert(kv.contains(kv[w]));
            let q = choose|q: int| 0 <= q < sk.len() && sk[q] == kv[w];
            assert(exists|k: int| 0 <= k < out@.len() && key_view(#[trigger] out@[k]) == key_view(sk[q].1));
        }
    }
    out
}

/// The runs of equal keys among the first `j` sorted entries, each kept once
/// in `out`, in order: `pos` gives where each entry is kept, `src` an entry
/// for each kept key.
#[verifier::opaque]
pub open spec fn dedup_fits(
    sk: Seq<(Vec<u64>, (String, Option<String>))>,
    j: int,
    out: Seq<(String, Option<String>)>,
    pos: Seq<int>,
    src: Seq<int>,
) -> bool {
    &&& 0 <= j <= sk.len()
    &&& out.len() <= j
    &&& pos.len() == j
    &&& src.len() == out.len()
    &&& forall|q: int| 0 <= q < j ==> 0 <= #[trigger] pos[q] < out.len() && key_view(out[pos[q]]) == key_view(sk[q].1)
    &&& forall|k: int| 0 <= k < out.len() ==> 0 <= #[trigger] src[k] < j && key_view(out[k]) == key_view(sk[src[k]].1)
    &&& forall|a: int, b: int| 0 <= a < b < out.len() ==> crate::sort::lex_le(frame_key_of(key_view(#[trigger] out[a])), frame_key_of(key_view(#[trigger] out[b])))
        && key_view(out[a]) != key_view(out[b])
    &&& j == 0 ==> out.len() == 0
    &&& j > 0 ==> out.len() > 0 && key_view(out[out.len() - 1]) == key_view(sk[j - 1].1)
}

proof fn lemma_dedup_len(sk: Seq<(Vec<u64>, (String, Option<String>))>, j: int, out: Seq<(String, Option<String>)>, pos: Seq<int>, src: Seq<int>)
    requires
        dedup_fits(sk, j, out, pos, src),
    ensures
        out.len() <= j,
        j > 0 ==> out.len() > 0,
{
    reveal(dedup_fits);
}

/// A key at or before one that sorts strictly before a third sorts strictly
/// before the third.
proof fn lemma_lex_past(x: Seq<u64>, y: Seq<u64>, z: Seq<u64>)
    requires
        crate::sort::lex_le(x, y),
        crate::sort::lex_le(y, z),
        y != z,
    ensures
        crate::sort::lex_le(x, z),
        x != z,
{
    crate::sort::lemma_lex_trans(x, y, z);
    if x == z {
        crate::sort::lemma_lex_antisym(y, z);
    }
}

/// A key past every kept one, kept at the end, keeps them in order.
proof fn lemma_push_order(out: Seq<(String, Option<String>)>, e: (String, Option<String>), top: Seq<u64>)
    requires
        forall|a: int, b: int| 0 <= a < b < out.len() ==> crate::sort::lex_le(frame_key_of(key_view(#[trigger] out[a])), frame_key_of(key_view(#[trigger] out[b])))
            && key_view(out[a]) != key_view(out[b]),
        forall|a: int| 0 <= a < out.len() ==> crate::sort::lex_le(frame_key_of(key_view(#[trigger] out[a])), top),
        crate::sort::lex_le(top, frame_key_of(key_view(e))),
        top != frame_key_of(key_view(e)),
    ensures
        forall|a: int, b: int| 0 <= a < b < out.push(e).len() ==> crate::sort::lex_le(frame_key_of(key_view(#[trigger] out.push(e)[a])), frame_key_of(key_view(#[trigger] out.push(e)[b])))
            && key_view(out.push(e)[a]) != key_view(out.push(e)[b]),
{
    let o2 = out.push(e);
    assert forall|a: int, b: int| 0 <= a < b < o2.len() implies crate::sort::lex_le(frame_key_of(key_view(#[trigger] o2[a])), frame_key_of(key_view(#[trigger] o2[b])))
        && key_view(o2[a]) != key_view(o2[b]) by {
        assert(o2[a] == out[a]);
        if b == out.len() {
            lemma_lex_past(frame_key_of(key_view(out[a])), top, frame_key_of(key_view(e)));
        } else {
            assert(o2[b] == out[b]);
        }
    }
}

/// A sorted entry with a new key is kept.
#[verifier::rlimit(60)]
#[verifier::spinoff_prover]
proof fn lemma_dedup_push(
    sk: Seq<(Vec<u64>, (String, Option<String>))>,
    j: int,
    out: Seq<(String, Option<String>)>,
    pos: Seq<int>,
    src: Seq<int>,
    e: (String, Option<String>),
)
    requires
        dedup_fits(sk, j, out, pos, src),
        0 <= j < sk.len(),
        forall|q: int| 0 <= q < sk.len() ==> (#[trigger] sk[q]).0@ == frame_key_of(key_view(sk[q].1)),
        crate::sort::sorted_by_key(sk),
        j > 0 ==> sk[j - 1].0@ != sk[j].0@,
        key_view(e) == key_view(sk[j].1),
    ensures
        dedup_fits(sk, j + 1, out.push(e), pos.push(out.len() as int), src.push(j)),
{
    reveal(dedup_fits);
    let o2 = out.push(e);
    let p2 = pos.push(out.len() as int);
    let s2 = src.push(j);
    let n = out.len() as int;
    if j > 0 {
        let top = sk[j - 1].0@;
        assert forall|a: int| 0 <= a < out.len() implies crate::sort::lex_le(frame_key_of(key_view(#[trigger] out[a])), top) by {
            let q = src[a];
            assert(sk[q].0@ == frame_key_of(key_view(sk[q].1)));
            if q < j - 1 {
                assert(crate::sort::lex_le(sk[q].0@, sk[j - 1].0@));
            } else {
                crate::sort::lemma_lex_refl(sk[q].0@);
            }
        }
        assert(sk[j - 1].0@ == frame_key_of(key_view(sk[j - 1].1)));
        assert(sk[j].0@ == frame_key_of(key_view(sk[j].1)));
        assert(crate::sort::lex_le(sk[j - 1].0@, sk[j].0@));
        lemma_push_order(out, e, top);
    } else {
        assert(o2.len() == 1);
    }
    assert forall|q: int| 0 <= q < j + 1 implies 0 <= #[trigger] p2[q] < o2.len() && key_view(o2[p2[q]]) == key_view(sk[q].1) by {
        if q < j {
            assert(p2[q] == pos[q]);
            assert(o2[pos[q]] == out[pos[q]]);
        }
    }
    assert forall|k: int| 0 <= k < o2.len() implies 0 <= #[trigger] s2[k] < j + 1 && key_view(o2[k]) == key_view(sk[s2[k]].1) by {
        if k < n {
            assert(s2[k] == src[k]);
            assert(o2[k] == out[k]);
        }
    }
}

/// A sorted entry with the key of the one before it is the same frame, and
/// is not kept again.
#[verifier::rlimit(60)]
#[verifier::spinoff_prover]
proof fn lemma_dedup_skip(
    sk: Seq<(Vec<u64>, (String, Option<String>))>,
    j: int,
    out: Seq<(String, Option<String>)>,
    pos: Seq<int>,
    src: Seq<int>,
)
    requires
        dedup_fits(sk, j, out, pos, src),
        0 < j < sk.len(),
        forall|q: int| 0 <= q < sk.len() ==> (#[trigger] sk[q]).0@ == frame_key_of(key_view(sk[q].1)),
        sk[j - 1].0@ == sk[j].0@,
    ensures
        dedup_fits(sk, j + 1, out, pos.push(out.len() - 1), src),
{
    reveal(dedup_fits);
    let p2 = pos.push(out.len() - 1);
    assert(sk[j - 1].0@ == frame_key_of(key_view(sk[j - 1].1)));
    assert(sk[j].0@ == frame_key_of(key_view(sk[j].1)));
    lemma_frame_key_inj(key_view(sk[j - 1].1), key_view(sk[j].1));
    assert forall|q: int| 0 <= q < j + 1 implies 0 <= #[trigger] p2[q] < out.len() && key_view(out[p2[q]]) == key_view(sk[q].1) by {
        if q < j {
            assert(p2[q] == pos[q]);
        }
    }
}

proof fn lemma_dedup_done(sk: Seq<(Vec<u64>, (String, Option<String>))>, out: Seq<(String, Option<String>)>, pos: Seq<int>, src: Seq<int>)
    requires
        dedup_fits(sk, sk.len() as int, out, pos, src),
    ensures
        out.len() <= sk.len(),
        forall|q: int| 0 <= q < sk.len() ==> exists|k: int| 0 <= k < out.len() && key_view(#[trigger] out[k]) == key_view((#[trigger] sk[q]).1),
        forall|k: int| 0 <= k < out.len() ==> exists|q: int| 0 <= q < sk.len() && key_view(#[trigger] out[k]) == key_view((#[trigger] sk[q]).1),
        forall|a: int, b: int| 0 <= a < b < out.len() ==> crate::sort::lex_le(frame_key_of(key_view(#[trigger] out[a])), frame_key_of(key_view(#[trigger] out[b])))
            && key_view(out[a]) != key_view(out[b]),
{
    reveal(dedup_fits);
    assert forall|q: int| 0 <= q < sk.len() implies exists|k: int| 0 <= k < out.len() && key_view(#[trigger] out[k]) == key_view((#[trigger] sk[q]).1) by {
        let k = pos[q];
        assert(key_view(out[k]) == key_view(sk[q].1));
    }
    assert forall|k: int| 0 <= k < out.len() implies exists|q: int| 0 <= q < sk.len() && key_view(#[trigger] out[k]) == key_view((#[trigger] sk[q]).1) by {
        let q = src[k];
        assert(key_view(out[k]) == key_view(sk[q].1));
    }
}

/// How many holds edges touch each mark, by id.
fn degrees(graph: &CodeGraph, n: usize) -> (d: Vec<u32>)
    requires
        graph.holds@.len() < 0x4000_0000,
    ensures
        d@.len() == n,
        forall|k: int| 0 <= k < n ==> d@[k] <= 2 * graph.holds@.len(),
        forall|k: int| 0 <= k < n ==> #[trigger] d@[k] == spec_degree(graph.holds@, k),
{
    let mut d: Vec<u32> = Vec::new();
    let mut k: usize = 0;
    while k < n
        invariant
            k <= n,
            d@.len() == k,
            forall|q: int| 0 <= q < k ==> d@[q] == 0,
        decreases n - k,
    {
        d.push(0);
        k = k + 1;
    }
    let mut i: usize = 0;
    while i < graph.holds.len()
        invariant
            i <= graph.holds@.len(),
            graph.holds@.len() < 0x4000_0000,
            d@.len() == n,
            forall|q: int| 0 <= q < n ==> d@[q] <= 2 * i,
            forall|q: int| 0 <= q < n ==> #[trigger] d@[q] == spec_degree(graph.holds@.take(i as int), q),
        decreases graph.holds.len() - i,
    {
        proof {
            assert(graph.holds@.take(i + 1).drop_last() =~= graph.holds@.take(i as int));
            assert(graph.holds@.take(i + 1).last() == graph.holds@[i as int]);
        }
        let ghost d0 = d@;
        let from = graph.holds[i].from as usize;
        let to = graph.holds[i].to as usize;
        if from < n {
            let v = d[from] + 1;
            d.set(from, v);
        }
        if to < n {
            let v = d[to] + 1;
            d.set(to, v);
        }
        i = i + 1;
    }
    proof {
        assert(graph.holds@.take(graph.holds@.len() as int) =~= graph.holds@);
    }
    d
}

/// How many holds edges touch mark `k`, an edge from `k` to itself twice.
pub open spec fn spec_degree(holds: Seq<crate::wire::HoldEdge>, k: int) -> nat
    decreases holds.len(),
{
    if holds.len() == 0 {
        0
    } else {
        spec_degree(holds.drop_last(), k) + (if holds.last().from == k { 1nat } else { 0nat }) + (if holds.last().to == k {
            1nat
        } else {
            0nat
        })
    }
}

/// Which charted items clear the door, and which fold for visibility, each
/// list in the survey's order.
fn split_drawn(graph: &CodeGraph, doors: Doors) -> (r: (Vec<u32>, Vec<u32>))
    requires
        graph.items@.len() < 0x4000_0000,
    ensures
        forall|k: int| 0 <= k < r.0@.len() ==> (#[trigger] r.0@[k] as int) < graph.items@.len()
            && spec_drawable(graph.items@[r.0@[k] as int], doors),
        forall|k: int| 0 <= k < r.1@.len() ==> (#[trigger] r.1@[k] as int) < graph.items@.len()
            && spec_charted(graph.items@[r.1@[k] as int]) && !spec_drawable(graph.items@[r.1@[k] as int], doors),
        forall|a: int, b: int| 0 <= a < b < r.0@.len() ==> r.0@[a] < r.0@[b],
        forall|a: int, b: int| 0 <= a < b < r.1@.len() ==> r.1@[a] < r.1@[b],
        forall|i: int| 0 <= i < graph.items@.len() && spec_drawable(#[trigger] graph.items@[i], doors)
            ==> r.0@.contains(i as u32),
        forall|i: int| 0 <= i < graph.items@.len() && spec_charted(#[trigger] graph.items@[i])
            && !spec_drawable(graph.items@[i], doors) ==> r.1@.contains(i as u32),
        forall|i: u32| #[trigger] drawable_ids(*graph, doors).contains(i) ==> r.0@.contains(i),
        crate::data_frames::split_fits(*graph, doors, r.0@, r.1@),
{
    proof {
        reveal(crate::data_frames::split_fits);
    }
    let mut drawn: Vec<u32> = Vec::new();
    let mut private: Vec<u32> = Vec::new();
    let mut i: usize = 0;
    while i < graph.items.len()
        invariant
            i <= graph.items@.len(),
            graph.items@.len() < 0x4000_0000,
            forall|k: int| 0 <= k < drawn@.len() ==> (#[trigger] drawn@[k] as int) < i
                && spec_drawable(graph.items@[drawn@[k] as int], doors),
            forall|k: int| 0 <= k < private@.len() ==> (#[trigger] private@[k] as int) < i
                && spec_charted(graph.items@[private@[k] as int]) && !spec_drawable(graph.items@[private@[k] as int], doors),
            forall|a: int, b: int| 0 <= a < b < drawn@.len() ==> drawn@[a] < drawn@[b],
            forall|a: int, b: int| 0 <= a < b < private@.len() ==> private@[a] < private@[b],
            forall|q: int| 0 <= q < i && spec_drawable(#[trigger] graph.items@[q], doors)
                ==> drawn@.contains(q as u32),
            forall|q: int| 0 <= q < i && spec_charted(#[trigger] graph.items@[q])
                && !spec_drawable(graph.items@[q], doors) ==> private@.contains(q as u32),
        decreases graph.items.len() - i,
    {
        let mark = &graph.items[i];
        if charted(mark) {
            if drawable(mark, doors) {
                let ghost before = drawn@;
                drawn.push(i as u32);
                proof {
                    assert(drawn@[drawn@.len() - 1] == i as u32);
                    assert forall|q: int| 0 <= q <= i && spec_drawable(#[trigger] graph.items@[q], doors)
                        implies drawn@.contains(q as u32) by {
                        if q < i {
                            let k = choose|k: int| 0 <= k < before.len() && before[k] == q as u32;
                            assert(drawn@[k] == q as u32);
                        }
                    }
                }
            } else {
                let ghost before = private@;
                private.push(i as u32);
                proof {
                    assert(private@[private@.len() - 1] == i as u32);
                    assert forall|q: int| 0 <= q <= i && spec_charted(#[trigger] graph.items@[q])
                        && !spec_drawable(graph.items@[q], doors) implies private@.contains(q as u32) by {
                        if q < i {
                            let k = choose|k: int| 0 <= k < before.len() && before[k] == q as u32;
                            assert(private@[k] == q as u32);
                        }
                    }
                }
            }
        }
        proof {
            assert(spec_drawable(graph.items@[i as int], doors) ==> spec_charted(graph.items@[i as int]));
        }
        i = i + 1;
    }
    proof {
        assert forall|i: u32| #[trigger] drawable_ids(*graph, doors).contains(i) implies drawn@.contains(i) by {
            assert(spec_drawable(graph.items@[i as int], doors));
        }
    }
    (drawn, private)
}

/// A folding candidate: not a static, and untouched by the diff.
pub open spec fn may_fold(mark: ItemMark) -> bool {
    mark.kind != ItemKind::Static && mark.delta == Delta::Same
}

/// Every folded mark is one the budget may fold.
#[verifier::opaque]
pub open spec fn folds_movable(graph: CodeGraph, folded: Seq<u32>) -> bool {
    forall|k: int| 0 <= k < folded.len() ==> (#[trigger] folded[k] as int) < graph.items@.len() && may_fold(graph.items@[folded[k] as int])
}

/// How loudly an item asks to stay drawn, as the budget ranks it: the
/// loudest first (holds edges touching it, names of it across the
/// workspace, and two more where this epoch changed its file), then by file
/// and line.
pub open spec fn rank_key(graph: CodeGraph, i: u32) -> Seq<u64> {
    let m = graph.items@[i as int];
    let changed = (m.file as int) < graph.files@.len() && graph.files@[m.file as int].changed;
    let loud = spec_degree(graph.holds@, i as int) + m.fan_in + if changed { 2int } else { 0int };
    seq![(u64::MAX - loud) as u64, m.file as u64, m.line as u64]
}

/// Over budget, every foldable item kept ranks at or before every item
/// folded.
#[verifier::opaque]
pub open spec fn budget_ranked(graph: CodeGraph, kept: Seq<u32>, gone: Seq<u32>) -> bool {
    forall|a: int, b: int| 0 <= a < kept.len() && 0 <= b < gone.len() && may_fold(graph.items@[#[trigger] kept[a] as int])
        ==> crate::sort::lex_le(rank_key(graph, kept[a]), rank_key(graph, #[trigger] gone[b]))
}

/// Among the items the doors admit, every foldable one kept ranks at or
/// before every one the budget folds.
#[verifier::opaque]
pub open spec fn kept_ranked(graph: CodeGraph, doors: Doors, kept: Set<u32>) -> bool {
    forall|x: u32, y: u32|
        #![trigger kept.contains(x), drawable_ids(graph, doors).contains(y)]
        kept.contains(x) && may_fold(graph.items@[x as int]) && drawable_ids(graph, doors).contains(y) && !kept.contains(y)
            ==> crate::sort::lex_le(rank_key(graph, x), rank_key(graph, y))
}

/// Over budget the loudest stay: of a foldable item the budget keeps and an
/// item the doors admit that it folds, the kept one is at least as loud
/// (holds edges touching it, names of it across the workspace, and two more
/// where this epoch changed its file); of two equally loud, the kept one
/// comes first by file, then by line.
pub proof fn law_budget_keeps_the_loudest(graph: CodeGraph, doors: Doors, kept: Set<u32>, x: u32, y: u32)
    requires
        kept_ranked(graph, doors, kept),
        kept.contains(x),
        may_fold(graph.items@[x as int]),
        drawable_ids(graph, doors).contains(y),
        !kept.contains(y),
        (x as int) < graph.items@.len(),
    ensures
        ({
            let mx = graph.items@[x as int];
            let my = graph.items@[y as int];
            let lx = spec_degree(graph.holds@, x as int) + mx.fan_in + if (mx.file as int) < graph.files@.len()
                && graph.files@[mx.file as int].changed { 2int } else { 0int };
            let ly = spec_degree(graph.holds@, y as int) + my.fan_in + if (my.file as int) < graph.files@.len()
                && graph.files@[my.file as int].changed { 2int } else { 0int };
            (0 <= lx <= u64::MAX && 0 <= ly <= u64::MAX) ==> {
                &&& lx >= ly
                &&& lx == ly ==> (mx.file < my.file || (mx.file == my.file && mx.line <= my.line))
            }
        }),
{
    reveal(kept_ranked);
    let a = rank_key(graph, x);
    let b = rank_key(graph, y);
    assert(crate::sort::lex_le(a, b));
    let mx = graph.items@[x as int];
    let my = graph.items@[y as int];
    let lx = spec_degree(graph.holds@, x as int) + mx.fan_in + if (mx.file as int) < graph.files@.len()
        && graph.files@[mx.file as int].changed { 2int } else { 0int };
    let ly = spec_degree(graph.holds@, y as int) + my.fan_in + if (my.file as int) < graph.files@.len()
        && graph.files@[my.file as int].changed { 2int } else { 0int };
    if 0 <= lx <= u64::MAX && 0 <= ly <= u64::MAX {
        assert(a[0] == (u64::MAX - lx) as u64);
        assert(b[0] == (u64::MAX - ly) as u64);
        if a[0] == b[0] {
            assert(crate::sort::lex_le(a.drop_first(), b.drop_first()));
            let a1 = a.drop_first();
            let b1 = b.drop_first();
            assert(a1[0] == mx.file as u64 && b1[0] == my.file as u64);
            if a1[0] == b1[0] {
                assert(crate::sort::lex_le(a1.drop_first(), b1.drop_first()));
                let a2 = a1.drop_first();
                let b2 = b1.drop_first();
                assert(a2[0] == mx.line as u64 && b2[0] == my.line as u64);
                assert(a2.drop_first().len() == 0);
            }
        }
    }
}

proof fn lemma_kept_ranked(graph: CodeGraph, doors: Doors, drawn0: Seq<u32>, drawn: Seq<u32>, folded: Seq<u32>, private: Seq<u32>)
    requires
        crate::data_frames::split_fits(graph, doors, drawn0, private),
        crate::data_frames::budget_fits(drawn0, drawn, folded),
        budget_ranked(graph, drawn, folded),
    ensures
        kept_ranked(graph, doors, Set::new(|x: u32| drawn.contains(x))),
{
    reveal(crate::data_frames::split_fits);
    reveal(crate::data_frames::budget_fits);
    reveal(budget_ranked);
    reveal(kept_ranked);
    let kept = Set::new(|x: u32| drawn.contains(x));
    assert forall|x: u32, y: u32|
        #![trigger kept.contains(x), drawable_ids(graph, doors).contains(y)]
        kept.contains(x) && may_fold(graph.items@[x as int]) && drawable_ids(graph, doors).contains(y) && !kept.contains(y)
            implies crate::sort::lex_le(rank_key(graph, x), rank_key(graph, y)) by {
        let a = choose|a: int| 0 <= a < drawn.len() && drawn[a] == x;
        assert(spec_drawable(graph.items@[y as int], doors));
        assert(drawn0.contains(y));
        let w = choose|w: int| 0 <= w < drawn0.len() && drawn0[w] == y;
        assert(drawn.contains(drawn0[w]) || folded.contains(drawn0[w]));
        let b = choose|b: int| 0 <= b < folded.len() && folded[b] == y;
        assert(may_fold(graph.items@[drawn[a] as int]));
    }
}

/// Over budget, the quietest types fold to their frame's counted row:
/// returns the marks still drawn and the folded ones, both in id order.
/// Statics never fold, and neither does anything the diff touched.
fn fold_budget(graph: &CodeGraph, drawn: Vec<u32>, degree: &Vec<u32>) -> (r: (Vec<u32>, Vec<u32>))
    requires
        graph.items@.len() < 0x4000_0000,
        degree@.len() >= graph.items@.len(),
        forall|k: int| 0 <= k < graph.items@.len() ==> #[trigger] degree@[k] == spec_degree(graph.holds@, k),
        forall|k: int| 0 <= k < drawn@.len() ==> (#[trigger] drawn@[k] as int) < graph.items@.len(),
        forall|a: int, b: int| 0 <= a < b < drawn@.len() ==> drawn@[a] < drawn@[b],
    ensures
        budget_ranked(*graph, r.0@, r.1@),
        forall|k: int| 0 <= k < r.0@.len() ==> drawn@.contains(#[trigger] r.0@[k]),
        forall|k: int| 0 <= k < r.1@.len() ==> drawn@.contains(#[trigger] r.1@[k])
            && may_fold(graph.items@[r.1@[k] as int]),
        forall|k: int| 0 <= k < drawn@.len() ==> r.0@.contains(#[trigger] drawn@[k]) || r.1@.contains(drawn@[k]),
        forall|k: int| 0 <= k < r.1@.len() ==> !r.0@.contains(#[trigger] r.1@[k]),
        forall|a: int, b: int| 0 <= a < b < r.0@.len() ==> r.0@[a] < r.0@[b],
        forall|a: int, b: int| 0 <= a < b < r.1@.len() ==> r.1@[a] < r.1@[b],
        drawn@.len() <= MARK_BUDGET ==> r.0@ == drawn@ && r.1@.len() == 0,
        crate::data_frames::budget_fits(drawn@, r.0@, r.1@),
        folds_movable(*graph, r.1@),
{
    proof {
        reveal(crate::data_frames::budget_fits);
        reveal(folds_movable);
        reveal(budget_ranked);
    }
    if drawn.len() <= MARK_BUDGET {
        return (drawn, Vec::new());
    }
    let ni = graph.items.len();
    let mut keyed: Vec<(Vec<u64>, u32)> = Vec::new();
    let mut i: usize = 0;
    while i < drawn.len()
        invariant
            i <= drawn@.len(),
            ni == graph.items@.len(),
            degree@.len() >= ni,
            forall|k: int| 0 <= k < drawn@.len() ==> (#[trigger] drawn@[k] as int) < ni,
            keyed@.len() <= i,
            forall|k: int| 0 <= k < graph.items@.len() ==> #[trigger] degree@[k] == spec_degree(graph.holds@, k),
            forall|k: int| 0 <= k < keyed@.len() ==> drawn@.contains(#[trigger] keyed@[k].1)
                && may_fold(graph.items@[keyed@[k].1 as int]) && keyed@[k].0@ == rank_key(*graph, keyed@[k].1),
            forall|j: int| 0 <= j < i && may_fold(graph.items@[#[trigger] drawn@[j] as int]) ==> exists|k: int|
                0 <= k < keyed@.len() && keyed@[k].1 == drawn@[j],
        decreases drawn.len() - i,
    {
        let ghost kb = keyed@;
        let m = drawn[i];
        let mark = &graph.items[m as usize];
        if mark.kind != ItemKind::Static && mark.delta == Delta::Same {
            let changed = (mark.file as usize) < graph.files.len() && graph.files[mark.file as usize].changed;
            let loud = interest(mark, degree[m as usize], changed);
            let mut k: Vec<u64> = Vec::new();
            k.push(u64::MAX - loud);
            k.push(mark.file as u64);
            k.push(mark.line as u64);
            proof {
                assert(drawn@[i as int] == m);
                assert(k@ =~= rank_key(*graph, m));
            }
            keyed.push((k, m));
        }
        proof {
            assert forall|k: int| 0 <= k < keyed@.len() implies drawn@.contains(#[trigger] keyed@[k].1)
                && may_fold(graph.items@[keyed@[k].1 as int]) && keyed@[k].0@ == rank_key(*graph, keyed@[k].1) by {
                if k < kb.len() {
                    assert(keyed@[k] == kb[k]);
                }
            }
            assert forall|j: int| 0 <= j < i + 1 && may_fold(graph.items@[#[trigger] drawn@[j] as int]) implies exists|k: int|
                0 <= k < keyed@.len() && keyed@[k].1 == drawn@[j] by {
                if j < i {
                    let k = choose|k: int| 0 <= k < kb.len() && kb[k].1 == drawn@[j];
                    assert(keyed@[k] == kb[k]);
                } else {
                    assert(keyed@[keyed@.len() - 1].1 == drawn@[j]);
                }
            }
        }
        i = i + 1;
    }
    let ranked = sort_by_key(keyed);
    proof {
        assert forall|k: int| 0 <= k < ranked@.len() implies drawn@.contains(#[trigger] ranked@[k].1)
            && may_fold(graph.items@[ranked@[k].1 as int]) by {
            crate::sort::lemma_same_entries(ranked@, keyed@);
            assert(ranked@.contains(ranked@[k]));
            assert(keyed@.contains(ranked@[k]));
            let w = choose|w: int| 0 <= w < keyed@.len() && keyed@[w] == ranked@[k];
            assert(drawn@.contains(keyed@[w].1));
        }
        assert forall|k: int| 0 <= k < ranked@.len() implies (#[trigger] ranked@[k]).0@ == rank_key(*graph, ranked@[k].1) by {
            crate::sort::lemma_same_entries(ranked@, keyed@);
            assert(ranked@.contains(ranked@[k]));
            let w = choose|w: int| 0 <= w < keyed@.len() && keyed@[w] == ranked@[k];
        }
        assert forall|j: int| 0 <= j < drawn@.len() && may_fold(graph.items@[#[trigger] drawn@[j] as int]) implies exists|k: int|
            0 <= k < ranked@.len() && ranked@[k].1 == drawn@[j] by {
            crate::sort::lemma_same_entries(ranked@, keyed@);
            let w = choose|w: int| 0 <= w < keyed@.len() && keyed@[w].1 == drawn@[j];
            assert(keyed@.contains(keyed@[w]));
            let k = choose|k: int| 0 <= k < ranked@.len() && ranked@[k] == keyed@[w];
        }
    }
    let statics = drawn.len() - ranked.len();
    let skip = if MARK_BUDGET > statics { MARK_BUDGET - statics } else { 0 };
    // Which ids fold, flagged by id.
    let mut folds: Vec<bool> = Vec::new();
    let mut q: usize = 0;
    while q < ni
        invariant
            q <= ni,
            folds@.len() == q,
            forall|t: int| 0 <= t < q ==> !folds@[t],
        decreases ni - q,
    {
        folds.push(false);
        q = q + 1;
    }
    let mut j: usize = skip;
    while j < ranked.len()
        invariant
            folds@.len() == ni,
            ni == graph.items@.len(),
            forall|k: int| 0 <= k < ranked@.len() ==> drawn@.contains(#[trigger] ranked@[k].1)
                && may_fold(graph.items@[ranked@[k].1 as int]),
            forall|k: int| 0 <= k < drawn@.len() ==> (#[trigger] drawn@[k] as int) < ni,
            forall|t: int| 0 <= t < ni && #[trigger] folds@[t] ==> drawn@.contains(t as u32)
                && may_fold(graph.items@[t]),
            skip <= j,
            forall|t: int| 0 <= t < ni && #[trigger] folds@[t] ==> exists|jj: int| skip <= jj < j && jj < ranked@.len() && ranked@[jj].1 == t,
            forall|jj: int| skip <= jj < j && jj < ranked@.len() ==> folds@[#[trigger] ranked@[jj].1 as int],
            forall|k: int| 0 <= k < ranked@.len() ==> (#[trigger] ranked@[k]).0@ == rank_key(*graph, ranked@[k].1),
            forall|jd: int| 0 <= jd < drawn@.len() && may_fold(graph.items@[#[trigger] drawn@[jd] as int]) ==> exists|k: int|
                0 <= k < ranked@.len() && ranked@[k].1 == drawn@[jd],
            crate::sort::sorted_by_key(ranked@),
        decreases ranked.len() - j,
    {
        let ghost f0 = folds@;
        let m = ranked[j].1;
        proof {
            assert(drawn@.contains(ranked@[j as int].1));
            let w = choose|w: int| 0 <= w < drawn@.len() && drawn@[w] == m;
            assert((drawn@[w] as int) < ni);
        }
        folds.set(m as usize, true);
        proof {
            assert forall|t: int| 0 <= t < ni && #[trigger] folds@[t] implies exists|jj: int| skip <= jj < j + 1 && jj < ranked@.len() && ranked@[jj].1 == t by {
                if t != m as int {
                    assert(f0[t]);
                }
            }
            assert forall|jj: int| skip <= jj < j + 1 && jj < ranked@.len() implies folds@[#[trigger] ranked@[jj].1 as int] by {
                if jj < j {
                    assert(f0[ranked@[jj].1 as int]);
                }
            }
        }
        j = j + 1;
    }
    let mut kept: Vec<u32> = Vec::new();
    let mut gone: Vec<u32> = Vec::new();
    let mut i: usize = 0;
    while i < drawn.len()
        invariant
            i <= drawn@.len(),
            folds@.len() == ni,
            ni == graph.items@.len(),
            forall|k: int| 0 <= k < drawn@.len() ==> (#[trigger] drawn@[k] as int) < ni,
            forall|a: int, b: int| 0 <= a < b < drawn@.len() ==> drawn@[a] < drawn@[b],
            forall|t: int| 0 <= t < ni && #[trigger] folds@[t] ==> drawn@.contains(t as u32)
                && may_fold(graph.items@[t]),
            forall|k: int| 0 <= k < kept@.len() ==> drawn@.take(i as int).contains(#[trigger] kept@[k])
                && !folds@[kept@[k] as int],
            forall|k: int| 0 <= k < gone@.len() ==> drawn@.take(i as int).contains(#[trigger] gone@[k])
                && folds@[gone@[k] as int],
            forall|k: int| 0 <= k < i ==> kept@.contains(#[trigger] drawn@[k]) || gone@.contains(drawn@[k]),
            forall|a: int, b: int| 0 <= a < b < kept@.len() ==> kept@[a] < kept@[b],
            forall|a: int, b: int| 0 <= a < b < gone@.len() ==> gone@[a] < gone@[b],
            forall|k: int| 0 <= k < kept@.len() ==> kept@[k] < (if i < drawn@.len() { drawn@[i as int] } else { u32::MAX }) || i == drawn@.len(),
            forall|k: int| 0 <= k < gone@.len() ==> gone@[k] < (if i < drawn@.len() { drawn@[i as int] } else { u32::MAX }) || i == drawn@.len(),
            forall|t: int| 0 <= t < ni && #[trigger] folds@[t] ==> exists|jj: int| skip <= jj < ranked@.len() && ranked@[jj].1 == t,
            forall|jj: int| skip <= jj < ranked@.len() ==> folds@[#[trigger] ranked@[jj].1 as int],
            forall|k: int| 0 <= k < ranked@.len() ==> (#[trigger] ranked@[k]).0@ == rank_key(*graph, ranked@[k].1),
            forall|jd: int| 0 <= jd < drawn@.len() && may_fold(graph.items@[#[trigger] drawn@[jd] as int]) ==> exists|k: int|
                0 <= k < ranked@.len() && ranked@[k].1 == drawn@[jd],
            crate::sort::sorted_by_key(ranked@),
        decreases drawn.len() - i,
    {
        let m = drawn[i];
        let ghost kb = kept@;
        let ghost gb = gone@;
        proof {
            assert forall|k: int| 0 <= k < kb.len() implies kb[k] < m by {
                assert(drawn@.take(i as int).contains(kb[k]));
                let w = choose|w: int| 0 <= w < i && drawn@.take(i as int)[w] == kb[k];
                assert(drawn@[w] < drawn@[i as int]);
            }
            assert forall|k: int| 0 <= k < gb.len() implies gb[k] < m by {
                assert(drawn@.take(i as int).contains(gb[k]));
                let w = choose|w: int| 0 <= w < i && drawn@.take(i as int)[w] == gb[k];
                assert(drawn@[w] < drawn@[i as int]);
            }
        }
        if folds[m as usize] {
            gone.push(m);
        } else {
            kept.push(m);
        }
        proof {
            assert forall|k: int| 0 <= k < kept@.len() implies drawn@.take(i + 1).contains(#[trigger] kept@[k])
                && !folds@[kept@[k] as int] by {
                if k < kb.len() {
                    let w = choose|w: int| 0 <= w < i && drawn@.take(i as int)[w] == kb[k];
                    assert(drawn@.take(i + 1)[w] == kb[k]);
                } else {
                    assert(drawn@.take(i + 1)[i as int] == m);
                }
            }
            assert forall|k: int| 0 <= k < gone@.len() implies drawn@.take(i + 1).contains(#[trigger] gone@[k])
                && folds@[gone@[k] as int] by {
                if k < gb.len() {
                    let w = choose|w: int| 0 <= w < i && drawn@.take(i as int)[w] == gb[k];
                    assert(drawn@.take(i + 1)[w] == gb[k]);
                } else {
                    assert(drawn@.take(i + 1)[i as int] == m);
                }
            }
            assert forall|k: int| 0 <= k <= i implies kept@.contains(#[trigger] drawn@[k]) || gone@.contains(drawn@[k]) by {
                if k < i {
                    if kb.contains(drawn@[k]) {
                        let w = choose|w: int| 0 <= w < kb.len() && kb[w] == drawn@[k];
                        assert(kept@[w] == drawn@[k]);
                    } else {
                        let w = choose|w: int| 0 <= w < gb.len() && gb[w] == drawn@[k];
                        assert(gone@[w] == drawn@[k]);
                    }
                } else {
                    if folds@[m as int] {
                        assert(gone@[gone@.len() - 1] == m);
                    } else {
                        assert(kept@[kept@.len() - 1] == m);
                    }
                }
            }
            if i + 1 < drawn@.len() {
                assert(drawn@[i as int] < drawn@[i + 1]);
            }
        }
        i = i + 1;
    }
    proof {
        assert(drawn@.take(drawn@.len() as int) =~= drawn@);
        assert forall|k: int| 0 <= k < gone@.len() implies drawn@.contains(#[trigger] gone@[k])
            && may_fold(graph.items@[gone@[k] as int]) by {
            let w = choose|w: int| 0 <= w < drawn@.len() && drawn@[w] == gone@[k];
            assert((drawn@[w] as int) < ni);
        }
        assert forall|k: int| 0 <= k < gone@.len() implies !kept@.contains(#[trigger] gone@[k]) by {
            if kept@.contains(gone@[k]) {
                let w = choose|w: int| 0 <= w < kept@.len() && kept@[w] == gone@[k];
                assert(!folds@[kept@[w] as int]);
            }
        }
        assert forall|a: int, b: int| 0 <= a < kept@.len() && 0 <= b < gone@.len() && may_fold(graph.items@[#[trigger] kept@[a] as int])
            implies crate::sort::lex_le(rank_key(*graph, kept@[a]), rank_key(*graph, #[trigger] gone@[b])) by {
            assert(drawn@.contains(kept@[a]));
            let jd = choose|jd: int| 0 <= jd < drawn@.len() && drawn@[jd] == kept@[a];
            assert(may_fold(graph.items@[drawn@[jd] as int]));
            let ka = choose|ka: int| 0 <= ka < ranked@.len() && ranked@[ka].1 == drawn@[jd];
            assert(!folds@[kept@[a] as int]);
            assert(ka < skip) by {
                if ka >= skip {
                    assert(folds@[ranked@[ka].1 as int]);
                }
            }
            let wg = choose|w: int| 0 <= w < drawn@.len() && drawn@[w] == gone@[b];
            assert((drawn@[wg] as int) < ni);
            assert(folds@[gone@[b] as int]);
            let jb = choose|jj: int| skip <= jj < ranked@.len() && ranked@[jj].1 == gone@[b];
            assert(crate::sort::lex_le(ranked@[ka].0@, ranked@[jb].0@));
        }
    }
    (kept, gone)
}

/// One crate frame for each run of keys in one crate, in key order.
pub open spec fn crate_part(keys: Seq<(Seq<char>, Option<Seq<char>>)>) -> Seq<(Seq<char>, Option<Seq<char>>)>
    decreases keys.len(),
{
    if keys.len() == 0 {
        Seq::empty()
    } else {
        let r = crate_part(keys.drop_last());
        if r.len() == 0 || r.last().0 != keys.last().0 {
            r.push((keys.last().0, None::<Seq<char>>))
        } else {
            r
        }
    }
}

/// The keys that name a module, in key order.
pub open spec fn module_part(keys: Seq<(Seq<char>, Option<Seq<char>>)>) -> Seq<(Seq<char>, Option<Seq<char>>)>
    decreases keys.len(),
{
    if keys.len() == 0 {
        Seq::empty()
    } else {
        let r = module_part(keys.drop_last());
        match keys.last().1 {
            Some(m) => r.push((keys.last().0, Some(m))),
            None => r,
        }
    }
}

proof fn lemma_crate_part_len(keys: Seq<(Seq<char>, Option<Seq<char>>)>)
    ensures
        crate_part(keys).len() <= keys.len(),
    decreases keys.len(),
{
    if keys.len() > 0 {
        lemma_crate_part_len(keys.drop_last());
    }
}

proof fn lemma_module_part_len(keys: Seq<(Seq<char>, Option<Seq<char>>)>)
    ensures
        module_part(keys).len() <= keys.len(),
    decreases keys.len(),
{
    if keys.len() > 0 {
        lemma_module_part_len(keys.drop_last());
    }
}

/// The frames in id order: one per crate, crate frames first so a module
/// frame always has a parent to sit in, then one per top-level module.
fn frame_list(keys: &Vec<(String, Option<String>)>) -> (frames: Vec<(String, Option<String>)>)
    requires
        keys@.len() < 0x2000_0000,
    ensures
        frames@.len() <= 2 * keys@.len(),
        frames@.map_values(|k: (String, Option<String>)| key_view(k)) == crate_part(
            keys@.map_values(|k: (String, Option<String>)| key_view(k)),
        ) + module_part(keys@.map_values(|k: (String, Option<String>)| key_view(k))),
{
    let ghost kv = keys@.map_values(|k: (String, Option<String>)| key_view(k));
    let mut out: Vec<(String, Option<String>)> = Vec::new();
    let mut i: usize = 0;
    while i < keys.len()
        invariant
            i <= keys@.len(),
            kv == keys@.map_values(|k: (String, Option<String>)| key_view(k)),
            out@.len() <= i,
            out@.map_values(|k: (String, Option<String>)| key_view(k)) == crate_part(kv.take(i as int)),
        decreases keys.len() - i,
    {
        let ghost before = out@;
        proof {
            assert(kv.take(i + 1).drop_last() =~= kv.take(i as int));
            assert(kv.take(i + 1).last() == key_view(keys@[i as int]));
            if out@.len() > 0 {
                assert(out@.map_values(|k: (String, Option<String>)| key_view(k)).last() == key_view(out@.last()));
            }
        }
        let new_crate = out.len() == 0 || !out[out.len() - 1].0.eq(&keys[i].0);
        if new_crate {
            out.push((keys[i].0.clone(), None));
            proof {
                assert(out@.map_values(|k: (String, Option<String>)| key_view(k)) =~= before.map_values(
                    |k: (String, Option<String>)| key_view(k),
                ).push((kv[i as int].0, None::<Seq<char>>)));
            }
        }
        i = i + 1;
    }
    proof {
        assert(kv.take(keys@.len() as int) =~= kv);
        lemma_crate_part_len(kv);
        lemma_module_part_len(kv);
    }
    let crates = out.len();
    let ghost cp = out@.map_values(|k: (String, Option<String>)| key_view(k));
    let mut i: usize = 0;
    while i < keys.len()
        invariant
            i <= keys@.len(),
            crates <= keys@.len(),
            kv == keys@.map_values(|k: (String, Option<String>)| key_view(k)),
            cp == crate_part(kv),
            out@.len() <= crates + i,
            out@.map_values(|k: (String, Option<String>)| key_view(k)) == cp + module_part(kv.take(i as int)),
        decreases keys.len() - i,
    {
        let ghost before = out@;
        proof {
            assert(kv.take(i + 1).drop_last() =~= kv.take(i as int));
            assert(kv.take(i + 1).last() == key_view(keys@[i as int]));
        }
        match &keys[i].1 {
            Some(m) => {
                out.push((keys[i].0.clone(), Some(m.clone())));
                proof {
                    assert(out@.map_values(|k: (String, Option<String>)| key_view(k)) =~= before.map_values(
                        |k: (String, Option<String>)| key_view(k),
                    ).push(kv[i as int]));
                    assert(cp + module_part(kv.take(i + 1)) =~= (cp + module_part(kv.take(i as int))).push(kv[i as int]));
                }
            },
            None => {},
        }
        i = i + 1;
    }
    proof {
        assert(kv.take(keys@.len() as int) =~= kv);
    }
    out
}

/// The item's file names a frame among the keys.
pub open spec fn has_frame(graph: CodeGraph, keys: Seq<(String, Option<String>)>, x: u32) -> bool {
    item_key(graph, x) matches Some(k) && !no_frame(keys, k.0, k.1)
}

/// Among the first `upto` ghosts, one with id `x` has a frame among the keys.
pub open spec fn ghost_framed(graph: CodeGraph, keys: Seq<(String, Option<String>)>, x: int, upto: int) -> bool {
    exists|g: int|
        0 <= g < upto && (#[trigger] graph.ghosts@[g]).id == x && !no_frame(
            keys,
            graph.ghosts@[g].krate@,
            crate::paths::spec_module_of(graph.ghosts@[g].path@),
        )
}

/// The first frame the item's file names.
pub open spec fn framed_at(graph: CodeGraph, keys: Seq<(String, Option<String>)>, x: u32, f: int) -> bool {
    item_key(graph, x) matches Some(k) && first_frame(keys, k.0, k.1, f)
}

/// The anchor `x`'s edges land on: a budget-folded type on its frame's
/// `more` row, a private type on its frame's `private` row, a ghost or a
/// drawn type on its own mark, and nothing else anywhere. The earlier rule
/// here wins where two apply.
pub open spec fn anchor_fits(
    graph: CodeGraph,
    keys: Seq<(String, Option<String>)>,
    drawn: Seq<u32>,
    ghosts: int,
    private: Seq<u32>,
    folded: Seq<u32>,
    x: int,
    a: Option<Anchor>,
) -> bool {
    if folded.contains(x as u32) && has_frame(graph, keys, x as u32) {
        exists|f: int| #[trigger] framed_at(graph, keys, x as u32, f) && a == Some(Anchor::More(f as u32))
    } else if private.contains(x as u32) && has_frame(graph, keys, x as u32) {
        exists|f: int| #[trigger] framed_at(graph, keys, x as u32, f) && a == Some(Anchor::Private(f as u32))
    } else if ghost_framed(graph, keys, x, ghosts) {
        a == Some(Anchor::Mark(x as u32))
    } else if drawn.contains(x as u32) && has_frame(graph, keys, x as u32) {
        a == Some(Anchor::Mark(x as u32))
    } else {
        a is None
    }
}

/// One more id in a prefix of a list.
proof fn lemma_take_push(s: Seq<u32>, i: int, x: u32)
    requires
        0 <= i < s.len(),
    ensures
        s.take(i + 1).contains(x) <==> (s.take(i).contains(x) || s[i] == x),
{
    assert(s.take(i + 1) =~= s.take(i).push(s[i]));
    let a = s.take(i);
    let b = s.take(i + 1);
    if b.contains(x) {
        let j = choose|j: int| 0 <= j < b.len() && b[j] == x;
        if j < i {
            assert(a[j] == x);
        }
    }
    if a.contains(x) {
        let j = choose|j: int| 0 <= j < a.len() && a[j] == x;
        assert(b[j] == x);
    }
    if s[i] == x {
        assert(b[i] == x);
    }
}

/// How many of `ids` have their first frame key at `f`.
pub open spec fn framed_count(graph: CodeGraph, keys: Seq<(String, Option<String>)>, ids: Seq<u32>, f: int) -> nat
    decreases ids.len(),
{
    if ids.len() == 0 {
        0
    } else {
        framed_count(graph, keys, ids.drop_last(), f) + if framed_at(graph, keys, ids.last(), f) { 1nat } else { 0nat }
    }
}

/// Only one key can be the first to name (crate, module).
proof fn lemma_first_frame_unique(keys: Seq<(String, Option<String>)>, krate: Seq<char>, module: Option<Seq<char>>, i: int, j: int)
    requires
        first_frame(keys, krate, module, i),
        first_frame(keys, krate, module, j),
    ensures
        i == j,
{
    if i < j {
        assert(key_matches(keys, i, krate, module));
    } else if j < i {
        assert(key_matches(keys, j, krate, module));
    }
}

/// Counting one more id at its frame.
proof fn lemma_framed_count_step(graph: CodeGraph, keys: Seq<(String, Option<String>)>, ids: Seq<u32>, i: int, fm: Option<u32>)
    requires
        0 <= i < ids.len(),
        match item_key(graph, ids[i]) {
            Some(k) => match fm {
                Some(x) => first_frame(keys, k.0, k.1, x as int),
                None => no_frame(keys, k.0, k.1),
            },
            None => fm is None,
        },
    ensures
        forall|f: int| #[trigger] framed_count(graph, keys, ids.take(i + 1), f) == framed_count(graph, keys, ids.take(i), f)
            + if fm matches Some(x) && x as int == f { 1nat } else { 0nat },
{
    assert(ids.take(i + 1).drop_last() =~= ids.take(i));
    assert(ids.take(i + 1).last() == ids[i]);
    assert forall|f: int| #[trigger] framed_count(graph, keys, ids.take(i + 1), f) == framed_count(graph, keys, ids.take(i), f)
        + if fm matches Some(x) && x as int == f { 1nat } else { 0nat } by {
        if framed_at(graph, keys, ids[i], f) {
            let k = item_key(graph, ids[i])->0;
            if fm is Some {
                lemma_first_frame_unique(keys, k.0, k.1, f, fm->0 as int);
            } else {
                assert(key_matches(keys, f, k.0, k.1));
            }
        }
    }
}

/// Where every drawn, folded and private mark lands.
pub struct Placement {
    /// The anchor each id's edges land on, by id.
    pub anchor_of: Vec<Option<Anchor>>,
    /// Private types counted per frame.
    pub private: Vec<u32>,
    /// Budget-folded types counted per frame.
    pub more: Vec<u32>,
}

fn zeros(n: usize) -> (v: Vec<u32>)
    ensures
        v@.len() == n,
        forall|k: int| 0 <= k < n ==> v@[k] == 0,
{
    let mut v: Vec<u32> = Vec::new();
    let mut k: usize = 0;
    while k < n
        invariant
            k <= n,
            v@.len() == k,
            forall|q: int| 0 <= q < k ==> v@[q] == 0,
        decreases n - k,
    {
        v.push(0);
        k = k + 1;
    }
    v
}

fn place(
    graph: &CodeGraph,
    frames: &Vec<(String, Option<String>)>,
    drawn: &Vec<u32>,
    folded: &Vec<u32>,
    private: &Vec<u32>,
) -> (p: Placement)
    requires
        within_limits(*graph),
        frames@.len() < 0x4000_0000,
        forall|k: int| 0 <= k < drawn@.len() ==> (#[trigger] drawn@[k] as int) < graph.items@.len(),
        forall|k: int| 0 <= k < folded@.len() ==> (#[trigger] folded@[k] as int) < graph.items@.len(),
        forall|k: int| 0 <= k < private@.len() ==> (#[trigger] private@[k] as int) < graph.items@.len(),
        drawn@.len() <= graph.items@.len(),
        private@.len() <= graph.items@.len(),
        folded@.len() <= graph.items@.len(),
    ensures
        p.anchor_of@.len() == graph.items@.len() + graph.ghosts@.len(),
        p.private@.len() == frames@.len(),
        p.more@.len() == frames@.len(),
        forall|k: int| 0 <= k < p.anchor_of@.len() ==> match #[trigger] p.anchor_of@[k] {
            Some(Anchor::Mark(id)) => id as int == k,
            Some(Anchor::Private(f)) => (f as int) < frames@.len(),
            Some(Anchor::More(f)) => (f as int) < frames@.len(),
            None => true,
        },
        forall|f: int| 0 <= f < frames@.len() ==> #[trigger] p.private@[f] <= private@.len(),
        forall|f: int| 0 <= f < frames@.len() ==> #[trigger] p.more@[f] <= folded@.len(),
        forall|f: int| 0 <= f < frames@.len() ==> #[trigger] p.private@[f] == framed_count(*graph, frames@, private@, f),
        forall|f: int| 0 <= f < frames@.len() ==> #[trigger] p.more@[f] == framed_count(*graph, frames@, folded@, f),
        crate::data_frames::counts_placed(*graph, frames@, private@, folded@, p.private@, p.more@),
        forall|x: int| 0 <= x < p.anchor_of@.len() ==> anchor_fits(
            *graph,
            frames@,
            drawn@,
            graph.ghosts@.len() as int,
            private@,
            folded@,
            x,
            #[trigger] p.anchor_of@[x],
        ),
{
    let n = graph.items.len() + graph.ghosts.len();
    let mut anchor_of: Vec<Option<Anchor>> = Vec::new();
    let mut k: usize = 0;
    while k < n
        invariant
            k <= n,
            anchor_of@.len() == k,
            forall|q: int| 0 <= q < k ==> anchor_of@[q].is_none(),
        decreases n - k,
    {
        anchor_of.push(None);
        k = k + 1;
    }
    let mut i: usize = 0;
    while i < drawn.len()
        invariant
            i <= drawn@.len(),
            n == graph.items@.len() + graph.ghosts@.len(),
            within_limits(*graph),
            frames@.len() < 0x4000_0000,
            anchor_of@.len() == n,
            forall|k: int| 0 <= k < drawn@.len() ==> (#[trigger] drawn@[k] as int) < graph.items@.len(),
            forall|k: int| 0 <= k < anchor_of@.len() ==> match #[trigger] anchor_of@[k] {
                Some(Anchor::Mark(id)) => id as int == k,
                Some(Anchor::Private(f)) => (f as int) < frames@.len(),
                Some(Anchor::More(f)) => (f as int) < frames@.len(),
                None => true,
            },
            forall|x: int| 0 <= x < n ==> anchor_fits(*graph, frames@, drawn@.take(i as int), 0, Seq::empty(), Seq::empty(), x, #[trigger] anchor_of@[x]),
        decreases drawn.len() - i,
    {
        let m = drawn[i];
        proof {
            assert((drawn@[i as int] as int) < graph.items@.len());
        }
        let ghost before = anchor_of@;
        match frame_of_item(graph, frames, m) {
            Some(_) => {
                anchor_of.set(m as usize, Some(Anchor::Mark(m)));
            },
            None => {},
        }
        proof {
            assert forall|x: int| 0 <= x < n implies anchor_fits(*graph, frames@, drawn@.take(i + 1), 0, Seq::empty(), Seq::empty(), x, #[trigger] anchor_of@[x]) by {
                lemma_take_push(drawn@, i as int, x as u32);
                assert(!Seq::<u32>::empty().contains(x as u32));
                if x != m as int {
                    assert(anchor_of@[x] == before[x]);
                }
            }
        }
        i = i + 1;
    }
    proof {
        assert(drawn@.take(drawn@.len() as int) =~= drawn@);
    }
    let mut g: usize = 0;
    while g < graph.ghosts.len()
        invariant
            g <= graph.ghosts@.len(),
            n == graph.items@.len() + graph.ghosts@.len(),
            within_limits(*graph),
            frames@.len() < 0x4000_0000,
            anchor_of@.len() == n,
            forall|k: int| 0 <= k < anchor_of@.len() ==> match #[trigger] anchor_of@[k] {
                Some(Anchor::Mark(id)) => id as int == k,
                Some(Anchor::Private(f)) => (f as int) < frames@.len(),
                Some(Anchor::More(f)) => (f as int) < frames@.len(),
                None => true,
            },
            forall|x: int| 0 <= x < n ==> anchor_fits(*graph, frames@, drawn@, g as int, Seq::empty(), Seq::empty(), x, #[trigger] anchor_of@[x]),
        decreases graph.ghosts.len() - g,
    {
        let ghost_mark = &graph.ghosts[g];
        let key = ghost_key(ghost_mark);
        proof {
            assert(graph.ghosts@[g as int].id < n);
        }
        let ghost before = anchor_of@;
        match find_frame(frames, &key.0, &key.1) {
            Some(_) => {
                anchor_of.set(ghost_mark.id as usize, Some(Anchor::Mark(ghost_mark.id)));
            },
            None => {},
        }
        proof {
            assert forall|x: int| 0 <= x < n implies anchor_fits(*graph, frames@, drawn@, g + 1, Seq::empty(), Seq::empty(), x, #[trigger] anchor_of@[x]) by {
                assert(!Seq::<u32>::empty().contains(x as u32));
                if ghost_framed(*graph, frames@, x, g + 1) && !ghost_framed(*graph, frames@, x, g as int) {
                    let q = choose|q: int| 0 <= q < g + 1 && (#[trigger] graph.ghosts@[q]).id == x && !no_frame(
                        frames@,
                        graph.ghosts@[q].krate@,
                        crate::paths::spec_module_of(graph.ghosts@[q].path@),
                    );
                    assert(q == g);
                }
                if ghost_framed(*graph, frames@, x, g as int) {
                    let q = choose|q: int| 0 <= q < g && (#[trigger] graph.ghosts@[q]).id == x && !no_frame(
                        frames@,
                        graph.ghosts@[q].krate@,
                        crate::paths::spec_module_of(graph.ghosts@[q].path@),
                    );
                    assert(ghost_framed(*graph, frames@, x, g + 1));
                }
                if x != ghost_mark.id as int {
                    assert(anchor_of@[x] == before[x]);
                    if ghost_framed(*graph, frames@, x, g + 1) {
                        let q = choose|q: int| 0 <= q < g + 1 && (#[trigger] graph.ghosts@[q]).id == x && !no_frame(
                            frames@,
                            graph.ghosts@[q].krate@,
                            crate::paths::spec_module_of(graph.ghosts@[q].path@),
                        );
                        assert(q != g);
                    }
                } else if !no_frame(frames@, key.0@, opt_view(key.1)) {
                    assert(ghost_framed(*graph, frames@, x, g + 1));
                }
            }
        }
        g = g + 1;
    }
    let mut private_n = zeros(frames.len());
    proof {
        assert(private@.take(0) =~= Seq::<u32>::empty());
    }
    let mut i: usize = 0;
    while i < private.len()
        invariant
            i <= private@.len(),
            n == graph.items@.len() + graph.ghosts@.len(),
            within_limits(*graph),
            frames@.len() < 0x4000_0000,
            anchor_of@.len() == n,
            private_n@.len() == frames@.len(),
            private@.len() < 0x4000_0000,
            forall|f: int| 0 <= f < frames@.len() ==> #[trigger] private_n@[f] <= i,
            forall|f: int| 0 <= f < frames@.len() ==> #[trigger] private_n@[f] == framed_count(*graph, frames@, private@.take(i as int), f),
            forall|k: int| 0 <= k < private@.len() ==> (#[trigger] private@[k] as int) < graph.items@.len(),
            forall|k: int| 0 <= k < anchor_of@.len() ==> match #[trigger] anchor_of@[k] {
                Some(Anchor::Mark(id)) => id as int == k,
                Some(Anchor::Private(f)) => (f as int) < frames@.len(),
                Some(Anchor::More(f)) => (f as int) < frames@.len(),
                None => true,
            },
            forall|x: int| 0 <= x < n ==> anchor_fits(*graph, frames@, drawn@, graph.ghosts@.len() as int, private@.take(i as int), Seq::empty(), x, #[trigger] anchor_of@[x]),
        decreases private.len() - i,
    {
        let m = private[i];
        proof {
            assert((private@[i as int] as int) < graph.items@.len());
        }
        let ghost before = anchor_of@;
        let ghost pn = private_n@;
        let fm = frame_of_item(graph, frames, m);
        proof {
            lemma_framed_count_step(*graph, frames@, private@, i as int, fm);
        }
        match fm {
            Some(f) => {
                let c = private_n[f as usize] + 1;
                private_n.set(f as usize, c);
                anchor_of.set(m as usize, Some(Anchor::Private(f)));
                proof {
                    assert(framed_at(*graph, frames@, m, f as int));
                }
            },
            None => {},
        }
        proof {
            assert forall|x: int| 0 <= x < n implies anchor_fits(*graph, frames@, drawn@, graph.ghosts@.len() as int, private@.take(i + 1), Seq::empty(), x, #[trigger] anchor_of@[x]) by {
                lemma_take_push(private@, i as int, x as u32);
                assert(!Seq::<u32>::empty().contains(x as u32));
                if x != m as int {
                    assert(anchor_of@[x] == before[x]);
                }
            }
        }
        i = i + 1;
    }
    proof {
        assert(private@.take(private@.len() as int) =~= private@);
        assert(folded@.take(0) =~= Seq::<u32>::empty());
    }
    let mut more_n = zeros(frames.len());
    let mut i: usize = 0;
    while i < folded.len()
        invariant
            i <= folded@.len(),
            n == graph.items@.len() + graph.ghosts@.len(),
            within_limits(*graph),
            frames@.len() < 0x4000_0000,
            anchor_of@.len() == n,
            more_n@.len() == frames@.len(),
            folded@.len() < 0x4000_0000,
            forall|f: int| 0 <= f < frames@.len() ==> #[trigger] more_n@[f] <= i,
            forall|f: int| 0 <= f < frames@.len() ==> #[trigger] more_n@[f] == framed_count(*graph, frames@, folded@.take(i as int), f),
            forall|f: int| 0 <= f < frames@.len() ==> #[trigger] private_n@[f] == framed_count(*graph, frames@, private@, f),
            forall|k: int| 0 <= k < folded@.len() ==> (#[trigger] folded@[k] as int) < graph.items@.len(),
            forall|k: int| 0 <= k < anchor_of@.len() ==> match #[trigger] anchor_of@[k] {
                Some(Anchor::Mark(id)) => id as int == k,
                Some(Anchor::Private(f)) => (f as int) < frames@.len(),
                Some(Anchor::More(f)) => (f as int) < frames@.len(),
                None => true,
            },
            forall|x: int| 0 <= x < n ==> anchor_fits(*graph, frames@, drawn@, graph.ghosts@.len() as int, private@, folded@.take(i as int), x, #[trigger] anchor_of@[x]),
        decreases folded.len() - i,
    {
        let m = folded[i];
        proof {
            assert((folded@[i as int] as int) < graph.items@.len());
        }
        let ghost before = anchor_of@;
        let fm = frame_of_item(graph, frames, m);
        proof {
            lemma_framed_count_step(*graph, frames@, folded@, i as int, fm);
        }
        match fm {
            Some(f) => {
                let c = more_n[f as usize] + 1;
                more_n.set(f as usize, c);
                anchor_of.set(m as usize, Some(Anchor::More(f)));
                proof {
                    assert(framed_at(*graph, frames@, m, f as int));
                }
            },
            None => {},
        }
        proof {
            assert forall|x: int| 0 <= x < n implies anchor_fits(*graph, frames@, drawn@, graph.ghosts@.len() as int, private@, folded@.take(i + 1), x, #[trigger] anchor_of@[x]) by {
                lemma_take_push(folded@, i as int, x as u32);
                if x != m as int {
                    assert(anchor_of@[x] == before[x]);
                }
            }
        }
        i = i + 1;
    }
    proof {
        assert(folded@.take(folded@.len() as int) =~= folded@);
    }
    proof {
        reveal(crate::data_frames::counts_placed);
    }
    Placement { anchor_of, private: private_n, more: more_n }
}

proof fn lemma_fields_total_prefix(h: Seq<crate::wire::HoldEdge>, i: int)
    requires
        0 <= i < h.len(),
    ensures
        fields_total(h.take(i + 1)) == fields_total(h.take(i)) + h[i].fields@.len(),
{
    assert(h.take(i + 1).drop_last() =~= h.take(i));
}

proof fn lemma_fields_total_mono(h: Seq<crate::wire::HoldEdge>, i: int)
    requires
        0 <= i <= h.len(),
    ensures
        fields_total(h.take(i)) <= fields_total(h),
    decreases h.len() - i,
{
    if i < h.len() {
        lemma_fields_total_prefix(h, i);
        lemma_fields_total_mono(h, i + 1);
    } else {
        assert(h.take(i) =~= h);
    }
}

/// An anchor is one the placement can produce.
pub open spec fn anchor_ok(a: Anchor, n: int, frames: int) -> bool {
    match a {
        Anchor::Mark(id) => (id as int) < n,
        Anchor::Private(f) => (f as int) < frames,
        Anchor::More(f) => (f as int) < frames,
    }
}

fn event_eq(a: Option<HoldEvent>, b: Option<HoldEvent>) -> (r: bool)
    ensures
        r == (a == b),
{
    match (a, b) {
        (None, None) => true,
        (Some(HoldEvent::Added), Some(HoldEvent::Added)) => true,
        (Some(HoldEvent::Removed), Some(HoldEvent::Removed)) => true,
        _ => false,
    }
}

fn anchor_key(k: &mut Vec<u64>, a: Anchor)
    ensures
        final(k)@.len() == old(k)@.len() + 2,
{
    match a {
        Anchor::Mark(id) => {
            k.push(0);
            k.push(id as u64);
        },
        Anchor::Private(id) => {
            k.push(1);
            k.push(id as u64);
        },
        Anchor::More(id) => {
            k.push(2);
            k.push(id as u64);
        },
    }
}

/// The anchor an id's edges land on, if any.
pub open spec fn land(anchor_of: Seq<Option<Anchor>>, id: u32) -> Option<Anchor> {
    if (id as int) < anchor_of.len() { anchor_of[id as int] } else { None }
}

/// The (held, holder) pair of anchors a holds edge is drawn between, where
/// both ends land and on two different anchors.
pub open spec fn hold_of_edge(anchor_of: Seq<Option<Anchor>>, e: crate::wire::HoldEdge) -> Option<(Anchor, Anchor)> {
    match (land(anchor_of, e.from), land(anchor_of, e.to)) {
        (Some(holder), Some(held)) => if holder != held { Some((held, holder)) } else { None },
        _ => None,
    }
}

/// The edge is drawn as this hold: the same anchors, kind, wrapper and diff
/// event.
pub open spec fn same_hold(anchor_of: Seq<Option<Anchor>>, e: crate::wire::HoldEdge, h: Hold) -> bool {
    hold_of_edge(anchor_of, e) == Some((h.held, h.holder)) && e.kind == h.kind && e.via@ == h.via@ && e.event == h.event
}

/// Two holds drawn between the same anchors, of the same kind, wrapper and
/// diff event.
pub open spec fn same_key(a: Hold, b: Hold) -> bool {
    a.held == b.held && a.holder == b.holder && a.kind == b.kind && a.via@ == b.via@ && a.event == b.event
}

/// The fields of every edge among `edges` drawn as `h`, counted.
pub open spec fn hold_fields(anchor_of: Seq<Option<Anchor>>, edges: Seq<crate::wire::HoldEdge>, h: Hold) -> nat
    decreases edges.len(),
{
    if edges.len() == 0 {
        0
    } else {
        hold_fields(anchor_of, edges.drop_last(), h) + if same_hold(anchor_of, edges.last(), h) {
            edges.last().fields@.len()
        } else {
            0nat
        }
    }
}

/// Some edge among `edges` is drawn as `h`.
pub open spec fn hold_in(anchor_of: Seq<Option<Anchor>>, edges: Seq<crate::wire::HoldEdge>, h: Hold) -> bool {
    exists|i: int| 0 <= i < edges.len() && same_hold(anchor_of, #[trigger] edges[i], h)
}

/// A holds edge reaching a trait whose end lands nowhere: the chart draws
/// no trait, so such edges are only counted.
pub open spec fn trait_hold(graph: CodeGraph, anchor_of: Seq<Option<Anchor>>, e: crate::wire::HoldEdge) -> bool {
    land(anchor_of, e.to) is None && (e.to as int) < graph.items@.len() && graph.items@[e.to as int].kind == ItemKind::Trait
}

/// The holds are one per key the edges are drawn under, each counting the
/// fields of every edge drawn under it.
pub open spec fn holds_fit(anchor_of: Seq<Option<Anchor>>, edges: Seq<crate::wire::HoldEdge>, holds: Seq<Hold>) -> bool {
    &&& forall|k: int| 0 <= k < holds.len() ==> hold_in(anchor_of, edges, #[trigger] holds[k])
        && holds[k].fields as nat == hold_fields(anchor_of, edges, holds[k])
    &&& forall|i: int| 0 <= i < edges.len() && (hold_of_edge(anchor_of, #[trigger] edges[i]) is Some) ==> exists|k: int|
        0 <= k < holds.len() && same_hold(anchor_of, edges[i], #[trigger] holds[k])
    &&& forall|a: int, b: int| 0 <= a < b < holds.len() ==> !same_key(#[trigger] holds[a], #[trigger] holds[b])
}

proof fn lemma_hold_fields_bound(anchor_of: Seq<Option<Anchor>>, edges: Seq<crate::wire::HoldEdge>, h: Hold)
    ensures
        hold_fields(anchor_of, edges, h) <= fields_total(edges),
    decreases edges.len(),
{
    if edges.len() > 0 {
        lemma_hold_fields_bound(anchor_of, edges.drop_last(), h);
    }
}

proof fn lemma_hold_fields_absent(anchor_of: Seq<Option<Anchor>>, edges: Seq<crate::wire::HoldEdge>, h: Hold)
    requires
        !hold_in(anchor_of, edges, h),
    ensures
        hold_fields(anchor_of, edges, h) == 0,
    decreases edges.len(),
{
    if edges.len() > 0 {
        let rest = edges.drop_last();
        assert(!hold_in(anchor_of, rest, h)) by {
            if hold_in(anchor_of, rest, h) {
                let w = choose|w: int| 0 <= w < rest.len() && same_hold(anchor_of, #[trigger] rest[w], h);
                assert(edges[w] == rest[w]);
            }
        }
        lemma_hold_fields_absent(anchor_of, rest, h);
        assert(edges[edges.len() - 1] == edges.last());
    }
}

/// Holds of the same key are counted alike.
proof fn lemma_hold_fields_key(anchor_of: Seq<Option<Anchor>>, edges: Seq<crate::wire::HoldEdge>, a: Hold, b: Hold)
    requires
        same_key(a, b),
    ensures
        hold_fields(anchor_of, edges, a) == hold_fields(anchor_of, edges, b),
        hold_in(anchor_of, edges, a) == hold_in(anchor_of, edges, b),
    decreases edges.len(),
{
    if edges.len() > 0 {
        lemma_hold_fields_key(anchor_of, edges.drop_last(), a, b);
    }
    assert forall|e: crate::wire::HoldEdge| same_hold(anchor_of, e, a) == same_hold(anchor_of, e, b) by {}
}


/// Every holds edge landed on its anchors and summed per (held, holder,
/// kind, wrapper, event), sorted by that key; and how many edges hold a
/// workspace trait, which has no anchor.
/// The holds gathered from the first `upto` edges: one per key, each
/// counting its edges' fields, every landed edge among them gathered.
#[verifier::opaque]
pub open spec fn acc_fits(anchor_of: Seq<Option<Anchor>>, edges: Seq<crate::wire::HoldEdge>, upto: int, acc: Seq<Hold>, nframes: int) -> bool {
    &&& 0 <= upto <= edges.len()
    &&& acc.len() <= upto
    &&& forall|k: int| 0 <= k < acc.len() ==> (#[trigger] acc[k]).held != acc[k].holder
        && anchor_ok(acc[k].held, anchor_of.len() as int, nframes)
        && anchor_ok(acc[k].holder, anchor_of.len() as int, nframes)
        && acc[k].rest
        && acc[k].fields <= fields_total(edges.take(upto))
        && hold_in(anchor_of, edges.take(upto), acc[k])
        && acc[k].fields as nat == hold_fields(anchor_of, edges.take(upto), acc[k])
    &&& forall|j: int| 0 <= j < upto && (hold_of_edge(anchor_of, #[trigger] edges[j]) is Some) ==> exists|k: int|
        0 <= k < acc.len() && same_hold(anchor_of, edges[j], #[trigger] acc[k])
    &&& forall|a: int, b: int| 0 <= a < b < acc.len() ==> !same_key(#[trigger] acc[a], #[trigger] acc[b])
}

proof fn lemma_acc_start(anchor_of: Seq<Option<Anchor>>, edges: Seq<crate::wire::HoldEdge>, nframes: int)
    ensures
        acc_fits(anchor_of, edges, 0, Seq::empty(), nframes),
{
    reveal(acc_fits);
}

proof fn lemma_acc_bound(anchor_of: Seq<Option<Anchor>>, edges: Seq<crate::wire::HoldEdge>, upto: int, acc: Seq<Hold>, nframes: int, f: int)
    requires
        acc_fits(anchor_of, edges, upto, acc, nframes),
        0 <= f < acc.len(),
    ensures
        acc[f].fields <= fields_total(edges.take(upto)),
        acc.len() <= upto,
{
    reveal(acc_fits);
}

proof fn lemma_acc_len(anchor_of: Seq<Option<Anchor>>, edges: Seq<crate::wire::HoldEdge>, upto: int, acc: Seq<Hold>, nframes: int)
    requires
        acc_fits(anchor_of, edges, upto, acc, nframes),
    ensures
        acc.len() <= upto,
{
    reveal(acc_fits);
}

/// An edge that lands nowhere gathers nothing.
proof fn lemma_acc_skip(anchor_of: Seq<Option<Anchor>>, edges: Seq<crate::wire::HoldEdge>, i: int, acc: Seq<Hold>, nframes: int)
    requires
        acc_fits(anchor_of, edges, i, acc, nframes),
        i < edges.len(),
        hold_of_edge(anchor_of, edges[i]) is None,
    ensures
        acc_fits(anchor_of, edges, i + 1, acc, nframes),
{
    reveal(acc_fits);
    let pre = edges.take(i);
    let post = edges.take(i + 1);
    assert(post.drop_last() =~= pre);
    assert(post.last() == edges[i]);
    lemma_fields_total_prefix(edges, i);
    assert forall|k: int| 0 <= k < acc.len() implies hold_in(anchor_of, post, #[trigger] acc[k]) by {
        let w = choose|w: int| 0 <= w < pre.len() && same_hold(anchor_of, #[trigger] pre[w], acc[k]);
        assert(post[w] == pre[w]);
    }
}

/// An edge of a key already gathered adds its fields to that hold.
#[verifier::rlimit(40)]
#[verifier::spinoff_prover]
proof fn lemma_acc_add(anchor_of: Seq<Option<Anchor>>, edges: Seq<crate::wire::HoldEdge>, i: int, acc: Seq<Hold>, nframes: int, f: int, u: Hold)
    requires
        acc_fits(anchor_of, edges, i, acc, nframes),
        i < edges.len(),
        0 <= f < acc.len(),
        same_hold(anchor_of, edges[i], acc[f]),
        same_key(u, acc[f]),
        u.fields == acc[f].fields + edges[i].fields@.len(),
        u.rest,
    ensures
        acc_fits(anchor_of, edges, i + 1, acc.update(f, u), nframes),
{
    reveal(acc_fits);
    let pre = edges.take(i);
    let post = edges.take(i + 1);
    let after = acc.update(f, u);
    assert(post.drop_last() =~= pre);
    assert(post.last() == edges[i]);
    lemma_fields_total_prefix(edges, i);
    lemma_hold_fields_key(anchor_of, pre, u, acc[f]);
    lemma_hold_fields_key(anchor_of, post, u, acc[f]);
    assert forall|k: int| 0 <= k < after.len() implies (#[trigger] after[k]).held != after[k].holder
        && anchor_ok(after[k].held, anchor_of.len() as int, nframes)
        && anchor_ok(after[k].holder, anchor_of.len() as int, nframes)
        && after[k].rest
        && after[k].fields <= fields_total(post)
        && hold_in(anchor_of, post, after[k])
        && after[k].fields as nat == hold_fields(anchor_of, post, after[k]) by {
        if k != f {
            assert(after[k] == acc[k]);
            let w = choose|w: int| 0 <= w < pre.len() && same_hold(anchor_of, #[trigger] pre[w], acc[k]);
            assert(post[w] == pre[w]);
            assert(!same_hold(anchor_of, edges[i], acc[k])) by {
                if same_hold(anchor_of, edges[i], acc[k]) {
                    assert(same_key(acc[k], acc[f]));
                    if k < f {
                        assert(!same_key(acc[k], acc[f]));
                    } else {
                        assert(!same_key(acc[f], acc[k]));
                    }
                }
            }
        } else {
            let w = choose|w: int| 0 <= w < pre.len() && same_hold(anchor_of, #[trigger] pre[w], acc[f]);
            assert(post[w] == pre[w]);
        }
    }
    assert forall|j: int| 0 <= j < i + 1 && (hold_of_edge(anchor_of, #[trigger] edges[j]) is Some) implies exists|k: int|
        0 <= k < after.len() && same_hold(anchor_of, edges[j], #[trigger] after[k]) by {
        if j < i {
            let k = choose|k: int| 0 <= k < acc.len() && same_hold(anchor_of, edges[j], #[trigger] acc[k]);
            if k == f {
                assert(same_hold(anchor_of, edges[j], after[f]));
            } else {
                assert(after[k] == acc[k]);
            }
        } else {
            assert(same_hold(anchor_of, edges[j], after[f]));
        }
    }
    assert forall|a: int, b: int| 0 <= a < b < after.len() implies !same_key(#[trigger] after[a], #[trigger] after[b]) by {
        if a == f {
            assert(!same_key(acc[a], acc[b]));
        } else if b == f {
            assert(!same_key(acc[a], acc[b]));
        }
    }
}

/// An edge of a new key starts a hold of its own.
proof fn lemma_acc_push(anchor_of: Seq<Option<Anchor>>, edges: Seq<crate::wire::HoldEdge>, i: int, acc: Seq<Hold>, nframes: int, u: Hold)
    requires
        acc_fits(anchor_of, edges, i, acc, nframes),
        i < edges.len(),
        same_hold(anchor_of, edges[i], u),
        forall|k: int| 0 <= k < acc.len() ==> !same_key(#[trigger] acc[k], u),
        u.fields == edges[i].fields@.len(),
        u.rest,
        anchor_ok(u.held, anchor_of.len() as int, nframes),
        anchor_ok(u.holder, anchor_of.len() as int, nframes),
    ensures
        acc_fits(anchor_of, edges, i + 1, acc.push(u), nframes),
{
    reveal(acc_fits);
    let pre = edges.take(i);
    let post = edges.take(i + 1);
    let after = acc.push(u);
    assert(post.drop_last() =~= pre);
    assert(post.last() == edges[i]);
    lemma_fields_total_prefix(edges, i);
    assert(!hold_in(anchor_of, pre, u)) by {
        if hold_in(anchor_of, pre, u) {
            let w = choose|w: int| 0 <= w < pre.len() && same_hold(anchor_of, #[trigger] pre[w], u);
            assert(edges[w] == pre[w]);
            let k = choose|k: int| 0 <= k < acc.len() && same_hold(anchor_of, edges[w], #[trigger] acc[k]);
            assert(same_key(acc[k], u));
        }
    }
    lemma_hold_fields_absent(anchor_of, pre, u);
    assert forall|k: int| 0 <= k < after.len() implies (#[trigger] after[k]).held != after[k].holder
        && anchor_ok(after[k].held, anchor_of.len() as int, nframes)
        && anchor_ok(after[k].holder, anchor_of.len() as int, nframes)
        && after[k].rest
        && after[k].fields <= fields_total(post)
        && hold_in(anchor_of, post, after[k])
        && after[k].fields as nat == hold_fields(anchor_of, post, after[k]) by {
        if k < acc.len() {
            assert(after[k] == acc[k]);
            let w = choose|w: int| 0 <= w < pre.len() && same_hold(anchor_of, #[trigger] pre[w], acc[k]);
            assert(post[w] == pre[w]);
            assert(!same_hold(anchor_of, edges[i], acc[k])) by {
                if same_hold(anchor_of, edges[i], acc[k]) {
                    assert(same_key(acc[k], u));
                }
            }
        } else {
            assert(post[i] == edges[i]);
        }
    }
    assert forall|j: int| 0 <= j < i + 1 && (hold_of_edge(anchor_of, #[trigger] edges[j]) is Some) implies exists|k: int|
        0 <= k < after.len() && same_hold(anchor_of, edges[j], #[trigger] after[k]) by {
        if j < i {
            let k = choose|k: int| 0 <= k < acc.len() && same_hold(anchor_of, edges[j], #[trigger] acc[k]);
            assert(after[k] == acc[k]);
        } else {
            assert(same_hold(anchor_of, edges[j], after[acc.len() as int]));
        }
    }
}

/// Every holds edge landed on its anchors, one hold per (held, holder,
/// kind, wrapper, event) with its fields counted, in key order; and how many
/// edges reach a trait that lands nowhere.
#[verifier::rlimit(80)]
#[verifier::spinoff_prover]
fn gather_holds(graph: &CodeGraph, anchor_of: &Vec<Option<Anchor>>, nframes: usize) -> (r: (Vec<Hold>, usize))
    requires
        within_limits(*graph),
        anchor_of@.len() == graph.items@.len() + graph.ghosts@.len(),
        forall|k: int| 0 <= k < anchor_of@.len() ==> match #[trigger] anchor_of@[k] {
            Some(a) => anchor_ok(a, anchor_of@.len() as int, nframes as int),
            None => true,
        },
    ensures
        forall|k: int| 0 <= k < r.0@.len() ==> (#[trigger] r.0@[k]).held != r.0@[k].holder
            && anchor_ok(r.0@[k].held, anchor_of@.len() as int, nframes as int)
            && anchor_ok(r.0@[k].holder, anchor_of@.len() as int, nframes as int)
            && r.0@[k].rest
            && r.0@[k].fields as int <= fields_total(graph.holds@),
        r.0@.len() <= graph.holds@.len(),
        r.1 <= graph.holds@.len(),
        holds_fit(anchor_of@, graph.holds@, r.0@),
        r.1 as nat == crate::fn_build::tally(graph.holds@, |e: crate::wire::HoldEdge| trait_hold(*graph, anchor_of@, e)),
{
    let mut acc: Vec<Hold> = Vec::new();
    let mut trait_holds: usize = 0;
    let mut i: usize = 0;
    let n = anchor_of.len();
    let ghost edges = graph.holds@;
    proof {
        lemma_acc_start(anchor_of@, edges, nframes as int);
    }
    while i < graph.holds.len()
        invariant
            i <= graph.holds@.len(),
            edges == graph.holds@,
            within_limits(*graph),
            n == anchor_of@.len(),
            forall|k: int| 0 <= k < anchor_of@.len() ==> match #[trigger] anchor_of@[k] {
                Some(a) => anchor_ok(a, n as int, nframes as int),
                None => true,
            },
            acc_fits(anchor_of@, edges, i as int, acc@, nframes as int),
            trait_holds <= i,
            trait_holds as nat == crate::fn_build::tally(edges.take(i as int), |e: crate::wire::HoldEdge| trait_hold(*graph, anchor_of@, e)),
        decreases graph.holds.len() - i,
    {
        let edge = &graph.holds[i];
        proof {
            lemma_fields_total_prefix(graph.holds@, i as int);
            lemma_fields_total_mono(graph.holds@, i + 1);
            lemma_acc_len(anchor_of@, edges, i as int, acc@, nframes as int);
            assert(edges.take(i + 1).drop_last() =~= edges.take(i as int));
            assert(edges.take(i + 1).last() == edges[i as int]);
        }
        let holder = if (edge.from as usize) < n { anchor_of[edge.from as usize] } else { None };
        let held = if (edge.to as usize) < n { anchor_of[edge.to as usize] } else { None };
        if held.is_none() && (edge.to as usize) < graph.items.len()
            && graph.items[edge.to as usize].kind == ItemKind::Trait {
            trait_holds = trait_holds + 1;
        }
        let mut landed = false;
        match (holder, held) {
            (Some(holder), Some(held)) => {
                proof {
                    assert(anchor_ok(holder, n as int, nframes as int));
                    assert(anchor_ok(held, n as int, nframes as int));
                }
                if holder != held {
                    landed = true;
                    let count = edge.fields.len() as u32;
                    let mut found: Option<usize> = None;
                    let mut j: usize = 0;
                    while j < acc.len()
                        invariant
                            j <= acc@.len(),
                            match found {
                                Some(f) => f < acc@.len() && acc@[f as int].held == held && acc@[f as int].holder == holder
                                    && acc@[f as int].kind == edge.kind && acc@[f as int].via@ == edge.via@ && acc@[f as int].event == edge.event,
                                None => forall|k: int| 0 <= k < j ==> !((#[trigger] acc@[k]).held == held && acc@[k].holder == holder
                                    && acc@[k].kind == edge.kind && acc@[k].via@ == edge.via@ && acc@[k].event == edge.event),
                            },
                        decreases acc.len() - j,
                    {
                        if found.is_none() && acc[j].held == held && acc[j].holder == holder
                            && acc[j].kind == edge.kind && acc[j].via.eq(&edge.via)
                            && event_eq(acc[j].event, edge.event) {
                            found = Some(j);
                        }
                        j = j + 1;
                    }
                    assert(hold_of_edge(anchor_of@, edges[i as int]) == Some((held, holder)));
                    match found {
                        Some(f) => {
                            proof {
                                lemma_acc_bound(anchor_of@, edges, i as int, acc@, nframes as int, f as int);
                            }
                            let old = &acc[f];
                            let updated = Hold {
                                held: old.held,
                                holder: old.holder,
                                kind: old.kind,
                                via: old.via.clone(),
                                fields: old.fields + count,
                                rest: true,
                                event: old.event,
                            };
                            proof {
                                lemma_acc_add(anchor_of@, edges, i as int, acc@, nframes as int, f as int, updated);
                            }
                            acc.set(f, updated);
                        },
                        None => {
                            let fresh = Hold {
                                held,
                                holder,
                                kind: edge.kind,
                                via: edge.via.clone(),
                                fields: count,
                                rest: true,
                                event: edge.event,
                            };
                            proof {
                                lemma_acc_push(anchor_of@, edges, i as int, acc@, nframes as int, fresh);
                            }
                            acc.push(fresh);
                        },
                    }
                }
            },
            _ => {},
        }
        if !landed {
            proof {
                lemma_acc_skip(anchor_of@, edges, i as int, acc@, nframes as int);
            }
        }
        i = i + 1;
    }
    proof {
        assert(graph.holds@.take(graph.holds@.len() as int) =~= graph.holds@);
        reveal(acc_fits);
    }
    // Sort by (held, holder, kind, wrapper, event): one key per edge.
    let mut keyed: Vec<(Vec<u64>, Hold)> = Vec::new();
    let mut q: usize = 0;
    while q < acc.len()
        invariant
            q <= acc@.len(),
            keyed@.len() == q,
            forall|k: int| 0 <= k < keyed@.len() ==> (#[trigger] keyed@[k]).1 == acc@[k],
        decreases acc.len() - q,
    {
        let h = &acc[q];
        let mut k: Vec<u64> = Vec::new();
        anchor_key(&mut k, h.held);
        anchor_key(&mut k, h.holder);
        k.push(hold_rank_of(h.kind) as u64);
        push_text(&mut k, h.via.as_str());
        k.push(event_rank_of(h.event) as u64);
        let copy = Hold {
            held: h.held,
            holder: h.holder,
            kind: h.kind,
            via: h.via.clone(),
            fields: h.fields,
            rest: h.rest,
            event: h.event,
        };
        keyed.push((k, copy));
        q = q + 1;
    }
    let sorted = sort_by_key(keyed);
    proof {
        crate::sort::lemma_same_entries(sorted@, keyed@);
    }
    let mut holds: Vec<Hold> = Vec::new();
    let mut q: usize = 0;
    let mut sorted = sorted;
    let ghost all = sorted@;
    // Take the entries back out, front to back.
    let mut rev: Vec<Hold> = Vec::new();
    while sorted.len() > 0
        invariant
            all.len() == keyed@.len(),
            forall|x: (Vec<u64>, Hold)| all.contains(x) <==> keyed@.contains(x),
            forall|k: int| 0 <= k < keyed@.len() ==> (#[trigger] keyed@[k]).1 == acc@[k],
            forall|k: int| 0 <= k < acc@.len() ==> (#[trigger] acc@[k]).held != acc@[k].holder
                && anchor_ok(acc@[k].held, n as int, nframes as int)
                && anchor_ok(acc@[k].holder, n as int, nframes as int)
                && acc@[k].rest
                && acc@[k].fields as int <= fields_total(graph.holds@),
            sorted@ == all.take(sorted@.len() as int),
            rev@.len() + sorted@.len() == all.len(),
            forall|k: int| 0 <= k < rev@.len() ==> (#[trigger] rev@[k]) == all[all.len() - 1 - k].1,
        decreases sorted.len(),
    {
        let ghost before = sorted@;
        let e = sorted.pop().unwrap();
        proof {
            assert(before =~= sorted@.push(e));
            assert(sorted@ =~= all.take(sorted@.len() as int));
        }
        rev.push(e.1);
    }
    while rev.len() > 0
        invariant
            all.len() == keyed@.len(),
            forall|x: (Vec<u64>, Hold)| all.contains(x) <==> keyed@.contains(x),
            forall|k: int| 0 <= k < keyed@.len() ==> (#[trigger] keyed@[k]).1 == acc@[k],
            forall|k: int| 0 <= k < acc@.len() ==> (#[trigger] acc@[k]).held != acc@[k].holder
                && anchor_ok(acc@[k].held, n as int, nframes as int)
                && anchor_ok(acc@[k].holder, n as int, nframes as int)
                && acc@[k].rest
                && acc@[k].fields as int <= fields_total(graph.holds@),
            holds@.len() + rev@.len() == all.len(),
            forall|k: int| 0 <= k < rev@.len() ==> (#[trigger] rev@[k]) == all[all.len() - 1 - k].1,
            forall|k: int| 0 <= k < holds@.len() ==> (#[trigger] holds@[k]) == all[k].1,
        decreases rev.len(),
    {
        let h = rev.pop().unwrap();
        holds.push(h);
    }
    proof {
        assert forall|k: int| 0 <= k < holds@.len() implies (#[trigger] holds@[k]).held != holds@[k].holder
            && anchor_ok(holds@[k].held, n as int, nframes as int)
            && anchor_ok(holds@[k].holder, n as int, nframes as int)
            && holds@[k].rest
            && holds@[k].fields as int <= fields_total(graph.holds@) by {
            assert(all.contains(all[k]));
            let w = choose|w: int| 0 <= w < keyed@.len() && keyed@[w] == all[k];
            assert(keyed@[w].1 == acc@[w]);
        }
        let whole = graph.holds@;
        assert(whole.take(whole.len() as int) =~= whole);
        assert forall|k: int| 0 <= k < holds@.len() implies hold_in(anchor_of@, whole, #[trigger] holds@[k])
            && holds@[k].fields as nat == hold_fields(anchor_of@, whole, holds@[k]) by {
            assert(all.contains(all[k]));
            let w = choose|w: int| 0 <= w < keyed@.len() && keyed@[w] == all[k];
            assert(keyed@[w].1 == acc@[w]);
        }
        assert forall|i: int| 0 <= i < whole.len() && (hold_of_edge(anchor_of@, #[trigger] whole[i]) is Some) implies exists|k: int|
            0 <= k < holds@.len() && same_hold(anchor_of@, whole[i], #[trigger] holds@[k]) by {
            let w = choose|w: int| 0 <= w < acc@.len() && same_hold(anchor_of@, whole[i], #[trigger] acc@[w]);
            assert(keyed@.contains(keyed@[w]));
            let q = choose|q: int| 0 <= q < all.len() && all[q] == keyed@[w];
            assert(holds@[q] == all[q].1);
        }
        assert(keyed@.no_duplicates()) by {
            assert forall|a: int, b: int| 0 <= a < keyed@.len() && 0 <= b < keyed@.len() && a != b implies keyed@[a] != keyed@[b] by {
                assert(keyed@[a].1 == acc@[a] && keyed@[b].1 == acc@[b]);
                if a < b {
                    assert(!same_key(acc@[a], acc@[b]));
                } else {
                    assert(!same_key(acc@[b], acc@[a]));
                }
            }
        }
        crate::sort::lemma_no_dup_moves(keyed@, all);
        assert forall|a: int, b: int| 0 <= a < b < holds@.len() implies !same_key(#[trigger] holds@[a], #[trigger] holds@[b]) by {
            assert(all.contains(all[a]));
            assert(all.contains(all[b]));
            let wa = choose|w: int| 0 <= w < keyed@.len() && keyed@[w] == all[a];
            let wb = choose|w: int| 0 <= w < keyed@.len() && keyed@[w] == all[b];
            assert(all[a] != all[b]);
            assert(wa != wb);
            if wa < wb {
                assert(!same_key(acc@[wa], acc@[wb]));
            } else {
                assert(!same_key(acc@[wb], acc@[wa]));
            }
        }
    }
    (holds, trait_holds)
}

/// Among the first `n` holds, a structural one (not removed) lands on `x`.
pub open spec fn fan_held(holds: Seq<Hold>, n: int, x: Anchor) -> bool {
    exists|i: int| 0 <= i < n && (#[trigger] holds[i]).event != Some(HoldEvent::Removed) && holds[i].held == x
}

/// Among the first `n` holds, a structural one has `y` hold `x`.
pub open spec fn fan_holds(holds: Seq<Hold>, n: int, x: Anchor, y: Anchor) -> bool {
    exists|i: int|
        0 <= i < n && (#[trigger] holds[i]).event != Some(HoldEvent::Removed) && holds[i].held == x && holds[i].holder == y
}

/// What the fan over the first `n` holds is: each held anchor once, with
/// each of its holders once.
pub open spec fn fan_fits(holds: Seq<Hold>, n: int, fan: Seq<(Anchor, Vec<Anchor>)>) -> bool {
    &&& forall|a: int, b: int| 0 <= a < b < fan.len() ==> (#[trigger] fan[a]).0 != (#[trigger] fan[b]).0
    &&& forall|k: int| 0 <= k < fan.len() ==> fan_held(holds, n, (#[trigger] fan[k]).0)
    &&& forall|k: int, p: int, q: int| 0 <= k < fan.len() && 0 <= p < q < fan[k].1@.len() ==> (#[trigger] fan[k].1@[p]) != (#[trigger] fan[k].1@[q])
    &&& forall|k: int, q: int| 0 <= k < fan.len() && 0 <= q < fan[k].1@.len() ==> fan_holds(holds, n, fan[k].0, #[trigger] fan[k].1@[q])
    &&& forall|j: int| 0 <= j < n && (#[trigger] holds[j]).event != Some(HoldEvent::Removed) ==> exists|k: int|
        0 <= k < fan.len() && (#[trigger] fan[k]).0 == holds[j].held && fan[k].1@.contains(holds[j].holder)
}

/// Each held anchor's distinct holders, over the edges that are structure
/// (a removed edge is diff ink, not structure).
#[verifier::rlimit(60)]
#[verifier::spinoff_prover]
fn fan_in(holds: &Vec<Hold>) -> (fan: Vec<(Anchor, Vec<Anchor>)>)
    ensures
        fan@.len() <= holds@.len(),
        forall|k: int| 0 <= k < fan@.len() ==> (#[trigger] fan@[k]).1@.len() <= holds@.len(),
        forall|a: int, b: int| 0 <= a < b < fan@.len() ==> (#[trigger] fan@[a]).0 != (#[trigger] fan@[b]).0,
        forall|x: Anchor| fan_held(holds@, holds@.len() as int, x) <==> exists|k: int| 0 <= k < fan@.len() && (#[trigger] fan@[k]).0 == x,
        forall|k: int, p: int, q: int| 0 <= k < fan@.len() && 0 <= p < q < fan@[k].1@.len() ==> (#[trigger] fan@[k].1@[p]) != (#[trigger] fan@[k].1@[q]),
        forall|k: int, y: Anchor| 0 <= k < fan@.len() ==> ((#[trigger] fan@[k].1@.contains(y)) <==> fan_holds(holds@, holds@.len() as int, fan@[k].0, y)),
        crate::data_rest::fan_exact(holds@, fan@),
{
    proof {
        reveal(crate::data_rest::fan_exact);
    }
    let mut fan: Vec<(Anchor, Vec<Anchor>)> = Vec::new();
    let mut i: usize = 0;
    while i < holds.len()
        invariant
            i <= holds@.len(),
            fan@.len() <= i,
            forall|k: int| 0 <= k < fan@.len() ==> (#[trigger] fan@[k]).1@.len() <= i,
            fan_fits(holds@, i as int, fan@),
        decreases holds.len() - i,
    {
        let h = &holds[i];
        let ghost before = fan@;
        proof {
            assert forall|k: int| 0 <= k < fan@.len() implies fan_held(holds@, i + 1, (#[trigger] fan@[k]).0) by {
                let w = choose|w: int| 0 <= w < i && (#[trigger] holds@[w]).event != Some(HoldEvent::Removed) && holds@[w].held == fan@[k].0;
            }
            assert forall|k: int, q: int| 0 <= k < fan@.len() && 0 <= q < fan@[k].1@.len() implies fan_holds(holds@, i + 1, fan@[k].0, #[trigger] fan@[k].1@[q]) by {
                let w = choose|w: int| 0 <= w < i && (#[trigger] holds@[w]).event != Some(HoldEvent::Removed) && holds@[w].held == fan@[k].0 && holds@[w].holder == fan@[k].1@[q];
            }
        }
        if !event_eq(h.event, Some(HoldEvent::Removed)) {
            let mut at: Option<usize> = None;
            let mut j: usize = 0;
            while j < fan.len()
                invariant
                    j <= fan@.len(),
                    match at {
                        Some(a) => a < fan@.len() && fan@[a as int].0 == h.held,
                        None => forall|k: int| 0 <= k < j ==> (#[trigger] fan@[k]).0 != h.held,
                    },
                decreases fan.len() - j,
            {
                if at.is_none() && fan[j].0 == h.held {
                    at = Some(j);
                }
                j = j + 1;
            }
            match at {
                Some(a) => {
                    let mut present = false;
                    let mut q: usize = 0;
                    while q < fan[a].1.len()
                        invariant
                            q <= fan@[a as int].1@.len(),
                            a < fan@.len(),
                            present <==> exists|p: int| 0 <= p < q && fan@[a as int].1@[p] == h.holder,
                        decreases fan@[a as int].1@.len() - q,
                    {
                        if fan[a].1[q] == h.holder {
                            present = true;
                        }
                        q = q + 1;
                    }
                    if !present {
                        let mut list = fan[a].1.clone();
                        let ghost old_list = list@;
                        list.push(h.holder);
                        let entry = (fan[a].0, list);
                        fan.set(a, entry);
                        proof {
                            assert(fan@[a as int].1@ == old_list.push(h.holder));
                            assert(old_list == before[a as int].1@);
                            assert forall|k: int, p: int, r: int| 0 <= k < fan@.len() && 0 <= p < r < fan@[k].1@.len() implies (#[trigger] fan@[k].1@[p]) != (#[trigger] fan@[k].1@[r]) by {
                                if k == a {
                                    if r == old_list.len() {
                                        assert(fan@[k].1@[p] == old_list[p]);
                                    } else {
                                        assert(fan@[k].1@[p] == old_list[p] && fan@[k].1@[r] == old_list[r]);
                                    }
                                } else {
                                    assert(fan@[k] == before[k]);
                                }
                            }
                            assert forall|k: int, r: int| 0 <= k < fan@.len() && 0 <= r < fan@[k].1@.len() implies fan_holds(holds@, i + 1, fan@[k].0, #[trigger] fan@[k].1@[r]) by {
                                if k == a {
                                    if r == old_list.len() {
                                        assert(holds@[i as int] == *h);
                                    } else {
                                        assert(fan@[k].1@[r] == old_list[r]);
                                        assert(fan_holds(holds@, i + 1, before[k].0, before[k].1@[r]));
                                    }
                                } else {
                                    assert(fan@[k] == before[k]);
                                    assert(fan_holds(holds@, i + 1, before[k].0, before[k].1@[r]));
                                }
                            }
                        }
                    }
                    proof {
                        assert(fan@[a as int].1@.contains(h.holder)) by {
                            if present {
                                let p = choose|p: int| 0 <= p < q && fan@[a as int].1@[p] == h.holder;
                            } else {
                                assert(fan@[a as int].1@[fan@[a as int].1@.len() - 1] == h.holder);
                            }
                        }
                    }
                },
                None => {
                    let mut list: Vec<Anchor> = Vec::new();
                    list.push(h.holder);
                    fan.push((h.held, list));
                    proof {
                        assert(holds@[i as int] == *h);
                        assert(fan@[fan@.len() - 1].1@[0] == h.holder);
                        assert(fan@[fan@.len() - 1].1@.contains(h.holder));
                        assert forall|k: int| 0 <= k < fan@.len() implies fan_held(holds@, i + 1, (#[trigger] fan@[k]).0) by {
                            if k < before.len() {
                                assert(fan@[k] == before[k]);
                            }
                        }
                        assert forall|k: int, r: int| 0 <= k < fan@.len() && 0 <= r < fan@[k].1@.len() implies fan_holds(holds@, i + 1, fan@[k].0, #[trigger] fan@[k].1@[r]) by {
                            if k < before.len() {
                                assert(fan@[k] == before[k]);
                                assert(fan_holds(holds@, i + 1, before[k].0, before[k].1@[r]));
                            }
                        }
                    }
                },
            }
        }
        proof {
            assert(holds@[i as int] == *h);
            assert forall|a: int, b: int| 0 <= a < b < fan@.len() implies (#[trigger] fan@[a]).0 != (#[trigger] fan@[b]).0 by {
                if b >= before.len() {
                    assert(fan@[a] == before[a]);
                } else {
                    assert(fan@[a].0 == before[a].0 && fan@[b].0 == before[b].0);
                }
            }
            assert forall|k: int| 0 <= k < fan@.len() implies fan_held(holds@, i + 1, (#[trigger] fan@[k]).0) by {
                if k < before.len() {
                    assert(fan@[k].0 == before[k].0);
                    assert(fan_held(holds@, i + 1, before[k].0));
                }
            }
            assert forall|j: int| 0 <= j < i + 1 && (#[trigger] holds@[j]).event != Some(HoldEvent::Removed) implies exists|k: int|
                0 <= k < fan@.len() && (#[trigger] fan@[k]).0 == holds@[j].held && fan@[k].1@.contains(holds@[j].holder) by {
                if j < i {
                    let k = choose|k: int| 0 <= k < before.len() && (#[trigger] before[k]).0 == holds@[j].held && before[k].1@.contains(holds@[j].holder);
                    assert(fan@[k].0 == before[k].0);
                    let p = choose|p: int| 0 <= p < before[k].1@.len() && before[k].1@[p] == holds@[j].holder;
                    assert(fan@[k].1@[p] == before[k].1@[p]);
                    assert(fan@[k].1@.contains(holds@[j].holder));
                }
            }
        }
        i = i + 1;
    }
    proof {
        assert forall|x: Anchor| fan_held(holds@, holds@.len() as int, x) implies exists|k: int| 0 <= k < fan@.len() && (#[trigger] fan@[k]).0 == x by {
            let j = choose|j: int| 0 <= j < holds@.len() && (#[trigger] holds@[j]).event != Some(HoldEvent::Removed) && holds@[j].held == x;
        }
        assert forall|k: int, y: Anchor| 0 <= k < fan@.len() && fan_holds(holds@, holds@.len() as int, fan@[k].0, y) implies #[trigger] fan@[k].1@.contains(y) by {
            let j = choose|j: int| 0 <= j < holds@.len() && (#[trigger] holds@[j]).event != Some(HoldEvent::Removed) && holds@[j].held == fan@[k].0 && holds@[j].holder == y;
            let k2 = choose|k2: int| 0 <= k2 < fan@.len() && (#[trigger] fan@[k2]).0 == holds@[j].held && fan@[k2].1@.contains(holds@[j].holder);
        }
        assert forall|k: int, y: Anchor| 0 <= k < fan@.len() && #[trigger] fan@[k].1@.contains(y) implies fan_holds(holds@, holds@.len() as int, fan@[k].0, y) by {
            let p = choose|p: int| 0 <= p < fan@[k].1@.len() && fan@[k].1@[p] == y;
            assert(fan_holds(holds@, holds@.len() as int, fan@[k].0, fan@[k].1@[p]));
        }
    }
    fan
}

/// The holders of one anchor, if any edge lands on it.
fn holders_of(fan: &Vec<(Anchor, Vec<Anchor>)>, a: Anchor) -> (r: Option<usize>)
    ensures
        match r {
            Some(k) => k < fan@.len() && fan@[k as int].0 == a,
            None => forall|k: int| 0 <= k < fan@.len() ==> (#[trigger] fan@[k]).0 != a,
        },
{
    let mut j: usize = 0;
    while j < fan.len()
        invariant
            j <= fan@.len(),
            forall|k: int| 0 <= k < j ==> (#[trigger] fan@[k]).0 != a,
        decreases fan.len() - j,
    {
        if fan[j].0 == a {
            return Some(j);
        }
        j = j + 1;
    }
    None
}

/// The drawn marks whose fan-in folds to a count on their own foot: more
/// than [`HELD_CAP`] holders. Each carries (holders that are types or
/// statics, holders that are signatures).
fn folded_fan(graph: &CodeGraph, fan: &Vec<(Anchor, Vec<Anchor>)>) -> (folds: Vec<(Anchor, u32, u32)>)
    requires
        forall|k: int| 0 <= k < fan@.len() ==> (#[trigger] fan@[k]).1@.len() < 0x4000_0000,
    ensures
        forall|k: int| 0 <= k < folds@.len() ==> (#[trigger] folds@[k]).0 is Mark,
        folds@ == folds_of(*graph, fan@),
{
    let mut out: Vec<(Anchor, u32, u32)> = Vec::new();
    let mut i: usize = 0;
    while i < fan.len()
        invariant
            i <= fan@.len(),
            forall|k: int| 0 <= k < fan@.len() ==> (#[trigger] fan@[k]).1@.len() < 0x4000_0000,
            forall|k: int| 0 <= k < out@.len() ==> (#[trigger] out@[k]).0 is Mark,
            out@ == folds_of(*graph, fan@.take(i as int)),
        decreases fan.len() - i,
    {
        proof {
            assert(fan@.take(i + 1).drop_last() =~= fan@.take(i as int));
            assert(fan@.take(i + 1).last() == fan@[i as int]);
        }
        let anchor = fan[i].0;
        let total = fan[i].1.len();
        if matches!(anchor, Anchor::Mark(_)) && total > HELD_CAP {
            let mut named: usize = 0;
            let mut q: usize = 0;
            while q < total
                invariant
                    q <= total,
                    total == fan@[i as int].1@.len(),
                    i < fan@.len(),
                    named <= q,
                    named == named_count(*graph, fan@[i as int].1@.take(q as int)),
                decreases total - q,
            {
                proof {
                    assert(fan@[i as int].1@.take(q + 1).drop_last() =~= fan@[i as int].1@.take(q as int));
                }
                match fan[i].1[q] {
                    Anchor::Mark(id) => {
                        if is_fn_id(graph, id) {
                            named = named + 1;
                        }
                    },
                    _ => {},
                }
                q = q + 1;
            }
            proof {
                assert(fan@[i as int].1@.take(total as int) =~= fan@[i as int].1@);
            }
            out.push((anchor, (total - named) as u32, named as u32));
        }
        i = i + 1;
    }
    proof {
        assert(fan@.take(fan@.len() as int) =~= fan@);
    }
    out
}

/// How many of the holders are signatures: marks of functions.
pub open spec fn named_count(graph: CodeGraph, holders: Seq<Anchor>) -> nat
    decreases holders.len(),
{
    if holders.len() == 0 {
        0
    } else {
        named_count(graph, holders.drop_last()) + match holders.last() {
            Anchor::Mark(id) => if spec_is_fn_id(graph, id) { 1nat } else { 0nat },
            _ => 0nat,
        }
    }
}

/// The fan-in folds of the fan, in fan order: each drawn mark with more than
/// [`HELD_CAP`] holders, with (holders that are not signatures, signatures).
pub open spec fn folds_of(graph: CodeGraph, fan: Seq<(Anchor, Vec<Anchor>)>) -> Seq<(Anchor, u32, u32)>
    decreases fan.len(),
{
    if fan.len() == 0 {
        Seq::empty()
    } else {
        let r = folds_of(graph, fan.drop_last());
        let e = fan.last();
        if e.0 is Mark && e.1@.len() > HELD_CAP {
            let named = named_count(graph, e.1@);
            r.push((e.0, (e.1@.len() - named) as u32, named as u32))
        } else {
            r
        }
    }
}

fn fold_at(folds: &Vec<(Anchor, u32, u32)>, a: Anchor) -> (r: Option<(u32, u32)>)
    ensures
        r.is_some() <==> exists|k: int| 0 <= k < folds@.len() && (#[trigger] folds@[k]).0 == a,
        r matches Some(c) ==> exists|k: int| 0 <= k < folds@.len() && #[trigger] folds@[k] == (a, c.0, c.1),
{
    let mut j: usize = 0;
    while j < folds.len()
        invariant
            j <= folds@.len(),
            forall|k: int| 0 <= k < j ==> (#[trigger] folds@[k]).0 != a,
        decreases folds.len() - j,
    {
        if folds[j].0 == a {
            proof {
                assert(folds@[j as int] == (a, folds@[j as int].1, folds@[j as int].2));
            }
            return Some((folds[j].1, folds[j].2));
        }
        j = j + 1;
    }
    None
}

/// The anchor's fan-in folds to a count.
pub open spec fn is_folded(folds: Seq<(Anchor, u32, u32)>, a: Anchor) -> bool {
    exists|k: int| 0 <= k < folds.len() && (#[trigger] folds[k]).0 == a
}

/// A folded edge stays in the set and inks in on hover; diff ink never folds.
fn set_rest(holds: Vec<Hold>, folds: &Vec<(Anchor, u32, u32)>) -> (out: Vec<Hold>)
    ensures
        out@.len() == holds@.len(),
        forall|k: int| 0 <= k < out@.len() ==> (#[trigger] out@[k]).held == holds@[k].held
            && out@[k].holder == holds@[k].holder && out@[k].kind == holds@[k].kind
            && out@[k].via@ == holds@[k].via@ && out@[k].fields == holds@[k].fields
            && out@[k].event == holds@[k].event
            && out@[k].rest == (out@[k].event.is_some() || !is_folded(folds@, out@[k].held)),
        crate::data_rest::rest_marked(holds@, out@, folds@),
{
    proof {
        reveal(crate::data_rest::rest_marked);
    }
    let mut out: Vec<Hold> = Vec::new();
    let mut i: usize = 0;
    while i < holds.len()
        invariant
            i <= holds@.len(),
            out@.len() == i,
            forall|k: int| 0 <= k < out@.len() ==> (#[trigger] out@[k]).held == holds@[k].held
                && out@[k].holder == holds@[k].holder && out@[k].kind == holds@[k].kind
                && out@[k].via@ == holds@[k].via@ && out@[k].fields == holds@[k].fields
                && out@[k].event == holds@[k].event
                && out@[k].rest == (out@[k].event.is_some() || !is_folded(folds@, out@[k].held)),
        decreases holds.len() - i,
    {
        let h = &holds[i];
        let rest = h.event.is_some() || fold_at(folds, h.held).is_none();
        out.push(Hold {
            held: h.held,
            holder: h.holder,
            kind: h.kind,
            via: h.via.clone(),
            fields: h.fields,
            rest,
            event: h.event,
        });
        i = i + 1;
    }
    out
}

/// Every drawn type's seat: under its one heaviest same-frame `Owns`
/// holder, a drawn owner outranking the private fold row, then the heaviest
/// by field count, then the survey's order — never one that would close a
/// ring. Statics, functions and vocabulary types take no seat.
fn seat_parents(
    graph: &CodeGraph,
    frames: &Vec<(String, Option<String>)>,
    drawn: &Vec<u32>,
    holds: &Vec<Hold>,
    folds: &Vec<(Anchor, u32, u32)>,
) -> (parents: Vec<Option<Anchor>>)
    requires
        within_limits(*graph),
        frames@.len() < 0x4000_0000,
        forall|k: int| 0 <= k < drawn@.len() ==> (#[trigger] drawn@[k] as int) < graph.items@.len(),
        forall|k: int| 0 <= k < holds@.len() ==> (#[trigger] holds@[k]).fields as int <= fields_total(graph.holds@),
        holds@.len() <= graph.holds@.len(),
        forall|a: int, b: int| 0 <= a < b < drawn@.len() ==> drawn@[a] < drawn@[b],
    ensures
        parents@.len() == graph.items@.len() + graph.ghosts@.len(),
        crate::data_model::seats_acyclic(parents@),
        forall|k: int| 0 <= k < parents@.len() ==> match #[trigger] parents@[k] {
            Some(Anchor::Mark(p)) => p as int != k,
            Some(Anchor::More(_)) => false,
            _ => true,
        },
{
    let n = graph.items.len() + graph.ghosts.len();
    let mut parents: Vec<Option<Anchor>> = Vec::new();
    let mut k: usize = 0;
    while k < n
        invariant
            k <= n,
            parents@.len() == k,
            forall|q: int| 0 <= q < k ==> parents@[q].is_none(),
        decreases n - k,
    {
        parents.push(None);
        k = k + 1;
    }
    let ghost mut depth: Seq<nat> = Seq::new(n as nat, |y: int| 0nat);
    let mut i: usize = 0;
    while i < drawn.len()
        invariant
            i <= drawn@.len(),
            within_limits(*graph),
            frames@.len() < 0x4000_0000,
            n == graph.items@.len() + graph.ghosts@.len(),
            parents@.len() == n,
            crate::data_model::ranked_seats(parents@, depth),
            forall|a: int, b: int| 0 <= a < b < drawn@.len() ==> drawn@[a] < drawn@[b],
            forall|j: int| i <= j < drawn@.len() ==> parents@[#[trigger] drawn@[j] as int] is None,
            forall|k: int| 0 <= k < drawn@.len() ==> (#[trigger] drawn@[k] as int) < graph.items@.len(),
            forall|k: int| 0 <= k < holds@.len() ==> (#[trigger] holds@[k]).fields as int <= fields_total(graph.holds@),
            holds@.len() <= graph.holds@.len(),
            forall|k: int| 0 <= k < parents@.len() ==> match #[trigger] parents@[k] {
                Some(Anchor::Mark(p)) => p as int != k,
                Some(Anchor::More(_)) => false,
                _ => true,
            },
        decreases drawn.len() - i,
    {
        let id = drawn[i];
        proof {
            assert((drawn@[i as int] as int) < graph.items@.len());
        }
        let kind = graph.items[id as usize].kind;
        let seat = Anchor::Mark(id);
        let home = frame_of_item(graph, frames, id);
        if kind != ItemKind::Static && kind != ItemKind::Fn && fold_at(folds, seat).is_none() && home.is_some() {
            let home = home.unwrap();
            let mut weight: Vec<(Anchor, u64)> = Vec::new();
            let mut j: usize = 0;
            while j < holds.len()
                invariant
                    crate::data_model::ranked_seats(parents@, depth),
                    parents@.len() == n,
                    i < drawn@.len(),
                    id == drawn@[i as int],
                    forall|a: int, b: int| 0 <= a < b < drawn@.len() ==> drawn@[a] < drawn@[b],
                    forall|j: int| i <= j < drawn@.len() ==> parents@[#[trigger] drawn@[j] as int] is None,
                    j <= holds@.len(),
                    within_limits(*graph),
                    frames@.len() < 0x4000_0000,
                    forall|k: int| 0 <= k < holds@.len() ==> (#[trigger] holds@[k]).fields as int <= fields_total(graph.holds@),
                    forall|k: int| 0 <= k < weight@.len() ==> (#[trigger] weight@[k]).0 != seat
                        && !(weight@[k].0 is More),
                    forall|k: int| 0 <= k < weight@.len() ==> (#[trigger] weight@[k]).1 as int <= j * 0x1_0000_0000,
                    holds@.len() < 0x4000_0000,
                decreases holds.len() - j,
            {
                let h = &holds[j];
                let holder = h.holder;
                let candidate = h.held == seat && h.kind == HoldKind::Owns && holder != seat
                    && !event_eq(h.event, Some(HoldEvent::Removed)) && fold_at(folds, holder).is_none();
                let same_frame = match holder {
                    Anchor::Mark(hid) => !is_fn_id(graph, hid) && match frame_of_item(graph, frames, hid) {
                        Some(f) => f == home,
                        None => false,
                    },
                    Anchor::Private(f) => f == home,
                    Anchor::More(_) => false,
                };
                if candidate && same_frame {
                    let mut at: Option<usize> = None;
                    let mut q: usize = 0;
                    while q < weight.len()
                        invariant
                            crate::data_model::ranked_seats(parents@, depth),
                            parents@.len() == n,
                            i < drawn@.len(),
                            id == drawn@[i as int],
                            forall|a: int, b: int| 0 <= a < b < drawn@.len() ==> drawn@[a] < drawn@[b],
                            forall|j: int| i <= j < drawn@.len() ==> parents@[#[trigger] drawn@[j] as int] is None,
                            q <= weight@.len(),
                            match at {
                                Some(a) => a < weight@.len(),
                                None => true,
                            },
                        decreases weight.len() - q,
                    {
                        if at.is_none() && weight[q].0 == holder {
                            at = Some(q);
                        }
                        q = q + 1;
                    }
                    match at {
                        Some(a) => {
                            // One type's `Owns` edges are one key per holder:
                            // their fields sum within the survey's total.
                            let total = weight[a].1 + h.fields as u64;
                            let entry = (weight[a].0, total);
                            weight.set(a, entry);
                        },
                        None => {
                            weight.push((holder, h.fields as u64));
                        },
                    }
                }
                j = j + 1;
            }
            let mut keyed: Vec<(Vec<u64>, Anchor)> = Vec::new();
            let mut q: usize = 0;
            while q < weight.len()
                invariant
                    crate::data_model::ranked_seats(parents@, depth),
                    parents@.len() == n,
                    i < drawn@.len(),
                    id == drawn@[i as int],
                    forall|a: int, b: int| 0 <= a < b < drawn@.len() ==> drawn@[a] < drawn@[b],
                    forall|j: int| i <= j < drawn@.len() ==> parents@[#[trigger] drawn@[j] as int] is None,
                    q <= weight@.len(),
                    keyed@.len() == q,
                    forall|k: int| 0 <= k < keyed@.len() ==> (#[trigger] keyed@[k]).1 == weight@[k].0,
                    forall|k: int| 0 <= k < weight@.len() ==> (#[trigger] weight@[k]).0 != seat
                        && !(weight@[k].0 is More),
                decreases weight.len() - q,
            {
                let (holder, fields) = weight[q];
                let mut key: Vec<u64> = Vec::new();
                key.push(if matches!(holder, Anchor::Private(_)) { 1 } else { 0 });
                key.push(u64::MAX - fields);
                anchor_key(&mut key, holder);
                keyed.push((key, holder));
                q = q + 1;
            }
            let ranked = sort_by_key(keyed);
            proof {
                crate::sort::lemma_same_entries(ranked@, keyed@);
            }
            let mut c: usize = 0;
            let mut chosen: Option<Anchor> = None;
            while c < ranked.len() && chosen.is_none()
                invariant
                    crate::data_model::ranked_seats(parents@, depth),
                    parents@.len() == n,
                    i < drawn@.len(),
                    id == drawn@[i as int],
                    forall|a: int, b: int| 0 <= a < b < drawn@.len() ==> drawn@[a] < drawn@[b],
                    forall|j: int| i <= j < drawn@.len() ==> parents@[#[trigger] drawn@[j] as int] is None,
                    c <= ranked@.len(),
                    keyed@.len() == weight@.len(),
                    forall|x: (Vec<u64>, Anchor)| ranked@.contains(x) <==> keyed@.contains(x),
                    forall|k: int| 0 <= k < keyed@.len() ==> (#[trigger] keyed@[k]).1 == weight@[k].0,
                    forall|k: int| 0 <= k < weight@.len() ==> (#[trigger] weight@[k]).0 != seat
                        && !(weight@[k].0 is More),
                    match chosen {
                        Some(a) => a != seat && !(a is More) && !crate::data_model::reaches(parents@, a, id),
                        None => true,
                    },
                decreases ranked.len() - c,
            {
                let holder = ranked[c].1;
                proof {
                    assert(ranked@.contains(ranked@[c as int]));
                    let w = choose|w: int| 0 <= w < keyed@.len() && keyed@[w] == ranked@[c as int];
                    assert(keyed@[w].1 == weight@[w].0);
                    assert(holder == weight@[w].0);
                    assert(holder != seat && !(holder is More));
                }
                if !would_cycle(id, holder, &parents, Ghost(depth)) {
                    chosen = Some(holder);
                }
                c = c + 1;
            }
            if chosen.is_some() {
                proof {
                    crate::data_model::lemma_reseat(parents@, depth, id as int, chosen->Some_0);
                    depth = crate::data_model::reseat_depth(parents@, depth, id as int, chosen->Some_0);
                }
                parents.set(id as usize, chosen);
                proof {
                    assert forall|j: int| i + 1 <= j < drawn@.len() implies parents@[#[trigger] drawn@[j] as int] is None by {
                        assert(drawn@[i as int] < drawn@[j]);
                    }
                }
            }
        }
        i = i + 1;
    }
    proof {
        crate::data_model::lemma_ranked_acyclic(parents@, depth);
    }
    parents
}

/// The seat chosen for a mark, by id.
pub open spec fn parent_at(parents: Seq<Option<Anchor>>, id: u32) -> Option<Anchor> {
    if (id as int) < parents.len() { parents[id as int] } else { None }
}

/// The drawn marks seated under `a`, in the survey's order.
pub open spec fn spec_kids(drawn: Seq<u32>, parents: Seq<Option<Anchor>>, a: Anchor) -> Seq<u32> {
    drawn.filter(|id: u32| parent_at(parents, id) == Some(a))
}

/// The seats a mark's subtree carries, itself included, growing at most
/// `fuel` layers down.
pub open spec fn spec_subtree_size(drawn: Seq<u32>, parents: Seq<Option<Anchor>>, a: Anchor, fuel: nat) -> nat
    decreases fuel, 0nat,
{
    1 + if fuel == 0 {
        0
    } else {
        kids_size(drawn, parents, spec_kids(drawn, parents, a), (fuel - 1) as nat)
    }
}

pub open spec fn kids_size(drawn: Seq<u32>, parents: Seq<Option<Anchor>>, kids: Seq<u32>, fuel: nat) -> nat
    decreases fuel, 1nat, kids.len(),
{
    if kids.len() == 0 {
        0
    } else {
        kids_size(drawn, parents, kids.drop_last(), fuel) + spec_subtree_size(
            drawn,
            parents,
            Anchor::Mark(kids.last()),
            fuel,
        )
    }
}

/// A seat grown the way a frame's forest grows it: its children are the
/// marks seated under it, in order, each grown the same way, `fuel` layers
/// deep.
pub open spec fn grown(s: Seat, drawn: Seq<u32>, parents: Seq<Option<Anchor>>, fuel: nat) -> bool
    decreases fuel,
{
    let kids = spec_kids(drawn, parents, s.anchor);
    if fuel == 0 {
        s.children@.len() == 0
    } else {
        &&& s.children@.len() == kids.len()
        &&& forall|k: int| 0 <= k < kids.len() ==> (#[trigger] s.children@[k]).anchor == Anchor::Mark(kids[k])
        &&& forall|k: int| 0 <= k < kids.len() ==> grown(#[trigger] s.children@[k], drawn, parents, (fuel - 1) as nat)
    }
}

fn kids_of(drawn: &Vec<u32>, parents: &Vec<Option<Anchor>>, a: Anchor) -> (kids: Vec<u32>)
    ensures
        kids@ == spec_kids(drawn@, parents@, a),
{
    let mut kids: Vec<u32> = Vec::new();
    let mut i: usize = 0;
    while i < drawn.len()
        invariant
            i <= drawn@.len(),
            kids@ == spec_kids(drawn@.take(i as int), parents@, a),
        decreases drawn.len() - i,
    {
        let id = drawn[i];
        let p = if (id as usize) < parents.len() { parents[id as usize] } else { None };
        proof {
            assert(drawn@.take(i + 1).drop_last() =~= drawn@.take(i as int));
            reveal(Seq::filter);
        }
        if p == Some(a) {
            kids.push(id);
        }
        i = i + 1;
    }
    assert(drawn@.take(drawn@.len() as int) =~= drawn@);
    kids
}

/// How many seats a mark carries, itself included: a frame reads biggest
/// tree first. Saturates where the count would not fit.
fn subtree_size(a: Anchor, drawn: &Vec<u32>, parents: &Vec<Option<Anchor>>, fuel: usize) -> (n: u64)
    ensures
        n as nat == if spec_subtree_size(drawn@, parents@, a, fuel as nat) < u64::MAX {
            spec_subtree_size(drawn@, parents@, a, fuel as nat)
        } else {
            u64::MAX as nat
        },
    decreases fuel, 0nat,
{
    if fuel == 0 {
        return 1;
    }
    let kids = kids_of(drawn, parents, a);
    let under = kids_sum(&kids, drawn, parents, fuel - 1, kids.len());
    assert(kids@.take(kids@.len() as int) =~= kids@);
    if under < u64::MAX {
        under + 1
    } else {
        u64::MAX
    }
}

fn kids_sum(kids: &Vec<u32>, drawn: &Vec<u32>, parents: &Vec<Option<Anchor>>, fuel: usize, upto: usize) -> (n: u64)
    requires
        upto <= kids@.len(),
    ensures
        n as nat == if kids_size(drawn@, parents@, kids@.take(upto as int), fuel as nat) < u64::MAX {
            kids_size(drawn@, parents@, kids@.take(upto as int), fuel as nat)
        } else {
            u64::MAX as nat
        },
    decreases fuel, 1nat, upto,
{
    if upto == 0 {
        return 0;
    }
    assert(kids@.take(upto as int).drop_last() =~= kids@.take(upto - 1));
    let before = kids_sum(kids, drawn, parents, fuel, upto - 1);
    let last = subtree_size(Anchor::Mark(kids[upto - 1]), drawn, parents, fuel);
    if before as u128 + last as u128 >= u64::MAX as u128 {
        u64::MAX
    } else {
        before + last
    }
}

/// Grow one seat and everything seated under it, `fuel` layers deep.
fn seat_of(a: Anchor, drawn: &Vec<u32>, parents: &Vec<Option<Anchor>>, fuel: usize) -> (s: Seat)
    ensures
        s.anchor == a,
        grown(s, drawn@, parents@, fuel as nat),
    decreases fuel,
{
    if fuel == 0 {
        return Seat::leaf(a);
    }
    let kids = kids_of(drawn, parents, a);
    let mut children: Vec<Seat> = Vec::new();
    let mut k: usize = 0;
    while k < kids.len()
        invariant
            k <= kids@.len(),
            fuel > 0,
            kids@ == spec_kids(drawn@, parents@, a),
            children@.len() == k,
            forall|q: int| 0 <= q < k ==> (#[trigger] children@[q]).anchor == Anchor::Mark(kids@[q]),
            forall|q: int| 0 <= q < k ==> grown(#[trigger] children@[q], drawn@, parents@, (fuel - 1) as nat),
        decreases kids.len() - k,
    {
        let child = seat_of(Anchor::Mark(kids[k]), drawn, parents, fuel - 1);
        children.push(child);
        k = k + 1;
    }
    let s = Seat { anchor: a, children };
    s
}

/// Whether a character is a letter or a digit, as `char::is_alphanumeric`
/// reads the Unicode tables.
pub uninterp spec fn alphanumeric(c: char) -> bool;

/// Calls `char::is_alphanumeric`; the result is named, as a function of the
/// character alone.
#[verifier::external_body]
fn is_alphanumeric(c: char) -> (b: bool)
    ensures
        b == alphanumeric(c),
{
    c.is_alphanumeric()
}

/// The leading run of name characters in a written variant: `Some(u32)`
/// files its edge under `Some`.
pub open spec fn name_char(c: char) -> bool {
    alphanumeric(c) || c == '_'
}

pub open spec fn leading_name(s: Seq<char>) -> Seq<char>
    decreases s.len(),
{
    if s.len() > 0 && name_char(s[0]) {
        seq![s[0]] + leading_name(s.drop_first())
    } else {
        Seq::empty()
    }
}

fn vname(written: &str) -> (name: String)
    ensures
        name@ == leading_name(written@),
{
    let v = crate::paths::chars_of(written);
    let mut name = String::new();
    let mut i: usize = 0;
    assert(v@.skip(0) =~= v@);
    while i < v.len() && (is_alphanumeric(v[i]) || v[i] == '_')
        invariant
            i <= v@.len(),
            v@ == written@,
            leading_name(written@) == name@ + leading_name(v@.skip(i as int)),
        decreases v.len() - i,
    {
        assert(v@.skip(i as int).drop_first() =~= v@.skip(i + 1));
        assert(v@.skip(i as int)[0] == v@[i as int]);
        crate::text::push_char(&mut name, v[i]);
        i = i + 1;
        assert(name@ + leading_name(v@.skip(i as int)) =~= leading_name(written@));
    }
    name
}

/// What a target table says of (mark, name): the text of its first entry
/// filed under them.
pub open spec fn table_lookup(table: Seq<(u32, String, String)>, id: u32, name: Seq<char>) -> Option<Seq<char>>
    decreases table.len(),
{
    if table.len() == 0 {
        None
    } else if table[0].0 == id && table[0].1@ == name {
        Some(table[0].2@)
    } else {
        table_lookup(table.drop_first(), id, name)
    }
}

/// A lookup past one more entry: the earlier answer, else the new entry's.
proof fn lemma_lookup_push(table: Seq<(u32, String, String)>, e: (u32, String, String), id: u32, name: Seq<char>)
    ensures
        table_lookup(table.push(e), id, name) == match table_lookup(table, id, name) {
            Some(t) => Some(t),
            None => if e.0 == id && e.1@ == name { Some(e.2@) } else { None },
        },
    decreases table.len(),
{
    let t2 = table.push(e);
    if table.len() > 0 {
        assert(t2.drop_first() =~= table.drop_first().push(e));
        assert(t2[0] == table[0]);
        lemma_lookup_push(table.drop_first(), e, id, name);
        if table[0].0 == id && table[0].1@ == name {
            assert(table_lookup(t2, id, name) == Some(table[0].2@));
        } else {
            assert(table_lookup(t2, id, name) == table_lookup(t2.drop_first(), id, name));
            assert(table_lookup(table, id, name) == table_lookup(table.drop_first(), id, name));
        }
    } else {
        assert(t2.drop_first() =~= Seq::<(u32, String, String)>::empty());
        assert(t2[0] == e);
        assert(table_lookup(table, id, name) is None);
    }
}

/// The text filed under (mark, name), or nothing.
pub open spec fn target_text(table: Seq<(u32, String, String)>, id: u32, name: Seq<char>) -> Seq<char> {
    match table_lookup(table, id, name) {
        Some(t) => t,
        None => Seq::empty(),
    }
}

/// The row text of the first holds edge that files a field under
/// (mark, name): the name of the workspace type it reaches.
fn target_of(table: &Vec<(u32, String, String)>, id: u32, name: &String) -> (s: String)
    ensures
        s@ == target_text(table@, id, name@),
{
    let mut i: usize = 0;
    assert(table@.skip(0) =~= table@);
    while i < table.len()
        invariant
            i <= table@.len(),
            table_lookup(table@, id, name@) == table_lookup(table@.skip(i as int), id, name@),
        decreases table.len() - i,
    {
        assert(table@.skip(i as int)[0] == table@[i as int]);
        assert(table@.skip(i as int).drop_first() =~= table@.skip(i + 1));
        if table[i].0 == id && table[i].1.eq(name) {
            return table[i].2.clone();
        }
        i = i + 1;
    }
    String::new()
}

/// Edge `e` files field `name` of mark `id` when `id` is drawn and one of
/// its fields, among the first `upto`, is so named.
pub open spec fn edge_files(flags: Seq<bool>, e: crate::wire::HoldEdge, id: u32, name: Seq<char>, upto: int) -> bool {
    &&& e.from == id
    &&& (id as int) < flags.len() && flags[id as int]
    &&& exists|f: int| 0 <= f < upto && f < e.fields@.len() && (#[trigger] e.fields@[f]).0@ == name
}

/// The name of the type the first edge filing (mark, name) reaches.
pub open spec fn hold_target(graph: CodeGraph, flags: Seq<bool>, edges: Seq<crate::wire::HoldEdge>, id: u32, name: Seq<char>) -> Option<Seq<char>>
    decreases edges.len(),
{
    if edges.len() == 0 {
        None
    } else {
        match hold_target(graph, flags, edges.drop_last(), id, name) {
            Some(t) => Some(t),
            None => if edge_files(flags, edges.last(), id, name, edges.last().fields@.len() as int) {
                Some(spec_name_of(graph, edges.last().to))
            } else {
                None
            },
        }
    }
}

/// Every (mark, field) a drawn mark's holds edges file, with the name of
/// the type its first such edge reaches.
fn targets(graph: &CodeGraph, drawn_flag: &Vec<bool>) -> (table: Vec<(u32, String, String)>)
    ensures
        forall|id: u32, name: Seq<char>| #[trigger] table_lookup(table@, id, name) == hold_target(*graph, drawn_flag@, graph.holds@, id, name),
{
    let mut table: Vec<(u32, String, String)> = Vec::new();
    let mut i: usize = 0;
    let ghost edges = graph.holds@;
    while i < graph.holds.len()
        invariant
            i <= graph.holds@.len(),
            edges == graph.holds@,
            forall|id: u32, name: Seq<char>| #[trigger] table_lookup(table@, id, name) == hold_target(*graph, drawn_flag@, edges.take(i as int), id, name),
        decreases graph.holds.len() - i,
    {
        let edge = &graph.holds[i];
        let ghost pre = edges.take(i as int);
        proof {
            assert(edges.take(i + 1).drop_last() =~= pre);
            assert(edges.take(i + 1).last() == edges[i as int]);
        }
        if (edge.from as usize) < drawn_flag.len() && drawn_flag[edge.from as usize] {
            let target = name_of(graph, edge.to);
            let mut f: usize = 0;
            while f < edge.fields.len()
                invariant
                    f <= edge.fields@.len(),
                    *edge == edges[i as int],
                    (edge.from as int) < drawn_flag@.len() && drawn_flag@[edge.from as int],
                    target@ == spec_name_of(*graph, edge.to),
                    forall|id: u32, name: Seq<char>| #[trigger] table_lookup(table@, id, name) == match hold_target(*graph, drawn_flag@, pre, id, name) {
                        Some(t) => Some(t),
                        None => if edge_files(drawn_flag@, *edge, id, name, f as int) { Some(target@) } else { None },
                    },
                decreases edge.fields.len() - f,
            {
                let name = &edge.fields[f].0;
                let mut known = false;
                let mut q: usize = 0;
                while q < table.len()
                    invariant
                        q <= table@.len(),
                        known == exists|k: int| 0 <= k < q && table@[k].0 == edge.from && table@[k].1@ == name@,
                    decreases table.len() - q,
                {
                    if table[q].0 == edge.from && table[q].1.eq(name) {
                        known = true;
                    }
                    q = q + 1;
                }
                let ghost before = table@;
                if !known {
                    proof {
                        lemma_lookup_none(before, edge.from, name@);
                    }
                    table.push((edge.from, name.clone(), target.clone()));
                }
                proof {
                    assert forall|id: u32, nm: Seq<char>| #[trigger] table_lookup(table@, id, nm) == match hold_target(*graph, drawn_flag@, pre, id, nm) {
                        Some(t) => Some(t),
                        None => if edge_files(drawn_flag@, *edge, id, nm, f + 1) { Some(target@) } else { None },
                    } by {
                        if !known {
                            lemma_lookup_push(before, table@.last(), id, nm);
                            assert(before.push(table@.last()) =~= table@);
                        }
                        if edge_files(drawn_flag@, *edge, id, nm, f + 1) && !edge_files(drawn_flag@, *edge, id, nm, f as int) {
                            let w = choose|w: int| 0 <= w < f + 1 && w < edge.fields@.len() && (#[trigger] edge.fields@[w]).0@ == nm;
                            assert(w == f);
                        }
                        if edge_files(drawn_flag@, *edge, id, nm, f as int) {
                            let w = choose|w: int| 0 <= w < f && w < edge.fields@.len() && (#[trigger] edge.fields@[w]).0@ == nm;
                            assert(edge_files(drawn_flag@, *edge, id, nm, f + 1));
                        }
                        if known && id == edge.from && nm == name@ {
                            let k = choose|k: int| 0 <= k < before.len() && before[k].0 == edge.from && before[k].1@ == name@;
                            lemma_lookup_some(before, k, id, nm);
                        }
                    }
                }
                f = f + 1;
            }
        }
        proof {
            assert forall|id: u32, name: Seq<char>| #[trigger] table_lookup(table@, id, name) == hold_target(*graph, drawn_flag@, edges.take(i + 1), id, name) by {
                if !((edges[i as int].from as int) < drawn_flag@.len() && drawn_flag@[edges[i as int].from as int]) {
                    assert(!edge_files(drawn_flag@, edges[i as int], id, name, edges[i as int].fields@.len() as int));
                }
            }
        }
        i = i + 1;
    }
    assert(edges.take(edges.len() as int) =~= edges);
    table
}

/// A table where no entry is filed under (mark, name) says nothing of them.
proof fn lemma_lookup_none(table: Seq<(u32, String, String)>, id: u32, name: Seq<char>)
    requires
        !exists|k: int| 0 <= k < table.len() && table[k].0 == id && table[k].1@ == name,
    ensures
        table_lookup(table, id, name) is None,
    decreases table.len(),
{
    if table.len() > 0 {
        assert(!exists|k: int| 0 <= k < table.drop_first().len() && table.drop_first()[k].0 == id && table.drop_first()[k].1@ == name) by {
            if exists|k: int| 0 <= k < table.drop_first().len() && table.drop_first()[k].0 == id && table.drop_first()[k].1@ == name {
                let k = choose|k: int| 0 <= k < table.drop_first().len() && table.drop_first()[k].0 == id && table.drop_first()[k].1@ == name;
                assert(table[k + 1] == table.drop_first()[k]);
            }
        }
        lemma_lookup_none(table.drop_first(), id, name);
    }
}

/// A table with an entry filed under (mark, name) says something of them.
proof fn lemma_lookup_some(table: Seq<(u32, String, String)>, k: int, id: u32, name: Seq<char>)
    requires
        0 <= k < table.len(),
        table[k].0 == id,
        table[k].1@ == name,
    ensures
        table_lookup(table, id, name) is Some,
    decreases table.len(),
{
    if k > 0 && !(table[0].0 == id && table[0].1@ == name) {
        assert(table.drop_first()[k - 1] == table[k]);
        lemma_lookup_some(table.drop_first(), k - 1, id, name);
    }
}

fn contains_u32(v: &Vec<u32>, x: u32) -> (b: bool)
    ensures
        b == v@.contains(x),
{
    let mut i: usize = 0;
    while i < v.len()
        invariant
            i <= v@.len(),
            forall|k: int| 0 <= k < i ==> v@[k] != x,
        decreases v.len() - i,
    {
        if v[i] == x {
            return true;
        }
        i = i + 1;
    }
    false
}

/// The dropped rows `s`, seated back into `rows` from the last to the
/// first: each at the index it stood before, clamped to the rows there are.
pub open spec fn weave_in<T>(rows: Seq<T>, s: Seq<(usize, T)>) -> Seq<T>
    decreases s.len(),
{
    if s.len() == 0 {
        rows
    } else {
        let e = s.last();
        let at = if (e.0 as int) < rows.len() { e.0 as int } else { rows.len() as int };
        weave_in(rows.insert(at, e.1), s.drop_last())
    }
}

/// `p` orders the positions of `r` by the index each row stood at, the
/// earlier entry first among equals: a stable sort by index.
pub open spec fn sorted_perm<T>(r: Seq<(usize, T)>, p: Seq<int>) -> bool {
    &&& p.len() == r.len()
    &&& forall|k: int| 0 <= k < p.len() ==> 0 <= #[trigger] p[k] < r.len()
    &&& forall|a: int, b: int| 0 <= a < b < p.len() ==> (r[#[trigger] p[a]].0 < r[#[trigger] p[b]].0 || (r[p[a]].0 == r[p[b]].0 && p[a] < p[b]))
}

/// The entries of `r` in the order `p` gives.
pub open spec fn reorder<T>(r: Seq<(usize, T)>, p: Seq<int>) -> Seq<(usize, T)> {
    Seq::new(p.len(), |k: int| r[p[k]])
}

/// Weaving commutes with reading each row through `f`.
proof fn lemma_weave_map<A, B>(rows: Seq<A>, s: Seq<(usize, A)>, f: spec_fn(A) -> B)
    ensures
        weave_in(rows, s).map_values(f) == weave_in(rows.map_values(f), s.map_values(|e: (usize, A)| (e.0, f(e.1)))),
    decreases s.len(),
{
    if s.len() > 0 {
        let e = s.last();
        let at = if (e.0 as int) < rows.len() { e.0 as int } else { rows.len() as int };
        lemma_weave_map(rows.insert(at, e.1), s.drop_last(), f);
        assert(rows.insert(at, e.1).map_values(f) =~= rows.map_values(f).insert(at, f(e.1)));
        assert(s.drop_last().map_values(|e: (usize, A)| (e.0, f(e.1))) =~= s.map_values(|e: (usize, A)| (e.0, f(e.1))).drop_last());
    }
}

/// The base's dropped rows, seated back where they stood: each at the index
/// it stood before, clamped to the rows there are, inserted back to front so
/// that every recorded index still means what it meant.
fn weave(rows: Vec<FieldRow>, removed: Vec<(usize, FieldRow)>) -> (out: Vec<FieldRow>)
    ensures
        out@.len() == rows@.len() + removed@.len(),
        exists|p: Seq<int>| #[trigger] sorted_perm(removed@, p) && out@ == weave_in(rows@, reorder(removed@, p)),
{
    let ghost orig = removed@;
    let mut keyed: Vec<(Vec<u64>, (usize, FieldRow))> = Vec::new();
    let mut removed = removed;
    let ghost total = removed@.len();
    let mut rev: Vec<(usize, FieldRow)> = Vec::new();
    while removed.len() > 0
        invariant
            removed@.len() + rev@.len() == total,
            total == orig.len(),
            removed@ == orig.take(removed@.len() as int),
            forall|k: int| 0 <= k < rev@.len() ==> #[trigger] rev@[k] == orig[total - 1 - k],
        decreases removed.len(),
    {
        let ghost before = removed@;
        let e = removed.pop().unwrap();
        proof {
            assert(before =~= removed@.push(e));
            assert(removed@ =~= orig.take(removed@.len() as int));
            assert(orig[removed@.len() as int] == e);
        }
        rev.push(e);
    }
    while rev.len() > 0
        invariant
            keyed@.len() + rev@.len() == total,
            total == orig.len(),
            forall|k: int| 0 <= k < rev@.len() ==> #[trigger] rev@[k] == orig[total - 1 - k],
            forall|k: int| 0 <= k < keyed@.len() ==> (#[trigger] keyed@[k]).1 == orig[k] && keyed@[k].0@ == seq![orig[k].0 as u64, k as u64],
        decreases rev.len(),
    {
        let ghost at = keyed@.len();
        let e = rev.pop().unwrap();
        proof {
            assert(e == orig[at as int]);
        }
        let mut k: Vec<u64> = Vec::new();
        k.push(e.0 as u64);
        k.push(keyed.len() as u64);
        keyed.push((k, e));
    }
    let klen = keyed.len();
    let ghost kv = keyed@;
    let sorted_keyed = sort_by_key(keyed);
    let ghost sk = sorted_keyed@;
    proof {
        crate::sort::lemma_same_entries(sk, kv);
        assert(kv.no_duplicates()) by {
            assert forall|a: int, b: int| 0 <= a < kv.len() && 0 <= b < kv.len() && a != b implies kv[a] != kv[b] by {
                assert(kv[a].0@[1] == a as u64 && kv[b].0@[1] == b as u64);
                assert(a < klen && b < klen);
                assert(a as u64 != b as u64);
            }
        }
        crate::sort::lemma_no_dup_moves(kv, sk);
    }
    let sorted = crate::sort::values_of(sorted_keyed);
    let ghost p = Seq::new(sk.len(), |k: int| sk[k].0@[1] as int);
    proof {
        assert forall|k: int| 0 <= k < sk.len() implies (#[trigger] sk[k]) == kv[p[k]] && 0 <= p[k] < orig.len() by {
            assert(sk.contains(sk[k]));
            let w = choose|w: int| 0 <= w < kv.len() && kv[w] == sk[k];
            assert(w < klen);
            assert(sk[k].0@[1] == w as u64);
            assert(p[k] == w);
        }
        assert(sorted_perm(orig, p)) by {
            assert forall|a: int, b: int| 0 <= a < b < p.len() implies (orig[#[trigger] p[a]].0 < orig[#[trigger] p[b]].0 || (orig[p[a]].0 == orig[p[b]].0 && p[a] < p[b])) by {
                assert(sk[a] == kv[p[a]] && sk[b] == kv[p[b]]);
                assert(crate::sort::lex_le(sk[a].0@, sk[b].0@));
                assert(sk[a] != sk[b]);
                reveal_with_fuel(crate::sort::lex_le, 3);
                let ka = sk[a].0@;
                let kb = sk[b].0@;
                assert(ka.drop_first() =~= seq![p[a] as u64]);
                assert(kb.drop_first() =~= seq![p[b] as u64]);
                assert(ka.drop_first().drop_first() =~= Seq::<u64>::empty());
                assert(kb.drop_first().drop_first() =~= Seq::<u64>::empty());
            }
        }
        assert(sorted@ =~= reorder(orig, p)) by {
            assert forall|k: int| 0 <= k < sorted@.len() implies sorted@[k] == reorder(orig, p)[k] by {
                assert(sk[k] == kv[p[k]]);
            }
        }
    }
    let mut rows = rows;
    let mut sorted = sorted;
    let ghost base = rows@.len();
    let ghost want = weave_in(rows@, reorder(orig, p));
    while sorted.len() > 0
        invariant
            rows@.len() + sorted@.len() == base + total,
            weave_in(rows@, sorted@) == want,
        decreases sorted.len(),
    {
        let ghost sb = sorted@;
        let ghost rb = rows@;
        let (before, row) = sorted.pop().unwrap();
        proof {
            assert(sb.last() == (before, row));
            assert(sb.drop_last() =~= sorted@);
        }
        let at = if before < rows.len() { before } else { rows.len() };
        rows.insert(at, row);
        proof {
            assert(rows@ == rb.insert(at as int, row));
        }
    }
    rows
}

/// A quoted row as plain values: its name, its declaration, the type it
/// bolds, its diff state.
pub open spec fn field_view(r: FieldRow) -> (Seq<char>, Seq<char>, Seq<char>, RowState) {
    (r.name@, r.decl@, r.target@, r.state)
}

/// A dropped row and where it stood, as plain values.
pub open spec fn dropped_view(e: (usize, FieldRow)) -> (usize, (Seq<char>, Seq<char>, Seq<char>, RowState)) {
    (e.0, field_view(e.1))
}

/// Row `at` of a list the diff says what of: added where it is listed.
pub open spec fn row_state(added: Seq<u32>, at: int) -> RowState {
    if at <= u32::MAX && added.contains(at as u32) { RowState::Added } else { RowState::Same }
}

/// The field rows of an item as written, each bolding what its name files.
pub open spec fn spec_field_rows(table: Seq<(u32, String, String)>, id: u32, mark: ItemMark) -> Seq<(Seq<char>, Seq<char>, Seq<char>, RowState)> {
    Seq::new(
        mark.field_rows@.len(),
        |at: int|
            (
                mark.field_rows@[at].0@,
                mark.field_rows@[at].1@,
                target_text(table, id, mark.field_rows@[at].0@),
                row_state(mark.fields_added@, at),
            ),
    )
}

/// The field rows the base had and the item dropped, with where each stood.
pub open spec fn spec_dropped_fields(table: Seq<(u32, String, String)>, id: u32, mark: ItemMark) -> Seq<(usize, (Seq<char>, Seq<char>, Seq<char>, RowState))> {
    Seq::new(
        mark.fields_removed@.len(),
        |q: int|
            (
                mark.fields_removed@[q].0 as usize,
                (
                    mark.fields_removed@[q].1@,
                    mark.fields_removed@[q].2@,
                    target_text(table, id, mark.fields_removed@[q].1@),
                    RowState::Removed,
                ),
            ),
    )
}

/// The variant rows of an item as written, each bolding what its name files.
pub open spec fn spec_variant_rows(table: Seq<(u32, String, String)>, id: u32, mark: ItemMark) -> Seq<(Seq<char>, Seq<char>, Seq<char>, RowState)> {
    Seq::new(
        mark.variants@.len(),
        |at: int|
            (
                Seq::<char>::empty(),
                mark.variants@[at]@,
                target_text(table, id, leading_name(mark.variants@[at]@)),
                row_state(mark.variants_added@, at),
            ),
    )
}

/// The variant rows the base had and the item dropped, with where each
/// stood.
pub open spec fn spec_dropped_variants(table: Seq<(u32, String, String)>, id: u32, mark: ItemMark) -> Seq<(usize, (Seq<char>, Seq<char>, Seq<char>, RowState))> {
    Seq::new(
        mark.variants_removed@.len(),
        |q: int|
            (
                mark.variants_removed@[q].0 as usize,
                (
                    Seq::<char>::empty(),
                    mark.variants_removed@[q].1@,
                    target_text(table, id, leading_name(mark.variants_removed@[q].1@)),
                    RowState::Removed,
                ),
            ),
    )
}

/// What weaving says of the rows, read as plain values.
proof fn lemma_weave_view(rows: Seq<FieldRow>, removed: Seq<(usize, FieldRow)>, out: Seq<FieldRow>, p: Seq<int>)
    requires
        sorted_perm(removed, p),
        out == weave_in(rows, reorder(removed, p)),
    ensures
        sorted_perm(removed.map_values(|e: (usize, FieldRow)| dropped_view(e)), p),
        out.map_values(|r: FieldRow| field_view(r)) == weave_in(
            rows.map_values(|r: FieldRow| field_view(r)),
            reorder(removed.map_values(|e: (usize, FieldRow)| dropped_view(e)), p),
        ),
{
    let f = |r: FieldRow| field_view(r);
    lemma_weave_map(rows, reorder(removed, p), f);
    let lhs = reorder(removed, p).map_values(|e: (usize, FieldRow)| (e.0, f(e.1)));
    let rhs = reorder(removed.map_values(|e: (usize, FieldRow)| dropped_view(e)), p);
    assert(lhs =~= rhs);
    assert(rows.map_values(f) =~= rows.map_values(|r: FieldRow| field_view(r)));
    assert(out.map_values(f) =~= out.map_values(|r: FieldRow| field_view(r)));
}

/// An item's field rows as written, with the base's dropped rows woven back
/// where they stood.
fn quote_fields(graph: &CodeGraph, table: &Vec<(u32, String, String)>, id: u32, mark: &ItemMark) -> (out: Vec<FieldRow>)
    ensures
        exists|p: Seq<int>|
            #[trigger] sorted_perm(spec_dropped_fields(table@, id, *mark), p) && out@.map_values(|r: FieldRow| field_view(r))
                == weave_in(spec_field_rows(table@, id, *mark), reorder(spec_dropped_fields(table@, id, *mark), p)),
{
    let mut fields: Vec<FieldRow> = Vec::new();
    let mut at: usize = 0;
    while at < mark.field_rows.len()
        invariant
            at <= mark.field_rows@.len(),
            fields@.len() == at,
            forall|k: int| 0 <= k < at ==> field_view(#[trigger] fields@[k]) == spec_field_rows(table@, id, *mark)[k],
        decreases mark.field_rows.len() - at,
    {
        let (name, decl) = (&mark.field_rows[at].0, &mark.field_rows[at].1);
        let added = (at as u64) <= (u32::MAX as u64) && contains_u32(&mark.fields_added, at as u32);
        fields.push(FieldRow {
            name: name.clone(),
            decl: decl.clone(),
            target: target_of(table, id, name),
            state: if added { RowState::Added } else { RowState::Same },
        });
        at = at + 1;
    }
    let mut dropped: Vec<(usize, FieldRow)> = Vec::new();
    let mut q: usize = 0;
    while q < mark.fields_removed.len()
        invariant
            q <= mark.fields_removed@.len(),
            dropped@.len() == q,
            forall|k: int| 0 <= k < q ==> dropped_view(#[trigger] dropped@[k]) == spec_dropped_fields(table@, id, *mark)[k],
        decreases mark.fields_removed.len() - q,
    {
        let r = &mark.fields_removed[q];
        dropped.push((r.0 as usize, FieldRow {
            name: r.1.clone(),
            decl: r.2.clone(),
            target: target_of(table, id, &r.1),
            state: RowState::Removed,
        }));
        q = q + 1;
    }
    let ghost fv = fields@;
    let ghost dv = dropped@;
    let out = weave(fields, dropped);
    proof {
        let p = choose|p: Seq<int>| #[trigger] sorted_perm(dv, p) && out@ == weave_in(fv, reorder(dv, p));
        lemma_weave_view(fv, dv, out@, p);
        assert(fv.map_values(|r: FieldRow| field_view(r)) =~= spec_field_rows(table@, id, *mark));
        assert(dv.map_values(|e: (usize, FieldRow)| dropped_view(e)) =~= spec_dropped_fields(table@, id, *mark));
    }
    out
}

/// An enum's variant rows as written, with the base's dropped variants
/// woven back where they stood.
fn quote_variants(table: &Vec<(u32, String, String)>, id: u32, mark: &ItemMark) -> (out: Vec<FieldRow>)
    ensures
        exists|p: Seq<int>|
            #[trigger] sorted_perm(spec_dropped_variants(table@, id, *mark), p) && out@.map_values(|r: FieldRow| field_view(r))
                == weave_in(spec_variant_rows(table@, id, *mark), reorder(spec_dropped_variants(table@, id, *mark), p)),
{
    let mut rows: Vec<FieldRow> = Vec::new();
    let mut at: usize = 0;
    while at < mark.variants.len()
        invariant
            at <= mark.variants@.len(),
            rows@.len() == at,
            forall|k: int| 0 <= k < at ==> field_view(#[trigger] rows@[k]) == spec_variant_rows(table@, id, *mark)[k],
        decreases mark.variants.len() - at,
    {
        let written = &mark.variants[at];
        let added = (at as u64) <= (u32::MAX as u64) && contains_u32(&mark.variants_added, at as u32);
        rows.push(FieldRow {
            name: String::new(),
            decl: written.clone(),
            target: target_of(table, id, &vname(written.as_str())),
            state: if added { RowState::Added } else { RowState::Same },
        });
        at = at + 1;
    }
    let mut dropped: Vec<(usize, FieldRow)> = Vec::new();
    let mut q: usize = 0;
    while q < mark.variants_removed.len()
        invariant
            q <= mark.variants_removed@.len(),
            dropped@.len() == q,
            forall|k: int| 0 <= k < q ==> dropped_view(#[trigger] dropped@[k]) == spec_dropped_variants(table@, id, *mark)[k],
        decreases mark.variants_removed.len() - q,
    {
        let r = &mark.variants_removed[q];
        dropped.push((r.0 as usize, FieldRow {
            name: String::new(),
            decl: r.1.clone(),
            target: target_of(table, id, &vname(r.1.as_str())),
            state: RowState::Removed,
        }));
        q = q + 1;
    }
    let ghost fv = rows@;
    let ghost dv = dropped@;
    let out = weave(rows, dropped);
    proof {
        let p = choose|p: Seq<int>| #[trigger] sorted_perm(dv, p) && out@ == weave_in(fv, reorder(dv, p));
        lemma_weave_view(fv, dv, out@, p);
        assert(fv.map_values(|r: FieldRow| field_view(r)) =~= spec_variant_rows(table@, id, *mark));
        assert(dv.map_values(|e: (usize, FieldRow)| dropped_view(e)) =~= spec_dropped_variants(table@, id, *mark));
    }
    out
}

/// A ghost's field and variant rows, as the base wrote them.
fn quote_ghost_rows(table: &Vec<(u32, String, String)>, g: &GhostMark) -> (out: (Vec<FieldRow>, Vec<FieldRow>))
    ensures
        out.0@.len() == g.field_rows@.len(),
        forall|k: int| 0 <= k < out.0@.len() ==> field_view(#[trigger] out.0@[k]) == (
            g.field_rows@[k].0@,
            g.field_rows@[k].1@,
            target_text(table@, g.id, g.field_rows@[k].0@),
            RowState::Same,
        ),
        out.1@.len() == g.variants@.len(),
        forall|k: int| 0 <= k < out.1@.len() ==> field_view(#[trigger] out.1@[k]) == (
            Seq::<char>::empty(),
            g.variants@[k]@,
            target_text(table@, g.id, leading_name(g.variants@[k]@)),
            RowState::Same,
        ),
{
    let mut fields: Vec<FieldRow> = Vec::new();
    let mut at: usize = 0;
    while at < g.field_rows.len()
        invariant
            at <= g.field_rows@.len(),
            fields@.len() == at,
            forall|k: int| 0 <= k < at ==> field_view(#[trigger] fields@[k]) == (
                g.field_rows@[k].0@,
                g.field_rows@[k].1@,
                target_text(table@, g.id, g.field_rows@[k].0@),
                RowState::Same,
            ),
        decreases g.field_rows.len() - at,
    {
        let (name, decl) = (&g.field_rows[at].0, &g.field_rows[at].1);
        fields.push(FieldRow {
            name: name.clone(),
            decl: decl.clone(),
            target: target_of(table, g.id, name),
            state: RowState::Same,
        });
        at = at + 1;
    }
    let mut variants: Vec<FieldRow> = Vec::new();
    let mut at: usize = 0;
    while at < g.variants.len()
        invariant
            at <= g.variants@.len(),
            variants@.len() == at,
            forall|k: int| 0 <= k < at ==> field_view(#[trigger] variants@[k]) == (
                Seq::<char>::empty(),
                g.variants@[k]@,
                target_text(table@, g.id, leading_name(g.variants@[k]@)),
                RowState::Same,
            ),
        decreases g.variants.len() - at,
    {
        let written = &g.variants[at];
        variants.push(FieldRow {
            name: String::new(),
            decl: written.clone(),
            target: target_of(table, g.id, &vname(written.as_str())),
            state: RowState::Same,
        });
        at = at + 1;
    }
    (fields, variants)
}

/// The marks the roster seats in frame `f`, in roster order.
pub open spec fn roster_marks(roster: Seq<(u32, u32)>, f: u32) -> Seq<u32>
    decreases roster.len(),
{
    if roster.len() == 0 {
        Seq::empty()
    } else {
        let rest = roster_marks(roster.drop_last(), f);
        if roster.last().0 == f { rest.push(roster.last().1) } else { rest }
    }
}

fn roster_of(roster: &Vec<(u32, u32)>, f: u32) -> (marks: Vec<u32>)
    ensures
        marks@.len() <= roster@.len(),
        marks@ == roster_marks(roster@, f),
{
    let mut marks: Vec<u32> = Vec::new();
    let mut i: usize = 0;
    while i < roster.len()
        invariant
            i <= roster@.len(),
            marks@.len() <= i,
            marks@ == roster_marks(roster@.take(i as int), f),
        decreases roster.len() - i,
    {
        assert(roster@.take(i + 1).drop_last() =~= roster@.take(i as int));
        assert(roster@.take(i + 1).last() == roster@[i as int]);
        if roster[i].0 == f {
            marks.push(roster[i].1);
        }
        i = i + 1;
    }
    assert(roster@.take(roster@.len() as int) =~= roster@);
    marks
}

/// A mark that reads as vocabulary: a type whose fan-in folds to a count.
pub open spec fn is_vocab(graph: CodeGraph, folds: Seq<(Anchor, u32, u32)>, m: u32) -> bool {
    is_folded(folds, Anchor::Mark(m)) && !spec_is_fn_id(graph, m)
}

/// A mark that tops a tree of its frame: not a function, not vocabulary,
/// and seated under nothing.
pub open spec fn is_root(graph: CodeGraph, folds: Seq<(Anchor, u32, u32)>, parents: Seq<Option<Anchor>>, m: u32) -> bool {
    !spec_is_fn_id(graph, m) && !is_vocab(graph, folds, m) && parent_at(parents, m) is None
}

/// Marks that are functions, as a filter.
pub open spec fn fn_pred(graph: CodeGraph) -> spec_fn(u32) -> bool {
    |m: u32| spec_is_fn_id(graph, m)
}

/// Marks that read as vocabulary, as a filter.
pub open spec fn vocab_pred(graph: CodeGraph, folds: Seq<(Anchor, u32, u32)>) -> spec_fn(u32) -> bool {
    |m: u32| is_vocab(graph, folds, m)
}

/// Marks that top a tree, as a filter.
pub open spec fn root_pred(graph: CodeGraph, folds: Seq<(Anchor, u32, u32)>, parents: Seq<Option<Anchor>>) -> spec_fn(u32) -> bool {
    |m: u32| is_root(graph, folds, parents, m)
}

/// The order trees read in: statics first, then the biggest tree (its size
/// capped at the largest key), then by id.
pub open spec fn root_key(graph: CodeGraph, drawn: Seq<u32>, parents: Seq<Option<Anchor>>, fuel: nat, m: u32) -> Seq<u64> {
    let size = spec_subtree_size(drawn, parents, Anchor::Mark(m), fuel);
    let capped: nat = if size < u64::MAX { size } else { u64::MAX as nat };
    seq![
        if spec_kind_of(graph, m) == Some(ItemKind::Static) { 0u64 } else { 1u64 },
        (u64::MAX - capped) as u64,
        m as u64,
    ]
}

/// A frame's forest: the tree tops `roots` (the root marks, each as often as
/// it is among the marks, ordered by [`root_key`]) grown, then a leaf for
/// each function mark, then one for each vocabulary mark, both in mark
/// order, then the grown `private` row where there are private types, then
/// the grown `more` row where the budget folded some.
pub open spec fn forest_fits(
    graph: CodeGraph,
    f: u32,
    marks: Seq<u32>,
    private: u32,
    more: u32,
    drawn: Seq<u32>,
    parents: Seq<Option<Anchor>>,
    folds: Seq<(Anchor, u32, u32)>,
    fuel: nat,
    roots: Seq<u32>,
    forest: Seq<Seat>,
) -> bool {
    let fns = marks.filter(fn_pred(graph));
    let vocab = marks.filter(vocab_pred(graph, folds));
    let n: int = (roots.len() + fns.len() + vocab.len()) as int;
    &&& roots.to_multiset() == marks.filter(root_pred(graph, folds, parents)).to_multiset()
    &&& forall|a: int, b: int| 0 <= a < b < roots.len() ==> crate::sort::lex_le(
        root_key(graph, drawn, parents, fuel, #[trigger] roots[a]),
        root_key(graph, drawn, parents, fuel, #[trigger] roots[b]),
    )
    &&& forest.len() == n + (if private > 0 { 1int } else { 0int }) + (if more > 0 { 1int } else { 0int })
    &&& forall|k: int| 0 <= k < roots.len() ==> (#[trigger] forest[k]).anchor == Anchor::Mark(roots[k])
        && grown(forest[k], drawn, parents, fuel)
    &&& forall|k: int| 0 <= k < fns.len() ==> (#[trigger] forest[roots.len() + k]).anchor == Anchor::Mark(fns[k])
        && forest[roots.len() + k].children@.len() == 0
    &&& forall|k: int| 0 <= k < vocab.len() ==> (#[trigger] forest[roots.len() + fns.len() + k]).anchor == Anchor::Mark(vocab[k])
        && forest[roots.len() + fns.len() + k].children@.len() == 0
    &&& private > 0 ==> forest[n].anchor == Anchor::Private(f) && grown(forest[n], drawn, parents, fuel)
    &&& more > 0 ==> forest[forest.len() - 1].anchor == Anchor::More(f) && grown(forest[forest.len() - 1], drawn, parents, fuel)
}

/// One frame's ownership forest, in reading order: the static register,
/// then the trees biggest first, then the free functions, then the
/// vocabulary leaves, then the counted fold rows.
#[verifier::rlimit(80)]
#[verifier::spinoff_prover]
fn forest_of(
    graph: &CodeGraph,
    f: u32,
    marks: &Vec<u32>,
    private: u32,
    more: u32,
    drawn: &Vec<u32>,
    parents: &Vec<Option<Anchor>>,
    folds: &Vec<(Anchor, u32, u32)>,
    fuel: usize,
) -> (forest: Vec<Seat>)
    ensures
        forall|k: int| 0 <= k < forest@.len() ==> grown(#[trigger] forest@[k], drawn@, parents@, fuel as nat)
            || forest@[k].children@.len() == 0,
        exists|roots: Seq<u32>| #[trigger] forest_fits(*graph, f, marks@, private, more, drawn@, parents@, folds@, fuel as nat, roots, forest@),
{
    let ghost fpred = fn_pred(*graph);
    let ghost vpred = vocab_pred(*graph, folds@);
    let ghost rpred = root_pred(*graph, folds@, parents@);
    let ghost snd = |e: (Vec<u64>, u32)| e.1;
    let mut keyed: Vec<(Vec<u64>, u32)> = Vec::new();
    let mut fns: Vec<u32> = Vec::new();
    let mut vocabulary: Vec<u32> = Vec::new();
    let mut i: usize = 0;
    while i < marks.len()
        invariant
            i <= marks@.len(),
            fns@.len() + vocabulary@.len() <= i,
            fpred == fn_pred(*graph),
            vpred == vocab_pred(*graph, folds@),
            rpred == root_pred(*graph, folds@, parents@),
            snd == (|e: (Vec<u64>, u32)| e.1),
            fns@ == marks@.take(i as int).filter(fpred),
            vocabulary@ == marks@.take(i as int).filter(vpred),
            keyed@.map_values(snd) == marks@.take(i as int).filter(rpred),
            forall|k: int| 0 <= k < keyed@.len() ==> (#[trigger] keyed@[k]).0@ == root_key(*graph, drawn@, parents@, fuel as nat, keyed@[k].1),
        decreases marks.len() - i,
    {
        let ghost kb = keyed@;
        proof {
            assert(marks@.take(i + 1).drop_last() =~= marks@.take(i as int));
            assert(marks@.take(i + 1).last() == marks@[i as int]);
            reveal(Seq::filter);
        }
        let m = marks[i];
        let is_fn = is_fn_id(graph, m);
        let vocab = fold_at(folds, Anchor::Mark(m)).is_some() && !is_fn;
        let seated = (m as usize) < parents.len() && parents[m as usize].is_some();
        proof {
            assert(vocab == is_vocab(*graph, folds@, m));
            assert(seated == (parent_at(parents@, m) is Some));
            assert(fpred(m) == is_fn);
            assert(vpred(m) == vocab);
            assert(rpred(m) == (!is_fn && !vocab && !seated));
            let t = marks@.take(i + 1);
            assert(t.filter(fpred) == if fpred(m) { t.drop_last().filter(fpred).push(m) } else { t.drop_last().filter(fpred) });
            assert(t.filter(vpred) == if vpred(m) { t.drop_last().filter(vpred).push(m) } else { t.drop_last().filter(vpred) });
            assert(t.filter(rpred) == if rpred(m) { t.drop_last().filter(rpred).push(m) } else { t.drop_last().filter(rpred) });
        }
        if is_fn {
            fns.push(m);
        } else if vocab {
            vocabulary.push(m);
        } else if !seated {
            let not_static = match kind_of(graph, m) {
                Some(ItemKind::Static) => 0u64,
                _ => 1u64,
            };
            let size = subtree_size(Anchor::Mark(m), drawn, parents, fuel);
            let mut k: Vec<u64> = Vec::new();
            k.push(not_static);
            k.push(u64::MAX - size);
            k.push(m as u64);
            proof {
                assert(k@ =~= root_key(*graph, drawn@, parents@, fuel as nat, m));
            }
            keyed.push((k, m));
            proof {
                assert(keyed@.len() == kb.len() + 1);
                assert forall|q: int| 0 <= q < keyed@.len() implies keyed@.map_values(snd)[q] == kb.map_values(snd).push(m)[q] by {
                    if q < kb.len() {
                        assert(keyed@[q] == kb[q]);
                    } else {
                        assert(keyed@[q].1 == m);
                    }
                }
                assert(keyed@.map_values(snd) =~= kb.map_values(snd).push(m));
                assert forall|q: int| 0 <= q < keyed@.len() implies (#[trigger] keyed@[q]).0@ == root_key(*graph, drawn@, parents@, fuel as nat, keyed@[q].1) by {
                    if q < kb.len() {
                        assert(keyed@[q] == kb[q]);
                    }
                }
            }
        }
        i = i + 1;
    }
    proof {
        assert(marks@.take(marks@.len() as int) =~= marks@);
    }
    let ghost kv = keyed@;
    let sorted = sort_by_key(keyed);
    let ghost sk = sorted@;
    let roots = crate::sort::values_of(sorted);
    proof {
        assert(roots@ =~= sk.map_values(snd));
        crate::sort::lemma_map_multiset(sk, kv, snd);
        crate::sort::lemma_same_entries(sk, kv);
        assert forall|a: int, b: int| 0 <= a < b < roots@.len() implies crate::sort::lex_le(
            root_key(*graph, drawn@, parents@, fuel as nat, #[trigger] roots@[a]),
            root_key(*graph, drawn@, parents@, fuel as nat, #[trigger] roots@[b]),
        ) by {
            assert(sk.contains(sk[a]));
            assert(sk.contains(sk[b]));
            let wa = choose|w: int| 0 <= w < kv.len() && kv[w] == sk[a];
            let wb = choose|w: int| 0 <= w < kv.len() && kv[w] == sk[b];
            assert(crate::sort::lex_le(sk[a].0@, sk[b].0@));
        }
    }
    let mut forest: Vec<Seat> = Vec::new();
    let mut i: usize = 0;
    while i < roots.len()
        invariant
            i <= roots@.len(),
            forest@.len() == i,
            forall|k: int| 0 <= k < forest@.len() ==> grown(#[trigger] forest@[k], drawn@, parents@, fuel as nat),
            forall|k: int| 0 <= k < forest@.len() ==> (#[trigger] forest@[k]).anchor == Anchor::Mark(roots@[k]),
        decreases roots.len() - i,
    {
        forest.push(seat_of(Anchor::Mark(roots[i]), drawn, parents, fuel));
        i = i + 1;
    }
    let mut i: usize = 0;
    let leaves = fns.len() + vocabulary.len();
    let nr = roots.len();
    while i < leaves
        invariant
            leaves == fns@.len() + vocabulary@.len(),
            nr == roots@.len(),
            i <= fns@.len() + vocabulary@.len(),
            forest@.len() == nr + i,
            forall|k: int| 0 <= k < forest@.len() ==> grown(#[trigger] forest@[k], drawn@, parents@, fuel as nat)
                || forest@[k].children@.len() == 0,
            forall|k: int| 0 <= k < nr ==> grown(#[trigger] forest@[k], drawn@, parents@, fuel as nat),
            forall|k: int| 0 <= k < nr ==> (#[trigger] forest@[k]).anchor == Anchor::Mark(roots@[k]),
            forall|k: int| 0 <= k < i && k < fns@.len() ==> (#[trigger] forest@[nr + k]).anchor == Anchor::Mark(fns@[k])
                && forest@[nr + k].children@.len() == 0,
            forall|k: int| 0 <= k < i - fns@.len() ==> (#[trigger] forest@[nr + fns@.len() + k]).anchor == Anchor::Mark(vocabulary@[k])
                && forest@[nr + fns@.len() + k].children@.len() == 0,
        decreases leaves - i,
    {
        let m = if i < fns.len() { fns[i] } else { vocabulary[i - fns.len()] };
        let ghost fb = forest@;
        forest.push(Seat::leaf(Anchor::Mark(m)));
        proof {
            assert forall|k: int| 0 <= k < i + 1 && k < fns@.len() implies (#[trigger] forest@[nr + k]).anchor == Anchor::Mark(fns@[k])
                && forest@[nr + k].children@.len() == 0 by {
                if k < i {
                    assert(forest@[nr + k] == fb[nr + k]);
                }
            }
            assert forall|k: int| 0 <= k < i + 1 - fns@.len() implies (#[trigger] forest@[nr + fns@.len() + k]).anchor == Anchor::Mark(vocabulary@[k])
                && forest@[nr + fns@.len() + k].children@.len() == 0 by {
                if nr + fns@.len() + k < nr + i {
                    assert(forest@[nr + fns@.len() + k] == fb[nr + fns@.len() + k]);
                }
            }
        }
        i = i + 1;
    }
    let ghost fl = forest@;
    if private > 0 {
        forest.push(seat_of(Anchor::Private(f), drawn, parents, fuel));
    }
    let ghost fp = forest@;
    if more > 0 {
        forest.push(seat_of(Anchor::More(f), drawn, parents, fuel));
    }
    proof {
        assert forall|k: int| 0 <= k < fl.len() implies #[trigger] forest@[k] == fl[k] by {
            assert(fp[k] == fl[k]);
        }
        if private > 0 {
            assert(forest@[fl.len() as int] == fp[fl.len() as int]);
        }
        assert(forest_fits(*graph, f, marks@, private, more, drawn@, parents@, folds@, fuel as nat, roots@, forest@));
    }
    forest
}

/// The frames themselves, in id order.
fn assemble_frames(
    graph: &CodeGraph,
    flist: &Vec<(String, Option<String>)>,
    place: &Placement,
    drawn: &Vec<u32>,
    parents: &Vec<Option<Anchor>>,
    folds: &Vec<(Anchor, u32, u32)>,
    roster: &Vec<(u32, u32)>,
) -> (frames: Vec<Frame>)
    requires
        flist@.len() < 0x4000_0000,
        place.private@.len() == flist@.len(),
        place.more@.len() == flist@.len(),
    ensures
        frames@.len() == flist@.len(),
        forall|f: int| 0 <= f < frames@.len() ==> (#[trigger] frames@[f]).marks@ == roster_marks(roster@, f as u32),
        forests_fit(*graph, frames@, drawn@, parents@, folds@),
        crate::data_frames::counts_carried(frames@, place.private@, place.more@),
        forall|f: int| 0 <= f < frames@.len() ==> (#[trigger] frames@[f]).id == f
            && frames@[f].krate@ == flist@[f].0@
            && opt_view(frames@[f].module) == opt_view(flist@[f].1),
        forall|f: int| 0 <= f < frames@.len() ==> match (#[trigger] frames@[f]).parent {
            Some(p) => (p as int) < flist@.len() && flist@[p as int].1.is_none()
                && flist@[p as int].0@ == flist@[f].0@ && flist@[f].1.is_some(),
            None => true,
        },
{
    let fuel = drawn.len();
    let mut frames: Vec<Frame> = Vec::new();
    let mut f: usize = 0;
    while f < flist.len()
        invariant
            f <= flist@.len(),
            flist@.len() < 0x4000_0000,
            place.private@.len() == flist@.len(),
            place.more@.len() == flist@.len(),
            frames@.len() == f,
            forall|q: int| 0 <= q < frames@.len() ==> (#[trigger] frames@[q]).id == q
                && frames@[q].krate@ == flist@[q].0@
                && opt_view(frames@[q].module) == opt_view(flist@[q].1),
            forall|q: int| 0 <= q < frames@.len() ==> match (#[trigger] frames@[q]).parent {
                Some(p) => (p as int) < flist@.len() && flist@[p as int].1.is_none()
                    && flist@[p as int].0@ == flist@[q].0@ && flist@[q].1.is_some(),
                None => true,
            },
            fuel == drawn@.len(),
            forall|q: int| 0 <= q < frames@.len() ==> (#[trigger] frames@[q]).marks@ == roster_marks(roster@, q as u32),
            forall|q: int| 0 <= q < frames@.len() ==> (#[trigger] frames@[q]).private == place.private@[q]
                && frames@[q].more == place.more@[q],
            forall|q: int| #![trigger frames@[q]] 0 <= q < frames@.len() ==> exists|roots: Seq<u32>| #[trigger] forest_fits(
                *graph,
                q as u32,
                frames@[q].marks@,
                frames@[q].private,
                frames@[q].more,
                drawn@,
                parents@,
                folds@,
                fuel as nat,
                roots,
                frames@[q].forest@,
            ),
        decreases flist.len() - f,
    {
        let krate = flist[f].0.clone();
        let module: Option<String> = match &flist[f].1 {
            Some(m) => Some(m.clone()),
            None => None,
        };
        let parent = match &flist[f].1 {
            Some(_) => find_frame(flist, &flist[f].0, &None),
            None => None,
        };
        let marks = roster_of(roster, f as u32);
        let private = place.private[f];
        let more = place.more[f];
        let forest = forest_of(graph, f as u32, &marks, private, more, drawn, parents, folds, fuel);
        let ghost before = frames@;
        let ghost mv = marks@;
        let ghost fv = forest@;
        proof {
            let roots = choose|roots: Seq<u32>| #[trigger] forest_fits(*graph, f as u32, mv, private, more, drawn@, parents@, folds@, fuel as nat, roots, fv);
        }
        frames.push(Frame { id: f as u32, krate, module, parent, marks, private, more, forest });
        proof {
            assert forall|q: int| #![trigger frames@[q]] 0 <= q < frames@.len() implies exists|roots: Seq<u32>| #[trigger] forest_fits(
                *graph,
                q as u32,
                frames@[q].marks@,
                frames@[q].private,
                frames@[q].more,
                drawn@,
                parents@,
                folds@,
                fuel as nat,
                roots,
                frames@[q].forest@,
            ) by {
                if q < before.len() {
                    assert(frames@[q] == before[q]);
                } else {
                    assert(frames@[q].marks@ == mv && frames@[q].forest@ == fv);
                    let roots = choose|roots: Seq<u32>| #[trigger] forest_fits(*graph, f as u32, mv, private, more, drawn@, parents@, folds@, fuel as nat, roots, fv);
                    assert(forest_fits(*graph, q as u32, frames@[q].marks@, frames@[q].private, frames@[q].more, drawn@, parents@, folds@, fuel as nat, roots, frames@[q].forest@));
                }
            }
        }
        f = f + 1;
    }
    proof {
        reveal(forests_fit);
        reveal(crate::data_frames::counts_carried);
    }
    frames
}

/// Each frame's forest seats its marks as [`forest_fits`] says, grown over
/// the drawn marks and the seats they were given.
#[verifier::opaque]
pub open spec fn forests_fit(
    graph: CodeGraph,
    frames: Seq<Frame>,
    drawn: Seq<u32>,
    parents: Seq<Option<Anchor>>,
    folds: Seq<(Anchor, u32, u32)>,
) -> bool {
    forall|f: int| #![trigger frames[f]] 0 <= f < frames.len() ==> exists|roots: Seq<u32>| #[trigger] forest_fits(
        graph,
        f as u32,
        frames[f].marks@,
        frames[f].private,
        frames[f].more,
        drawn,
        parents,
        folds,
        drawn.len() as nat,
        roots,
        frames[f].forest@,
    )
}

/// Each mark's (frame, id), in mark order.
fn mark_pairs(marks: &Vec<DataMark>) -> (r: Vec<(u32, u32)>)
    ensures
        r@ == marks@.map_values(|m: DataMark| (m.frame, m.id)),
{
    let mut r: Vec<(u32, u32)> = Vec::new();
    let mut i: usize = 0;
    while i < marks.len()
        invariant
            i <= marks@.len(),
            r@ == marks@.take(i as int).map_values(|m: DataMark| (m.frame, m.id)),
        decreases marks.len() - i,
    {
        r.push((marks[i].frame, marks[i].id));
        proof {
            assert(marks@.take(i + 1).map_values(|m: DataMark| (m.frame, m.id)) =~= marks@.take(i as int).map_values(
                |m: DataMark| (m.frame, m.id),
            ).push((marks@[i as int].frame, marks@[i as int].id)));
        }
        i = i + 1;
    }
    proof {
        assert(marks@.take(marks@.len() as int) =~= marks@);
    }
    r
}

/// What a mark reads off the fan-in folds: a ghost, or a mark whose fan-in
/// does not fold, no counts; a folded mark, its fold's counts.
#[verifier::opaque]
pub open spec fn fold_read(folds: Seq<(Anchor, u32, u32)>, m: DataMark) -> bool {
    if m.ghosted || !is_folded(folds, Anchor::Mark(m.id)) {
        m.held_by == 0 && m.named_by == 0
    } else {
        exists|j: int| 0 <= j < folds.len() && #[trigger] folds[j] == (Anchor::Mark(m.id), m.held_by, m.named_by)
    }
}

/// A ghost's rows are the base's, each pointing where the table files it.
pub open spec fn ghost_rows_read(table: Seq<(u32, String, String)>, g: GhostMark, m: DataMark) -> bool {
    &&& m.fields@.len() == g.field_rows@.len()
    &&& forall|k: int| 0 <= k < m.fields@.len() ==> field_view(#[trigger] m.fields@[k]) == (
        g.field_rows@[k].0@,
        g.field_rows@[k].1@,
        target_text(table, g.id, g.field_rows@[k].0@),
        RowState::Same,
    )
    &&& m.variants@.len() == g.variants@.len()
    &&& forall|k: int| 0 <= k < m.variants@.len() ==> field_view(#[trigger] m.variants@[k]) == (
        Seq::<char>::empty(),
        g.variants@[k]@,
        target_text(table, g.id, leading_name(g.variants@[k]@)),
        RowState::Same,
    )
}

/// A mark's rows and the type its name points to, read through the table
/// of targets: a working mark's rows with the base's dropped rows woven in,
/// a ghost's rows as the base wrote them.
pub open spec fn rows_read(graph: CodeGraph, table: Seq<(u32, String, String)>, m: DataMark) -> bool {
    &&& m.ty_target@ == target_text(table, m.id, m.name@)
    &&& if m.ghosted {
        exists|g: int| 0 <= g < graph.ghosts@.len() && (#[trigger] graph.ghosts@[g]).id == m.id && ghost_rows_read(table, graph.ghosts@[g], m)
    } else {
        let item = graph.items@[m.id as int];
        &&& exists|p: Seq<int>|
            #[trigger] sorted_perm(spec_dropped_fields(table, m.id, item), p) && m.fields@.map_values(|r: FieldRow| field_view(r))
                == weave_in(spec_field_rows(table, m.id, item), reorder(spec_dropped_fields(table, m.id, item), p))
        &&& exists|p: Seq<int>|
            #[trigger] sorted_perm(spec_dropped_variants(table, m.id, item), p) && m.variants@.map_values(|r: FieldRow| field_view(r))
                == weave_in(spec_variant_rows(table, m.id, item), reorder(spec_dropped_variants(table, m.id, item), p))
    }
}

/// Every mark reads its rows through the table.
#[verifier::opaque]
pub open spec fn marks_rows_read(graph: CodeGraph, table: Seq<(u32, String, String)>, marks: Seq<DataMark>) -> bool {
    forall|k: int| 0 <= k < marks.len() ==> rows_read(graph, table, #[trigger] marks[k])
}

/// Every mark reads its rows through the table of targets the holds edges
/// file for the flagged marks: each (mark, field) points to the type its
/// first such edge reaches.
#[verifier::opaque]
pub open spec fn rows_fit(graph: CodeGraph, flags: Seq<bool>, marks: Seq<DataMark>) -> bool {
    exists|table: Seq<(u32, String, String)>|
        (forall|id: u32, name: Seq<char>| #[trigger] table_lookup(table, id, name) == hold_target(graph, flags, graph.holds@, id, name))
            && #[trigger] marks_rows_read(graph, table, marks)
}

/// Every mark reads its counts off the folds.
#[verifier::opaque]
pub open spec fn marks_fold_read(folds: Seq<(Anchor, u32, u32)>, marks: Seq<DataMark>) -> bool {
    forall|k: int| 0 <= k < marks.len() ==> fold_read(folds, #[trigger] marks[k])
}

/// Every drawn mark's block, then the ghosts', quoted from the base edition.
#[verifier::rlimit(80)]
#[verifier::spinoff_prover]
fn build_marks(
    graph: &CodeGraph,
    flist: &Vec<(String, Option<String>)>,
    drawn: &Vec<u32>,
    table: &Vec<(u32, String, String)>,
    folds: &Vec<(Anchor, u32, u32)>,
) -> (marks: Vec<DataMark>)
    requires
        flist@.len() < 0x4000_0000,
        forall|k: int| 0 <= k < drawn@.len() ==> (#[trigger] drawn@[k] as int) < graph.items@.len(),
        forall|a: int, b: int| 0 <= a < b < drawn@.len() ==> drawn@[a] < drawn@[b],
    ensures
        forall|k: int| 0 <= k < marks@.len() ==> ((#[trigger] marks@[k]).frame as int) < flist@.len(),
        forall|k: int| 0 <= k < marks@.len() && !(#[trigger] marks@[k]).ghosted ==> drawn@.contains(marks@[k].id)
            && mark_reads_item(*graph, flist@, marks@[k]),
        forall|k: int| 0 <= k < marks@.len() && (#[trigger] marks@[k]).ghosted ==> exists|g: int|
            0 <= g < graph.ghosts@.len() && mark_reads_ghost(flist@, #[trigger] graph.ghosts@[g], marks@[k]),
        forall|a: int, b: int| 0 <= a < b < marks@.len() && !(#[trigger] marks@[b]).ghosted ==> !(#[trigger] marks@[a]).ghosted
            && marks@[a].id < marks@[b].id,
        forall|i: int| 0 <= i < drawn@.len() && (item_key(*graph, #[trigger] drawn@[i]) matches Some(key) && !no_frame(flist@, key.0, key.1))
            ==> exists|k: int| 0 <= k < marks@.len() && !(#[trigger] marks@[k]).ghosted && marks@[k].id == drawn@[i],
        forall|g: int| 0 <= g < graph.ghosts@.len() && !no_frame(flist@, (#[trigger] graph.ghosts@[g]).krate@, crate::paths::spec_module_of(graph.ghosts@[g].path@))
            ==> exists|k: int| 0 <= k < marks@.len() && (#[trigger] marks@[k]).ghosted && marks@[k].id == graph.ghosts@[g].id,
        crate::data_frames::marks_drawn(*graph, flist@, drawn@, marks@),
        marks_fold_read(folds@, marks@),
        marks_rows_read(*graph, table@, marks@),
{
    proof {
        reveal(crate::data_frames::marks_drawn);
    }
    let mut marks: Vec<DataMark> = Vec::new();
    let mut i: usize = 0;
    while i < drawn.len()
        invariant
            i <= drawn@.len(),
            flist@.len() < 0x4000_0000,
            forall|k: int| 0 <= k < drawn@.len() ==> (#[trigger] drawn@[k] as int) < graph.items@.len(),
            forall|a: int, b: int| 0 <= a < b < drawn@.len() ==> drawn@[a] < drawn@[b],
            forall|k: int| 0 <= k < marks@.len() ==> ((#[trigger] marks@[k]).frame as int) < flist@.len(),
            forall|k: int| 0 <= k < marks@.len() ==> !(#[trigger] marks@[k]).ghosted && mark_reads_item(*graph, flist@, marks@[k]),
            forall|k: int| 0 <= k < marks@.len() ==> exists|j: int| 0 <= j < i && drawn@[j] == (#[trigger] marks@[k]).id,
            forall|a: int, b: int| 0 <= a < b < marks@.len() ==> (#[trigger] marks@[a]).id < (#[trigger] marks@[b]).id,
            forall|k: int| 0 <= k < marks@.len() ==> i == 0 || (#[trigger] marks@[k]).id <= drawn@[i - 1],
            forall|k: int| 0 <= k < marks@.len() ==> fold_read(folds@, #[trigger] marks@[k]),
            forall|k: int| 0 <= k < marks@.len() ==> rows_read(*graph, table@, #[trigger] marks@[k]),
            forall|j: int| 0 <= j < i && (item_key(*graph, #[trigger] drawn@[j]) matches Some(key) && !no_frame(flist@, key.0, key.1))
                ==> exists|k: int| 0 <= k < marks@.len() && (#[trigger] marks@[k]).id == drawn@[j],
        decreases drawn.len() - i,
    {
        let id = drawn[i];
        proof {
            assert((drawn@[i as int] as int) < graph.items@.len());
        }
        let mark = &graph.items[id as usize];
        let ghost before = marks@;
        match frame_of_item(graph, flist, id) {
            Some(frame) => {
                if (mark.file as usize) < graph.files.len() {
                    let file = &graph.files[mark.file as usize];
                    let fold = fold_at(folds, Anchor::Mark(id));
                    let (held_by, named_by) = match fold {
                        Some(counts) => counts,
                        None => (0, 0),
                    };
                    marks.push(DataMark {
                        id,
                        frame,
                        kind: mark.kind,
                        vis: mark.vis,
                        name: mark.name.clone(),
                        label: mark.label.clone(),
                        path: file.path.clone(),
                        line: mark.line,
                        delta: mark.delta,
                        ghosted: false,
                        fields: quote_fields(graph, table, id, mark),
                        variants: quote_variants(table, id, mark),
                        ty: mark.ty.clone(),
                        ty_target: target_of(table, id, &mark.name),
                        held_by,
                        named_by,
                    });
                    proof {
                        let last = marks@.len() - 1;
                        assert(fold_read(folds@, marks@[last])) by {
                            reveal(fold_read);
                        }
                        assert forall|k: int| 0 <= k < marks@.len() implies fold_read(folds@, #[trigger] marks@[k]) by {
                            if k < last {
                                assert(marks@[k] == before[k]);
                            }
                        }
                        assert(rows_read(*graph, table@, marks@[last]));
                        assert forall|k: int| 0 <= k < marks@.len() implies rows_read(*graph, table@, #[trigger] marks@[k]) by {
                            if k < last {
                                assert(marks@[k] == before[k]);
                            }
                        }
                        assert(marks@[last].id == drawn@[i as int]);
                        assert forall|k: int| 0 <= k < marks@.len() implies exists|j: int| 0 <= j < i + 1 && drawn@[j] == (#[trigger] marks@[k]).id by {
                            if k < last {
                                assert(marks@[k] == before[k]);
                            }
                        }
                        assert forall|a: int, b: int| 0 <= a < b < marks@.len() implies (#[trigger] marks@[a]).id < (#[trigger] marks@[b]).id by {
                            if b == last {
                                assert(marks@[a] == before[a]);
                                if i > 0 {
                                    assert(drawn@[i - 1] < drawn@[i as int]);
                                }
                            }
                        }
                        assert forall|k: int| 0 <= k < marks@.len() implies (#[trigger] marks@[k]).id <= drawn@[i as int] by {
                            if k < last {
                                assert(marks@[k] == before[k]);
                                if i > 0 {
                                    assert(drawn@[i - 1] < drawn@[i as int]);
                                }
                            }
                        }
                        assert forall|j: int| 0 <= j < i + 1 && (item_key(*graph, #[trigger] drawn@[j]) matches Some(key) && !no_frame(flist@, key.0, key.1))
                            implies exists|k: int| 0 <= k < marks@.len() && (#[trigger] marks@[k]).id == drawn@[j] by {
                            if j < i {
                                let k = choose|k: int| 0 <= k < before.len() && (#[trigger] before[k]).id == drawn@[j];
                                assert(marks@[k] == before[k]);
                            }
                        }
                    }
                }
            },
            None => {},
        }
        proof {
            assert forall|k: int| 0 <= k < marks@.len() implies i + 1 == 0 || (#[trigger] marks@[k]).id <= drawn@[i as int] by {
                let j = choose|j: int| 0 <= j < i + 1 && drawn@[j] == marks@[k].id;
                if j < i {
                    assert(drawn@[j] < drawn@[i as int]);
                }
            }
        }
        i = i + 1;
    }
    let ghost items_part = marks@;
    let mut g: usize = 0;
    while g < graph.ghosts.len()
        invariant
            g <= graph.ghosts@.len(),
            flist@.len() < 0x4000_0000,
            items_part.len() <= marks@.len(),
            forall|k: int| 0 <= k < items_part.len() ==> #[trigger] marks@[k] == items_part[k],
            forall|k: int| 0 <= k < marks@.len() ==> fold_read(folds@, #[trigger] marks@[k]),
            forall|k: int| 0 <= k < marks@.len() ==> rows_read(*graph, table@, #[trigger] marks@[k]),
            forall|k: int| 0 <= k < marks@.len() ==> ((#[trigger] marks@[k]).frame as int) < flist@.len(),
            forall|k: int| 0 <= k < items_part.len() ==> !(#[trigger] items_part[k]).ghosted && mark_reads_item(*graph, flist@, items_part[k])
                && drawn@.contains(items_part[k].id),
            forall|k: int| items_part.len() <= k < marks@.len() ==> (#[trigger] marks@[k]).ghosted && exists|q: int|
                0 <= q < g && mark_reads_ghost(flist@, #[trigger] graph.ghosts@[q], marks@[k]),
            forall|q: int| 0 <= q < g && !no_frame(flist@, (#[trigger] graph.ghosts@[q]).krate@, crate::paths::spec_module_of(graph.ghosts@[q].path@))
                ==> exists|k: int| items_part.len() <= k < marks@.len() && (#[trigger] marks@[k]).id == graph.ghosts@[q].id,
        decreases graph.ghosts.len() - g,
    {
        let gm = &graph.ghosts[g];
        let key = ghost_key(gm);
        let ghost before = marks@;
        match find_frame(flist, &key.0, &key.1) {
            Some(frame) => {
                let (fields, variants) = quote_ghost_rows(table, gm);
                marks.push(DataMark {
                    id: gm.id,
                    frame,
                    kind: gm.kind,
                    vis: gm.vis,
                    name: gm.name.clone(),
                    label: gm.name.clone(),
                    path: gm.path.clone(),
                    line: gm.line,
                    delta: Delta::Same,
                    ghosted: true,
                    fields,
                    variants,
                    ty: gm.ty.clone(),
                    ty_target: target_of(table, gm.id, &gm.name),
                    held_by: 0,
                    named_by: 0,
                });
                proof {
                    let last = marks@.len() - 1;
                    assert(fold_read(folds@, marks@[last])) by {
                        reveal(fold_read);
                    }
                    assert forall|k: int| 0 <= k < marks@.len() implies fold_read(folds@, #[trigger] marks@[k]) by {
                        if k < last {
                            assert(marks@[k] == before[k]);
                        }
                    }
                    assert(mark_reads_ghost(flist@, graph.ghosts@[g as int], marks@[last]));
                    assert(ghost_rows_read(table@, graph.ghosts@[g as int], marks@[last]));
                    assert(rows_read(*graph, table@, marks@[last]));
                    assert forall|k: int| 0 <= k < marks@.len() implies rows_read(*graph, table@, #[trigger] marks@[k]) by {
                        if k < last {
                            assert(marks@[k] == before[k]);
                        }
                    }
                    assert forall|k: int| items_part.len() <= k < marks@.len() implies (#[trigger] marks@[k]).ghosted && exists|q: int|
                        0 <= q < g + 1 && mark_reads_ghost(flist@, #[trigger] graph.ghosts@[q], marks@[k]) by {
                        if k < last {
                            assert(marks@[k] == before[k]);
                        }
                    }
                    assert forall|q: int| 0 <= q < g + 1 && !no_frame(flist@, (#[trigger] graph.ghosts@[q]).krate@, crate::paths::spec_module_of(graph.ghosts@[q].path@))
                        implies exists|k: int| items_part.len() <= k < marks@.len() && (#[trigger] marks@[k]).id == graph.ghosts@[q].id by {
                        if q < g {
                            let k = choose|k: int| items_part.len() <= k < before.len() && (#[trigger] before[k]).id == graph.ghosts@[q].id;
                            assert(marks@[k] == before[k]);
                        }
                    }
                }
            },
            None => {},
        }
        g = g + 1;
    }
    proof {
        assert forall|a: int, b: int| 0 <= a < b < marks@.len() && !(#[trigger] marks@[b]).ghosted implies !(#[trigger] marks@[a]).ghosted
            && marks@[a].id < marks@[b].id by {
            if b >= items_part.len() {
                assert(marks@[b].ghosted);
            } else {
                assert(marks@[a] == items_part[a] && marks@[b] == items_part[b]);
            }
        }
        assert forall|i: int| 0 <= i < drawn@.len() && (item_key(*graph, #[trigger] drawn@[i]) matches Some(key) && !no_frame(flist@, key.0, key.1))
            implies exists|k: int| 0 <= k < marks@.len() && !(#[trigger] marks@[k]).ghosted && marks@[k].id == drawn@[i] by {
            let k = choose|k: int| 0 <= k < items_part.len() && (#[trigger] items_part[k]).id == drawn@[i];
            assert(marks@[k] == items_part[k]);
        }
        assert forall|k: int| 0 <= k < marks@.len() && (#[trigger] marks@[k]).ghosted implies exists|g: int|
            0 <= g < graph.ghosts@.len() && mark_reads_ghost(flist@, #[trigger] graph.ghosts@[g], marks@[k]) by {
            if k < items_part.len() {
                assert(marks@[k] == items_part[k]);
            }
        }
        assert forall|k: int| 0 <= k < marks@.len() && !(#[trigger] marks@[k]).ghosted implies drawn@.contains(marks@[k].id)
            && mark_reads_item(*graph, flist@, marks@[k]) by {
            if k >= items_part.len() {
                assert(marks@[k].ghosted);
            } else {
                assert(marks@[k] == items_part[k]);
            }
        }
    }
    proof {
        reveal(marks_fold_read);
        reveal(marks_rows_read);
    }
    marks
}

/// A mark quotes the item it draws: its frame is the first one its file's
/// (crate, module) names, and its head is the item's own.
pub open spec fn mark_reads_item(graph: CodeGraph, keys: Seq<(String, Option<String>)>, m: DataMark) -> bool {
    let item = graph.items@[m.id as int];
    &&& (m.id as int) < graph.items@.len()
    &&& item_key(graph, m.id) matches Some(key) && first_frame(keys, key.0, key.1, m.frame as int)
    &&& m.kind == item.kind
    &&& m.vis == item.vis
    &&& m.name@ == item.name@
    &&& m.label@ == item.label@
    &&& m.path@ == graph.files@[item.file as int].path@
    &&& m.line == item.line
    &&& m.delta == item.delta
    &&& !m.ghosted
    &&& m.ty@ == item.ty@
}

/// A ghost's mark quotes the base's block, in the first frame its (crate,
/// module) names.
pub open spec fn mark_reads_ghost(keys: Seq<(String, Option<String>)>, gm: GhostMark, m: DataMark) -> bool {
    &&& m.id == gm.id
    &&& first_frame(keys, gm.krate@, crate::paths::spec_module_of(gm.path@), m.frame as int)
    &&& m.kind == gm.kind
    &&& m.vis == gm.vis
    &&& m.name@ == gm.name@
    &&& m.label@ == gm.name@
    &&& m.path@ == gm.path@
    &&& m.line == gm.line
    &&& m.delta == Delta::Same
    &&& m.ghosted
    &&& m.ty@ == gm.ty@
}

/// Frame `f` of the model is the (crate, module) pair given.
pub open spec fn frame_named(frames: Seq<Frame>, f: int, krate: Seq<char>, module: Option<Seq<char>>) -> bool {
    frames[f].krate@ == krate && opt_view(frames[f].module) == module
}

/// `f` is the first frame of the model naming (crate, module).
pub open spec fn first_frame_of(frames: Seq<Frame>, krate: Seq<char>, module: Option<Seq<char>>, f: int) -> bool {
    &&& 0 <= f < frames.len()
    &&& frame_named(frames, f, krate, module)
    &&& forall|j: int| 0 <= j < f ==> !#[trigger] frame_named(frames, j, krate, module)
}

/// No frame of the model names (crate, module).
pub open spec fn no_frame_of(frames: Seq<Frame>, krate: Seq<char>, module: Option<Seq<char>>) -> bool {
    forall|j: int| 0 <= j < frames.len() ==> !#[trigger] frame_named(frames, j, krate, module)
}

/// A mark draws an item of the working copy as the survey writes it, in the
/// frame of the module its file sits in.
pub open spec fn mark_of_item(graph: CodeGraph, frames: Seq<Frame>, m: DataMark) -> bool {
    let item = graph.items@[m.id as int];
    &&& (m.id as int) < graph.items@.len()
    &&& item_key(graph, m.id) matches Some(key) && first_frame_of(frames, key.0, key.1, m.frame as int)
    &&& m.kind == item.kind
    &&& m.vis == item.vis
    &&& m.name@ == item.name@
    &&& m.label@ == item.label@
    &&& m.path@ == graph.files@[item.file as int].path@
    &&& m.line == item.line
    &&& m.delta == item.delta
    &&& !m.ghosted
    &&& m.ty@ == item.ty@
}

/// A mark draws a ghost as the base wrote it, in the frame of the module
/// its file sat in.
pub open spec fn mark_of_ghost(frames: Seq<Frame>, gm: GhostMark, m: DataMark) -> bool {
    &&& m.id == gm.id
    &&& first_frame_of(frames, gm.krate@, crate::paths::spec_module_of(gm.path@), m.frame as int)
    &&& m.kind == gm.kind
    &&& m.vis == gm.vis
    &&& m.name@ == gm.name@
    &&& m.label@ == gm.name@
    &&& m.path@ == gm.path@
    &&& m.line == gm.line
    &&& m.delta == Delta::Same
    &&& m.ghosted
    &&& m.ty@ == gm.ty@
}

/// The items of the working copy the doors admit.
pub open spec fn drawable_ids(graph: CodeGraph, doors: Doors) -> Set<u32> {
    Set::new(|i: u32| (i as int) < graph.items@.len() && spec_drawable(graph.items@[i as int], doors))
}

/// The marks as built, read against the model's frames.
proof fn lemma_marks_in_frames(
    graph: CodeGraph,
    doors: Doors,
    flist: Seq<(String, Option<String>)>,
    frames: Seq<Frame>,
    drawn0: Seq<u32>,
    drawn: Seq<u32>,
    marks: Seq<DataMark>,
)
    requires
        frames.len() == flist.len(),
        forall|f: int| 0 <= f < frames.len() ==> (#[trigger] frames[f]).krate@ == flist[f].0@ && opt_view(frames[f].module) == opt_view(flist[f].1),
        forall|k: int| 0 <= k < marks.len() && !(#[trigger] marks[k]).ghosted ==> drawn.contains(marks[k].id)
            && mark_reads_item(graph, flist, marks[k]),
        forall|k: int| 0 <= k < marks.len() && (#[trigger] marks[k]).ghosted ==> exists|g: int|
            0 <= g < graph.ghosts@.len() && mark_reads_ghost(flist, #[trigger] graph.ghosts@[g], marks[k]),
        forall|i: int| 0 <= i < drawn.len() && (item_key(graph, #[trigger] drawn[i]) matches Some(key) && !no_frame(flist, key.0, key.1))
            ==> exists|k: int| 0 <= k < marks.len() && !(#[trigger] marks[k]).ghosted && marks[k].id == drawn[i],
        forall|g: int| 0 <= g < graph.ghosts@.len() && !no_frame(flist, (#[trigger] graph.ghosts@[g]).krate@, crate::paths::spec_module_of(graph.ghosts@[g].path@))
            ==> exists|k: int| 0 <= k < marks.len() && (#[trigger] marks[k]).ghosted && marks[k].id == graph.ghosts@[g].id,
        forall|i: int| 0 <= i < graph.items@.len() && spec_drawable(#[trigger] graph.items@[i], doors) ==> drawn0.contains(i as u32),
        forall|k: int| 0 <= k < drawn0.len() ==> (#[trigger] drawn0[k] as int) < graph.items@.len()
            && spec_drawable(graph.items@[drawn0[k] as int], doors),
        forall|a: int, b: int| 0 <= a < b < drawn0.len() ==> drawn0[a] < drawn0[b],
        drawn0.len() <= MARK_BUDGET ==> drawn == drawn0,
    ensures
        forall|k: int| 0 <= k < marks.len() && !(#[trigger] marks[k]).ghosted ==> mark_of_item(graph, frames, marks[k]),
        forall|k: int| 0 <= k < marks.len() && (#[trigger] marks[k]).ghosted ==> exists|g: int|
            0 <= g < graph.ghosts@.len() && mark_of_ghost(frames, #[trigger] graph.ghosts@[g], marks[k]),
        drawable_ids(graph, doors).len() <= MARK_BUDGET ==> forall|i: u32|
            #[trigger] drawable_ids(graph, doors).contains(i) && (item_key(graph, i) matches Some(key) && !no_frame_of(frames, key.0, key.1))
                ==> exists|k: int| 0 <= k < marks.len() && !(#[trigger] marks[k]).ghosted && marks[k].id == i,
        forall|g: int| 0 <= g < graph.ghosts@.len() && !no_frame_of(frames, (#[trigger] graph.ghosts@[g]).krate@, crate::paths::spec_module_of(graph.ghosts@[g].path@))
            ==> exists|k: int| 0 <= k < marks.len() && (#[trigger] marks[k]).ghosted && marks[k].id == graph.ghosts@[g].id,
{
    assert forall|k: int| 0 <= k < marks.len() && !(#[trigger] marks[k]).ghosted implies mark_of_item(graph, frames, marks[k]) by {
        let key = item_key(graph, marks[k].id)->0;
        lemma_frames_match(flist, frames, key.0, key.1);
    }
    assert forall|k: int| 0 <= k < marks.len() && (#[trigger] marks[k]).ghosted implies exists|g: int|
        0 <= g < graph.ghosts@.len() && mark_of_ghost(frames, #[trigger] graph.ghosts@[g], marks[k]) by {
        let g = choose|g: int| 0 <= g < graph.ghosts@.len() && mark_reads_ghost(flist, #[trigger] graph.ghosts@[g], marks[k]);
        lemma_frames_match(flist, frames, graph.ghosts@[g].krate@, crate::paths::spec_module_of(graph.ghosts@[g].path@));
        assert(mark_of_ghost(frames, graph.ghosts@[g], marks[k]));
    }
    assert forall|g: int| 0 <= g < graph.ghosts@.len() && !no_frame_of(frames, (#[trigger] graph.ghosts@[g]).krate@, crate::paths::spec_module_of(graph.ghosts@[g].path@))
        implies exists|k: int| 0 <= k < marks.len() && (#[trigger] marks[k]).ghosted && marks[k].id == graph.ghosts@[g].id by {
        lemma_frames_match(flist, frames, graph.ghosts@[g].krate@, crate::paths::spec_module_of(graph.ghosts@[g].path@));
    }
    if drawable_ids(graph, doors).len() <= MARK_BUDGET {
        let ids = drawable_ids(graph, doors);
        assert(drawn0.no_duplicates()) by {
            assert forall|a: int, b: int| 0 <= a < drawn0.len() && 0 <= b < drawn0.len() && a != b implies drawn0[a] != drawn0[b] by {
                if a < b {
                    assert(drawn0[a] < drawn0[b]);
                } else {
                    assert(drawn0[b] < drawn0[a]);
                }
            }
        }
        drawn0.unique_seq_to_set();
        assert(drawn0.to_set() =~= ids) by {
            assert forall|i: u32| drawn0.to_set().contains(i) <==> ids.contains(i) by {
                if ids.contains(i) {
                    assert(spec_drawable(graph.items@[i as int], doors));
                }
                if drawn0.contains(i) {
                    let k = choose|k: int| 0 <= k < drawn0.len() && drawn0[k] == i;
                    assert(spec_drawable(graph.items@[drawn0[k] as int], doors));
                }
            }
        }
        assert(drawn == drawn0);
        assert forall|i: u32|
            #[trigger] ids.contains(i) && (item_key(graph, i) matches Some(key) && !no_frame_of(frames, key.0, key.1))
                implies exists|k: int| 0 <= k < marks.len() && !(#[trigger] marks[k]).ghosted && marks[k].id == i by {
            let key = item_key(graph, i)->0;
            lemma_frames_match(flist, frames, key.0, key.1);
            assert(spec_drawable(graph.items@[i as int], doors));
            assert(drawn.contains(i));
            let q = choose|q: int| 0 <= q < drawn.len() && drawn[q] == i;
            assert(item_key(graph, drawn[q]) == Some(key));
        }
    }
}

/// The model's frames name what the frame keys name, in the same order.
proof fn lemma_frames_match(
    flist: Seq<(String, Option<String>)>,
    frames: Seq<Frame>,
    krate: Seq<char>,
    module: Option<Seq<char>>,
)
    requires
        frames.len() == flist.len(),
        forall|f: int| 0 <= f < frames.len() ==> (#[trigger] frames[f]).krate@ == flist[f].0@ && opt_view(frames[f].module) == opt_view(flist[f].1),
    ensures
        forall|f: int| first_frame(flist, krate, module, f) <==> first_frame_of(frames, krate, module, f),
        no_frame(flist, krate, module) <==> no_frame_of(frames, krate, module),
{
    assert forall|j: int| 0 <= j < frames.len() implies (key_matches(flist, j, krate, module) <==> frame_named(frames, j, krate, module)) by {
        assert(frames[j].krate@ == flist[j].0@);
    }
}

proof fn lemma_refs_total_prefix(e: Seq<crate::wire::ItemEdge>, i: int)
    requires
        0 <= i < e.len(),
    ensures
        refs_total(e.take(i + 1)) == refs_total(e.take(i)) + e[i].count,
        refs_total(e.take(i + 1)) <= refs_total(e),
    decreases e.len() - i,
{
    assert(e.take(i + 1).drop_last() =~= e.take(i));
    if i + 1 < e.len() {
        lemma_refs_total_prefix(e, i + 1);
    } else {
        assert(e.take(i + 1) =~= e);
    }
}

/// The (def, user) pair of drawn types a reference lands on once both ends
/// climb to their outermost declaration, if it lands on two.
pub open spec fn tie_of_edge(graph: CodeGraph, flags: Seq<bool>, e: crate::wire::ItemEdge) -> Option<(u32, u32)> {
    match (e.from, e.to) {
        (Some(f), Some(t)) => {
            let user = graph.spec_root(f as int, graph.items@.len()) as u32;
            let def = graph.spec_root(t as int, graph.items@.len()) as u32;
            if user != def && is_type_mark(graph, flags, user) && is_type_mark(graph, flags, def) {
                Some((def, user))
            } else {
                None
            }
        },
        _ => None,
    }
}

/// The references among `edges` that tie `user` to `def`, counted.
pub open spec fn tie_count(graph: CodeGraph, flags: Seq<bool>, edges: Seq<crate::wire::ItemEdge>, def: u32, user: u32) -> nat
    decreases edges.len(),
{
    if edges.len() == 0 {
        0
    } else {
        tie_count(graph, flags, edges.drop_last(), def, user) + if tie_of_edge(graph, flags, edges.last()) == Some((def, user)) {
            edges.last().count as nat
        } else {
            0nat
        }
    }
}

/// Some reference among `edges` ties `user` to `def`.
pub open spec fn tie_in(graph: CodeGraph, flags: Seq<bool>, edges: Seq<crate::wire::ItemEdge>, def: u32, user: u32) -> bool {
    exists|i: int| 0 <= i < edges.len() && tie_of_edge(graph, flags, #[trigger] edges[i]) == Some((def, user))
}

/// The ties are one per pair of drawn types the references tie, in pair
/// order, each counting its references.
pub open spec fn ties_fit(graph: CodeGraph, flags: Seq<bool>, ties: Seq<Tie>) -> bool {
    &&& forall|k: int| 0 <= k < ties.len() ==> (#[trigger] ties[k]).def is Mark && ties[k].user is Mark
        && tie_in(graph, flags, graph.item_edges@, ties[k].def->Mark_0, ties[k].user->Mark_0)
        && ties[k].count as nat == tie_count(graph, flags, graph.item_edges@, ties[k].def->Mark_0, ties[k].user->Mark_0)
    &&& forall|d: u32, u: u32| tie_in(graph, flags, graph.item_edges@, d, u) ==> exists|k: int|
        0 <= k < ties.len() && (#[trigger] ties[k]).def == Anchor::Mark(d) && ties[k].user == Anchor::Mark(u)
    &&& forall|a: int, b: int| 0 <= a < b < ties.len() ==> pair_lt(
        ((#[trigger] ties[a]).def->Mark_0, ties[a].user->Mark_0),
        ((#[trigger] ties[b]).def->Mark_0, ties[b].user->Mark_0),
    )
}

/// Where the edges of `x` land, read against the model's frames: a type
/// the budget folded on its frame's `more` row, a private one on its
/// frame's `private` row, a ghost or a kept type on its own mark, and
/// nothing otherwise. The earlier rule here wins where two apply.
pub open spec fn model_anchor_fits(graph: CodeGraph, frames: Seq<Frame>, doors: Doors, kept: Set<u32>, x: int, a: Option<Anchor>) -> bool {
    let framed = (x as int) < graph.items@.len() && (item_key(graph, x as u32) matches Some(k) && !no_frame_of(frames, k.0, k.1));
    let folded = (x as int) < graph.items@.len() && spec_drawable(graph.items@[x], doors) && !kept.contains(x as u32);
    let private = (x as int) < graph.items@.len() && spec_charted(graph.items@[x]) && !spec_drawable(graph.items@[x], doors);
    if folded && framed {
        exists|f: int|
            #![trigger first_frame_of(frames, (item_key(graph, x as u32)->0).0, (item_key(graph, x as u32)->0).1, f)]
            first_frame_of(frames, (item_key(graph, x as u32)->0).0, (item_key(graph, x as u32)->0).1, f) && a == Some(
                Anchor::More(f as u32),
            )
    } else if private && framed {
        exists|f: int|
            #![trigger first_frame_of(frames, (item_key(graph, x as u32)->0).0, (item_key(graph, x as u32)->0).1, f)]
            first_frame_of(frames, (item_key(graph, x as u32)->0).0, (item_key(graph, x as u32)->0).1, f) && a == Some(
                Anchor::Private(f as u32),
            )
    } else if exists|g: int|
        0 <= g < graph.ghosts@.len() && (#[trigger] graph.ghosts@[g]).id == x && !no_frame_of(
            frames,
            graph.ghosts@[g].krate@,
            crate::paths::spec_module_of(graph.ghosts@[g].path@),
        ) {
        a == Some(Anchor::Mark(x as u32))
    } else if kept.contains(x as u32) && framed {
        a == Some(Anchor::Mark(x as u32))
    } else {
        a is None
    }
}

/// The anchors the model's holds were gathered on, read against its frames.
proof fn lemma_anchor_model(
    graph: CodeGraph,
    doors: Doors,
    flist: Seq<(String, Option<String>)>,
    frames: Seq<Frame>,
    drawn0: Seq<u32>,
    drawn: Seq<u32>,
    folded: Seq<u32>,
    private: Seq<u32>,
    x: int,
    a: Option<Anchor>,
)
    requires
        frames.len() == flist.len(),
        forall|f: int| 0 <= f < frames.len() ==> (#[trigger] frames[f]).krate@ == flist[f].0@ && opt_view(frames[f].module) == opt_view(flist[f].1),
        0 <= x < graph.items@.len() + graph.ghosts@.len(),
        x < 0x1000_0000,
        anchor_fits(graph, flist, drawn, graph.ghosts@.len() as int, private, folded, x, a),
        forall|i: int| 0 <= i < graph.items@.len() && spec_drawable(#[trigger] graph.items@[i], doors) ==> drawn0.contains(i as u32),
        forall|k: int| 0 <= k < drawn0.len() ==> (#[trigger] drawn0[k] as int) < graph.items@.len()
            && spec_drawable(graph.items@[drawn0[k] as int], doors),
        forall|k: int| 0 <= k < drawn.len() ==> drawn0.contains(#[trigger] drawn[k]),
        forall|k: int| 0 <= k < folded.len() ==> drawn0.contains(#[trigger] folded[k]),
        forall|k: int| 0 <= k < drawn0.len() ==> drawn.contains(#[trigger] drawn0[k]) || folded.contains(drawn0[k]),
        forall|k: int| 0 <= k < folded.len() ==> !drawn.contains(#[trigger] folded[k]),
        forall|k: int| 0 <= k < private.len() ==> (#[trigger] private[k] as int) < graph.items@.len()
            && spec_charted(graph.items@[private[k] as int]) && !spec_drawable(graph.items@[private[k] as int], doors),
        forall|i: int| 0 <= i < graph.items@.len() && spec_charted(#[trigger] graph.items@[i])
            && !spec_drawable(graph.items@[i], doors) ==> private.contains(i as u32),
    ensures
        model_anchor_fits(graph, frames, doors, Set::new(|y: u32| drawn.contains(y)), x, a),
{
    let kept = Set::new(|y: u32| drawn.contains(y));
    let xu = x as u32;
    assert(xu as int == x);
    if x < graph.items@.len() {
        match item_key(graph, xu) {
            Some(k) => {
                lemma_frames_match(flist, frames, k.0, k.1);
            },
            None => {},
        }
        let it = graph.items@[x];
        if spec_drawable(it, doors) {
            assert(drawn0.contains(xu));
            let j = choose|j: int| 0 <= j < drawn0.len() && drawn0[j] == xu;
            assert(drawn.contains(drawn0[j]) || folded.contains(drawn0[j]));
            if folded.contains(xu) {
                let q = choose|q: int| 0 <= q < folded.len() && folded[q] == xu;
                assert(!drawn.contains(folded[q]));
            }
        } else {
            if folded.contains(xu) {
                let q = choose|q: int| 0 <= q < folded.len() && folded[q] == xu;
                assert(drawn0.contains(folded[q]));
                let j = choose|j: int| 0 <= j < drawn0.len() && drawn0[j] == xu;
            }
            if drawn.contains(xu) {
                let q = choose|q: int| 0 <= q < drawn.len() && drawn[q] == xu;
                assert(drawn0.contains(drawn[q]));
                let j = choose|j: int| 0 <= j < drawn0.len() && drawn0[j] == xu;
            }
        }
        if private.contains(xu) {
            let q = choose|q: int| 0 <= q < private.len() && private[q] == xu;
            assert(spec_charted(graph.items@[private[q] as int]));
        }
        if spec_charted(it) && !spec_drawable(it, doors) {
            assert(private.contains(xu));
        }
    } else {
        if folded.contains(xu) {
            let q = choose|q: int| 0 <= q < folded.len() && folded[q] == xu;
            assert(drawn0.contains(folded[q]));
            let j = choose|j: int| 0 <= j < drawn0.len() && drawn0[j] == xu;
        }
        if private.contains(xu) {
            let q = choose|q: int| 0 <= q < private.len() && private[q] == xu;
        }
        if drawn.contains(xu) {
            let q = choose|q: int| 0 <= q < drawn.len() && drawn[q] == xu;
            assert(drawn0.contains(drawn[q]));
            let j = choose|j: int| 0 <= j < drawn0.len() && drawn0[j] == xu;
        }
    }
    assert forall|g: int| 0 <= g < graph.ghosts@.len() implies (no_frame(flist, (#[trigger] graph.ghosts@[g]).krate@, crate::paths::spec_module_of(graph.ghosts@[g].path@))
        <==> no_frame_of(frames, graph.ghosts@[g].krate@, crate::paths::spec_module_of(graph.ghosts@[g].path@))) by {
        lemma_frames_match(flist, frames, graph.ghosts@[g].krate@, crate::paths::spec_module_of(graph.ghosts@[g].path@));
    }
}

/// Setting which holds rest keeps what each one is.
proof fn lemma_holds_rest(anchors: Seq<Option<Anchor>>, edges: Seq<crate::wire::HoldEdge>, h0: Seq<Hold>, h1: Seq<Hold>)
    requires
        holds_fit(anchors, edges, h0),
        h1.len() == h0.len(),
        forall|k: int| 0 <= k < h1.len() ==> (#[trigger] h1[k]).held == h0[k].held && h1[k].holder == h0[k].holder
            && h1[k].kind == h0[k].kind && h1[k].via@ == h0[k].via@ && h1[k].fields == h0[k].fields && h1[k].event == h0[k].event,
    ensures
        holds_fit(anchors, edges, h1),
{
    assert forall|k: int| 0 <= k < h1.len() implies hold_in(anchors, edges, #[trigger] h1[k])
        && h1[k].fields as nat == hold_fields(anchors, edges, h1[k]) by {
        assert(same_key(h1[k], h0[k]));
        lemma_hold_fields_key(anchors, edges, h1[k], h0[k]);
    }
    assert forall|i: int| 0 <= i < edges.len() && (hold_of_edge(anchors, #[trigger] edges[i]) is Some) implies exists|k: int|
        0 <= k < h1.len() && same_hold(anchors, edges[i], #[trigger] h1[k]) by {
        let k = choose|k: int| 0 <= k < h0.len() && same_hold(anchors, edges[i], #[trigger] h0[k]);
        assert(same_hold(anchors, edges[i], h1[k]));
    }
    assert forall|a: int, b: int| 0 <= a < b < h1.len() implies !same_key(#[trigger] h1[a], #[trigger] h1[b]) by {
        assert(!same_key(h0[a], h0[b]));
    }
}

/// What a tie may land on: an item kept on the paper, or a ghost.
pub open spec fn tie_flags(graph: CodeGraph, kept: Set<u32>) -> Seq<bool> {
    Seq::new(
        (graph.items@.len() + graph.ghosts@.len()) as nat,
        |x: int| kept.contains(x as u32) || exists|g: int| 0 <= g < graph.ghosts@.len() && (#[trigger] graph.ghosts@[g]).id == x,
    )
}

/// The items kept on the paper are items the doors admit, all of them
/// within the budget.
proof fn lemma_kept(graph: CodeGraph, doors: Doors, drawn0: Seq<u32>, drawn: Seq<u32>, folded: Seq<u32>)
    requires
        crate::data_frames::budget_fits(drawn0, drawn, folded),
        folds_movable(graph, folded),
        forall|i: int| 0 <= i < graph.items@.len() && spec_drawable(#[trigger] graph.items@[i], doors) ==> drawn0.contains(i as u32),
        forall|k: int| 0 <= k < drawn0.len() ==> (#[trigger] drawn0[k] as int) < graph.items@.len()
            && spec_drawable(graph.items@[drawn0[k] as int], doors),
        forall|a: int, b: int| 0 <= a < b < drawn0.len() ==> drawn0[a] < drawn0[b],
        forall|k: int| 0 <= k < drawn.len() ==> drawn0.contains(#[trigger] drawn[k]),
        drawn0.len() <= MARK_BUDGET ==> drawn == drawn0,
    ensures
        Set::new(|x: u32| drawn.contains(x)).subset_of(drawable_ids(graph, doors)),
        drawable_ids(graph, doors).len() <= MARK_BUDGET ==> Set::new(|x: u32| drawn.contains(x)) == drawable_ids(graph, doors),
        forall|i: u32| #[trigger] drawable_ids(graph, doors).contains(i) && !may_fold(graph.items@[i as int]) ==> Set::new(
            |x: u32| drawn.contains(x),
        ).contains(i),
{
    let ids = drawable_ids(graph, doors);
    assert forall|i: u32| #[trigger] drawable_ids(graph, doors).contains(i) && !may_fold(graph.items@[i as int]) implies Set::new(
        |x: u32| drawn.contains(x),
    ).contains(i) by {
        reveal(crate::data_frames::budget_fits);
        reveal(folds_movable);
        assert(drawn0.contains(i));
        let w = choose|w: int| 0 <= w < drawn0.len() && drawn0[w] == i;
        if !drawn.contains(drawn0[w]) {
            assert(folded.contains(drawn0[w]));
            let q = choose|q: int| 0 <= q < folded.len() && folded[q] == i;
            assert(may_fold(graph.items@[folded[q] as int]));
        }
    }
    assert forall|x: u32| Set::new(|x: u32| drawn.contains(x)).contains(x) implies ids.contains(x) by {
        let k = choose|k: int| 0 <= k < drawn.len() && drawn[k] == x;
        assert(drawn0.contains(drawn[k]));
        let j = choose|j: int| 0 <= j < drawn0.len() && drawn0[j] == x;
        assert(spec_drawable(graph.items@[drawn0[j] as int], doors));
    }
    assert(drawn0.no_duplicates()) by {
        assert forall|a: int, b: int| 0 <= a < drawn0.len() && 0 <= b < drawn0.len() && a != b implies drawn0[a] != drawn0[b] by {
            if a < b {
                assert(drawn0[a] < drawn0[b]);
            } else {
                assert(drawn0[b] < drawn0[a]);
            }
        }
    }
    drawn0.unique_seq_to_set();
    assert(drawn0.to_set() =~= ids) by {
        assert forall|i: u32| drawn0.to_set().contains(i) <==> ids.contains(i) by {
            if ids.contains(i) {
                assert(spec_drawable(graph.items@[i as int], doors));
            }
            if drawn0.contains(i) {
                let k = choose|k: int| 0 <= k < drawn0.len() && drawn0[k] == i;
                assert(spec_drawable(graph.items@[drawn0[k] as int], doors));
            }
        }
    }
    if ids.len() <= MARK_BUDGET {
        assert(drawn == drawn0);
        assert(Set::new(|x: u32| drawn.contains(x)) =~= ids);
    }
}

/// Pair order: by def, then by user.
pub open spec fn pair_lt(a: (u32, u32), b: (u32, u32)) -> bool {
    a.0 < b.0 || (a.0 == b.0 && a.1 < b.1)
}

/// A drawn type: the only thing a reference tie may land on.
pub open spec fn is_type_mark(graph: CodeGraph, flags: Seq<bool>, m: u32) -> bool {
    (m as int) < graph.items@.len() && (m as int) < flags.len() && flags[m as int] && (
    graph.items@[m as int].kind == ItemKind::Struct || graph.items@[m as int].kind == ItemKind::Enum
        || graph.items@[m as int].kind == ItemKind::Union)
}

fn is_type(graph: &CodeGraph, flags: &Vec<bool>, m: u32) -> (b: bool)
    ensures
        b == is_type_mark(*graph, flags@, m),
{
    (m as usize) < graph.items.len() && (m as usize) < flags.len() && flags[m as usize] && (
    graph.items[m as usize].kind == ItemKind::Struct || graph.items[m as usize].kind == ItemKind::Enum
        || graph.items[m as usize].kind == ItemKind::Union)
}

/// Every (def, user) pair of drawn types the references tie, once each, with
/// its references counted, in pair order.
fn tie_pairs(graph: &CodeGraph, flags: &Vec<bool>) -> (sorted: Vec<(u32, u32, u32)>)
    requires
        within_limits(*graph),
    ensures
        forall|k: int| 0 <= k < sorted@.len() ==> (#[trigger] sorted@[k]).0 != sorted@[k].1
            && is_type_mark(*graph, flags@, sorted@[k].0) && is_type_mark(*graph, flags@, sorted@[k].1)
            && tie_in(*graph, flags@, graph.item_edges@, sorted@[k].0, sorted@[k].1)
            && sorted@[k].2 as nat == tie_count(*graph, flags@, graph.item_edges@, sorted@[k].0, sorted@[k].1),
        forall|d: u32, u: u32| tie_in(*graph, flags@, graph.item_edges@, d, u) ==> exists|k: int|
            0 <= k < sorted@.len() && (#[trigger] sorted@[k]).0 == d && sorted@[k].1 == u,
        forall|a: int, b: int| 0 <= a < b < sorted@.len() ==> pair_lt(
            ((#[trigger] sorted@[a]).0, sorted@[a].1),
            ((#[trigger] sorted@[b]).0, sorted@[b].1),
        ),
{
    let n = graph.items.len();
    let mut acc: Vec<(u32, u32, u32)> = Vec::new();
    let mut i: usize = 0;
    assert(graph.item_edges@.take(0) =~= Seq::<crate::wire::ItemEdge>::empty());
    while i < graph.item_edges.len()
        invariant
            i <= graph.item_edges@.len(),
            n == graph.items@.len(),
            within_limits(*graph),
            forall|k: int| 0 <= k < acc@.len() ==> (#[trigger] acc@[k]).0 != acc@[k].1
                && is_type_mark(*graph, flags@, acc@[k].0) && is_type_mark(*graph, flags@, acc@[k].1)
                && tie_in(*graph, flags@, graph.item_edges@.take(i as int), acc@[k].0, acc@[k].1)
                && acc@[k].2 as nat == tie_count(*graph, flags@, graph.item_edges@.take(i as int), acc@[k].0, acc@[k].1)
                && acc@[k].2 <= refs_total(graph.item_edges@.take(i as int)),
            forall|d: u32, u: u32| tie_in(*graph, flags@, graph.item_edges@.take(i as int), d, u) ==> exists|k: int|
                0 <= k < acc@.len() && (#[trigger] acc@[k]).0 == d && acc@[k].1 == u,
            forall|a: int, b: int| 0 <= a < b < acc@.len() ==> ((#[trigger] acc@[a]).0, acc@[a].1) != ((#[trigger] acc@[b]).0, acc@[b].1),
        decreases graph.item_edges.len() - i,
    {
        let edge = &graph.item_edges[i];
        let ghost pre = graph.item_edges@.take(i as int);
        let ghost post = graph.item_edges@.take(i + 1);
        let ghost before = acc@;
        proof {
            lemma_refs_total_prefix(graph.item_edges@, i as int);
            assert(post.drop_last() =~= pre);
            assert(post.last() == graph.item_edges@[i as int]);
            lemma_tie_count_bound(*graph, flags@, post);
        }
        let ghost mut slot: int = -1;
        let mut tie: Option<(u32, u32)> = None;
        match (edge.from, edge.to) {
            (Some(from), Some(to)) => {
                proof {
                    assert(match graph.item_edges@[i as int].from { Some(f) => (f as int) < graph.items@.len(), None => true });
                }
                let user = graph.containment_root(from);
                let def = graph.containment_root(to);
                if user != def && is_type(graph, flags, user) && is_type(graph, flags, def) {
                    tie = Some((def, user));
                }
            },
            _ => {},
        }
        assert(tie == tie_of_edge(*graph, flags@, graph.item_edges@[i as int]));
        match tie {
            Some((def, user)) => {
                let mut at: Option<usize> = None;
                let mut q: usize = 0;
                while q < acc.len()
                    invariant
                        q <= acc@.len(),
                        match at {
                            Some(a) => a < acc@.len() && acc@[a as int].0 == def && acc@[a as int].1 == user,
                            None => forall|k: int| 0 <= k < q ==> !((#[trigger] acc@[k]).0 == def && acc@[k].1 == user),
                        },
                    decreases acc.len() - q,
                {
                    if at.is_none() && acc[q].0 == def && acc[q].1 == user {
                        at = Some(q);
                    }
                    q = q + 1;
                }
                match at {
                    Some(a) => {
                        let c = acc[a].2 + edge.count;
                        acc.set(a, (def, user, c));
                        proof {
                            slot = a as int;
                            assert forall|k: int| 0 <= k < before.len() implies (#[trigger] acc@[k]).0 == before[k].0 && acc@[k].1 == before[k].1 by {}
                            assert forall|k: int| 0 <= k < acc@.len() implies (#[trigger] acc@[k]).0 != acc@[k].1
                                && is_type_mark(*graph, flags@, acc@[k].0) && is_type_mark(*graph, flags@, acc@[k].1)
                                && tie_in(*graph, flags@, post, acc@[k].0, acc@[k].1)
                                && acc@[k].2 as nat == tie_count(*graph, flags@, post, acc@[k].0, acc@[k].1)
                                && acc@[k].2 <= refs_total(post) by {
                                if k != a {
                                    assert(acc@[k] == before[k]);
                                    assert((before[k].0, before[k].1) != (before[a as int].0, before[a as int].1));
                                    let w = choose|w: int| 0 <= w < pre.len() && tie_of_edge(*graph, flags@, #[trigger] pre[w]) == Some((before[k].0, before[k].1));
                                    assert(post[w] == pre[w]);
                                    assert(tie_count(*graph, flags@, post, before[k].0, before[k].1) <= refs_total(post));
                                } else {
                                    assert(post[i as int] == graph.item_edges@[i as int]);
                                    assert(tie_count(*graph, flags@, post, def, user) <= refs_total(post));
                                }
                            }
                        }
                    },
                    None => {
                        acc.push((def, user, edge.count));
                        proof {
                            let last = acc@.len() - 1;
                            slot = last;
                            assert forall|k: int| 0 <= k < before.len() implies (#[trigger] acc@[k]).0 == before[k].0 && acc@[k].1 == before[k].1 by {
                                assert(acc@[k] == before[k]);
                            }
                            assert forall|k: int| 0 <= k < acc@.len() implies (#[trigger] acc@[k]).0 != acc@[k].1
                                && is_type_mark(*graph, flags@, acc@[k].0) && is_type_mark(*graph, flags@, acc@[k].1)
                                && tie_in(*graph, flags@, post, acc@[k].0, acc@[k].1)
                                && acc@[k].2 as nat == tie_count(*graph, flags@, post, acc@[k].0, acc@[k].1)
                                && acc@[k].2 <= refs_total(post) by {
                                if k < last {
                                    assert(acc@[k] == before[k]);
                                    let w = choose|w: int| 0 <= w < pre.len() && tie_of_edge(*graph, flags@, #[trigger] pre[w]) == Some((before[k].0, before[k].1));
                                    assert(post[w] == pre[w]);
                                    assert(tie_count(*graph, flags@, post, before[k].0, before[k].1) <= refs_total(post));
                                } else {
                                    assert(post[i as int] == graph.item_edges@[i as int]);
                                    if tie_in(*graph, flags@, pre, def, user) {
                                        let w = choose|w: int| 0 <= w < pre.len() && tie_of_edge(*graph, flags@, #[trigger] pre[w]) == Some((def, user));
                                        let k2 = choose|k2: int| 0 <= k2 < before.len() && (#[trigger] before[k2]).0 == def && before[k2].1 == user;
                                    }
                                    lemma_tie_count_absent(*graph, flags@, pre, def, user);
                                    assert(tie_count(*graph, flags@, post, def, user) <= refs_total(post));
                                }
                            }
                            assert forall|a2: int, b2: int| 0 <= a2 < b2 < acc@.len() implies ((#[trigger] acc@[a2]).0, acc@[a2].1) != ((#[trigger] acc@[b2]).0, acc@[b2].1) by {
                                if b2 == last {
                                    assert(acc@[a2] == before[a2]);
                                } else {
                                    assert(acc@[a2] == before[a2] && acc@[b2] == before[b2]);
                                }
                            }
                        }
                    },
                }
            },
            None => {
                proof {
                    assert forall|k: int| 0 <= k < acc@.len() implies (#[trigger] acc@[k]).0 != acc@[k].1
                        && is_type_mark(*graph, flags@, acc@[k].0) && is_type_mark(*graph, flags@, acc@[k].1)
                        && tie_in(*graph, flags@, post, acc@[k].0, acc@[k].1)
                        && acc@[k].2 as nat == tie_count(*graph, flags@, post, acc@[k].0, acc@[k].1)
                        && acc@[k].2 <= refs_total(post) by {
                        let w = choose|w: int| 0 <= w < pre.len() && tie_of_edge(*graph, flags@, #[trigger] pre[w]) == Some((acc@[k].0, acc@[k].1));
                        assert(post[w] == pre[w]);
                    }
                }
            },
        }
        proof {
            assert forall|d: u32, u: u32| tie_in(*graph, flags@, post, d, u) implies exists|k: int|
                0 <= k < acc@.len() && (#[trigger] acc@[k]).0 == d && acc@[k].1 == u by {
                let w = choose|w: int| 0 <= w < post.len() && tie_of_edge(*graph, flags@, #[trigger] post[w]) == Some((d, u));
                if w < i {
                    assert(pre[w] == post[w]);
                    assert(tie_in(*graph, flags@, pre, d, u));
                    let k = choose|k: int| 0 <= k < before.len() && (#[trigger] before[k]).0 == d && before[k].1 == u;
                    assert(acc@[k].0 == before[k].0 && acc@[k].1 == before[k].1);
                } else {
                    assert(post[w] == graph.item_edges@[i as int]);
                    assert(tie == Some((d, u)));
                    assert(0 <= slot < acc@.len() && acc@[slot].0 == d && acc@[slot].1 == u);
                }
            }
        }
        i = i + 1;
    }
    assert(graph.item_edges@.take(graph.item_edges@.len() as int) =~= graph.item_edges@);
    // Sort by (def, user); each pair is one entry.
    let mut keyed: Vec<(Vec<u64>, (u32, u32, u32))> = Vec::new();
    let mut q: usize = 0;
    while q < acc.len()
        invariant
            q <= acc@.len(),
            keyed@.len() == q,
            forall|k: int| 0 <= k < keyed@.len() ==> (#[trigger] keyed@[k]).1 == acc@[k] && keyed@[k].0@ == seq![acc@[k].0 as u64, acc@[k].1 as u64],
        decreases acc.len() - q,
    {
        let mut k: Vec<u64> = Vec::new();
        k.push(acc[q].0 as u64);
        k.push(acc[q].1 as u64);
        assert(k@ =~= seq![acc@[q as int].0 as u64, acc@[q as int].1 as u64]);
        keyed.push((k, acc[q]));
        q = q + 1;
    }
    let sorted_keyed = sort_by_key(keyed);
    let ghost sk = sorted_keyed@;
    proof {
        crate::sort::lemma_same_entries(sorted_keyed@, keyed@);
    }
    let sorted = crate::sort::values_of(sorted_keyed);
    proof {
        assert(keyed@.no_duplicates()) by {
            assert forall|a: int, b: int| 0 <= a < keyed@.len() && 0 <= b < keyed@.len() && a != b implies keyed@[a] != keyed@[b] by {
                if a < b {
                    assert((acc@[a].0, acc@[a].1) != (acc@[b].0, acc@[b].1));
                } else {
                    assert((acc@[b].0, acc@[b].1) != (acc@[a].0, acc@[a].1));
                }
            }
        }
        crate::sort::lemma_no_dup_moves(keyed@, sk);
        assert forall|k: int| 0 <= k < sorted@.len() implies (#[trigger] sorted@[k]).0 != sorted@[k].1
            && is_type_mark(*graph, flags@, sorted@[k].0) && is_type_mark(*graph, flags@, sorted@[k].1)
            && tie_in(*graph, flags@, graph.item_edges@, sorted@[k].0, sorted@[k].1)
            && sorted@[k].2 as nat == tie_count(*graph, flags@, graph.item_edges@, sorted@[k].0, sorted@[k].1) by {
            assert(sk.contains(sk[k]));
            let w = choose|w: int| 0 <= w < keyed@.len() && keyed@[w] == sk[k];
            assert(keyed@[w].1 == acc@[w]);
        }
        assert forall|d: u32, u: u32| tie_in(*graph, flags@, graph.item_edges@, d, u) implies exists|k: int|
            0 <= k < sorted@.len() && (#[trigger] sorted@[k]).0 == d && sorted@[k].1 == u by {
            let w = choose|w: int| 0 <= w < acc@.len() && (#[trigger] acc@[w]).0 == d && acc@[w].1 == u;
            assert(keyed@.contains(keyed@[w]));
            let k = choose|k: int| 0 <= k < sk.len() && sk[k] == keyed@[w];
            assert(sorted@[k] == sk[k].1);
        }
        assert forall|a: int, b: int| 0 <= a < b < sorted@.len() implies pair_lt(
            ((#[trigger] sorted@[a]).0, sorted@[a].1),
            ((#[trigger] sorted@[b]).0, sorted@[b].1),
        ) by {
            assert(crate::sort::lex_le(sk[a].0@, sk[b].0@));
            assert(sk.contains(sk[a]));
            assert(sk.contains(sk[b]));
            let wa = choose|w: int| 0 <= w < keyed@.len() && keyed@[w] == sk[a];
            let wb = choose|w: int| 0 <= w < keyed@.len() && keyed@[w] == sk[b];
            assert(sk[a] != sk[b]);
            assert(wa != wb);
            assert((acc@[wa].0, acc@[wa].1) != (acc@[wb].0, acc@[wb].1)) by {
                if wa < wb {
                } else {
                }
            }
            reveal_with_fuel(crate::sort::lex_le, 3);
            let ka = sk[a].0@;
            let kb = sk[b].0@;
            assert(ka == seq![acc@[wa].0 as u64, acc@[wa].1 as u64]);
            assert(kb == seq![acc@[wb].0 as u64, acc@[wb].1 as u64]);
            assert(ka.drop_first() =~= seq![acc@[wa].1 as u64]);
            assert(kb.drop_first() =~= seq![acc@[wb].1 as u64]);
            assert(ka.drop_first().drop_first() =~= Seq::<u64>::empty());
            assert(kb.drop_first().drop_first() =~= Seq::<u64>::empty());
        }
    }
    sorted
}

/// A count of ties is no more than all the references counted.
proof fn lemma_tie_count_bound(graph: CodeGraph, flags: Seq<bool>, edges: Seq<crate::wire::ItemEdge>)
    ensures
        forall|d: u32, u: u32| #[trigger] tie_count(graph, flags, edges, d, u) <= refs_total(edges),
    decreases edges.len(),
{
    if edges.len() > 0 {
        lemma_tie_count_bound(graph, flags, edges.drop_last());
        assert forall|d: u32, u: u32| #[trigger] tie_count(graph, flags, edges, d, u) <= refs_total(edges) by {
            assert(tie_count(graph, flags, edges.drop_last(), d, u) <= refs_total(edges.drop_last()));
        }
    }
}

/// A pair no reference ties counts nothing.
proof fn lemma_tie_count_absent(graph: CodeGraph, flags: Seq<bool>, edges: Seq<crate::wire::ItemEdge>, d: u32, u: u32)
    requires
        !tie_in(graph, flags, edges, d, u),
    ensures
        tie_count(graph, flags, edges, d, u) == 0,
    decreases edges.len(),
{
    if edges.len() > 0 {
        let rest = edges.drop_last();
        assert(!tie_in(graph, flags, rest, d, u)) by {
            if tie_in(graph, flags, rest, d, u) {
                let w = choose|w: int| 0 <= w < rest.len() && tie_of_edge(graph, flags, #[trigger] rest[w]) == Some((d, u));
                assert(edges[w] == rest[w]);
            }
        }
        lemma_tie_count_absent(graph, flags, rest, d, u);
        assert(edges[edges.len() - 1] == edges.last());
    }
}


/// Reference ties at type precision: each end climbs to the outermost mark,
/// and a tie is kept only where both ends land on two different drawn types.
/// Summed per (def, user), sorted by that pair; the reading decides which
/// rest, and the heaviest resting ones carry their count.
fn build_ties(graph: &CodeGraph, flags: &Vec<bool>, ref_dir: RefDir) -> (ties: Vec<Tie>)
    requires
        within_limits(*graph),
    ensures
        forall|k: int| 0 <= k < ties@.len() ==> (#[trigger] ties@[k]).def != ties@[k].user
            && ties@[k].def is Mark && ties@[k].user is Mark
            && is_type_mark(*graph, flags@, ties@[k].def->Mark_0)
            && is_type_mark(*graph, flags@, ties@[k].user->Mark_0)
            && (ties@[k].labeled ==> ties@[k].rest)
            && (ref_dir == RefDir::Both ==> ties@[k].rest),
        forall|k: int| 0 <= k < ties@.len() ==> tie_in(*graph, flags@, graph.item_edges@, (#[trigger] ties@[k]).def->Mark_0, ties@[k].user->Mark_0)
            && ties@[k].count as nat == tie_count(*graph, flags@, graph.item_edges@, ties@[k].def->Mark_0, ties@[k].user->Mark_0),
        forall|d: u32, u: u32| tie_in(*graph, flags@, graph.item_edges@, d, u) ==> exists|k: int|
            0 <= k < ties@.len() && (#[trigger] ties@[k]).def == Anchor::Mark(d) && ties@[k].user == Anchor::Mark(u),
        forall|a: int, b: int| 0 <= a < b < ties@.len() ==> pair_lt(
            ((#[trigger] ties@[a]).def->Mark_0, ties@[a].user->Mark_0),
            ((#[trigger] ties@[b]).def->Mark_0, ties@[b].user->Mark_0),
        ),
{
    let sorted = tie_pairs(graph, flags);
    // Which rest: each reading anchors on the types themselves — by the
    // tie's def when reading what names a type, by its user otherwise — and
    // rests each anchor's heaviest ties, the earlier first among equals.
    let per = ref_dir.per_territory();
    let n = sorted.len();
    let mut rest: Vec<bool> = Vec::new();
    let mut t: usize = 0;
    while t < n
        invariant
            t <= n,
            n == sorted@.len(),
            rest@.len() == t,
            per == ref_dir.spec_per_territory(),
            ref_dir == RefDir::Both ==> forall|k: int| 0 <= k < t ==> rest@[k],
        decreases n - t,
    {
        let resting = match per {
            None => true,
            Some(c) => {
                let cap = if c < TIES_PER_MARK { c } else { TIES_PER_MARK };
                let (d, u, count) = sorted[t];
                let anchor = match ref_dir {
                    RefDir::UsedBy => d,
                    _ => u,
                };
                let mut ahead: usize = 0;
                let mut j: usize = 0;
                while j < n
                    invariant
                        j <= n,
                        n == sorted@.len(),
                        ahead <= j,
                    decreases n - j,
                {
                    let (dj, uj, cj) = sorted[j];
                    let aj = match ref_dir {
                        RefDir::UsedBy => dj,
                        _ => uj,
                    };
                    if aj == anchor && (cj > count || (cj == count && j < t)) {
                        ahead = ahead + 1;
                    }
                    j = j + 1;
                }
                ahead < cap
            },
        };
        rest.push(resting);
        t = t + 1;
    }
    // The label bar: the thirteenth heaviest resting count, never under 2.
    let mut counts: Vec<(Vec<u64>, u32)> = Vec::new();
    let mut t: usize = 0;
    while t < n
        invariant
            t <= n,
            n == sorted@.len(),
            rest@.len() == n,
        decreases n - t,
    {
        if rest[t] {
            let mut k: Vec<u64> = Vec::new();
            k.push(u64::MAX - sorted[t].2 as u64);
            counts.push((k, sorted[t].2));
        }
        t = t + 1;
    }
    let heaviest = crate::sort::values_of(sort_by_key(counts));
    let bar0 = if TIE_LABELS < heaviest.len() { heaviest[TIE_LABELS] } else { 0 };
    let bar = if bar0 < 2 { 2 } else { bar0 };
    let mut ties: Vec<Tie> = Vec::new();
    let mut t: usize = 0;
    while t < n
        invariant
            t <= n,
            n == sorted@.len(),
            rest@.len() == n,
            ref_dir == RefDir::Both ==> forall|k: int| 0 <= k < n ==> rest@[k],
            forall|k: int| 0 <= k < sorted@.len() ==> (#[trigger] sorted@[k]).0 != sorted@[k].1
                && is_type_mark(*graph, flags@, sorted@[k].0) && is_type_mark(*graph, flags@, sorted@[k].1),
            ties@.len() == t,
            forall|k: int| 0 <= k < ties@.len() ==> (#[trigger] ties@[k]).def == Anchor::Mark(sorted@[k].0)
                && ties@[k].user == Anchor::Mark(sorted@[k].1) && ties@[k].count == sorted@[k].2,
            forall|k: int| 0 <= k < ties@.len() ==> (#[trigger] ties@[k]).def != ties@[k].user
                && ties@[k].def is Mark && ties@[k].user is Mark
                && is_type_mark(*graph, flags@, ties@[k].def->Mark_0)
                && is_type_mark(*graph, flags@, ties@[k].user->Mark_0)
                && (ties@[k].labeled ==> ties@[k].rest)
                && (ref_dir == RefDir::Both ==> ties@[k].rest),
        decreases n - t,
    {
        let (d, u, count) = sorted[t];
        let r = rest[t];
        ties.push(Tie { def: Anchor::Mark(d), user: Anchor::Mark(u), count, rest: r, labeled: r && count > bar });
        t = t + 1;
    }
    proof {
        assert forall|d: u32, u: u32| tie_in(*graph, flags@, graph.item_edges@, d, u) implies exists|k: int|
            0 <= k < ties@.len() && (#[trigger] ties@[k]).def == Anchor::Mark(d) && ties@[k].user == Anchor::Mark(u) by {
            let k = choose|k: int| 0 <= k < sorted@.len() && (#[trigger] sorted@[k]).0 == d && sorted@[k].1 == u;
            assert(ties@[k].def == Anchor::Mark(d));
        }
        assert forall|a: int, b: int| 0 <= a < b < ties@.len() implies pair_lt(
            ((#[trigger] ties@[a]).def->Mark_0, ties@[a].user->Mark_0),
            ((#[trigger] ties@[b]).def->Mark_0, ties@[b].user->Mark_0),
        ) by {
            assert(pair_lt((sorted@[a].0, sorted@[a].1), (sorted@[b].0, sorted@[b].1)));
        }
    }
    ties
}

/// How many marks pass a test, over the working copy's marks.
pub open spec fn count_marks(marks: Seq<DataMark>, p: spec_fn(DataMark) -> bool) -> nat {
    marks.filter(p).len()
}

pub open spec fn is_struct_like(m: DataMark) -> bool {
    !m.ghosted && (m.kind == ItemKind::Struct || m.kind == ItemKind::Union)
}

pub open spec fn is_enum_mark(m: DataMark) -> bool {
    !m.ghosted && m.kind == ItemKind::Enum
}

pub open spec fn is_fn_mark(m: DataMark) -> bool {
    !m.ghosted && m.kind == ItemKind::Fn
}

pub open spec fn is_added(m: DataMark) -> bool {
    m.delta == Delta::Added
}

pub open spec fn is_ghost_mark(m: DataMark) -> bool {
    m.ghosted
}

pub open spec fn is_changed(m: DataMark) -> bool {
    m.delta == Delta::Changed
}

/// The name a frame goes by: its module, or its crate's name.
pub open spec fn frame_word(f: Frame) -> Seq<char> {
    match f.module {
        Some(m) => m@,
        None => f.krate@,
    }
}

/// A diff-touched mark sits in a frame going by `name`.
#[verifier::opaque]
pub open spec fn lettered_in(marks: Seq<DataMark>, frames: Seq<Frame>, name: Seq<char>) -> bool {
    exists|k: int|
        0 <= k < marks.len() && spec_letter((#[trigger] marks[k]).ghosted, marks[k].delta) is Some
            && (marks[k].frame as int) < frames.len() && frame_word(frames[marks[k].frame as int]) == name
}

/// The changed modules as the chart lists them: the names of the frames
/// holding a diff-touched mark, in name order, each once.
pub open spec fn changed_names_fit(marks: Seq<DataMark>, frames: Seq<Frame>, names: Seq<String>) -> bool {
    &&& forall|a: int, b: int| 0 <= a < b < names.len() ==> crate::sort::lex_le(text_key((#[trigger] names[a])@), text_key((#[trigger] names[b])@))
        && names[a]@ != names[b]@
    &&& forall|k: int| 0 <= k < names.len() ==> lettered_in(marks, frames, (#[trigger] names[k])@)
    &&& forall|name: Seq<char>| #[trigger] lettered_in(marks, frames, name) ==> exists|k: int| 0 <= k < names.len() && (#[trigger] names[k])@ == name
}

/// The names of the frames holding a diff-touched mark, in name order, each
/// once.
#[verifier::rlimit(60)]
#[verifier::spinoff_prover]
fn changed_module_names(marks: &Vec<DataMark>, frames: &Vec<Frame>) -> (out: Vec<String>)
    requires
        forall|k: int| 0 <= k < marks@.len() ==> ((#[trigger] marks@[k]).frame as int) < frames@.len(),
    ensures
        changed_names_fit(marks@, frames@, out@),
{
    let mut modules: Vec<(Vec<u64>, String)> = Vec::new();
    let mut q: usize = 0;
    while q < marks.len()
        invariant
            q <= marks@.len(),
            forall|k: int| 0 <= k < marks@.len() ==> ((#[trigger] marks@[k]).frame as int) < frames@.len(),
            forall|j: int| 0 <= j < modules@.len() ==> (#[trigger] modules@[j]).0@ == text_key(modules@[j].1@)
                && lettered_in(marks@, frames@, modules@[j].1@),
            forall|k: int| 0 <= k < q && spec_letter((#[trigger] marks@[k]).ghosted, marks@[k].delta) is Some ==> exists|j: int|
                0 <= j < modules@.len() && modules@[j].1@ == frame_word(frames@[marks@[k].frame as int]),
        decreases marks.len() - q,
    {
        let ghost before = modules@;
        let m = &marks[q];
        if m.letter().is_some() {
            let frame = &frames[m.frame as usize];
            let name = match &frame.module {
                Some(module) => module.clone(),
                None => frame.krate.clone(),
            };
            let mut key: Vec<u64> = Vec::new();
            push_text(&mut key, name.as_str());
            proof {
                assert(key@ =~= text_key(name@));
                assert(name@ == frame_word(frames@[m.frame as int]));
                assert(lettered_in(marks@, frames@, name@)) by {
                    reveal(lettered_in);
                    assert(marks@[q as int] == *m);
                }
            }
            modules.push((key, name));
        }
        proof {
            assert forall|j: int| 0 <= j < modules@.len() implies (#[trigger] modules@[j]).0@ == text_key(modules@[j].1@)
                && lettered_in(marks@, frames@, modules@[j].1@) by {
                if j < before.len() {
                    assert(modules@[j] == before[j]);
                }
            }
            assert forall|k: int| 0 <= k < q + 1 && spec_letter((#[trigger] marks@[k]).ghosted, marks@[k].delta) is Some implies exists|j: int|
                0 <= j < modules@.len() && modules@[j].1@ == frame_word(frames@[marks@[k].frame as int]) by {
                if k < q {
                    let j = choose|j: int| 0 <= j < before.len() && before[j].1@ == frame_word(frames@[marks@[k].frame as int]);
                    assert(modules@[j] == before[j]);
                } else {
                    assert(marks@[k] == *m);
                    assert(modules@[modules@.len() - 1].1@ == frame_word(frames@[marks@[k].frame as int]));
                }
            }
        }
        q = q + 1;
    }
    let ghost mv = modules@;
    let sorted = sort_by_key(modules);
    let ghost sk = sorted@;
    proof {
        crate::sort::lemma_same_entries(sk, mv);
        assert forall|j: int| 0 <= j < sk.len() implies (#[trigger] sk[j]).0@ == text_key(sk[j].1@)
            && lettered_in(marks@, frames@, sk[j].1@) by {
            assert(sk.contains(sk[j]));
            let w = choose|w: int| 0 <= w < mv.len() && mv[w] == sk[j];
        }
    }
    let names = crate::sort::values_of(sorted);
    let mut out: Vec<String> = Vec::new();
    let mut j: usize = 0;
    let ghost mut pos: Seq<int> = Seq::empty();
    while j < names.len()
        invariant
            j <= names@.len(),
            names@.len() == sk.len(),
            forall|i: int| 0 <= i < sk.len() ==> #[trigger] names@[i] == sk[i].1,
            forall|i: int| 0 <= i < sk.len() ==> (#[trigger] sk[i]).0@ == text_key(sk[i].1@)
                && lettered_in(marks@, frames@, sk[i].1@),
            crate::sort::sorted_by_key(sk),
            out@.len() <= j,
            j == 0 <==> out@.len() == 0,
            j > 0 ==> out@[out@.len() - 1]@ == names@[j - 1]@,
            pos.len() == j,
            forall|i: int| 0 <= i < j ==> 0 <= #[trigger] pos[i] < out@.len() && out@[pos[i]]@ == names@[i]@,
            forall|k: int| 0 <= k < out@.len() ==> lettered_in(marks@, frames@, (#[trigger] out@[k])@),
            forall|a: int, b: int| 0 <= a < b < out@.len() ==> crate::sort::lex_le(text_key((#[trigger] out@[a])@), text_key((#[trigger] out@[b])@))
                && out@[a]@ != out@[b]@,
            forall|k: int| 0 <= k < out@.len() ==> crate::sort::lex_le(text_key((#[trigger] out@[k])@), if j > 0 { text_key(names@[j - 1]@) } else { text_key(out@[k]@) }),
        decreases names.len() - j,
    {
        let ghost o0 = out@;
        let dup = out.len() > 0 && out[out.len() - 1].eq(&names[j]);
        if !dup {
            proof {
                let nj = names@[j as int]@;
                assert(sk[j as int].0@ == text_key(nj));
                if j > 0 {
                    let last = names@[j - 1]@;
                    assert(sk[j - 1].0@ == text_key(last));
                    assert(crate::sort::lex_le(text_key(last), text_key(nj)));
                    assert(text_key(last) != text_key(nj)) by {
                        if text_key(last) == text_key(nj) {
                            lemma_text_key_split(last, nj, Seq::empty(), Seq::empty());
                            assert(text_key(last) + Seq::<u64>::empty() =~= text_key(last));
                            assert(text_key(nj) + Seq::<u64>::empty() =~= text_key(nj));
                        }
                    }
                    assert forall|k: int| 0 <= k < o0.len() implies crate::sort::lex_le(text_key((#[trigger] o0[k])@), text_key(nj))
                        && text_key(o0[k]@) != text_key(nj) by {
                        lemma_lex_past(text_key(o0[k]@), text_key(last), text_key(nj));
                    }
                }
            }
            out.push(names[j].clone());
            proof {
                pos = pos.push(out@.len() - 1);
                crate::sort::lemma_lex_refl(text_key(names@[j as int]@));
                assert forall|a: int, b: int| 0 <= a < b < out@.len() implies crate::sort::lex_le(text_key((#[trigger] out@[a])@), text_key((#[trigger] out@[b])@))
                    && out@[a]@ != out@[b]@ by {
                    if b == out@.len() - 1 {
                        assert(out@[a] == o0[a]);
                    } else {
                        assert(out@[a] == o0[a] && out@[b] == o0[b]);
                    }
                }
                assert forall|i: int| 0 <= i < j + 1 implies 0 <= #[trigger] pos[i] < out@.len() && out@[pos[i]]@ == names@[i]@ by {
                    if i < j {
                        assert(out@[pos[i]] == o0[pos[i]]);
                    }
                }
                assert forall|k: int| 0 <= k < out@.len() implies lettered_in(marks@, frames@, (#[trigger] out@[k])@) by {
                    if k < o0.len() {
                        assert(out@[k] == o0[k]);
                    } else {
                        assert(out@[k]@ == sk[j as int].1@);
                    }
                }
                assert forall|k: int| 0 <= k < out@.len() implies crate::sort::lex_le(text_key((#[trigger] out@[k])@), text_key(names@[j as int]@)) by {
                    if k < o0.len() {
                        assert(out@[k] == o0[k]);
                    }
                }
            }
        } else {
            proof {
                pos = pos.push(out@.len() - 1);
                let nj = names@[j as int]@;
                assert(out@[out@.len() - 1]@ == nj);
                assert forall|k: int| 0 <= k < out@.len() implies crate::sort::lex_le(text_key((#[trigger] out@[k])@), text_key(nj)) by {
                    assert(text_key(names@[j - 1]@) == text_key(nj));
                }
            }
        }
        j = j + 1;
    }
    proof {
        assert forall|name: Seq<char>| #[trigger] lettered_in(marks@, frames@, name) implies exists|k: int| 0 <= k < out@.len() && (#[trigger] out@[k])@ == name by {
            reveal(lettered_in);
            let k = choose|k: int|
                0 <= k < marks@.len() && spec_letter((#[trigger] marks@[k]).ghosted, marks@[k].delta) is Some
                    && (marks@[k].frame as int) < frames@.len() && frame_word(frames@[marks@[k].frame as int]) == name;
            let w = choose|w: int| 0 <= w < mv.len() && mv[w].1@ == frame_word(frames@[marks@[k].frame as int]);
            assert(mv.contains(mv[w]));
            let i = choose|i: int| 0 <= i < sk.len() && sk[i] == mv[w];
            assert(out@[pos[i]]@ == name);
        }
    }
    out
}

/// A root of the chart: a drawn static, or a drawn type that no structural
/// hold has as its held end. A function is never one.
pub open spec fn is_root_mark(m: DataMark, holds: Seq<Hold>) -> bool {
    !m.ghosted && m.kind != ItemKind::Fn && (m.kind == ItemKind::Static || !fan_held(
        holds,
        holds.len() as int,
        Anchor::Mark(m.id),
    ))
}

/// Counts the roots among the marks, reading who is held off the fan-in.
fn count_roots(marks: &Vec<DataMark>, fan: &Vec<(Anchor, Vec<Anchor>)>, holds: Ghost<Seq<Hold>>) -> (n: usize)
    requires
        forall|x: Anchor| fan_held(holds@, holds@.len() as int, x) <==> exists|k: int| 0 <= k < fan@.len() && (#[trigger] fan@[k]).0 == x,
    ensures
        n == count_marks(marks@, |m: DataMark| is_root_mark(m, holds@)),
{
    let ghost p = |m: DataMark| is_root_mark(m, holds@);
    let mut n: usize = 0;
    let mut i: usize = 0;
    while i < marks.len()
        invariant
            i <= marks@.len(),
            p == (|m: DataMark| is_root_mark(m, holds@)),
            n == marks@.take(i as int).filter(p).len(),
            n <= i,
            forall|x: Anchor| fan_held(holds@, holds@.len() as int, x) <==> exists|k: int| 0 <= k < fan@.len() && (#[trigger] fan@[k]).0 == x,
        decreases marks.len() - i,
    {
        let m = &marks[i];
        let held = holders_of(fan, Anchor::Mark(m.id)).is_some();
        proof {
            assert(marks@.take(i + 1).drop_last() =~= marks@.take(i as int));
            assert(marks@.take(i + 1).last() == marks@[i as int]);
            reveal(Seq::filter);
            if held {
                let k = choose|k: int| 0 <= k < fan@.len() && fan@[k].0 == Anchor::Mark(m.id);
                assert(fan_held(holds@, holds@.len() as int, Anchor::Mark(m.id)));
            } else {
                assert(!fan_held(holds@, holds@.len() as int, Anchor::Mark(m.id)));
            }
            assert(p(*m) == (!m.ghosted && m.kind != ItemKind::Fn && (m.kind == ItemKind::Static || !held)));
        }
        if !m.ghosted && m.kind != ItemKind::Fn && (m.kind == ItemKind::Static || !held) {
            n = n + 1;
        }
        i = i + 1;
    }
    proof {
        assert(marks@.take(marks@.len() as int) =~= marks@);
    }
    n
}

fn count_where(marks: &Vec<DataMark>, which: u8) -> (n: usize)
    requires
        which <= 5,
    ensures
        which == 0 ==> n == count_marks(marks@, |m: DataMark| is_struct_like(m)),
        which == 1 ==> n == count_marks(marks@, |m: DataMark| is_enum_mark(m)),
        which == 2 ==> n == count_marks(marks@, |m: DataMark| is_fn_mark(m)),
        which == 3 ==> n == count_marks(marks@, |m: DataMark| is_added(m)),
        which == 4 ==> n == count_marks(marks@, |m: DataMark| is_ghost_mark(m)),
        which == 5 ==> n == count_marks(marks@, |m: DataMark| is_changed(m)),
{
    let ghost p: spec_fn(DataMark) -> bool = if which == 0 {
        |m: DataMark| is_struct_like(m)
    } else if which == 1 {
        |m: DataMark| is_enum_mark(m)
    } else if which == 2 {
        |m: DataMark| is_fn_mark(m)
    } else if which == 3 {
        |m: DataMark| is_added(m)
    } else if which == 4 {
        |m: DataMark| is_ghost_mark(m)
    } else {
        |m: DataMark| is_changed(m)
    };
    let mut n: usize = 0;
    let mut i: usize = 0;
    while i < marks.len()
        invariant
            i <= marks@.len(),
            n == marks@.take(i as int).filter(p).len(),
            n <= i,
            which <= 5,
            which == 0 ==> p == (|m: DataMark| is_struct_like(m)),
            which == 1 ==> p == (|m: DataMark| is_enum_mark(m)),
            which == 2 ==> p == (|m: DataMark| is_fn_mark(m)),
            which == 3 ==> p == (|m: DataMark| is_added(m)),
            which == 4 ==> p == (|m: DataMark| is_ghost_mark(m)),
            which == 5 ==> p == (|m: DataMark| is_changed(m)),
        decreases marks.len() - i,
    {
        let m = &marks[i];
        let hit = if which == 0 {
            !m.ghosted && (m.kind == ItemKind::Struct || m.kind == ItemKind::Union)
        } else if which == 1 {
            !m.ghosted && m.kind == ItemKind::Enum
        } else if which == 2 {
            !m.ghosted && m.kind == ItemKind::Fn
        } else if which == 3 {
            m.delta == Delta::Added
        } else if which == 4 {
            m.ghosted
        } else {
            m.delta == Delta::Changed
        };
        proof {
            assert(marks@.take(i + 1).drop_last() =~= marks@.take(i as int));
            reveal(Seq::filter);
            assert(hit == p(marks@[i as int]));
        }
        if hit {
            n = n + 1;
        }
        i = i + 1;
    }
    assert(marks@.take(marks@.len() as int) =~= marks@);
    n
}

impl DataModel {
    /// Read one build of the data chart out of the survey, at the reading the
    /// reader set.
    #[verifier::rlimit(100)]
    #[verifier::spinoff_prover]
    pub fn build(graph: &CodeGraph, ref_dir: RefDir, doors: Doors) -> (model: Self)
        requires
            within_limits(*graph),
        ensures
            model.doors == doors,
            // One frame per crate and per top-level module holding a charted
            // item or a ghost, crate frames first, each in key order.
            crate::data_frames::frames_exact(*graph, model.frames@),
            // A hold rests exactly when it is diff ink or the mark it lands
            // on has at most `HELD_CAP` live holders.
            crate::data_rest::rests_fit(model.holds@),
            // A mark whose fan-in folds counts its live holders: signatures
            // as `named_by`, the rest as `held_by`; every other mark none.
            crate::data_rest::held_counts_fit(*graph, model.holds@, model.marks@),
            // Each frame counts the charted items the doors keep off the
            // paper, and those the budget folds, whose module it is.
            crate::data_frames::private_fit(*graph, model.frames@, doors),
            // Each frame lists the marks drawn in it, in mark order, and its
            // forest seats them as [`forest_fits`] says.
            forall|f: int| 0 <= f < model.frames@.len() ==> (#[trigger] model.frames@[f]).marks@ == roster_marks(
                model.marks@.map_values(|m: DataMark| (m.frame, m.id)),
                f as u32,
            ),
            // The seats the forests grow from close no ring: a seat that
            // would climb back to its own mark is refused.
            exists|drawn: Seq<u32>, parents: Seq<Option<Anchor>>, folds: Seq<(Anchor, u32, u32)>|
                #[trigger] forests_fit(*graph, model.frames@, drawn, parents, folds) && crate::data_model::seats_acyclic(parents),
            // Every edge lands on two different anchors, and diff ink rests.
            forall|k: int| 0 <= k < model.holds@.len() ==> (#[trigger] model.holds@[k]).held != model.holds@[k].holder
                && (model.holds@[k].event.is_some() ==> model.holds@[k].rest),
            // Ties join two different drawn types, and a labeled tie rests.
            forall|k: int| 0 <= k < model.ties@.len() ==> (#[trigger] model.ties@[k]).def != model.ties@[k].user
                && model.ties@[k].def is Mark && model.ties@[k].user is Mark
                && (model.ties@[k].labeled ==> model.ties@[k].rest)
                && (ref_dir == RefDir::Both ==> model.ties@[k].rest),
            // Frames are numbered in order; a module frame sits in its
            // crate's frame.
            forall|f: int| 0 <= f < model.frames@.len() ==> (#[trigger] model.frames@[f]).id == f,
            forall|f: int| 0 <= f < model.frames@.len() ==> match (#[trigger] model.frames@[f]).parent {
                Some(p) => (p as int) < model.frames@.len() && model.frames@[p as int].module.is_none()
                    && model.frames@[p as int].krate@ == model.frames@[f].krate@ && model.frames@[f].module.is_some(),
                None => true,
            },
            // Every mark sits in a frame; a drawn mark of the working copy is
            // one the door admits, and a ghost is never counted as changed.
            forall|k: int| 0 <= k < model.marks@.len() ==> ((#[trigger] model.marks@[k]).frame as int) < model.frames@.len(),
            forall|k: int| 0 <= k < model.marks@.len() && !(#[trigger] model.marks@[k]).ghosted ==>
                (model.marks@[k].id as int) < graph.items@.len()
                && spec_drawable(graph.items@[model.marks@[k].id as int], doors),
            // The facts count the marks.
            model.structs == count_marks(model.marks@, |m: DataMark| is_struct_like(m)),
            model.enums == count_marks(model.marks@, |m: DataMark| is_enum_mark(m)),
            model.fns == count_marks(model.marks@, |m: DataMark| is_fn_mark(m)),
            model.added == count_marks(model.marks@, |m: DataMark| is_added(m)),
            model.removed == count_marks(model.marks@, |m: DataMark| is_ghost_mark(m)),
            model.changed == count_marks(model.marks@, |m: DataMark| is_changed(m)),
            model.trait_holds <= graph.holds@.len(),
            // Every drawn static is a root, and so is every drawn type that
            // no structural hold has as its held end.
            model.roots == count_marks(model.marks@, |m: DataMark| is_root_mark(m, model.holds@)),
            // The frames holding a diff-touched mark, by name, in name order,
            // each once.
            changed_names_fit(model.marks@, model.frames@, model.changed_modules@),
            model.multi_crate == (crate::fn_build::tally(model.frames@, |f: Frame| f.module is None) > 1),
            // The reference ties are exactly the pairs of kept types the
            // references tie, each once, counted, in pair order; within the
            // budget every type the doors admit is kept.
            // Every holds edge lands on the anchors its ends are drawn as:
            // one hold per (held, holder, kind, wrapper, event), counting
            // the fields of every edge drawn under it.
            exists|kept: Set<u32>, anchors: Seq<Option<Anchor>>|
                #![trigger ties_fit(*graph, tie_flags(*graph, kept), model.ties@), holds_fit(anchors, graph.holds@, model.holds@)]
                kept.subset_of(drawable_ids(*graph, doors)) && (drawable_ids(*graph, doors).len() <= MARK_BUDGET ==> kept
                    == drawable_ids(*graph, doors)) && (forall|i: u32| #[trigger] drawable_ids(*graph, doors).contains(i)
                    && !may_fold(graph.items@[i as int]) ==> kept.contains(i)) && crate::data_frames::more_fit(
                    *graph,
                    model.frames@,
                    doors,
                    kept,
                ) && crate::data_frames::marks_kept(*graph, kept, model.marks@) && kept_ranked(*graph, doors, kept)
                    && rows_fit(*graph, tie_flags(*graph, kept), model.marks@) && ties_fit(*graph, tie_flags(*graph, kept), model.ties@)
                    && anchors.len() == graph.items@.len() + graph.ghosts@.len()
                    && (forall|x: int| 0 <= x < anchors.len() ==> model_anchor_fits(*graph, model.frames@, doors, kept, x, #[trigger] anchors[x]))
                    && holds_fit(anchors, graph.holds@, model.holds@)
                    && model.trait_holds as nat == crate::fn_build::tally(
                    graph.holds@,
                    |e: crate::wire::HoldEdge| trait_hold(*graph, anchors, e),
                ),
            // Each item of the working copy is drawn once at most, as the
            // survey writes it, in the frame of its file's module; ghosts
            // follow, each as the base wrote it.
            forall|k: int| 0 <= k < model.marks@.len() && !(#[trigger] model.marks@[k]).ghosted ==> mark_of_item(
                *graph,
                model.frames@,
                model.marks@[k],
            ),
            forall|k: int| 0 <= k < model.marks@.len() && (#[trigger] model.marks@[k]).ghosted ==> exists|g: int|
                0 <= g < graph.ghosts@.len() && mark_of_ghost(model.frames@, #[trigger] graph.ghosts@[g], model.marks@[k]),
            forall|a: int, b: int| 0 <= a < b < model.marks@.len() && !(#[trigger] model.marks@[b]).ghosted ==> !(
            #[trigger] model.marks@[a]).ghosted && model.marks@[a].id < model.marks@[b].id,
            // Within the budget, every item the doors admit whose module has a
            // frame is drawn; so is every ghost whose module has one.
            drawable_ids(*graph, doors).len() <= MARK_BUDGET ==> forall|i: u32|
                #[trigger] drawable_ids(*graph, doors).contains(i) && (item_key(*graph, i) matches Some(key) && !no_frame_of(
                    model.frames@,
                    key.0,
                    key.1,
                )) ==> exists|k: int| 0 <= k < model.marks@.len() && !(#[trigger] model.marks@[k]).ghosted && model.marks@[k].id == i,
            forall|g: int|
                0 <= g < graph.ghosts@.len() && !no_frame_of(
                    model.frames@,
                    (#[trigger] graph.ghosts@[g]).krate@,
                    crate::paths::spec_module_of(graph.ghosts@[g].path@),
                ) ==> exists|k: int| 0 <= k < model.marks@.len() && (#[trigger] model.marks@[k]).ghosted && model.marks@[k].id == graph.ghosts@[g].id,
    {
        let n = graph.items.len() + graph.ghosts.len();
        let degree = degrees(graph, n);
        let (drawn0, private) = split_drawn(graph, doors);
        proof {
            assert forall|k: int| 0 <= k < drawn0@.len() implies (#[trigger] drawn0@[k] as int) < graph.items@.len() by {}
        }
        let (drawn, folded) = fold_budget(graph, drawn0, &degree);
        proof {
            // Each list is strictly increasing below the item count, so it is
            // no longer than the items.
            lemma_increasing_len(drawn@, graph.items@.len() as int);
            lemma_increasing_len(folded@, graph.items@.len() as int);
            lemma_increasing_len(private@, graph.items@.len() as int);
            assert forall|k: int| 0 <= k < drawn@.len() implies (#[trigger] drawn@[k] as int) < graph.items@.len() by {
                assert(drawn0@.contains(drawn@[k]));
            }
            assert forall|k: int| 0 <= k < folded@.len() implies (#[trigger] folded@[k] as int) < graph.items@.len() by {
                assert(drawn0@.contains(folded@[k]));
            }
        }
        // ---- Frames: one per crate, one per top-level module inside it. ----
        let ni = graph.items.len();
        let ids = crate::data_frames::named_ids(ni, &drawn, &folded, &private);
        let keys = frame_keys(graph, &ids);
        let flist = frame_list(&keys);
        let place = place(graph, &flist, &drawn, &folded, &private);
        // ---- Holds: every edge, landed on an anchor. -------------------------
        let (holds0, trait_holds) = gather_holds(graph, &place.anchor_of, flist.len());
        let fan = fan_in(&holds0);
        let folds = folded_fan(graph, &fan);
        let holds = set_rest(holds0, &folds);
        // ---- Seating. --------------------------------------------------------
        // ---- The marks themselves. ---------------------------------------------
        let mut flags: Vec<bool> = Vec::new();
        let mut k: usize = 0;
        while k < n
            invariant
                k <= n,
                flags@.len() == k,
                forall|x: int| 0 <= x < k ==> !(#[trigger] flags@[x]),
            decreases n - k,
        {
            flags.push(false);
            k = k + 1;
        }
        let mut q: usize = 0;
        while q < drawn.len()
            invariant
                q <= drawn@.len(),
                flags@.len() == n,
                forall|x: int| 0 <= x < n ==> (#[trigger] flags@[x] <==> exists|j: int| 0 <= j < q && drawn@[j] == x),
            decreases drawn.len() - q,
        {
            if (drawn[q] as usize) < n {
                flags.set(drawn[q] as usize, true);
            }
            proof {
                assert forall|x: int| 0 <= x < n implies (#[trigger] flags@[x] <==> exists|j: int| 0 <= j < q + 1 && drawn@[j] == x) by {
                    if x == drawn@[q as int] {
                        assert(drawn@[q as int] == x);
                    }
                }
            }
            q = q + 1;
        }
        let mut ghost_flags: Vec<bool> = Vec::new();
        let mut k: usize = 0;
        while k < n
            invariant
                k <= n,
                flags@.len() == n,
                ghost_flags@.len() == k,
                forall|x: int| 0 <= x < k ==> #[trigger] ghost_flags@[x] == flags@[x],
            decreases n - k,
        {
            ghost_flags.push(flags[k]);
            k = k + 1;
        }
        let mut q: usize = 0;
        while q < graph.ghosts.len()
            invariant
                q <= graph.ghosts@.len(),
                ghost_flags@.len() == n,
                flags@.len() == n,
                forall|x: int| 0 <= x < n ==> (#[trigger] ghost_flags@[x] <==> flags@[x] || exists|j: int| 0 <= j < q && graph.ghosts@[j].id == x),
            decreases graph.ghosts.len() - q,
        {
            if (graph.ghosts[q].id as usize) < n {
                ghost_flags.set(graph.ghosts[q].id as usize, true);
            }
            proof {
                assert forall|x: int| 0 <= x < n implies (#[trigger] ghost_flags@[x] <==> flags@[x] || exists|j: int| 0 <= j < q + 1 && graph.ghosts@[j].id == x) by {
                    if x == graph.ghosts@[q as int].id {
                        assert(graph.ghosts@[q as int].id == x);
                    }
                }
            }
            q = q + 1;
        }
        let table = targets(graph, &ghost_flags);
        let marks = build_marks(graph, &flist, &drawn, &table, &folds);
        let parents = seat_parents(graph, &flist, &drawn, &holds, &folds);
        let roster = mark_pairs(&marks);
        let frames = assemble_frames(graph, &flist, &place, &drawn, &parents, &folds, &roster);
        // ---- Reference ties, at type precision. -------------------------------
        let ties = build_ties(graph, &ghost_flags, ref_dir);
        // ---- Facts. -------------------------------------------------------------
        let structs = count_where(&marks, 0);
        let enums = count_where(&marks, 1);
        let fns = count_where(&marks, 2);
        let added = count_where(&marks, 3);
        let removed = count_where(&marks, 4);
        let changed = count_where(&marks, 5);
        proof {
            assert forall|x: Anchor| fan_held(holds@, holds@.len() as int, x) <==> fan_held(holds0@, holds0@.len() as int, x) by {
                if fan_held(holds@, holds@.len() as int, x) {
                    let i = choose|i: int| 0 <= i < holds@.len() && (#[trigger] holds@[i]).event != Some(HoldEvent::Removed) && holds@[i].held == x;
                    assert(holds0@[i].event != Some(HoldEvent::Removed) && holds0@[i].held == x);
                }
                if fan_held(holds0@, holds0@.len() as int, x) {
                    let i = choose|i: int| 0 <= i < holds0@.len() && (#[trigger] holds0@[i]).event != Some(HoldEvent::Removed) && holds0@[i].held == x;
                    assert(holds@[i].event != Some(HoldEvent::Removed) && holds@[i].held == x);
                }
            }
        }
        let roots = count_roots(&marks, &fan, Ghost(holds@));
        let changed_modules = changed_module_names(&marks, &frames);
        let multi_crate = count_crates(&flist) > 1;
        proof {
            lemma_marks_in_frames(*graph, doors, flist@, frames@, drawn0@, drawn@, marks@);
            lemma_crate_count(flist@, frames@);
            lemma_kept(*graph, doors, drawn0@, drawn@, folded@);
            lemma_kept_ranked(*graph, doors, drawn0@, drawn@, folded@, private@);
            let kept = Set::new(|x: u32| drawn@.contains(x));
            assert(ghost_flags@ =~= tie_flags(*graph, kept)) by {
                assert forall|x: int| 0 <= x < ghost_flags@.len() implies #[trigger] ghost_flags@[x] == tie_flags(*graph, kept)[x] by {
                    if flags@[x] {
                        let j = choose|j: int| 0 <= j < drawn@.len() && drawn@[j] == x;
                        assert(drawn@.contains(x as u32));
                    }
                    if drawn@.contains(x as u32) {
                        let j = choose|j: int| 0 <= j < drawn@.len() && drawn@[j] == x as u32;
                        assert(drawn@[j] == x);
                    }
                }
            }
            assert(ties_fit(*graph, tie_flags(*graph, kept), ties@));
            assert(rows_fit(*graph, tie_flags(*graph, kept), marks@)) by {
                reveal(rows_fit);
                assert(marks_rows_read(*graph, table@, marks@));
            }
            let anchors = place.anchor_of@;
            assert forall|x: int| 0 <= x < anchors.len() implies model_anchor_fits(*graph, frames@, doors, kept, x, #[trigger] anchors[x]) by {
                lemma_anchor_model(*graph, doors, flist@, frames@, drawn0@, drawn@, folded@, private@, x, anchors[x]);
            }
            lemma_holds_rest(anchors, graph.holds@, holds0@, holds@);
            assert(holds_fit(anchors, graph.holds@, holds@));
            assert forall|k: int| 0 <= k < marks@.len() && !(#[trigger] marks@[k]).ghosted implies
                (marks@[k].id as int) < graph.items@.len()
                && spec_drawable(graph.items@[marks@[k].id as int], doors) by {
                assert(drawn@.contains(marks@[k].id));
                let w = choose|w: int| 0 <= w < drawn@.len() && drawn@[w] == marks@[k].id;
                assert(drawn0@.contains(drawn@[w]));
            }
            assert forall|k: int| 0 <= k < holds@.len() implies (#[trigger] holds@[k]).held != holds@[k].holder
                && (holds@[k].event.is_some() ==> holds@[k].rest) by {
                assert(holds0@[k].held != holds0@[k].holder);
            }
            crate::data_rest::lemma_rests(*graph, holds0@, holds@, fan@, folds@);
            crate::data_rest::lemma_held_counts(*graph, holds0@, holds@, fan@, folds@, marks@);
            crate::data_frames::lemma_counts(*graph, doors, drawn0@, drawn@, folded@, private@, flist@, frames@, place.private@, place.more@);
            crate::data_frames::lemma_kept_marks(*graph, drawn@, folded@, private@, ids@, keys@, flist@, marks@);
            crate::data_frames::lemma_frames_exact(*graph, doors, drawn0@, drawn@, folded@, private@, ids@, keys@, flist@, frames@);
        }
        DataModel {
            frames,
            marks,
            holds,
            ties,
            multi_crate,
            doors,
            structs,
            enums,
            fns,
            roots,
            added,
            removed,
            changed,
            changed_modules,
            trait_holds,
        }
    }
}

/// How many crate frames there are: the frames with no module.
fn count_crates(flist: &Vec<(String, Option<String>)>) -> (n: usize)
    ensures
        n as nat == crate::fn_build::tally(flist@, |k: (String, Option<String>)| k.1 is None),
{
    let mut n: usize = 0;
    let mut i: usize = 0;
    while i < flist.len()
        invariant
            i <= flist@.len(),
            n <= i,
            n as nat == crate::fn_build::tally(flist@.take(i as int), |k: (String, Option<String>)| k.1 is None),
        decreases flist.len() - i,
    {
        assert(flist@.take(i + 1).drop_last() =~= flist@.take(i as int));
        assert(flist@.take(i + 1).last() == flist@[i as int]);
        if flist[i].1.is_none() {
            n = n + 1;
        }
        i = i + 1;
    }
    assert(flist@.take(flist@.len() as int) =~= flist@);
    n
}

/// Frames that name the same modules as the frame keys count the same crate
/// frames.
proof fn lemma_crate_count(flist: Seq<(String, Option<String>)>, frames: Seq<Frame>)
    requires
        frames.len() == flist.len(),
        forall|f: int| 0 <= f < frames.len() ==> opt_view((#[trigger] frames[f]).module) == opt_view(flist[f].1),
    ensures
        crate::fn_build::tally(flist, |k: (String, Option<String>)| k.1 is None) == crate::fn_build::tally(
            frames,
            |f: Frame| f.module is None,
        ),
    decreases flist.len(),
{
    if flist.len() > 0 {
        let (a, b) = (flist.drop_last(), frames.drop_last());
        assert forall|f: int| 0 <= f < b.len() implies opt_view((#[trigger] b[f]).module) == opt_view(a[f].1) by {
            assert(b[f] == frames[f] && a[f] == flist[f]);
        }
        lemma_crate_count(a, b);
        assert(opt_view(frames.last().module) == opt_view(flist.last().1)) by {
            assert(frames.last() == frames[frames.len() - 1]);
        }
    }
}

/// A strictly increasing list of ids below `bound` has at most `bound`
/// entries.
proof fn lemma_increasing_len(s: Seq<u32>, bound: int)
    requires
        bound >= 0,
        forall|k: int| 0 <= k < s.len() ==> (#[trigger] s[k] as int) < bound,
        forall|a: int, b: int| 0 <= a < b < s.len() ==> s[a] < s[b],
    ensures
        s.len() <= bound,
        s.len() > 0 ==> s[s.len() - 1] as int >= s.len() - 1,
    decreases s.len(),
{
    if s.len() > 0 {
        let t = s.drop_last();
        assert forall|k: int| 0 <= k < t.len() implies (#[trigger] t[k] as int) < bound by {
            assert(t[k] == s[k]);
        }
        assert forall|a: int, b: int| 0 <= a < b < t.len() implies t[a] < t[b] by {
            assert(t[a] == s[a] && t[b] == s[b]);
        }
        lemma_increasing_len(t, bound);
        if t.len() > 0 {
            assert(s[s.len() - 2] < s[s.len() - 1]);
            assert(t[t.len() - 1] == s[s.len() - 2]);
        }
        assert((s[s.len() - 1] as int) < bound);
        assert(s[s.len() - 1] as int >= s.len() - 1);
    }
}

} // verus!
