//! The rooms of the household: one frame per crate and per module a drawn
//! mark stands in or under, ordered by crate then module path, each after
//! the frame it sits inside.

use vstd::prelude::*;

use crate::fn_reading::{copy_strings, same_strings};
use crate::paths::views;
use crate::sort::{lemma_same_entries, lex_le, push_text, sort_by_key, text_key, values_of};

verus! {

/// A room's key as plain text: the crate, then the module path.
pub open spec fn key_view(k: (String, Vec<String>)) -> (Seq<char>, Seq<Seq<char>>) {
    (k.0@, views(k.1@))
}

/// The order rooms are listed in: by crate, then segment by segment, a
/// module before the modules inside it.
pub open spec fn frame_code(krate: Seq<char>, module: Seq<Seq<char>>) -> Seq<u64>
    decreases module.len(),
{
    if module.len() == 0 {
        text_key(krate)
    } else {
        frame_code(krate, module.drop_last()) + text_key(module.last())
    }
}

/// Nothing sorts at or before a key that is a strict extension of it.
pub proof fn lemma_extension_sorts_after(a: Seq<u64>, b: Seq<u64>)
    requires
        b.len() > 0,
    ensures
        !lex_le(a + b, a),
    decreases a.len(),
{
    if a.len() == 0 {
        assert((a + b).len() > 0);
    } else {
        assert((a + b)[0] == a[0]);
        assert((a + b).drop_first() =~= a.drop_first() + b);
        lemma_extension_sorts_after(a.drop_first(), b);
    }
}

/// The module path cut to its first `cut` segments.
pub open spec fn prefix_key(k: (Seq<char>, Seq<Seq<char>>), cut: int) -> (Seq<char>, Seq<Seq<char>>) {
    (k.0, k.1.take(cut))
}

/// Two room keys are the same.
pub fn same_key(a: &(String, Vec<String>), b: &(String, Vec<String>)) -> (r: bool)
    ensures
        r == (key_view(*a) == key_view(*b)),
{
    a.0.eq(&b.0) && same_strings(&a.1, &b.1)
}

/// Where a key stands in the listing order.
pub fn key_code(k: &(String, Vec<String>)) -> (c: Vec<u64>)
    ensures
        c@ == frame_code(k.0@, views(k.1@)),
{
    let mut c: Vec<u64> = Vec::new();
    push_text(&mut c, k.0.as_str());
    let mut i: usize = 0;
    assert(views(k.1@).take(0) =~= Seq::<Seq<char>>::empty());
    while i < k.1.len()
        invariant
            i <= k.1@.len(),
            c@ == frame_code(k.0@, views(k.1@).take(i as int)),
        decreases k.1.len() - i,
    {
        push_text(&mut c, k.1[i].as_str());
        assert(views(k.1@).take(i + 1).drop_last() =~= views(k.1@).take(i as int));
        i = i + 1;
    }
    assert(views(k.1@).take(k.1@.len() as int) =~= views(k.1@));
    c
}

/// A key cut to its first `cut` segments.
fn cut_key(k: &(String, Vec<String>), cut: usize) -> (out: (String, Vec<String>))
    requires
        cut <= k.1@.len(),
    ensures
        key_view(out) == prefix_key(key_view(*k), cut as int),
{
    let mut m: Vec<String> = Vec::new();
    let mut i: usize = 0;
    while i < cut
        invariant
            i <= cut,
            cut <= k.1@.len(),
            views(m@) == views(k.1@).take(i as int),
        decreases cut - i,
    {
        let s = k.1[i].clone();
        let ghost before = m@;
        m.push(s);
        assert(views(m@) =~= views(before).push(s@));
        assert(views(k.1@).take(i + 1) =~= views(k.1@).take(i as int).push(k.1@[i as int]@));
        i = i + 1;
    }
    (k.0.clone(), m)
}

/// A key is among a list of keys.
pub open spec fn has_key(keys: Seq<(String, Vec<String>)>, k: (Seq<char>, Seq<Seq<char>>)) -> bool {
    exists|i: int| 0 <= i < keys.len() && key_view(#[trigger] keys[i]) == k
}

/// A key is among a list of keyed entries.
pub open spec fn has_keyed(all: Seq<(Vec<u64>, (String, Vec<String>))>, k: (Seq<char>, Seq<Seq<char>>)) -> bool {
    exists|q: int| 0 <= q < all.len() && key_view(#[trigger] all[q].1) == k
}

/// A key is one of the wanted keys, or a module on the way to one.
pub open spec fn from_wanted(wanted: Seq<(String, Vec<String>)>, k: (Seq<char>, Seq<Seq<char>>)) -> bool {
    exists|j: int, cut: int|
        0 <= j < wanted.len() && 0 <= cut <= wanted[j].1@.len() && k == #[trigger] prefix_key(key_view(wanted[j]), cut)
}

/// Every room the household needs for the given keys: each key, and every
/// module on the way to it, once each, in listing order.
pub fn room_keys(wanted: &Vec<(String, Vec<String>)>) -> (keys: Vec<(String, Vec<String>)>)
    requires
        wanted@.len() < 0x40_0000,
        forall|k: int| 0 <= k < wanted@.len() ==> (#[trigger] wanted@[k]).1@.len() < 0x100,
    ensures
        keys@.len() < 0x8000_0000,
        forall|a: int, b: int| 0 <= a < b < keys@.len() ==> key_view(#[trigger] keys@[a]) != key_view(#[trigger] keys@[b]),
        forall|a: int, b: int| 0 <= a < b < keys@.len() ==> lex_le(
            frame_code((#[trigger] keys@[a]).0@, views(keys@[a].1@)),
            frame_code((#[trigger] keys@[b]).0@, views(keys@[b].1@)),
        ),
        forall|i: int, cut: int| 0 <= i < wanted@.len() && 0 <= cut <= wanted@[i].1@.len() ==> has_key(
            keys@,
            #[trigger] prefix_key(key_view(wanted@[i]), cut),
        ),
        forall|k: int| 0 <= k < keys@.len() ==> from_wanted(wanted@, key_view(#[trigger] keys@[k])),
{
    let mut all: Vec<(Vec<u64>, (String, Vec<String>))> = Vec::new();
    let mut i: usize = 0;
    while i < wanted.len()
        invariant
            i <= wanted@.len(),
            wanted@.len() < 0x40_0000,
            forall|k: int| 0 <= k < wanted@.len() ==> (#[trigger] wanted@[k]).1@.len() < 0x100,
            all@.len() <= i * 0x101,
            forall|k: int| 0 <= k < all@.len() ==> (#[trigger] all@[k]).0@ == frame_code(all@[k].1.0@, views(all@[k].1.1@)),
            forall|j: int, cut: int| 0 <= j < i && 0 <= cut <= wanted@[j].1@.len() ==> has_keyed(
                all@,
                #[trigger] prefix_key(key_view(wanted@[j]), cut),
            ),
            forall|k: int| 0 <= k < all@.len() ==> from_wanted(wanted@, key_view((#[trigger] all@[k]).1)),
        decreases wanted.len() - i,
    {
        let w = &wanted[i];
        let len = w.1.len();
        let mut cut: usize = 0;
        let ghost start = all@.len();
        loop
            invariant_except_break
                all@.len() == start + cut,
            invariant
                i < wanted@.len(),
                *w == wanted@[i as int],
                len == w.1@.len(),
                len < 0x100,
                cut <= len,
                start <= i * 0x101,
                all@.len() <= start + cut + 1,
                forall|k: int| 0 <= k < all@.len() ==> (#[trigger] all@[k]).0@ == frame_code(all@[k].1.0@, views(all@[k].1.1@)),
                forall|j: int, c: int| 0 <= j < i && 0 <= c <= wanted@[j].1@.len() ==> has_keyed(
                    all@,
                    #[trigger] prefix_key(key_view(wanted@[j]), c),
                ),
                forall|c: int| 0 <= c < cut ==> has_keyed(all@, #[trigger] prefix_key(key_view(wanted@[i as int]), c)),
                forall|k: int| 0 <= k < all@.len() ==> from_wanted(wanted@, key_view((#[trigger] all@[k]).1)),
            ensures
                all@.len() <= (i + 1) * 0x101,
                forall|k: int| 0 <= k < all@.len() ==> (#[trigger] all@[k]).0@ == frame_code(all@[k].1.0@, views(all@[k].1.1@)),
                forall|j: int, c: int| 0 <= j < i + 1 && 0 <= c <= wanted@[j].1@.len() ==> has_keyed(
                    all@,
                    #[trigger] prefix_key(key_view(wanted@[j]), c),
                ),
                forall|k: int| 0 <= k < all@.len() ==> from_wanted(wanted@, key_view((#[trigger] all@[k]).1)),
            decreases len - cut,
        {
            let k = cut_key(w, cut);
            let code = key_code(&k);
            let ghost before = all@;
            all.push((code, k));
            proof {
                assert forall|kk: int| 0 <= kk < all@.len() implies (#[trigger] all@[kk]).0@ == frame_code(all@[kk].1.0@, views(all@[kk].1.1@)) by {
                    if kk < before.len() {
                        assert(all@[kk] == before[kk]);
                    }
                }
                assert forall|kv: (Seq<char>, Seq<Seq<char>>)| has_keyed(before, kv) implies has_keyed(all@, kv) by {
                    let q = choose|q: int| 0 <= q < before.len() && key_view(#[trigger] before[q].1) == kv;
                    assert(all@[q] == before[q]);
                }
                assert(has_keyed(all@, key_view(k))) by {
                    assert(all@[before.len() as int].1 == k);
                }
                assert forall|kk: int| 0 <= kk < all@.len() implies from_wanted(wanted@, key_view((#[trigger] all@[kk]).1)) by {
                    if kk < before.len() {
                        assert(all@[kk] == before[kk]);
                    } else {
                        assert(key_view(all@[kk].1) == prefix_key(key_view(wanted@[i as int]), cut as int));
                    }
                }
            }
            if cut == len {
                proof {
                    assert forall|j: int, c: int| 0 <= j < i + 1 && 0 <= c <= wanted@[j].1@.len() implies has_keyed(
                        all@,
                        #[trigger] prefix_key(key_view(wanted@[j]), c),
                    ) by {
                        if j == i && c == cut {
                            assert(key_view(k) == prefix_key(key_view(wanted@[i as int]), c));
                        }
                    }
                }
                break;
            }
            cut = cut + 1;
        }
        i = i + 1;
    }
    let ghost a = all@;
    let sorted = sort_by_key(all);
    let ghost s = sorted@;
    proof {
        lemma_same_entries(s, a);
    }
    let entries = values_of(sorted);
    let mut keys: Vec<(String, Vec<String>)> = Vec::new();
    let ghost mut from: Seq<int> = Seq::empty();
    let mut k: usize = 0;
    proof {
        assert(a.len() <= wanted@.len() * 0x101) by (nonlinear_arith)
            requires
                a.len() <= i * 0x101,
                i == wanted@.len();
    }
    while k < entries.len()
        invariant
            k <= entries@.len(),
            keys@.len() <= k,
            entries@.len() == s.len(),
            s.len() == a.len(),
            a.len() < 0x8000_0000,
            forall|q: int| 0 <= q < s.len() ==> #[trigger] entries@[q] == s[q].1,
            forall|q: int| 0 <= q < s.len() ==> a.contains(#[trigger] s[q]),
            forall|q: int| 0 <= q < a.len() ==> s.contains(#[trigger] a[q]),
            forall|q: int| 0 <= q < a.len() ==> (#[trigger] a[q]).0@ == frame_code(a[q].1.0@, views(a[q].1.1@)),
            forall|p: int, q: int| 0 <= p < q < s.len() ==> lex_le((#[trigger] s[p]).0@, (#[trigger] s[q]).0@),
            from.len() == keys@.len(),
            forall|p: int| 0 <= p < keys@.len() ==> 0 <= #[trigger] from[p] < k && key_view(keys@[p]) == key_view(entries@[from[p]]),
            forall|p: int, q: int| 0 <= p < q < keys@.len() ==> from[p] < from[q],
            forall|q: int| 0 <= q < k ==> has_key(keys@, key_view(#[trigger] entries@[q])),
            forall|p: int, q: int| 0 <= p < q < keys@.len() ==> key_view(#[trigger] keys@[p]) != key_view(#[trigger] keys@[q]),
        decreases entries.len() - k,
    {
        let mut dup = false;
        let mut p: usize = 0;
        while p < keys.len()
            invariant
                p <= keys@.len(),
                k < entries@.len(),
                dup ==> has_key(keys@, key_view(entries@[k as int])),
                !dup ==> forall|q: int| 0 <= q < p ==> key_view(#[trigger] keys@[q]) != key_view(entries@[k as int]),
            decreases keys.len() - p,
        {
            if same_key(&keys[p], &entries[k]) {
                dup = true;
            }
            p = p + 1;
        }
        let ghost before = keys@;
        if !dup {
            let key = (entries[k].0.clone(), copy_strings(entries[k].1.as_slice()));
            assert(key_view(key) == key_view(entries@[k as int]));
            keys.push(key);
            proof {
                from = from.push(k as int);
                assert forall|pp: int| 0 <= pp < keys@.len() implies 0 <= #[trigger] from[pp] < k + 1 && key_view(keys@[pp]) == key_view(entries@[from[pp]]) by {
                    if pp < before.len() {
                        assert(keys@[pp] == before[pp]);
                    }
                }
                assert forall|kv: (Seq<char>, Seq<Seq<char>>)| has_key(before, kv) implies has_key(keys@, kv) by {
                    let q = choose|q: int| 0 <= q < before.len() && key_view(#[trigger] before[q]) == kv;
                    assert(keys@[q] == before[q]);
                }
                assert(has_key(keys@, key_view(entries@[k as int]))) by {
                    assert(key_view(keys@[before.len() as int]) == key_view(entries@[k as int]));
                }
                assert forall|x: int, y: int| 0 <= x < y < keys@.len() implies key_view(#[trigger] keys@[x]) != key_view(#[trigger] keys@[y]) by {
                    if y == before.len() {
                        assert(keys@[x] == before[x]);
                    } else {
                        assert(keys@[x] == before[x] && keys@[y] == before[y]);
                    }
                }
            }
        }
        k = k + 1;
    }
    proof {
        assert forall|x: int, y: int| 0 <= x < y < keys@.len() implies lex_le(
            frame_code((#[trigger] keys@[x]).0@, views(keys@[x].1@)),
            frame_code((#[trigger] keys@[y]).0@, views(keys@[y].1@)),
        ) by {
            let fx = from[x];
            let fy = from[y];
            assert(lex_le(s[fx].0@, s[fy].0@));
            assert(a.contains(s[fx]));
            assert(a.contains(s[fy]));
            let qx = choose|q: int| 0 <= q < a.len() && a[q] == s[fx];
            let qy = choose|q: int| 0 <= q < a.len() && a[q] == s[fy];
            assert(key_view(keys@[x]) == key_view(s[fx].1));
            assert(key_view(keys@[y]) == key_view(s[fy].1));
        }
        assert forall|i: int, cut: int| 0 <= i < wanted@.len() && 0 <= cut <= wanted@[i].1@.len() implies has_key(
            keys@,
            #[trigger] prefix_key(key_view(wanted@[i]), cut),
        ) by {
            assert(has_keyed(a, prefix_key(key_view(wanted@[i]), cut)));
            let q = choose|q: int| 0 <= q < a.len() && key_view(#[trigger] a[q].1) == prefix_key(key_view(wanted@[i]), cut);
            assert(s.contains(a[q]));
            let r = choose|r: int| 0 <= r < s.len() && s[r] == a[q];
            assert(entries@[r] == s[r].1);
            assert(has_key(keys@, key_view(entries@[r])));
        }
        assert forall|kk: int| 0 <= kk < keys@.len() implies from_wanted(wanted@, key_view(#[trigger] keys@[kk])) by {
            let f = from[kk];
            assert(a.contains(s[f]));
            let q = choose|q: int| 0 <= q < a.len() && a[q] == s[f];
            assert(from_wanted(wanted@, key_view(a[q].1)));
            assert(key_view(keys@[kk]) == key_view(entries@[f]));
        }
    }
    keys
}

} // verus!
