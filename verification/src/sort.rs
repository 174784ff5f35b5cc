//! Ordering by keys: a key is a sequence of numbers read lexicographically,
//! which is how every chart orders its rows — by a tuple of numbers and names.

use vstd::prelude::*;
use vstd::multiset::Multiset;

verus! {

/// `a` sorts at or before `b`, reading both from the front.
pub open spec fn lex_le(a: Seq<u64>, b: Seq<u64>) -> bool
    decreases a.len(),
{
    if a.len() == 0 {
        true
    } else if b.len() == 0 {
        false
    } else if a[0] < b[0] {
        true
    } else if a[0] > b[0] {
        false
    } else {
        lex_le(a.drop_first(), b.drop_first())
    }
}

pub proof fn lemma_lex_total(a: Seq<u64>, b: Seq<u64>)
    ensures
        lex_le(a, b) || lex_le(b, a),
    decreases a.len(),
{
    if a.len() > 0 && b.len() > 0 && a[0] == b[0] {
        lemma_lex_total(a.drop_first(), b.drop_first());
    }
}

pub proof fn lemma_lex_trans(a: Seq<u64>, b: Seq<u64>, c: Seq<u64>)
    requires
        lex_le(a, b),
        lex_le(b, c),
    ensures
        lex_le(a, c),
    decreases a.len(),
{
    if a.len() > 0 && b.len() > 0 && c.len() > 0 && a[0] == b[0] && b[0] == c[0] {
        lemma_lex_trans(a.drop_first(), b.drop_first(), c.drop_first());
    }
}

pub proof fn lemma_lex_refl(a: Seq<u64>)
    ensures
        lex_le(a, a),
    decreases a.len(),
{
    if a.len() > 0 {
        lemma_lex_refl(a.drop_first());
    }
}

/// Two keys that sort at or before each other are one key.
pub proof fn lemma_lex_antisym(a: Seq<u64>, b: Seq<u64>)
    requires
        lex_le(a, b),
        lex_le(b, a),
    ensures
        a == b,
    decreases a.len(),
{
    if a.len() > 0 && b.len() > 0 {
        lemma_lex_antisym(a.drop_first(), b.drop_first());
        assert(a =~= seq![a[0]] + a.drop_first());
        assert(b =~= seq![b[0]] + b.drop_first());
    } else {
        assert(a =~= b);
    }
}

pub fn lex_le_exec(a: &Vec<u64>, b: &Vec<u64>) -> (r: bool)
    ensures
        r == lex_le(a@, b@),
{
    let mut i: usize = 0;
    assert(a@.skip(0) =~= a@);
    assert(b@.skip(0) =~= b@);
    while i < a.len() && i < b.len() && a[i] == b[i]
        invariant
            i <= a.len(),
            i <= b.len(),
            lex_le(a@, b@) == lex_le(a@.skip(i as int), b@.skip(i as int)),
        decreases a.len() - i,
    {
        assert(a@.skip(i as int).drop_first() =~= a@.skip(i + 1));
        assert(b@.skip(i as int).drop_first() =~= b@.skip(i + 1));
        i = i + 1;
    }
    if i == a.len() {
        true
    } else if i == b.len() {
        false
    } else {
        a[i] < b[i]
    }
}

/// Every entry sorts at or before every later one.
pub open spec fn sorted_by_key<T>(v: Seq<(Vec<u64>, T)>) -> bool {
    forall|i: int, j: int| 0 <= i < j < v.len() ==> lex_le(#[trigger] v[i].0@, #[trigger] v[j].0@)
}

/// Sorts entries by their keys, keeping equal keys in the order they came:
/// the same entries, every one at or before every later one.
pub fn sort_by_key<T>(v: Vec<(Vec<u64>, T)>) -> (out: Vec<(Vec<u64>, T)>)
    ensures
        out@.to_multiset() == v@.to_multiset(),
        out@.len() == v@.len(),
        sorted_by_key(out@),
{
    let mut out: Vec<(Vec<u64>, T)> = Vec::new();
    let mut rest = v;
    let ghost whole = rest@;
    let ghost mut taken: Seq<(Vec<u64>, T)> = Seq::empty();
    // Pop from the back, so that insertion after equal keys keeps input order
    // when read from the back; insert before equal keys instead.
    while rest.len() > 0
        invariant
            whole == rest@ + taken,
            out@.to_multiset() == taken.to_multiset(),
            out@.len() == taken.len(),
            sorted_by_key(out@),
        decreases rest.len(),
    {
        let ghost before_rest = rest@;
        let x = rest.pop().unwrap();
        proof {
            assert(before_rest =~= rest@.push(x));
        }
        // First position whose key is not strictly smaller than x's key: every
        // equal key stays after x, which came earlier in the input.
        let mut p: usize = 0;
        while p < out.len() && !lex_le_exec(&x.0, &out[p].0)
            invariant
                p <= out.len(),
                forall|i: int| 0 <= i < p ==> !lex_le(x.0@, #[trigger] out@[i].0@),
            decreases out.len() - p,
        {
            p = p + 1;
        }
        proof {
            assert forall|i: int| 0 <= i < p implies lex_le(#[trigger] out@[i].0@, x.0@) by {
                lemma_lex_total(x.0@, out@[i].0@);
            }
            if p < out.len() {
                assert forall|i: int| p <= i < out.len() implies lex_le(x.0@, #[trigger] out@[i].0@) by {
                    if i > p {
                        lemma_lex_trans(x.0@, out@[p as int].0@, out@[i].0@);
                    }
                }
            }
        }
        let ghost old_out = out@;
        out.insert(p, x);
        proof {
            assert(out@ =~= old_out.insert(p as int, x));
            assert(out@ =~= old_out.subrange(0, p as int).push(x) + old_out.subrange(p as int, old_out.len() as int));
            vstd::seq_lib::lemma_multiset_commutative(old_out.subrange(0, p as int).push(x), old_out.subrange(p as int, old_out.len() as int));
            vstd::seq_lib::lemma_multiset_commutative(old_out.subrange(0, p as int), old_out.subrange(p as int, old_out.len() as int));
            assert(old_out =~= old_out.subrange(0, p as int) + old_out.subrange(p as int, old_out.len() as int));
            old_out.subrange(0, p as int).to_multiset_ensures();
            assert(out@.to_multiset() == old_out.to_multiset().insert(x));
            let nt = seq![x] + taken;
            vstd::seq_lib::lemma_multiset_commutative(seq![x], taken);
            assert(seq![x].to_multiset() =~= Multiset::empty().insert(x)) by {
                broadcast use vstd::seq_lib::group_to_multiset_ensures;
                assert(seq![x] =~= Seq::<(Vec<u64>, T)>::empty().push(x));
            }
            taken = nt;
            assert(whole =~= rest@ + taken);
            assert forall|i: int, j: int| 0 <= i < j < out@.len() implies lex_le(#[trigger] out@[i].0@, #[trigger] out@[j].0@) by {
                if j < p {
                } else if j == p {
                } else if i < p {
                    lemma_lex_trans(out@[i].0@, x.0@, out@[j].0@);
                } else if i == p {
                } else {
                }
            }
        }
    }
    proof {
        assert(whole =~= taken);
    }
    out
}

/// One character as key material.
pub open spec fn char_code(c: char) -> u64 {
    ((c as u32) as int + 1) as u64
}

/// A name as key material: every character one above its code point, then a
/// zero, so that a name that is a prefix of another sorts first and a tuple of
/// names sorts field by field.
pub open spec fn text_key(s: Seq<char>) -> Seq<u64> {
    s.map_values(|c: char| char_code(c)).push(0u64)
}

/// Appends a name to a key.
pub fn push_text(key: &mut Vec<u64>, s: &str)
    ensures
        final(key)@ == old(key)@ + text_key(s@),
{
    let v = crate::paths::chars_of(s);
    let ghost start = key@;
    let mut i: usize = 0;
    while i < v.len()
        invariant
            i <= v@.len(),
            v@ == s@,
            key@ == start + v@.take(i as int).map_values(|c: char| char_code(c)),
        decreases v.len() - i,
    {
        let c = v[i];
        key.push((c as u32) as u64 + 1);
        assert((c as u32) as u64 + 1 == char_code(c));
        i = i + 1;
        assert(v@.take(i as int).map_values(|c: char| char_code(c)) =~= v@.take(
            (i - 1) as int,
        ).map_values(|c: char| char_code(c)).push(char_code(c)));
    }
    key.push(0);
    assert(v@.take(v@.len() as int) =~= v@);
    assert(key@ =~= start + text_key(s@));
}

/// Two sequences with one multiset hold the same entries.
pub proof fn lemma_same_entries<T>(a: Seq<T>, b: Seq<T>)
    requires
        a.to_multiset() == b.to_multiset(),
    ensures
        forall|x: T| a.contains(x) <==> b.contains(x),
{
    broadcast use vstd::seq_lib::group_to_multiset_ensures;
    assert forall|x: T| a.contains(x) <==> b.contains(x) by {
        assert(a.contains(x) <==> a.to_multiset().count(x) > 0);
        assert(b.contains(x) <==> b.to_multiset().count(x) > 0);
    }
}

/// Two sequences with one multiset, mapped by one function, still share a
/// multiset.
pub proof fn lemma_map_multiset<A, B>(a: Seq<A>, b: Seq<A>, f: spec_fn(A) -> B)
    requires
        a.to_multiset() == b.to_multiset(),
    ensures
        a.map_values(f).to_multiset() == b.map_values(f).to_multiset(),
    decreases a.len(),
{
    broadcast use vstd::seq_lib::group_to_multiset_ensures;
    if a.len() == 0 {
        assert(b.to_multiset().len() == 0);
        assert(a.map_values(f) =~= Seq::<B>::empty());
        assert(b.map_values(f) =~= Seq::<B>::empty());
    } else {
        let x = a.last();
        let a1 = a.drop_last();
        assert(a =~= a1.push(x));
        assert(a.to_multiset() =~= a1.to_multiset().insert(x));
        assert(a.to_multiset().count(x) > 0);
        assert(b.contains(x));
        let k = choose|k: int| 0 <= k < b.len() && b[k] == x;
        let b1 = b.remove(k);
        assert(b1.to_multiset() =~= b.to_multiset().remove(x));
        assert(a1.to_multiset() =~= a.to_multiset().remove(x));
        lemma_map_multiset(a1, b1, f);
        let am = a.map_values(f);
        let bm = b.map_values(f);
        assert(am =~= a1.map_values(f).push(f(x)));
        assert(bm.remove(k) =~= b1.map_values(f));
        assert(bm[k] == f(x));
        assert(bm.remove(k).to_multiset() =~= bm.to_multiset().remove(f(x)));
        assert(bm.to_multiset().count(f(x)) > 0) by {
            assert(bm.contains(f(x)));
        }
        assert(bm.to_multiset() =~= bm.to_multiset().remove(f(x)).insert(f(x)));
        assert(am.to_multiset() =~= a1.map_values(f).to_multiset().insert(f(x)));
    }
}

/// Reordering keeps a sequence free of repeats.
pub proof fn lemma_no_dup_moves<T>(a: Seq<T>, b: Seq<T>)
    requires
        a.to_multiset() == b.to_multiset(),
        a.no_duplicates(),
    ensures
        b.no_duplicates(),
{
    a.lemma_multiset_has_no_duplicates();
    b.lemma_multiset_has_no_duplicates_conv();
}

/// The entries of a keyed sequence, keys dropped, in order.
pub fn values_of<T>(v: Vec<(Vec<u64>, T)>) -> (out: Vec<T>)
    ensures
        out@.len() == v@.len(),
        forall|k: int| 0 <= k < v@.len() ==> #[trigger] out@[k] == v@[k].1,
{
    let ghost all = v@;
    let mut v = v;
    let mut rev: Vec<T> = Vec::new();
    while v.len() > 0
        invariant
            v@ == all.take(v@.len() as int),
            rev@.len() + v@.len() == all.len(),
            forall|k: int| 0 <= k < rev@.len() ==> (#[trigger] rev@[k]) == all[all.len() - 1 - k].1,
        decreases v.len(),
    {
        let ghost before = v@;
        let e = v.pop().unwrap();
        proof {
            assert(before =~= v@.push(e));
            assert(v@ =~= all.take(v@.len() as int));
        }
        rev.push(e.1);
    }
    let mut out: Vec<T> = Vec::new();
    while rev.len() > 0
        invariant
            out@.len() + rev@.len() == all.len(),
            forall|k: int| 0 <= k < rev@.len() ==> (#[trigger] rev@[k]) == all[all.len() - 1 - k].1,
            forall|k: int| 0 <= k < out@.len() ==> (#[trigger] out@[k]) == all[k].1,
        decreases rev.len(),
    {
        let e = rev.pop().unwrap();
        out.push(e);
    }
    out
}

/// Different characters are different key material.
pub proof fn lemma_char_code_inj(c: char, d: char)
    requires
        char_code(c) == char_code(d),
    ensures
        c == d,
{
    assert(c as int == d as int);
}

} // verus!
