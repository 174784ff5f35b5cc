//! The types a declaration touches: what its signature names, and what only
//! its body uses, one row each for the sheet.

use std::collections::HashMap;

use vstd::prelude::*;

use crate::fn_calls::{callable_id, survey_fits};
use crate::fn_marks::{has_owner, row_of};
use crate::fn_model::{FnMark, Touch};
use crate::kinds::{plural, spec_plural};
use crate::sort::{lemma_no_dup_moves, lemma_same_entries, lex_le, push_text, sort_by_key, text_key, values_of};
use crate::survey::{CodeGraph, HoldEdge, ItemMark, MarkRef, MethodRow};

verus! {

broadcast use vstd::std_specs::hash::group_hash_axioms;

/// A holding edge that belongs to declaration `id`'s signature: its own,
/// for a free declaration; filed on its owner under its name, for a method.
pub open spec fn sig_edge(g: CodeGraph, id: u32, h: HoldEdge) -> bool {
    let item = g.items@[id as int];
    match method_row_of(g, item) {
        None => h.from == id,
        Some(row) => h.from == item.parent->0 && h.from_method && exists|k: int|
            0 <= k < h.fields@.len() && (#[trigger] h.fields@[k]).0@ == row.name@,
    }
}

/// The row a method is listed under on its owner.
pub open spec fn method_row_of(g: CodeGraph, item: ItemMark) -> Option<MethodRow> {
    match item.parent {
        Some(p) => if (p as int) < g.items@.len() {
            row_of(g.items@[p as int].body.method_rows@, item.id)
        } else {
            None
        },
        None => None,
    }
}

/// `id`'s signature names type `t`.
pub open spec fn sig_names(g: CodeGraph, id: u32, t: u32) -> bool {
    exists|i: int| 0 <= i < g.holds@.len() && sig_edge(g, id, #[trigger] g.holds@[i]) && g.holds@[i].to == t
}

/// A reference from `id`'s body to `t`, a declaration that does not run.
pub open spec fn body_ref(g: CodeGraph, id: u32, t: u32, r: MarkRef) -> bool {
    r.from == id && r.to == t && (t as int) < g.items@.len() && !callable_id(g, t as int)
}

/// `id`'s body uses type `t`.
pub open spec fn body_uses(g: CodeGraph, refs: Seq<MarkRef>, id: u32, t: u32) -> bool {
    exists|i: int| 0 <= i < refs.len() && body_ref(g, id, t, #[trigger] refs[i])
}

/// References from `id`'s body to `t`, counted.
pub open spec fn body_sum(g: CodeGraph, refs: Seq<MarkRef>, id: u32, t: u32) -> nat
    decreases refs.len(),
{
    if refs.len() == 0 {
        0
    } else {
        body_sum(g, refs.drop_last(), id, t) + if body_ref(g, id, t, refs.last()) {
            refs.last().count as nat
        } else {
            0nat
        }
    }
}

/// The count on the first reference from `id`'s body to `t`.
pub open spec fn first_body(g: CodeGraph, refs: Seq<MarkRef>, id: u32, t: u32) -> nat
    decreases refs.len(),
{
    if refs.len() == 0 {
        0
    } else if body_ref(g, id, t, refs[0]) {
        refs[0].count as nat
    } else {
        first_body(g, refs.drop_first(), id, t)
    }
}

/// Declaration `id` touches type `t`, and the survey can name `t`.
pub open spec fn touched(g: CodeGraph, id: u32, t: u32) -> bool {
    (sig_names(g, id, t) || body_uses(g, g.refs@, id, t)) && has_owner(g, t)
}

/// One row says what the survey says of the type it names, and what the
/// declaration does with it.
pub open spec fn touch_fits(g: CodeGraph, id: u32, row: Touch) -> bool {
    let item = g.items@[row.ty as int];
    &&& touched(g, id, row.ty)
    &&& row.decl@ == item.head.kind.spec_decl_words(item.head.vis)
    &&& row.name@ == item.head.name@
    &&& row.path@ == g.files@[item.file as int].path@
    &&& row.label@ == item.head.label@
    &&& row.on_data == (item.head.kind.spec_data() && item.parent is None)
    &&& row.count as nat == body_sum(g, g.refs@, id, row.ty)
    &&& row.word@ == if sig_names(g, id, row.ty) {
        "signature"@
    } else {
        spec_plural(first_body(g, g.refs@, id, row.ty), "ref"@)
    }
}

/// The sheet's order: what the signature names first, then the heaviest
/// bodies, then by name.
pub open spec fn touch_key(g: CodeGraph, id: u32, row: Touch) -> Seq<u64> {
    seq![if sig_names(g, id, row.ty) { 0u64 } else { 1u64 }, (u32::MAX - row.count) as u64] + text_key(row.name@)
}

/// The rows of one declaration: one per type it touches, in the sheet's
/// order.
pub open spec fn rows_fit(g: CodeGraph, id: u32, rows: Seq<Touch>) -> bool {
    &&& forall|k: int| 0 <= k < rows.len() ==> touch_fits(g, id, #[trigger] rows[k])
    &&& forall|t: u32| touched(g, id, t) ==> exists|k: int| 0 <= k < rows.len() && (#[trigger] rows[k]).ty == t
    &&& forall|a: int, b: int| 0 <= a < b < rows.len() ==> (#[trigger] rows[a]).ty != (#[trigger] rows[b]).ty
    &&& forall|a: int, b: int| 0 <= a < b < rows.len() ==> lex_le(touch_key(g, id, #[trigger] rows[a]), touch_key(g, id, #[trigger] rows[b]))
}

/// The row a method is listed under on its owner.
fn method_row<'a>(g: &'a CodeGraph, item: &ItemMark) -> (r: Option<&'a MethodRow>)
    ensures
        match r {
            Some(row) => method_row_of(*g, *item) == Some(*row),
            None => method_row_of(*g, *item) is None,
        },
{
    match item.parent {
        Some(p) => {
            if (p as usize) < g.items.len() {
                let rows = &g.items[p as usize].body.method_rows;
                let mut i: usize = 0;
                assert(rows@.skip(0) =~= rows@);
                while i < rows.len()
                    invariant
                        i <= rows@.len(),
                        item.parent == Some(p),
                        (p as int) < g.items@.len(),
                        *rows == g.items@[p as int].body.method_rows,
                        row_of(rows@, item.id) == row_of(rows@.skip(i as int), item.id),
                    decreases rows.len() - i,
                {
                    assert(rows@.skip(i as int)[0] == rows@[i as int]);
                    assert(rows@.skip(i as int).drop_first() =~= rows@.skip(i + 1));
                    if rows[i].mark == item.id {
                        return Some(&rows[i]);
                    }
                    i = i + 1;
                }
                None
            } else {
                None
            }
        },
        None => None,
    }
}

/// Whether one of a holding edge's rows carries this name.
fn names_row(fields: &Vec<(String, String)>, name: &String) -> (b: bool)
    ensures
        b == exists|k: int| 0 <= k < fields@.len() && (#[trigger] fields@[k]).0@ == name@,
{
    let mut k: usize = 0;
    while k < fields.len()
        invariant
            k <= fields@.len(),
            forall|q: int| 0 <= q < k ==> (#[trigger] fields@[q]).0@ != name@,
        decreases fields.len() - k,
    {
        if fields[k].0.eq(name) {
            return true;
        }
        k = k + 1;
    }
    false
}

/// Whether the survey can name a type: it is a declaration whose file is
/// in the survey.
fn owner_known(g: &CodeGraph, t: u32) -> (b: bool)
    ensures
        b == has_owner(*g, t),
{
    (t as usize) < g.items.len() && (g.items[t as usize].file as usize) < g.files.len()
}

proof fn lemma_body_sum_bound(g: CodeGraph, refs: Seq<MarkRef>, id: u32, t: u32)
    ensures
        body_sum(g, refs, id, t) <= crate::fn_calls::ref_total(refs),
    decreases refs.len(),
{
    if refs.len() > 0 {
        lemma_body_sum_bound(g, refs.drop_last(), id, t);
    }
}

/// References from `id`'s body to `t`, counted.
fn sum_body(g: &CodeGraph, id: u32, t: u32) -> (c: u32)
    requires
        survey_fits(*g),
    ensures
        c as nat == body_sum(*g, g.refs@, id, t),
{
    let mut c: u32 = 0;
    let mut i: usize = 0;
    while i < g.refs.len()
        invariant
            i <= g.refs@.len(),
            survey_fits(*g),
            c as nat == body_sum(*g, g.refs@.take(i as int), id, t),
        decreases g.refs.len() - i,
    {
        let r = g.refs[i];
        assert(g.refs@.take(i + 1).drop_last() =~= g.refs@.take(i as int));
        assert(g.refs@.take(i + 1).last() == r);
        proof {
            lemma_body_sum_bound(*g, g.refs@.take(i + 1), id, t);
            crate::fn_calls::lemma_total_prefix_pub(g.refs@, i + 1);
        }
        if r.from == id && r.to == t && (t as usize) < g.items.len() && !g.items[t as usize].head.kind.is_callable() {
            c = c + r.count;
        }
        i = i + 1;
    }
    assert(g.refs@.take(g.refs@.len() as int) =~= g.refs@);
    c
}

/// The count on the first reference from `id`'s body to `t`.
fn first_body_count(g: &CodeGraph, id: u32, t: u32) -> (c: u32)
    ensures
        c as nat == first_body(*g, g.refs@, id, t),
{
    let mut i: usize = 0;
    assert(g.refs@.skip(0) =~= g.refs@);
    while i < g.refs.len()
        invariant
            i <= g.refs@.len(),
            first_body(*g, g.refs@, id, t) == first_body(*g, g.refs@.skip(i as int), id, t),
        decreases g.refs.len() - i,
    {
        let r = g.refs[i];
        assert(g.refs@.skip(i as int)[0] == r);
        assert(g.refs@.skip(i as int).drop_first() =~= g.refs@.skip(i + 1));
        if r.from == id && r.to == t && (t as usize) < g.items.len() && !g.items[t as usize].head.kind.is_callable() {
            return r.count;
        }
        i = i + 1;
    }
    0
}

/// Type `t` is among the first `upto` found.
pub open spec fn in_tys(tys: Seq<(u32, bool)>, t: u32, upto: int) -> bool {
    exists|k: int| 0 <= k < upto && k < tys.len() && (#[trigger] tys[k]).0 == t
}

/// Some signature edge among the first `i` holds names `t`.
pub open spec fn sig_upto(g: CodeGraph, id: u32, t: u32, i: int) -> bool {
    exists|q: int| 0 <= q < i && sig_edge(g, id, #[trigger] g.holds@[q]) && g.holds@[q].to == t
}

/// Some body reference among the first `j` uses `t`.
pub open spec fn body_upto(g: CodeGraph, id: u32, t: u32, j: int) -> bool {
    exists|q: int| 0 <= q < j && body_ref(g, id, t, #[trigger] g.refs@[q])
}

proof fn lemma_in_tys_push(tys: Seq<(u32, bool)>, e: (u32, bool), t: u32)
    ensures
        in_tys(tys.push(e), t, tys.len() + 1int) <==> (in_tys(tys, t, tys.len() as int) || e.0 == t),
        forall|upto: int| 0 <= upto <= tys.len() ==> (in_tys(tys.push(e), t, upto) <==> in_tys(tys, t, upto)),
{
    let p = tys.push(e);
    if in_tys(p, t, tys.len() + 1int) && e.0 != t {
        let k = choose|k: int| 0 <= k < tys.len() + 1 && k < p.len() && (#[trigger] p[k]).0 == t;
        assert(tys[k] == p[k]);
    }
    if in_tys(tys, t, tys.len() as int) {
        let k = choose|k: int| 0 <= k < tys.len() && k < tys.len() && (#[trigger] tys[k]).0 == t;
        assert(p[k] == tys[k]);
    }
    if e.0 == t {
        assert(p[tys.len() as int].0 == t);
    }
    assert forall|upto: int| 0 <= upto <= tys.len() implies (in_tys(p, t, upto) <==> in_tys(tys, t, upto)) by {
        if in_tys(p, t, upto) {
            let k = choose|k: int| 0 <= k < upto && k < p.len() && (#[trigger] p[k]).0 == t;
            assert(tys[k] == p[k]);
        }
        if in_tys(tys, t, upto) {
            let k = choose|k: int| 0 <= k < upto && k < tys.len() && (#[trigger] tys[k]).0 == t;
            assert(p[k] == tys[k]);
        }
    }
}

/// Every type declaration `id` touches, with whether its signature names
/// it, first seen first.
fn touched_types(g: &CodeGraph, id: u32) -> (tys: Vec<(u32, bool)>)
    requires
        survey_fits(*g),
        (id as int) < g.items@.len(),
    ensures
        forall|t: u32| #[trigger] touched(*g, id, t) <==> in_tys(tys@, t, tys@.len() as int),
        forall|k: int| 0 <= k < tys@.len() ==> (#[trigger] tys@[k]).1 == sig_names(*g, id, tys@[k].0),
        forall|k: int| 0 <= k < tys@.len() ==> touched(*g, id, (#[trigger] tys@[k]).0),
        forall|a: int, b: int| 0 <= a < b < tys@.len() ==> (#[trigger] tys@[a]).0 != (#[trigger] tys@[b]).0,
{
    let item = &g.items[id as usize];
    let row = method_row(g, item);
    let mut tys: Vec<(u32, bool)> = Vec::new();
    let mut i: usize = 0;
    while i < g.holds.len()
        invariant
            i <= g.holds@.len(),
            *item == g.items@[id as int],
            (id as int) < g.items@.len(),
            match row {
                Some(r) => method_row_of(*g, *item) == Some(*r),
                None => method_row_of(*g, *item) is None,
            },
            forall|t: u32| #[trigger] in_tys(tys@, t, tys@.len() as int) <==> (has_owner(*g, t) && sig_upto(*g, id, t, i as int)),
            forall|k: int| 0 <= k < tys@.len() ==> (#[trigger] tys@[k]).1 && has_owner(*g, tys@[k].0) && sig_upto(*g, id, tys@[k].0, i as int),
            forall|a: int, b: int| 0 <= a < b < tys@.len() ==> (#[trigger] tys@[a]).0 != (#[trigger] tys@[b]).0,
        decreases g.holds.len() - i,
    {
        let h = &g.holds[i];
        let on = match row {
            None => h.from == id,
            Some(r) => match item.parent {
                Some(p) => h.from == p && h.from_method && names_row(&h.fields, &r.name),
                None => false,
            },
        };
        assert(on == sig_edge(*g, id, g.holds@[i as int]));
        let ghost before = tys@;
        let add = on && owner_known(g, h.to) && !seen_ty(&tys, h.to);
        if add {
            tys.push((h.to, true));
        }
        proof {
            assert forall|t: u32| #[trigger] sig_upto(*g, id, t, i + 1) <==> (sig_upto(*g, id, t, i as int) || (on && h.to == t)) by {
                if sig_upto(*g, id, t, i + 1) {
                    let q = choose|q: int| 0 <= q < i + 1 && sig_edge(*g, id, #[trigger] g.holds@[q]) && g.holds@[q].to == t;
                    if q < i {
                        assert(sig_upto(*g, id, t, i as int));
                    }
                }
                if sig_upto(*g, id, t, i as int) {
                    let q = choose|q: int| 0 <= q < i && sig_edge(*g, id, #[trigger] g.holds@[q]) && g.holds@[q].to == t;
                    assert(0 <= q < i + 1);
                }
                if on && h.to == t {
                    assert(sig_edge(*g, id, g.holds@[i as int]) && g.holds@[i as int].to == t);
                }
            }
            assert forall|t: u32| #[trigger] in_tys(tys@, t, tys@.len() as int) <==> (has_owner(*g, t) && sig_upto(*g, id, t, i + 1)) by {
                if add {
                    lemma_in_tys_push(before, (h.to, true), t);
                }
                assert(seen_ty_spec(before, h.to) == in_tys(before, h.to, before.len() as int));
            }
            assert forall|k: int| 0 <= k < tys@.len() implies (#[trigger] tys@[k]).1 && has_owner(*g, tys@[k].0) && sig_upto(*g, id, tys@[k].0, i + 1) by {
                assert(sig_upto(*g, id, tys@[k].0, i + 1));
            }
            assert forall|a: int, b: int| 0 <= a < b < tys@.len() implies (#[trigger] tys@[a]).0 != (#[trigger] tys@[b]).0 by {
                if b >= before.len() {
                    assert(tys@[a] == before[a]);
                    assert(in_tys(before, tys@[a].0, before.len() as int));
                }
            }
        }
        i = i + 1;
    }
    let ghost sig_count = tys@.len() as int;
    proof {
        assert forall|t: u32| #[trigger] sig_names(*g, id, t) <==> sig_upto(*g, id, t, g.holds@.len() as int) by {
        }
    }
    let mut j: usize = 0;
    while j < g.refs.len()
        invariant
            j <= g.refs@.len(),
            (id as int) < g.items@.len(),
            sig_count <= tys@.len(),
            forall|t: u32| #[trigger] in_tys(tys@, t, sig_count) <==> (has_owner(*g, t) && sig_names(*g, id, t)),
            forall|t: u32| #[trigger] in_tys(tys@, t, tys@.len() as int) <==> (has_owner(*g, t) && (sig_names(*g, id, t) || body_upto(*g, id, t, j as int))),
            forall|k: int| 0 <= k < tys@.len() ==> ((#[trigger] tys@[k]).1 <==> k < sig_count),
            forall|k: int| 0 <= k < tys@.len() ==> touched(*g, id, (#[trigger] tys@[k]).0),
            forall|a: int, b: int| 0 <= a < b < tys@.len() ==> (#[trigger] tys@[a]).0 != (#[trigger] tys@[b]).0,
        decreases g.refs.len() - j,
    {
        let r = g.refs[j];
        let ghost before = tys@;
        let use_it = r.from == id && owner_known(g, r.to) && !g.items[r.to as usize].head.kind.is_callable();
        assert(use_it == (body_ref(*g, id, r.to, r) && has_owner(*g, r.to)));
        let add = use_it && !seen_ty(&tys, r.to);
        if add {
            tys.push((r.to, false));
        }
        proof {
            assert forall|t: u32| #[trigger] body_upto(*g, id, t, j + 1) <==> (body_upto(*g, id, t, j as int) || body_ref(*g, id, t, r)) by {
                if body_upto(*g, id, t, j + 1) {
                    let q = choose|q: int| 0 <= q < j + 1 && body_ref(*g, id, t, #[trigger] g.refs@[q]);
                    if q < j {
                        assert(body_upto(*g, id, t, j as int));
                    }
                }
                if body_upto(*g, id, t, j as int) {
                    let q = choose|q: int| 0 <= q < j && body_ref(*g, id, t, #[trigger] g.refs@[q]);
                    assert(0 <= q < j + 1);
                }
                if body_ref(*g, id, t, r) {
                    assert(body_ref(*g, id, t, g.refs@[j as int]));
                }
            }
            assert forall|t: u32| #[trigger] in_tys(tys@, t, tys@.len() as int) <==> (has_owner(*g, t) && (sig_names(*g, id, t) || body_upto(*g, id, t, j + 1))) by {
                if add {
                    lemma_in_tys_push(before, (r.to, false), t);
                }
                assert(seen_ty_spec(before, r.to) == in_tys(before, r.to, before.len() as int));
                if body_ref(*g, id, t, r) {
                    assert(t == r.to);
                }
            }
            assert forall|t: u32| #[trigger] in_tys(tys@, t, sig_count) <==> (has_owner(*g, t) && sig_names(*g, id, t)) by {
                if add {
                    assert(tys@ == before.push((r.to, false)));
                    lemma_in_tys_push(before, (r.to, false), t);
                    assert(in_tys(before.push((r.to, false)), t, sig_count) <==> in_tys(before, t, sig_count));
                }
            }
            assert forall|k: int| 0 <= k < tys@.len() implies touched(*g, id, (#[trigger] tys@[k]).0) by {
                if k >= before.len() {
                    assert(body_ref(*g, id, r.to, g.refs@[j as int]));
                    assert(body_uses(*g, g.refs@, id, r.to));
                }
            }
            assert forall|a: int, b: int| 0 <= a < b < tys@.len() implies (#[trigger] tys@[a]).0 != (#[trigger] tys@[b]).0 by {
                if b >= before.len() {
                    assert(tys@[a] == before[a]);
                    assert(in_tys(before, tys@[a].0, before.len() as int));
                }
            }
        }
        j = j + 1;
    }
    proof {
        assert forall|t: u32| #[trigger] touched(*g, id, t) <==> in_tys(tys@, t, tys@.len() as int) by {
            assert(body_uses(*g, g.refs@, id, t) <==> body_upto(*g, id, t, g.refs@.len() as int));
        }
        assert forall|k: int| 0 <= k < tys@.len() implies (#[trigger] tys@[k]).1 == sig_names(*g, id, tys@[k].0) by {
            let t = tys@[k].0;
            if k >= sig_count && sig_names(*g, id, t) {
                assert(touched(*g, id, t));
                assert(in_tys(tys@, t, sig_count));
                let q = choose|q: int| 0 <= q < sig_count && q < tys@.len() && (#[trigger] tys@[q]).0 == t;
            }
            if k < sig_count {
                assert(in_tys(tys@, t, sig_count));
            }
        }
    }
    tys
}

pub open spec fn seen_ty_spec(tys: Seq<(u32, bool)>, t: u32) -> bool {
    exists|k: int| 0 <= k < tys.len() && (#[trigger] tys[k]).0 == t
}

/// Whether a type is already among those found.
fn seen_ty(tys: &Vec<(u32, bool)>, t: u32) -> (b: bool)
    ensures
        b == seen_ty_spec(tys@, t),
{
    let mut k: usize = 0;
    while k < tys.len()
        invariant
            k <= tys@.len(),
            forall|q: int| 0 <= q < k ==> (#[trigger] tys@[q]).0 != t,
        decreases tys.len() - k,
    {
        if tys[k].0 == t {
            return true;
        }
        k = k + 1;
    }
    false
}

/// One row of the sheet: the type's own head, and what the declaration
/// does with it.
fn touch_row(g: &CodeGraph, id: u32, t: u32, sig: bool) -> (row: Touch)
    requires
        survey_fits(*g),
        touched(*g, id, t),
        sig == sig_names(*g, id, t),
    ensures
        touch_fits(*g, id, row),
        row.ty == t,
{
    proof {
        reveal_strlit("signature");
        reveal_strlit("ref");
    }
    let item = &g.items[t as usize];
    let file = &g.files[item.file as usize];
    let count = sum_body(g, id, t);
    let word = if sig {
        String::from_str("signature")
    } else {
        plural(first_body_count(g, id, t) as u64, "ref")
    };
    Touch {
        ty: t,
        decl: item.head.kind.decl_words(&item.head.vis),
        name: item.head.name.clone(),
        path: file.path.clone(),
        label: item.head.label.clone(),
        word,
        on_data: item.head.kind.is_data() && item.parent.is_none(),
        count,
    }
}

/// Every type one declaration touches, one row each, in the sheet's order.
pub fn touch_rows(g: &CodeGraph, id: u32) -> (rows: Vec<Touch>)
    requires
        survey_fits(*g),
        (id as int) < g.items@.len(),
    ensures
        rows_fit(*g, id, rows@),
{
    let tys = touched_types(g, id);
    let mut keyed: Vec<(Vec<u64>, Touch)> = Vec::new();
    let mut k: usize = 0;
    while k < tys.len()
        invariant
            k <= tys@.len(),
            survey_fits(*g),
            keyed@.len() == k,
            forall|q: int| 0 <= q < tys@.len() ==> (#[trigger] tys@[q]).1 == sig_names(*g, id, tys@[q].0),
            forall|q: int| 0 <= q < tys@.len() ==> touched(*g, id, (#[trigger] tys@[q]).0),
            forall|q: int| 0 <= q < k ==> touch_fits(*g, id, (#[trigger] keyed@[q]).1) && keyed@[q].1.ty == tys@[q].0
                && keyed@[q].0@ == touch_key(*g, id, keyed@[q].1),
        decreases tys.len() - k,
    {
        let (t, sig) = tys[k];
        let row = touch_row(g, id, t, sig);
        let mut key: Vec<u64> = Vec::new();
        key.push(if sig { 0 } else { 1 });
        key.push((u32::MAX - row.count) as u64);
        push_text(&mut key, row.name.as_str());
        assert(key@ =~= touch_key(*g, id, row));
        keyed.push((key, row));
        k = k + 1;
    }
    let ghost all = keyed@;
    proof {
        assert(all.no_duplicates()) by {
            assert forall|a: int, b: int| 0 <= a < all.len() && 0 <= b < all.len() && a != b implies all[a] != all[b] by {
                if a < b {
                    assert(tys@[a].0 != tys@[b].0);
                } else {
                    assert(tys@[b].0 != tys@[a].0);
                }
            }
        }
    }
    let sorted = sort_by_key(keyed);
    let ghost s = sorted@;
    proof {
        lemma_same_entries(s, all);
        lemma_no_dup_moves(all, s);
    }
    let rows = values_of(sorted);
    proof {
        assert forall|q: int| 0 <= q < rows@.len() implies touch_fits(*g, id, #[trigger] rows@[q]) by {
            assert(s.contains(s[q]));
            let p = choose|p: int| 0 <= p < all.len() && all[p] == s[q];
        }
        assert forall|t: u32| touched(*g, id, t) implies exists|q: int| 0 <= q < rows@.len() && (#[trigger] rows@[q]).ty == t by {
            assert(in_tys(tys@, t, tys@.len() as int));
            let p = choose|p: int| 0 <= p < tys@.len() && p < tys@.len() && (#[trigger] tys@[p]).0 == t;
            assert(all[p].1.ty == t);
            assert(all.contains(all[p]));
            let q = choose|q: int| 0 <= q < s.len() && s[q] == all[p];
            assert(rows@[q].ty == t);
        }
        assert forall|a: int, b: int| 0 <= a < b < rows@.len() implies (#[trigger] rows@[a]).ty != (#[trigger] rows@[b]).ty by {
            assert(s.contains(s[a]));
            assert(s.contains(s[b]));
            let pa = choose|p: int| 0 <= p < all.len() && all[p] == s[a];
            let pb = choose|p: int| 0 <= p < all.len() && all[p] == s[b];
            if pa != pb {
                if pa < pb {
                    assert(tys@[pa].0 != tys@[pb].0);
                } else {
                    assert(tys@[pb].0 != tys@[pa].0);
                }
            } else {
                assert(s[a] != s[b]);
            }
        }
        assert forall|a: int, b: int| 0 <= a < b < rows@.len() implies lex_le(touch_key(*g, id, #[trigger] rows@[a]), touch_key(*g, id, #[trigger] rows@[b])) by {
            assert(lex_le(s[a].0@, s[b].0@));
            assert(s.contains(s[a]));
            assert(s.contains(s[b]));
            let pa = choose|p: int| 0 <= p < all.len() && all[p] == s[a];
            let pb = choose|p: int| 0 <= p < all.len() && all[p] == s[b];
        }
    }
    rows
}

/// What each mark touches, by mark id, for the marks that touch anything.
pub fn read_touches(g: &CodeGraph, marks: &Vec<FnMark>) -> (out: HashMap<u32, Vec<Touch>>)
    requires
        survey_fits(*g),
        forall|k: int| 0 <= k < marks@.len() ==> ((#[trigger] marks@[k]).id as int) < g.items@.len(),
    ensures
        forall|x: u32| #[trigger] out@.contains_key(x) <==> (exists|k: int| 0 <= k < marks@.len() && (#[trigger] marks@[k]).id == x)
            && exists|t: u32| touched(*g, x, t),
        forall|x: u32| #[trigger] out@.contains_key(x) ==> rows_fit(*g, x, out@[x]@),
{
    let mut out: HashMap<u32, Vec<Touch>> = HashMap::new();
    let mut k: usize = 0;
    while k < marks.len()
        invariant
            k <= marks@.len(),
            survey_fits(*g),
            forall|q: int| 0 <= q < marks@.len() ==> ((#[trigger] marks@[q]).id as int) < g.items@.len(),
            forall|x: u32| #[trigger] out@.contains_key(x) <==> (exists|q: int| 0 <= q < k && (#[trigger] marks@[q]).id == x)
                && exists|t: u32| touched(*g, x, t),
            forall|x: u32| #[trigger] out@.contains_key(x) ==> rows_fit(*g, x, out@[x]@),
        decreases marks.len() - k,
    {
        let id = marks[k].id;
        let rows = touch_rows(g, id);
        let ghost before = out@;
        if rows.len() > 0 {
            proof {
                assert(touch_fits(*g, id, rows@[0]));
            }
            out.insert(id, rows);
        } else {
            proof {
                assert forall|t: u32| !touched(*g, id, t) by {
                    if touched(*g, id, t) {
                        let q = choose|q: int| 0 <= q < rows@.len() && (#[trigger] rows@[q]).ty == t;
                    }
                }
            }
        }
        proof {
            assert forall|x: u32| #[trigger] out@.contains_key(x) <==> (exists|q: int| 0 <= q < k + 1 && (#[trigger] marks@[q]).id == x)
                && exists|t: u32| touched(*g, x, t) by {
                if x == id {
                    assert(marks@[k as int].id == x);
                } else if exists|q: int| 0 <= q < k + 1 && (#[trigger] marks@[q]).id == x {
                    let q = choose|q: int| 0 <= q < k + 1 && (#[trigger] marks@[q]).id == x;
                    assert(q < k);
                }
            }
        }
        k = k + 1;
    }
    out
}

} // verus!
