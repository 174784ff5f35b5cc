//! The marks of the function chart: one per declaration the reading draws,
//! its head, its quoted signature, whose method it is and where it stands,
//! in declaration order.

use vstd::prelude::*;

use crate::fn_calls::{drawn_id, is_drawn, self_ref};
use crate::fn_model::{module_of, FnHead, FnMark, Owner, SigRow, Tier};
use crate::fn_query::id_in;
use crate::fn_reading::VisFloor;
use crate::paths::{spec_module_segments, views};
use crate::sort::{lemma_no_dup_moves, lemma_same_entries, lex_le, push_text, sort_by_key, text_key, values_of};
use crate::survey::{CodeGraph, ItemMark, MethodRow};

verus! {

/// The row a method is listed under on its owner, where it has one.
pub open spec fn row_of(rows: Seq<MethodRow>, mark: u32) -> Option<MethodRow>
    decreases rows.len(),
{
    if rows.len() == 0 {
        None
    } else if rows[0].mark == mark {
        Some(rows[0])
    } else {
        row_of(rows.drop_first(), mark)
    }
}

/// The impl or trait header a method is written under, or nothing for a
/// free declaration.
pub open spec fn spec_section(g: CodeGraph, item: ItemMark) -> Seq<char> {
    match item.parent {
        Some(p) => if p < g.items@.len() {
            match row_of(g.items@[p as int].body.method_rows@, item.id) {
                Some(r) => r.section@,
                None => Seq::empty(),
            }
        } else {
            Seq::empty()
        },
        None => Seq::empty(),
    }
}

/// Where a depth puts a declaration.
pub open spec fn spec_tier(d: Option<u32>) -> Tier {
    match d {
        Some(0u32) => Tier::Entry,
        Some(n) => Tier::Deep(n),
        None => Tier::Ring,
    }
}

/// A signature row as plain values.
pub open spec fn row_view(r: SigRow) -> (Seq<char>, Seq<char>, bool, bool) {
    (r.name@, r.ty@, r.returns, r.added)
}

/// A declaration's signature, row by row: every parameter as written, then
/// the return type where it declares one.
pub open spec fn spec_quote(item: ItemMark) -> Seq<(Seq<char>, Seq<char>, bool, bool)> {
    let fields = Seq::new(
        item.body.field_rows@.len(),
        |k: int|
            (
                item.body.field_rows@[k].name@,
                item.body.field_rows@[k].ty@,
                false,
                item.diff.fields_added@.contains(k as u32),
            ),
    );
    if item.body.ty@.len() == 0 {
        fields
    } else {
        fields.push((Seq::empty(), item.body.ty@, true, false))
    }
}

/// Whose method a declaration is, read off the type its impl block names.
pub open spec fn owner_fits(g: CodeGraph, ty: u32, o: Owner) -> bool {
    &&& (ty as int) < g.items@.len()
    &&& (g.items@[ty as int].file as int) < g.files@.len()
    &&& o.ty == ty
    &&& o.decl@ == g.items@[ty as int].head.kind.spec_decl_words(g.items@[ty as int].head.vis)
    &&& o.name@ == g.items@[ty as int].head.name@
    &&& o.path@ == g.files@[g.items@[ty as int].file as int].path@
    &&& o.label@ == g.items@[ty as int].head.label@
    &&& o.on_data == (g.items@[ty as int].head.kind.spec_data() && g.items@[ty as int].parent is None)
}

/// The survey has an owner to read at `ty`.
pub open spec fn has_owner(g: CodeGraph, ty: u32) -> bool {
    (ty as int) < g.items@.len() && (g.items@[ty as int].file as int) < g.files@.len()
}

/// The mark is what the survey says of declaration `m.id`: its head, its
/// file's crate and module, its signature, its owner and its diff.
pub open spec fn mark_reads(g: CodeGraph, m: FnMark) -> bool {
    let item = g.items@[m.id as int];
    let file = g.files@[item.file as int];
    &&& (m.id as int) < g.items@.len()
    &&& (item.file as int) < g.files@.len()
    &&& m.krate@ == file.krate@
    &&& views(m.module@) == spec_module_segments(file.path@)
    &&& m.head.kind == item.head.kind
    &&& m.head.vis == item.head.vis
    &&& m.head.name@ == item.head.name@
    &&& m.head.label@ == item.head.label@
    &&& m.head.path@ == file.path@
    &&& m.head.line == item.head.line
    &&& m.head.section@ == spec_section(g, item)
    &&& m.rows@.map_values(|r: SigRow| row_view(r)) == spec_quote(item)
    &&& match item.parent {
        Some(p) => if has_owner(g, p) {
            m.owner matches Some(o) && owner_fits(g, p, o)
        } else {
            m.owner is None
        },
        None => m.owner is None,
    }
    &&& m.delta == item.diff.delta
    &&& m.recurses == self_ref(g, g.refs@, m.id)
}

/// The mark reads its declaration, and stands where `depth` puts it with
/// the callers and callees `ins` and `outs` list for it.
pub open spec fn mark_fits(
    g: CodeGraph,
    m: FnMark,
    depth: Seq<Option<u32>>,
    ins: Seq<Vec<u32>>,
    outs: Seq<Vec<u32>>,
) -> bool {
    &&& mark_reads(g, m)
    &&& m.tier == spec_tier(depth[m.id as int])
    &&& m.callers as int == ins[m.id as int]@.len()
    &&& m.calls as int == outs[m.id as int]@.len()
}

/// A declaration the chart marks: the reading draws it and its file is in
/// the survey.
pub open spec fn marked_id(g: CodeGraph, floor: VisFloor, id: u32) -> bool {
    drawn_id(g, floor, id) && (g.items@[id as int].file as int) < g.files@.len()
}

/// Declaration order: the file, then the line, then the id.
pub open spec fn mark_key(m: FnMark) -> Seq<u64> {
    text_key(m.head.path@) + seq![m.head.line as u64, m.id as u64]
}

/// The header of the block a method is written under.
fn section_of(g: &CodeGraph, item: &ItemMark) -> (s: String)
    ensures
        s@ == spec_section(*g, *item),
{
    match item.parent {
        Some(p) => {
            if (p as usize) < g.items.len() {
                let rows = &g.items[p as usize].body.method_rows;
                let mut i: usize = 0;
                assert(rows@.skip(0) =~= rows@);
                while i < rows.len()
                    invariant
                        i <= rows@.len(),
                        item.parent == Some(p),
                        (p as int) < g.items@.len(),
                        *rows == g.items@[p as int].body.method_rows,
                        row_of(rows@, item.id) == row_of(rows@.skip(i as int), item.id),
                    decreases rows.len() - i,
                {
                    assert(rows@.skip(i as int)[0] == rows@[i as int]);
                    assert(rows@.skip(i as int).drop_first() =~= rows@.skip(i + 1));
                    if rows[i].mark == item.id {
                        return rows[i].section.clone();
                    }
                    i = i + 1;
                }
                String::new()
            } else {
                String::new()
            }
        },
        None => String::new(),
    }
}

/// One declaration's signature, quoted row by row.
pub fn quote(item: &ItemMark) -> (rows: Vec<SigRow>)
    requires
        item.body.field_rows@.len() < 0x1_0000_0000,
    ensures
        rows@.map_values(|r: SigRow| row_view(r)) == spec_quote(*item),
{
    let fields = &item.body.field_rows;
    let mut rows: Vec<SigRow> = Vec::new();
    let mut at: usize = 0;
    while at < fields.len()
        invariant
            at <= fields@.len(),
            *fields == item.body.field_rows,
            fields@.len() < 0x1_0000_0000,
            rows@.len() == at,
            forall|k: int| 0 <= k < at ==> row_view(#[trigger] rows@[k]) == spec_quote(*item)[k],
        decreases fields.len() - at,
    {
        let added = id_in(&item.diff.fields_added, at as u32);
        rows.push(SigRow { name: fields[at].name.clone(), ty: fields[at].ty.clone(), returns: false, added });
        at = at + 1;
    }
    if item.body.ty.unicode_len() > 0 {
        rows.push(SigRow { name: String::new(), ty: item.body.ty.clone(), returns: true, added: false });
    }
    assert(rows@.map_values(|r: SigRow| row_view(r)) =~= spec_quote(*item));
    rows
}

/// Whose method this is: the type or trait its impl block names.
fn owner_of(g: &CodeGraph, ty: u32) -> (o: Option<Owner>)
    ensures
        match o {
            Some(o) => owner_fits(*g, ty, o),
            None => !has_owner(*g, ty),
        },
{
    if (ty as usize) >= g.items.len() {
        return None;
    }
    let item = &g.items[ty as usize];
    if (item.file as usize) >= g.files.len() {
        return None;
    }
    let file = &g.files[item.file as usize];
    Some(Owner {
        ty,
        decl: item.head.kind.decl_words(&item.head.vis),
        name: item.head.name.clone(),
        path: file.path.clone(),
        label: item.head.label.clone(),
        on_data: item.head.kind.is_data() && item.parent.is_none(),
    })
}

/// Where a depth puts a declaration.
pub fn tier_of(d: Option<u32>) -> (t: Tier)
    ensures
        t == spec_tier(d),
{
    match d {
        Some(0) => Tier::Entry,
        Some(n) => Tier::Deep(n),
        None => Tier::Ring,
    }
}

/// One mark for every declaration the reading draws whose file is in the
/// survey, in declaration order: the file, then the line.
pub fn build_marks(
    g: &CodeGraph,
    floor: VisFloor,
    depth: &Vec<Option<u32>>,
    ins: &Vec<Vec<u32>>,
    outs: &Vec<Vec<u32>>,
    recurses: &Vec<bool>,
) -> (marks: Vec<FnMark>)
    requires
        crate::fn_calls::survey_fits(*g),
        depth@.len() == g.items@.len(),
        ins@.len() == g.items@.len(),
        outs@.len() == g.items@.len(),
        forall|x: int| 0 <= x < g.items@.len() ==> (#[trigger] ins@[x])@.len() < 0x1_0000_0000,
        forall|x: int| 0 <= x < g.items@.len() ==> (#[trigger] outs@[x])@.len() < 0x1_0000_0000,
        recurses@.len() == g.items@.len(),
        forall|x: int| 0 <= x < g.items@.len() ==> (recurses@[x] <==> self_ref(*g, g.refs@, x as u32)),
    ensures
        forall|k: int| 0 <= k < marks@.len() ==> mark_fits(*g, #[trigger] marks@[k], depth@, ins@, outs@),
        forall|k: int| 0 <= k < marks@.len() ==> (#[trigger] marks@[k]).touches == 0 && marks@[k].runs == 0,
        forall|id: u32| marked_id(*g, floor, id) <==> exists|k: int| 0 <= k < marks@.len() && (#[trigger] marks@[k]).id == id,
        forall|a: int, b: int| 0 <= a < b < marks@.len() ==> (#[trigger] marks@[a]).id != (#[trigger] marks@[b]).id,
        forall|a: int, b: int| 0 <= a < b < marks@.len() ==> lex_le(mark_key(#[trigger] marks@[a]), mark_key(#[trigger] marks@[b])),
{
    let n = g.items.len();
    let mut keyed: Vec<(Vec<u64>, FnMark)> = Vec::new();
    let mut id: usize = 0;
    while id < n
        invariant
            id <= n,
            n == g.items@.len(),
            crate::fn_calls::survey_fits(*g),
            depth@.len() == n,
            ins@.len() == n,
            outs@.len() == n,
            forall|x: int| 0 <= x < n ==> (#[trigger] ins@[x])@.len() < 0x1_0000_0000,
            forall|x: int| 0 <= x < n ==> (#[trigger] outs@[x])@.len() < 0x1_0000_0000,
            recurses@.len() == n,
            forall|x: int| 0 <= x < n ==> (recurses@[x] <==> self_ref(*g, g.refs@, x as u32)),
            forall|k: int| 0 <= k < keyed@.len() ==> mark_fits(*g, (#[trigger] keyed@[k]).1, depth@, ins@, outs@)
                && keyed@[k].1.touches == 0 && keyed@[k].1.runs == 0 && keyed@[k].0@ == mark_key(keyed@[k].1)
                && (keyed@[k].1.id as int) < id,
            forall|x: u32| (x as int) < id ==> (marked_id(*g, floor, x) <==> exists|k: int| 0 <= k < keyed@.len() && (#[trigger] keyed@[k]).1.id == x),
            forall|a: int, b: int| 0 <= a < b < keyed@.len() ==> (#[trigger] keyed@[a]).1.id < (#[trigger] keyed@[b]).1.id,
        decreases n - id,
    {
        let ghost before = keyed@;
        if is_drawn(g, floor, id as u32) && (g.items[id].file as usize) < g.files.len() {
            let item = &g.items[id];
            assert(item.id == id);
            let file = &g.files[item.file as usize];
            let (krate, module) = module_of(file.krate.as_str(), file.path.as_str());
            let head = FnHead {
                kind: item.head.kind,
                vis: item.head.vis,
                name: item.head.name.clone(),
                label: item.head.label.clone(),
                path: file.path.clone(),
                line: item.head.line,
                section: section_of(g, item),
            };
            let owner = match item.parent {
                Some(p) => owner_of(g, p),
                None => None,
            };
            let mark = FnMark {
                id: id as u32,
                tier: tier_of(depth[id]),
                krate,
                module,
                head,
                rows: quote(item),
                owner,
                delta: item.diff.delta,
                callers: ins[id].len() as u32,
                calls: outs[id].len() as u32,
                touches: 0,
                runs: 0,
                recurses: recurses[id],
            };
            let mut key: Vec<u64> = Vec::new();
            push_text(&mut key, mark.head.path.as_str());
            key.push(mark.head.line as u64);
            key.push(mark.id as u64);
            assert(key@ =~= mark_key(mark));
            keyed.push((key, mark));
            proof {
                assert forall|x: u32| (x as int) < id + 1 implies (marked_id(*g, floor, x) <==> exists|k: int| 0 <= k < keyed@.len() && (#[trigger] keyed@[k]).1.id == x) by {
                    if x == id {
                        assert(keyed@[keyed@.len() - 1].1.id == x);
                    } else {
                        if marked_id(*g, floor, x) {
                            let k = choose|k: int| 0 <= k < before.len() && (#[trigger] before[k]).1.id == x;
                            assert(keyed@[k] == before[k]);
                        }
                        if exists|k: int| 0 <= k < keyed@.len() && (#[trigger] keyed@[k]).1.id == x {
                            let k = choose|k: int| 0 <= k < keyed@.len() && (#[trigger] keyed@[k]).1.id == x;
                            assert(k < before.len());
                            assert(before[k].1.id == x);
                        }
                    }
                }
            }
        } else {
            proof {
                assert forall|x: u32| (x as int) < id + 1 implies (marked_id(*g, floor, x) <==> exists|k: int| 0 <= k < keyed@.len() && (#[trigger] keyed@[k]).1.id == x) by {
                    if x == id {
                        if exists|k: int| 0 <= k < keyed@.len() && (#[trigger] keyed@[k]).1.id == x {
                            let k = choose|k: int| 0 <= k < keyed@.len() && (#[trigger] keyed@[k]).1.id == x;
                        }
                    }
                }
            }
        }
        id = id + 1;
    }
    let ghost all = keyed@;
    proof {
        assert(all.no_duplicates()) by {
            assert forall|a: int, b: int| 0 <= a < all.len() && 0 <= b < all.len() && a != b implies all[a] != all[b] by {
                if a < b {
                    assert(all[a].1.id < all[b].1.id);
                } else {
                    assert(all[b].1.id < all[a].1.id);
                }
            }
        }
    }
    let sorted = sort_by_key(keyed);
    let ghost s = sorted@;
    proof {
        lemma_same_entries(s, all);
        lemma_no_dup_moves(all, s);
    }
    let marks = values_of(sorted);
    proof {
        assert forall|k: int| 0 <= k < s.len() implies all.contains(#[trigger] s[k]) by {
            assert(s.contains(s[k]));
        }
        assert forall|k: int| 0 <= k < marks@.len() implies mark_fits(*g, #[trigger] marks@[k], depth@, ins@, outs@) by {
            assert(all.contains(s[k]));
            let q = choose|q: int| 0 <= q < all.len() && all[q] == s[k];
            assert(all[q].1 == marks@[k]);
        }
        assert forall|k: int| 0 <= k < marks@.len() implies (#[trigger] marks@[k]).touches == 0 && marks@[k].runs == 0 by {
            assert(all.contains(s[k]));
            let q = choose|q: int| 0 <= q < all.len() && all[q] == s[k];
        }
        assert forall|id: u32| marked_id(*g, floor, id) <==> exists|k: int| 0 <= k < marks@.len() && (#[trigger] marks@[k]).id == id by {
            if marked_id(*g, floor, id) {
                assert((id as int) < n);
                let q = choose|q: int| 0 <= q < all.len() && (#[trigger] all[q]).1.id == id;
                assert(s.contains(all[q]));
                let k = choose|k: int| 0 <= k < s.len() && s[k] == all[q];
                assert(marks@[k].id == id);
            }
            if exists|k: int| 0 <= k < marks@.len() && (#[trigger] marks@[k]).id == id {
                let k = choose|k: int| 0 <= k < marks@.len() && (#[trigger] marks@[k]).id == id;
                assert(all.contains(s[k]));
                let q = choose|q: int| 0 <= q < all.len() && all[q] == s[k];
                assert(all[q].1.id == id);
            }
        }
        assert forall|a: int, b: int| 0 <= a < b < marks@.len() implies (#[trigger] marks@[a]).id != (#[trigger] marks@[b]).id by {
            assert(all.contains(s[a]));
            assert(all.contains(s[b]));
            let qa = choose|q: int| 0 <= q < all.len() && all[q] == s[a];
            let qb = choose|q: int| 0 <= q < all.len() && all[q] == s[b];
            if qa != qb {
                if qa < qb {
                    assert(all[qa].1.id < all[qb].1.id);
                } else {
                    assert(all[qb].1.id < all[qa].1.id);
                }
            } else {
                assert(s[a] != s[b]);
            }
        }
        assert forall|a: int, b: int| 0 <= a < b < marks@.len() implies lex_le(mark_key(#[trigger] marks@[a]), mark_key(#[trigger] marks@[b])) by {
            assert(lex_le(s[a].0@, s[b].0@));
            assert(all.contains(s[a]));
            assert(all.contains(s[b]));
            let qa = choose|q: int| 0 <= q < all.len() && all[q] == s[a];
            let qb = choose|q: int| 0 <= q < all.len() && all[q] == s[b];
        }
    }
    marks
}

} // verus!
