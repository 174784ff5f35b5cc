use slope::data_model::{Anchor, DataModel, Frame, Hold, RowState, Seat, Tie, MARK_BUDGET};
use slope::data_sheet::sheet_of;
use slope::kinds::{Delta, HoldEvent, HoldKind, ItemKind, Vis};
use slope::wire::{CodeGraph, Doors, FileInfo, GhostMark, HoldEdge, ItemEdge, ItemMark, RefDir};

fn file(id: u32, path: &str, changed: bool) -> FileInfo {
    FileInfo {
        id,
        path: path.to_string(),
        krate: "slope".to_string(),
        changed,
        lines: 100,
        items: 2,
        refs_in_files: 0,
    }
}

fn mark(id: u32, file: u32, name: &str, kind: ItemKind, vis: Vis) -> ItemMark {
    ItemMark {
        id,
        file,
        local: id,
        name: name.to_string(),
        label: name.to_string(),
        kind,
        vis,
        line: id + 1,
        parent: None,
        fan_in: 0,
        impls: Vec::new(),
        field_rows: Vec::new(),
        variants: Vec::new(),
        ty: String::new(),
        delta: Delta::Same,
        fields_added: Vec::new(),
        fields_removed: Vec::new(),
        variants_added: Vec::new(),
        variants_removed: Vec::new(),
    }
}


/// `Wire` (pub, in `mod api`) is held by `Index` (pub, in `mod analyze`)
/// and by `Hidden` (private, same module).
fn graph() -> CodeGraph {
    let mut index = mark(1, 1, "Index", ItemKind::Struct, Vis::Pub);
    index.field_rows = vec![("wire".into(), "Wire".into())];
    let mut cache = mark(3, 1, "CACHE", ItemKind::Static, Vis::Private);
    cache.ty = "OnceCell<Arc<Index>>".to_string();
    CodeGraph {
        files: vec![
            file(0, "src/api.rs", false),
            file(1, "src/analyze/code.rs", true),
        ],
        refs: Vec::new(),
        items: vec![
            mark(0, 0, "Wire", ItemKind::Struct, Vis::Pub),
            index,
            mark(2, 1, "Hidden", ItemKind::Struct, Vis::Private),
            cache,
        ],
        item_edges: vec![ItemEdge {
            from_file: 1,
            from: Some(1),
            to_file: 0,
            to: Some(0),
            count: 4,
        }],
        holds: vec![
            HoldEdge {
                from: 1,
                to: 0,
                kind: HoldKind::Owns,
                via: String::new(),
                fields: vec![("wire".into(), "Wire".into())],
                event: None,
            },
            HoldEdge {
                from: 2,
                to: 0,
                kind: HoldKind::Owns,
                via: String::new(),
                fields: vec![("wire".into(), "Wire".into())],
                event: None,
            },
            HoldEdge {
                from: 3,
                to: 1,
                kind: HoldKind::Shares,
                via: "Arc".into(),
                fields: vec![("CACHE".into(), "OnceCell<Arc<Index>>".into())],
                event: None,
            },
        ],
        ghosts: Vec::new(),
        unresolved: 0,
        notes: Vec::new(),
    }
}

#[test]
fn privacy_folds_a_type_and_keeps_its_edge() {
    let model = DataModel::build(&graph(), RefDir::Uses, Doors::Crate);
    // Two module frames under one crate frame; the crate frame is empty
    // but holds them.
    assert_eq!(model.frames.len(), 3);
    assert!(!model.multi_crate);
    let api = model
        .frames
        .iter()
        .find(|f| f.module.as_deref() == Some("api"))
        .unwrap();
    assert_eq!(api.marks.len(), 1);
    let analyze = model
        .frames
        .iter()
        .find(|f| f.module.as_deref() == Some("analyze"))
        .unwrap();
    // The static is drawn although it is private; the struct is not.
    assert_eq!(analyze.marks.len(), 2);
    assert_eq!(analyze.private, 1);
    // The private holder's edge lands on the frame's counted row.
    assert!(
        model
            .holds
            .iter()
            .any(|h| h.holder == Anchor::Private(analyze.id) && h.held == Anchor::Mark(0))
    );
    // Only the static is a root here: nothing can hold a static, and both
    // types are held — `Wire` by `Index`, `Index` by the static itself.
    assert_eq!(model.roots, 1);
    assert_eq!(model.structs, 2);
}

/// The doors setting is a floor, not a filter on one visibility: raising
/// it to `pub` folds the crate-visible types beside the private ones, and
/// dropping it to `All` folds nothing at all.
#[test]
fn the_doors_setting_moves_the_visibility_fold() {
    let mut g = graph();
    // `Index` (pub, in `mod analyze`) becomes crate-visible.
    g.items[1].vis = Vis::Crate;

    // At `pub` it folds in with the private type: one drawn static left,
    // and the frame counts two behind its row.
    let shut = DataModel::build(&g, RefDir::Uses, Doors::Pub);
    let analyze = shut
        .frames
        .iter()
        .find(|f| f.module.as_deref() == Some("analyze"))
        .unwrap();
    assert_eq!(analyze.marks.len(), 1);
    assert_eq!(analyze.private, 2);
    assert!(!shut.marks.iter().any(|m| m.name == "Index"));
    // The static still holds `Index`, so that edge lands on the row.
    assert!(
        shut.holds
            .iter()
            .any(|h| h.held == Anchor::Private(analyze.id) && h.holder == Anchor::Mark(3))
    );
    assert_eq!(shut.doors.fold_word(), "internal type");

    // At `pub(crate)` it is drawn again, and only the private type folds.
    let open = DataModel::build(&g, RefDir::Uses, Doors::Crate);
    let analyze = open
        .frames
        .iter()
        .find(|f| f.module.as_deref() == Some("analyze"))
        .unwrap();
    assert_eq!(analyze.marks.len(), 2);
    assert_eq!(analyze.private, 1);
    assert_eq!(open.doors.fold_word(), "private type");

    // At `private` nothing folds for visibility: every charted type is a
    // mark, and no frame carries a counted row.
    let all = DataModel::build(&g, RefDir::Uses, Doors::All);
    assert_eq!(all.marks.len(), 4);
    assert!(all.frames.iter().all(|f| f.private == 0));
    assert!(
        all.holds
            .iter()
            .all(|h| !matches!(h.held, Anchor::Private(_)))
            && all
                .holds
                .iter()
                .all(|h| !matches!(h.holder, Anchor::Private(_)))
    );
    // `Hidden` holds `Wire` and nothing holds `Hidden`, so it joins the
    // roots the moment it is drawn.
    assert!(all.marks.iter().any(|m| m.name == "Hidden"));
    assert_eq!(all.structs, 3);
}

#[test]
fn a_static_quotes_its_type_instead_of_a_field_row() {
    let model = DataModel::build(&graph(), RefDir::Uses, Doors::Crate);
    let cache = model.marks.iter().find(|m| m.name == "CACHE").unwrap();
    assert!(cache.is_static());
    assert!(cache.fields.is_empty());
    // Its edge is filed under its own name, so the quoted line knows which
    // run to draw in full ink — the same run the drawn edge lands on.
    assert_eq!(cache.ty, "OnceCell<Arc<Index>>");
    assert_eq!(cache.ty_target, "Index");
    let index = model.marks.iter().find(|m| m.name == "Index").unwrap();
    assert_eq!(index.fields.len(), 1);
    assert_eq!(index.fields[0].target, "Wire");
    // A changed file no longer marks a type by itself: the letter is the
    // declaration's own delta.
    assert_eq!(index.letter(), None);
    assert!(model.changed_modules.is_empty());
}

#[test]
fn the_diff_draws_ghosts_and_interleaves_base_rows() {
    let mut g = graph();
    let ghost_id = g.items.len() as u32;
    // The working copy dropped `refs: Vec<FileRef>` from `Index`, and
    // `FileRef` itself.
    g.items[1].delta = Delta::Changed;
    g.items[1].fields_removed = vec![(1, "refs".into(), "Vec<FileRef>".into())];
    g.ghosts.push(GhostMark {
        id: ghost_id,
        path: "src/api.rs".into(),
        krate: "slope".into(),
        name: "FileRef".into(),
        kind: ItemKind::Struct,
        vis: Vis::Pub,
        line: 9,
        field_rows: vec![("from".into(), "u32".into())],
        variants: Vec::new(),
        ty: String::new(),
    });
    g.holds.push(HoldEdge {
        from: 1,
        to: ghost_id,
        kind: HoldKind::Owns,
        via: String::new(),
        fields: vec![("refs".into(), "Vec<FileRef>".into())],
        event: Some(HoldEvent::Removed),
    });
    let model = DataModel::build(&g, RefDir::Uses, Doors::Crate);
    let ghost = model.marks.iter().find(|m| m.name == "FileRef").unwrap();
    assert!(ghost.ghosted);
    assert_eq!(ghost.letter(), Some("D"));
    assert_eq!(ghost.locator(), "src/api.rs:9 (base)");
    // The removed edge is drawn, resting, from the ghost to its holder.
    assert!(model.holds.iter().any(|h| h.held == Anchor::Mark(ghost_id)
        && h.holder == Anchor::Mark(1)
        && h.event == Some(HoldEvent::Removed)
        && h.rest));
    // The base's row seats back where it stood, struck.
    let index = model.marks.iter().find(|m| m.name == "Index").unwrap();
    assert_eq!(index.letter(), Some("M"));
    assert_eq!(index.fields.len(), 2);
    assert_eq!(index.fields[1].name, "refs");
    assert_eq!(index.fields[1].state, RowState::Removed);
    assert_eq!((model.removed, model.changed), (1, 1));
    assert_eq!(
        model.changed_modules,
        vec!["analyze".to_string(), "api".to_string()]
    );
    // A ghost is drawn, never counted as current code.
    assert_eq!(model.structs, 2);
}

#[test]
fn ties_land_on_types_only() {
    let model = DataModel::build(&graph(), RefDir::Both, Doors::Crate);
    assert_eq!(model.ties.len(), 1);
    assert_eq!(model.ties[0].def, Anchor::Mark(0));
    assert_eq!(model.ties[0].user, Anchor::Mark(1));
    assert_eq!(model.ties[0].count, 4);
}

// ---- Seating: the ownership forest inside a frame. ---------------------

fn holds(from: u32, to: u32, fields: &[&str]) -> HoldEdge {
    HoldEdge {
        from,
        to,
        kind: HoldKind::Owns,
        via: String::new(),
        fields: fields
            .iter()
            .map(|name| ((*name).to_string(), "T".to_string()))
            .collect(),
        event: None,
    }
}

/// A frame with something to seat. In `mod api`: `Wire` owns `Leaf` and
/// `Node`, `Node` also owns `Leaf` (the same weight, later in the survey),
/// the `CACHE` static owns `Node` with one field where `Wire` owns it with
/// two, four types hold `Id`, and the private `Hidden` is all that owns
/// `Orphan`. A module away, `Index` owns `Wire`.
fn seating_graph() -> CodeGraph {
    CodeGraph {
        files: vec![
            file(0, "src/api.rs", false),
            file(1, "src/analyze/code.rs", false),
        ],
        refs: Vec::new(),
        items: vec![
            mark(0, 0, "Wire", ItemKind::Struct, Vis::Pub),
            mark(1, 0, "Leaf", ItemKind::Struct, Vis::Pub),
            mark(2, 0, "Node", ItemKind::Struct, Vis::Pub),
            mark(3, 0, "Orphan", ItemKind::Struct, Vis::Pub),
            mark(4, 0, "Id", ItemKind::Struct, Vis::Pub),
            mark(5, 0, "Hidden", ItemKind::Struct, Vis::Private),
            mark(6, 0, "CACHE", ItemKind::Static, Vis::Private),
            mark(7, 1, "Index", ItemKind::Struct, Vis::Pub),
        ],
        item_edges: Vec::new(),
        // Sorted by (from, to), the way the survey ships them.
        holds: vec![
            holds(0, 1, &["leaf"]),
            holds(0, 2, &["head", "tail"]),
            holds(0, 4, &["id"]),
            // Nothing can have a field of a static, so the survey never
            // writes this edge. The rule that a static is a root is the
            // chart's own, and it is worth a guard.
            holds(0, 6, &["cache"]),
            holds(1, 4, &["id"]),
            holds(2, 1, &["leaf"]),
            holds(2, 4, &["id"]),
            holds(3, 4, &["id"]),
            holds(5, 3, &["orphan"]),
            holds(6, 2, &["node"]),
            holds(7, 0, &["wire"]),
        ],
        ghosts: Vec::new(),
        unresolved: 0,
        notes: Vec::new(),
    }
}

fn frame_named<'a>(model: &'a DataModel, module: &str) -> &'a Frame {
    model
        .frames
        .iter()
        .find(|f| f.module.as_deref() == Some(module))
        .unwrap()
}

/// Every seat in a forest, with the ownership depth it sits at.
fn walk(seats: &[Seat], depth: usize, out: &mut Vec<(Anchor, usize)>) {
    for seat in seats {
        out.push((seat.anchor, depth));
        walk(&seat.children, depth + 1, out);
    }
}

fn roots(frame: &Frame) -> Vec<Anchor> {
    frame.forest.iter().map(|s| s.anchor).collect()
}

#[test]
fn a_type_seats_under_the_same_frame_owner_that_holds_it_hardest() {
    let model = DataModel::build(&seating_graph(), RefDir::Uses, Doors::Crate);
    let api = frame_named(&model, "api");
    let wire = api
        .forest
        .iter()
        .find(|s| s.anchor == Anchor::Mark(0))
        .unwrap();
    // `Leaf` is owned by `Wire` and by `Node` with one field each; the
    // survey's order breaks the tie. `Node` is owned by `Wire` with two
    // fields and by `CACHE` with one, so weight decides.
    assert_eq!(
        wire.children.iter().map(|s| s.anchor).collect::<Vec<_>>(),
        vec![Anchor::Mark(1), Anchor::Mark(2)]
    );
    // Ownership depth is the layer: `Leaf` sits one under `Wire`.
    let mut seats = Vec::new();
    walk(&api.forest, 0, &mut seats);
    assert!(seats.contains(&(Anchor::Mark(1), 1)));
}

#[test]
fn a_type_owned_from_another_module_is_a_root_and_keeps_its_edge() {
    let model = DataModel::build(&seating_graph(), RefDir::Uses, Doors::Crate);
    // `Index` owns `Wire`, but it is a module away: `Wire` stays a root of
    // its own frame rather than moving into `mod analyze`.
    assert!(roots(frame_named(&model, "api")).contains(&Anchor::Mark(0)));
    assert_eq!(roots(frame_named(&model, "analyze")), vec![Anchor::Mark(7)]);
    // And the ownership is still ink on the paper.
    assert!(model.holds.iter().any(|h| h.held == Anchor::Mark(0)
        && h.holder == Anchor::Mark(7)
        && h.kind == HoldKind::Owns));
}

#[test]
fn a_static_never_seats_under_a_type() {
    let model = DataModel::build(&seating_graph(), RefDir::Uses, Doors::Crate);
    let api = frame_named(&model, "api");
    let mut seats = Vec::new();
    walk(&api.forest, 0, &mut seats);
    assert!(seats.contains(&(Anchor::Mark(6), 0)));
    assert!(!seats.iter().any(|&(a, d)| a == Anchor::Mark(6) && d > 0));
}

#[test]
fn a_frame_seats_statics_then_trees_then_vocabulary_then_its_fold_rows() {
    let model = DataModel::build(&seating_graph(), RefDir::Uses, Doors::Crate);
    let api = frame_named(&model, "api");
    assert_eq!(
        roots(api),
        vec![
            // The static register first,
            Anchor::Mark(6),
            // then the trees, biggest first — `Wire` carries two,
            Anchor::Mark(0),
            // then `Id`, which four types hold: never seated, never a seat,
            Anchor::Mark(4),
            // then what the frame does not draw.
            Anchor::Private(api.id),
        ]
    );
    assert_eq!(
        model.marks.iter().find(|m| m.name == "Id").unwrap().held_by,
        4
    );
    // `Orphan` is owned by private code alone, so it hangs under the row
    // that counts the private code.
    assert_eq!(api.forest[3].children.len(), 1);
    assert_eq!(api.forest[3].children[0].anchor, Anchor::Mark(3));
}

#[test]
fn every_drawn_mark_sits_in_its_frame_exactly_once() {
    let model = DataModel::build(&seating_graph(), RefDir::Uses, Doors::Crate);
    for frame in &model.frames {
        let mut seats = Vec::new();
        walk(&frame.forest, 0, &mut seats);
        let mut seated: Vec<u32> = seats
            .iter()
            .filter_map(|(a, _)| match a {
                Anchor::Mark(id) => Some(*id),
                _ => None,
            })
            .collect();
        seated.sort_unstable();
        let mut roster = frame.marks.clone();
        roster.sort_unstable();
        assert_eq!(seated, roster, "frame {:?}", frame.module);
    }
}

#[test]
fn two_types_that_own_each_other_seat_once() {
    let graph = CodeGraph {
        files: vec![file(0, "src/api.rs", false)],
        refs: Vec::new(),
        items: vec![
            mark(0, 0, "A", ItemKind::Struct, Vis::Pub),
            mark(1, 0, "B", ItemKind::Struct, Vis::Pub),
        ],
        item_edges: Vec::new(),
        holds: vec![holds(0, 1, &["b"]), holds(1, 0, &["a"])],
        ghosts: Vec::new(),
        unresolved: 0,
        notes: Vec::new(),
    };
    let model = DataModel::build(&graph, RefDir::Uses, Doors::Crate);
    let api = frame_named(&model, "api");
    // One seat takes the other; the ring is not seated twice.
    let mut seats = Vec::new();
    walk(&api.forest, 0, &mut seats);
    assert_eq!(seats.len(), 2);
    assert_eq!(api.forest.len(), 1);
    // Both edges are still drawn — the closing one included.
    assert_eq!(model.holds.len(), 2);
}

#[test]
fn the_same_survey_always_seats_the_same_forest() {
    let graph = seating_graph();
    let a = DataModel::build(&graph, RefDir::Uses, Doors::Crate);
    let b = DataModel::build(&graph, RefDir::Uses, Doors::Crate);
    assert_eq!(a, b);
}

// ---- Contracts: free functions as marks. -------------------------------

/// A free function's mark as the survey writes one: its parameters in the
/// rows a struct uses for fields, its return type in the line a static
/// uses for its declared type.
fn func(
    id: u32,
    file: u32,
    name: &str,
    vis: Vis,
    params: &[(&str, &str)],
    ret: &str,
) -> ItemMark {
    let mut f = mark(id, file, name, ItemKind::Fn, vis);
    f.field_rows = params
        .iter()
        .map(|(n, d)| ((*n).to_string(), (*d).to_string()))
        .collect();
    f.ty = ret.to_string();
    f
}

fn sig(from: u32, to: u32, kind: HoldKind, via: &str, fields: &[(&str, &str)]) -> HoldEdge {
    HoldEdge {
        from,
        to,
        kind,
        via: via.to_string(),
        fields: fields
            .iter()
            .map(|(n, d)| ((*n).to_string(), (*d).to_string()))
            .collect(),
        event: None,
    }
}

/// One module's contracts. In `mod api`: `pub fn survey(graph: &Wire) ->
/// Nut` borrows `Wire` and hands back `Nut`, `sweep` is private, `Wire::id`
/// is a method, and the `CACHE` static holds nothing this chart draws.
fn contract_graph() -> CodeGraph {
    let mut method = mark(4, 0, "id", ItemKind::Fn, Vis::Pub);
    method.parent = Some(0);
    let mut cache = mark(5, 0, "CACHE", ItemKind::Static, Vis::Private);
    cache.ty = "u8".to_string();
    CodeGraph {
        files: vec![file(0, "src/api.rs", false)],
        refs: Vec::new(),
        items: vec![
            mark(0, 0, "Wire", ItemKind::Struct, Vis::Pub),
            mark(1, 0, "Nut", ItemKind::Struct, Vis::Pub),
            func(2, 0, "survey", Vis::Pub, &[("graph", "&Wire")], "Nut"),
            func(3, 0, "sweep", Vis::Private, &[], ""),
            method,
            cache,
        ],
        item_edges: Vec::new(),
        holds: vec![
            sig(2, 0, HoldKind::Borrows, "&", &[("graph", "&Wire")]),
            // The return type's edge is filed under the function's own
            // name, the way a static's is under the static's.
            sig(2, 1, HoldKind::Owns, "", &[("survey", "Nut")]),
        ],
        ghosts: Vec::new(),
        unresolved: 0,
        notes: Vec::new(),
    }
}

#[test]
fn a_free_function_is_a_mark_and_the_door_folds_it_like_a_type() {
    let model = DataModel::build(&contract_graph(), RefDir::Uses, Doors::Crate);
    let api = frame_named(&model, "api");
    // `Wire`, `Nut`, `survey`, `CACHE` — and the private function counted
    // behind the same row a private type would be.
    assert_eq!(api.marks.len(), 4);
    assert_eq!(api.private, 1);
    assert!(model.marks.iter().any(|m| m.name == "survey" && m.is_fn()));
    assert!(!model.marks.iter().any(|m| m.name == "sweep"));
    // A method is its type's contract, not the file's: no mark, and not
    // counted in the fold either.
    assert!(!model.marks.iter().any(|m| m.name == "id"));
    // A function is counted as a contract, never as a root: nothing can
    // hold one, so `root` would be true of every function and mean
    // nothing. Both types are named by the signature, so neither is one.
    assert_eq!((model.structs, model.fns, model.roots), (2, 1, 1));

    // At `private` the door opens on the quiet function too.
    let all = DataModel::build(&contract_graph(), RefDir::Uses, Doors::All);
    assert!(all.marks.iter().any(|m| m.name == "sweep"));
    assert_eq!(all.fns, 2);
}

#[test]
fn a_signature_quotes_its_parameters_and_carries_its_wrapper() {
    let model = DataModel::build(&contract_graph(), RefDir::Uses, Doors::Crate);
    let survey = model.marks.iter().find(|m| m.name == "survey").unwrap();
    assert_eq!(survey.fields.len(), 1);
    assert_eq!(survey.fields[0].name, "graph");
    assert_eq!(survey.fields[0].target, "Wire");
    // The return type stands in the static's slot and bolds the same way.
    assert_eq!(
        (survey.ty.as_str(), survey.ty_target.as_str()),
        ("Nut", "Nut")
    );
    // A parameter taken by reference borrows, and the edge carries the
    // wrapper's own word — the field walk's table, unchanged.
    assert!(model.holds.iter().any(|h| h.held == Anchor::Mark(0)
        && h.holder == Anchor::Mark(2)
        && h.kind == HoldKind::Borrows
        && h.via == "&"));
}

#[test]
fn a_function_seats_nothing_and_sits_under_nothing() {
    let model = DataModel::build(&contract_graph(), RefDir::Uses, Doors::Crate);
    let api = frame_named(&model, "api");
    let mut seats = Vec::new();
    walk(&api.forest, 0, &mut seats);
    // `survey` hands back `Nut` by value, and `Nut` still stands on its
    // own ground: a signature is not containment.
    assert!(seats.iter().all(|&(_, depth)| depth == 0));
    assert!(seats.contains(&(Anchor::Mark(1), 0)));
    // And the ownership is still ink on the paper.
    assert!(model.holds.iter().any(|h| h.held == Anchor::Mark(1)
        && h.holder == Anchor::Mark(2)
        && h.kind == HoldKind::Owns));
}

#[test]
fn a_frame_reads_statics_then_trees_then_contracts_then_vocabulary() {
    let mut g = contract_graph();
    // `Id` is reached by four marks — two types, a static, and one
    // signature — so it is vocabulary: never seated, never a seat.
    g.items.push(mark(6, 0, "Id", ItemKind::Struct, Vis::Pub));
    g.items[2].field_rows.push(("id".into(), "Id".into()));
    g.holds.push(holds(0, 6, &["id"]));
    g.holds.push(holds(1, 6, &["id"]));
    g.holds.push(sig(2, 6, HoldKind::Owns, "", &[("id", "Id")]));
    g.holds.push(holds(5, 6, &["CACHE"]));
    let model = DataModel::build(&g, RefDir::Uses, Doors::Crate);
    let api = frame_named(&model, "api");
    assert_eq!(
        roots(api),
        vec![
            // The static register first,
            Anchor::Mark(5),
            // then the trees, in the survey's order at equal size,
            Anchor::Mark(0),
            Anchor::Mark(1),
            // then the contracts,
            Anchor::Mark(2),
            // then the vocabulary leaf, then what the frame does not draw.
            Anchor::Mark(6),
            Anchor::Private(api.id),
        ]
    );
    let id = model.marks.iter().find(|m| m.name == "Id").unwrap();
    // The fold counts every arrow it folded, and says the two kinds of
    // arrow apart: a signature names a type without holding it.
    assert_eq!((id.held_by, id.named_by), (3, 1));
}

#[test]
fn the_budget_folds_contracts_and_never_statics() {
    let mut items = vec![mark(0, 0, "CACHE", ItemKind::Static, Vis::Private)];
    for id in 1..=(MARK_BUDGET as u32 + 1) {
        items.push(func(id, 0, &format!("f{id}"), Vis::Pub, &[], ""));
    }
    let graph = CodeGraph {
        files: vec![file(0, "src/api.rs", false)],
        refs: Vec::new(),
        items,
        item_edges: Vec::new(),
        holds: Vec::new(),
        ghosts: Vec::new(),
        unresolved: 0,
        notes: Vec::new(),
    };
    let model = DataModel::build(&graph, RefDir::Uses, Doors::Crate);
    let api = frame_named(&model, "api");
    // The two quietest functions fold to the counted row; the static
    // stands, because it is the one mark with nowhere else to be counted.
    assert_eq!(api.marks.len(), MARK_BUDGET);
    assert_eq!(api.more, 2);
    assert!(model.marks.iter().any(|m| m.name == "CACHE"));
    assert_eq!(roots(api).last(), Some(&Anchor::More(api.id)));
}

#[test]
fn a_dropped_function_ghosts_and_a_dropped_parameter_weaves_back() {
    let mut g = contract_graph();
    let ghost_id = g.items.len() as u32;
    // The working copy dropped `quiet: bool` from `survey`, and the whole
    // of `pub fn sweep_all(wire: &Wire)`.
    g.items[2].delta = Delta::Changed;
    g.items[2].fields_removed = vec![(1, "quiet".into(), "bool".into())];
    g.ghosts.push(GhostMark {
        id: ghost_id,
        path: "src/api.rs".into(),
        krate: "slope".into(),
        name: "sweep_all".into(),
        kind: ItemKind::Fn,
        vis: Vis::Pub,
        line: 40,
        field_rows: vec![("wire".into(), "&Wire".into())],
        variants: Vec::new(),
        ty: String::new(),
    });
    g.holds.push(HoldEdge {
        from: ghost_id,
        to: 0,
        kind: HoldKind::Borrows,
        via: "&".into(),
        fields: vec![("wire".into(), "&Wire".into())],
        event: Some(HoldEvent::Removed),
    });
    let model = DataModel::build(&g, RefDir::Uses, Doors::Crate);

    let ghost = model.marks.iter().find(|m| m.name == "sweep_all").unwrap();
    assert!(ghost.ghosted && ghost.is_fn());
    assert_eq!(ghost.letter(), Some("D"));
    assert_eq!(ghost.fields[0].target, "Wire");
    // The removed signature edge is drawn, resting, from the type the base
    // named to the contract that named it.
    assert!(model.holds.iter().any(|h| h.held == Anchor::Mark(0)
        && h.holder == Anchor::Mark(ghost_id)
        && h.event == Some(HoldEvent::Removed)
        && h.rest));
    // A ghost contract seats in the frame its path names, in the fn band.
    assert!(roots(frame_named(&model, "api")).contains(&Anchor::Mark(ghost_id)));

    // The dropped parameter seats back where it stood, struck.
    let survey = model.marks.iter().find(|m| m.name == "survey").unwrap();
    assert_eq!(survey.letter(), Some("M"));
    assert_eq!(survey.fields.len(), 2);
    assert_eq!(survey.fields[1].name, "quiet");
    assert_eq!(survey.fields[1].state, RowState::Removed);
}


#[test]
fn edges_of_one_key_gather_into_one_hold_counting_every_field() {
    let graph = CodeGraph {
        files: vec![file(0, "src/api.rs", false)],
        refs: Vec::new(),
        items: vec![
            mark(0, 0, "A", ItemKind::Struct, Vis::Pub),
            mark(1, 0, "B", ItemKind::Struct, Vis::Pub),
            mark(2, 0, "Speak", ItemKind::Trait, Vis::Pub),
        ],
        item_edges: Vec::new(),
        holds: vec![holds(0, 1, &["b", "c"]), holds(0, 1, &["d"]), holds(0, 0, &["me"]), holds(0, 2, &["s"])],
        ghosts: Vec::new(),
        unresolved: 0,
        notes: Vec::new(),
    };
    let model = DataModel::build(&graph, RefDir::Uses, Doors::Crate);
    // The two edges from `A` to `B` are one hold of three fields; `A` holding
    // itself draws nothing, and the edge to the trait is only counted.
    assert_eq!(model.holds.len(), 1);
    assert_eq!((model.holds[0].held, model.holds[0].holder), (Anchor::Mark(1), Anchor::Mark(0)));
    assert_eq!(model.holds[0].fields, 3);
    assert_eq!(model.trait_holds, 1);
}

#[test]
fn every_static_and_every_unheld_type_is_a_root() {
    // `CACHE` is a static, so it is a root though the guard edge holds it;
    // `Index` is the one drawn type nothing holds.
    let model = DataModel::build(&seating_graph(), RefDir::Uses, Doors::Crate);
    assert_eq!(model.roots, 2);
}

#[test]
fn two_edges_of_different_wrappers_key_apart() {
    let hold = |via: &str, event: Option<HoldEvent>| Hold {
        held: Anchor::Mark(1),
        holder: Anchor::Mark(12),
        kind: HoldKind::Owns,
        via: via.to_string(),
        fields: 1,
        rest: true,
        event,
    };
    assert_eq!(hold("Arc", None).key(), "Mark(1)>Mark(12):Owns:Arc:None");
    assert_ne!(hold("Arc", None).key(), hold("Arc", Some(HoldEvent::Added)).key());
    assert_ne!(hold("a:b", None).key(), hold("a", None).key());
    let tie = |def: Anchor, user: Anchor| Tie { def, user, count: 1, rest: true, labeled: false };
    assert_eq!(tie(Anchor::Mark(1), Anchor::More(2)).key(), "Mark(1)~More(2)");
    assert_ne!(tie(Anchor::Mark(11), Anchor::Mark(2)).key(), tie(Anchor::Mark(1), Anchor::Mark(12)).key());
}

#[test]
fn a_sheet_splits_holders_from_signatures_and_counts_the_reach_beyond() {
    let model = DataModel::build(&graph(), RefDir::Uses, Doors::Crate);
    let analyze = model.frames.iter().find(|f| f.module.as_deref() == Some("analyze")).unwrap().id;
    let sheet = sheet_of(&model, Anchor::Mark(0));
    let mut holders: Vec<Anchor> = sheet.held_by.iter().map(|&k| model.holds[k].holder).collect();
    holders.sort_by_key(|a| format!("{a:?}"));
    assert_eq!(holders, vec![Anchor::Mark(1), Anchor::Private(analyze)]);
    assert!(sheet.contracts.is_empty());
    assert!(sheet.holds.is_empty());
    // The static holds `Index`, which holds `Wire`: one more type.
    assert_eq!((sheet.beyond_types, sheet.beyond_fns), (1, 0));
    let index = sheet_of(&model, Anchor::Mark(1));
    let held: Vec<Anchor> = index.holds.iter().map(|&k| model.holds[k].held).collect();
    assert_eq!(held, vec![Anchor::Mark(0)]);
    assert_eq!((index.beyond_types, index.beyond_fns), (0, 0));
}
