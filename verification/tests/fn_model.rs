use std::collections::HashSet;

use slope::fn_model::{CallKind, FnModel, Spot, Tier};
use slope::fn_sheet::sheet_rows;
use slope::fn_wires::{corridors, drawn_under, WireEnds};
use slope::fn_reading::{mod_fold, owner_fold, peek_at, peek_key, FnOrder, FnReading, FnWires, FoldAt, VisFloor};
use slope::kinds::{ItemKind, Vis};
use slope::survey::{CodeGraph, DeclBody, DeclHead, Diff, FileInfo, ImplEdge, ItemMark, MarkRef, MethodRow, Reach};

fn item(id: u32, name: &str, kind: ItemKind, vis: Vis, parent: Option<u32>) -> ItemMark {
    ItemMark {
        id,
        file: 0,
        parent,
        head: DeclHead {
            name: name.rsplit("::").next().unwrap_or(name).to_string(),
            label: name.to_string(),
            kind,
            vis,
            line: id + 1,
        },
        body: DeclBody::default(),
        reach: Reach::default(),
        diff: Diff::default(),
    }
}

/// `main` calls `walk`, `walk` calls `note`, and nothing calls `main`.
fn chain() -> CodeGraph {
    CodeGraph {
        files: vec![FileInfo { path: "src/main.rs".to_string(), krate: "slope".to_string() }],
        items: vec![
            item(0, "main", ItemKind::Fn, Vis::Pub, None),
            item(1, "walk", ItemKind::Fn, Vis::Crate, None),
            item(2, "note", ItemKind::Fn, Vis::Private, None),
            item(3, "Held", ItemKind::Struct, Vis::Pub, None),
        ],
        implements: Vec::new(),
        refs: vec![
            MarkRef { from: 0, to: 1, count: 2 },
            MarkRef { from: 1, to: 2, count: 5 },
            MarkRef { from: 1, to: 3, count: 3 },
        ],
        holds: Vec::new(),
        ghosts: Vec::new(),
        limits: Default::default(),
    }
}

fn reading(vis_floor: VisFloor) -> FnReading {
    FnReading { vis_floor, folds: Vec::new(), packed: Vec::new() }
}

fn folding(folds: &[FoldAt]) -> FnReading {
    FnReading { vis_floor: VisFloor::All, folds: folds.to_vec(), packed: Vec::new() }
}

/// Two modules, a type with two methods (one written in the other module's
/// file), and a free function in each.
fn house() -> CodeGraph {
    let mut graph = CodeGraph {
        files: vec![
            FileInfo { path: "src/views/plate.rs".to_string(), krate: "slope".to_string() },
            FileInfo { path: "src/graph/wire.rs".to_string(), krate: "slope".to_string() },
        ],
        items: Vec::new(),
        implements: Vec::new(),
        refs: Vec::new(),
        holds: Vec::new(),
        ghosts: Vec::new(),
        limits: Default::default(),
    };
    graph.items.push(item(0, "Plate", ItemKind::Struct, Vis::Pub, None));
    graph.items.push(item(1, "Plate::rule", ItemKind::Fn, Vis::Pub, Some(0)));
    let mut away = item(2, "Plate::ink", ItemKind::Fn, Vis::Private, Some(0));
    away.file = 1;
    graph.items.push(away);
    graph.items.push(item(3, "draw", ItemKind::Fn, Vis::Pub, None));
    let mut wire = item(4, "trace", ItemKind::Fn, Vis::Crate, None);
    wire.file = 1;
    graph.items.push(wire);
    for (from, to, count) in [(3, 1, 4), (1, 2, 2), (4, 1, 7), (3, 4, 1)] {
        graph.refs.push(MarkRef { from, to, count });
    }
    graph
}

fn key(path: &[&str]) -> Vec<String> {
    path.iter().map(|s| (*s).to_string()).collect()
}

#[test]
fn depth_counts_calls_from_the_nearest_entry_point() {
    let model = FnModel::build(&chain(), &reading(VisFloor::All));
    let tier = |name: &str| model.marks.iter().find(|m| m.head.name == name).map(|m| m.tier);
    assert_eq!(tier("main"), Some(Tier::Entry));
    assert_eq!(tier("walk"), Some(Tier::Deep(1)));
    assert_eq!(tier("note"), Some(Tier::Deep(2)));
    assert_eq!(tier("Held"), None);
    assert_eq!(model.facts.deepest, 2);
    assert_eq!(model.facts.entries, 1);
    let runs = |name: &str| model.marks.iter().find(|m| m.head.name == name).map(|m| m.runs);
    assert_eq!((runs("main"), runs("walk"), runs("note")), (Some(2), Some(1), Some(0)));
}

#[test]
fn a_type_is_touched_and_never_called() {
    let model = FnModel::build(&chain(), &reading(VisFloor::All));
    assert!(model.calls.iter().all(|c| c.def != 3 && c.user != 3), "a type must never take a call wire");
    let walk = model.touches.get(&1).expect("walk touches something");
    assert_eq!(walk.len(), 1);
    assert_eq!(walk[0].name, "Held");
    assert_eq!(walk[0].word, "3 refs");
    assert!(walk[0].on_data, "a struct has a block one rung down");
}

#[test]
fn every_resolved_call_is_a_wire() {
    let model = FnModel::build(&chain(), &reading(VisFloor::All));
    let drawn: Vec<(u32, u32, u32)> = model.calls.iter().map(|c| (c.user, c.def, c.count)).collect();
    assert_eq!(drawn, vec![(0, 1, 2), (1, 2, 5)]);
    assert_eq!(model.callees.get(&0), Some(&vec![1]));
    assert_eq!(model.callers.get(&2), Some(&vec![1]));
}

#[test]
fn a_narrow_reading_draws_no_wire_to_an_undrawn_mark() {
    let model = FnModel::build(&chain(), &reading(VisFloor::Crate));
    let drawn: HashSet<u32> = model.marks.iter().map(|m| m.id).collect();
    assert_eq!(drawn, HashSet::from([0, 1]));
    assert!(model.calls.iter().all(|c| drawn.contains(&c.def) && drawn.contains(&c.user)));
    assert_eq!(model.facts.off_paper, 1, "`note` is private");
    let walk = model.marks.iter().find(|m| m.head.name == "walk").unwrap();
    assert_eq!(walk.tier, Tier::Deep(1));
}

#[test]
fn a_sheet_keeps_the_calls_the_paper_drops() {
    let narrow = FnModel::build(&chain(), &reading(VisFloor::Crate));
    let wide = FnModel::build(&chain(), &reading(VisFloor::All));
    assert!(narrow.calls.iter().all(|c| c.def != 2 && c.user != 2));
    assert_eq!(narrow.all_calls, wide.all_calls);
    let into_note: Vec<u32> = narrow.all_calls.iter().filter(|c| c.def == 2).map(|c| c.user).collect();
    assert_eq!(into_note, vec![1], "`walk` calls it, drawn or not");
    assert_eq!(narrow.upstream(2), HashSet::from([1, 0]));
    assert_eq!(narrow.upstream(2), wide.upstream(2));
    let walk = narrow.marks.iter().find(|m| m.head.name == "walk").unwrap();
    assert_eq!(walk.calls, 1, "the private callee is still one of its calls");
}

#[test]
fn a_call_ring_no_entry_point_reaches_says_so() {
    let mut graph = chain();
    graph.items.push(item(4, "ping", ItemKind::Fn, Vis::Private, None));
    graph.items.push(item(5, "pong", ItemKind::Fn, Vis::Private, None));
    graph.refs.push(MarkRef { from: 4, to: 5, count: 1 });
    graph.refs.push(MarkRef { from: 5, to: 4, count: 1 });
    let model = FnModel::build(&graph, &reading(VisFloor::All));
    for name in ["ping", "pong"] {
        let mark = model.marks.iter().find(|m| m.head.name == name).unwrap();
        assert_eq!(mark.tier, Tier::Ring);
        assert_eq!(model.home.get(&mark.id), Some(&Spot::Frame(0)));
    }
    assert_eq!(model.facts.ring, 2);
    let last = model.bands.last().expect("a band");
    assert_eq!(last.1, "in a call ring");
}

#[test]
fn a_method_seats_in_its_owner_and_a_free_fn_on_the_module_shelf() {
    let model = FnModel::build(&house(), &reading(VisFloor::All));
    let frame = |path: &[&str]| {
        let mut k = vec!["slope".to_string()];
        k.extend(key(path));
        model.frame_at(&k).expect("a frame").id
    };
    let (root, views, graph) = (frame(&[]), frame(&["views"]), frame(&["graph"]));
    assert!(model.frames[views as usize].parent == Some(root));
    assert!(model.frames[graph as usize].parent == Some(root));

    assert_eq!(model.owners.len(), 1);
    let plate = &model.owners[0];
    assert_eq!((plate.decl, plate.name.as_str()), ("impl", "Plate"));
    assert_eq!(plate.frame, views);
    assert_eq!(plate.marks, vec![2, 1], "in declaration order");
    assert_eq!(model.frames[views as usize].owners, vec![plate.id]);

    assert_eq!(model.home.get(&1), Some(&Spot::Owner(plate.id)));
    assert_eq!(model.home.get(&2), Some(&Spot::Owner(plate.id)));
    assert_eq!(model.home.get(&3), Some(&Spot::Frame(views)));
    assert_eq!(model.home.get(&4), Some(&Spot::Frame(graph)));
    assert_eq!(model.frames[views as usize].marks, vec![3]);
    assert_eq!(model.frames[graph as usize].marks, vec![4]);
    assert_eq!(model.frames[views as usize].held, 3);
    assert_eq!(model.frames[root as usize].held, 4);
    let ink = model.marks.iter().find(|m| m.id == 2).unwrap();
    assert_eq!(ink.written(), "graph");
    assert_eq!(model.frame_of(Spot::Mark(2)), Some(views));
}

#[test]
fn a_trait_container_says_trait() {
    let mut graph = house();
    graph.items.push(item(5, "Words", ItemKind::Trait, Vis::Pub, None));
    graph.items.push(item(6, "Words::say", ItemKind::Fn, Vis::Pub, Some(5)));
    let model = FnModel::build(&graph, &reading(VisFloor::All));
    let words = model.owner_at("src/views/plate.rs", "Words").expect("a room");
    assert_eq!(words.decl, "trait");
    assert!(!words.on_data, "the data chart draws no block for a trait");
    assert_eq!(words.marks, vec![6]);
}

#[test]
fn a_narrow_reading_draws_no_empty_room() {
    let model = FnModel::build(&house(), &reading(VisFloor::Pub));
    let drawn: HashSet<u32> = model.marks.iter().map(|m| m.id).collect();
    assert_eq!(drawn, HashSet::from([1, 3]));
    assert_eq!(model.facts.off_paper, 2);
    assert!(
        model.frame_at(&["slope".to_string(), "graph".to_string()]).is_none(),
        "a module with nothing admitted draws no husk"
    );
    let plate = model.owner_at("src/views/plate.rs", "Plate").expect("a room");
    assert_eq!(plate.marks, vec![1]);
    assert!(model.marks.iter().all(|m| m.head.vis == Vis::Pub));
}

#[test]
fn a_folded_room_stands_for_everything_it_hides() {
    let model = FnModel::build(&house(), &folding(&[owner_fold("src/views/plate.rs", "Plate")]));
    let plate = model.owner_at("src/views/plate.rs", "Plate").unwrap();
    assert!(plate.folded);
    assert_eq!(plate.marks.len(), 2, "the count it states in words");
    for method in [1u32, 2] {
        assert!(model.hidden(Spot::Mark(method)));
        assert_eq!(model.shown(Spot::Mark(method)), Spot::Owner(plate.id));
    }
    assert!(!model.hidden(Spot::Owner(plate.id)));
    assert_eq!(model.shown(Spot::Mark(3)), Spot::Mark(3));
    assert_eq!(model.folded, vec![Spot::Owner(plate.id)]);
}

#[test]
fn a_folded_module_stands_for_the_rooms_inside_it() {
    let model = FnModel::build(&house(), &folding(&[mod_fold(&["slope".to_string(), "views".to_string()])]));
    let views = model.frame_at(&["slope".to_string(), "views".to_string()]).unwrap();
    assert!(views.folded);
    assert_eq!(views.held, 3);
    for mark in [1u32, 2, 3] {
        assert_eq!(model.shown(Spot::Mark(mark)), Spot::Frame(views.id));
    }
    let plate = model.owner_at("src/views/plate.rs", "Plate").unwrap();
    assert_eq!(model.shown(Spot::Owner(plate.id)), Spot::Frame(views.id));
    assert_eq!(model.shown(Spot::Mark(4)), Spot::Mark(4));
}

#[test]
fn nothing_folds_by_itself_or_by_a_count() {
    let open = FnModel::build(&house(), &reading(VisFloor::All));
    assert!(open.folded.is_empty());
    assert!(open.packs.is_empty());
    let shut = FnModel::build(
        &house(),
        &FnReading {
            vis_floor: VisFloor::Pub,
            folds: vec![mod_fold(&["slope".to_string(), "graph".to_string()])],
            packed: Vec::new(),
        },
    );
    assert!(shut.folded.is_empty(), "an empty room has nothing to fold");
    assert!(shut.packs.is_empty());
}

#[test]
fn the_outermost_fold_stands_for_the_folds_inside_it() {
    let model = FnModel::build(
        &house(),
        &folding(&[
            mod_fold(&["slope".to_string(), "views".to_string()]),
            owner_fold("src/views/plate.rs", "Plate"),
        ]),
    );
    let views = model.frame_at(&["slope".to_string(), "views".to_string()]).unwrap();
    let plate = model.owner_at("src/views/plate.rs", "Plate").unwrap();
    assert_eq!(model.folded.len(), 2);
    assert_eq!(model.shown(Spot::Owner(plate.id)), Spot::Frame(views.id));
    assert_eq!(model.shown(Spot::Mark(1)), Spot::Frame(views.id));
}

#[test]
fn a_reveal_names_every_fold_on_the_way_in() {
    let views = mod_fold(&["slope".to_string(), "views".to_string()]);
    let plate = owner_fold("src/views/plate.rs", "Plate");
    let model = FnModel::build(&house(), &folding(&[views.clone(), plate.clone()]));
    assert_eq!(model.reveal_folds(Spot::Mark(1)), vec![views.clone(), plate]);
    assert!(model.reveal_folds(Spot::Mark(4)).is_empty());
    let one = FnModel::build(&house(), &folding(&[views]));
    let room = one.frame_at(&["slope".to_string(), "views".to_string()]).unwrap();
    assert!(one.reveal_folds(Spot::Frame(room.id)).is_empty());
}

#[test]
fn a_function_that_calls_itself_says_so_and_draws_no_wire() {
    let mut graph = chain();
    graph.refs.push(MarkRef { from: 2, to: 2, count: 4 });
    let model = FnModel::build(&graph, &reading(VisFloor::All));
    let note = model.marks.iter().find(|m| m.head.name == "note").unwrap();
    assert!(note.recurses);
    assert!(model.calls.iter().all(|c| c.def != c.user));
    assert_eq!(note.tier, Tier::Deep(2));
}

#[test]
fn a_method_answering_a_contract_is_reached_through_it() {
    let mut graph = chain();
    let mut promise = item(4, "Words", ItemKind::Trait, Vis::Pub, None);
    promise.body.method_rows = vec![MethodRow {
        name: "say".to_string(),
        sig: "fn say(&self)".to_string(),
        mark: 5,
        section: "trait Words".to_string(),
    }];
    let mut ty = item(6, "Plate", ItemKind::Struct, Vis::Pub, None);
    ty.body.method_rows = vec![MethodRow {
        name: "say".to_string(),
        sig: "fn say(&self)".to_string(),
        mark: 7,
        section: "impl Words for Plate".to_string(),
    }];
    graph.items.push(promise);
    graph.items.push(item(5, "say", ItemKind::Fn, Vis::Pub, Some(4)));
    graph.items.push(ty);
    graph.items.push(item(7, "say", ItemKind::Fn, Vis::Private, Some(6)));
    graph.implements.push(ImplEdge { trait_mark: 4, ty: 6, event: None });
    graph.refs.push(MarkRef { from: 0, to: 5, count: 1 });
    let model = FnModel::build(&graph, &reading(VisFloor::All));
    let by_id = model.by_id();
    assert_eq!(by_id[&5].tier, Tier::Deep(1), "the clause is called");
    assert_eq!(by_id[&7].tier, Tier::Deep(2), "the method that answers it runs one call further in");
    let answer = model.calls.iter().find(|c| c.kind == CallKind::Answers).expect("a contract wire");
    assert_eq!((answer.def, answer.user), (5, 7));
    assert_eq!(model.home.get(&5), model.home.get(&5));
    let words = model.owner_at("src/main.rs", "Words").expect("a room");
    let plate = model.owner_at("src/main.rs", "Plate").expect("a room");
    assert_eq!(model.home.get(&5), Some(&Spot::Owner(words.id)));
    assert_eq!(model.home.get(&7), Some(&Spot::Owner(plate.id)));
}

#[test]
fn the_promise_is_read_off_the_impl_header() {
    let row = |section: &str| MethodRow {
        name: "say".to_string(),
        sig: "fn say(&self)".to_string(),
        mark: 0,
        section: section.to_string(),
    };
    assert_eq!(row("impl Clone for Vis").promises(), Some("Clone"));
    assert_eq!(row("impl From<Option<ast::Visibility>> for Vis").promises(), Some("From"));
    assert_eq!(row("impl Vis").promises(), None);
    assert_eq!(row("trait Words").promises(), None);
}

#[test]
fn a_room_knows_everything_written_in_it() {
    let model = FnModel::build(&house(), &reading(VisFloor::All));
    let views = model.frame_at(&["slope".to_string(), "views".to_string()]).unwrap();
    let root = model.frame_at(&["slope".to_string()]).unwrap();
    let plate = model.owner_at("src/views/plate.rs", "Plate").unwrap();
    assert_eq!(model.inside(Spot::Owner(plate.id)), HashSet::from([1, 2]));
    assert_eq!(model.inside(Spot::Frame(views.id)), HashSet::from([1, 2, 3]));
    assert_eq!(model.inside(Spot::Frame(root.id)), HashSet::from([1, 2, 3, 4]), "a crate frame holds every room under it");
    assert_eq!(model.over(views.id), vec![root.id]);
}

#[test]
fn the_same_survey_always_reads_the_same_household() {
    let a = FnModel::build(&house(), &reading(VisFloor::All));
    let b = FnModel::build(&house(), &reading(VisFloor::All));
    assert_eq!(a, b);
}

// Laws, on concrete values.

#[test]
fn a_reading_never_changes_a_tier() {
    let narrow = FnModel::build(&house(), &reading(VisFloor::Pub));
    let wide = FnModel::build(&house(), &reading(VisFloor::All));
    for m in &narrow.marks {
        let w = wide.marks.iter().find(|x| x.id == m.id).unwrap();
        assert_eq!(m.tier, w.tier);
    }
    assert_eq!(narrow.all_calls, wide.all_calls);
}

#[test]
fn an_entry_point_is_what_nothing_calls() {
    let model = FnModel::build(&house(), &reading(VisFloor::All));
    for m in &model.marks {
        let called = model.all_calls.iter().any(|c| c.def == m.id);
        assert_eq!(m.tier == Tier::Entry, !called, "mark {}", m.id);
    }
}

#[test]
fn the_bands_run_from_the_entries_to_the_ring() {
    let mut graph = chain();
    graph.items.push(item(4, "ping", ItemKind::Fn, Vis::Private, None));
    graph.items.push(item(5, "pong", ItemKind::Fn, Vis::Private, None));
    graph.refs.push(MarkRef { from: 4, to: 5, count: 1 });
    graph.refs.push(MarkRef { from: 5, to: 4, count: 1 });
    let model = FnModel::build(&graph, &reading(VisFloor::All));
    let bands: Vec<(u32, &str)> = model.bands.iter().map(|(b, c)| (*b, c.as_str())).collect();
    assert_eq!(bands, vec![(0, "entry"), (1, "1 call deep"), (2, "2 calls deep"), (3, "in a call ring")]);
    assert_eq!(model.facts.fns, 5);
    assert_eq!(model.facts.methods, 0);
    assert!(!model.dirty);
}

#[test]
fn a_key_that_names_no_pair_quotes_nothing() {
    assert_eq!(peek_at("src/main.rs"), None);
    assert_eq!(peek_at("@main"), None);
    assert_eq!(peek_at("src/main.rs@"), None);
    assert_eq!(peek_at(&peek_key("src/main.rs", "main")), Some(("src/main.rs", "main")));
}

#[test]
fn a_quotation_key_splits_at_its_first_at_sign() {
    assert_eq!(peek_key("src/a.rs", "Plate::ink"), "src/a.rs@Plate::ink");
    assert_eq!(peek_at("a@b@c"), Some(("a", "b@c")));
}

#[test]
fn the_wires_reading_draws_by_direction() {
    let (at, other) = (1u32, 2u32);
    assert!(FnWires::Calls.draws(&at, &other, &at));
    assert!(!FnWires::Calls.draws(&at, &at, &other));
    assert!(FnWires::Callers.draws(&at, &at, &other));
    assert!(!FnWires::Callers.draws(&at, &other, &at));
    assert!(FnWires::Both.draws(&at, &at, &other) && FnWires::Both.draws(&at, &other, &at));
    assert!(!FnWires::Both.draws(&at, &other, &other));
    assert_eq!(FnWires::default(), FnWires::Calls);
    assert_eq!((FnWires::Calls.label(), FnWires::Callers.label(), FnWires::Both.label()), ("calls", "callers", "both"));
    assert_eq!(FnOrder::default().label(), "weight");
    assert_eq!(FnOrder::Owner.hint(), "siblings cluster by the type whose impl they are written in, free declarations first");
}

#[test]
fn a_generic_impl_header_promises_its_trait() {
    let row = |section: &str| MethodRow {
        name: "from".to_string(),
        sig: "fn from(t: T) -> Self".to_string(),
        mark: 0,
        section: section.to_string(),
    };
    assert_eq!(row("impl<T> From<T> for Wrapper<T>").promises(), Some("From"));
    assert_eq!(row("impl<T: Into<U>, U> Iterator for Walk<T, U>").promises(), Some("Iterator"));
    assert_eq!(row("impl<T> Wrapper<T>").promises(), None);
}

#[test]
fn a_sheet_lists_the_heaviest_calls_first_then_by_name() {
    let graph = CodeGraph {
        files: vec![FileInfo { path: "src/lib.rs".to_string(), krate: "slope".to_string() }],
        items: vec![
            item(0, "hub", ItemKind::Fn, Vis::Pub, None),
            item(1, "b", ItemKind::Fn, Vis::Pub, None),
            item(2, "a", ItemKind::Fn, Vis::Pub, None),
            item(3, "c", ItemKind::Fn, Vis::Pub, None),
            item(4, "z", ItemKind::Fn, Vis::Pub, None),
            item(5, "y", ItemKind::Fn, Vis::Pub, None),
        ],
        implements: Vec::new(),
        refs: vec![
            MarkRef { from: 1, to: 0, count: 2 },
            MarkRef { from: 2, to: 0, count: 2 },
            MarkRef { from: 3, to: 0, count: 7 },
            MarkRef { from: 0, to: 4, count: 1 },
            MarkRef { from: 0, to: 5, count: 3 },
        ],
        holds: Vec::new(),
        ghosts: Vec::new(),
        limits: Default::default(),
    };
    let model = FnModel::build(&graph, &reading(VisFloor::All));
    let (called_by, calls) = sheet_rows(&graph, &model, 0);
    let by: Vec<(u32, u32)> = called_by.iter().map(|c| (c.user, c.count)).collect();
    assert_eq!(by, vec![(3, 7), (2, 2), (1, 2)]);
    let to: Vec<(u32, u32)> = calls.iter().map(|c| (c.def, c.count)).collect();
    assert_eq!(to, vec![(5, 3), (4, 1)]);
    let (none_by, none_to) = sheet_rows(&graph, &model, 9);
    assert!(none_by.is_empty() && none_to.is_empty());
}

#[test]
fn a_corridor_sums_the_cross_calls_of_one_frame_pair() {
    let model = FnModel::build(&chain(), &reading(VisFloor::All));
    let wire = |def: u32, user: u32, count: u32, answers: bool, cross: bool| WireEnds {
        def: Spot::Frame(def),
        user: Spot::Frame(user),
        count,
        answers,
        cross,
        def_dirty: false,
        user_dirty: false,
        bundle: false,
    };
    let wires = vec![
        wire(1, 0, 3, false, true),
        wire(0, 2, 2, false, true),
        wire(1, 0, 0, false, true),
        wire(0, 1, 5, true, true),
        wire(0, 1, 4, false, false),
    ];
    assert_eq!(corridors(&model, &wires), vec![(0, 2, 2), (1, 0, 4)]);
    assert!(corridors(&model, &Vec::new()).is_empty());
}

#[test]
fn a_wire_is_drawn_as_the_reading_and_the_focus_say() {
    let w = WireEnds {
        def: Spot::Mark(0),
        user: Spot::Mark(1),
        count: 1,
        answers: false,
        cross: true,
        def_dirty: true,
        user_dirty: false,
        bundle: false,
    };
    // At rest the cross family is said by its corridor.
    assert!(!drawn_under(FnWires::Calls, &w, false, false, false));
    // A diff anchors the wire by the end it touched.
    assert!(!drawn_under(FnWires::Calls, &w, false, true, false));
    assert!(drawn_under(FnWires::Callers, &w, false, true, false));
    assert!(drawn_under(FnWires::Both, &w, false, true, false));
    // A selection takes everything it does not light off the paper.
    assert!(!drawn_under(FnWires::Both, &w, true, true, false));
    assert!(drawn_under(FnWires::Both, &w, true, false, true));
    // A contract is always drawn; a corridor only at rest.
    assert!(drawn_under(FnWires::Calls, &WireEnds { answers: true, ..w }, true, false, false));
    assert!(drawn_under(FnWires::Calls, &WireEnds { bundle: true, ..w }, false, false, false));
    assert!(!drawn_under(FnWires::Calls, &WireEnds { bundle: true, ..w }, true, false, true));
    // Within one frame a resting wire is its own short line.
    assert!(drawn_under(FnWires::Calls, &WireEnds { cross: false, ..w }, false, false, false));
}
