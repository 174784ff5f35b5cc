use slope::paths::{module_of, module_segments, source_rest};

#[test]
fn a_module_frame_is_the_first_segment_under_src() {
    assert_eq!(module_of("src/views/codemap/map.rs"), Some("views"));
    assert_eq!(module_of("src/api.rs"), Some("api"));
    assert_eq!(module_of("src/main.rs"), None);
    assert_eq!(module_of("crates/engine/src/lib.rs"), None);
    assert_eq!(module_of("crates/engine/src/parse/lex.rs"), Some("parse"));
}

#[test]
fn the_rest_is_read_below_the_crate_source_root() {
    assert_eq!(source_rest("src/views/star.rs"), "views/star.rs");
    assert_eq!(source_rest("crates/engine/src/parse/lex.rs"), "parse/lex.rs");
    assert_eq!(source_rest("tests/src/a.rs"), "a.rs");
    assert_eq!(module_of("examples/demo/src/main.rs"), None);
    assert_eq!(module_of("tests/util/common.rs"), Some("util"));
    assert_eq!(module_of("src/tests/util.rs"), Some("tests"));
    assert_eq!(module_of("crates/engine/src/tests/util.rs"), Some("tests"));
    assert_eq!(source_rest("build.rs"), "build.rs");
    assert_eq!(source_rest("x/y/z.rs"), "z.rs");
    // A root with nothing after it is not a root.
    assert_eq!(source_rest("a/src"), "src");
    assert_eq!(module_of("benches/heavy.rs"), Some("heavy"));
    assert_eq!(module_of("examples/mod.rs"), None);
    assert_eq!(module_of("src/build"), None);
}

#[test]
fn a_module_path_is_the_directories_under_the_root() {
    assert_eq!(module_segments("src/views/func/model.rs"), vec!["views".to_string(), "func".to_string()]);
    assert_eq!(module_segments("src/main.rs"), Vec::<String>::new());
    assert_eq!(module_segments("src/graph/wire.rs"), vec!["graph".to_string()]);
}
