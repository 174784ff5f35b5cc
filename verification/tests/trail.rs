use slope::trail::Trail;

fn step(name: &str) -> Option<String> {
    Some(name.to_string())
}

#[test]
fn a_trail_tells_a_retrace_from_a_new_step() {
    let mut trail = Trail { steps: Vec::new(), at: 0 };
    trail.note(None);
    trail.note(step("alpha"));
    trail.note(step("beta"));
    assert_eq!(trail.steps, vec![None, step("alpha"), step("beta")]);
    assert_eq!(trail.at, 2);
    // Back retraces, forward replays, the same route again changes nothing.
    trail.note(step("alpha"));
    assert_eq!(trail.at, 1);
    trail.note(step("alpha"));
    assert_eq!(trail.at, 1);
    trail.note(step("beta"));
    assert_eq!(trail.at, 2);
    // A new step from the middle drops what was ahead of it.
    trail.note(step("alpha"));
    trail.note(step("gamma"));
    assert_eq!(trail.steps, vec![None, step("alpha"), step("gamma")]);
    assert_eq!(trail.at, 2);
    assert_eq!(trail.current_focus(), step("gamma"));
}

#[test]
fn the_breadcrumb_starts_after_the_last_whole_chart() {
    let trail = Trail {
        steps: vec![step("old"), None, step("alpha"), step("beta"), step("alpha"), step("delta")],
        at: 4,
    };
    assert_eq!(trail.walked(), vec!["alpha".to_string(), "beta".to_string()]);
    let far = Trail { steps: vec![step("alpha"), step("beta")], at: 9 };
    assert_eq!(far.walked(), vec!["alpha".to_string(), "beta".to_string()]);
    assert!(Trail { steps: Vec::new(), at: 0 }.walked().is_empty());
    assert!(Trail { steps: vec![step("a"), None], at: 1 }.walked().is_empty());
}
