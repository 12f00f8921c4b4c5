use parcad::session::{get, open, push, set_script, Session, AGENT_ORIGIN, NOTHING_OPEN};

#[test]
fn a_script_cannot_be_set_before_anything_is_open() {
    let mut state = Session::new();
    let error = match set_script(&mut state, "return box(1,1,1);".into(), AGENT_ORIGIN) {
        Ok(_) => panic!("nothing is open"),
        Err(e) => e,
    };
    assert!(error.contains("open_project"), "the refusal names the fix: {error}");
    assert_eq!(error, NOTHING_OPEN);
    assert_eq!(state.revision, 0);
}

#[test]
fn setting_the_script_keeps_the_open_name() {
    let mut state = Session::new();
    push(&mut state, Some("bracket".into()), "return box(1,1,1);".into(), "tab-a".into());
    let edited = match set_script(&mut state, "return box(2,2,2);".into(), AGENT_ORIGIN) {
        Ok(s) => s,
        Err(e) => panic!("a project is open: {e}"),
    };
    assert_eq!(edited.name.as_deref(), Some("bracket"));
    assert_eq!(edited.origin, AGENT_ORIGIN);
    assert_eq!(edited.script, "return box(2,2,2);");
}

#[test]
fn a_push_bumps_the_revision_and_reaches_a_subscriber() {
    let mut state = Session::new();
    let before = get(&state).revision;
    let pushed = push(&mut state, Some("bracket".into()), "return box(1,1,1);".into(), "tab-a".into());
    assert_eq!(pushed.revision, before + 1);
    assert_eq!(pushed.origin, "tab-a");
    let now = get(&state);
    assert_eq!(now.revision, pushed.revision);
    assert_eq!(now.script, pushed.script);
    assert_eq!(now.name, pushed.name);
}

#[test]
fn an_identical_push_is_a_no_op_and_broadcasts_nothing() {
    let mut state = Session::new();
    let first = push(&mut state, Some("bracket".into()), "return box(1,1,1);".into(), "tab-a".into());
    let again = push(&mut state, Some("bracket".into()), "return box(1,1,1);".into(), "tab-b".into());
    assert_eq!(again.origin, "tab-a");
    assert_eq!(again.revision, first.revision, "an echo would loop forever");
}

#[test]
fn opening_a_project_shows_what_was_read_and_a_failed_read_changes_nothing() {
    let mut state = Session::new();
    let opened = match open(&mut state, "bracket", "tab-a", Ok("return box(3,3,3);".to_string())) {
        Ok(s) => s,
        Err(e) => panic!("{e}"),
    };
    assert_eq!(opened.name.as_deref(), Some("bracket"));
    assert_eq!(opened.script, "return box(3,3,3);");
    assert_eq!(opened.revision, 1);
    let refused = open(&mut state, "missing", "tab-a", Err("no project called missing".to_string()));
    assert_eq!(refused.err().as_deref(), Some("no project called missing"));
    assert_eq!(state.name.as_deref(), Some("bracket"));
    assert_eq!(state.revision, 1);
}

#[test]
fn a_name_that_could_address_a_location_is_never_opened() {
    let mut state = Session::new();
    for name in ["../secrets", "a/b", "/etc/passwd", "a\\b", "", "C:x"] {
        let refused = open(&mut state, name, "tab-a", Ok("return box(1,1,1);".to_string()));
        let error = refused.err().unwrap_or_default();
        assert!(error.contains("is not a project name"), "{name:?} was opened: {error}");
        assert_eq!(state.name, None);
        assert_eq!(state.revision, 0);
    }
}

#[test]
fn an_identical_push_is_taken_at_the_last_revision() {
    let mut state = Session::new();
    push(&mut state, Some("bracket".to_string()), "x".to_string(), "tab-a".to_string());
    state.revision = u64::MAX;
    let again = push(&mut state, Some("bracket".to_string()), "x".to_string(), "tab-b".to_string());
    assert_eq!(again.revision, u64::MAX);
    assert_eq!(again.origin, "tab-a");
}
