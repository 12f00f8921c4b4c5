use parcad::service::{parse_views, Backend, View};

#[test]
fn an_unknown_view_lists_the_ones_that_exist() {
    let error = match parse_views(&["isometric".to_string()]) {
        Ok(_) => panic!("not a view name"),
        Err(e) => e,
    };
    assert!(
        error.contains("isometric") && error.contains("iso") && error.contains("front"),
        "the refusal must name the alternatives, got: {error}"
    );
    assert_eq!(error, "unknown view \"isometric\"; expected one of iso, front, right, top, back, left, bottom");
}

#[test]
fn view_names_are_read_in_order() {
    let views = match parse_views(&["top".to_string(), "iso".to_string(), "bottom".to_string()]) {
        Ok(v) => v,
        Err(e) => panic!("{e}"),
    };
    assert!(views == vec![View::Top, View::Iso, View::Bottom]);
    for v in [View::Iso, View::Front, View::Right, View::Top, View::Back, View::Left, View::Bottom] {
        assert!(View::parse(v.name()) == Some(v));
    }
}

#[test]
fn the_first_wrong_view_is_the_one_refused() {
    let error = parse_views(&["front".to_string(), "side".to_string(), "up".to_string()]).err().unwrap();
    assert!(error.contains("\"side\"") && !error.contains("\"up\""), "{error}");
}

#[test]
fn a_backend_is_named_or_defaults() {
    assert!(Backend::parse(None).is_ok());
    let err = Backend::parse(Some("quantum")).err().unwrap();
    assert!(err.contains("quantum"), "{err}");
}
