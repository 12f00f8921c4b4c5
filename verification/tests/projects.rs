use parcad::projects::path_of;

#[test]
fn a_name_cannot_address_a_location() {
    for name in ["../secrets", "a/b", "..", "", "/etc/passwd", "a\\b"] {
        let error = match path_of(name) {
            Ok(_) => panic!("{name:?} was accepted"),
            Err(e) => e,
        };
        assert!(error.contains("is not a project name"), "{error}");
    }
}

#[test]
fn an_ordinary_name_lands_in_the_project_folder() {
    let file = path_of("bracket").expect("a plain name is fine");
    assert_eq!(file, "bracket.js");
}

#[test]
fn a_refused_name_is_quoted_as_written() {
    assert_eq!(
        path_of("a/b"),
        Err("\"a/b\" is not a project name. Names are bare, with no directory part and no extension, such as \"bracket\".".to_string())
    );
}

#[test]
fn a_drive_prefix_is_not_a_name() {
    for name in ["C:x", "C:", "c:secrets", "a:b"] {
        assert!(path_of(name).is_err(), "{name:?} was accepted");
    }
}
