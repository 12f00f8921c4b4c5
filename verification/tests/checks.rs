use parcad::checks::{meant, Check, CheckKind, Number, Sign, StandsOnCheck, WallCheck};

fn number(shown: &str, value: f64) -> Number {
    let sign = if !value.is_finite() {
        Sign::NotFinite
    } else if value > 0.0 {
        Sign::Positive
    } else if value == 0.0 {
        Sign::Zero
    } else {
        Sign::Negative
    };
    Number { shown: shown.to_string(), sign, at_most_one: value <= 1.0 }
}

fn blank() -> Check {
    Check {
        clear: None,
        interferes: None,
        touching: None,
        wall: None,
        size: None,
        stands_on: None,
        bodies: None,
        watertight: None,
        at_least: None,
        ignore: Vec::new(),
        on: Vec::new(),
        why: None,
    }
}

fn pair(a: &str, b: &str) -> Option<[String; 2]> {
    Some([a.to_string(), b.to_string()])
}

#[test]
fn a_check_reads_one_head_key() {
    let check = Check { clear: pair("top", "stacks"), at_least: Some(number("0.2", 0.2)), why: Some("coins".into()), ..blank() };
    assert!(check.kind() == Ok(CheckKind::Clear));
    assert_eq!(check.sentence(), "clear top\u{2194}stacks atLeast 0.2");
    let none = Check { why: Some("nothing".into()), ..blank() };
    assert!(none.kind().unwrap_err().contains("names nothing to check"));
    let two = Check { clear: pair("a", "b"), wall: Some(WallCheck { min: number("1", 1.0) }), ..blank() };
    assert!(two.kind().unwrap_err().contains("clear and wall at once"));
}

#[test]
fn an_unknown_key_is_refused_by_serde_and_its_synonym_is_known() {
    assert_eq!(meant("clearance"), Some("atLeast"));
    assert_eq!(meant("thickness"), Some("wall"));
    assert_eq!(meant("stands_on"), Some("standsOn"));
    assert_eq!(meant("lattice"), None);
}

#[test]
fn validation_names_the_body_and_the_tag_it_cannot_find() {
    let bodies = ["top", "stacks"];
    let check = Check { clear: pair("top", "stack"), ..blank() };
    let err = check.validate(1, &bodies, &[]).unwrap_err();
    assert_eq!(
        err,
        "check 1 (clear top\u{2194}stack) names a body \"stack\" the part does not return; its bodies are \"top\", \"stacks\""
    );
    let wall = Check { wall: Some(WallCheck { min: number("1", 1.0) }), on: vec!["cups".to_string()], ..blank() };
    let err = wall.validate(2, &bodies, &["lip"]).unwrap_err();
    assert!(err.starts_with("check 2 (wall min 1 on cups) scopes the wall to a tag \"cups\" nothing in the part writes; its tags are \"lip\""), "{err}");
    let feather = Check { wall: Some(WallCheck { min: number("1", 1.0) }), ignore: vec!["feather".to_string()], ..blank() };
    feather.validate(3, &bodies, &[]).unwrap();
    let one = Check { clear: pair("top", "stacks"), ..blank() };
    assert!(one.validate(1, &[], &[]).unwrap_err().contains("the part returns one shape"));
    let least = Check { touching: pair("top", "stacks"), at_least: Some(number("1", 1.0)), ..blank() };
    assert!(least.validate(1, &bodies, &[]).unwrap_err().contains("only clear and interferes read"));
    let open = Check { watertight: Some(false), ..blank() };
    assert!(open.validate(1, &[], &[]).unwrap_err().contains("watertight: true is the only value"));
}

#[test]
fn a_check_with_no_head_is_told_every_key() {
    let none = blank();
    assert_eq!(
        none.kind().unwrap_err(),
        "names nothing to check; one of clear, interferes, touching, wall, size, standsOn, bodies, watertight says what it reads"
    );
    assert_eq!(none.sentence(), "an unreadable check");
    assert_eq!(
        none.validate(4, &[], &[]).unwrap_err(),
        "check 4 names nothing to check; one of clear, interferes, touching, wall, size, standsOn, bodies, watertight says what it reads"
    );
}

#[test]
fn three_heads_are_named_in_reply_order() {
    let three = Check { bodies: Some(2), clear: pair("a", "b"), watertight: Some(true), ..blank() };
    assert_eq!(
        three.kind().unwrap_err(),
        "carries clear and bodies and watertight at once; a check reads one thing, so write one check per key"
    );
}

#[test]
fn numbers_out_of_range_are_refused_with_how_they_were_written() {
    let stands = Check { stands_on: Some(StandsOnCheck { at_least: number("1.5", 1.5) }), ..blank() };
    assert_eq!(
        stands.validate(7, &[], &[]).unwrap_err(),
        "check 7: standsOn.atLeast is a fraction of the footprint, above 0 and at most 1, not 1.5"
    );
    let thin = Check { wall: Some(WallCheck { min: number("0", 0.0) }), ..blank() };
    assert_eq!(thin.validate(2, &[], &[]).unwrap_err(), "check 2: wall.min must be a positive length in mm, not 0");
    let negative = Check { clear: pair("a", "b"), at_least: Some(number("-1", -1.0)), ..blank() };
    assert_eq!(
        negative.validate(3, &["a", "b"], &[]).unwrap_err(),
        "check 3 (clear a\u{2194}b atLeast -1): atLeast must be a length of 0 mm or more, not -1"
    );
    let zero = Check { bodies: Some(0), ..blank() };
    assert_eq!(zero.validate(1, &[], &[]).unwrap_err(), "check 1: bodies must be 1 or more");
    let twice = Check { interferes: pair("a", "a"), ..blank() };
    assert_eq!(twice.validate(1, &["a"], &[]).unwrap_err(), "check 1 (interferes a\u{2194}a) names the same body twice");
    let stray = Check { bodies: Some(1), on: vec!["lip".to_string()], ..blank() };
    assert_eq!(stray.validate(5, &[], &["lip"]).unwrap_err(), "check 5 (bodies 1 on lip) has on, which only wall reads");
    let odd = Check { wall: Some(WallCheck { min: number("1", 1.0) }), ignore: vec!["seam".to_string()], ..blank() };
    assert_eq!(
        odd.validate(1, &[], &[]).unwrap_err(),
        "check 1 (wall min 1 ignore seam) ignores \"seam\", which is neither a tag the part writes nor a kind of thin reading (feather, edge); the part writes no tags"
    );
}
