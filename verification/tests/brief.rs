use parcad::brief::{axis_name, meant, Brief};
use parcad::checks::{Number, Sign};

fn number(shown: &str, value: f64) -> Number {
    let sign = if !value.is_finite() {
        Sign::NotFinite
    } else if value > 0.0 {
        Sign::Positive
    } else if value == 0.0 {
        Sign::Zero
    } else {
        Sign::Negative
    };
    Number { shown: shown.to_string(), sign, at_most_one: value <= 1.0 }
}

fn empty() -> Brief {
    Brief { envelope: None, budget_cm3: None, holds: Vec::new(), gesture: None, printer: None, material: None }
}

#[test]
fn a_brief_promising_nothing_is_refused_and_a_misspelt_key_is_known() {
    let nothing = empty();
    assert!(nothing.validate().unwrap_err().contains("nothing to judge"));
    let over = Brief { envelope: Some([number("0", 0.0), number("10", 10.0), number("10", 10.0)]), ..empty() };
    assert!(over.validate().unwrap_err().contains("each positive"));
    let ok = Brief {
        envelope: Some([number("95", 95.0), number("70", 70.0), number("16", 16.0)]),
        budget_cm3: Some(number("12", 12.0)),
        ..empty()
    };
    ok.validate().unwrap();
    assert_eq!(meant("budget_cm3"), Some("budgetCm3"));
    assert_eq!(meant("size"), Some("envelope"));
    assert_eq!(meant("gesture"), Some("gesture"));
    assert_eq!(meant("colour"), None);
}

#[test]
fn a_budget_that_is_no_volume_is_refused_and_prose_alone_is_a_promise() {
    let bad = Brief { budget_cm3: Some(number("-2", -2.0)), ..empty() };
    assert_eq!(bad.validate().unwrap_err(), "brief budgetCm3 is a volume in cm\u{b3}, above zero, not -2");
    let prose = Brief { holds: vec!["six coins".to_string()], ..empty() };
    prose.validate().unwrap();
    assert_eq!(
        empty().validate().unwrap_err(),
        "brief() was given nothing to judge the part against; its keys are envelope, budgetCm3, holds, gesture, printer, material, and envelope is the one that catches \"it's too big\""
    );
}

#[test]
fn axes_are_named_and_the_last_stands_for_any_beyond() {
    assert_eq!([axis_name(0), axis_name(1), axis_name(2), axis_name(9)], ["x", "y", "z", "z"]);
}
