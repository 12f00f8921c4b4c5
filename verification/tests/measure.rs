use parcad::measure::{beds_text, bodies_text, one, BedFit};

fn fits(bed: &'static str, lying: &'static str) -> BedFit {
    BedFit { bed, fits: true, lying: Some(lying), over_by: None }
}

fn misses(bed: &'static str, over: &str) -> BedFit {
    BedFit { bed, fits: false, lying: None, over_by: Some(over.to_string()) }
}

#[test]
fn every_bed_taking_the_part_is_listed_with_its_turn() {
    let text = beds_text(&[
        fits("Bambu A1 mini", "as drawn"),
        fits("Bambu A1 / P1 / X1 (256 mm)", "turned 90\u{b0}"),
        fits("Bambu H2D", "as drawn"),
    ]);
    assert_eq!(text, "flat on every bed: Bambu A1 mini; Bambu A1 / P1 / X1 (256 mm) turned 90\u{b0}; Bambu H2D");
}

#[test]
fn a_half_holder_prints_on_a_256_bed_and_the_whole_only_on_the_h2d() {
    let half = beds_text(&[
        misses("Bambu A1 mini", "200.0 mm long against 180"),
        fits("Bambu A1 / P1 / X1 (256 mm)", "as drawn"),
        fits("Bambu H2D", "as drawn"),
    ]);
    assert_eq!(half, "flat on Bambu A1 / P1 / X1 (256 mm); Bambu H2D; not Bambu A1 mini (200.0 mm long against 180)");
    let whole = beds_text(&[
        misses("Bambu A1 mini", "300.0 mm long against 180"),
        misses("Bambu A1 / P1 / X1 (256 mm)", "300.0 mm long against 256"),
        fits("Bambu H2D", "as drawn"),
    ]);
    assert!(whole.starts_with("flat on Bambu H2D; not Bambu A1 mini (300.0 mm long against 180), Bambu A1"), "{whole}");
    let none = beds_text(&[misses("Bambu H2D", "400.0 mm tall against 325")]);
    assert_eq!(none, "flat on no bed here: Bambu H2D (400.0 mm tall against 325); split it");
}

#[test]
fn bodies_and_voids_are_counted_in_words() {
    assert_eq!(bodies_text(1, 0), "1 body");
    assert_eq!(bodies_text(1, 1), "1 body, 1 void");
    assert_eq!(bodies_text(5, 0), "5 SEPARATE BODIES");
    assert_eq!(bodies_text(2, 3), "2 SEPARATE BODIES, 3 voids");
    assert_eq!(bodies_text(one(), 12), "1 body, 12 voids");
}
