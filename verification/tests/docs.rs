use parcad::docs::{read, reference, Library};

fn library(dsl: &str) -> Library {
    Library {
        dsl: dsl.to_string(),
        gaps: "what the language cannot express".to_string(),
        gotchas: "shapes that break the kernel".to_string(),
        operations: "the operations and why".to_string(),
    }
}

#[test]
fn an_unknown_topic_is_refused_by_name_with_the_alternatives() {
    let error = match read(Some("readme"), &library("")) {
        Ok(_) => panic!("there is no such document"),
        Err(e) => e,
    };
    assert!(error.contains("gaps") && error.contains("gotchas"), "{error}");
}

#[test]
fn an_unknown_topic_is_quoted_as_debug_writes_it() {
    let error = match read(Some("  read\"me "), &library("")) {
        Ok(_) => panic!("there is no such document"),
        Err(e) => e,
    };
    assert_eq!(
        error,
        "no parcad document called \"read\\\"me\". Ask for one of: dsl, gaps, gotchas, operations"
    );
}

#[test]
fn a_prose_topic_is_served_as_it_ships_with_the_list_of_all() {
    let found = match read(Some(" gaps"), &library("")) {
        Ok(r) => r,
        Err(e) => panic!("{e}"),
    };
    assert_eq!(found.topic, "gaps");
    assert_eq!(found.source, "docs/DSL_GAPS.md");
    assert_eq!(found.text, "what the language cannot express");
    let names: Vec<&str> = found.topics.iter().map(|t| t.topic.as_str()).collect();
    assert_eq!(names, ["dsl", "gaps", "gotchas", "operations"]);
    assert_eq!(found.topics[3].answers, "which operations exist, which are deliberately absent, and why");
}

const SAMPLE: &str = "/**
 * The parcad DSL.
 *
 *     const part = box(1, 2, 3);
 */

/** A box, centred on the origin in Z. See {@link cylinder}. */
export function box(
  x: number,
  y: number,
  z: number,
): Shape {
  return new Shape();
}

/** @internal */
export function __secret(): void {}

export const MM = 1;

/** Points laid out at a pitch. */
export type Grid = [number, number][];

export interface Options {
  /** How fine. */
  fine: boolean;
}

export class Shape {
  /** Turns anticlockwise. */
  rotate(degrees: number): Shape {
    return this;
  }
  constructor() {}
  name = 1;
}
";

#[test]
fn the_reference_is_read_from_the_source_declaration_by_declaration() {
    let text = reference(SAMPLE);
    let expected = "# parcad DSL reference\n\n\
The parcad DSL.\n\n    const part = box(1, 2, 3);\n\
\nEvery name below is handed to a script as a parameter, so it is also a reserved word inside one: a script whose own variable is called `box` loses the primitive. Ask for the `gaps` document before reaching for something that is not here \u{2014} the kernel refuses rather than approximating, and what it refuses is written down there instead of being met one call at a time.\n\
\n## Functions\n\
\n### box\n\n`box(x: number, y: number, z: number): Shape`\n\nA box, centred on the origin in Z. See cylinder.\n\
\n## Shape methods\n\
\n### Shape.rotate\n\n`rotate(degrees: number): Shape`\n\nTurns anticlockwise.\n\
\n## Values\n\
\n### MM\n\n`const MM`\n\
\n## Types\n\
\n### Grid\n\n`type Grid = [number, number][]`\n\nPoints laid out at a pitch.\n\
\n### Options\n\n```ts\nexport interface Options {\n  /** How fine. */\n  fine: boolean;\n}\n```\n\
\n### Shape\n\n`class Shape`\n";
    assert_eq!(text, expected);
}

#[test]
fn a_signature_written_across_lines_is_read_whole() {
    let text = reference("export function grid(\n  cols: number,\n  rows: number,\n): [number, number][] {\n}\n");
    assert!(text.contains("`grid(cols: number, rows: number): [number, number][]`"), "{text}");
}

#[test]
fn an_empty_source_still_says_what_the_reference_is() {
    let text = reference("");
    assert!(text.starts_with("# parcad DSL reference\n\n\nEvery name below"), "{text}");
    assert!(!text.contains("##"), "{text}");
}

#[test]
fn the_reference_topic_is_built_from_the_dsl() {
    let found = match read(None, &library("export const MM = 1;\n")) {
        Ok(r) => r,
        Err(e) => panic!("{e}"),
    };
    assert_eq!(found.topic, "dsl");
    assert_eq!(found.source, "app/src/dsl.ts");
    assert_eq!(found.text, reference("export const MM = 1;\n"));
    assert!(found.text.contains("\n### MM\n\n`const MM`\n"), "{}", found.text);
}

/// The part of the language the multi-line signatures below stand for: each
/// declaration is written across several lines, as `dsl.ts` writes the long ones.
const SPREAD_OUT: &str = "/** An axis-aligned box. */
export function box(
  x: number,
  y: number,
  z: number,
): Shape {
  return new Shape();
}

/** Grid points, `dx` and `dy` apart: the pitch, not the overall span. */
export function grid(
  cols: number,
  rows: number,
  dx: number,
  dy: number,
): [number, number][] {
  return [];
}

/** A profile pushed along Z, centred on the origin in Z. */
export function extrude(
  depth: number,
): Shape {
  return new Shape();
}

export class Shape {
  /**
   * Reflect across a plane through the origin. The idiom for a symmetric part
   * is union(half, half.mirror(\"x\")).
   */
  mirror(
    axis: Vec3 | \"x\" | \"y\" | \"z\",
  ): Shape {
    return this;
  }

  /** Turn about an axis; a positive angle turns anticlockwise. */
  rotate(
    degrees: number,
  ): Shape {
    return this;
  }
}
";

#[test]
fn a_signature_survives_being_written_across_several_lines() {
    let reference = reference(SPREAD_OUT);
    for expected in [
        "`box(x: number, y: number, z: number): Shape`",
        "`grid(cols: number, rows: number, dx: number, dy: number): [number, number][]`",
        "`mirror(axis: Vec3 | \"x\" | \"y\" | \"z\"): Shape`",
    ] {
        assert!(reference.contains(expected), "expected {expected} in:\n{reference}");
    }
}

#[test]
fn the_reference_answers_what_a_session_had_to_guess() {
    let reference = reference(SPREAD_OUT);
    for fact in [
        "pitch",
        "anticlockwise",
        "union(half, half.mirror(\"x\"))",
        "centred on the origin in Z",
    ] {
        assert!(
            reference.contains(fact),
            "the reference never says {fact:?}; that fact is back to being \
             reverse-engineered from an example"
        );
    }
}

#[test]
fn the_prose_documents_arrive_whole() {
    let mut gaps = String::new();
    for i in 0..120 {
        gaps.push_str(&format!("- gap {i}: what to write instead.\n"));
    }
    let mut docs = library("");
    docs.gaps = gaps.clone();
    let found = match read(Some("gaps"), &docs) {
        Ok(r) => r,
        Err(e) => panic!("DSL_GAPS.md is compiled in: {e}"),
    };
    assert!(found.text.len() > 2000, "truncated: {} bytes", found.text.len());
    assert_eq!(found.text, gaps);
    assert_eq!(found.source, "docs/DSL_GAPS.md");
    assert_eq!(found.topics.len(), 4);
}
