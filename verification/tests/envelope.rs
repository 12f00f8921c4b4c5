use parcad::envelope::{
    check_requires, check_shape, explain, kind_of, no_op, not_a_node, unread_field, Entry, JsonKind, Requires, Root,
    Shape, Units, HOST_VERSION,
};

fn entry(feature: &str, after: &str, what: &str) -> Entry {
    Entry { feature: Some(feature.to_string()), after: Some(after.to_string()), what: Some(what.to_string()) }
}

fn graph(keys: &[&str], stated: Requires, units: Option<Units>, nodes: Option<usize>, root: Root) -> Shape {
    Shape { kind: JsonKind::Object, keys: keys.iter().map(|k| k.to_string()).collect(), stated, units, nodes, root }
}

fn mm() -> Option<Units> {
    Some(Units { text: Some("mm".to_string()), written: "\"mm\"".to_string() })
}

fn refusal(shape: &Shape) -> String {
    check_shape(shape).expect_err("this graph must be refused")
}

#[test]
fn a_feature_this_host_lacks_is_named_with_the_writer_s_words() {
    let message = refusal(&graph(
        &["nodes", "requires", "root", "units"],
        Requires::List(vec![entry("gyroid-infill", "0.1.4", "gyroid infill")]),
        mm(),
        Some(1),
        Root::Index,
    ));
    assert!(message.contains("this part uses gyroid infill (\"gyroid-infill\"), which needs a parcad released after 0.1.4"), "{message}");
    assert!(message.contains(&format!("This host is parcad {HOST_VERSION}: update it")), "{message}");
}

#[test]
fn a_known_feature_reads() {
    let shape = graph(
        &["nodes", "requires", "root", "units"],
        Requires::List(vec![entry("section-curves", "0.0.6", "curved sections")]),
        mm(),
        Some(1),
        Root::Index,
    );
    assert!(check_shape(&shape).is_ok());
}

#[test]
fn a_graph_without_requires_is_an_older_writer_and_reads() {
    let shape = graph(&["nodes", "root"], Requires::Absent, None, Some(1), Root::Index);
    assert!(check_shape(&shape).is_ok());
}

#[test]
fn a_field_nothing_reads_is_refused_rather_than_dropped() {
    let message = unread_field(0, "cylinder", "chamfer");
    assert!(message.starts_with("node 0 (cylinder) has a field \"chamfer\" this host does not read"), "{message}");
}

#[test]
fn an_unknown_op_names_the_node_and_the_update() {
    let message = explain(0, "gyroid", "unknown variant `gyroid`, expected one of `cuboid`, `sphere`", None);
    assert!(message.starts_with("node 0 has op \"gyroid\", which this host does not read"), "{message}");
    assert!(!message.contains("expected one of"), "{message}");
}

#[test]
fn a_missing_field_is_named_on_its_node() {
    let message = explain(1, "cylinder", "missing field `h`", None);
    assert!(message.starts_with("node 1 (cylinder) has no \"h\""), "{message}");
}

#[test]
fn a_wrong_value_names_its_field() {
    let message = explain(0, "extrude", "a section entry is [x, y] or one of the named forms.", Some("profile"));
    assert!(message.starts_with("node 0 (extrude), field \"profile\": a section entry is"), "{message}");
    let message = explain(0, "sphere", "invalid type: string \"big\", expected f64", Some("r"));
    assert!(message.starts_with("node 0 (sphere), field \"r\": invalid type"), "{message}");
}

#[test]
fn units_other_than_millimetres_are_refused() {
    let inches = Some(Units { text: Some("in".to_string()), written: "\"in\"".to_string() });
    let message = refusal(&graph(&["nodes", "root", "units"], Requires::Absent, inches, Some(1), Root::Index));
    assert!(message.contains("millimetres only"), "{message}");
    assert_eq!(
        message,
        "the graph is in units \"in\"; parcad reads millimetres only, so write every length in mm and set units to \"mm\""
    );
}

#[test]
fn a_requires_this_host_cannot_read_says_so() {
    let message = refusal(&graph(&["nodes", "requires", "root"], Requires::Other(JsonKind::Object), None, Some(1), Root::Index));
    assert!(message.starts_with("the graph's requires is an object"), "{message}");
    let message = refusal(&graph(&["nodes", "root"], Requires::Absent, None, Some(1), Root::Other(JsonKind::Str)));
    assert!(message.starts_with("the graph's root is a string"), "{message}");
}

#[test]
fn an_unknown_top_level_field_is_refused() {
    let message = refusal(&graph(&["lattice", "nodes", "root"], Requires::Absent, None, Some(1), Root::Index));
    assert!(message.contains("top-level field \"lattice\""), "{message}");
}

#[test]
fn a_root_that_is_missing_names_the_last_node() {
    let message = refusal(&graph(&["nodes"], Requires::Absent, None, Some(3), Root::Missing));
    assert_eq!(
        message,
        "the graph's root is missing; it is the index of the node that is the finished part, e.g. \"root\": 2"
    );
    let message = refusal(&graph(&["root"], Requires::Absent, None, None, Root::Index));
    assert_eq!(message, "the graph has no nodes list; it needs \"nodes\": [ ... ]");
}

#[test]
fn several_lacking_features_are_named_together_and_an_entry_without_a_feature_is_skipped() {
    let stated = Requires::List(vec![
        Entry { feature: None, after: None, what: Some("nothing".to_string()) },
        Entry { feature: Some("lattice".to_string()), after: Some(String::new()), what: None },
        entry("surfaces", "0.1.0", "surfaces"),
        Entry { feature: Some("knit".to_string()), after: None, what: Some("knitting".to_string()) },
    ]);
    let message = check_requires(&stated).expect_err("two features are unknown");
    assert_eq!(
        message,
        format!(
            "this part uses lattice (\"lattice\"), which needs a newer parcad, and knitting (\"knit\"), which needs a newer parcad. This host is parcad {HOST_VERSION}: update it (brew upgrade parcad, or the latest release), or point the client at a newer host"
        )
    );
}

#[test]
fn a_node_that_is_no_object_or_has_no_op_is_told_so() {
    assert_eq!(not_a_node(2, JsonKind::List), "node 2 is a list, not an object with an op");
    assert!(no_op(0).starts_with("node 0 has no op; every node names its operation"));
    assert_eq!(kind_of(JsonKind::Null), "null");
    let not_object = Shape { kind: JsonKind::List, ..graph(&[], Requires::Absent, None, None, Root::Missing) };
    assert_eq!(refusal(&not_object), "an intent graph is a JSON object { units, root, nodes }; got a list");
}
