use parcad::checks::{Number, Sign};
use parcad::graph::{
    hex_rgb, ChamferRecipe, Doc, FilletContinuity, FilletRecipe, GraphError, Links, Material, NamedBody, Node, Treatment,
};

fn node(links: Links) -> Node {
    Node { links, tag: None, material: None, treatment: None }
}

fn painted(links: Links) -> Node {
    Node { links, tag: None, material: Some(look("#8a9099")), treatment: None }
}

fn doc(nodes: Vec<Node>, root: usize) -> Doc {
    Doc { nodes, root, units: "mm".to_string() }
}

fn body(name: &str, child: usize) -> NamedBody {
    NamedBody { name: name.to_string(), child }
}

fn two_bodies(root: usize) -> Doc {
    doc(
        vec![
            node(Links::Leaf),
            node(Links::Child(0)),
            node(Links::Bodies(vec![body("left", 0), body("right", 1)])),
            node(Links::Child(2)),
        ],
        root,
    )
}

#[test]
fn a_bodies_root_names_its_bodies_and_orders_every_one() {
    let d = two_bodies(2);
    let names: Vec<&str> = d.bodies().unwrap().iter().map(|b| b.name.as_str()).collect();
    assert_eq!(names, ["left", "right"]);
    let order = d.topo_order().unwrap();
    assert_eq!(order.last(), Some(&2));
    assert!(order.contains(&0) && order.contains(&1));
    assert!(two_bodies(1).bodies().is_none());
}

#[test]
fn bodies_under_an_operation_are_refused_by_name() {
    let err = two_bodies(3).topo_order().unwrap_err().message();
    assert!(err.contains("not the root"), "{err}");
    assert!(err.contains("return { base, lid }"), "{err}");
}

#[test]
fn bodies_need_distinct_non_empty_names() {
    let mut d = two_bodies(2);
    d.nodes[2].links = Links::Bodies(vec![body("left", 0), body("left", 1)]);
    let err = d.topo_order().unwrap_err().message();
    assert!(err.contains("both named \"left\""), "{err}");

    d.nodes[2].links = Links::Bodies(vec![body("left", 0), body(" ", 1)]);
    let err = d.topo_order().unwrap_err().message();
    assert!(err.contains("empty name"), "{err}");

    d.nodes[2].links = Links::Bodies(vec![]);
    let err = d.topo_order().unwrap_err().message();
    assert!(err.contains("no bodies"), "{err}");
}

#[test]
fn a_body_wears_one_material_and_never_a_cutters() {
    // A plate unioned with a painted wall, a painted cutter taken out.
    let plate_and_wall = vec![
        painted(Links::Leaf),
        node(Links::Leaf),
        painted(Links::Child(1)),
        node(Links::Operands(vec![0, 2])),
        painted(Links::Leaf),
        node(Links::Difference { base: 3, tools: vec![4] }),
    ];
    assert_eq!(doc(plate_and_wall, 5).body_materials(), vec![Some(0)]);

    let mut painted_on_top = vec![
        painted(Links::Leaf),
        node(Links::Leaf),
        painted(Links::Child(1)),
        node(Links::Operands(vec![0, 2])),
        painted(Links::Leaf),
        node(Links::Difference { base: 3, tools: vec![4] }),
    ];
    painted_on_top.push(painted(Links::Child(5)));
    assert_eq!(doc(painted_on_top, 6).body_materials(), vec![Some(6)]);

    let only_the_cutter = vec![node(Links::Leaf), painted(Links::Leaf), node(Links::Difference { base: 0, tools: vec![1] })];
    assert_eq!(doc(only_the_cutter, 2).body_materials(), vec![None]);

    let two = vec![painted(Links::Leaf), node(Links::Leaf), node(Links::Bodies(vec![body("base", 0), body("pin", 1)]))];
    assert_eq!(doc(two, 2).body_materials(), vec![Some(0), None]);

    let bracket_with_red_boss = vec![
        painted(Links::Leaf),
        node(Links::Leaf),
        node(Links::Operands(vec![0, 1])),
        node(Links::Leaf),
        painted(Links::Child(3)),
        node(Links::Operands(vec![2, 4])),
        node(Links::Leaf),
        node(Links::Difference { base: 5, tools: vec![6] }),
    ];
    assert_eq!(doc(bracket_with_red_boss, 7).body_materials(), vec![Some(0)]);
}

#[test]
fn a_cycle_and_a_missing_node_are_refused_by_name() {
    let looped = doc(vec![node(Links::Child(1)), node(Links::Child(0))], 0);
    assert!(looped.topo_order().unwrap_err() == GraphError::Cycle(0));
    let dangling = doc(vec![node(Links::Child(7))], 0);
    let err = dangling.topo_order().unwrap_err();
    assert!(err == GraphError::Missing(7));
    assert_eq!(err.message(), "node 7 does not exist");
}

#[test]
fn dependencies_come_before_the_nodes_that_use_them() {
    let d = doc(
        vec![
            node(Links::Leaf),
            node(Links::Leaf),
            node(Links::Operands(vec![1, 0])),
            node(Links::Leaf),
            node(Links::Difference { base: 2, tools: vec![0, 1] }),
        ],
        4,
    );
    let order = d.topo_order().unwrap();
    assert_eq!(order.len(), 4, "node 3 is dead and is not ordered: {order:?}");
    let at = |id: usize| order.iter().position(|&n| n == id).unwrap();
    assert!(at(0) < at(2) && at(1) < at(2) && at(2) < at(4));
    assert!(!order.contains(&3));
}

#[test]
fn default_recipes_are_recognised_and_colours_read() {
    assert!(FilletRecipe::is_default(&FilletRecipe::default()));
    assert!(ChamferRecipe::is_default(&ChamferRecipe::default()));
    assert_eq!(hex_rgb("#8a9099"), Some([0x8a, 0x90, 0x99]));
    assert_eq!(hex_rgb("green"), None);
    assert_eq!(hex_rgb("#8a909"), None);
}

fn treatment(child: usize, t: Treatment) -> Node {
    Node { links: Links::Child(child), tag: None, material: None, treatment: Some(t) }
}

#[test]
fn treatments_are_reported_in_dependency_order_with_their_parameters() {
    let d = doc(
        vec![
            node(Links::Leaf),
            treatment(0, Treatment::Fillet(FilletContinuity::Tangent)),
            treatment(1, Treatment::Chamfer),
        ],
        2,
    );
    assert_eq!(
        d.treatments(),
        vec![(1, Treatment::Fillet(FilletContinuity::Tangent)), (2, Treatment::Chamfer)]
    );
}

#[test]
fn a_smooth_is_reported_as_a_fillet_asking_for_curvature() {
    let d = doc(vec![node(Links::Leaf), treatment(0, Treatment::Fillet(FilletContinuity::Curvature))], 1);
    let t = d.treatments();
    assert_eq!(t.len(), 1);
    assert_eq!(t[0].1, Treatment::Fillet(FilletContinuity::Curvature));
}

#[test]
fn a_treatment_the_root_does_not_reach_is_not_reported() {
    let d = doc(vec![node(Links::Leaf), treatment(0, Treatment::Fillet(FilletContinuity::Tangent))], 0);
    let t = d.treatments();
    assert!(t.is_empty(), "a fillet outside the root's dependencies is not in the part: {t:?}");
}

fn number(value: f64) -> Number {
    let sign = if !value.is_finite() {
        Sign::NotFinite
    } else if value > 0.0 {
        Sign::Positive
    } else if value == 0.0 {
        Sign::Zero
    } else {
        Sign::Negative
    };
    Number { shown: format!("{value}"), sign, at_most_one: value <= 1.0 }
}

fn look(color: &str) -> Material {
    Material {
        color: color.to_string(),
        roughness: number(0.5),
        metalness: number(0.0),
        opacity: number(1.0),
        emissive: None,
        clearcoat: number(0.0),
    }
}

#[test]
fn a_material_out_of_range_is_refused_by_name() {
    let refusal = |material: Material| {
        let d = doc(vec![Node { links: Links::Leaf, tag: None, material: Some(material), treatment: None }], 0);
        match d.topo_order() {
            Ok(_) => String::new(),
            Err(e) => e.message(),
        }
    };
    let fine = Material { opacity: number(0.4), emissive: Some("#30ff60".to_string()), clearcoat: number(1.0), ..look("#aabbcc") };
    assert_eq!(refusal(fine), "");
    assert!(refusal(Material { opacity: number(0.0), ..look("#aabbcc") }).contains("opacity 0"));
    assert!(refusal(Material { clearcoat: number(1.5), ..look("#aabbcc") }).contains("clearcoat 1.5"));
    assert!(refusal(Material { emissive: Some("green".to_string()), ..look("#aabbcc") }).contains("emissive \"green\""));
    assert_eq!(
        refusal(look("red")),
        "node 0 has material colour \"red\"; write it as six hex digits, e.g. \"#c83c32\""
    );
}

#[test]
fn a_dead_node_s_material_is_not_judged() {
    let d = doc(
        vec![node(Links::Leaf), Node { links: Links::Leaf, tag: None, material: Some(look("nope")), treatment: None }],
        0,
    );
    assert!(d.topo_order().is_ok());
    assert_eq!(look("#8a9099").rgb(), Some([0x8a, 0x90, 0x99]));
}
