use mdbook_obgraph::ast::{
    AstConstraint, AstDerivationExpr, AstDomain, AstGraph, AstLink, AstNode, AstProperty,
    AstSourceExpr, AstTrustAnnotation,
};
use mdbook_obgraph::error::{GraphError, ObgraphError};
use mdbook_obgraph::model::graph::build;
use mdbook_obgraph::model::types::{DerivId, Edge, EdgeId, NodeId, PropId, TrustClass};
use mdbook_obgraph::model::validate::validate;

fn node(ident: &str, props: Vec<(&str, AstTrustAnnotation)>, is_root: bool) -> AstNode {
    AstNode {
        ident: ident.to_string(),
        display_name: None,
        is_root,
        is_selected: false,
        properties: props
            .into_iter()
            .map(|(name, trust)| AstProperty { name: name.to_string(), trust })
            .collect(),
    }
}

fn link(child: &str, parent: &str) -> AstLink {
    AstLink { child_ident: child.to_string(), parent_ident: parent.to_string(), operation: None }
}

fn prop_ref(node: &str, prop: &str) -> AstSourceExpr {
    AstSourceExpr::PropRef { node_ident: node.to_string(), prop_name: prop.to_string() }
}

fn constraint(dest_node: &str, dest_prop: &str, source: AstSourceExpr) -> AstConstraint {
    AstConstraint {
        dest_node: dest_node.to_string(),
        dest_prop: dest_prop.to_string(),
        source,
        operation: None,
    }
}

/// The text of the error that `r` carries.
fn error_of(r: Result<mdbook_obgraph::model::types::Graph, ObgraphError>) -> String {
    match r {
        Err(ObgraphError::Validation(m)) => m,
        Ok(_) => panic!("expected an error"),
    }
}

fn graph(nodes: Vec<AstNode>, links: Vec<AstLink>, constraints: Vec<AstConstraint>) -> AstGraph {
    AstGraph { domains: vec![], nodes, links, constraints }
}

#[test]
fn duplicate_node_names_the_ident() {
    let ast = graph(vec![node("foo", vec![], true), node("foo", vec![], true)], vec![], vec![]);
    assert_eq!(error_of(build(ast)), "duplicate node identifier: foo");
}

#[test]
fn duplicate_node_across_domain_and_top_level() {
    let ast = AstGraph {
        domains: vec![AstDomain { display_name: "D".to_string(), nodes: vec![node("a", vec![], true)] }],
        nodes: vec![node("a", vec![], true)],
        links: vec![],
        constraints: vec![],
    };
    assert_eq!(error_of(build(ast)), "duplicate node identifier: a");
}

#[test]
fn duplicate_property_is_rejected() {
    let ast = graph(
        vec![node("a", vec![("x", AstTrustAnnotation::Always), ("x", AstTrustAnnotation::Default)], true)],
        vec![],
        vec![],
    );
    assert_eq!(error_of(build(ast)), "duplicate property x on node a");
}

#[test]
fn same_property_name_on_two_nodes_is_fine() {
    let ast = graph(
        vec![node("a", vec![("x", AstTrustAnnotation::Always)], true), node("b", vec![("x", AstTrustAnnotation::Always)], true)],
        vec![],
        vec![],
    );
    let g = build(ast).expect("distinct nodes may share property names");
    assert_eq!(g.properties.len(), 2);
    assert_eq!(g.nodes[1].properties, vec![PropId(1)]);
}

#[test]
fn unknown_link_parent_is_named() {
    let ast = graph(vec![node("known", vec![], false)], vec![link("known", "unknown")], vec![]);
    assert_eq!(error_of(build(ast)), "unknown node identifier: unknown");
}

#[test]
fn unknown_link_child_is_named_first() {
    let ast = graph(vec![node("p", vec![], true)], vec![link("c1", "c2")], vec![]);
    assert_eq!(error_of(build(ast)), "unknown node identifier: c1");
}

#[test]
fn unknown_constraint_destination_node() {
    let ast = graph(
        vec![node("a", vec![("x", AstTrustAnnotation::Always)], true)],
        vec![],
        vec![constraint("ghost", "y", prop_ref("a", "x"))],
    );
    assert_eq!(error_of(build(ast)), "unknown node identifier: ghost");
}

#[test]
fn unknown_source_property_is_named() {
    let ast = graph(
        vec![node("a", vec![("x", AstTrustAnnotation::Always)], true), node("b", vec![("y", AstTrustAnnotation::Default)], false)],
        vec![link("b", "a")],
        vec![constraint("b", "y", prop_ref("a", "NONEXISTENT"))],
    );
    assert_eq!(error_of(build(ast)), "unknown property NONEXISTENT on node a");
}

#[test]
fn multiple_parents_names_the_child() {
    let ast = graph(
        vec![node("p1", vec![], true), node("p2", vec![], true), node("child", vec![], false)],
        vec![link("child", "p1"), link("child", "p2")],
        vec![],
    );
    assert_eq!(error_of(build(ast)), "node child has more than one parent link");
}

#[test]
fn constraint_on_always_property_is_rejected() {
    let ast = graph(
        vec![node("a", vec![("x", AstTrustAnnotation::Always)], true), node("b", vec![("y", AstTrustAnnotation::Always)], false)],
        vec![link("b", "a")],
        vec![constraint("b", "y", prop_ref("a", "x"))],
    );
    assert_eq!(error_of(build(ast)), "constraint on pre-satisfied property 1");
}

#[test]
fn root_with_parent_is_rejected() {
    let ast = graph(
        vec![node("a", vec![], true), node("b", vec![], true)],
        vec![link("b", "a")],
        vec![],
    );
    assert_eq!(error_of(build(ast)), "root node 1 is the child of an anchor");
}

#[test]
fn nullary_derivation_is_rejected() {
    let ast = graph(
        vec![node("a", vec![("x", AstTrustAnnotation::Default)], true)],
        vec![],
        vec![constraint(
            "a",
            "x",
            AstSourceExpr::Derivation(AstDerivationExpr { function: "now".to_string(), args: vec![] }),
        )],
    );
    assert_eq!(error_of(build(ast)), "derivation 0 has no arguments");
}

#[test]
fn link_cycle_is_rejected() {
    let ast = graph(
        vec![node("a", vec![], false), node("b", vec![], false)],
        vec![link("a", "b"), link("b", "a")],
        vec![],
    );
    assert_eq!(error_of(build(ast)), "cycle detected");
}

#[test]
fn constraint_against_anchor_direction_is_a_cycle() {
    // b is anchored to a, but a's property is constrained by b's.
    let ast = graph(
        vec![node("a", vec![("x", AstTrustAnnotation::Default)], true), node("b", vec![("y", AstTrustAnnotation::Always)], false)],
        vec![link("b", "a")],
        vec![constraint("a", "x", prop_ref("b", "y"))],
    );
    assert_eq!(error_of(build(ast)), "cycle detected");
}

#[test]
fn constraint_within_one_node_is_a_cycle() {
    let ast = graph(
        vec![node("a", vec![("x", AstTrustAnnotation::Default), ("y", AstTrustAnnotation::Always)], true)],
        vec![],
        vec![constraint("a", "x", prop_ref("a", "y"))],
    );
    assert_eq!(error_of(build(ast)), "cycle detected");
}

#[test]
fn derivation_output_is_carried_by_the_derivation() {
    // A derivation over a's property that constrains another property of a
    // goes a -> derivation -> a: a cycle.
    let ast = graph(
        vec![node("a", vec![("x", AstTrustAnnotation::Default), ("y", AstTrustAnnotation::Always)], true)],
        vec![],
        vec![constraint(
            "a",
            "x",
            AstSourceExpr::Derivation(AstDerivationExpr { function: "f".to_string(), args: vec![prop_ref("a", "y")] }),
        )],
    );
    assert_eq!(error_of(build(ast)), "cycle detected");
}

#[test]
fn long_chain_is_acyclic() {
    let mut nodes = vec![node("n0", vec![("p", AstTrustAnnotation::Always)], true)];
    let mut links = vec![];
    let mut constraints = vec![];
    for i in 1..20 {
        nodes.push(node(&format!("n{i}"), vec![("p", AstTrustAnnotation::Default)], false));
        links.push(link(&format!("n{i}"), &format!("n{}", i - 1)));
        constraints.push(constraint(&format!("n{i}"), "p", prop_ref(&format!("n{}", i - 1), "p")));
    }
    let g = build(graph(nodes, links, constraints)).expect("a chain has no cycle");
    assert_eq!(g.edges.len(), 38);
    assert_eq!(g.parent_of(NodeId(19)), Some(EdgeId(18)));
}

#[test]
fn validate_accepts_built_graph() {
    let ast = graph(
        vec![node("a", vec![("x", AstTrustAnnotation::Always)], true), node("b", vec![("y", AstTrustAnnotation::Default)], false)],
        vec![link("b", "a")],
        vec![constraint("b", "y", prop_ref("a", "x"))],
    );
    let g = build(ast).expect("valid graph");
    assert!(validate(&g).is_ok());
}

#[test]
fn edges_on_prop_counts_both_endpoints_and_derivation_inputs() {
    let ast = graph(
        vec![
            node("a", vec![("x", AstTrustAnnotation::Always)], true),
            node("b", vec![("y", AstTrustAnnotation::Default), ("z", AstTrustAnnotation::Default)], false),
        ],
        vec![link("b", "a")],
        vec![
            constraint("b", "y", prop_ref("a", "x")),
            constraint(
                "b",
                "z",
                AstSourceExpr::Derivation(AstDerivationExpr { function: "h".to_string(), args: vec![prop_ref("a", "x")] }),
            ),
        ],
    );
    let g = build(ast).expect("valid graph");
    // E0 link, E1 constraint a.x -> b.y, E2 derivation input a.x -> D0, E3 constraint D0 out -> b.z
    assert_eq!(g.edges_on_prop(PropId(0)), &[EdgeId(1), EdgeId(2)]);
    assert_eq!(g.edges_on_prop(PropId(1)), &[EdgeId(1)]);
    assert_eq!(g.edges_on_prop(PropId(3)), &[EdgeId(3)]);
    assert_eq!(g.properties[3].name, "__deriv_0");
    assert_eq!(g.properties[3].trust, TrustClass::Always);
    assert_eq!(g.properties[3].node, NodeId(1));
    assert!(matches!(g.edges[3], Edge::Constraint { dest_prop: PropId(2), source_prop: PropId(3), .. }));
    assert_eq!(g.children_of(NodeId(0)), &[EdgeId(0)]);
    assert_eq!(g.children_of(NodeId(7)).len(), 0);
    assert_eq!(g.edges_on_prop(PropId(9)).len(), 0);
    assert_eq!(g.parent_of(NodeId(0)), None);
}

#[test]
fn derivation_names_count_up() {
    let mut constraints = vec![];
    let mut props = vec![];
    for i in 0..12 {
        props.push((format!("d{i}"), AstTrustAnnotation::Default));
    }
    for i in 0..12 {
        constraints.push(constraint(
            "b",
            &format!("d{i}"),
            AstSourceExpr::Derivation(AstDerivationExpr { function: format!("f{i}"), args: vec![prop_ref("a", "x")] }),
        ));
    }
    let b = AstNode {
        ident: "b".to_string(),
        display_name: Some("B".to_string()),
        is_root: false,
        is_selected: true,
        properties: props.into_iter().map(|(name, trust)| AstProperty { name, trust }).collect(),
    };
    let ast = graph(vec![node("a", vec![("x", AstTrustAnnotation::Always)], true), b], vec![link("b", "a")], constraints);
    let g = build(ast).expect("valid graph");
    assert_eq!(g.derivations.len(), 12);
    assert_eq!(g.properties[24].name, "__deriv_11");
    assert_eq!(g.derivations[11].output_prop, PropId(24));
    assert_eq!(g.nodes[1].display_name.as_deref(), Some("B"));
    assert!(g.nodes[1].is_selected);
}

#[test]
fn error_messages_name_what_failed() {
    let dup = graph(vec![node("foo", vec![], true), node("foo", vec![], true)], vec![], vec![]);
    assert_eq!(error_of(build(dup)), "duplicate node identifier: foo");

    let dup_prop = graph(
        vec![node("a", vec![("x", AstTrustAnnotation::Always), ("x", AstTrustAnnotation::Default)], true)],
        vec![],
        vec![],
    );
    assert_eq!(error_of(build(dup_prop)), "duplicate property x on node a");

    let unknown = graph(vec![node("a", vec![], true)], vec![link("a", "ghost")], vec![]);
    assert_eq!(error_of(build(unknown)), "unknown node identifier: ghost");

    let unknown_prop = graph(
        vec![node("a", vec![("x", AstTrustAnnotation::Default)], true)],
        vec![],
        vec![constraint("a", "x", prop_ref("a", "nope"))],
    );
    assert_eq!(error_of(build(unknown_prop)), "unknown property nope on node a");

    let two_parents = graph(
        vec![node("p", vec![], true), node("q", vec![], true), node("c", vec![], false)],
        vec![link("c", "p"), link("c", "q")],
        vec![],
    );
    assert_eq!(error_of(build(two_parents)), "node c has more than one parent link");
}

#[test]
fn error_messages_of_validation_rules() {
    assert_eq!(GraphError::Cycle.message(), "cycle detected");
    assert_eq!(
        GraphError::ConstraintOnAlwaysProperty { prop: PropId(12) }.message(),
        "constraint on pre-satisfied property 12"
    );
    assert_eq!(
        GraphError::RootWithParent { node: NodeId(0) }.message(),
        "root node 0 is the child of an anchor"
    );
    assert_eq!(
        GraphError::NullaryDerivation { deriv: DerivId(305) }.message(),
        "derivation 305 has no arguments"
    );
    assert_eq!(
        GraphError::CapacityExceeded.message(),
        "more graph elements than 32-bit identifiers can number"
    );
}

#[test]
fn adjacency_lists_anchors_both_ways() {
    let ast = graph(
        vec![node("p", vec![], true), node("c1", vec![], false), node("c2", vec![], false)],
        vec![link("c1", "p"), link("c2", "p")],
        vec![],
    );
    let g = build(ast).unwrap();
    assert_eq!(g.children_of(NodeId(0)), &[EdgeId(0), EdgeId(1)]);
    assert!(g.children_of(NodeId(1)).is_empty());
    assert_eq!(g.parent_of(NodeId(1)), Some(EdgeId(0)));
    assert_eq!(g.parent_of(NodeId(2)), Some(EdgeId(1)));
    assert_eq!(g.parent_of(NodeId(0)), None);
    for (i, n) in g.nodes.iter().enumerate() {
        assert_eq!(n.id, NodeId(i as u32));
    }
}
