use mal::index::FeatureID;
use mal::kb::{FormalSemantics, InferenceRule, KBNode, KBRelation, KnowledgeGraph};

/// The graph of the test knowledge base: one registered feature, two rules
/// it requires and a type.
fn build_test_graph() -> KnowledgeGraph {
    let mut graph = KnowledgeGraph::new();
    graph.add_node(KBNode::Feature(FeatureID(1)));
    graph.add_node(KBNode::Rule("no_use_after_move".to_string()));
    graph.add_node(KBNode::Rule("no_double_free".to_string()));
    graph.add_node(KBNode::Type("linear_type".to_string()));
    graph.add_edge(
        KBNode::Feature(FeatureID(1)),
        KBNode::Rule("no_use_after_move".to_string()),
        KBRelation::Requires,
    );
    graph.add_edge(KBNode::Feature(FeatureID(1)), KBNode::Rule("no_double_free".to_string()), KBRelation::Requires);
    graph
}

#[test]
fn test_register_and_retrieve_semantics() {
    let sem = FormalSemantics {
        formula: "∀ r ∈ Resources, ∃! o ∈ Owners: owns(o, r, t)".to_string(),
        axioms: vec!["unique_ownership".to_string(), "no_use_after_move".to_string()],
        inference_rules: vec![InferenceRule {
            name: "Move-Semantics".to_string(),
            premises: vec!["Γ ⊢ e : T^linear".to_string()],
            conclusion: "Γ ⊢ move(e) : T^linear".to_string(),
        }],
    };
    assert!(sem.formula.contains("Resources"));
    assert_eq!(sem.axioms.len(), 2);
    assert_eq!(sem.inference_rules.len(), 1);
}

#[test]
fn test_proof_obligations() {
    let graph = build_test_graph();
    let obligations = graph.proof_obligations(FeatureID(1));
    assert_eq!(obligations.len(), 2);
    assert!(obligations.contains(&"no_use_after_move".to_string()));
}

#[test]
fn test_knowledge_graph_structure() {
    let graph = build_test_graph();
    assert_eq!(graph.node_count(), 4);
    assert_eq!(graph.edge_count(), 2);
}

#[test]
fn nodes_are_added_once_and_relations_filtered() {
    let mut graph = build_test_graph();
    graph.add_node(KBNode::Rule("no_double_free".to_string()));
    graph.add_node(KBNode::Feature(FeatureID(1)));
    assert_eq!(graph.node_count(), 4);
    graph.add_edge(KBNode::Feature(FeatureID(1)), KBNode::Type("linear_type".to_string()), KBRelation::Implements);
    graph.add_edge(KBNode::Feature(FeatureID(1)), KBNode::Proof("p1".to_string()), KBRelation::Requires);
    graph.add_edge(KBNode::Feature(FeatureID(2)), KBNode::Rule("other".to_string()), KBRelation::Requires);
    assert_eq!(graph.edge_count(), 5);
    assert_eq!(
        graph.find_related(KBNode::Feature(FeatureID(1)), KBRelation::Requires),
        vec![
            KBNode::Rule("no_use_after_move".to_string()),
            KBNode::Rule("no_double_free".to_string()),
            KBNode::Proof("p1".to_string()),
        ]
    );
    assert_eq!(
        graph.find_related(KBNode::Feature(FeatureID(1)), KBRelation::Implements),
        vec![KBNode::Type("linear_type".to_string())]
    );
    assert!(graph.find_related(KBNode::Type("linear_type".to_string()), KBRelation::Requires).is_empty());
    assert_eq!(
        graph.proof_obligations(FeatureID(1)),
        vec!["no_use_after_move".to_string(), "no_double_free".to_string()]
    );
    assert_eq!(graph.proof_obligations(FeatureID(2)), vec!["other".to_string()]);
    assert!(graph.proof_obligations(FeatureID(3)).is_empty());
}
