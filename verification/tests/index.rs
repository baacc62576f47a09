use mal::index::{FeatureCategory, FeatureID, MathematicalOperator, SemanticBridge};

#[test]
fn test_ast_to_feature_mapping() {
    let bridge = SemanticBridge::new();
    assert_eq!(bridge.ast_to_feature("LinearLet"), Some(FeatureID(1)));
    assert_eq!(bridge.ast_to_feature("Lambda"), Some(FeatureID(2)));
    assert_eq!(bridge.ast_to_feature("Match"), Some(FeatureID(3)));
    assert_eq!(bridge.ast_to_feature("NonExistent"), None);
}

#[test]
fn test_feature_to_ast_mapping() {
    let bridge = SemanticBridge::new();
    let ast_nodes = bridge.feature_to_ast(FeatureID(3));
    assert!(ast_nodes.contains(&"Match"));
    assert!(ast_nodes.contains(&"MatchArm"));
    assert_eq!(ast_nodes.len(), 2);
    let ast_nodes = bridge.feature_to_ast(FeatureID(1));
    assert_eq!(ast_nodes, vec!["LinearLet"]);
}

#[test]
fn test_category_tags() {
    let bridge = SemanticBridge::new();
    let memory_tags = bridge.category_tags(FeatureCategory::Memory);
    assert!(memory_tags.contains(&"LinearLet"));
    let abstraction_tags = bridge.category_tags(FeatureCategory::Abstraction);
    assert!(abstraction_tags.contains(&"Match"));
}

#[test]
fn test_mathematical_operator_mapping() {
    assert_eq!(
        MathematicalOperator::from_binary_op_str("Add"),
        Some(MathematicalOperator::Add)
    );
    assert_eq!(MathematicalOperator::from_binary_op_str("Unknown"), None);
    assert_eq!(
        MathematicalOperator::Add.feature_id(),
        MathematicalOperator::Sub.feature_id()
    );
}

#[test]
fn test_bridge_completeness() {
    let bridge = SemanticBridge::new();
    assert!(bridge.verify_completeness());
}

#[test]
fn categories_without_tags_and_unknown_features() {
    let bridge = SemanticBridge::default();
    assert!(bridge.category_tags(FeatureCategory::Hardware).is_empty());
    assert_eq!(
        bridge.category_tags(FeatureCategory::Query),
        vec!["ForAll", "Exists", "Mu", "Set", "SetMembership"]
    );
    assert!(bridge.feature_to_ast(FeatureID(999)).is_empty());
    assert_eq!(bridge.feature_to_ast(FeatureID(4)), vec!["TypeDecl", "Constructor"]);
    assert_eq!(bridge.ast_to_feature("SetMembership"), Some(FeatureID(204)));
}

#[test]
fn every_operator_name_maps() {
    let names = ["Add", "Sub", "Mul", "Div", "Mod", "Eq", "Ne", "Lt", "Le", "Gt", "Ge", "And", "Or", "Xor"];
    for n in names.iter() {
        let op = MathematicalOperator::from_binary_op_str(n).unwrap();
        assert_eq!(op.feature_id(), FeatureID(100));
    }
    assert_eq!(MathematicalOperator::from_binary_op_str("Xor"), Some(MathematicalOperator::Xor));
    assert_eq!(MathematicalOperator::from_binary_op_str("add"), None);
}

#[test]
fn bridge_directions_are_inverse() {
    let bridge = SemanticBridge::new();
    let names = [
        "LinearLet", "Lambda", "Match", "MatchArm", "TypeDecl", "Constructor", "ForAll", "Exists", "Mu", "Set",
        "SetMembership",
    ];
    for n in names {
        let id = bridge.ast_to_feature(n).unwrap();
        assert!(bridge.feature_to_ast(id).contains(&n));
        for m in bridge.feature_to_ast(id) {
            assert_eq!(bridge.ast_to_feature(m), Some(id));
        }
    }
    assert_eq!(bridge.ast_to_feature("Unknown"), None);
}
