use mal::adt::{ADTError, ADTRegistry, AlgebraicDataType, Constructor, ConstructorName, FieldType};

/// Test 1: Simple sum type (Color = Red | Green | Blue)
#[test]
fn test_simple_sum_type() {
    let mut registry = ADTRegistry::new();
    let mut color = AlgebraicDataType::new("لون".to_string());
    color.add_constructor(Constructor {
        name: ConstructorName("أحمر".to_string()),
        fields: vec![],
    }).unwrap();
    color.add_constructor(Constructor {
        name: ConstructorName("أخضر".to_string()),
        fields: vec![],
    }).unwrap();
    color.add_constructor(Constructor {
        name: ConstructorName("أزرق".to_string()),
        fields: vec![],
    }).unwrap();
    registry.register(color).unwrap();
    let retrieved = registry.lookup("لون").unwrap();
    assert_eq!(retrieved.variant_count(), 3);
    assert!(retrieved.is_sum_type());
    assert!(!retrieved.is_product_type());
    assert_eq!(retrieved.to_sigma(), "لون = أحمر | أخضر | أزرق");
}
/// Test 2: Product type (Point = ⟨س: Int × ص: Int⟩)
#[test]
fn test_product_type() {
    let mut point = AlgebraicDataType::new("نقطة".to_string());
    point.add_constructor(Constructor {
        name: ConstructorName("نقطة".to_string()),
        fields: vec![
            FieldType { name: Some("س".to_string()), type_tag: "Int".to_string() },
            FieldType { name: Some("ص".to_string()), type_tag: "Int".to_string() },
        ],
    }).unwrap();
    assert!(point.is_product_type());
    assert!(!point.is_sum_type());
    assert_eq!(point.variant_count(), 1);
}
/// Test 3: Complex ADT (Shape = Circle | Square | Triangle)
#[test]
fn test_complex_adt() {
    let mut shape = AlgebraicDataType::new("شكل".to_string());
    shape.add_constructor(Constructor {
        name: ConstructorName("دائرة".to_string()),
        fields: vec![
            FieldType { name: Some("مركز".to_string()), type_tag: "نقطة".to_string() },
            FieldType { name: Some("نق".to_string()), type_tag: "عدد_عشري".to_string() },
        ],
    }).unwrap();
    shape.add_constructor(Constructor {
        name: ConstructorName("مربع".to_string()),
        fields: vec![
            FieldType { name: Some("زاوية".to_string()), type_tag: "نقطة".to_string() },
            FieldType { name: Some("طول".to_string()), type_tag: "عدد_عشري".to_string() },
        ],
    }).unwrap();
    shape.add_constructor(Constructor {
        name: ConstructorName("مثلث".to_string()),
        fields: vec![
            FieldType { name: Some("ر1".to_string()), type_tag: "نقطة".to_string() },
            FieldType { name: Some("ر2".to_string()), type_tag: "نقطة".to_string() },
            FieldType { name: Some("ر3".to_string()), type_tag: "نقطة".to_string() },
        ],
    }).unwrap();
    assert_eq!(shape.variant_count(), 3);
    assert!(shape.is_sum_type());
    let circle = shape.find_constructor("دائرة").unwrap();
    assert_eq!(circle.fields.len(), 2);
    assert_eq!(circle.fields[0].type_tag, "نقطة");
    let sigma = shape.to_sigma();
    assert!(sigma.contains("دائرة"));
    assert!(sigma.contains("مربع"));
    assert!(sigma.contains("مثلث"));
}
/// Test 4: Duplicate detection (Principle 1: الإحكام)
#[test]
fn test_duplicate_detection() {
    let mut registry = ADTRegistry::new();
    let mut t1 = AlgebraicDataType::new("نوع1".to_string());
    t1.add_constructor(Constructor {
        name: ConstructorName("A".to_string()),
        fields: vec![],
    }).unwrap();
    registry.register(t1).unwrap();
    // Try to register duplicate type
    let t2 = AlgebraicDataType::new("نوع1".to_string());
    let result = registry.register(t2);
    assert!(matches!(result, Err(ADTError::DuplicateType { .. })));
}
/// Test 5: Duplicate constructor detection
#[test]
fn test_duplicate_constructor_detection() {
    let mut t = AlgebraicDataType::new("نوع".to_string());
    t.add_constructor(Constructor {
        name: ConstructorName("A".to_string()),
        fields: vec![],
    }).unwrap();
    // Try to add duplicate constructor
    let result = t.add_constructor(Constructor {
        name: ConstructorName("A".to_string()),
        fields: vec![],
    });
    assert!(matches!(result, Err(ADTError::DuplicateConstructor { .. })));
}

#[test]
fn adt_sigma_with_fields_and_empty() {
    let empty = AlgebraicDataType::new("فراغ".to_string());
    assert_eq!(empty.to_sigma(), "فراغ = ∅");
    let mut pair = AlgebraicDataType::new("زوج".to_string());
    pair.add_constructor(Constructor {
        name: ConstructorName("ز".to_string()),
        fields: vec![
            FieldType { name: None, type_tag: "Int".to_string() },
            FieldType { name: None, type_tag: "Text".to_string() },
        ],
    }).unwrap();
    assert_eq!(pair.to_sigma(), "زوج = ز(Int × Text)");
    assert!(pair.find_constructor("غير").is_none());
    let mut registry = ADTRegistry::default();
    assert!(registry.is_empty());
    registry.register(pair).unwrap();
    assert_eq!(registry.len(), 1);
    assert_eq!(registry.type_names(), vec![&"زوج".to_string()]);
    let err = registry.register(AlgebraicDataType::new("زوج".to_string())).unwrap_err();
    assert_eq!(err.message(), "نوع مكرر: زوج");
}
