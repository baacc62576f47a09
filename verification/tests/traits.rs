use mal::traits::{Impl, Method, SelfKind, Trait, TraitError, TraitRegistry};

/// Test 1: Simple trait definition (interface)
#[test]
fn test_simple_trait_definition() {
    let mut drawable = Trait::new("قابل_للرسم".to_string());
    drawable.add_method(
        Method::new("ارسم".to_string(), SelfKind::Borrowed)
            .with_return("فراغ".to_string())
    ).unwrap();
    drawable.add_method(
        Method::new("مساحة".to_string(), SelfKind::Borrowed)
            .with_return("عدد_عشري".to_string())
    ).unwrap();
    assert_eq!(drawable.method_count(), 2);
    assert!(drawable.find_method("ارسم").is_some());
    assert!(drawable.find_method("مساحة").is_some());
    assert!(drawable.find_method("غير_موجود").is_none());
    let sigma = drawable.to_sigma();
    assert!(sigma.contains("قابل_للرسم"));
    assert!(sigma.contains("ارسم"));
    assert!(sigma.contains("مساحة"));
}
/// Test 2: Impl for type (implementation)
#[test]
fn test_impl_for_type() {
    let mut registry = TraitRegistry::new();
    // Define trait
    let mut printable = Trait::new("قابل_للطباعة".to_string());
    printable.add_method(
        Method::new("اطبع".to_string(), SelfKind::Borrowed)
            .with_return("نص".to_string())
    ).unwrap();
    registry.register_trait(printable).unwrap();
    // Implement for type "نقطة"
    let mut impl_block = Impl::new("قابل_للطباعة".to_string(), "نقطة".to_string());
    impl_block.add_method("اطبع".to_string());
    registry.register_impl(impl_block).unwrap();
    assert_eq!(registry.trait_count(), 1);
    assert_eq!(registry.impl_count(), 1);
}
/// Test 3: Method resolution
#[test]
fn test_method_resolution() {
    let mut registry = TraitRegistry::new();
    // Define trait
    let mut comparable = Trait::new("قابل_للمقارنة".to_string());
    comparable.add_method(
        Method::new("قارن".to_string(), SelfKind::Borrowed)
            .with_params(vec!["نفس_النوع".to_string()])
            .with_return("عدد_صحيح".to_string())
    ).unwrap();
    registry.register_trait(comparable).unwrap();
    // Implement for "عدد_صحيح"
    let mut impl_block = Impl::new("قابل_للمقارنة".to_string(), "عدد_صحيح".to_string());
    impl_block.add_method("قارن".to_string());
    registry.register_impl(impl_block).unwrap();
    // Resolve: (عدد_صحيح, قارن) should find the impl
    let resolved = registry.resolve_method("عدد_صحيح", "قارن");
    assert!(resolved.is_some());
    let (trait_def, impl_block, method) = resolved.unwrap();
    assert_eq!(trait_def.name, "قابل_للمقارنة");
    assert_eq!(impl_block.for_type, "عدد_صحيح");
    assert_eq!(method.name, "قارن");
    assert_eq!(method.self_kind, SelfKind::Borrowed);
    // Non-existent method should return None
    assert!(registry.resolve_method("عدد_صحيح", "غير_موجود").is_none());
    assert!(registry.resolve_method("نوع_آخر", "قارن").is_none());
}
/// Test 4: Coherence check (Phi proof obligation)
#[test]
fn test_coherence_check() {
    let mut registry = TraitRegistry::new();
    let mut t = Trait::new("T".to_string());
    t.add_method(Method::new("m".to_string(), SelfKind::Consumed)).unwrap();
    registry.register_trait(t).unwrap();
    // First impl OK
    let mut impl1 = Impl::new("T".to_string(), "A".to_string());
    impl1.add_method("m".to_string());
    registry.register_impl(impl1).unwrap();
    // Second impl for same (trait, type) should fail (coherence)
    let mut impl2 = Impl::new("T".to_string(), "A".to_string());
    impl2.add_method("m".to_string());
    let result = registry.register_impl(impl2);
    assert!(matches!(result, Err(TraitError::CoherenceViolation { .. })));
}
/// Test 5: Incomplete impl detection
#[test]
fn test_incomplete_impl_detection() {
    let mut registry = TraitRegistry::new();
    let mut t = Trait::new("T".to_string());
    t.add_method(Method::new("m1".to_string(), SelfKind::Borrowed)).unwrap();
    t.add_method(Method::new("m2".to_string(), SelfKind::Borrowed)).unwrap();
    registry.register_trait(t).unwrap();
    // Impl only provides m1, missing m2
    let mut incomplete = Impl::new("T".to_string(), "A".to_string());
    incomplete.add_method("m1".to_string());
    let result = registry.register_impl(incomplete);
    assert!(matches!(result, Err(TraitError::IncompleteImpl { .. })));
    if let Err(TraitError::IncompleteImpl { missing, .. }) = result {
        assert_eq!(missing, vec!["m2".to_string()]);
    }
}

#[test]
fn traits_signature_text_and_unknown_trait() {
    let m = Method::new("f".to_string(), SelfKind::MutBorrowed)
        .with_params(vec!["A".to_string(), "B".to_string()])
        .with_return("C".to_string());
    assert_eq!(m.to_sigma(), "f(&mut self, A, B): C");
    let mut t = Trait::new("T".to_string());
    assert_eq!(t.to_sigma(), "T = {}");
    t.add_method(m).unwrap();
    t.add_method(Method::new("g".to_string(), SelfKind::Consumed)).unwrap();
    assert_eq!(t.to_sigma(), "T = { f(&mut self, A, B): C, g(self): () }");
    let mut registry = TraitRegistry::default();
    let r = registry.register_impl(Impl::new("U".to_string(), "X".to_string()));
    assert!(matches!(r, Err(TraitError::UnknownTrait { .. })));
    registry.register_trait(t).unwrap();
    assert!(registry.get_trait("T").is_some());
    assert!(matches!(registry.register_trait(Trait::new("T".to_string())), Err(TraitError::DuplicateTrait { .. })));
    let mut i = Impl::new("T".to_string(), "X".to_string());
    i.add_method("g".to_string());
    i.add_method("g".to_string());
    assert_eq!(i.method_names.len(), 1);
    let trait_def = registry.get_trait("T").unwrap();
    assert_eq!(i.missing_methods(trait_def).len(), 1);
    assert!(!i.is_complete(trait_def));
}
