use mal::hott::{circle_rec, compose_equiv, id_equiv, inv_left, inv_right, is_prop, is_set, loop_path, refl, sym, trans, transport, transport_trivial, ua, Circle, Equiv, HLevel, Id, PropTrunc, SetTrunc, Trunc, Universe, BASE, U0, U1, U2, U3};

/// Test 1: Identity type basics (refl, sym, trans)
#[test]
fn test_identity_type_basics() {
    // Reflexivity: a = a
    let r: Id<i32, i32> = refl::<i32>();
    assert_eq!(r.witness(), "refl");
    // Symmetry: (a = b) → (b = a)
    let p: Id<i32, String> = Id::new("p");
    let p_inv: Id<String, i32> = sym(p);
    assert_eq!(p_inv.witness(), "sym(p)");
    // Transitivity: (a = b) → (b = c) → (a = c)
    let q: Id<i32, i32> = Id::new("q");
    let r2: Id<i32, i32> = Id::new("r");
    let qr: Id<i32, i32> = trans(q, r2);
    assert_eq!(qr.witness(), "trans(q, r)");
    // Inverse laws produce witnesses
    let p2: Id<i32, String> = Id::new("p2");
    let inv_l = inv_left(p2.clone());
    assert!(inv_l.witness().contains("sym"));
    assert!(inv_l.witness().contains("trans"));
    let inv_r = inv_right(p2);
    assert!(inv_r.witness().contains("sym"));
    assert!(inv_r.witness().contains("trans"));
}
/// Test 2: Path composition (groupoid structure)
#[test]
fn test_path_composition() {
    // Test associativity witness: (p ∙ q) ∙ r = p ∙ (q ∙ r)
    let p: Id<i32, i32> = Id::new("p");
    let q: Id<i32, i32> = Id::new("q");
    let r: Id<i32, i32> = Id::new("r");
    let pq = trans(p.clone(), q.clone());
    let pq_r = trans(pq, r.clone());
    assert_eq!(pq_r.witness(), "trans(trans(p, q), r)");
    let qr = trans(q.clone(), r.clone());
    let p_qr = trans(p.clone(), qr);
    assert_eq!(p_qr.witness(), "trans(p, trans(q, r))");
    // Both witnesses are different syntactically but equal semantically
    // (In real HoTT, this would be a path between paths — 2-path)
    // Reflexivity as identity for composition
    let refl_i = refl::<i32>();
    let refl_p = trans(refl_i, p.clone());
    assert!(refl_p.witness().contains("refl"));
    assert!(refl_p.witness().contains("p"));
    // Universe hierarchy
    assert_eq!(U0::LEVEL, 0);
    assert_eq!(U1::LEVEL, 1);
    assert_eq!(U2::LEVEL, 2);
    assert_eq!(U3::LEVEL, 3);
    // Cumulativity
    assert!(U0::LEVEL < U1::LEVEL);
    assert!(U1::LEVEL < U2::LEVEL);
}
/// Test 3: Equivalence construction
#[test]
fn test_equivalence_construction() {
    // Identity equivalence: A ≃ A
    let id_eq = id_equiv::<i32>();
    assert_eq!(id_eq.forward(42), 42);
    assert_eq!(id_eq.backward(42), 42);
    // Non-trivial equivalence: i32 ≃ i32 via doubling
    let double = Equiv::new(|x: i32| x * 2, |y: i32| y / 2);
    assert_eq!(double.forward(21), 42);
    assert_eq!(double.backward(42), 21);
    // Invert equivalence
    let double_inv = double.inverse();
    assert_eq!(double_inv.forward(42), 21);
    assert_eq!(double_inv.backward(21), 42);
    // Compose equivalences
    let add_ten = Equiv::new(|x: i32| x + 10, |y: i32| y - 10);
    let double2 = Equiv::new(|x: i32| x * 2, |y: i32| y / 2);
    let composed = compose_equiv(add_ten, double2);
    // (x + 10) * 2
    assert_eq!(composed.forward(5), 30);  // (5 + 10) * 2 = 30
    // (y / 2) - 10
    assert_eq!(composed.backward(30), 5);  // (30 / 2) - 10 = 5
    // Univalence: equivalence → path
    let eq = id_equiv::<i32>();
    let path = ua(eq);
    assert_eq!(path.witness(), "ua(equiv)");
}
/// Test 4: Transport along paths
#[test]
fn test_transport_along_paths() {
    // Transport trivial (type doesn't depend on path)
    let path: Id<i32, i32> = refl::<i32>();
    let x = 42;
    let y = transport_trivial::<i32, i32, i32>(path, x);
    assert_eq!(y, 42);
    // Transport with user lift
    let path2: Id<i32, String> = Id::new("p");
    let val = 10;
    let lifted = transport(path2, val, |v: i32| v * 2);
    assert_eq!(lifted, 20);
    // H-level classification
    assert!(is_set::<i32>());
    assert!(is_set::<String>());
    assert!(!is_prop::<i32>());  // i32 has multiple inhabitants
    // Truncation
    let truncated: SetTrunc<i32> = Trunc::new(42);
    assert_eq!(*truncated.value(), 42);
    let prop_trunc: PropTrunc<String> = Trunc::new("hello".to_string());
    assert_eq!(prop_trunc.value(), "hello");
    // Path with different types
    let p_str: Id<i32, String> = Id::new("int_to_string");
    assert_eq!(p_str.witness(), "int_to_string");
}
/// Test 5: Higher Inductive Type — Circle S¹
#[test]
fn test_higher_inductive_circle() {
    // Circle has base point
    assert_eq!(BASE, Circle);
    // Circle has loop: base = base
    let l = loop_path();
    assert_eq!(l.witness(), "loop : base = base");
    // Loop is a non-trivial path (different from refl)
    let r = refl::<Circle>();
    assert_eq!(r.witness(), "refl");
    assert_ne!(l.witness(), r.witness());
    // Circle recursor: S¹ → X given base image and loop image
    let rec_fn = circle_rec(
        42,
        refl::<i32>(),  // trivial loop in target
    );
    assert_eq!(rec_fn(BASE), 42);
    // Compose loop with itself: loop ∙ loop
    let loop2 = trans(loop_path(), loop_path());
    assert_eq!(loop2.witness(), "trans(loop : base = base, loop : base = base)");
    // Inverse of loop: loop^{-1}
    let loop_inv = sym(loop_path());
    assert_eq!(loop_inv.witness(), "sym(loop : base = base)");
    // Higher h-levels
    assert_eq!(HLevel::SetLevel, HLevel::SetLevel);
    assert_eq!(HLevel::Groupoid, HLevel::Groupoid);
    assert_ne!(HLevel::SetLevel, HLevel::Groupoid);
    // Higher groupoid
    let hg = HLevel::Higher(5);
    assert!(matches!(hg, HLevel::Higher(5)));
}
