use mal::dependent::{and, arrow, refl, sym, trans, Add, Equals, Nat, Or, Proof, Sigma, Subset, Vector, _0, _1, _2, _3, _4, _5};

/// Test 1: Type-level natural numbers (Peano)
#[test]
fn test_nat_type_level() {
    // Compile-time: _0, _1, _2, _3, _4, _5 exist
    assert_eq!(<_0 as Nat>::to_usize(), 0);
    assert_eq!(<_1 as Nat>::to_usize(), 1);
    assert_eq!(<_2 as Nat>::to_usize(), 2);
    assert_eq!(<_3 as Nat>::to_usize(), 3);
    assert_eq!(<_4 as Nat>::to_usize(), 4);
    assert_eq!(<_5 as Nat>::to_usize(), 5);
    // Type-level addition: 2 + 3 = 5
    // Qualified path: use fully qualified syntax
    assert_eq!(<<_2 as Add<_3>>::Result as Nat>::to_usize(), 5);
    // Compile-time check: _2 + _3 = _5
    // (This is a proof that addition works)
}
/// Test 2: Length-indexed Vector operations
#[test]
fn test_vector_operations() {
    // Empty vector: Vector<i32, _0>
    let v0: Vector<i32, _0> = Vector::empty();
    assert_eq!(v0.len(), 0);
    // Push: Vector<i32, _0> -> Vector<i32, _1>
    let v1 = v0.push(10);
    assert_eq!(v1.len(), 1);
    assert_eq!(*v1.head(), 10);
    // Push more: -> Vector<i32, _3>
    let v3 = v1.push(20).push(30);
    assert_eq!(v3.len(), 3);
    assert_eq!(*v3.head(), 10);
    // Tail: Vector<i32, _3> -> Vector<i32, _2>
    let v2 = v3.tail();
    assert_eq!(v2.len(), 2);
    assert_eq!(*v2.head(), 20);
    // Pop: Vector<i32, _2> -> (Vector<i32, _1>, i32)
    let (v1_again, last) = v2.pop();
    assert_eq!(last, 30);
    assert_eq!(v1_again.len(), 1);
}
/// Test 3: Pi-type application (dependent function)
#[test]
fn test_pi_type_application() {
    // Non-dependent Pi: i32 -> i32
    let double = arrow(|x: i32| x * 2);
    assert_eq!(double.apply(5), 10);
    assert_eq!(double.apply(0), 0);
    // Composed Pi functions: (i32 -> i32) . (i32 -> i32)
    let increment = arrow(|x: i32| x + 1);
    let double_then_inc = arrow(move |x: i32| increment.apply(double.apply(x)));
    assert_eq!(double_then_inc.apply(5), 11);  // (5 * 2) + 1
    // Pi-type with String domain
    let length = arrow(|s: String| s.len());
    assert_eq!(length.apply("hello".to_string()), 5);
}
/// Test 4: Sigma-type construction (dependent pair)
#[test]
fn test_sigma_type_construction() {
    // Simple Sigma: (i32, String)
    let pair: Sigma<i32, String> = Sigma::new(42, "hello".to_string());
    assert_eq!(*pair.fst(), 42);
    assert_eq!(pair.snd(), "hello");
    // Map first component
    let mapped = pair.map_fst(|x| x * 2);
    assert_eq!(*mapped.fst(), 84);
    // Dependent Sigma: (n: Nat, Vector<i32, n>)
    // This demonstrates the dependent nature: the second component's
    // type depends on the value of the first
    let v3: Vector<i32, _3> = Vector::empty().push(1).push(2).push(3);
    let dependent: Sigma<usize, Vector<i32, _3>> = Sigma::new(3, v3);
    assert_eq!(*dependent.fst(), 3);
    assert_eq!(dependent.snd().len(), 3);
    // Map second component
    let mapped_snd = dependent.map_snd(|v| v.len());
    assert_eq!(*mapped_snd.snd(), 3);
}
/// Test 5: Proof construction (Curry-Howard)
#[test]
fn test_proof_construction() {
    // Proposition: Equals<i32, i32>
    let refl_proof: Proof<Equals<i32, i32>> = refl::<i32>();
    assert_eq!(refl_proof.witness(), "refl");
    // Symmetry: Equals<i32, i32> -> Equals<i32, i32>
    let sym_proof = sym(refl_proof);
    assert_eq!(sym_proof.witness(), "sym(refl)");
    // Transitivity: chain two equalities
    let ab: Proof<Equals<i32, i32>> = refl::<i32>();
    let bc: Proof<Equals<i32, i32>> = refl::<i32>();
    let ac = trans(ab, bc);
    assert_eq!(ac.witness(), "trans(refl, refl)");
    // Implication: P -> Q
    struct P;
    struct Q;
    let p_proof: Proof<P> = Proof::new("p_axiom");
    let q_proof: Proof<Q> = mal::dependent::implies(p_proof, |_p: Proof<P>| Proof::new("q_derived_from_p"));
    assert_eq!(q_proof.witness(), "q_derived_from_p");
    // Conjunction: P /\ Q (Sigma type!)
    let p: Proof<P> = Proof::new("p");
    let q: Proof<Q> = Proof::new("q");
    let conj = and(p, q);
    assert_eq!(conj.fst().witness(), "p");
    assert_eq!(conj.snd().witness(), "q");
    // Disjunction: P \/ Q (Or enum)
    let left: Or<P, Q> = Or::Left(Proof::new("p_witness"));
    let right: Or<P, Q> = Or::Right(Proof::new("q_witness"));
    match left {
        Or::Left(p) => assert_eq!(p.witness(), "p_witness"),
        Or::Right(_) => panic!("Expected Left"),
    }
    match right {
        Or::Left(_) => panic!("Expected Right"),
        Or::Right(q) => assert_eq!(q.witness(), "q_witness"),
    }
    // Refinement type: {x: i32 | x > 0}
    let positive: Subset<i32, String> = Subset::new(
        42,
        Proof::new("42 > 0 verified"),
    );
    assert_eq!(*positive.value(), 42);
    assert!(positive.proof_term().witness().contains("42 > 0"));
}

#[test]
fn dependent_vector_get_and_subset_parts() {
    let v: Vector<i32, _2> = Vector::empty().push(7).push(8);
    assert_eq!(v.get(1), Some(&8));
    assert_eq!(v.get(2), None);
    assert!(!v.is_empty());
    let s: Subset<u8, String> = Subset::new(3, Proof::new("small"));
    let (value, proof) = s.into_inner();
    assert_eq!(value, 3);
    assert_eq!(proof.witness(), "small");
    let _e: Equals<u8, u8> = Equals::new();
    let t = trans(sym(refl::<u8>()), refl::<u8>());
    assert_eq!(t.witness(), "trans(sym(refl), refl)");
}
