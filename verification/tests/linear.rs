use mal::linear::{limp, tensor_elim, tensor_intro, Bang, Linear, LinearProof, Par, Plus, Tensor, With};

/// Test 1: Linear consumption (resource must be used exactly once)
#[test]
fn test_linear_consumption() {
    // Create a linear resource
    let lin: Linear<i32> = Linear::new(42);
    assert!(lin.is_available());
    // Consume it exactly once
    let value = lin.consume();
    assert_eq!(value, 42);
    // After consumption, cannot be used again
    // (This would fail to compile in a true linear type system)
    // Map preserves linearity
    let lin2 = Linear::new(10);
    let lin3 = lin2.map(|x| x * 2);
    assert_eq!(lin3.consume(), 20);
}
/// Test 2: Tensor (⊗) — multiplicative conjunction
#[test]
fn test_tensor_split() {
    // Introduction: A ⊗ B from A and B
    let tensor: Tensor<i32, String> = Tensor::new(42, "hello".to_string());
    // Elimination: split into (A, B), both must be used
    let (a, b) = tensor.split();
    assert_eq!(a, 42);
    assert_eq!(b, "hello");
    // Bimap: transform both components
    let t2: Tensor<i32, i32> = Tensor::new(5, 10);
    let t3 = t2.bimap(|x| x * 2, |y| y + 1);
    let (a, b) = t3.split();
    assert_eq!(a, 10);
    assert_eq!(b, 11);
    // Linear proof using tensor
    // ⊢ (A ⊗ B) ⊸ (B ⊗ A)  (symmetry)
    let input: Tensor<i32, String> = Tensor::new(100, "world".to_string());
    let swapped: Tensor<String, i32> = tensor_elim(input, |a, b| Tensor::new(b, a));
    let (s, n) = swapped.split();
    assert_eq!(s, "world");
    assert_eq!(n, 100);
}
/// Test 3: Bang (!) — allows duplication and discarding
#[test]
fn test_bang_allows_duplication() {
    // !A can be duplicated (contraction)
    let bang: Bang<i32> = Bang::new(42);
    // Dereliction: !A ⊢ A
    assert_eq!(bang.derelict(), 42);
    // Contraction: !A ⊢ A ⊗ A
    let (a, b) = bang.contract();
    assert_eq!(a, 42);
    assert_eq!(b, 42);
    // Weakening: !A ⊢ () (discard is allowed)
    let bang2: Bang<i32> = Bang::new(99);
    bang2.weaken();  // No panic — discard is OK for !
    // Digging: !A ⊢ !!A
    let bang3: Bang<i32> = Bang::new(7);
    let bang_bang: Bang<Bang<i32>> = bang3.dig();
    assert_eq!(bang_bang.derelict().derelict(), 7);
    // Unlike Linear<T>, Bang<T> can be cloned freely
    let bang4: Bang<i32> = Bang::new(1);
    let bang5 = bang4.clone();
    assert_eq!(bang4.derelict(), 1);
    assert_eq!(bang5.derelict(), 1);
}
/// Test 4: Additive connectives (&, ⊕)
#[test]
fn test_additive_choice() {
    // With (&): both available, choose one
    let with: With<i32, String> = With::new(42, "hello".to_string());
    let chosen_fst = with.clone().fst();
    assert_eq!(chosen_fst, 42);
    let chosen_snd = with.snd();
    assert_eq!(chosen_snd, "hello");
    // Plus (⊕): I choose which to provide
    let plus_left: Plus<i32, String> = Plus::inl(42);
    assert!(plus_left.is_left());
    let plus_right: Plus<i32, String> = Plus::inr("hello".to_string());
    assert!(plus_right.is_right());
    // Elimination: handle both cases
    let result = plus_left.eliminate(
        |n| format!("number: {}", n),
        |s| format!("string: {}", s),
    );
    assert_eq!(result, "number: 42");
    // Bimap on Plus
    let plus: Plus<i32, i32> = Plus::inl(10);
    let mapped = plus.bimap(|x| x * 2, |y| y + 1);
    match mapped {
        Plus::Inl(v) => assert_eq!(v, 20),
        Plus::Inr(_) => panic!("Expected left"),
    }
    // Par (⅋): opponent chooses
    let par_left: Par<i32, String> = Par::left(42);
    assert!(par_left.is_left());
    let par_right: Par<i32, String> = Par::right("hello".to_string());
    assert!(par_right.is_right());
    // Elimination with refutations
    let result = par_left.eliminate(
        |n| format!("refuted: {}", n),
        |_s| panic!("should not reach here"),
    );
    assert_eq!(result, "refuted: 42");
}
/// Test 5: Linear logic soundness (proof construction)
#[test]
fn test_linear_logic_soundness() {
    // Proof: A ⊗ B ⊢ B ⊗ A (tensor commutativity)
    let proof1: LinearProof<String> = LinearProof::new("⊗-comm");
    assert_eq!(proof1.witness(), "⊗-comm");
    // Proof: !A ⊢ A ⊗ A (contraction)
    let bang: Bang<i32> = Bang::new(5);
    let (a, b) = bang.contract();
    assert_eq!(a, b);
    // Proof: A ⊸ (B ⊸ (A ⊗ B)) (currying)
    let curried = |a: i32| -> Box<dyn FnOnce(String) -> Tensor<i32, String>> {
        Box::new(move |b: String| Tensor::new(a, b))
    };
    let f = curried(42);
    let tensor = f("hello".to_string());
    let (n, s) = tensor.split();
    assert_eq!(n, 42);
    assert_eq!(s, "hello");
    // Proof: (A ⊕ B) ⊸ (B ⊕ A) (sum commutativity via eliminate)
    let input2: Plus<i32, String> = Plus::inl(20);
    let swapped2: Plus<String, i32> = input2.eliminate(
        |n| Plus::inr(n),
        |s| Plus::inl(s),
    );
    match swapped2 {
        Plus::Inr(n) => assert_eq!(n, 20),
        _ => panic!("Expected Inr"),
    }
    // Linear implication: A ⊸ B consumes A
    let result = limp(Linear::new(10), |lin: Linear<i32>| {
        let v = lin.consume();
        v * 2
    });
    assert_eq!(result, 20);
    // Tensor introduction and elimination compose
    let t: Tensor<i32, i32> = tensor_intro(3, 4);
    let sum: i32 = tensor_elim(t, |a, b| a + b);
    assert_eq!(sum, 7);
}

#[test]
fn linear_map_fst_snd_and_projections() {
    let t = Tensor::new(1, 2).map_fst(|x| x + 10).map_snd(|y| y * 3);
    assert_eq!(t.split(), (11, 6));
    let w = With::new(5, "five".to_string());
    assert_eq!(*w.project_fst(), 5);
    assert_eq!(w.project_snd(), "five");
    let p: Par<i32, i32> = Par::right(9);
    assert!(!p.is_left());
    assert_eq!(p.eliminate(|_| 0, |b| b + 1), 10);
    let l = Linear::new(3);
    assert!(l.is_available());
    assert_eq!(l.consume(), 3);
}
