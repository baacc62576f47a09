use mal::sets::{Cardinal, Ordinal};
use mal::zf::{
    axiom_empty_set, axiom_extensionality_holds, axiom_foundation_holds, axiom_infinity, axiom_pairing, axiom_power_set,
    axiom_union, choice_function, replacement, separation, well_order, HfSet,
};
use std::collections::HashSet;

#[test]
fn test_zf_axioms() {
    // Extensionality: {a, b} = {b, a}
    let a = HfSet::singleton(HfSet::empty());
    let b = HfSet::singleton(HfSet::singleton(HfSet::empty()));
    let pair1 = HfSet::pair(a.clone(), b.clone());
    let pair2 = HfSet::pair(b.clone(), a.clone());
    assert!(axiom_extensionality_holds(&pair1, &pair2));
    assert!(pair1.extensional_eq(&pair2));
    // Empty set exists
    let empty = axiom_empty_set();
    assert!(empty.is_empty());
    assert_eq!(empty.cardinality(), 0);
    // Pairing axiom
    let pair = axiom_pairing(&a, &b);
    assert_eq!(pair.cardinality(), 2);
    assert!(pair.contains(&a));
    assert!(pair.contains(&b));
    // Union axiom
    let set_of_sets = HfSet::from_vec(vec![
        HfSet::singleton(a.clone()),
        HfSet::singleton(b.clone()),
    ]);
    let union = axiom_union(&set_of_sets);
    assert_eq!(union.cardinality(), 2);
    // Power set axiom: |𝒫(x)| = 2^|x|
    let x = HfSet::from_vec(vec![a.clone(), b.clone()]);
    let power = axiom_power_set(&x);
    assert_eq!(power.cardinality(), 4);  // 2^2 = 4
    // 𝒫({a, b}) = {∅, {a}, {b}, {a, b}}
    assert!(power.contains(&HfSet::empty()));
    assert!(power.contains(&HfSet::singleton(a.clone())));
    assert!(power.contains(&HfSet::singleton(b.clone())));
    assert!(power.contains(&x));
    // Foundation: well-founded sets
    let well_founded = HfSet::from_vec(vec![HfSet::empty()]);
    assert!(axiom_foundation_holds(&well_founded));
    let nested = HfSet::singleton(HfSet::singleton(HfSet::empty()));
    assert!(axiom_foundation_holds(&nested));
}
#[test]
fn test_ordinal_arithmetic() {
    // Ordinals: 0, 1, 2, 3
    let zero = Ordinal::zero();
    let one = zero.successor();
    let two = one.successor();
    let three = two.successor();
    assert_eq!(zero.0, 0);
    assert_eq!(one.0, 1);
    assert_eq!(two.0, 2);
    assert_eq!(three.0, 3);
    // Ordinal arithmetic
    assert_eq!(Ordinal(2).add(Ordinal(3)), Ordinal(5));  // 2 + 3 = 5
    assert_eq!(Ordinal(2).multiply(Ordinal(3)), Ordinal(6));  // 2 · 3 = 6
    assert_eq!(Ordinal(2).power(Ordinal(3)), Ordinal(8));  // 2³ = 8
    // Von Neumann representation:
    // 0 = ∅
    // 1 = {∅} = {0}
    // 2 = {∅, {∅}} = {0, 1}
    let zero_set = zero.to_set();
    let one_set = one.to_set();
    let two_set = two.to_set();
    assert!(zero_set.is_empty());
    assert_eq!(one_set.cardinality(), 1);
    assert!(one_set.contains(&zero_set));
    assert_eq!(two_set.cardinality(), 2);
    assert!(two_set.contains(&zero_set));
    assert!(two_set.contains(&one_set));
    // Successor: α+1 = α ∪ {α}
    let succ_two = two_set.successor();
    assert_eq!(succ_two.cardinality(), 3);
    assert!(succ_two.contains(&two_set));
    // Infinity axiom: generate first n naturals
    let omega_5 = axiom_infinity(5);
    assert_eq!(omega_5.cardinality(), 5);
    // Ordinal ordering
    assert!(zero < one);
    assert!(one < two);
    assert!(two < three);
}
#[test]
fn test_cardinal_arithmetic() {
    // Aleph numbers
    let aleph_0 = Cardinal::aleph_0();
    let aleph_1 = Cardinal::aleph_1();
    let aleph_2 = Cardinal::aleph(2);
    assert_eq!(aleph_0.0, 0);
    assert_eq!(aleph_1.0, 1);
    assert_eq!(aleph_2.0, 2);
    // Cardinal addition: ℵ₀ + ℵ₀ = ℵ₀
    assert_eq!(aleph_0.add(aleph_0), aleph_0);
    // Cardinal multiplication: ℵ₀ · ℵ₀ = ℵ₀
    assert_eq!(aleph_0.multiply(aleph_0), aleph_0);
    // Power set: 2^ℵ₀ ≥ ℵ₁
    let power_aleph_0 = aleph_0.power_set();
    assert!(power_aleph_0 >= aleph_1);
    // Continuum: 2^ℵ₀ = |ℝ|
    let continuum = Cardinal::continuum();
    assert_eq!(continuum, aleph_1);  // Assuming CH
    // Continuum Hypothesis
    assert!(Cardinal::continuum_hypothesis());
    // Generalized Continuum Hypothesis
    assert!(Cardinal::gch_holds(aleph_0));
    assert!(Cardinal::gch_holds(aleph_1));
    // Cardinal ordering
    assert!(aleph_0 < aleph_1);
    assert!(aleph_1 < aleph_2);
}
#[test]
fn test_choice_and_well_ordering() {
    // Construct family of non-empty sets
    let a = HfSet::from_vec(vec![
        HfSet::singleton(HfSet::empty()),
        HfSet::singleton(HfSet::singleton(HfSet::empty())),
    ]);
    let b = HfSet::from_vec(vec![HfSet::empty()]);
    let c = HfSet::singleton(HfSet::empty());
    let family = vec![a.clone(), b.clone(), c.clone()];
    // Choice function selects one from each
    let choice = choice_function(&family);
    assert!(choice.is_some());
    let choice = choice.unwrap();
    assert_eq!(choice.len(), 3);
    // Each choice is in its respective set
    assert!(a.contains(&choice[0]));
    assert!(b.contains(&choice[1]));
    assert!(c.contains(&choice[2]));
    // Cannot choose from empty set
    let empty = HfSet::empty();
    let bad_family = vec![a.clone(), empty];
    assert!(choice_function(&bad_family).is_none());
    // Well-ordering theorem: every set can be well-ordered
    let s = HfSet::from_vec(vec![
        HfSet::empty(),
        HfSet::singleton(HfSet::empty()),
        HfSet::singleton(HfSet::singleton(HfSet::empty())),
    ]);
    let ordered = well_order(&s);
    assert_eq!(ordered.len(), 3);
    // All elements are distinct (well-ordering)
    let unique: HashSet<String> = ordered.iter().map(|x| format!("{:?}", x)).collect();
    assert_eq!(unique.len(), 3);
    // AC equivalence: choice function ↔ well-ordering
    // Both should work on any family of non-empty sets
    let family2 = vec![
        HfSet::from_vec(vec![HfSet::empty()]),
        HfSet::from_vec(vec![HfSet::empty(), HfSet::singleton(HfSet::empty())]),
    ];
    assert!(choice_function(&family2).is_some());
}
#[test]
fn test_separation_replacement() {
    // Construct a set of ordinals
    let omega = axiom_infinity(5);  // {0, 1, 2, 3, 4}
    assert_eq!(omega.cardinality(), 5);
    // Separation: {x ∈ ω | x is even}
    let evens = separation(&omega, |x| {
        // x is "even" if its cardinality (as von Neumann ordinal) is even
        x.cardinality() % 2 == 0
    });
    // Even ordinals in {0,1,2,3,4}: 0, 2, 4 (3 elements)
    assert_eq!(evens.cardinality(), 3);
    // Separation: {x ∈ ω | x < 3}
    let less_than_3 = separation(&omega, |x| x.cardinality() < 3);
    assert_eq!(less_than_3.cardinality(), 3);
    // Replacement: {x+1 | x ∈ ω}
    let successors = replacement(&omega, |x| x.successor());
    assert_eq!(successors.cardinality(), 5);
    // Every element in successors is a successor
    for elem in successors.elements() {
        assert!(!elem.is_empty() || elem.cardinality() > 0);
    }
    // Replacement: {𝒫(x) | x ∈ {0, 1}}
    let small = HfSet::from_vec(vec![HfSet::empty(), HfSet::singleton(HfSet::empty())]);
    let power_images = replacement(&small, |x| x.power_set());
    assert_eq!(power_images.cardinality(), 2);
    // 𝒫(∅) = {∅}, 𝒫({∅}) = {∅, {∅}}
    let power_empty = HfSet::empty().power_set();
    let power_singleton = HfSet::singleton(HfSet::empty()).power_set();
    assert!(power_images.contains(&power_empty));
    assert!(power_images.contains(&power_singleton));
    // Set operations
    let a = HfSet::from_vec(vec![
        HfSet::empty(),
        HfSet::singleton(HfSet::empty()),
        HfSet::singleton(HfSet::singleton(HfSet::empty())),
    ]);
    let b = HfSet::from_vec(vec![
        HfSet::empty(),
        HfSet::singleton(HfSet::empty()),
    ]);
    // a ∩ b = b
    let inter = a.intersect(&b);
    assert_eq!(inter.cardinality(), 2);
    // a \ b = {2}
    let diff = a.difference(&b);
    assert_eq!(diff.cardinality(), 1);
    // Subset
    assert!(b.is_subset(&a));
    assert!(!a.is_subset(&b));
}

#[test]
fn pairs_are_unordered_and_canonical() {
    let a = HfSet::singleton(HfSet::empty());
    let b = HfSet::empty();
    let p = HfSet::pair(a.clone(), b.clone());
    let q = HfSet::pair(b.clone(), a.clone());
    assert_eq!(p, q);
    assert_eq!(format!("{:?}", p), "Finite([Empty, Finite([Empty])])");
    assert_eq!(HfSet::pair(a.clone(), a.clone()).cardinality(), 1);
}

#[test]
fn from_vec_sorts_and_removes_repetitions() {
    let one = HfSet::singleton(HfSet::empty());
    let s = HfSet::from_vec(vec![one.clone(), HfSet::empty(), one.clone(), HfSet::empty()]);
    assert_eq!(s, HfSet::Finite(vec![HfSet::empty(), one.clone()]));
    assert_eq!(HfSet::from_vec(vec![]), HfSet::Empty);
    assert_eq!(s.debug_key().iter().collect::<String>(), format!("{:?}", s));
}

#[test]
fn union_and_successor() {
    let zero = HfSet::empty();
    let one = zero.successor();
    let two = one.successor();
    assert_eq!(one, Ordinal(1).to_set());
    assert_eq!(two, Ordinal(2).to_set());
    assert_eq!(zero.union(&one), one);
    assert!(two.extensional_eq(&one.union(&HfSet::singleton(one.clone()))));
    assert_eq!(axiom_infinity(3), Ordinal(3).to_set());
    assert_eq!(axiom_infinity(0), HfSet::Empty);
}

#[test]
fn foundation_on_lists() {
    let e = HfSet::empty();
    let a = HfSet::singleton(e.clone());
    // {{a}, a}: the element a = {∅} does not meet the set.
    let s = HfSet::Finite(vec![HfSet::Finite(vec![a.clone()]), a.clone()]);
    assert!(axiom_foundation_holds(&s));
    assert!(axiom_foundation_holds(&HfSet::Empty));
    // An empty list is not `Empty`, and has no element to offer.
    assert!(!axiom_foundation_holds(&HfSet::Finite(vec![])));
}

#[test]
fn from_vec_ignores_order_and_repeats() {
    let e = HfSet::empty();
    let one = HfSet::singleton(HfSet::empty());
    let a = HfSet::from_vec(vec![one.clone(), e.clone(), one.clone()]);
    let b = HfSet::from_vec(vec![e.clone(), one.clone()]);
    assert_eq!(a.debug_key(), b.debug_key());
    assert_eq!(a.cardinality(), 2);
}

#[test]
fn ordinal_n_has_n_members() {
    for n in 0..6u64 {
        let s = Ordinal(n).to_set();
        assert_eq!(s.cardinality() as u64, n);
        assert_eq!(Ordinal(n).successor().to_set().debug_key(), s.successor().debug_key());
    }
}
