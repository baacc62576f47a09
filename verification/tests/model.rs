use mal::model::semantics::{
    downward_lowenheim_skolem, elementary_equivalent_on, finite_satisfiability_check, models, models_theory,
    satisfies, Assignment, Structure,
};
use mal::model::{equivalence_relation_theory, linear_order_theory, Formula, Signature, Term, Theory};

type Fun = Box<dyn Fn(&[String]) -> String + Send + Sync>;
type Rel = Box<dyn Fn(&[String]) -> bool + Send + Sync>;
type Model = Structure<Fun, Rel>;

/// The structure of natural numbers {0, 1, 2} with a capped successor and ≤.
fn build_nat_structure() -> Model {
    Model::new(vec!["0".into(), "1".into(), "2".into()])
        .add_constant("zero", "0")
        .add_function(
            "succ",
            Box::new(|args: &[String]| match args[0].as_str() {
                "0" => "1".to_string(),
                "1" => "2".to_string(),
                "2" => "2".to_string(),
                _ => "0".to_string(),
            }),
        )
        .add_relation(
            "leq",
            Box::new(|args: &[String]| {
                let ord = |s: &str| match s {
                    "0" => 0,
                    "1" => 1,
                    "2" => 2,
                    _ => 3,
                };
                ord(&args[0]) <= ord(&args[1])
            }),
        )
}

#[test]
fn test_structure_satisfaction() {
    let m = build_nat_structure();
    let zero_eq_zero = Formula::eq(Term::constant("zero"), Term::constant("zero"));
    assert!(models(&m, &zero_eq_zero));
    let zero_eq_succ_zero = Formula::eq(Term::constant("zero"), Term::func("succ", vec![Term::constant("zero")]));
    assert!(!models(&m, &zero_eq_succ_zero));
    let leq_0_1 =
        Formula::rel("leq", vec![Term::constant("zero"), Term::func("succ", vec![Term::constant("zero")])]);
    assert!(models(&m, &leq_0_1));
    let mut assign: Assignment = Vec::new();
    assign.push(("x".to_string(), "1".to_string()));
    let x_eq_1 = Formula::eq(Term::var("x"), Term::func("succ", vec![Term::constant("zero")]));
    assert!(satisfies(&m, &x_eq_1, &assign));
    let sig = Signature::new().add_function("succ", 1).add_relation("leq", 2).add_constant("zero");
    assert_eq!(sig.function_arity("succ"), Some(1));
    assert_eq!(sig.relation_arity("leq"), Some(2));
    assert!(sig.constants.contains(&"zero".to_string()));
}

#[test]
fn test_first_order_evaluation() {
    let m = build_nat_structure();
    let refl = Formula::forall_("x", Formula::rel("leq", vec![Term::var("x"), Term::var("x")]));
    assert!(models(&m, &refl));
    assert!(refl.is_sentence());
    let exists_zero = Formula::exists_("x", Formula::eq(Term::var("x"), Term::constant("zero")));
    assert!(models(&m, &exists_zero));
    let all_zero = Formula::forall_("x", Formula::eq(Term::var("x"), Term::constant("zero")));
    assert!(!models(&m, &all_zero));
    let no_preimage = Formula::exists_(
        "x",
        Formula::eq(Term::func("succ", vec![Term::var("x")]), Term::constant("zero")),
    );
    assert!(!models(&m, &no_preimage));
    let leq_zero_implies_zero = Formula::forall_(
        "x",
        Formula::impl_(
            Formula::rel("leq", vec![Term::var("x"), Term::constant("zero")]),
            Formula::eq(Term::var("x"), Term::constant("zero")),
        ),
    );
    assert!(models(&m, &leq_zero_implies_zero));
    let covers_all = Formula::forall_(
        "x",
        Formula::or(
            Formula::or(
                Formula::eq(Term::var("x"), Term::constant("zero")),
                Formula::eq(Term::var("x"), Term::func("succ", vec![Term::constant("zero")])),
            ),
            Formula::eq(
                Term::var("x"),
                Term::func("succ", vec![Term::func("succ", vec![Term::constant("zero")])]),
            ),
        ),
    );
    assert!(models(&m, &covers_all));
}

#[test]
fn test_elementary_equivalence() {
    let m1 = build_nat_structure();
    let m2 = Model::new(vec!["a".into(), "b".into(), "c".into()])
        .add_constant("zero", "a")
        .add_function(
            "succ",
            Box::new(|args: &[String]| match args[0].as_str() {
                "a" => "b".to_string(),
                "b" => "c".to_string(),
                "c" => "c".to_string(),
                _ => "a".to_string(),
            }),
        )
        .add_relation(
            "leq",
            Box::new(|args: &[String]| {
                let ord = |s: &str| match s {
                    "a" => 0,
                    "b" => 1,
                    "c" => 2,
                    _ => 3,
                };
                ord(&args[0]) <= ord(&args[1])
            }),
        );
    assert_ne!(m1.domain, m2.domain);
    let sentences = vec![
        Formula::forall_("x", Formula::rel("leq", vec![Term::var("x"), Term::var("x")])),
        Formula::exists_("x", Formula::forall_("y", Formula::rel("leq", vec![Term::var("x"), Term::var("y")]))),
    ];
    assert!(elementary_equivalent_on(&m1, &m2, &sentences));
    let eq_struct = Model::new(vec!["a".into(), "b".into()])
        .add_relation("R", Box::new(|args: &[String]| args[0] == args[1]));
    let eq_theory = equivalence_relation_theory("R");
    assert!(models_theory(&eq_struct, &eq_theory));
    let all_rel = Model::new(vec!["a".into(), "b".into()]).add_relation("R", Box::new(|_args: &[String]| true));
    assert!(models_theory(&all_rel, &eq_theory));
}

#[test]
fn test_lowenheim_skolem() {
    let m = build_nat_structure();
    assert_eq!(m.size(), 3);
    let sub = downward_lowenheim_skolem(&m, 2);
    assert!(sub.is_some());
    let sub = sub.unwrap();
    assert_eq!(sub.size(), 2);
    assert_eq!(sub.domain, vec!["0".to_string(), "1".to_string()]);
    let sub1 = downward_lowenheim_skolem(&m, 1);
    assert!(sub1.is_some());
    assert_eq!(sub1.unwrap().size(), 1);
    let sub_big = downward_lowenheim_skolem(&m, 10);
    assert!(sub_big.is_some());
    assert_eq!(sub_big.unwrap().size(), 3);
    let sub_zero = downward_lowenheim_skolem(&m, 0);
    assert!(sub_zero.is_none());
    let empty = Model::new(vec![]);
    let sub_empty = downward_lowenheim_skolem(&empty, 5);
    assert!(sub_empty.is_none());
}

#[test]
fn test_compactness_finite() {
    let lo_theory = linear_order_theory("leq");
    let lo_model = Model::new(vec!["a".into(), "b".into()]).add_relation(
        "leq",
        Box::new(|args: &[String]| {
            let ord = |s: &str| match s {
                "a" => 0,
                "b" => 1,
                _ => 2,
            };
            ord(&args[0]) <= ord(&args[1])
        }),
    );
    assert!(models_theory(&lo_model, &lo_theory));
    let open_formula = Formula::rel("P", vec![Term::var("x"), Term::var("y")]);
    assert_eq!(open_formula.free_variables(), vec!["x".to_string(), "y".to_string()]);
    assert!(!open_formula.is_sentence());
    let closed =
        Formula::forall_("x", Formula::forall_("y", Formula::rel("P", vec![Term::var("x"), Term::var("y")])));
    assert_eq!(closed.free_variables(), Vec::<String>::new());
    assert!(closed.is_sentence());
    let finite_subset = vec![lo_theory[0].clone()];
    let trivial_model = Model::new(vec!["a".into()]).add_relation("leq", Box::new(|_args: &[String]| true));
    assert!(models_theory(&trivial_model, &finite_subset));
    let result: Option<Model> = finite_satisfiability_check(&lo_theory, &Signature::new(), 5);
    assert!(result.is_none());
    let t = Term::func("f", vec![Term::var("x"), Term::constant("c")]);
    assert_eq!(t.variables(), vec!["x".to_string()]);
    let mut theory: Theory = Vec::new();
    theory.push(Formula::forall_("x", Formula::eq(Term::var("x"), Term::var("x"))));
    assert_eq!(theory.len(), 1);
    assert!(theory[0].is_sentence());
}

#[test]
fn open_formulas_are_not_modeled_and_interpretations_are_looked_up() {
    let m = build_nat_structure();
    let open = Formula::eq(Term::var("x"), Term::var("x"));
    assert!(!models(&m, &open));
    let mut assign: Assignment = Vec::new();
    assign.push(("x".to_string(), "2".to_string()));
    assign.push(("x".to_string(), "0".to_string()));
    assert!(satisfies(&m, &Formula::eq(Term::var("x"), Term::constant("zero")), &assign));
    assert!(!satisfies(&m, &Formula::eq(Term::var("y"), Term::var("y")), &assign));
    assert!(!satisfies(&m, &Formula::rel("undefined", vec![]), &assign));
    assert!(!satisfies(&m, &Formula::eq(Term::func("nope", vec![]), Term::func("nope", vec![])), &assign));
    assert!(satisfies(&m, &Formula::True, &assign));
    assert!(!satisfies(&m, &Formula::not(Formula::True), &assign));
    assert!(satisfies(&m, &Formula::and(Formula::True, Formula::or(Formula::False, Formula::True)), &assign));
    assert_eq!(m.interpret_function("succ", &["1".to_string()]), Some("2".to_string()));
    assert_eq!(m.interpret_function("pred", &["1".to_string()]), None);
    assert_eq!(m.interpret_relation("leq", &["2".to_string(), "1".to_string()]), Some(false));
    assert_eq!(m.interpret_constant("zero"), Some(&"0".to_string()));
    assert!(m.in_domain("2") && !m.in_domain("3"));
    let empty = Model::new(vec![]);
    assert!(models(&empty, &Formula::forall_("x", Formula::False)));
    assert!(!models(&empty, &Formula::exists_("x", Formula::True)));
}

#[test]
fn substructure_keeps_only_constants_inside_it() {
    let m = Model::new(vec!["0".into(), "1".into(), "2".into()])
        .add_constant("zero", "0")
        .add_constant("two", "2")
        .add_constant("one", "2")
        .add_constant("one", "1")
        .add_constant("z", "0")
        .add_constant("z", "2");
    let sub = downward_lowenheim_skolem(&m, 2).unwrap();
    assert_eq!(sub.interpret_constant("zero"), Some(&"0".to_string()));
    assert_eq!(sub.interpret_constant("one"), Some(&"1".to_string()));
    assert_eq!(sub.interpret_constant("two"), None);
    assert_eq!(sub.interpret_constant("z"), None);
    assert!(sub.functions.is_empty() && sub.relations.is_empty());
}

#[test]
fn substructure_keeps_the_interpretations() {
    let m = build_nat_structure();
    let sub = downward_lowenheim_skolem(&m, 2).unwrap();
    assert_eq!(sub.relations.len(), 1);
    assert_eq!(sub.functions.len(), 1);
    assert_eq!(sub.interpret_relation("leq", &["1".to_string(), "0".to_string()]), Some(false));
    assert_eq!(sub.interpret_function("succ", &["0".to_string()]), Some("1".to_string()));
    let refl = Formula::forall_("x", Formula::rel("leq", vec![Term::var("x"), Term::var("x")]));
    assert!(models(&sub, &refl));
    let top = Formula::exists_("x", Formula::forall_("y", Formula::rel("leq", vec![Term::var("y"), Term::var("x")])));
    assert!(models(&sub, &top));
}

#[test]
fn linear_order_theory_needs_all_four_axioms() {
    let lo = linear_order_theory("R");
    let rank = |s: &str| match s {
        "a" => 0,
        "b" => 1,
        _ => 2,
    };
    let order = Model::new(vec!["a".into(), "b".into(), "c".into()])
        .add_relation("R", Box::new(move |args: &[String]| rank(&args[0]) <= rank(&args[1])));
    assert!(models_theory(&order, &lo));
    // Strict order: not reflexive.
    let strict = Model::new(vec!["a".into(), "b".into()])
        .add_relation("R", Box::new(move |args: &[String]| rank(&args[0]) < rank(&args[1])));
    assert!(!models_theory(&strict, &lo));
    // Equality only: reflexive, antisymmetric, transitive, not total.
    let discrete = Model::new(vec!["a".into(), "b".into()])
        .add_relation("R", Box::new(|args: &[String]| args[0] == args[1]));
    assert!(!models_theory(&discrete, &lo));
    // Everything related: total, not antisymmetric.
    let full = Model::new(vec!["a".into(), "b".into()]).add_relation("R", Box::new(|_: &[String]| true));
    assert!(!models_theory(&full, &lo));
}
