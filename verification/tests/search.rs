use mal::search::{
    dpll, resolution_refutation, resolve, tableau_prove, Clause, DPLLResult, Literal, ResolutionResult,
    TableauFormula, TableauNode, CNF,
};

#[test]
fn test_resolution_calculus() {
    // (A ∨ B) ∧ (¬A ∨ C) ⟹ B ∨ C
    let c1 = Clause::from_strs(&["A", "B"], &[]);
    let c2 = Clause::from_strs(&["C"], &["A"]);
    match resolve(&c1, &c2) {
        ResolutionResult::Resolvent(r) => {
            assert!(!r.is_empty());
            assert!(r.contains(&Literal::pos("B")) || r.contains(&Literal::pos("C")));
        }
        _ => panic!("Expected resolvent"),
    }
    // (A) ∧ (¬A) ⟹ ⊥
    let c_pos = Clause::from_strs(&["A"], &[]);
    let c_neg = Clause::from_strs(&[], &["A"]);
    match resolve(&c_pos, &c_neg) {
        ResolutionResult::Unsatisfiable => {}
        _ => panic!("Expected unsatisfiable"),
    }
    let taut = Clause::from_strs(&["A"], &["A"]);
    assert!(taut.is_tautology());
    let non_taut = Clause::from_strs(&["A", "B"], &[]);
    assert!(!non_taut.is_tautology());
    let unit = Clause::from_strs(&["X"], &[]);
    assert!(unit.is_unit());
    assert_eq!(unit.unit_literal(), Some(&Literal::pos("X")));
    let non_unit = Clause::from_strs(&["X", "Y"], &[]);
    assert!(!non_unit.is_unit());
}

#[test]
fn test_dpll_solver() {
    let sat_cnf = CNF::new(vec![
        Clause::from_strs(&["A", "B"], &[]),
        Clause::from_strs(&["B"], &["A"]),
    ]);
    match dpll(&sat_cnf) {
        DPLLResult::Satisfiable(assign) => {
            assert_eq!(assign.get("B"), Some(&true));
        }
        _ => panic!("Expected satisfiable"),
    }
    let unsat_cnf = CNF::new(vec![
        Clause::from_strs(&["A"], &[]),
        Clause::from_strs(&[], &["A"]),
    ]);
    assert!(matches!(dpll(&unsat_cnf), DPLLResult::Unsatisfiable));
    assert!(resolution_refutation(&unsat_cnf));
    let unit_cnf = CNF::new(vec![
        Clause::from_strs(&["A"], &[]),
        Clause::from_strs(&["A", "B"], &[]),
    ]);
    match dpll(&unit_cnf) {
        DPLLResult::Satisfiable(assign) => {
            assert_eq!(assign.get("A"), Some(&true));
        }
        _ => panic!("Expected satisfiable"),
    }
    let empty_cnf = CNF::empty();
    assert!(matches!(dpll(&empty_cnf), DPLLResult::Satisfiable(_)));
}

#[test]
fn test_tableau_method() {
    let formula = TableauFormula::impl_(TableauFormula::atom("A"), TableauFormula::atom("A"));
    assert!(tableau_prove(&formula));
    let lem = TableauFormula::or(
        TableauFormula::atom("A"),
        TableauFormula::not(TableauFormula::atom("A")),
    );
    assert!(tableau_prove(&lem));
    let contradiction = TableauFormula::and(
        TableauFormula::atom("A"),
        TableauFormula::not(TableauFormula::atom("A")),
    );
    assert!(!tableau_prove(&contradiction));
    let closed_node = TableauNode::new(vec![
        TableauFormula::atom("A"),
        TableauFormula::not(TableauFormula::atom("A")),
    ]);
    assert!(closed_node.is_closed());
    let open_node = TableauNode::new(vec![TableauFormula::atom("A"), TableauFormula::atom("B")]);
    assert!(!open_node.is_closed());
}

#[test]
fn test_cnf_operations() {
    let cnf = CNF::new(vec![
        Clause::from_strs(&["A", "B"], &[]),
        Clause::from_strs(&["C"], &["A"]),
        Clause::from_strs(&["D"], &[]),
    ]);
    let vars = cnf.variables();
    assert!(vars.contains("A"));
    assert!(vars.contains("B"));
    assert!(vars.contains("C"));
    assert!(vars.contains("D"));
    assert_eq!(vars.len(), 4);
    let units = cnf.unit_clauses();
    assert_eq!(units.len(), 1);
    assert_eq!(units[0], &Literal::pos("D"));
    let sub_cnf = cnf.substitute_true(&Literal::pos("A"));
    assert_eq!(sub_cnf.len(), 2);
    let unsat_cnf = CNF::new(vec![Clause::empty()]);
    assert!(unsat_cnf.contains_empty());
    let sat_cnf = CNF::new(vec![Clause::from_strs(&["A"], &[])]);
    assert!(!sat_cnf.contains_empty());
    let clause = Clause::from_strs(&["A", "B"], &["C"]);
    let sub = clause.substitute_true(&Literal::pos("A"));
    assert!(sub.is_none());
    let sub2 = clause.substitute_true(&Literal::pos("D"));
    assert!(sub2.is_some());
}

#[test]
fn test_proof_reconstruction() {
    let cnf = CNF::new(vec![
        Clause::from_strs(&["A", "B"], &[]),
        Clause::from_strs(&["C"], &["A"]),
        Clause::from_strs(&["C"], &["B"]),
        Clause::from_strs(&["D"], &["C"]),
    ]);
    match dpll(&cnf) {
        DPLLResult::Satisfiable(assign) => {
            for clause in &cnf.clauses {
                let mut satisfied = false;
                for lit in &clause.literals {
                    match lit {
                        Literal::Pos(var) => {
                            if assign.get(var) == Some(&true) {
                                satisfied = true;
                                break;
                            }
                        }
                        Literal::Neg(var) => {
                            if assign.get(var) == Some(&false) {
                                satisfied = true;
                                break;
                            }
                        }
                    }
                }
                assert!(satisfied, "Clause not satisfied: {:?}", clause);
            }
        }
        _ => panic!("Expected satisfiable"),
    }
    let unsat = CNF::new(vec![
        Clause::from_strs(&["A"], &[]),
        Clause::from_strs(&["B"], &[]),
        Clause::from_strs(&[], &["A", "B"]),
    ]);
    assert!(resolution_refutation(&unsat));
    assert!(matches!(dpll(&unsat), DPLLResult::Unsatisfiable));
    let pos = Literal::pos("X");
    let neg = Literal::neg("X");
    assert!(pos.is_complement(&neg));
    assert!(!pos.is_complement(&pos));
    assert_eq!(pos.negate(), neg);
    assert_eq!(neg.negate(), pos);
}

#[test]
fn resolvent_is_sorted_by_name_and_deduplicated() {
    let c1 = Clause::from_strs(&["Z", "A", "M"], &[]);
    let c2 = Clause::from_strs(&["M", "B"], &["A"]);
    match resolve(&c1, &c2) {
        ResolutionResult::Resolvent(r) => {
            assert_eq!(
                r.literals,
                vec![Literal::pos("B"), Literal::pos("M"), Literal::pos("Z")]
            );
        }
        _ => panic!("Expected resolvent"),
    }
    let d1 = Clause::from_strs(&["P"], &[]);
    let d2 = Clause::from_strs(&["Q"], &[]);
    assert!(matches!(resolve(&d1, &d2), ResolutionResult::NoResolution));
}

#[test]
fn refutation_saturates_on_satisfiable_input() {
    let cnf = CNF::new(vec![
        Clause::from_strs(&["A", "B"], &[]),
        Clause::from_strs(&["C"], &["A"]),
    ]);
    assert!(!resolution_refutation(&cnf));
    assert!(!resolution_refutation(&CNF::empty()));
}

#[test]
fn dpll_needs_branching() {
    // (A ∨ B) ∧ (¬A ∨ ¬B) ∧ (A ∨ ¬B) has no unit or pure literal at first.
    let cnf = CNF::new(vec![
        Clause::from_strs(&["A", "B"], &[]),
        Clause::from_strs(&[], &["A", "B"]),
        Clause::from_strs(&["A"], &["B"]),
        Clause::from_strs(&["B"], &["A"]),
    ]);
    assert!(matches!(dpll(&cnf), DPLLResult::Unsatisfiable));
    let sat = CNF::new(vec![
        Clause::from_strs(&["A", "B"], &[]),
        Clause::from_strs(&[], &["A", "B"]),
    ]);
    match dpll(&sat) {
        DPLLResult::Satisfiable(a) => {
            let va = *a.get("A").unwrap();
            let vb = *a.get("B").unwrap();
            assert!(va != vb);
        }
        _ => panic!("Expected satisfiable"),
    }
    assert!(matches!(dpll(&CNF::new(vec![Clause::empty()])), DPLLResult::Unsatisfiable));
}

#[test]
fn tableau_classic_laws() {
    let a = || TableauFormula::atom("A");
    let b = || TableauFormula::atom("B");
    // ¬(A ∧ B) → (¬A ∨ ¬B)
    let de_morgan = TableauFormula::impl_(
        TableauFormula::not(TableauFormula::and(a(), b())),
        TableauFormula::or(TableauFormula::not(a()), TableauFormula::not(b())),
    );
    assert!(tableau_prove(&de_morgan));
    // ((A → B) → A) → A
    let peirce = TableauFormula::impl_(
        TableauFormula::impl_(TableauFormula::impl_(a(), b()), a()),
        a(),
    );
    assert!(tableau_prove(&peirce));
    assert!(!tableau_prove(&TableauFormula::impl_(a(), b())));
    assert!(tableau_prove(&TableauFormula::not(TableauFormula::not(TableauFormula::or(a(), TableauFormula::not(a()))))));
}

#[test]
fn to_cnf_simplified_forms() {
    let f = TableauFormula::and(
        TableauFormula::atom("A"),
        TableauFormula::not(TableauFormula::atom("B")),
    );
    let c = f.to_cnf();
    assert_eq!(c.len(), 2);
    assert_eq!(c.clauses[0].literals, vec![Literal::pos("A")]);
    assert_eq!(c.clauses[1].literals, vec![Literal::neg("B")]);
    let g = TableauFormula::impl_(TableauFormula::atom("A"), TableauFormula::atom("B"));
    let d = g.to_cnf();
    assert_eq!(d.len(), 1);
    assert_eq!(d.clauses[0].literals, vec![Literal::neg("A"), Literal::pos("B")]);
    assert!(TableauFormula::not(TableauFormula::and(TableauFormula::atom("A"), TableauFormula::atom("B")))
        .to_cnf()
        .is_empty());
}

#[test]
fn refutation_of_a_formula_holding_the_empty_clause() {
    let cnf = CNF::new(vec![Clause::empty()]);
    assert!(resolution_refutation(&cnf));
    let with_others = CNF::new(vec![Clause::new(vec![Literal::pos("p")]), Clause::empty()]);
    assert!(resolution_refutation(&with_others));
}
