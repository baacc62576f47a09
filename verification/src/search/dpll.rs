//! The Davis–Putnam–Logemann–Loveland procedure: unit propagation, pure
//! literal elimination and branching on a variable.
use vstd::prelude::*;
use crate::search::logic::{
    assignment_satisfies, cnf_holds, has_empty_clause, lemma_assignment_extends, lemma_empty_clause_unsat,
    lemma_no_units, lemma_subst_complete, lemma_subst_mentions, lemma_subst_size, lemma_subst_sound,
    lemma_unit_holds, lemma_unit_mentioned, clause_holds, lit_assigned, lit_holds, mentions, neg_lit,
    satisfiable, size, subst_cnf, units, Assignment, Lit, Literal, CNF,
};

verus! {

/// Result of the DPLL procedure.
#[derive(Debug)]
pub enum DPLLResult {
    /// A partial assignment that makes some literal of every clause true.
    Satisfiable(Assignment),
    Unsatisfiable,
}

/// Every partial assignment that satisfies `cur` and agrees with `acc`
/// satisfies `orig`; the names given values in `acc` no longer occur in
/// `cur`.
pub open spec fn search_state(cur: Seq<Seq<Lit>>, acc: Map<Seq<char>, bool>, orig: Seq<Seq<Lit>>) -> bool {
    &&& forall|a: Map<Seq<char>, bool>|
        assignment_satisfies(a, cur) && #[trigger] agrees(a, acc) ==> assignment_satisfies(a, orig)
    &&& forall|x: Seq<char>| #[trigger] mentions(cur, x) ==> !acc.contains_key(x)
}

/// `a` gives every name of `acc` the value `acc` gives it.
pub open spec fn agrees(a: Map<Seq<char>, bool>, acc: Map<Seq<char>, bool>) -> bool {
    forall|k: Seq<char>| #[trigger] acc.contains_key(k) ==> a.contains_key(k) && a[k] == acc[k]
}

/// Making an occurring literal true keeps the search state.
proof fn lemma_step(cur: Seq<Seq<Lit>>, acc: Map<Seq<char>, bool>, orig: Seq<Seq<Lit>>, l: Lit)
    requires
        search_state(cur, acc, orig),
        mentions(cur, l.1),
    ensures
        search_state(subst_cnf(cur, l), acc.insert(l.1, l.0), orig),
{
    let acc2 = acc.insert(l.1, l.0);
    assert forall|a: Map<Seq<char>, bool>|
        assignment_satisfies(a, subst_cnf(cur, l)) && #[trigger] agrees(a, acc2) implies assignment_satisfies(a, orig) by {
        assert(acc2.contains_key(l.1));
        assert(a[l.1] == acc2[l.1]);
        assert(lit_assigned(a, l));
        lemma_subst_sound(a, cur, l);
        assert(!acc.contains_key(l.1));
        assert forall|k: Seq<char>| #[trigger] acc.contains_key(k) implies a.contains_key(k) && a[k] == acc[k] by {
            assert(acc2.contains_key(k));
            assert(a[k] == acc2[k]);
        }
        assert(agrees(a, acc));
    }
    assert forall|x: Seq<char>| #[trigger] mentions(subst_cnf(cur, l), x) implies !acc2.contains_key(x) by {
        lemma_subst_mentions(cur, l, x);
    }
}

/// Making a pure literal true keeps satisfiability.
proof fn lemma_pure(f: Seq<Seq<Lit>>, p: Lit)
    requires
        forall|j: int| 0 <= j < f.len() ==> !(#[trigger] f[j]).contains(neg_lit(p)),
        satisfiable(f),
    ensures
        satisfiable(subst_cnf(f, p)),
{
    let sigma = choose|sigma: spec_fn(Seq<char>) -> bool| #[trigger] cnf_holds(sigma, f);
    let tau = |x: Seq<char>| if x == p.1 { p.0 } else { sigma(x) };
    assert forall|j: int| 0 <= j < f.len() implies #[trigger] clause_holds(tau, f[j]) by {
        assert(clause_holds(sigma, f[j]));
        let i = choose|i: int| 0 <= i < f[j].len() && #[trigger] lit_holds(sigma, f[j][i]);
        let m = f[j][i];
        if m.1 == p.1 {
            if m.0 != p.0 {
                assert(m == (m.0, m.1));
                assert(m == neg_lit(p));
                assert(f[j].contains(neg_lit(p)));
            }
        }
        assert(lit_holds(tau, f[j][i]));
    }
    assert(lit_holds(tau, p));
    lemma_subst_complete(tau, f, p);
}

/// Branching on `l` and on its opposite covers every assignment.
proof fn lemma_split(f: Seq<Seq<Lit>>, l: Lit)
    requires
        !satisfiable(subst_cnf(f, l)),
        !satisfiable(subst_cnf(f, neg_lit(l))),
    ensures
        !satisfiable(f),
{
    assert forall|sigma: spec_fn(Seq<char>) -> bool| !#[trigger] cnf_holds(sigma, f) by {
        if cnf_holds(sigma, f) {
            if lit_holds(sigma, l) {
                lemma_subst_complete(sigma, f, l);
            } else {
                lemma_subst_complete(sigma, f, neg_lit(l));
            }
        }
    }
}

/// Unit propagation: repeatedly make the literal of the first unit clause
/// true, recording it in `acc`. `None` when an empty clause appears.
fn unit_propagate(cnf: &CNF, acc: &mut Assignment, Ghost(orig): Ghost<Seq<Seq<Lit>>>) -> (r: Option<CNF>)
    requires
        search_state(cnf@, old(acc)@, orig),
    ensures
        match r {
            None => !satisfiable(cnf@),
            Some(c) => {
                &&& search_state(c@, final(acc)@, orig)
                &&& (satisfiable(cnf@) ==> satisfiable(c@))
                &&& size(c@) <= size(cnf@)
            },
        },
{
    let mut current = cnf.clone();
    loop
        invariant
            search_state(current@, acc@, orig),
            satisfiable(cnf@) ==> satisfiable(current@),
            size(current@) <= size(cnf@),
        decreases size(current@),
    {
        let units_now = current.unit_clauses();
        if units_now.len() == 0 {
            break;
        }
        let unit = units_now[0].clone();
        proof {
            assert(units_now@.map_values(|l: &Literal| l@)[0] == unit@);
            lemma_unit_mentioned(current@, 0);
            lemma_step(current@, acc@, orig, unit@);
            lemma_subst_size(current@, unit@);
            if satisfiable(current@) {
                let sigma = choose|sigma: spec_fn(Seq<char>) -> bool| #[trigger] cnf_holds(sigma, current@);
                lemma_unit_holds(sigma, current@, 0);
                lemma_subst_complete(sigma, current@, unit@);
            }
        }
        acc.insert(unit.name().to_owned(), unit.is_positive());
        current = current.substitute_true(&unit);
        if current.contains_empty() {
            proof {
                lemma_empty_clause_unsat(current@);
            }
            return None;
        }
    }
    Some(current)
}

/// Whether some clause holds `lit`.
fn occurs(cnf: &CNF, lit: &Literal) -> (r: bool)
    ensures
        r == exists|j: int| 0 <= j < cnf@.len() && (#[trigger] cnf@[j]).contains(lit@),
{
    let mut j: usize = 0;
    while j < cnf.clauses.len()
        invariant
            j <= cnf@.len(),
            forall|k: int| 0 <= k < j ==> !(#[trigger] cnf@[k]).contains(lit@),
        decreases cnf@.len() - j,
    {
        if cnf.clauses[j].contains(lit) {
            assert(cnf@[j as int].contains(lit@));
            return true;
        }
        j = j + 1;
    }
    false
}

/// Pure literal elimination: while some variable occurs with one polarity
/// only, make that literal true, recording it in `acc`.
fn pure_literal_eliminate(cnf: &CNF, acc: &mut Assignment, Ghost(orig): Ghost<Seq<Seq<Lit>>>) -> (r: CNF)
    requires
        search_state(cnf@, old(acc)@, orig),
    ensures
        search_state(r@, final(acc)@, orig),
        satisfiable(cnf@) ==> satisfiable(r@),
        size(r@) <= size(cnf@),
{
    let mut current = cnf.clone();
    loop
        invariant
            search_state(current@, acc@, orig),
            satisfiable(cnf@) ==> satisfiable(current@),
            size(current@) <= size(cnf@),
        decreases size(current@),
    {
        let vars = current.variables();
        let mut found_pure = false;
        let mut k: usize = 0;
        let ghost cur0 = current@;
        while k < vars.len()
            invariant_except_break
                current@ == cur0,
                !found_pure,
                forall|x: Seq<char>| #[trigger] vars@.contains(x) <==> mentions(cur0, x),
                k <= vars@.len(),
            invariant
                search_state(current@, acc@, orig),
                satisfiable(cnf@) ==> satisfiable(current@),
                size(current@) <= size(cnf@),
                found_pure ==> size(current@) < size(cur0),
            ensures
                found_pure ==> size(current@) < size(cur0),
                !found_pure ==> current@ == cur0,
            decreases vars@.len() - k,
        {
            let var = vars.name_at(k);
            let pos = Literal::pos(var);
            let neg = Literal::neg(var);
            let has_pos = occurs(&current, &pos);
            let has_neg = occurs(&current, &neg);
            if has_pos != has_neg {
                let lit = if has_pos { pos } else { neg };
                let ghost before = current@;
                proof {
                    assert(vars@.contains(var@));
                    assert(mentions(before, lit@.1));
                    lemma_step(before, acc@, orig, lit@);
                    lemma_subst_size(before, lit@);
                    assert forall|j: int| 0 <= j < before.len() implies !(#[trigger] before[j]).contains(neg_lit(lit@)) by {
                        if has_pos {
                            assert(neg_lit(lit@) == neg@);
                        } else {
                            assert(neg_lit(lit@) == pos@);
                        }
                    }
                    if satisfiable(before) {
                        lemma_pure(before, lit@);
                    }
                }
                acc.insert(var.to_owned(), has_pos);
                current = current.substitute_true(&lit);
                found_pure = true;
                break;
            }
            k = k + 1;
        }
        if !found_pure {
            break;
        }
    }
    current
}

/// The search below a partial assignment `acc`.
fn dpll_search(cnf: &CNF, acc: &Assignment, Ghost(orig): Ghost<Seq<Seq<Lit>>>) -> (r: Option<Assignment>)
    requires
        search_state(cnf@, acc@, orig),
    ensures
        match r {
            Some(a) => assignment_satisfies(a@, orig),
            None => !satisfiable(cnf@),
        },
    decreases size(cnf@),
{
    if cnf.is_empty() {
        proof {
            assert(agrees(acc@, acc@));
        }
        return Some(acc.clone());
    }
    if cnf.contains_empty() {
        proof {
            lemma_empty_clause_unsat(cnf@);
        }
        return None;
    }
    let mut assign = acc.clone();
    let simplified = match unit_propagate(cnf, &mut assign, Ghost(orig)) {
        Some(c) => c,
        None => {
            return None;
        },
    };
    if simplified.contains_empty() {
        proof {
            lemma_empty_clause_unsat(simplified@);
        }
        return None;
    }
    let further = pure_literal_eliminate(&simplified, &mut assign, Ghost(orig));
    if further.contains_empty() {
        proof {
            lemma_empty_clause_unsat(further@);
        }
        return None;
    }
    if further.is_empty() {
        proof {
            assert(agrees(assign@, assign@));
        }
        return Some(assign);
    }
    let vars = further.variables();
    proof {
        assert(further@[0].len() > 0) by {
            if further@[0].len() == 0 {
                assert(has_empty_clause(further@));
            }
        }
        assert(mentions(further@, further@[0][0].1));
        assert(vars@.contains(further@[0][0].1));
    }
    let var = vars.name_at(0);
    proof {
        assert(vars@.contains(var@));
    }
    let pos_lit = Literal::pos(var);
    let mut pos_assign = assign.clone();
    pos_assign.insert(var.to_owned(), true);
    let pos_cnf = further.substitute_true(&pos_lit);
    proof {
        lemma_step(further@, assign@, orig, pos_lit@);
        lemma_subst_size(further@, pos_lit@);
    }
    match dpll_search(&pos_cnf, &pos_assign, Ghost(orig)) {
        Some(a) => {
            return Some(a);
        },
        None => {},
    }
    let neg_lit_v = Literal::neg(var);
    let mut neg_assign = assign.clone();
    neg_assign.insert(var.to_owned(), false);
    let neg_cnf = further.substitute_true(&neg_lit_v);
    proof {
        lemma_step(further@, assign@, orig, neg_lit_v@);
        lemma_subst_size(further@, neg_lit_v@);
    }
    match dpll_search(&neg_cnf, &neg_assign, Ghost(orig)) {
        Some(a) => {
            return Some(a);
        },
        None => {},
    }
    proof {
        assert(neg_lit_v@ == neg_lit(pos_lit@));
        lemma_split(further@, pos_lit@);
    }
    None
}

/// DPLL: `Satisfiable` with a partial assignment that makes a literal of
/// every clause true exactly when the formula is satisfiable.
pub fn dpll(cnf: &CNF) -> (r: DPLLResult)
    ensures
        r is Satisfiable <==> satisfiable(cnf@),
        r matches DPLLResult::Satisfiable(a) ==> assignment_satisfies(a@, cnf@),
{
    let start = Assignment::new();
    proof {
        assert forall|a: Map<Seq<char>, bool>|
            assignment_satisfies(a, cnf@) && #[trigger] agrees(a, start@) implies assignment_satisfies(a, cnf@) by {
        }
    }
    match dpll_search(cnf, &start, Ghost(cnf@)) {
        Some(a) => {
            proof {
                lemma_assignment_extends(a@, cnf@);
            }
            DPLLResult::Satisfiable(a)
        },
        None => DPLLResult::Unsatisfiable,
    }
}

} // verus!
