//! Analytic tableaux for propositional formulas, and a simplified
//! conversion of formulas to CNF.
use vstd::prelude::*;
use crate::search::logic::{Lit, Literal, Clause, CNF};
use crate::text::str_eq;

verus! {

/// A propositional formula as a value.
pub enum Prop {
    Atom(Seq<char>),
    Not(Box<Prop>),
    And(Box<Prop>, Box<Prop>),
    Or(Box<Prop>, Box<Prop>),
    Impl(Box<Prop>, Box<Prop>),
}

/// Truth of a formula under a total assignment.
pub open spec fn eval(sigma: spec_fn(Seq<char>) -> bool, p: Prop) -> bool
    decreases p,
{
    match p {
        Prop::Atom(x) => sigma(x),
        Prop::Not(q) => !eval(sigma, *q),
        Prop::And(a, b) => eval(sigma, *a) && eval(sigma, *b),
        Prop::Or(a, b) => eval(sigma, *a) || eval(sigma, *b),
        Prop::Impl(a, b) => !eval(sigma, *a) || eval(sigma, *b),
    }
}

/// True under every assignment.
pub open spec fn valid(p: Prop) -> bool {
    forall|sigma: spec_fn(Seq<char>) -> bool| #[trigger] eval(sigma, p)
}

/// Every formula of a branch is true.
pub open spec fn branch_holds(sigma: spec_fn(Seq<char>) -> bool, s: Seq<Prop>) -> bool {
    forall|k: int| 0 <= k < s.len() ==> #[trigger] eval(sigma, s[k])
}

/// A branch holds an atom and its negation.
pub open spec fn branch_closed(s: Seq<Prop>) -> bool {
    exists|a: int, b: int|
        0 <= a < s.len() && 0 <= b < s.len() && (#[trigger] s[a]) is Atom && #[trigger] s[b] == Prop::Not(
            Box::new(s[a]),
        )
}

/// A propositional formula.
#[derive(Debug)]
pub enum TableauFormula {
    Atom(String),
    Not(Box<TableauFormula>),
    And(Box<TableauFormula>, Box<TableauFormula>),
    Or(Box<TableauFormula>, Box<TableauFormula>),
    Impl(Box<TableauFormula>, Box<TableauFormula>),
}

/// The value of a formula.
pub open spec fn prop_of(f: TableauFormula) -> Prop
    decreases f,
{
    match f {
        TableauFormula::Atom(n) => Prop::Atom(n@),
        TableauFormula::Not(g) => Prop::Not(Box::new(prop_of(*g))),
        TableauFormula::And(a, b) => Prop::And(Box::new(prop_of(*a)), Box::new(prop_of(*b))),
        TableauFormula::Or(a, b) => Prop::Or(Box::new(prop_of(*a)), Box::new(prop_of(*b))),
        TableauFormula::Impl(a, b) => Prop::Impl(Box::new(prop_of(*a)), Box::new(prop_of(*b))),
    }
}

impl View for TableauFormula {
    type V = Prop;

    open spec fn view(&self) -> Prop {
        prop_of(*self)
    }
}

impl TableauFormula {
    /// A copy of the formula.
    pub fn copy(&self) -> (r: Self)
        ensures
            r@ == self@,
        decreases self,
    {
        match self {
            TableauFormula::Atom(n) => TableauFormula::Atom(n.clone()),
            TableauFormula::Not(g) => TableauFormula::Not(Box::new((&**g).copy())),
            TableauFormula::And(a, b) => TableauFormula::And(Box::new((&**a).copy()), Box::new((&**b).copy())),
            TableauFormula::Or(a, b) => TableauFormula::Or(Box::new((&**a).copy()), Box::new((&**b).copy())),
            TableauFormula::Impl(a, b) => TableauFormula::Impl(
                Box::new((&**a).copy()),
                Box::new((&**b).copy()),
            ),
        }
    }

    pub fn atom(name: &str) -> (r: Self)
        ensures
            r@ == Prop::Atom(name@),
    {
        TableauFormula::Atom(name.to_owned())
    }

    pub fn not(f: TableauFormula) -> (r: Self)
        ensures
            r@ == Prop::Not(Box::new(f@)),
    {
        TableauFormula::Not(Box::new(f))
    }

    pub fn and(f1: TableauFormula, f2: TableauFormula) -> (r: Self)
        ensures
            r@ == Prop::And(Box::new(f1@), Box::new(f2@)),
    {
        TableauFormula::And(Box::new(f1), Box::new(f2))
    }

    pub fn or(f1: TableauFormula, f2: TableauFormula) -> (r: Self)
        ensures
            r@ == Prop::Or(Box::new(f1@), Box::new(f2@)),
    {
        TableauFormula::Or(Box::new(f1), Box::new(f2))
    }

    pub fn impl_(f1: TableauFormula, f2: TableauFormula) -> (r: Self)
        ensures
            r@ == Prop::Impl(Box::new(f1@), Box::new(f2@)),
    {
        TableauFormula::Impl(Box::new(f1), Box::new(f2))
    }

    /// Simplified conversion to CNF: exact for atoms, negated atoms,
    /// conjunctions of such, disjunctions of literals and `A → B` as
    /// `¬A ∨ B`; other negations give the empty formula, and a disjunction
    /// keeps only its literal operands.
    pub fn to_cnf(&self) -> (r: CNF)
        ensures
            r@ == cnf_of(self@),
        decreases self,
    {
        match self {
            TableauFormula::Atom(name) => {
                let l = Literal::pos(name.as_str());
                assert(self@ == Prop::Atom(name@));
                let r = single_clause_cnf(l);
                assert(cnf_of(Prop::Atom(name@)) == seq![seq![(true, name@)]]);
                assert(r@ =~= cnf_of(self@));
                r
            },
            TableauFormula::Not(f) => {
                match (&**f) {
                    TableauFormula::Atom(name) => {
                        let r = single_clause_cnf(Literal::neg(name.as_str()));
                        assert(prop_of(**f) == Prop::Atom(name@));
                        assert(self@ == Prop::Not(Box::new(Prop::Atom(name@))));
                        r
                    },
                    _ => {
                        proof {
                            lemma_atom_view(*(&**f));
                        }
                        CNF::empty()
                    },
                }
            },
            TableauFormula::And(f1, f2) => {
                let mut cnf1 = (&**f1).to_cnf();
                let cnf2 = (&**f2).to_cnf();
                let ghost v1 = cnf1@;
                let mut rest = cnf2.clauses;
                cnf1.clauses.append(&mut rest);
                proof {
                    assert(cnf1@ =~= v1 + cnf2@);
                    assert(cnf1@ =~= cnf_of(self@));
                }
                cnf1
            },
            TableauFormula::Or(f1, f2) => {
                let r = disjunction_cnf(&**f1, &**f2);
                assert(r@ =~= cnf_of(self@));
                r
            },
            TableauFormula::Impl(f1, f2) => {
                let neg_f1 = TableauFormula::not((&**f1).copy());
                let r = disjunction_cnf(&neg_f1, &**f2);
                assert(r@ =~= cnf_of(self@));
                r
            },
        }
    }
}

proof fn lemma_atom_view(f: TableauFormula)
    ensures
        (f@ is Atom) == (f is Atom),
        f@ is Not == f is Not,
{
}

/// The simplified CNF of a disjunction: one clause of its atom operands.
/// Appends the literal that `f` is, when it is an atom or a negated atom.
fn push_literal(lits: &mut Vec<Literal>, f: &TableauFormula)
    ensures
        final(lits)@.map_values(|l: Literal| l@) == old(lits)@.map_values(|l: Literal| l@) + atom_lits(f@),
{
    let ghost before = lits@.map_values(|l: Literal| l@);
    match f {
        TableauFormula::Atom(n) => {
            lits.push(Literal::pos(n.as_str()));
            assert(lits@.map_values(|l: Literal| l@) =~= before + atom_lits(f@));
        },
        TableauFormula::Not(g) => match &**g {
            TableauFormula::Atom(n) => {
                lits.push(Literal::neg(n.as_str()));
                assert(prop_of(**g) == Prop::Atom(n@));
                assert(lits@.map_values(|l: Literal| l@) =~= before + atom_lits(f@));
            },
            _ => {
                proof {
                    lemma_atom_view(*(&**g));
                }
                assert(lits@.map_values(|l: Literal| l@) =~= before + atom_lits(f@));
            },
        },
        _ => {
            assert(lits@.map_values(|l: Literal| l@) =~= before + atom_lits(f@));
        },
    }
}

fn disjunction_cnf(f1: &TableauFormula, f2: &TableauFormula) -> (r: CNF)
    ensures
        r@ == or_cnf(f1@, f2@),
{
    let mut lits: Vec<Literal> = Vec::new();
    push_literal(&mut lits, f1);
    proof {
        assert(lits@.map_values(|l: Literal| l@) =~= atom_lits(f1@));
    }
    let ghost first = lits@.map_values(|l: Literal| l@);
    push_literal(&mut lits, f2);
    proof {
        assert(lits@.map_values(|l: Literal| l@) =~= first + atom_lits(f2@));
    }
    if lits.len() == 0 {
        CNF::empty()
    } else {
        let c = Clause::new(lits);
        let mut cs: Vec<Clause> = Vec::new();
        cs.push(c);
        let r = CNF::new(cs);
        proof {
            assert(r@ =~= seq![atom_lits(f1@) + atom_lits(f2@)]);
        }
        r
    }
}

/// The formula with the single unit clause `l`.
fn single_clause_cnf(l: Literal) -> (r: CNF)
    ensures
        r@ == seq![seq![l@]],
{
    let mut lits: Vec<Literal> = Vec::new();
    lits.push(l);
    let c = Clause::new(lits);
    proof {
        assert(c@ =~= seq![l@]);
    }
    let mut cs: Vec<Clause> = Vec::new();
    cs.push(c);
    let r = CNF::new(cs);
    proof {
        assert(r@ =~= seq![seq![l@]]);
    }
    r
}

impl Clone for TableauFormula {
    fn clone(&self) -> (r: Self)
        ensures
            r@ == self@,
    {
        self.copy()
    }
}

/// The positive literal of an atom, nothing for other formulas.
pub open spec fn atom_lits(p: Prop) -> Seq<Lit> {
    match p {
        Prop::Atom(x) => seq![(true, x)],
        Prop::Not(q) => match *q {
            Prop::Atom(x) => seq![(false, x)],
            _ => Seq::empty(),
        },
        _ => Seq::empty(),
    }
}

/// One clause of the literal operands (atoms and negated atoms) of a
/// disjunction, or none.
pub open spec fn or_cnf(a: Prop, b: Prop) -> Seq<Seq<Lit>> {
    if atom_lits(a).len() + atom_lits(b).len() == 0 {
        Seq::empty()
    } else {
        seq![atom_lits(a) + atom_lits(b)]
    }
}

/// The simplified CNF of a formula.
pub open spec fn cnf_of(p: Prop) -> Seq<Seq<Lit>>
    decreases p,
{
    match p {
        Prop::Atom(x) => seq![seq![(true, x)]],
        Prop::Not(q) => match *q {
            Prop::Atom(x) => seq![seq![(false, x)]],
            _ => Seq::empty(),
        },
        Prop::And(a, b) => cnf_of(*a) + cnf_of(*b),
        Prop::Or(a, b) => or_cnf(*a, *b),
        Prop::Impl(a, b) => or_cnf(Prop::Not(a), *b),
    }
}

// ─── Tableau nodes ────────────────────────────────────────────────────

/// A branch of the tableau: the formulas on it.
#[derive(Debug)]
pub struct TableauNode {
    pub formulas: Vec<TableauFormula>,
    pub closed: bool,
}

impl View for TableauNode {
    type V = Seq<Prop>;

    open spec fn view(&self) -> Seq<Prop> {
        self.formulas@.map_values(|f: TableauFormula| f@)
    }
}

impl TableauNode {
    pub fn new(formulas: Vec<TableauFormula>) -> (r: Self)
        ensures
            r.formulas@ == formulas@,
            !r.closed,
    {
        TableauNode { formulas, closed: false }
    }

    /// Whether the branch holds an atom and its negation.
    pub fn is_closed(&self) -> (r: bool)
        ensures
            r == branch_closed(self@),
    {
        let n = self.formulas.len();
        let ghost s = self@;
        let mut a: usize = 0;
        while a < n
            invariant
                n == s.len(),
                s == self@,
                a <= n,
                forall|x: int, y: int|
                    0 <= x < a && 0 <= y < n ==> !((#[trigger] s[x]) is Atom && #[trigger] s[y] == Prop::Not(
                        Box::new(s[x]),
                    )),
            decreases n - a,
        {
            let mut b: usize = 0;
            while b < n
                invariant
                    n == s.len(),
                    s == self@,
                    a < n,
                    b <= n,
                    forall|x: int, y: int|
                        0 <= x < a && 0 <= y < n ==> !((#[trigger] s[x]) is Atom && #[trigger] s[y] == Prop::Not(
                            Box::new(s[x]),
                        )),
                    forall|y: int| 0 <= y < b ==> !(s[a as int] is Atom && #[trigger] s[y] == Prop::Not(Box::new(s[a as int]))),
                decreases n - b,
            {
                let f1 = &self.formulas[a];
                let f2 = &self.formulas[b];
                proof {
                    lemma_atom_view(*f1);
                    lemma_atom_view(*f2);
                }
                if let TableauFormula::Atom(n1) = f1 {
                    if let TableauFormula::Not(inner) = f2 {
                        proof {
                            lemma_atom_view(**inner);
                            assert(s[b as int] == Prop::Not(Box::new(prop_of(**inner))));
                            assert(s[a as int] == Prop::Atom(n1@));
                        }
                        if let TableauFormula::Atom(n2) = &**inner {
                            proof {
                                assert(prop_of(**inner) == Prop::Atom(n2@));
                            }
                            if str_eq(n1.as_str(), n2.as_str()) {
                                proof {
                                    assert(s[a as int] is Atom && s[b as int] == Prop::Not(Box::new(s[a as int])));
                                }
                                return true;
                            }
                        }
                    }
                }
                b = b + 1;
            }
            a = a + 1;
        }
        false
    }
}

// ─── Weights for termination ──────────────────────────────────────────

/// Weight of a formula on a branch.
pub open spec fn wpos(p: Prop) -> nat
    decreases p, 1nat,
{
    match p {
        Prop::Atom(_) => 1,
        Prop::Not(q) => wneg(*q),
        Prop::And(a, b) => wpos(*a) + wpos(*b) + 1,
        Prop::Or(a, b) => wpos(*a) + wpos(*b) + 1,
        Prop::Impl(a, b) => wneg(*a) + wpos(*b) + 2,
    }
}

/// Weight of the negation of a formula on a branch.
pub open spec fn wneg(p: Prop) -> nat
    decreases p, 0nat,
{
    match p {
        Prop::Atom(_) => 2,
        Prop::Not(q) => wpos(*q) + 1,
        Prop::And(a, b) => wneg(*a) + wneg(*b) + 2,
        Prop::Or(a, b) => wneg(*a) + wneg(*b) + 2,
        Prop::Impl(a, b) => wpos(*a) + wneg(*b) + 2,
    }
}

/// Weight of a branch.
pub open spec fn weight(s: Seq<Prop>) -> nat
    decreases s.len(),
{
    if s.len() == 0 {
        0
    } else {
        weight(s.drop_last()) + wpos(s.last())
    }
}

pub open spec fn pow3(n: nat) -> nat
    decreases n,
{
    if n == 0 {
        1
    } else {
        3 * pow3((n - 1) as nat)
    }
}

/// Measure of the stack of open branches.
pub open spec fn stack_measure(st: Seq<Seq<Prop>>) -> nat
    decreases st.len(),
{
    if st.len() == 0 {
        0
    } else {
        stack_measure(st.drop_last()) + pow3(weight(st.last()))
    }
}

proof fn lemma_pow3_mono(a: nat, b: nat)
    requires
        a <= b,
    ensures
        1 <= pow3(a) <= pow3(b),
    decreases b,
{
    if b > 0 {
        if a < b {
            lemma_pow3_mono(a, (b - 1) as nat);
        }
        lemma_pow3_mono(0, (b - 1) as nat);
    }
}

proof fn lemma_weight_concat(p: Seq<Prop>, q: Seq<Prop>)
    ensures
        weight(p + q) == weight(p) + weight(q),
    decreases q.len(),
{
    if q.len() > 0 {
        lemma_weight_concat(p, q.drop_last());
        assert((p + q).drop_last() =~= p + q.drop_last());
    } else {
        assert(p + q =~= p);
    }
}

proof fn lemma_weight_remove(s: Seq<Prop>, i: int)
    requires
        0 <= i < s.len(),
    ensures
        weight(s) == weight(s.remove(i)) + wpos(s[i]),
    decreases s.len(),
{
    if i < s.len() - 1 {
        let p = s.drop_last();
        lemma_weight_remove(p, i);
        assert(s.remove(i) =~= p.remove(i).push(s.last()));
        assert(s.remove(i).drop_last() =~= p.remove(i));
    } else {
        assert(s.remove(i) =~= s.drop_last());
    }
}

proof fn lemma_branch_remove(sigma: spec_fn(Seq<char>) -> bool, s: Seq<Prop>, i: int, extra: Seq<Prop>)
    requires
        0 <= i < s.len(),
    ensures
        branch_holds(sigma, s) == (branch_holds(sigma, s.remove(i)) && eval(sigma, s[i])),
        branch_holds(sigma, s.remove(i) + extra) == (branch_holds(sigma, s.remove(i)) && branch_holds(
            sigma,
            extra,
        )),
{
    let r = s.remove(i);
    if branch_holds(sigma, r) && eval(sigma, s[i]) {
        assert forall|k: int| 0 <= k < s.len() implies #[trigger] eval(sigma, s[k]) by {
            if k < i {
                assert(r[k] == s[k]);
            } else if k > i {
                assert(r[k - 1] == s[k]);
            }
        }
    }
    if branch_holds(sigma, s) {
        assert forall|k: int| 0 <= k < r.len() implies #[trigger] eval(sigma, r[k]) by {
            if k < i {
                assert(r[k] == s[k]);
            } else {
                assert(r[k] == s[k + 1]);
            }
        }
    }
    let t = r + extra;
    if branch_holds(sigma, r) && branch_holds(sigma, extra) {
        assert forall|k: int| 0 <= k < t.len() implies #[trigger] eval(sigma, t[k]) by {
            if k < r.len() {
                assert(t[k] == r[k]);
            } else {
                assert(t[k] == extra[k - r.len()]);
            }
        }
    }
    if branch_holds(sigma, t) {
        assert forall|k: int| 0 <= k < r.len() implies #[trigger] eval(sigma, r[k]) by {
            assert(t[k] == r[k]);
        }
        assert forall|k: int| 0 <= k < extra.len() implies #[trigger] eval(sigma, extra[k]) by {
            assert(t[k + r.len()] == extra[k]);
        }
    }
}

/// The expansion rule for a formula: one branch, or two for a
/// disjunction; `None` for atoms and negated atoms.
pub open spec fn expansion(p: Prop) -> Option<(Seq<Prop>, Option<Seq<Prop>>)> {
    match p {
        Prop::And(a, b) => Some((seq![*a, *b], None)),
        Prop::Or(a, b) => Some((seq![*a], Some(seq![*b]))),
        Prop::Impl(a, b) => Some((seq![Prop::Or(Box::new(Prop::Not(a)), b)], None)),
        Prop::Not(q) => match *q {
            Prop::Not(f) => Some((seq![*f], None)),
            Prop::And(a, b) => Some(
                (seq![Prop::Or(Box::new(Prop::Not(a)), Box::new(Prop::Not(b)))], None),
            ),
            Prop::Or(a, b) => Some(
                (seq![Prop::And(Box::new(Prop::Not(a)), Box::new(Prop::Not(b)))], None),
            ),
            Prop::Impl(a, b) => Some((seq![Prop::And(a, Box::new(Prop::Not(b)))], None)),
            Prop::Atom(_) => None,
        },
        Prop::Atom(_) => None,
    }
}

/// The one-element sequence.
pub open spec fn seq_one(x: Prop) -> Seq<Prop> {
    seq![x]
}

proof fn lemma_one(sigma: spec_fn(Seq<char>) -> bool, x: Prop)
    ensures
        seq_one(x) == seq![x],
        weight(seq![x]) == wpos(x),
        branch_holds(sigma, seq![x]) == eval(sigma, x),
{
    let s1 = seq![x];
    assert(s1.drop_last() =~= Seq::<Prop>::empty());
    assert(weight(Seq::<Prop>::empty()) == 0);
    assert(weight(s1) == weight(s1.drop_last()) + wpos(s1.last()));
    if eval(sigma, x) {
        assert forall|k: int| 0 <= k < 1 implies #[trigger] eval(sigma, s1[k]) by {}
    }
    if branch_holds(sigma, s1) {
        assert(eval(sigma, s1[0]));
    }
}

/// The two-element sequence.
pub open spec fn seq_two(x: Prop, y: Prop) -> Seq<Prop> {
    seq![x, y]
}

proof fn lemma_two(sigma: spec_fn(Seq<char>) -> bool, x: Prop, y: Prop)
    ensures
        seq_two(x, y) == seq![x, y],
        weight(seq![x, y]) == wpos(x) + wpos(y),
        branch_holds(sigma, seq![x, y]) == (eval(sigma, x) && eval(sigma, y)),
{
    let s2 = seq![x, y];
    assert(s2.drop_last() =~= seq![x]);
    assert(weight(s2) == weight(s2.drop_last()) + wpos(s2.last()));
    lemma_one(sigma, x);
    if eval(sigma, x) && eval(sigma, y) {
        assert forall|k: int| 0 <= k < 2 implies #[trigger] eval(sigma, s2[k]) by {}
    }
    if branch_holds(sigma, s2) {
        assert(eval(sigma, s2[0]));
        assert(eval(sigma, s2[1]));
    }
}

proof fn lemma_expansion(p: Prop)
    ensures
        match expansion(p) {
            Some((r1, None)) => weight(r1) < wpos(p) && forall|sigma: spec_fn(Seq<char>) -> bool|
                #[trigger] branch_holds(sigma, r1) == eval(sigma, p),
            Some((r1, Some(r2))) => weight(r1) < wpos(p) && weight(r2) < wpos(p) && forall|
                sigma: spec_fn(Seq<char>) -> bool,
            |
                #[trigger] eval(sigma, p) == (branch_holds(sigma, r1) || branch_holds(sigma, r2)),
            None => p is Atom || (p matches Prop::Not(q) && *q is Atom),
        },
{
    let any = |x: Seq<char>| true;
    match p {
        Prop::And(a, b) => {
            lemma_two(any, *a, *b);
            let r = seq_two(*a, *b);
            assert(expansion(p) == Some((r, None::<Seq<Prop>>)));
            assert(weight(r) == wpos(*a) + wpos(*b));
            assert(wpos(p) == wpos(*a) + wpos(*b) + 1);
            assert forall|sigma: spec_fn(Seq<char>) -> bool| #[trigger] branch_holds(sigma, r) == eval(sigma, p) by {
                lemma_two(sigma, *a, *b);
                assert(eval(sigma, p) == (eval(sigma, *a) && eval(sigma, *b)));
            }

        },
        Prop::Or(a, b) => {
            lemma_one(any, *a);
            lemma_one(any, *b);
            let r1 = seq![*a];
            let r2 = seq![*b];
            assert forall|sigma: spec_fn(Seq<char>) -> bool| #[trigger] eval(sigma, p) == (branch_holds(sigma, r1)
                || branch_holds(sigma, r2)) by {
                lemma_one(sigma, *a);
                lemma_one(sigma, *b);
            }
        },
        Prop::Impl(a, b) => {
            let e = Prop::Or(Box::new(Prop::Not(a)), b);
            lemma_one(any, e);
            assert(wpos(Prop::Not(a)) == wneg(*a));
            assert(wpos(e) == wneg(*a) + wpos(*b) + 1);
            assert forall|sigma: spec_fn(Seq<char>) -> bool| #[trigger] branch_holds(sigma, seq_one(e)) == eval(sigma, p) by {
                lemma_one(sigma, e);
                assert(eval(sigma, Prop::Not(a)) == !eval(sigma, *a));
                assert(eval(sigma, e) == (eval(sigma, Prop::Not(a)) || eval(sigma, *b)));
            }
        },
        Prop::Not(q) => {
            match *q {
                Prop::Not(f) => {
                    lemma_one(any, *f);
                    assert(wpos(p) == wneg(*q));
                    assert(wneg(*q) == wpos(*f) + 1);
                    assert forall|sigma: spec_fn(Seq<char>) -> bool| #[trigger] branch_holds(sigma, seq_one(*f)) == eval(sigma, p) by {
                        lemma_one(sigma, *f);
                        assert(eval(sigma, *q) == !eval(sigma, *f));
                    }
                },
                Prop::And(a, b) => {
                    let e = Prop::Or(Box::new(Prop::Not(a)), Box::new(Prop::Not(b)));
                    lemma_one(any, e);
                    assert(wpos(p) == wneg(*q));
                    assert(wneg(*q) == wneg(*a) + wneg(*b) + 2);
                    assert(wpos(Prop::Not(a)) == wneg(*a));
                    assert(wpos(Prop::Not(b)) == wneg(*b));
                    assert forall|sigma: spec_fn(Seq<char>) -> bool| #[trigger] branch_holds(sigma, seq_one(e)) == eval(sigma, p) by {
                        lemma_one(sigma, e);
                        assert(eval(sigma, Prop::Not(a)) == !eval(sigma, *a));
                        assert(eval(sigma, Prop::Not(b)) == !eval(sigma, *b));
                        assert(eval(sigma, *q) == (eval(sigma, *a) && eval(sigma, *b)));
                    }
                },
                Prop::Or(a, b) => {
                    let e = Prop::And(Box::new(Prop::Not(a)), Box::new(Prop::Not(b)));
                    lemma_one(any, e);
                    assert(wpos(p) == wneg(*q));
                    assert(wneg(*q) == wneg(*a) + wneg(*b) + 2);
                    assert(wpos(Prop::Not(a)) == wneg(*a));
                    assert(wpos(Prop::Not(b)) == wneg(*b));
                    assert forall|sigma: spec_fn(Seq<char>) -> bool| #[trigger] branch_holds(sigma, seq_one(e)) == eval(sigma, p) by {
                        lemma_one(sigma, e);
                        assert(eval(sigma, Prop::Not(a)) == !eval(sigma, *a));
                        assert(eval(sigma, Prop::Not(b)) == !eval(sigma, *b));
                        assert(eval(sigma, *q) == (eval(sigma, *a) || eval(sigma, *b)));
                    }
                },
                Prop::Impl(a, b) => {
                    let e = Prop::And(a, Box::new(Prop::Not(b)));
                    lemma_one(any, e);
                    assert(wpos(p) == wneg(*q));
                    assert(wneg(*q) == wpos(*a) + wneg(*b) + 2);
                    assert(wpos(Prop::Not(b)) == wneg(*b));
                    assert forall|sigma: spec_fn(Seq<char>) -> bool| #[trigger] branch_holds(sigma, seq_one(e)) == eval(sigma, p) by {
                        lemma_one(sigma, e);
                        assert(eval(sigma, Prop::Not(b)) == !eval(sigma, *b));
                        assert(eval(sigma, *q) == (!eval(sigma, *a) || eval(sigma, *b)));
                    }
                },
                Prop::Atom(_) => {},
            }
        },
        Prop::Atom(_) => {},
    }
}

/// The exec expansion of a formula, as `expansion` states it.
fn expand(f: &TableauFormula) -> (r: Option<(Vec<TableauFormula>, Option<Vec<TableauFormula>>)>)
    ensures
        match (r, expansion(f@)) {
            (None, None) => true,
            (Some((c1, None)), Some((r1, None))) => c1@.map_values(|g: TableauFormula| g@) == r1,
            (Some((c1, Some(c2))), Some((r1, Some(r2)))) => c1@.map_values(|g: TableauFormula| g@) == r1
                && c2@.map_values(|g: TableauFormula| g@) == r2,
            _ => false,
        },
{
    match f {
        TableauFormula::And(f1, f2) => {
            let c = two((&**f1).copy(), (&**f2).copy());
            assert(f@ == Prop::And(Box::new((**f1)@), Box::new((**f2)@)));
            Some((c, None))
        },
        TableauFormula::Or(f1, f2) => {
            let c1 = one((&**f1).copy());
            let c2 = one((&**f2).copy());
            assert(f@ == Prop::Or(Box::new((**f1)@), Box::new((**f2)@)));
            Some((c1, Some(c2)))
        },
        TableauFormula::Impl(f1, f2) => {
            let equiv = TableauFormula::or(TableauFormula::not((&**f1).copy()), (&**f2).copy());
            assert(f@ == Prop::Impl(Box::new((**f1)@), Box::new((**f2)@)));
            Some((one(equiv), None))
        },
        TableauFormula::Not(inner) => {
            assert(f@ == Prop::Not(Box::new((**inner)@)));
            match &**inner {
                TableauFormula::Not(g) => {
                    assert((**inner)@ == Prop::Not(Box::new((**g)@)));
                    Some((one((&**g).copy()), None))
                },
                TableauFormula::And(f1, f2) => {
                    let equiv = TableauFormula::or(
                        TableauFormula::not((&**f1).copy()),
                        TableauFormula::not((&**f2).copy()),
                    );
                    assert((**inner)@ == Prop::And(Box::new((**f1)@), Box::new((**f2)@)));
                    Some((one(equiv), None))
                },
                TableauFormula::Or(f1, f2) => {
                    let equiv = TableauFormula::and(
                        TableauFormula::not((&**f1).copy()),
                        TableauFormula::not((&**f2).copy()),
                    );
                    assert((**inner)@ == Prop::Or(Box::new((**f1)@), Box::new((**f2)@)));
                    Some((one(equiv), None))
                },
                TableauFormula::Impl(f1, f2) => {
                    let equiv = TableauFormula::and((&**f1).copy(), TableauFormula::not((&**f2).copy()));
                    assert((**inner)@ == Prop::Impl(Box::new((**f1)@), Box::new((**f2)@)));
                    Some((one(equiv), None))
                },
                TableauFormula::Atom(n) => {
                    assert((**inner)@ == Prop::Atom(n@));
                    None
                },
            }
        },
        TableauFormula::Atom(n) => {
            assert(f@ == Prop::Atom(n@));
            None
        },
    }
}

fn one(f: TableauFormula) -> (r: Vec<TableauFormula>)
    ensures
        r@.map_values(|g: TableauFormula| g@) == seq![f@],
{
    let ghost v = f@;
    let mut r: Vec<TableauFormula> = Vec::new();
    r.push(f);
    assert(r@.map_values(|g: TableauFormula| g@) =~= seq![v]);
    r
}

fn two(f1: TableauFormula, f2: TableauFormula) -> (r: Vec<TableauFormula>)
    ensures
        r@.map_values(|g: TableauFormula| g@) == seq![f1@, f2@],
{
    let ghost v1 = f1@;
    let ghost v2 = f2@;
    let mut r: Vec<TableauFormula> = Vec::new();
    r.push(f1);
    r.push(f2);
    assert(r@.map_values(|g: TableauFormula| g@) =~= seq![v1, v2]);
    r
}

/// The formulas of a branch with formula `i` replaced by `extra`.
fn replace(fs: &Vec<TableauFormula>, i: usize, extra: Vec<TableauFormula>) -> (r: Vec<TableauFormula>)
    requires
        i < fs@.len(),
    ensures
        r@.map_values(|g: TableauFormula| g@) == fs@.map_values(|g: TableauFormula| g@).remove(i as int)
            + extra@.map_values(|g: TableauFormula| g@),
{
    let ghost base = fs@.map_values(|g: TableauFormula| g@);
    let mut out: Vec<TableauFormula> = Vec::new();
    let mut k: usize = 0;
    while k < fs.len()
        invariant
            k <= fs@.len(),
            i < fs@.len(),
            base == fs@.map_values(|g: TableauFormula| g@),
            out@.len() == (if k <= i { k as int } else { k - 1 }),
            forall|t: int| 0 <= t < out@.len() ==> #[trigger] out@[t]@ == base.remove(i as int)[t],
        decreases fs@.len() - k,
    {
        if k != i {
            out.push(fs[k].copy());
        }
        k = k + 1;
    }
    let ghost mid = out@.map_values(|g: TableauFormula| g@);
    assert(mid =~= base.remove(i as int));
    let mut j: usize = 0;
    let ghost ev = extra@.map_values(|g: TableauFormula| g@);
    while j < extra.len()
        invariant
            j <= extra@.len(),
            ev == extra@.map_values(|g: TableauFormula| g@),
            out@.map_values(|g: TableauFormula| g@) =~= mid + ev.take(j as int),
        decreases extra@.len() - j,
    {
        let ghost before = out@.map_values(|g: TableauFormula| g@);
        out.push(extra[j].copy());
        proof {
            assert(out@.map_values(|g: TableauFormula| g@) =~= before.push(ev[j as int]));
            assert(ev.take(j as int + 1) =~= ev.take(j as int).push(ev[j as int]));
        }
        j = j + 1;
    }
    assert(ev.take(j as int) =~= ev);
    out
}

/// The stack after the branch `s` is expanded at formula `t`.
pub open spec fn after_expansion(rest: Seq<Seq<Prop>>, s: Seq<Prop>, t: int) -> Seq<Seq<Prop>> {
    match expansion(s[t]) {
        Some((r1, None)) => rest.push(s.remove(t) + r1),
        Some((r1, Some(r2))) => rest.push(s.remove(t) + r1).push(s.remove(t) + r2),
        None => rest,
    }
}

/// The stack of open branches, as values.
pub open spec fn stack_view(st: Seq<TableauNode>) -> Seq<Seq<Prop>> {
    st.map_values(|n: TableauNode| n@)
}

proof fn lemma_stack_measure_push(st: Seq<Seq<Prop>>, n: Seq<Prop>)
    ensures
        stack_measure(st.push(n)) == stack_measure(st) + pow3(weight(n)),
{
    assert(st.push(n).drop_last() =~= st);
}

/// Prove `formula` valid by refuting its negation: branches are expanded
/// depth first (α, β and rewriting rules for implication and negations)
/// and closed by an atom and its negation. `true` exactly when the
/// formula holds under every assignment.
pub fn tableau_prove(formula: &TableauFormula) -> (r: bool)
    ensures
        r == valid(formula@),
{
    let neg_formula = TableauFormula::not(formula.copy());
    let ghost target = Prop::Not(Box::new(formula@));
    let root = TableauNode::new(one(neg_formula));
    let mut stack: Vec<TableauNode> = Vec::new();
    stack.push(root);
    proof {
        let st = stack_view(stack@);
        assert(st =~= seq![seq![target]]);
        assert forall|sigma: spec_fn(Seq<char>) -> bool| #[trigger] eval(sigma, target) implies exists|k: int|
            0 <= k < st.len() && branch_holds(sigma, #[trigger] st[k]) by {
            assert forall|t: int| 0 <= t < st[0].len() implies #[trigger] eval(sigma, st[0][t]) by {}
            assert(branch_holds(sigma, st[0]));
        }
        assert forall|k: int, sigma: spec_fn(Seq<char>) -> bool|
            0 <= k < st.len() && #[trigger] branch_holds(sigma, st[k]) implies eval(sigma, target) by {
            assert(eval(sigma, st[0][0]));
        }
    }
    while stack.len() > 0
        invariant
            target == Prop::Not(Box::new(formula@)),
            forall|sigma: spec_fn(Seq<char>) -> bool| #[trigger] eval(sigma, target) ==> exists|k: int|
                0 <= k < stack_view(stack@).len() && branch_holds(sigma, #[trigger] stack_view(stack@)[k]),
            forall|k: int, sigma: spec_fn(Seq<char>) -> bool|
                0 <= k < stack_view(stack@).len() && #[trigger] branch_holds(sigma, stack_view(stack@)[k])
                    ==> eval(sigma, target),
        decreases stack_measure(stack_view(stack@)),
    {
        let ghost before = stack_view(stack@);
        let node = stack.pop().unwrap();
        let ghost s = node@;
        let ghost rest = stack_view(stack@);
        proof {
            assert(before =~= rest.push(s));
            lemma_stack_measure_push(rest, s);
        }
        if node.is_closed() {
            proof {
                assert forall|sigma: spec_fn(Seq<char>) -> bool| #[trigger] eval(sigma, target) implies exists|k: int|
                    0 <= k < rest.len() && branch_holds(sigma, #[trigger] rest[k]) by {
                    let k = choose|k: int| 0 <= k < before.len() && branch_holds(sigma, #[trigger] before[k]);
                    if k == rest.len() {
                        let (a, b) = choose|a: int, b: int|
                            0 <= a < s.len() && 0 <= b < s.len() && (#[trigger] s[a]) is Atom && #[trigger] s[b]
                                == Prop::Not(Box::new(s[a]));
                        assert(eval(sigma, s[a]));
                        assert(eval(sigma, s[b]));
                    } else {
                        assert(rest[k] == before[k]);
                    }
                }
                assert forall|k: int, sigma: spec_fn(Seq<char>) -> bool|
                    0 <= k < rest.len() && #[trigger] branch_holds(sigma, rest[k]) implies eval(sigma, target) by {
                    assert(rest[k] == before[k]);
                }
                lemma_pow3_mono(0, weight(s));
            }
            continue;
        }
        let n = node.formulas.len();
        let mut i: usize = 0;
        let mut expanded = false;
        while i < n
            invariant_except_break
                !expanded,
            invariant
                n == s.len(),
                s == node@,
                i <= n,
                rest == stack_view(stack@) || expanded,
                forall|t: int| 0 <= t < i ==> expansion(#[trigger] s[t]) is None,
            ensures
                !expanded ==> rest == stack_view(stack@) && forall|t: int| 0 <= t < n ==> expansion(#[trigger] s[t]) is None,
                expanded ==> exists|t: int|
                    0 <= t < n && expansion(s[t]) is Some && stack_view(stack@) == #[trigger] after_expansion(rest, s, t),
            decreases n - i,
        {
            match expand(&node.formulas[i]) {
                None => {
                    i = i + 1;
                },
                Some((c1, alt)) => {
                    let ghost r1 = c1@.map_values(|g: TableauFormula| g@);
                    let b1 = replace(&node.formulas, i, c1);
                    stack.push(TableauNode::new(b1));
                    match alt {
                        None => {
                            proof {
                                assert(stack_view(stack@) =~= rest.push(s.remove(i as int) + r1));
                                assert(expansion(s[i as int]) == Some((r1, None::<Seq<Prop>>)));
                                assert(stack_view(stack@) == after_expansion(rest, s, i as int));
                            }
                        },
                        Some(c2) => {
                            let ghost r2 = c2@.map_values(|g: TableauFormula| g@);
                            let b2 = replace(&node.formulas, i, c2);
                            stack.push(TableauNode::new(b2));
                            proof {
                                assert(stack_view(stack@) =~= rest.push(s.remove(i as int) + r1).push(s.remove(i as int) + r2));
                                assert(expansion(s[i as int]) == Some((r1, Some(r2))));
                                assert(stack_view(stack@) == after_expansion(rest, s, i as int));
                            }
                        },
                    }
                    expanded = true;
                    break;
                },
            }
        }
        if !expanded && !node.is_closed() {
            proof {
                let sigma = |x: Seq<char>| exists|a: int| 0 <= a < s.len() && #[trigger] s[a] == Prop::Atom(x);
                assert forall|t: int| 0 <= t < s.len() implies #[trigger] eval(sigma, s[t]) by {
                    lemma_expansion(s[t]);
                    match s[t] {
                        Prop::Atom(x) => {
                            assert(s[t] == Prop::Atom(x));
                            assert(sigma(x));
                            assert(eval(sigma, s[t]) == sigma(x));
                        },
                        Prop::Not(q) => {
                            match *q {
                                Prop::Atom(x) => {
                                    assert(eval(sigma, *q) == sigma(x));
                                    assert(eval(sigma, s[t]) == !sigma(x));
                                    if sigma(x) {
                                        let a = choose|a: int| 0 <= a < s.len() && #[trigger] s[a] == Prop::Atom(x);
                                        assert(s[t] == Prop::Not(Box::new(s[a])));
                                        assert(branch_closed(s));
                                    }
                                },
                                _ => {},
                            }
                        },
                        _ => {},
                    }
                }
                assert(branch_holds(sigma, s));
                assert(before[rest.len() as int] == s);
                assert(eval(sigma, target));
                assert(!eval(sigma, formula@));
            }
            return false;
        }
        proof {
            let ti = choose|t: int|
                0 <= t < n && expansion(s[t]) is Some && stack_view(stack@) == #[trigger] after_expansion(rest, s, t);
            let (r1, o) = expansion(s[ti]).unwrap();
            lemma_expansion(s[ti]);
            lemma_weight_remove(s, ti);
            let cur = stack_view(stack@);
            lemma_weight_concat(s.remove(ti), r1);
            let b1 = s.remove(ti) + r1;
            lemma_stack_measure_push(rest, b1);
            lemma_pow3_mono(weight(b1), (weight(s) - 1) as nat);
            lemma_pow3_mono(0, weight(s));
            match o {
                None => {
                    assert forall|sigma: spec_fn(Seq<char>) -> bool| #[trigger] eval(sigma, target) implies exists|k: int|
                        0 <= k < cur.len() && branch_holds(sigma, #[trigger] cur[k]) by {
                        let k = choose|k: int| 0 <= k < before.len() && branch_holds(sigma, #[trigger] before[k]);
                        if k == rest.len() {
                            lemma_branch_remove(sigma, s, ti, r1);
                            assert(cur[rest.len() as int] == b1);
                        } else {
                            assert(cur[k] == before[k]);
                        }
                    }
                    assert forall|k: int, sigma: spec_fn(Seq<char>) -> bool|
                        0 <= k < cur.len() && #[trigger] branch_holds(sigma, cur[k]) implies eval(sigma, target) by {
                        if k == rest.len() {
                            lemma_branch_remove(sigma, s, ti, r1);
                            assert(branch_holds(sigma, before[rest.len() as int]));
                        } else {
                            assert(cur[k] == before[k]);
                        }
                    }
                    assert(pow3(weight(s)) == 3 * pow3((weight(s) - 1) as nat));
                },
                Some(r2) => {
                    lemma_weight_concat(s.remove(ti), r2);
                    let b2 = s.remove(ti) + r2;
                    lemma_stack_measure_push(rest.push(b1), b2);
                    lemma_pow3_mono(weight(b2), (weight(s) - 1) as nat);
                    assert(pow3(weight(s)) == 3 * pow3((weight(s) - 1) as nat));
                    assert forall|sigma: spec_fn(Seq<char>) -> bool| #[trigger] eval(sigma, target) implies exists|k: int|
                        0 <= k < cur.len() && branch_holds(sigma, #[trigger] cur[k]) by {
                        let k = choose|k: int| 0 <= k < before.len() && branch_holds(sigma, #[trigger] before[k]);
                        if k == rest.len() {
                            lemma_branch_remove(sigma, s, ti, r1);
                            lemma_branch_remove(sigma, s, ti, r2);
                            assert(cur[rest.len() as int] == b1);
                            assert(cur[rest.len() as int + 1] == b2);
                        } else {
                            assert(cur[k] == before[k]);
                        }
                    }
                    assert forall|k: int, sigma: spec_fn(Seq<char>) -> bool|
                        0 <= k < cur.len() && #[trigger] branch_holds(sigma, cur[k]) implies eval(sigma, target) by {
                        if k >= rest.len() {
                            lemma_branch_remove(sigma, s, ti, r1);
                            lemma_branch_remove(sigma, s, ti, r2);
                            assert(branch_holds(sigma, before[rest.len() as int]));
                        } else {
                            assert(cur[k] == before[k]);
                        }
                    }
                },
            }
        }
    }
    proof {
        assert forall|sigma: spec_fn(Seq<char>) -> bool| #[trigger] eval(sigma, formula@) by {
            if !eval(sigma, formula@) {
                assert(eval(sigma, target));
            }
        }
    }
    true
}

} // verus!
