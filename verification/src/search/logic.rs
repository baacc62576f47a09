//! Literals, clauses and CNF formulas with their semantics: total
//! truth assignments, partial assignments, and substitution of a literal
//! by `true`.
use vstd::prelude::*;
use crate::text::str_eq;

verus! {

/// A literal as a value: its polarity (`true` for positive) and its
/// proposition name.
pub type Lit = (bool, Seq<char>);

/// The opposite literal.
pub open spec fn neg_lit(l: Lit) -> Lit {
    (!l.0, l.1)
}

/// Two literals on the same proposition with opposite polarities.
pub open spec fn complementary(a: Lit, b: Lit) -> bool {
    a.1 == b.1 && a.0 != b.0
}

/// A total truth assignment makes a literal true.
pub open spec fn lit_holds(sigma: spec_fn(Seq<char>) -> bool, l: Lit) -> bool {
    sigma(l.1) == l.0
}

/// A total truth assignment makes some literal of a clause true.
pub open spec fn clause_holds(sigma: spec_fn(Seq<char>) -> bool, c: Seq<Lit>) -> bool {
    exists|i: int| 0 <= i < c.len() && #[trigger] lit_holds(sigma, c[i])
}

/// A total truth assignment makes every clause true.
pub open spec fn cnf_holds(sigma: spec_fn(Seq<char>) -> bool, f: Seq<Seq<Lit>>) -> bool {
    forall|j: int| 0 <= j < f.len() ==> #[trigger] clause_holds(sigma, f[j])
}

/// Some total truth assignment makes the formula true.
pub open spec fn satisfiable(f: Seq<Seq<Lit>>) -> bool {
    exists|sigma: spec_fn(Seq<char>) -> bool| #[trigger] cnf_holds(sigma, f)
}

/// A partial assignment gives a literal its polarity.
pub open spec fn lit_assigned(a: Map<Seq<char>, bool>, l: Lit) -> bool {
    a.contains_key(l.1) && a[l.1] == l.0
}

/// A partial assignment makes some literal of the clause true.
pub open spec fn clause_assigned(a: Map<Seq<char>, bool>, c: Seq<Lit>) -> bool {
    exists|i: int| 0 <= i < c.len() && #[trigger] lit_assigned(a, c[i])
}

/// A partial assignment makes some literal of every clause true.
pub open spec fn assignment_satisfies(a: Map<Seq<char>, bool>, f: Seq<Seq<Lit>>) -> bool {
    forall|j: int| 0 <= j < f.len() ==> #[trigger] clause_assigned(a, f[j])
}

/// The proposition `x` occurs in the formula.
pub open spec fn mentions(f: Seq<Seq<Lit>>, x: Seq<char>) -> bool {
    exists|j: int, i: int| 0 <= j < f.len() && 0 <= i < f[j].len() && (#[trigger] f[j][i]).1 == x
}

/// Number of literal occurrences in the formula.
pub open spec fn size(f: Seq<Seq<Lit>>) -> nat
    decreases f.len(),
{
    if f.len() == 0 {
        0
    } else {
        size(f.drop_last()) + f.last().len()
    }
}

/// The clause without any occurrence of `l`.
pub open spec fn remove_lit(c: Seq<Lit>, l: Lit) -> Seq<Lit>
    decreases c.len(),
{
    if c.len() == 0 {
        c
    } else {
        let r = remove_lit(c.drop_last(), l);
        if c.last() == l {
            r
        } else {
            r.push(c.last())
        }
    }
}

/// A clause after `l` is made true: gone if it holds `l`, else without
/// the opposite literal.
pub open spec fn subst_clause(c: Seq<Lit>, l: Lit) -> Option<Seq<Lit>> {
    if c.contains(l) {
        None
    } else {
        Some(remove_lit(c, neg_lit(l)))
    }
}

/// A formula after `l` is made true, clause by clause in order.
pub open spec fn subst_cnf(f: Seq<Seq<Lit>>, l: Lit) -> Seq<Seq<Lit>>
    decreases f.len(),
{
    if f.len() == 0 {
        f
    } else {
        let r = subst_cnf(f.drop_last(), l);
        match subst_clause(f.last(), l) {
            Some(c) => r.push(c),
            None => r,
        }
    }
}

/// The literals of the unit clauses of a formula, in order.
pub open spec fn units(f: Seq<Seq<Lit>>) -> Seq<Lit>
    decreases f.len(),
{
    if f.len() == 0 {
        Seq::empty()
    } else if f.last().len() == 1 {
        units(f.drop_last()).push(f.last()[0])
    } else {
        units(f.drop_last())
    }
}

/// Some clause of the formula is empty.
pub open spec fn has_empty_clause(f: Seq<Seq<Lit>>) -> bool {
    exists|j: int| 0 <= j < f.len() && (#[trigger] f[j]).len() == 0
}

// ─── Lemmas on the semantics ──────────────────────────────────────────

pub proof fn lemma_remove_lit(c: Seq<Lit>, l: Lit)
    ensures
        forall|x: Lit| #[trigger] remove_lit(c, l).contains(x) <==> (c.contains(x) && x != l),
        remove_lit(c, l).len() <= c.len(),
        c.contains(l) ==> remove_lit(c, l).len() < c.len(),
    decreases c.len(),
{
    broadcast use vstd::seq_lib::lemma_seq_contains_after_push;

    if c.len() > 0 {
        let p = c.drop_last();
        lemma_remove_lit(p, l);
        assert(c =~= p.push(c.last()));
    }
}

/// The clause of the formula from which clause `k` of the substituted
/// formula comes.
pub proof fn subst_cnf_source(f: Seq<Seq<Lit>>, l: Lit, k: int) -> (j: int)
    requires
        0 <= k < subst_cnf(f, l).len(),
    ensures
        0 <= j < f.len(),
        !f[j].contains(l),
        subst_cnf(f, l)[k] == remove_lit(f[j], neg_lit(l)),
    decreases f.len(),
{
    let p = f.drop_last();
    let r = subst_cnf(p, l);
    if k < r.len() {
        let j = subst_cnf_source(p, l, k);
        assert(f[j] == p[j]);
        j
    } else {
        f.len() - 1
    }
}

/// The clause of the substituted formula that clause `j` becomes.
pub proof fn subst_cnf_target(f: Seq<Seq<Lit>>, l: Lit, j: int) -> (k: int)
    requires
        0 <= j < f.len(),
        !f[j].contains(l),
    ensures
        0 <= k < subst_cnf(f, l).len(),
        subst_cnf(f, l)[k] == remove_lit(f[j], neg_lit(l)),
    decreases f.len(),
{
    let p = f.drop_last();
    let r = subst_cnf(p, l);
    if j < p.len() {
        assert(f[j] == p[j]);
        subst_cnf_target(p, l, j)
    } else {
        r.len() as int
    }
}

/// If a partial assignment makes `l` true and satisfies the substituted
/// formula, it satisfies the formula.
pub proof fn lemma_subst_sound(a: Map<Seq<char>, bool>, f: Seq<Seq<Lit>>, l: Lit)
    requires
        assignment_satisfies(a, subst_cnf(f, l)),
        lit_assigned(a, l),
    ensures
        assignment_satisfies(a, f),
{
    assert forall|j: int| 0 <= j < f.len() implies #[trigger] clause_assigned(a, f[j]) by {
        if f[j].contains(l) {
            let i = choose|i: int| 0 <= i < f[j].len() && f[j][i] == l;
            assert(lit_assigned(a, f[j][i]));
        } else {
            let k = subst_cnf_target(f, l, j);
            let c = subst_cnf(f, l)[k];
            assert(clause_assigned(a, c));
            let i = choose|i: int| 0 <= i < c.len() && #[trigger] lit_assigned(a, c[i]);
            lemma_remove_lit(f[j], neg_lit(l));
            assert(c.contains(c[i]));
            assert(f[j].contains(c[i]));
            let i2 = choose|i2: int| 0 <= i2 < f[j].len() && f[j][i2] == c[i];
            assert(lit_assigned(a, f[j][i2]));
        }
    }
}

/// A total assignment that satisfies a formula and makes `l` true
/// satisfies the substituted formula.
pub proof fn lemma_subst_complete(sigma: spec_fn(Seq<char>) -> bool, f: Seq<Seq<Lit>>, l: Lit)
    requires
        cnf_holds(sigma, f),
        lit_holds(sigma, l),
    ensures
        cnf_holds(sigma, subst_cnf(f, l)),
{
    let g = subst_cnf(f, l);
    assert forall|k: int| 0 <= k < g.len() implies #[trigger] clause_holds(sigma, g[k]) by {
        let j = subst_cnf_source(f, l, k);
        assert(clause_holds(sigma, f[j]));
        let i = choose|i: int| 0 <= i < f[j].len() && #[trigger] lit_holds(sigma, f[j][i]);
        let m = f[j][i];
        lemma_remove_lit(f[j], neg_lit(l));
        assert(f[j].contains(m));
        assert(m != neg_lit(l));
        assert(g[k].contains(m));
        let i2 = choose|i2: int| 0 <= i2 < g[k].len() && g[k][i2] == m;
        assert(lit_holds(sigma, g[k][i2]));
    }
}

/// Substitution removes the proposition of `l` and adds none.
pub proof fn lemma_subst_mentions(f: Seq<Seq<Lit>>, l: Lit, x: Seq<char>)
    requires
        mentions(subst_cnf(f, l), x),
    ensures
        mentions(f, x),
        x != l.1,
{
    let g = subst_cnf(f, l);
    let (k, i) = choose|k: int, i: int| 0 <= k < g.len() && 0 <= i < g[k].len() && (#[trigger] g[k][i]).1 == x;
    let j = subst_cnf_source(f, l, k);
    lemma_remove_lit(f[j], neg_lit(l));
    let m = g[k][i];
    assert(g[k].contains(m));
    assert(f[j].contains(m) && m != neg_lit(l));
    let i2 = choose|i2: int| 0 <= i2 < f[j].len() && f[j][i2] == m;
    assert(f[j][i2].1 == x);
    assert(m != l);
    if x == l.1 {
        if m.0 == l.0 {
            assert(m == (m.0, m.1));
            assert(m == l);
        } else {
            assert(m == neg_lit(l));
        }
    }
}

pub proof fn lemma_size_push(f: Seq<Seq<Lit>>, c: Seq<Lit>)
    ensures
        size(f.push(c)) == size(f) + c.len(),
{
    assert(f.push(c).drop_last() =~= f);
}

pub proof fn lemma_subst_size(f: Seq<Seq<Lit>>, l: Lit)
    ensures
        size(subst_cnf(f, l)) <= size(f),
        mentions(f, l.1) ==> size(subst_cnf(f, l)) < size(f),
    decreases f.len(),
{
    if f.len() > 0 {
        let p = f.drop_last();
        lemma_subst_size(p, l);
        let c = f.last();
        let r = subst_cnf(p, l);
        lemma_remove_lit(c, neg_lit(l));
        match subst_clause(c, l) {
            Some(c2) => {
                lemma_size_push(r, c2);
            },
            None => {},
        }
        if mentions(f, l.1) {
            let (j, i) = choose|j: int, i: int| 0 <= j < f.len() && 0 <= i < f[j].len() && (#[trigger] f[j][i]).1 == l.1;
            if j < p.len() {
                assert(p[j][i].1 == l.1);
                assert(mentions(p, l.1));
            } else {
                assert(c[i].1 == l.1);
                if !c.contains(l) {
                    assert(c[i] != l);
                    let m = c[i];
                    assert(m == (m.0, m.1));
                    assert(c[i] == neg_lit(l));
                    assert(c.contains(neg_lit(l)));
                }
            }
        }
    }
}

/// The unit clause from which unit literal `k` comes.
pub proof fn units_source(f: Seq<Seq<Lit>>, k: int) -> (j: int)
    requires
        0 <= k < units(f).len(),
    ensures
        0 <= j < f.len(),
        f[j].len() == 1,
        units(f)[k] == f[j][0],
    decreases f.len(),
{
    let p = f.drop_last();
    if k < units(p).len() {
        let j = units_source(p, k);
        assert(f[j] == p[j]);
        j
    } else {
        f.len() - 1
    }
}

/// Without unit literals there is no unit clause.
pub proof fn lemma_no_units(f: Seq<Seq<Lit>>, j: int)
    requires
        units(f).len() == 0,
        0 <= j < f.len(),
    ensures
        f[j].len() != 1,
    decreases f.len(),
{
    let p = f.drop_last();
    if j < p.len() {
        assert(f[j] == p[j]);
        lemma_no_units(p, j);
    }
}

pub proof fn lemma_unit_holds(sigma: spec_fn(Seq<char>) -> bool, f: Seq<Seq<Lit>>, k: int)
    requires
        cnf_holds(sigma, f),
        0 <= k < units(f).len(),
    ensures
        lit_holds(sigma, units(f)[k]),
{
    let j = units_source(f, k);
    assert(clause_holds(sigma, f[j]));
}

pub proof fn lemma_unit_mentioned(f: Seq<Seq<Lit>>, k: int)
    requires
        0 <= k < units(f).len(),
    ensures
        mentions(f, units(f)[k].1),
{
    let j = units_source(f, k);
    assert(f[j][0].1 == units(f)[k].1);
}

/// An empty clause cannot hold.
pub proof fn lemma_empty_clause_unsat(f: Seq<Seq<Lit>>)
    requires
        has_empty_clause(f),
    ensures
        !satisfiable(f),
{
    let j = choose|j: int| 0 <= j < f.len() && (#[trigger] f[j]).len() == 0;
    assert forall|sigma: spec_fn(Seq<char>) -> bool| !#[trigger] cnf_holds(sigma, f) by {
        if cnf_holds(sigma, f) {
            assert(clause_holds(sigma, f[j]));
        }
    }
}

/// A partial assignment that satisfies a formula extends to a total one.
pub proof fn lemma_assignment_extends(a: Map<Seq<char>, bool>, f: Seq<Seq<Lit>>)
    requires
        assignment_satisfies(a, f),
    ensures
        satisfiable(f),
{
    let sigma = |x: Seq<char>| if a.contains_key(x) { a[x] } else { false };
    assert forall|j: int| 0 <= j < f.len() implies #[trigger] clause_holds(sigma, f[j]) by {
        assert(clause_assigned(a, f[j]));
        let i = choose|i: int| 0 <= i < f[j].len() && #[trigger] lit_assigned(a, f[j][i]);
        assert(lit_holds(sigma, f[j][i]));
    }
    assert(cnf_holds(sigma, f));
}

// ─── Literals ─────────────────────────────────────────────────────────

/// A proposition or its negation.
#[derive(Debug, PartialEq, Eq, Hash)]
pub enum Literal {
    Pos(String),
    Neg(String),
}

impl View for Literal {
    type V = Lit;

    open spec fn view(&self) -> Lit {
        match self {
            Literal::Pos(n) => (true, n@),
            Literal::Neg(n) => (false, n@),
        }
    }
}

impl Clone for Literal {
    fn clone(&self) -> (r: Self)
        ensures
            r@ == self@,
    {
        match self {
            Literal::Pos(n) => Literal::Pos(n.clone()),
            Literal::Neg(n) => Literal::Neg(n.clone()),
        }
    }
}

/// Two literals hold the same polarity and name.
pub fn lit_equal(a: &Literal, b: &Literal) -> (r: bool)
    ensures
        r == (a@ == b@),
{
    match (a, b) {
        (Literal::Pos(x), Literal::Pos(y)) => str_eq(x.as_str(), y.as_str()),
        (Literal::Neg(x), Literal::Neg(y)) => str_eq(x.as_str(), y.as_str()),
        _ => false,
    }
}

impl Literal {
    /// The positive literal of `name`.
    pub fn pos(name: &str) -> (r: Self)
        ensures
            r@ == (true, name@),
    {
        Literal::Pos(name.to_owned())
    }

    /// The negative literal of `name`.
    pub fn neg(name: &str) -> (r: Self)
        ensures
            r@ == (false, name@),
    {
        Literal::Neg(name.to_owned())
    }

    /// The proposition name.
    pub fn name(&self) -> (r: &str)
        ensures
            r@ == self@.1,
    {
        match self {
            Literal::Pos(n) => n.as_str(),
            Literal::Neg(n) => n.as_str(),
        }
    }

    /// Whether the literal is positive.
    pub fn is_positive(&self) -> (r: bool)
        ensures
            r == self@.0,
    {
        match self {
            Literal::Pos(_) => true,
            Literal::Neg(_) => false,
        }
    }

    /// The opposite literal.
    pub fn negate(&self) -> (r: Self)
        ensures
            r@ == neg_lit(self@),
    {
        match self {
            Literal::Pos(n) => Literal::Neg(n.clone()),
            Literal::Neg(n) => Literal::Pos(n.clone()),
        }
    }

    /// Whether `other` is the opposite literal.
    pub fn is_complement(&self, other: &Literal) -> (r: bool)
        ensures
            r == complementary(self@, other@),
    {
        let n = other.negate();
        lit_equal(self, &n)
    }
}

// ─── Clauses ──────────────────────────────────────────────────────────

/// A disjunction of literals.
#[derive(Debug, PartialEq, Eq)]
pub struct Clause {
    pub literals: Vec<Literal>,
}

impl View for Clause {
    type V = Seq<Lit>;

    open spec fn view(&self) -> Seq<Lit> {
        self.literals@.map_values(|l: Literal| l@)
    }
}

impl Clone for Clause {
    fn clone(&self) -> (r: Self)
        ensures
            r@ == self@,
    {
        let mut out: Vec<Literal> = Vec::new();
        let mut i: usize = 0;
        while i < self.literals.len()
            invariant
                i <= self.literals@.len(),
                out@.len() == i,
                forall|k: int| 0 <= k < i ==> #[trigger] out@[k]@ == self.literals@[k]@,
            decreases self.literals@.len() - i,
        {
            out.push(self.literals[i].clone());
            i = i + 1;
        }
        let r = Clause { literals: out };
        assert(r@ =~= self@);
        r
    }
}

impl Clause {
    pub fn new(literals: Vec<Literal>) -> (r: Self)
        ensures
            r.literals@ == literals@,
            r@ == literals@.map_values(|l: Literal| l@),
    {
        Clause { literals }
    }

    /// The clause with the positive literals of `pos` followed by the
    /// negative literals of `neg`.
    pub fn from_strs(pos: &[&str], neg: &[&str]) -> (r: Self)
        ensures
            r@ == pos@.map_values(|s: &str| (true, s@)) + neg@.map_values(|s: &str| (false, s@)),
    {
        let mut lits: Vec<Literal> = Vec::new();
        let mut i: usize = 0;
        while i < pos.len()
            invariant
                i <= pos@.len(),
                lits@.len() == i,
                forall|t: int| 0 <= t < i ==> #[trigger] lits@[t]@ == (true, pos@[t]@),
            decreases pos@.len() - i,
        {
            lits.push(Literal::pos(pos[i]));
            i = i + 1;
        }
        let mut k: usize = 0;
        while k < neg.len()
            invariant
                k <= neg@.len(),
                i == pos@.len(),
                lits@.len() == i + k,
                forall|t: int| 0 <= t < i ==> #[trigger] lits@[t]@ == (true, pos@[t]@),
                forall|t: int| 0 <= t < k ==> #[trigger] lits@[i + t]@ == (false, neg@[t]@),
            decreases neg@.len() - k,
        {
            lits.push(Literal::neg(neg[k]));
            proof {
                assert(lits@[i + k as int]@ == (false, neg@[k as int]@));
            }
            k = k + 1;
        }
        let r = Clause::new(lits);
        proof {
            let expected = pos@.map_values(|s: &str| (true, s@)) + neg@.map_values(|s: &str| (false, s@));
            assert forall|t: int| 0 <= t < r@.len() implies r@[t] == expected[t] by {
                if t >= i {
                    assert(lits@[i + (t - i)]@ == (false, neg@[t - i]@));
                }
            }
            assert(r@ =~= expected);
        }
        r
    }

    /// The empty clause (false).
    pub fn empty() -> (r: Self)
        ensures
            r@ == Seq::<Lit>::empty(),
    {
        let r = Clause::new(Vec::new());
        assert(r@ =~= Seq::<Lit>::empty());
        r
    }

    pub fn is_empty(&self) -> (r: bool)
        ensures
            r == (self@.len() == 0),
    {
        self.literals.len() == 0
    }

    /// Whether two complementary literals occur in the clause.
    pub fn is_tautology(&self) -> (r: bool)
        ensures
            r == (exists|i: int, j: int|
                0 <= i < j < self@.len() && #[trigger] complementary(self@[i], self@[j])),
    {
        let n = self.literals.len();
        let mut j: usize = 0;
        while j < n
            invariant
                n == self@.len(),
                j <= n,
                forall|a: int, b: int| 0 <= a < b < j ==> !#[trigger] complementary(self@[a], self@[b]),
            decreases n - j,
        {
            let mut i: usize = 0;
            while i < j
                invariant
                    n == self@.len(),
                    i <= j < n,
                    forall|a: int, b: int| 0 <= a < b < j ==> !#[trigger] complementary(self@[a], self@[b]),
                    forall|a: int| 0 <= a < i ==> !#[trigger] complementary(self@[a], self@[j as int]),
                decreases j - i,
            {
                if self.literals[i].is_complement(&self.literals[j]) {
                    assert(complementary(self@[i as int], self@[j as int]));
                    return true;
                }
                i = i + 1;
            }
            j = j + 1;
        }
        false
    }

    pub fn is_unit(&self) -> (r: bool)
        ensures
            r == (self@.len() == 1),
    {
        self.literals.len() == 1
    }

    /// The literal of a unit clause.
    pub fn unit_literal(&self) -> (r: Option<&Literal>)
        ensures
            r.is_some() == (self@.len() == 1),
            r matches Some(l) ==> l@ == self@[0],
    {
        if self.is_unit() {
            Some(&self.literals[0])
        } else {
            None
        }
    }

    pub fn contains(&self, lit: &Literal) -> (r: bool)
        ensures
            r == self@.contains(lit@),
    {
        let mut i: usize = 0;
        while i < self.literals.len()
            invariant
                i <= self@.len(),
                forall|k: int| 0 <= k < i ==> self@[k] != lit@,
            decreases self@.len() - i,
        {
            if lit_equal(&self.literals[i], lit) {
                assert(self@[i as int] == lit@);
                return true;
            }
            i = i + 1;
        }
        false
    }

    /// `None` when the clause holds `lit` (it is satisfied), else the
    /// clause without the opposite literal.
    pub fn substitute_true(&self, lit: &Literal) -> (r: Option<Clause>)
        ensures
            match r {
                None => subst_clause(self@, lit@) is None,
                Some(c) => subst_clause(self@, lit@) == Some(c@),
            },
    {
        if self.contains(lit) {
            return None;
        }
        let opposite = lit.negate();
        let mut out: Vec<Literal> = Vec::new();
        let mut i: usize = 0;
        while i < self.literals.len()
            invariant
                i <= self@.len(),
                opposite@ == neg_lit(lit@),
                out@.map_values(|l: Literal| l@) =~= remove_lit(self@.take(i as int), neg_lit(lit@)),
            decreases self@.len() - i,
        {
            proof {
                assert(self@.take(i as int + 1).drop_last() =~= self@.take(i as int));
            }
            if !lit_equal(&self.literals[i], &opposite) {
                out.push(self.literals[i].clone());
            }
            i = i + 1;
        }
        assert(self@.take(i as int) =~= self@);
        Some(Clause::new(out))
    }
}

// ─── CNF formulas ─────────────────────────────────────────────────────

/// A conjunction of clauses.
#[derive(Debug)]
pub struct CNF {
    pub clauses: Vec<Clause>,
}

impl View for CNF {
    type V = Seq<Seq<Lit>>;

    open spec fn view(&self) -> Seq<Seq<Lit>> {
        self.clauses@.map_values(|c: Clause| c@)
    }
}

impl Clone for CNF {
    fn clone(&self) -> (r: Self)
        ensures
            r@ == self@,
    {
        let mut out: Vec<Clause> = Vec::new();
        let mut i: usize = 0;
        while i < self.clauses.len()
            invariant
                i <= self.clauses@.len(),
                out@.len() == i,
                forall|k: int| 0 <= k < i ==> #[trigger] out@[k]@ == self.clauses@[k]@,
            decreases self.clauses@.len() - i,
        {
            out.push(self.clauses[i].clone());
            i = i + 1;
        }
        let r = CNF { clauses: out };
        assert(r@ =~= self@);
        r
    }
}

/// A set of proposition names, each held once.
#[derive(Debug)]
pub struct VarSet {
    names: Vec<String>,
}

impl View for VarSet {
    type V = Seq<Seq<char>>;

    closed spec fn view(&self) -> Seq<Seq<char>> {
        self.names@.map_values(|s: String| s@)
    }
}

impl VarSet {
    pub fn contains(&self, name: &str) -> (r: bool)
        ensures
            r == self@.contains(name@),
    {
        let mut i: usize = 0;
        while i < self.names.len()
            invariant
                i <= self@.len(),
                forall|k: int| 0 <= k < i ==> self@[k] != name@,
            decreases self@.len() - i,
        {
            if str_eq(self.names[i].as_str(), name) {
                assert(self@[i as int] == name@);
                return true;
            }
            i = i + 1;
        }
        false
    }

    pub fn len(&self) -> (r: usize)
        ensures
            r == self@.len(),
    {
        self.names.len()
    }

    pub fn is_empty(&self) -> (r: bool)
        ensures
            r == (self@.len() == 0),
    {
        self.names.len() == 0
    }

    /// The name at position `i` of the set's enumeration.
    pub fn name_at(&self, i: usize) -> (r: &str)
        requires
            i < self@.len(),
        ensures
            r@ == self@[i as int],
    {
        self.names[i].as_str()
    }
}

/// A partial truth assignment: proposition names with their values.
#[derive(Debug)]
pub struct Assignment {
    entries: Vec<(String, bool)>,
}

/// The map of a list of entries; a later entry wins.
pub open spec fn entries_map(s: Seq<(String, bool)>) -> Map<Seq<char>, bool>
    decreases s.len(),
{
    if s.len() == 0 {
        Map::empty()
    } else {
        entries_map(s.drop_last()).insert(s.last().0@, s.last().1)
    }
}

impl View for Assignment {
    type V = Map<Seq<char>, bool>;

    closed spec fn view(&self) -> Map<Seq<char>, bool> {
        entries_map(self.entries@)
    }
}

impl Clone for Assignment {
    fn clone(&self) -> (r: Self)
        ensures
            r@ == self@,
    {
        let mut out: Vec<(String, bool)> = Vec::new();
        let mut i: usize = 0;
        while i < self.entries.len()
            invariant
                i <= self.entries@.len(),
                out@.len() == i,
                forall|k: int|
                    0 <= k < i ==> (#[trigger] out@[k]).0@ == self.entries@[k].0@ && out@[k].1
                        == self.entries@[k].1,
            decreases self.entries@.len() - i,
        {
            let (n, v) = &self.entries[i];
            out.push((n.clone(), *v));
            i = i + 1;
        }
        proof {
            lemma_entries_map_eq(out@, self.entries@);
        }
        Assignment { entries: out }
    }
}

proof fn lemma_entries_map_eq(a: Seq<(String, bool)>, b: Seq<(String, bool)>)
    requires
        a.len() == b.len(),
        forall|k: int| 0 <= k < a.len() ==> (#[trigger] a[k]).0@ == b[k].0@ && a[k].1 == b[k].1,
    ensures
        entries_map(a) == entries_map(b),
    decreases a.len(),
{
    if a.len() > 0 {
        lemma_entries_map_eq(a.drop_last(), b.drop_last());
        assert(a.last() == a[a.len() - 1]);
    }
}

proof fn lemma_entries_map_lookup(s: Seq<(String, bool)>, i: int, name: Seq<char>)
    requires
        0 <= i <= s.len(),
        forall|k: int| i <= k < s.len() ==> (#[trigger] s[k]).0@ != name,
    ensures
        entries_map(s).contains_key(name) == entries_map(s.take(i)).contains_key(name),
        entries_map(s).contains_key(name) ==> entries_map(s)[name] == entries_map(s.take(i))[name],
    decreases s.len() - i,
{
    if i < s.len() {
        lemma_entries_map_lookup(s.drop_last(), i, name);
        assert(s.drop_last().take(i) =~= s.take(i));
    } else {
        assert(s.take(i) =~= s);
    }
}

impl Assignment {
    /// The empty assignment.
    pub fn new() -> (r: Self)
        ensures
            r@ == Map::<Seq<char>, bool>::empty(),
    {
        Assignment { entries: Vec::new() }
    }

    /// The value given to `name`, if any.
    pub fn get(&self, name: &str) -> (r: Option<&bool>)
        ensures
            r.is_some() == self@.contains_key(name@),
            r matches Some(b) ==> *b == self@[name@],
    {
        let mut i: usize = self.entries.len();
        while i > 0
            invariant
                i <= self.entries@.len(),
                forall|k: int| i <= k < self.entries@.len() ==> (#[trigger] self.entries@[k]).0@ != name@,
            decreases i,
        {
            let e = &self.entries[i - 1];
            if str_eq(e.0.as_str(), name) {
                proof {
                    let s = self.entries@;
                    lemma_entries_map_lookup(s, i as int, name@);
                    assert(s.take(i as int).drop_last() =~= s.take(i as int - 1));
                    assert(s.take(i as int).last() == s[i - 1]);
                }
                return Some(&e.1);
            }
            i = i - 1;
        }
        proof {
            lemma_entries_map_lookup(self.entries@, 0, name@);
            assert(self.entries@.take(0) =~= Seq::<(String, bool)>::empty());
        }
        None
    }

    /// Give `name` the value `value`, replacing an earlier value.
    pub fn insert(&mut self, name: String, value: bool)
        ensures
            final(self)@ == old(self)@.insert(name@, value),
    {
        self.entries.push((name, value));
        proof {
            assert(self.entries@.drop_last() =~= old(self).entries@);
        }
    }
}

impl CNF {
    pub fn new(clauses: Vec<Clause>) -> (r: Self)
        ensures
            r.clauses@ == clauses@,
            r@ == clauses@.map_values(|c: Clause| c@),
    {
        CNF { clauses }
    }

    /// The empty formula (true).
    pub fn empty() -> (r: Self)
        ensures
            r@ == Seq::<Seq<Lit>>::empty(),
    {
        let r = CNF::new(Vec::new());
        assert(r@ =~= Seq::<Seq<Lit>>::empty());
        r
    }

    pub fn is_empty(&self) -> (r: bool)
        ensures
            r == (self@.len() == 0),
    {
        self.clauses.len() == 0
    }

    /// Whether some clause is empty (the formula is then unsatisfiable).
    pub fn contains_empty(&self) -> (r: bool)
        ensures
            r == has_empty_clause(self@),
    {
        let mut j: usize = 0;
        while j < self.clauses.len()
            invariant
                j <= self@.len(),
                forall|k: int| 0 <= k < j ==> (#[trigger] self@[k]).len() != 0,
            decreases self@.len() - j,
        {
            if self.clauses[j].is_empty() {
                assert(self@[j as int].len() == 0);
                return true;
            }
            j = j + 1;
        }
        false
    }

    /// The propositions that occur in the formula, each once.
    pub fn variables(&self) -> (r: VarSet)
        ensures
            forall|x: Seq<char>| #[trigger] r@.contains(x) <==> mentions(self@, x),
            r@.no_duplicates(),
    {
        let mut vars = VarSet { names: Vec::new() };
        let mut j: usize = 0;
        while j < self.clauses.len()
            invariant
                j <= self@.len(),
                vars@.no_duplicates(),
                forall|x: Seq<char>| #[trigger] vars@.contains(x) <==> mentions(self@.take(j as int), x),
            decreases self@.len() - j,
        {
            let c = &self.clauses[j];
            let mut i: usize = 0;
            while i < c.literals.len()
                invariant
                    j < self@.len(),
                    c@ == self@[j as int],
                    i <= c@.len(),
                    vars@.no_duplicates(),
                    forall|x: Seq<char>| #[trigger] vars@.contains(x) <==> (mentions(self@.take(j as int), x)
                        || exists|k: int| 0 <= k < i && c@[k].1 == x),
                decreases c@.len() - i,
            {
                let name = c.literals[i].name();
                let ghost before = vars@;
                if !vars.contains(name) {
                    vars.names.push(name.to_owned());
                    assert(vars@ =~= before.push(name@));
                }
                proof {
                    broadcast use vstd::seq_lib::lemma_seq_contains_after_push;
                    assert(forall|x: Seq<char>| #[trigger] vars@.contains(x) <==> (before.contains(x) || x == name@));
                    assert forall|x: Seq<char>| #[trigger] vars@.contains(x) <==> (mentions(self@.take(j as int), x)
                        || exists|k: int| 0 <= k < i + 1 && c@[k].1 == x) by {
                        if x == name@ {
                            assert(c@[i as int].1 == x);
                        }
                    }
                }
                i = i + 1;
            }
            proof {
                let t = self@.take(j as int + 1);
                assert forall|x: Seq<char>| #[trigger] vars@.contains(x) <==> mentions(t, x) by {
                    if mentions(t, x) {
                        let (a, b) = choose|a: int, b: int| 0 <= a < t.len() && 0 <= b < t[a].len() && (#[trigger] t[a][b]).1 == x;
                        if a < j {
                            assert(self@.take(j as int)[a][b].1 == x);
                        } else {
                            assert(c@[b].1 == x);
                        }
                    }
                    if mentions(self@.take(j as int), x) {
                        let (a, b) = choose|a: int, b: int| 0 <= a < j && 0 <= b < self@.take(j as int)[a].len() && (#[trigger] self@.take(j as int)[a][b]).1 == x;
                        assert(t[a][b].1 == x);
                    }
                    if exists|k: int| 0 <= k < c@.len() && c@[k].1 == x {
                        let k = choose|k: int| 0 <= k < c@.len() && c@[k].1 == x;
                        assert(t[j as int][k].1 == x);
                    }
                }
            }
            j = j + 1;
        }
        assert(self@.take(j as int) =~= self@);
        vars
    }

    /// The literals of the unit clauses, in order.
    pub fn unit_clauses(&self) -> (r: Vec<&Literal>)
        ensures
            r@.map_values(|l: &Literal| l@) == units(self@),
    {
        let mut out: Vec<&Literal> = Vec::new();
        let mut j: usize = 0;
        while j < self.clauses.len()
            invariant
                j <= self@.len(),
                out@.map_values(|l: &Literal| l@) =~= units(self@.take(j as int)),
            decreases self@.len() - j,
        {
            proof {
                assert(self@.take(j as int + 1).drop_last() =~= self@.take(j as int));
            }
            match self.clauses[j].unit_literal() {
                Some(l) => {
                    out.push(l);
                },
                None => {},
            }
            j = j + 1;
        }
        assert(self@.take(j as int) =~= self@);
        out
    }

    /// The formula after `lit` is made true: satisfied clauses dropped,
    /// the opposite literal removed from the others.
    pub fn substitute_true(&self, lit: &Literal) -> (r: CNF)
        ensures
            r@ == subst_cnf(self@, lit@),
    {
        let mut out: Vec<Clause> = Vec::new();
        let mut j: usize = 0;
        while j < self.clauses.len()
            invariant
                j <= self@.len(),
                out@.map_values(|c: Clause| c@) =~= subst_cnf(self@.take(j as int), lit@),
            decreases self@.len() - j,
        {
            proof {
                assert(self@.take(j as int + 1).drop_last() =~= self@.take(j as int));
            }
            match self.clauses[j].substitute_true(lit) {
                Some(c) => {
                    out.push(c);
                },
                None => {},
            }
            j = j + 1;
        }
        assert(self@.take(j as int) =~= self@);
        CNF::new(out)
    }

    pub fn len(&self) -> (r: usize)
        ensures
            r == self@.len(),
    {
        self.clauses.len()
    }
}

} // verus!
