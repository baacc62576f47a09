//! First-order languages: signatures, terms and formulas, their
//! variables, and the theories of equivalence relations and linear orders.
use vstd::prelude::*;
use crate::search::resolution::{lemma_name_lt_irreflexive, lemma_name_lt_total, lemma_name_lt_transitive, name_less, name_lt};
use crate::text::str_eq;
use vstd::string::StringExecFns;

pub mod semantics;

verus! {

// ─── Signatures ───────────────────────────────────────────────────────

/// A first-order signature: function and relation symbols with their
/// arities, and constant symbols.
#[derive(Debug)]
pub struct Signature {
    pub functions: Vec<(String, usize)>,
    pub relations: Vec<(String, usize)>,
    pub constants: Vec<String>,
}

/// Symbols with their arities, by name.
pub open spec fn symbols(v: Seq<(String, usize)>) -> Seq<(Seq<char>, usize)> {
    v.map_values(|p: (String, usize)| (p.0@, p.1))
}

/// The arity of the first symbol named `name`.
pub open spec fn first_arity(s: Seq<(Seq<char>, usize)>, name: Seq<char>) -> Option<usize>
    decreases s.len(),
{
    if s.len() == 0 {
        None
    } else if s[0].0 == name {
        Some(s[0].1)
    } else {
        first_arity(s.drop_first(), name)
    }
}

/// The names of a list of strings.
pub open spec fn names(v: Seq<String>) -> Seq<Seq<char>> {
    v.map_values(|s: String| s@)
}

/// The arity of the first symbol of `v` named `name`.
fn find_arity(v: &Vec<(String, usize)>, name: &str) -> (r: Option<usize>)
    ensures
        r == first_arity(symbols(v@), name@),
{
    let mut i: usize = 0;
    assert(symbols(v@).skip(0) =~= symbols(v@));
    while i < v.len()
        invariant
            i <= v@.len(),
            first_arity(symbols(v@), name@) == first_arity(symbols(v@).skip(i as int), name@),
        decreases v@.len() - i,
    {
        proof {
            let s = symbols(v@).skip(i as int);
            assert(s.drop_first() =~= symbols(v@).skip(i as int + 1));
            assert(s[0] == (v@[i as int].0@, v@[i as int].1));
        }
        if str_eq(v[i].0.as_str(), name) {
            return Some(v[i].1);
        }
        i = i + 1;
    }
    proof {
        assert(symbols(v@).skip(i as int) =~= Seq::<(Seq<char>, usize)>::empty());
    }
    None
}

impl Signature {
    /// The empty signature.
    pub fn new() -> (r: Self)
        ensures
            r.functions@.len() == 0,
            r.relations@.len() == 0,
            r.constants@.len() == 0,
    {
        Signature { functions: Vec::new(), relations: Vec::new(), constants: Vec::new() }
    }

    /// Adds a function symbol.
    pub fn add_function(self, name: &str, arity: usize) -> (r: Self)
        ensures
            symbols(r.functions@) == symbols(self.functions@).push((name@, arity)),
            r.relations == self.relations,
            r.constants == self.constants,
    {
        let mut s = self;
        let ghost before = s.functions@;
        s.functions.push((String::from_str(name), arity));
        proof {
            assert(symbols(s.functions@) =~= symbols(before).push((name@, arity)));
        }
        s
    }

    /// Adds a relation symbol.
    pub fn add_relation(self, name: &str, arity: usize) -> (r: Self)
        ensures
            symbols(r.relations@) == symbols(self.relations@).push((name@, arity)),
            r.functions == self.functions,
            r.constants == self.constants,
    {
        let mut s = self;
        let ghost before = s.relations@;
        s.relations.push((String::from_str(name), arity));
        proof {
            assert(symbols(s.relations@) =~= symbols(before).push((name@, arity)));
        }
        s
    }

    /// Adds a constant symbol.
    pub fn add_constant(self, name: &str) -> (r: Self)
        ensures
            names(r.constants@) == names(self.constants@).push(name@),
            r.functions == self.functions,
            r.relations == self.relations,
    {
        let mut s = self;
        let ghost before = s.constants@;
        s.constants.push(String::from_str(name));
        proof {
            assert(names(s.constants@) =~= names(before).push(name@));
        }
        s
    }

    /// The arity of the function symbol `name`.
    pub fn function_arity(&self, name: &str) -> (r: Option<usize>)
        ensures
            r == first_arity(symbols(self.functions@), name@),
    {
        find_arity(&self.functions, name)
    }

    /// The arity of the relation symbol `name`.
    pub fn relation_arity(&self, name: &str) -> (r: Option<usize>)
        ensures
            r == first_arity(symbols(self.relations@), name@),
    {
        find_arity(&self.relations, name)
    }
}

impl Default for Signature {
    fn default() -> (r: Self)
        ensures
            r.functions@.len() == 0,
            r.relations@.len() == 0,
            r.constants@.len() == 0,
    {
        Signature::new()
    }
}

// ─── Terms and formulas ───────────────────────────────────────────────

/// A first-order term.
#[derive(Debug, PartialEq, Eq)]
pub enum Term {
    /// A variable x.
    Var(String),
    /// A constant c.
    Const(String),
    /// An application f(t₁, …, tₙ).
    Func(String, Vec<Term>),
}

/// A first-order formula.
#[derive(Debug, PartialEq, Eq)]
pub enum Formula {
    True,
    False,
    /// t₁ = t₂
    Eq(Term, Term),
    /// R(t₁, …, tₙ)
    Rel(String, Vec<Term>),
    /// ¬φ
    Not(Box<Formula>),
    /// φ ∧ ψ
    And(Box<Formula>, Box<Formula>),
    /// φ ∨ ψ
    Or(Box<Formula>, Box<Formula>),
    /// φ → ψ
    Impl(Box<Formula>, Box<Formula>),
    /// ∀x. φ
    Forall(String, Box<Formula>),
    /// ∃x. φ
    Exists(String, Box<Formula>),
}

/// The variables of a term.
pub open spec fn term_vars(t: Term) -> Set<Seq<char>>
    decreases t, 1nat, 0int,
{
    match t {
        Term::Var(x) => set![x@],
        Term::Const(_) => Set::empty(),
        Term::Func(_, args) => args_vars(t, args@.len() as int),
    }
}

/// The variables of the first `n` arguments of `t`.
pub open spec fn args_vars(t: Term, n: int) -> Set<Seq<char>>
    decreases t, 0nat, n,
{
    match t {
        Term::Func(_, args) => if n <= 0 || n > args@.len() {
            Set::empty()
        } else {
            proof {
                assert(decreases_to!(t => t->Func_1));
                assert(decreases_to!(args => args@));
                assert(decreases_to!(args@ => args@[n - 1]));
            }
            args_vars(t, n - 1).union(term_vars(args@[n - 1]))
        },
        _ => Set::empty(),
    }
}

/// The variables of a list of terms.
pub open spec fn list_vars(ts: Seq<Term>) -> Set<Seq<char>>
    decreases ts.len(),
{
    if ts.len() == 0 {
        Set::empty()
    } else {
        list_vars(ts.drop_last()).union(term_vars(ts.last()))
    }
}

/// The free variables of a formula.
pub open spec fn free_vars(f: Formula) -> Set<Seq<char>>
    decreases f,
{
    match f {
        Formula::True | Formula::False => Set::empty(),
        Formula::Eq(t1, t2) => term_vars(t1).union(term_vars(t2)),
        Formula::Rel(_, args) => list_vars(args@),
        Formula::Not(g) => free_vars(*g),
        Formula::And(g, h) | Formula::Or(g, h) | Formula::Impl(g, h) => free_vars(*g).union(free_vars(*h)),
        Formula::Forall(x, g) | Formula::Exists(x, g) => free_vars(*g).remove(x@),
    }
}

/// Names in strictly increasing order.
pub open spec fn sorted_names(v: Seq<String>) -> bool {
    forall|i: int, j: int| 0 <= i < j < v.len() ==> name_lt(v[i]@, v[j]@)
}

/// The names of a list, as a set.
pub open spec fn name_set(v: Seq<String>) -> Set<Seq<char>> {
    names(v).to_set()
}

/// Where `s` goes among the strictly increasing names `v`: the index of
/// an equal name (`true`), else the index of the first greater name.
fn slot_of(v: &Vec<String>, s: &str) -> (r: (usize, bool))
    requires
        sorted_names(v@),
    ensures
        r.0 <= v@.len(),
        r.1 ==> r.0 < v@.len() && v@[r.0 as int]@ == s@,
        !r.1 ==> (forall|q: int| 0 <= q < r.0 ==> name_lt(v@[q]@, s@)) && (forall|q: int|
            r.0 <= q < v@.len() ==> name_lt(s@, v@[q]@)),
{
    let mut p: usize = 0;
    while p < v.len()
        invariant
            p <= v@.len(),
            sorted_names(v@),
            forall|q: int| 0 <= q < p ==> name_lt(v@[q]@, s@),
        decreases v@.len() - p,
    {
        if str_eq(v[p].as_str(), s) {
            return (p, true);
        }
        if name_less(s, v[p].as_str()) {
            proof {
                assert forall|q: int| p <= q < v@.len() implies name_lt(s@, v@[q]@) by {
                    if q > p {
                        lemma_name_lt_transitive(s@, v@[p as int]@, v@[q]@);
                    }
                }
            }
            return (p, false);
        }
        proof {
            lemma_name_lt_total(s@, v@[p as int]@);
        }
        p = p + 1;
    }
    (p, false)
}

/// Inserts `s` into the strictly increasing names `v`, unless it is there.
fn insert_sorted(v: &mut Vec<String>, s: String)
    requires
        sorted_names(old(v)@),
    ensures
        sorted_names(final(v)@),
        name_set(final(v)@) == name_set(old(v)@).insert(s@),
{
    let ghost sv = s@;
    let (p, dup) = slot_of(v, s.as_str());
    if dup {
        proof {
            assert(names(v@)[p as int] == sv);
            assert(name_set(v@).contains(sv));
            assert(name_set(v@).insert(sv) =~= name_set(v@));
        }
        return;
    }
    let ghost before = v@;
    v.insert(p, s);
    proof {
        assert(v@ == before.insert(p as int, v@[p as int]));
        assert(v@[p as int]@ == sv);
        assert forall|i: int, j: int| 0 <= i < j < v@.len() implies name_lt(v@[i]@, v@[j]@) by {
            if j < p {
                assert(v@[i] == before[i] && v@[j] == before[j]);
            } else if j == p {
                assert(v@[i] == before[i]);
            } else if i < p {
                assert(v@[i] == before[i] && v@[j] == before[j - 1]);
                lemma_name_lt_transitive(v@[i]@, sv, v@[j]@);
            } else if i == p {
                assert(v@[j] == before[j - 1]);
            } else {
                assert(v@[i] == before[i - 1] && v@[j] == before[j - 1]);
            }
        }
        assert(names(v@) =~= names(before).insert(p as int, sv));
        assert forall|k: Seq<char>| name_set(v@).contains(k) <==> name_set(before).insert(sv).contains(k) by {
            if name_set(v@).contains(k) {
                let i = choose|i: int| 0 <= i < names(v@).len() && names(v@)[i] == k;
                if i < p {
                    assert(names(before)[i] == k);
                } else if i > p {
                    assert(names(before)[i - 1] == k);
                }
            }
            if name_set(before).contains(k) {
                let i = choose|i: int| 0 <= i < names(before).len() && names(before)[i] == k;
                if i < p {
                    assert(names(v@)[i] == k);
                } else {
                    assert(names(v@)[i + 1] == k);
                }
            }
            if k == sv {
                assert(names(v@)[p as int] == k);
            }
        }
        assert(name_set(v@) =~= name_set(before).insert(sv));
    }
}

/// Inserts every name of `w` into the strictly increasing names `v`.
fn insert_all(v: &mut Vec<String>, w: &Vec<String>)
    requires
        sorted_names(old(v)@),
    ensures
        sorted_names(final(v)@),
        name_set(final(v)@) == name_set(old(v)@).union(name_set(w@)),
{
    let ghost start = name_set(v@);
    let mut i: usize = 0;
    while i < w.len()
        invariant
            i <= w@.len(),
            sorted_names(v@),
            name_set(v@) == start.union(name_set(w@.take(i as int))),
        decreases w@.len() - i,
    {
        insert_sorted(v, w[i].clone());
        proof {
            assert(names(w@.take(i as int + 1)) =~= names(w@.take(i as int)).push(w@[i as int]@));
            crate::zf::lemma_push_to_set(names(w@.take(i as int)), w@[i as int]@);
            assert(name_set(v@) =~= start.union(name_set(w@.take(i as int + 1))));
        }
        i = i + 1;
    }
    proof {
        assert(w@.take(i as int) =~= w@);
    }
}

/// An empty list of names.
fn no_names() -> (v: Vec<String>)
    ensures
        v@.len() == 0,
        sorted_names(v@),
        name_set(v@) == Set::<Seq<char>>::empty(),
{
    let v: Vec<String> = Vec::new();
    proof {
        assert(names(v@) =~= Seq::<Seq<char>>::empty());
        assert(name_set(v@) =~= Set::<Seq<char>>::empty());
    }
    v
}

impl Term {
    /// The variable `name`.
    pub fn var(name: &str) -> (r: Term)
        ensures
            r matches Term::Var(x) && x@ == name@,
    {
        Term::Var(String::from_str(name))
    }

    /// The constant `name`.
    pub fn constant(name: &str) -> (r: Term)
        ensures
            r matches Term::Const(c) && c@ == name@,
    {
        Term::Const(String::from_str(name))
    }

    /// The application of `name` to `args`.
    pub fn func(name: &str, args: Vec<Term>) -> (r: Term)
        ensures
            r matches Term::Func(f, a) && f@ == name@ && a == args,
    {
        Term::Func(String::from_str(name), args)
    }

    /// The variables of the term, sorted, each once.
    pub fn variables(&self) -> (r: Vec<String>)
        ensures
            sorted_names(r@),
            name_set(r@) == term_vars(*self),
        decreases self,
    {
        match self {
            Term::Var(x) => {
                let mut v = no_names();
                insert_sorted(&mut v, x.clone());
                proof {
                    assert(Set::<Seq<char>>::empty().insert(x@) =~= set![x@]);
                }
                v
            },
            Term::Const(_) => no_names(),
            Term::Func(_, args) => {
                let mut v = no_names();
                let mut i: usize = 0;
                while i < args.len()
                    invariant
                        i <= args@.len(),
                        *self matches Term::Func(_, a) && a == *args,
                        sorted_names(v@),
                        name_set(v@) == args_vars(*self, i as int),
                    decreases args@.len() - i,
                {
                    proof {
                        let w = (*self)->Func_1;
                        assert(decreases_to!(*self => (*self)->Func_1));
                        assert(decreases_to!(w => w@));
                        assert(decreases_to!(w@ => w@[i as int]));
                    }
                    let av = args[i].variables();
                    insert_all(&mut v, &av);
                    i = i + 1;
                }
                v
            },
        }
    }
}

/// The variables of the first `n` arguments are those of the list prefix.
proof fn lemma_args_vars(t: Term, n: int)
    requires
        t is Func,
        0 <= n <= t->Func_1@.len(),
    ensures
        args_vars(t, n) == list_vars(t->Func_1@.take(n)),
    decreases n,
{
    let a = t->Func_1@;
    if n == 0 {
        assert(a.take(0) =~= Seq::<Term>::empty());
    } else {
        lemma_args_vars(t, n - 1);
        assert(a.take(n).drop_last() =~= a.take(n - 1));
    }
}

/// The variables of all terms of `args`, sorted, each once.
fn vars_of_list(args: &Vec<Term>) -> (r: Vec<String>)
    ensures
        sorted_names(r@),
        name_set(r@) == list_vars(args@),
{
    let mut v = no_names();
    let mut i: usize = 0;
    while i < args.len()
        invariant
            i <= args@.len(),
            sorted_names(v@),
            name_set(v@) == list_vars(args@.take(i as int)),
        decreases args@.len() - i,
    {
        let av = args[i].variables();
        insert_all(&mut v, &av);
        proof {
            assert(args@.take(i as int + 1).drop_last() =~= args@.take(i as int));
        }
        i = i + 1;
    }
    proof {
        assert(args@.take(i as int) =~= args@);
    }
    v
}

impl Formula {
    /// t₁ = t₂
    pub fn eq(t1: Term, t2: Term) -> (r: Formula)
        ensures
            r == Formula::Eq(t1, t2),
    {
        Formula::Eq(t1, t2)
    }

    /// R(args)
    pub fn rel(name: &str, args: Vec<Term>) -> (r: Formula)
        ensures
            r matches Formula::Rel(n, a) && n@ == name@ && a == args,
    {
        Formula::Rel(String::from_str(name), args)
    }

    /// ¬f
    pub fn not(f: Formula) -> (r: Formula)
        ensures
            r == Formula::Not(Box::new(f)),
    {
        Formula::Not(Box::new(f))
    }

    /// f1 ∧ f2
    pub fn and(f1: Formula, f2: Formula) -> (r: Formula)
        ensures
            r == Formula::And(Box::new(f1), Box::new(f2)),
    {
        Formula::And(Box::new(f1), Box::new(f2))
    }

    /// f1 ∨ f2
    pub fn or(f1: Formula, f2: Formula) -> (r: Formula)
        ensures
            r == Formula::Or(Box::new(f1), Box::new(f2)),
    {
        Formula::Or(Box::new(f1), Box::new(f2))
    }

    /// f1 → f2
    pub fn impl_(f1: Formula, f2: Formula) -> (r: Formula)
        ensures
            r == Formula::Impl(Box::new(f1), Box::new(f2)),
    {
        Formula::Impl(Box::new(f1), Box::new(f2))
    }

    /// ∀x. f
    pub fn forall_(x: &str, f: Formula) -> (r: Formula)
        ensures
            r matches Formula::Forall(v, g) && v@ == x@ && *g == f,
    {
        Formula::Forall(String::from_str(x), Box::new(f))
    }

    /// ∃x. f
    pub fn exists_(x: &str, f: Formula) -> (r: Formula)
        ensures
            r matches Formula::Exists(v, g) && v@ == x@ && *g == f,
    {
        Formula::Exists(String::from_str(x), Box::new(f))
    }

    /// The free variables, sorted, each once.
    pub fn free_variables(&self) -> (r: Vec<String>)
        ensures
            sorted_names(r@),
            name_set(r@) == free_vars(*self),
        decreases self,
    {
        match self {
            Formula::True | Formula::False => no_names(),
            Formula::Eq(t1, t2) => {
                let mut v = t1.variables();
                let w = t2.variables();
                insert_all(&mut v, &w);
                v
            },
            Formula::Rel(_, args) => vars_of_list(args),
            Formula::Not(f) => f.free_variables(),
            Formula::And(f1, f2) | Formula::Or(f1, f2) | Formula::Impl(f1, f2) => {
                let mut v = f1.free_variables();
                let w = f2.free_variables();
                insert_all(&mut v, &w);
                v
            },
            Formula::Forall(x, f) | Formula::Exists(x, f) => {
                let mut v = f.free_variables();
                let (p, dup) = slot_of(&v, x.as_str());
                let ghost before = v@;
                if dup {
                    v.remove(p);
                    proof {
                        assert(v@ == before.remove(p as int));
                        assert forall|i: int, j: int| 0 <= i < j < v@.len() implies name_lt(v@[i]@, v@[j]@) by {
                            if i < p && j < p {
                            } else if i < p {
                                assert(v@[j] == before[j + 1]);
                            } else {
                                assert(v@[i] == before[i + 1] && v@[j] == before[j + 1]);
                            }
                        }
                        assert forall|k: Seq<char>| name_set(v@).contains(k) <==> name_set(before).remove(x@).contains(
                            k,
                        ) by {
                            if name_set(v@).contains(k) {
                                let i = choose|i: int| 0 <= i < names(v@).len() && names(v@)[i] == k;
                                if i < p {
                                    assert(names(before)[i] == k);
                                    assert(name_lt(before[i]@, before[p as int]@));
                                    lemma_name_lt_irreflexive(k);
                                } else {
                                    assert(names(before)[i + 1] == k);
                                    assert(name_lt(before[p as int]@, before[i + 1]@));
                                    lemma_name_lt_irreflexive(k);
                                }
                            }
                            if name_set(before).remove(x@).contains(k) {
                                let i = choose|i: int| 0 <= i < names(before).len() && names(before)[i] == k;
                                if i < p {
                                    assert(names(v@)[i] == k);
                                } else {
                                    assert(i != p);
                                    assert(names(v@)[i - 1] == k);
                                }
                            }
                        }
                        assert(name_set(v@) =~= name_set(before).remove(x@));
                    }
                } else {
                    proof {
                        assert forall|k: Seq<char>| name_set(v@).contains(k) <==> name_set(before).remove(x@).contains(
                            k,
                        ) by {
                            if name_set(v@).contains(k) && k == x@ {
                                let i = choose|i: int| 0 <= i < names(v@).len() && names(v@)[i] == k;
                                if i < p {
                                    assert(name_lt(v@[i]@, x@));
                                } else {
                                    assert(name_lt(x@, v@[i]@));
                                }
                                lemma_name_lt_irreflexive(k);
                            }
                        }
                        assert(name_set(v@) =~= name_set(before).remove(x@));
                    }
                }
                v
            },
        }
    }

    /// A sentence: no free variables.
    pub fn is_sentence(&self) -> (b: bool)
        ensures
            b == (free_vars(*self) == Set::<Seq<char>>::empty()),
    {
        let v = self.free_variables();
        proof {
            if v@.len() > 0 {
                assert(names(v@)[0] == v@[0]@);
                assert(name_set(v@).contains(v@[0]@));
            } else {
                assert(name_set(v@) =~= Set::<Seq<char>>::empty());
            }
        }
        v.len() == 0
    }
}

impl Term {
    /// A deep copy.
    pub fn copy(&self) -> (r: Term)
        ensures
            term_vars(r) == term_vars(*self),
        decreases self,
    {
        match self {
            Term::Var(x) => Term::Var(x.clone()),
            Term::Const(c) => Term::Const(c.clone()),
            Term::Func(f, args) => {
                let mut v: Vec<Term> = Vec::new();
                let mut i: usize = 0;
                while i < args.len()
                    invariant
                        i <= args@.len(),
                        *self matches Term::Func(_, a) && a == *args,
                        v@.len() == i,
                        forall|k: int| 0 <= k < i ==> term_vars(#[trigger] v@[k]) == term_vars(args@[k]),
                    decreases args@.len() - i,
                {
                    proof {
                        let w = (*self)->Func_1;
                        assert(decreases_to!(*self => (*self)->Func_1));
                        assert(decreases_to!(w => w@));
                        assert(decreases_to!(w@ => w@[i as int]));
                    }
                    v.push(args[i].copy());
                    i = i + 1;
                }
                let r = Term::Func(f.clone(), v);
                proof {
                    lemma_args_vars(r, v@.len() as int);
                    lemma_args_vars(*self, v@.len() as int);
                    assert(v@.take(v@.len() as int) =~= v@);
                    assert(args@.take(v@.len() as int) =~= args@);
                    lemma_list_vars_congruent(v@, args@);
                }
                r
            },
        }
    }
}

/// Lists of terms with the same variables, term by term, have the same
/// variables.
proof fn lemma_list_vars_congruent(a: Seq<Term>, b: Seq<Term>)
    requires
        a.len() == b.len(),
        forall|k: int| 0 <= k < a.len() ==> term_vars(#[trigger] a[k]) == term_vars(b[k]),
    ensures
        list_vars(a) == list_vars(b),
    decreases a.len(),
{
    if a.len() > 0 {
        lemma_list_vars_congruent(a.drop_last(), b.drop_last());
    }
}

impl Clone for Term {
    fn clone(&self) -> (r: Self)
        ensures
            term_vars(r) == term_vars(*self),
    {
        self.copy()
    }
}

impl Formula {
    /// A deep copy.
    pub fn copy(&self) -> (r: Formula)
        ensures
            free_vars(r) == free_vars(*self),
        decreases self,
    {
        match self {
            Formula::True => Formula::True,
            Formula::False => Formula::False,
            Formula::Eq(t1, t2) => Formula::Eq(t1.copy(), t2.copy()),
            Formula::Rel(r, args) => {
                let mut v: Vec<Term> = Vec::new();
                let mut i: usize = 0;
                while i < args.len()
                    invariant
                        i <= args@.len(),
                        v@.len() == i,
                        forall|k: int| 0 <= k < i ==> term_vars(#[trigger] v@[k]) == term_vars(args@[k]),
                    decreases args@.len() - i,
                {
                    v.push(args[i].copy());
                    i = i + 1;
                }
                proof {
                    lemma_list_vars_congruent(v@, args@);
                }
                Formula::Rel(r.clone(), v)
            },
            Formula::Not(f) => Formula::Not(Box::new(f.copy())),
            Formula::And(f, g) => Formula::And(Box::new(f.copy()), Box::new(g.copy())),
            Formula::Or(f, g) => Formula::Or(Box::new(f.copy()), Box::new(g.copy())),
            Formula::Impl(f, g) => Formula::Impl(Box::new(f.copy()), Box::new(g.copy())),
            Formula::Forall(x, f) => Formula::Forall(x.clone(), Box::new(f.copy())),
            Formula::Exists(x, f) => Formula::Exists(x.clone(), Box::new(f.copy())),
        }
    }
}

impl Clone for Formula {
    fn clone(&self) -> (r: Self)
        ensures
            free_vars(r) == free_vars(*self),
    {
        self.copy()
    }
}

// ─── Theories ─────────────────────────────────────────────────────────

/// A theory: a list of sentences.
pub type Theory = Vec<Formula>;

/// `t` is the variable `n`.
pub open spec fn is_var(t: Term, n: Seq<char>) -> bool {
    t matches Term::Var(x) && x@ == n
}

/// `f` is `r(a, b)` for variables `a`, `b`.
pub open spec fn is_rel2(f: Formula, r: Seq<char>, a: Seq<char>, b: Seq<char>) -> bool {
    f matches Formula::Rel(nm, args) && nm@ == r && args@.len() == 2 && is_var(args@[0], a) && is_var(args@[1], b)
}

/// `f` is `∀v. g` for some `g`, returned.
pub open spec fn under_forall(f: Formula, v: Seq<char>) -> Option<Formula> {
    match f {
        Formula::Forall(x, g) => if x@ == v {
            Some(*g)
        } else {
            None
        },
        _ => None,
    }
}

/// `f` is `p → q`, whose parts are returned.
pub open spec fn implication(f: Formula) -> Option<(Formula, Formula)> {
    match f {
        Formula::Impl(p, q) => Some((*p, *q)),
        _ => None,
    }
}

/// `f` is `p ∧ q`, whose parts are returned.
pub open spec fn conjunction(f: Formula) -> Option<(Formula, Formula)> {
    match f {
        Formula::And(p, q) => Some((*p, *q)),
        _ => None,
    }
}

/// `f` is `p ∨ q`, whose parts are returned.
pub open spec fn disjunction(f: Formula) -> Option<(Formula, Formula)> {
    match f {
        Formula::Or(p, q) => Some((*p, *q)),
        _ => None,
    }
}

/// `f` is `∀x. r(x, x)`.
pub open spec fn is_reflexivity(f: Formula, r: Seq<char>) -> bool {
    under_forall(f, "x"@) matches Some(g) && is_rel2(g, r, "x"@, "x"@)
}

/// `f` is `∀x∀y∀z. r(x, y) ∧ r(y, z) → r(x, z)`.
pub open spec fn is_transitivity(f: Formula, r: Seq<char>) -> bool {
    &&& under_forall(f, "x"@) matches Some(g1)
    &&& under_forall(g1, "y"@) matches Some(g2)
    &&& under_forall(g2, "z"@) matches Some(g3)
    &&& implication(g3) matches Some((p, q))
    &&& conjunction(p) matches Some((p1, p2))
    &&& is_rel2(p1, r, "x"@, "y"@) && is_rel2(p2, r, "y"@, "z"@) && is_rel2(q, r, "x"@, "z"@)
}

/// `f` is `∀x∀y. r(x, y) → r(y, x)`.
pub open spec fn is_symmetry(f: Formula, r: Seq<char>) -> bool {
    &&& under_forall(f, "x"@) matches Some(g1)
    &&& under_forall(g1, "y"@) matches Some(g2)
    &&& implication(g2) matches Some((p, q))
    &&& is_rel2(p, r, "x"@, "y"@) && is_rel2(q, r, "y"@, "x"@)
}

/// `f` is `∀x∀y. r(x, y) ∧ r(y, x) → x = y`.
pub open spec fn is_antisymmetry(f: Formula, r: Seq<char>) -> bool {
    &&& under_forall(f, "x"@) matches Some(g1)
    &&& under_forall(g1, "y"@) matches Some(g2)
    &&& implication(g2) matches Some((p, q))
    &&& conjunction(p) matches Some((p1, p2))
    &&& is_rel2(p1, r, "x"@, "y"@) && is_rel2(p2, r, "y"@, "x"@)
    &&& q matches Formula::Eq(a, b)
    &&& is_var(a, "x"@) && is_var(b, "y"@)
}

/// `f` is `∀x∀y. r(x, y) ∨ r(y, x)`.
pub open spec fn is_totality(f: Formula, r: Seq<char>) -> bool {
    &&& under_forall(f, "x"@) matches Some(g1)
    &&& under_forall(g1, "y"@) matches Some(g2)
    &&& disjunction(g2) matches Some((p, q))
    &&& is_rel2(p, r, "x"@, "y"@) && is_rel2(q, r, "y"@, "x"@)
}

/// r(a, b) for the variables `a`, `b`.
fn rel2(r: &str, a: &str, b: &str) -> (f: Formula)
    ensures
        is_rel2(f, r@, a@, b@),
{
    let mut args: Vec<Term> = Vec::new();
    args.push(Term::var(a));
    args.push(Term::var(b));
    Formula::rel(r, args)
}

/// ∀x. r(x, x)
fn reflexivity(r: &str) -> (f: Formula)
    ensures
        is_reflexivity(f, r@),
{
    Formula::forall_("x", rel2(r, "x", "x"))
}

/// ∀x∀y∀z. r(x, y) ∧ r(y, z) → r(x, z)
fn transitivity(r: &str) -> (f: Formula)
    ensures
        is_transitivity(f, r@),
{
    Formula::forall_(
        "x",
        Formula::forall_(
            "y",
            Formula::forall_("z", Formula::impl_(Formula::and(rel2(r, "x", "y"), rel2(r, "y", "z")), rel2(r, "x", "z"))),
        ),
    )
}

/// The theory of equivalence relations on `rel_name`: reflexivity,
/// symmetry ∀x∀y. R(x, y) → R(y, x), transitivity.
pub fn equivalence_relation_theory(rel_name: &str) -> (t: Theory)
    ensures
        t@.len() == 3,
        is_reflexivity(t@[0], rel_name@),
        is_symmetry(t@[1], rel_name@),
        is_transitivity(t@[2], rel_name@),
{
    let mut t: Theory = Vec::new();
    t.push(reflexivity(rel_name));
    t.push(Formula::forall_("x", Formula::forall_("y", Formula::impl_(rel2(rel_name, "x", "y"), rel2(rel_name, "y", "x")))));
    t.push(transitivity(rel_name));
    t
}

/// The theory of linear orders on `rel_name`: reflexivity, antisymmetry
/// ∀x∀y. R(x, y) ∧ R(y, x) → x = y, transitivity, totality
/// ∀x∀y. R(x, y) ∨ R(y, x).
pub fn linear_order_theory(rel_name: &str) -> (t: Theory)
    ensures
        t@.len() == 4,
        is_reflexivity(t@[0], rel_name@),
        is_antisymmetry(t@[1], rel_name@),
        is_transitivity(t@[2], rel_name@),
        is_totality(t@[3], rel_name@),
{
    let mut t: Theory = Vec::new();
    t.push(reflexivity(rel_name));
    t.push(
        Formula::forall_(
            "x",
            Formula::forall_(
                "y",
                Formula::impl_(
                    Formula::and(rel2(rel_name, "x", "y"), rel2(rel_name, "y", "x")),
                    Formula::eq(Term::var("x"), Term::var("y")),
                ),
            ),
        ),
    );
    t.push(transitivity(rel_name));
    t.push(Formula::forall_("x", Formula::forall_("y", Formula::or(rel2(rel_name, "x", "y"), rel2(rel_name, "y", "x")))));
    t
}

} // verus!
