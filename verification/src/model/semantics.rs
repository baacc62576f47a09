//! Structures and Tarski's satisfaction relation: a structure gives a
//! domain and interprets the function, relation and constant symbols; a
//! formula holds in it under an assignment of domain elements to variables.
use vstd::prelude::*;
use crate::model::{
    free_vars, is_antisymmetry, is_rel2, is_reflexivity, is_totality, is_transitivity, is_var, list_vars, term_vars, Formula,
    Signature, Term, Theory,
};
use crate::text::str_eq;
use vstd::string::StringExecFns;

verus! {

/// The characters of each string.
pub open spec fn views(s: Seq<String>) -> Seq<Seq<char>> {
    s.map_values(|x: String| x@)
}

/// An interpretation of a function symbol: callable on every argument
/// list, and giving equal results on argument lists with equal texts.
pub open spec fn function_ok<F: Fn(&[String]) -> String>(f: F) -> bool {
    &&& forall|a: &[String]| #[trigger] call_requires(f, (a,))
    &&& forall|a1: &[String], a2: &[String], r1: String, r2: String|
        #![trigger call_ensures(f, (a1,), r1), call_ensures(f, (a2,), r2)]
        views(a1@) == views(a2@) && call_ensures(f, (a1,), r1) && call_ensures(f, (a2,), r2) ==> r1@ == r2@
}

/// An interpretation of a relation symbol: callable on every argument
/// list, and giving equal answers on argument lists with equal texts.
pub open spec fn relation_ok<R: Fn(&[String]) -> bool>(q: R) -> bool {
    &&& forall|a: &[String]| #[trigger] call_requires(q, (a,))
    &&& forall|a1: &[String], a2: &[String], r1: bool, r2: bool|
        #![trigger call_ensures(q, (a1,), r1), call_ensures(q, (a2,), r2)]
        views(a1@) == views(a2@) && call_ensures(q, (a1,), r1) && call_ensures(q, (a2,), r2) ==> r1 == r2
}

/// The value of function `f` on arguments with the texts `vs`.
pub open spec fn fval<F: Fn(&[String]) -> String>(f: F, vs: Seq<Seq<char>>) -> Seq<char> {
    let (a, r) = choose|a: &[String], r: String| #![trigger call_ensures(f, (a,), r)]
        views(a@) == vs && call_ensures(f, (a,), r);
    r@
}

/// The answer of relation `q` on arguments with the texts `vs`.
pub open spec fn rval<R: Fn(&[String]) -> bool>(q: R, vs: Seq<Seq<char>>) -> bool {
    let (a, r) = choose|a: &[String], r: bool| #![trigger call_ensures(q, (a,), r)]
        views(a@) == vs && call_ensures(q, (a,), r);
    r
}

/// The entry of the last pair named `name`: later entries replace earlier ones.
pub open spec fn last_named<T>(s: Seq<(String, T)>, name: Seq<char>) -> Option<T>
    decreases s.len(),
{
    if s.len() == 0 {
        None
    } else if s.last().0@ == name {
        Some(s.last().1)
    } else {
        last_named(s.drop_last(), name)
    }
}

/// A structure: a domain of elements named by text, and interpretations
/// of function, relation and constant symbols (a later one for a name
/// replacing an earlier one).
pub struct Structure<F, R> {
    /// The domain.
    pub domain: Vec<String>,
    /// Interpretations of function symbols.
    pub functions: Vec<(String, F)>,
    /// Interpretations of relation symbols.
    pub relations: Vec<(String, R)>,
    /// Interpretations of constant symbols.
    pub constants: Vec<(String, String)>,
}

/// Variable assignments, a later entry for a name replacing an earlier one.
pub type Assignment = Vec<(String, String)>;

/// An assignment as a map from variables to elements.
pub open spec fn asg_map(s: Seq<(String, String)>) -> Map<Seq<char>, Seq<char>>
    decreases s.len(),
{
    if s.len() == 0 {
        Map::empty()
    } else {
        asg_map(s.drop_last()).insert(s.last().0@, s.last().1@)
    }
}

impl<F: Fn(&[String]) -> String, R: Fn(&[String]) -> bool> Structure<F, R> {
    /// Every interpretation is a function of the texts of its arguments.
    pub open spec fn well_formed(&self) -> bool {
        &&& forall|i: int| 0 <= i < self.functions@.len() ==> function_ok(#[trigger] self.functions@[i].1)
        &&& forall|i: int| 0 <= i < self.relations@.len() ==> relation_ok(#[trigger] self.relations@[i].1)
    }

    /// The interpretation of constant `name`.
    pub open spec fn const_of(&self, name: Seq<char>) -> Option<Seq<char>> {
        match last_named(self.constants@, name) {
            Some(v) => Some(v@),
            None => None,
        }
    }

    /// The structure over `domain` that interprets nothing yet.
    pub fn new(domain: Vec<String>) -> (r: Self)
        ensures
            r.domain == domain,
            r.functions@.len() == 0,
            r.relations@.len() == 0,
            r.constants@.len() == 0,
    {
        Structure { domain, functions: Vec::new(), relations: Vec::new(), constants: Vec::new() }
    }

    /// Interprets function symbol `name` by `f`.
    pub fn add_function(self, name: &str, f: F) -> (r: Self)
        ensures
            r.domain == self.domain,
            r.functions@.len() == self.functions@.len() + 1,
            r.functions@.drop_last() == self.functions@,
            r.functions@.last().0@ == name@,
            r.functions@.last().1 == f,
            r.relations == self.relations,
            r.constants == self.constants,
    {
        let mut s = self;
        s.functions.push((String::from_str(name), f));
        s
    }

    /// Interprets relation symbol `name` by `q`.
    pub fn add_relation(self, name: &str, q: R) -> (r: Self)
        ensures
            r.domain == self.domain,
            r.relations@.len() == self.relations@.len() + 1,
            r.relations@.drop_last() == self.relations@,
            r.relations@.last().0@ == name@,
            r.relations@.last().1 == q,
            r.functions == self.functions,
            r.constants == self.constants,
    {
        let mut s = self;
        s.relations.push((String::from_str(name), q));
        s
    }

    /// Interprets constant symbol `name` by the element `value`.
    pub fn add_constant(self, name: &str, value: &str) -> (r: Self)
        ensures
            r.domain == self.domain,
            r.functions == self.functions,
            r.relations == self.relations,
            r.constants@.len() == self.constants@.len() + 1,
            r.constants@.drop_last() == self.constants@,
            r.constants@.last().0@ == name@,
            r.constants@.last().1@ == value@,
    {
        let mut s = self;
        s.constants.push((String::from_str(name), String::from_str(value)));
        s
    }

    /// The number of elements of the domain.
    pub fn size(&self) -> (n: usize)
        ensures
            n == self.domain@.len(),
    {
        self.domain.len()
    }

    /// Whether `elem` is an element of the domain.
    pub fn in_domain(&self, elem: &str) -> (b: bool)
        ensures
            b == views(self.domain@).contains(elem@),
    {
        let mut i: usize = 0;
        while i < self.domain.len()
            invariant
                i <= self.domain@.len(),
                forall|k: int| 0 <= k < i ==> self.domain@[k]@ != elem@,
            decreases self.domain@.len() - i,
        {
            if str_eq(self.domain[i].as_str(), elem) {
                assert(views(self.domain@)[i as int] == elem@);
                return true;
            }
            i = i + 1;
        }
        proof {
            if views(self.domain@).contains(elem@) {
                let k = choose|k: int| 0 <= k < views(self.domain@).len() && views(self.domain@)[k] == elem@;
                assert(self.domain@[k]@ == elem@);
            }
        }
        false
    }

    /// The value of function symbol `name` on `args`, if it is interpreted.
    pub fn interpret_function(&self, name: &str, args: &[String]) -> (r: Option<String>)
        requires
            self.well_formed(),
        ensures
            match last_named(self.functions@, name@) {
                Some(f) => r matches Some(v) && v@ == fval(f, views(args@)),
                None => r is None,
            },
    {
        match find_last(&self.functions, name) {
            Some(i) => {
                let f = &self.functions[i].1;
                assert(function_ok(*f));
                let v = f(args);
                proof {
                    lemma_fval(*f, args, v);
                }
                Some(v)
            },
            None => None,
        }
    }

    /// The answer of relation symbol `name` on `args`, if it is interpreted.
    pub fn interpret_relation(&self, name: &str, args: &[String]) -> (r: Option<bool>)
        requires
            self.well_formed(),
        ensures
            match last_named(self.relations@, name@) {
                Some(q) => r == Some(rval(q, views(args@))),
                None => r is None,
            },
    {
        match find_last(&self.relations, name) {
            Some(i) => {
                let q = &self.relations[i].1;
                assert(relation_ok(*q));
                let b = q(args);
                proof {
                    lemma_rval(*q, args, b);
                }
                Some(b)
            },
            None => None,
        }
    }

    /// The element that constant symbol `name` denotes, if it is interpreted.
    pub fn interpret_constant(&self, name: &str) -> (r: Option<&String>)
        ensures
            match self.const_of(name@) {
                Some(v) => r matches Some(s) && s@ == v,
                None => r is None,
            },
    {
        match find_last(&self.constants, name) {
            Some(i) => Some(&self.constants[i].1),
            None => None,
        }
    }
}

/// The position of the last pair named `name` in `s`, or -1.
pub open spec fn last_index<T>(s: Seq<(String, T)>, name: Seq<char>) -> int
    decreases s.len(),
{
    if s.len() == 0 {
        -1
    } else if s.last().0@ == name {
        s.len() - 1
    } else {
        last_index(s.drop_last(), name)
    }
}

/// The last pair named `name` is at `last_index`.
proof fn lemma_last_index<T>(s: Seq<(String, T)>, name: Seq<char>)
    ensures
        -1 <= last_index(s, name) < s.len(),
        last_index(s, name) == -1 <==> last_named(s, name) is None,
        last_index(s, name) >= 0 ==> s[last_index(s, name)].0@ == name && last_named(s, name) == Some(
            s[last_index(s, name)].1,
        ),
    decreases s.len(),
{
    if s.len() > 0 {
        lemma_last_index(s.drop_last(), name);
    }
}

/// The index of the last pair named `name`.
fn find_last<T>(s: &Vec<(String, T)>, name: &str) -> (r: Option<usize>)
    ensures
        match r {
            Some(i) => i < s@.len() && last_named(s@, name@) == Some(s@[i as int].1) && i == last_index(s@, name@),
            None => last_named(s@, name@) is None && last_index(s@, name@) == -1,
        },
{
    let mut i: usize = s.len();
    assert(s@.take(i as int) =~= s@);
    while i > 0
        invariant
            i <= s@.len(),
            last_named(s@, name@) == last_named(s@.take(i as int), name@),
            last_index(s@, name@) == last_index(s@.take(i as int), name@),
        decreases i,
    {
        proof {
            assert(s@.take(i as int).drop_last() =~= s@.take(i as int - 1));
        }
        if str_eq(s[i - 1].0.as_str(), name) {
            return Some(i - 1);
        }
        i = i - 1;
    }
    None
}

/// What a call of an interpretation returned is its value.
proof fn lemma_fval<F: Fn(&[String]) -> String>(f: F, a: &[String], v: String)
    requires
        function_ok(f),
        call_ensures(f, (a,), v),
    ensures
        fval(f, views(a@)) == v@,
{
    let (a2, r2) = choose|a2: &[String], r2: String| #![trigger call_ensures(f, (a2,), r2)]
        views(a2@) == views(a@) && call_ensures(f, (a2,), r2);
    assert(views(a2@) == views(a@) && call_ensures(f, (a2,), r2));
}

/// What a call of an interpretation answered is its answer.
proof fn lemma_rval<R: Fn(&[String]) -> bool>(q: R, a: &[String], b: bool)
    requires
        relation_ok(q),
        call_ensures(q, (a,), b),
    ensures
        rval(q, views(a@)) == b,
{
    let (a2, r2) = choose|a2: &[String], r2: bool| #![trigger call_ensures(q, (a2,), r2)]
        views(a2@) == views(a@) && call_ensures(q, (a2,), r2);
    assert(views(a2@) == views(a@) && call_ensures(q, (a2,), r2));
}


// ─── Evaluation of terms ─────────────────────────────────────────────

/// The text of an optional string.
pub open spec fn opt_text(r: Option<String>) -> Option<Seq<char>> {
    match r {
        Some(s) => Some(s@),
        None => None,
    }
}

/// The value of term `t` under `asg`: the element assigned to a variable,
/// the element a constant denotes, or the function's value on the values
/// of the arguments; none when something on the way has none.
pub open spec fn term_val<F: Fn(&[String]) -> String, R: Fn(&[String]) -> bool>(
    st: Structure<F, R>,
    t: Term,
    asg: Map<Seq<char>, Seq<char>>,
) -> Option<Seq<char>>
    decreases t, 1nat, 0int,
{
    match t {
        Term::Var(x) => if asg.contains_key(x@) {
            Some(asg[x@])
        } else {
            None
        },
        Term::Const(c) => st.const_of(c@),
        Term::Func(f, args) => match arg_vals(st, t, asg, args@.len() as int) {
            Some(vs) => match last_named(st.functions@, f@) {
                Some(g) => Some(fval(g, vs)),
                None => None,
            },
            None => None,
        },
    }
}

/// The values of the first `n` arguments of application `t`, if each has one.
pub open spec fn arg_vals<F: Fn(&[String]) -> String, R: Fn(&[String]) -> bool>(
    st: Structure<F, R>,
    t: Term,
    asg: Map<Seq<char>, Seq<char>>,
    n: int,
) -> Option<Seq<Seq<char>>>
    decreases t, 0nat, n,
{
    match t {
        Term::Func(_, args) => if n <= 0 || n > args@.len() {
            Some(Seq::empty())
        } else {
            proof {
                assert(decreases_to!(t => t->Func_1));
                assert(decreases_to!(args => args@));
                assert(decreases_to!(args@ => args@[n - 1]));
            }
            match arg_vals(st, t, asg, n - 1) {
                Some(vs) => match term_val(st, args@[n - 1], asg) {
                    Some(v) => Some(vs.push(v)),
                    None => None,
                },
                None => None,
            }
        },
        _ => Some(Seq::empty()),
    }
}

/// The values of a list of terms, if each has one.
pub open spec fn list_vals<F: Fn(&[String]) -> String, R: Fn(&[String]) -> bool>(
    st: Structure<F, R>,
    ts: Seq<Term>,
    asg: Map<Seq<char>, Seq<char>>,
) -> Option<Seq<Seq<char>>>
    decreases ts.len(),
{
    if ts.len() == 0 {
        Some(Seq::empty())
    } else {
        match list_vals(st, ts.drop_last(), asg) {
            Some(vs) => match term_val(st, ts.last(), asg) {
                Some(v) => Some(vs.push(v)),
                None => None,
            },
            None => None,
        }
    }
}

/// Once an argument has no value, no longer prefix has values.
proof fn lemma_arg_vals_none<F: Fn(&[String]) -> String, R: Fn(&[String]) -> bool>(
    st: Structure<F, R>,
    t: Term,
    asg: Map<Seq<char>, Seq<char>>,
    n: int,
    m: int,
)
    requires
        t is Func,
        0 <= n <= m <= t->Func_1@.len(),
        arg_vals(st, t, asg, n) is None,
    ensures
        arg_vals(st, t, asg, m) is None,
    decreases m - n,
{
    if n < m {
        lemma_arg_vals_none(st, t, asg, n, m - 1);
    }
}

/// Once a term has no value, no longer prefix of the list has values.
proof fn lemma_list_vals_none<F: Fn(&[String]) -> String, R: Fn(&[String]) -> bool>(
    st: Structure<F, R>,
    ts: Seq<Term>,
    asg: Map<Seq<char>, Seq<char>>,
    n: int,
    m: int,
)
    requires
        0 <= n <= m <= ts.len(),
        list_vals(st, ts.take(n), asg) is None,
    ensures
        list_vals(st, ts.take(m), asg) is None,
    decreases m - n,
{
    if n < m {
        lemma_list_vals_none(st, ts, asg, n, m - 1);
        assert(ts.take(m).drop_last() =~= ts.take(m - 1));
    }
}

/// The texts of a list of strings, if present.
pub open spec fn opt_texts(r: Option<Vec<String>>) -> Option<Seq<Seq<char>>> {
    match r {
        Some(v) => Some(views(v@)),
        None => None,
    }
}

/// The element assigned to `name`.
fn asg_lookup(assignment: &Assignment, name: &str) -> (r: Option<String>)
    ensures
        opt_text(r) == (if asg_map(assignment@).contains_key(name@) {
            Some(asg_map(assignment@)[name@])
        } else {
            None
        }),
{
    let mut i: usize = assignment.len();
    while i > 0
        invariant
            i <= assignment@.len(),
            forall|k: int| i <= k < assignment@.len() ==> (#[trigger] assignment@[k]).0@ != name@,
        decreases i,
    {
        if str_eq(assignment[i - 1].0.as_str(), name) {
            proof {
                lemma_asg_prefix(assignment@, i as int, name@);
                assert(assignment@.take(i as int).drop_last() =~= assignment@.take(i as int - 1));
            }
            return Some(assignment[i - 1].1.clone());
        }
        i = i - 1;
    }
    proof {
        lemma_asg_prefix(assignment@, 0, name@);
        assert(assignment@.take(0) =~= Seq::<(String, String)>::empty());
    }
    None
}

proof fn lemma_asg_prefix(s: Seq<(String, String)>, i: int, k: Seq<char>)
    requires
        0 <= i <= s.len(),
        forall|q: int| i <= q < s.len() ==> (#[trigger] s[q]).0@ != k,
    ensures
        asg_map(s).contains_key(k) == asg_map(s.take(i)).contains_key(k),
        asg_map(s).contains_key(k) ==> asg_map(s)[k] == asg_map(s.take(i))[k],
    decreases s.len() - i,
{
    if i < s.len() {
        lemma_asg_prefix(s.drop_last(), i, k);
        assert(s.drop_last().take(i) =~= s.take(i));
    } else {
        assert(s.take(i) =~= s);
    }
}

impl Term {
    /// The value of the term in `structure` under `assignment`.
    pub fn eval<F: Fn(&[String]) -> String, R: Fn(&[String]) -> bool>(
        &self,
        structure: &Structure<F, R>,
        assignment: &Assignment,
    ) -> (r: Option<String>)
        requires
            structure.well_formed(),
        ensures
            opt_text(r) == term_val(*structure, *self, asg_map(assignment@)),
        decreases self,
    {
        match self {
            Term::Var(x) => asg_lookup(assignment, x.as_str()),
            Term::Const(c) => match structure.interpret_constant(c.as_str()) {
                Some(v) => Some(v.clone()),
                None => None,
            },
            Term::Func(f, args) => {
                let ghost asg = asg_map(assignment@);
                let mut vals: Vec<String> = Vec::new();
                let mut i: usize = 0;
                while i < args.len()
                    invariant
                        *self == Term::Func(*f, *args),
                        structure.well_formed(),
                        asg == asg_map(assignment@),
                        i <= args@.len(),
                        arg_vals(*structure, *self, asg, i as int) == Some(views(vals@)),
                    decreases args@.len() - i,
                {
                    proof {
                        let w = (*self)->Func_1;
                        assert(decreases_to!(*self => (*self)->Func_1));
                        assert(decreases_to!(w => w@));
                        assert(decreases_to!(w@ => w@[i as int]));
                    }
                    match args[i].eval(structure, assignment) {
                        Some(v) => {
                            let ghost before = vals@;
                            vals.push(v);
                            assert(views(vals@) =~= views(before).push(v@));
                        },
                        None => {
                            proof {
                                lemma_arg_vals_none(*structure, *self, asg, i as int + 1, args@.len() as int);
                            }
                            return None;
                        },
                    }
                    i = i + 1;
                }
                structure.interpret_function(f.as_str(), vals.as_slice())
            },
        }
    }
}

/// The values of the terms, if each has one.
fn eval_all<F: Fn(&[String]) -> String, R: Fn(&[String]) -> bool>(
    args: &Vec<Term>,
    structure: &Structure<F, R>,
    assignment: &Assignment,
) -> (r: Option<Vec<String>>)
    requires
        structure.well_formed(),
    ensures
        opt_texts(r) == list_vals(*structure, args@, asg_map(assignment@)),
{
    let ghost asg = asg_map(assignment@);
    let mut vals: Vec<String> = Vec::new();
    let mut i: usize = 0;
    while i < args.len()
        invariant
            structure.well_formed(),
            asg == asg_map(assignment@),
            i <= args@.len(),
            list_vals(*structure, args@.take(i as int), asg) == Some(views(vals@)),
        decreases args@.len() - i,
    {
        proof {
            assert(args@.take(i as int + 1).drop_last() =~= args@.take(i as int));
        }
        match args[i].eval(structure, assignment) {
            Some(v) => {
                let ghost before = vals@;
                vals.push(v);
                assert(views(vals@) =~= views(before).push(v@));
            },
            None => {
                proof {
                    lemma_list_vals_none(*structure, args@, asg, i as int + 1, args@.len() as int);
                    assert(args@.take(args@.len() as int) =~= args@);
                }
                return None;
            },
        }
        i = i + 1;
    }
    assert(args@.take(i as int) =~= args@);
    Some(vals)
}


// ─── Satisfaction ────────────────────────────────────────────────────

/// Tarski's satisfaction relation M, s ⊨ φ on a finite domain.
pub open spec fn sat<F: Fn(&[String]) -> String, R: Fn(&[String]) -> bool>(
    st: Structure<F, R>,
    f: Formula,
    asg: Map<Seq<char>, Seq<char>>,
) -> bool
    decreases f, 1nat, 0int,
{
    match f {
        Formula::True => true,
        Formula::False => false,
        Formula::Eq(t1, t2) => term_val(st, t1, asg) is Some && term_val(st, t1, asg) == term_val(st, t2, asg),
        Formula::Rel(r, args) => match list_vals(st, args@, asg) {
            Some(vs) => match last_named(st.relations@, r@) {
                Some(q) => rval(q, vs),
                None => false,
            },
            None => false,
        },
        Formula::Not(g) => !sat(st, *g, asg),
        Formula::And(g, h) => sat(st, *g, asg) && sat(st, *h, asg),
        Formula::Or(g, h) => sat(st, *g, asg) || sat(st, *h, asg),
        Formula::Impl(g, h) => !sat(st, *g, asg) || sat(st, *h, asg),
        Formula::Forall(_, _) | Formula::Exists(_, _) => over_domain(st, f, asg, st.domain@.len() as int),
    }
}

/// For `∀x. φ`: φ holds with x set to each of the first `n` elements of
/// the domain; for `∃x. φ`: with x set to one of them.
pub open spec fn over_domain<F: Fn(&[String]) -> String, R: Fn(&[String]) -> bool>(
    st: Structure<F, R>,
    f: Formula,
    asg: Map<Seq<char>, Seq<char>>,
    n: int,
) -> bool
    decreases f, 0nat, n,
{
    if n <= 0 || n > st.domain@.len() {
        f is Forall
    } else {
        match f {
            Formula::Forall(x, g) => over_domain(st, f, asg, n - 1) && sat(st, *g, asg.insert(x@, st.domain@[n - 1]@)),
            Formula::Exists(x, g) => over_domain(st, f, asg, n - 1) || sat(st, *g, asg.insert(x@, st.domain@[n - 1]@)),
            _ => false,
        }
    }
}

/// `∀x. φ` holds when φ holds with x set to every element of the domain.
pub proof fn lemma_sat_forall<F: Fn(&[String]) -> String, R: Fn(&[String]) -> bool>(
    st: Structure<F, R>,
    f: Formula,
    asg: Map<Seq<char>, Seq<char>>,
)
    requires
        f is Forall,
    ensures
        sat(st, f, asg) <==> forall|i: int|
            0 <= i < st.domain@.len() ==> #[trigger] sat(st, *f->Forall_1, asg.insert(f->Forall_0@, st.domain@[i]@)),
{
    lemma_over_domain(st, f, asg, st.domain@.len() as int);
}

/// `∃x. φ` holds when φ holds with x set to some element of the domain.
pub proof fn lemma_sat_exists<F: Fn(&[String]) -> String, R: Fn(&[String]) -> bool>(
    st: Structure<F, R>,
    f: Formula,
    asg: Map<Seq<char>, Seq<char>>,
)
    requires
        f is Exists,
    ensures
        sat(st, f, asg) <==> exists|i: int|
            0 <= i < st.domain@.len() && #[trigger] sat(st, *f->Exists_1, asg.insert(f->Exists_0@, st.domain@[i]@)),
{
    lemma_over_domain(st, f, asg, st.domain@.len() as int);
}

/// Tarski's clauses: `sat` gives each connective its Boolean meaning, an
/// equation holds when both sides have the same value, an atom when its
/// arguments have values and the relation (if interpreted) holds of them,
/// and the quantifiers range over the domain.
pub proof fn law_tarski<F: Fn(&[String]) -> String, R: Fn(&[String]) -> bool>(
    st: Structure<F, R>,
    f: Formula,
    asg: Map<Seq<char>, Seq<char>>,
)
    ensures
        f is True ==> sat(st, f, asg),
        f is False ==> !sat(st, f, asg),
        f matches Formula::Not(g) ==> (sat(st, f, asg) <==> !sat(st, *g, asg)),
        f matches Formula::And(g, h) ==> (sat(st, f, asg) <==> sat(st, *g, asg) && sat(st, *h, asg)),
        f matches Formula::Or(g, h) ==> (sat(st, f, asg) <==> sat(st, *g, asg) || sat(st, *h, asg)),
        f matches Formula::Impl(g, h) ==> (sat(st, f, asg) <==> (sat(st, *g, asg) ==> sat(st, *h, asg))),
        f matches Formula::Eq(t1, t2) ==> (sat(st, f, asg) <==> term_val(st, t1, asg) is Some && term_val(st, t1, asg)
            == term_val(st, t2, asg)),
        f matches Formula::Rel(r, ts) ==> (sat(st, f, asg) <==> list_vals(st, ts@, asg) is Some && last_named(
            st.relations@,
            r@,
        ) is Some && rval(last_named(st.relations@, r@)->Some_0, list_vals(st, ts@, asg)->Some_0)),
        f matches Formula::Forall(x, g) ==> (sat(st, f, asg) <==> forall|i: int|
            0 <= i < st.domain@.len() ==> #[trigger] sat(st, *g, asg.insert(x@, st.domain@[i]@))),
        f matches Formula::Exists(x, g) ==> (sat(st, f, asg) <==> exists|i: int|
            0 <= i < st.domain@.len() && #[trigger] sat(st, *g, asg.insert(x@, st.domain@[i]@))),
{
    if f is Forall {
        lemma_sat_forall(st, f, asg);
    }
    if f is Exists {
        lemma_sat_exists(st, f, asg);
    }
}

proof fn lemma_over_domain<F: Fn(&[String]) -> String, R: Fn(&[String]) -> bool>(
    st: Structure<F, R>,
    f: Formula,
    asg: Map<Seq<char>, Seq<char>>,
    n: int,
)
    requires
        0 <= n <= st.domain@.len(),
    ensures
        f is Forall ==> (over_domain(st, f, asg, n) <==> forall|i: int|
            0 <= i < n ==> #[trigger] sat(st, *f->Forall_1, asg.insert(f->Forall_0@, st.domain@[i]@))),
        f is Exists ==> (over_domain(st, f, asg, n) <==> exists|i: int|
            0 <= i < n && #[trigger] sat(st, *f->Exists_1, asg.insert(f->Exists_0@, st.domain@[i]@))),
    decreases n,
{
    if n > 0 {
        lemma_over_domain(st, f, asg, n - 1);
        if f is Forall {
            let g = *f->Forall_1;
            let x = f->Forall_0@;
            assert(over_domain(st, f, asg, n) == (over_domain(st, f, asg, n - 1) && sat(st, g, asg.insert(x, st.domain@[n - 1]@))));
        }
        if f is Exists {
            let g = *f->Exists_1;
            let x = f->Exists_0@;
            assert(over_domain(st, f, asg, n) == (over_domain(st, f, asg, n - 1) || sat(st, g, asg.insert(x, st.domain@[n - 1]@))));
        }
    }
}

/// The assignment extended by `name ↦ elem`.
fn extend(assignment: &Assignment, name: &String, elem: &String) -> (r: Assignment)
    ensures
        asg_map(r@) == asg_map(assignment@).insert(name@, elem@),
{
    let mut out: Assignment = Vec::new();
    let mut i: usize = 0;
    while i < assignment.len()
        invariant
            i <= assignment@.len(),
            asg_map(out@) == asg_map(assignment@.take(i as int)),
        decreases assignment@.len() - i,
    {
        let ghost before = out@;
        out.push((assignment[i].0.clone(), assignment[i].1.clone()));
        proof {
            assert(out@.drop_last() =~= before);
            assert(assignment@.take(i as int + 1).drop_last() =~= assignment@.take(i as int));
        }
        i = i + 1;
    }
    let ghost before = out@;
    out.push((name.clone(), elem.clone()));
    proof {
        assert(out@.drop_last() =~= before);
        assert(assignment@.take(i as int) =~= assignment@);
    }
    out
}

/// Whether `formula` holds in `structure` under `assignment`.
pub fn satisfies<F: Fn(&[String]) -> String, R: Fn(&[String]) -> bool>(
    structure: &Structure<F, R>,
    formula: &Formula,
    assignment: &Assignment,
) -> (b: bool)
    requires
        structure.well_formed(),
    ensures
        b == sat(*structure, *formula, asg_map(assignment@)),
    decreases formula,
{
    match formula {
        Formula::True => true,
        Formula::False => false,
        Formula::Eq(t1, t2) => {
            let v1 = t1.eval(structure, assignment);
            let v2 = t2.eval(structure, assignment);
            match (v1, v2) {
                (Some(a), Some(b)) => str_eq(a.as_str(), b.as_str()),
                _ => false,
            }
        },
        Formula::Rel(r, args) => match eval_all(args, structure, assignment) {
            Some(vs) => match structure.interpret_relation(r.as_str(), vs.as_slice()) {
                Some(b) => b,
                None => false,
            },
            None => false,
        },
        Formula::Not(g) => !satisfies(structure, g, assignment),
        Formula::And(g, h) => satisfies(structure, g, assignment) && satisfies(structure, h, assignment),
        Formula::Or(g, h) => satisfies(structure, g, assignment) || satisfies(structure, h, assignment),
        Formula::Impl(g, h) => !satisfies(structure, g, assignment) || satisfies(structure, h, assignment),
        Formula::Forall(x, g) => {
            let ghost asg = asg_map(assignment@);
            let mut i: usize = 0;
            while i < structure.domain.len()
                invariant
                    *formula == Formula::Forall(*x, *g),
                    structure.well_formed(),
                    asg == asg_map(assignment@),
                    i <= structure.domain@.len(),
                    over_domain(*structure, *formula, asg, i as int),
                decreases structure.domain@.len() - i,
            {
                let new_assign = extend(assignment, x, &structure.domain[i]);
                proof {
                    assert(decreases_to!(*formula => (*formula)->Forall_1));
                }
                if !satisfies(structure, g, &new_assign) {
                    proof {
                        lemma_over_false(*structure, *formula, asg, i as int + 1);
                    }
                    return false;
                }
                i = i + 1;
            }
            true
        },
        Formula::Exists(x, g) => {
            let ghost asg = asg_map(assignment@);
            let mut i: usize = 0;
            while i < structure.domain.len()
                invariant
                    *formula == Formula::Exists(*x, *g),
                    structure.well_formed(),
                    asg == asg_map(assignment@),
                    i <= structure.domain@.len(),
                    !over_domain(*structure, *formula, asg, i as int),
                decreases structure.domain@.len() - i,
            {
                let new_assign = extend(assignment, x, &structure.domain[i]);
                proof {
                    assert(decreases_to!(*formula => (*formula)->Exists_1));
                }
                if satisfies(structure, g, &new_assign) {
                    proof {
                        lemma_over_true(*structure, *formula, asg, i as int + 1);
                    }
                    return true;
                }
                i = i + 1;
            }
            false
        },
    }
}



/// Once `∀` fails on a prefix of the domain, it fails on the domain.
proof fn lemma_over_false<F: Fn(&[String]) -> String, R: Fn(&[String]) -> bool>(
    st: Structure<F, R>,
    f: Formula,
    asg: Map<Seq<char>, Seq<char>>,
    n: int,
)
    requires
        f is Forall,
        0 <= n <= st.domain@.len(),
        !over_domain(st, f, asg, n),
    ensures
        !over_domain(st, f, asg, st.domain@.len() as int),
    decreases st.domain@.len() - n,
{
    if n < st.domain@.len() {
        lemma_over_false(st, f, asg, n + 1);
    }
}

/// Once `∃` holds on a prefix of the domain, it holds on the domain.
proof fn lemma_over_true<F: Fn(&[String]) -> String, R: Fn(&[String]) -> bool>(
    st: Structure<F, R>,
    f: Formula,
    asg: Map<Seq<char>, Seq<char>>,
    n: int,
)
    requires
        f is Exists,
        0 <= n <= st.domain@.len(),
        over_domain(st, f, asg, n),
    ensures
        over_domain(st, f, asg, st.domain@.len() as int),
    decreases st.domain@.len() - n,
{
    if n < st.domain@.len() {
        lemma_over_true(st, f, asg, n + 1);
    }
}


// ─── Models, theories, substructures ─────────────────────────────────

/// A structure is a model of a sentence: it has no free variables and
/// holds under the empty assignment.
pub open spec fn models_spec<F: Fn(&[String]) -> String, R: Fn(&[String]) -> bool>(
    st: Structure<F, R>,
    f: Formula,
) -> bool {
    free_vars(f) == Set::<Seq<char>>::empty() && sat(st, f, Map::empty())
}

/// Whether `structure` is a model of `sentence`; a formula with free
/// variables has no models.
pub fn models<F: Fn(&[String]) -> String, R: Fn(&[String]) -> bool>(structure: &Structure<F, R>, sentence: &Formula) -> (b: bool)
    requires
        structure.well_formed(),
    ensures
        b == models_spec(*structure, *sentence),
{
    if !sentence.is_sentence() {
        return false;
    }
    let empty: Assignment = Vec::new();
    assert(asg_map(empty@) == Map::<Seq<char>, Seq<char>>::empty());
    satisfies(structure, sentence, &empty)
}

/// Whether `structure` is a model of every sentence of `theory`.
pub fn models_theory<F: Fn(&[String]) -> String, R: Fn(&[String]) -> bool>(structure: &Structure<F, R>, theory: &Theory) -> (b: bool)
    requires
        structure.well_formed(),
    ensures
        b == forall|i: int| 0 <= i < theory@.len() ==> models_spec(*structure, #[trigger] theory@[i]),
{
    let mut i: usize = 0;
    while i < theory.len()
        invariant
            structure.well_formed(),
            i <= theory@.len(),
            forall|k: int| 0 <= k < i ==> models_spec(*structure, #[trigger] theory@[k]),
        decreases theory@.len() - i,
    {
        if !models(structure, &theory[i]) {
            return false;
        }
        i = i + 1;
    }
    true
}

/// Whether the two structures agree on every sentence of the list.
pub fn elementary_equivalent_on<F: Fn(&[String]) -> String, R: Fn(&[String]) -> bool>(
    m1: &Structure<F, R>,
    m2: &Structure<F, R>,
    sentences: &[Formula],
) -> (b: bool)
    requires
        m1.well_formed(),
        m2.well_formed(),
    ensures
        b == forall|i: int| 0 <= i < sentences@.len() ==> models_spec(*m1, #[trigger] sentences@[i]) == models_spec(*m2, sentences@[i]),
{
    let mut i: usize = 0;
    while i < sentences.len()
        invariant
            m1.well_formed(),
            m2.well_formed(),
            i <= sentences@.len(),
            forall|k: int| 0 <= k < i ==> models_spec(*m1, #[trigger] sentences@[k]) == models_spec(*m2, sentences@[k]),
        decreases sentences@.len() - i,
    {
        if models(m1, &sentences[i]) != models(m2, &sentences[i]) {
            return false;
        }
        i = i + 1;
    }
    true
}

/// A search for a finite model of `theory` with at most
/// `max_domain_size` elements. No search is made: no structure is found.
pub fn finite_satisfiability_check<F: Fn(&[String]) -> String, R: Fn(&[String]) -> bool>(
    theory: &Theory,
    signature: &Signature,
    max_domain_size: usize,
) -> (r: Option<Structure<F, R>>)
    ensures
        r is None,
{
    if max_domain_size == 0 {
        return None;
    }
    None
}

/// What a constant denotes in the substructure on `sub`: what it denotes
/// in `st`, when that is an element of `sub`.
pub open spec fn kept_const<F: Fn(&[String]) -> String, R: Fn(&[String]) -> bool>(
    st: Structure<F, R>,
    sub: Seq<Seq<char>>,
    name: Seq<char>,
) -> Option<Seq<char>> {
    match st.const_of(name) {
        Some(v) => if sub.contains(v) {
            Some(v)
        } else {
            None
        },
        None => None,
    }
}

/// The named entries of `v`, each by reference.
fn borrow_all<'a, T>(v: &'a Vec<(String, T)>) -> (r: Vec<(String, &'a T)>)
    ensures
        r@.len() == v@.len(),
        forall|i: int| 0 <= i < v@.len() ==> (#[trigger] r@[i]).0@ == v@[i].0@ && *r@[i].1 == v@[i].1,
{
    let mut out: Vec<(String, &'a T)> = Vec::new();
    let mut i: usize = 0;
    while i < v.len()
        invariant
            i <= v@.len(),
            out@.len() == i,
            forall|k: int| 0 <= k < i ==> (#[trigger] out@[k]).0@ == v@[k].0@ && *out@[k].1 == v@[k].1,
        decreases v@.len() - i,
    {
        out.push((v[i].0.clone(), &v[i].1));
        i = i + 1;
    }
    out
}

/// The substructure on the first `target_size` elements of the domain
/// (all of them, when there are fewer): every function and relation
/// symbol is interpreted as in `structure`, so on the new domain by the
/// restriction of its interpretation, and the constants are those that
/// denote elements of the new domain; none for an empty target or an
/// empty domain.
pub fn downward_lowenheim_skolem<'a, F: Fn(&[String]) -> String, R: Fn(&[String]) -> bool>(
    structure: &'a Structure<F, R>,
    target_size: usize,
) -> (r: Option<Structure<&'a F, &'a R>>)
    ensures
        r is None <==> (target_size == 0 || structure.domain@.len() == 0),
        r matches Some(sub) ==> {
            &&& views(sub.domain@) == views(structure.domain@).take(
                if target_size < structure.domain@.len() { target_size as int } else { structure.domain@.len() as int },
            )
            &&& sub.functions@.len() == structure.functions@.len()
            &&& forall|i: int|
                0 <= i < structure.functions@.len() ==> (#[trigger] sub.functions@[i]).0@ == structure.functions@[i].0@
                    && *sub.functions@[i].1 == structure.functions@[i].1
            &&& sub.relations@.len() == structure.relations@.len()
            &&& forall|i: int|
                0 <= i < structure.relations@.len() ==> (#[trigger] sub.relations@[i]).0@ == structure.relations@[i].0@
                    && *sub.relations@[i].1 == structure.relations@[i].1
            &&& forall|name: Seq<char>| #[trigger] sub.const_of(name) == kept_const(*structure, views(sub.domain@), name)
        },
{
    if target_size == 0 || structure.domain.len() == 0 {
        return None;
    }
    let actual_size = if target_size < structure.domain.len() { target_size } else { structure.domain.len() };
    let mut sub_domain: Vec<String> = Vec::new();
    let mut i: usize = 0;
    while i < actual_size
        invariant
            actual_size <= structure.domain@.len(),
            i <= actual_size,
            views(sub_domain@) == views(structure.domain@).take(i as int),
        decreases actual_size - i,
    {
        let ghost before = sub_domain@;
        let c = structure.domain[i].clone();
        sub_domain.push(c);
        assert(views(sub_domain@) =~= views(before).push(c@));
        assert(views(structure.domain@).take(i as int + 1) =~= views(structure.domain@).take(i as int).push(c@));
        i = i + 1;
    }
    let mut sub: Structure<&'a F, &'a R> = Structure {
        domain: sub_domain,
        functions: borrow_all(&structure.functions),
        relations: borrow_all(&structure.relations),
        constants: Vec::new(),
    };
    let ghost fs = sub.functions;
    let ghost rs = sub.relations;
    let ghost cs = structure.constants@;
    let ghost sd = views(sub.domain@);
    let mut k: usize = 0;
    while k < structure.constants.len()
        invariant
            cs == structure.constants@,
            k <= cs.len(),
            sd == views(sub.domain@),
            views(sub.domain@) == views(structure.domain@).take(actual_size as int),
            sub.functions == fs,
            sub.relations == rs,
            forall|name: Seq<char>|
                #![trigger last_named(sub.constants@, name)]
                opt_text(last_named(sub.constants@, name)) == (if 0 <= last_index(cs, name) < k && sd.contains(
                    cs[last_index(cs, name)].1@,
                ) {
                    Some(cs[last_index(cs, name)].1@)
                } else {
                    None
                }),
        decreases cs.len() - k,
    {
        let name = structure.constants[k].0.as_str();
        let value = structure.constants[k].1.as_str();
        let is_last = match find_last(&structure.constants, name) {
            Some(j) => j == k,
            None => false,
        };
        let ghost before = sub.constants@;
        if is_last && sub.in_domain(value) {
            sub = sub.add_constant(name, value);
        }
        proof {
            assert forall|n: Seq<char>| #[trigger]
                opt_text(last_named(sub.constants@, n)) == (if 0 <= last_index(cs, n) < k + 1 && sd.contains(
                    cs[last_index(cs, n)].1@,
                ) {
                    Some(cs[last_index(cs, n)].1@)
                } else {
                    None
                }) by {
                lemma_last_index(cs, n);
                if sub.constants@.len() > before.len() {
                    assert(sub.constants@.drop_last() == before);
                }
                assert(opt_text(last_named(before, n)) == (if 0 <= last_index(cs, n) < k && sd.contains(
                    cs[last_index(cs, n)].1@,
                ) {
                    Some(cs[last_index(cs, n)].1@)
                } else {
                    None
                }));
            }
        }
        k = k + 1;
    }
    proof {
        assert forall|name: Seq<char>| #[trigger] sub.const_of(name) == kept_const(*structure, views(sub.domain@), name) by {
            lemma_last_index(cs, name);
            assert(opt_text(last_named(sub.constants@, name)) == sub.const_of(name));
        }
    }
    Some(sub)
}


// ─── The theory of linear orders ─────────────────────────────────────

/// Relation `q` holds of the elements with texts `a`, `b`.
pub open spec fn rel_holds<R: Fn(&[String]) -> bool>(q: R, a: Seq<char>, b: Seq<char>) -> bool {
    rval(q, seq![a, b])
}

/// `q` is a linear order on the domain of `st`: reflexive, antisymmetric,
/// transitive and total.
pub open spec fn is_linear_order<F: Fn(&[String]) -> String, R: Fn(&[String]) -> bool>(st: Structure<F, R>, q: R) -> bool {
    let d = st.domain@;
    &&& forall|i: int| 0 <= i < d.len() ==> #[trigger] rel_holds(q, d[i]@, d[i]@)
    &&& forall|i: int, j: int|
        0 <= i < d.len() && 0 <= j < d.len() && #[trigger] rel_holds(q, d[i]@, d[j]@) && rel_holds(q, d[j]@, d[i]@)
            ==> d[i]@ == d[j]@
    &&& forall|i: int, j: int, k: int|
        0 <= i < d.len() && 0 <= j < d.len() && 0 <= k < d.len() && #[trigger] rel_holds(q, d[i]@, d[j]@)
            && #[trigger] rel_holds(q, d[j]@, d[k]@) ==> rel_holds(q, d[i]@, d[k]@)
    &&& forall|i: int, j: int|
        0 <= i < d.len() && 0 <= j < d.len() ==> #[trigger] rel_holds(q, d[i]@, d[j]@) || rel_holds(q, d[j]@, d[i]@)
}

proof fn lemma_rel2_vars(g: Formula, r: Seq<char>, a: Seq<char>, b: Seq<char>)
    requires
        is_rel2(g, r, a, b),
    ensures
        free_vars(g) =~= set![a, b],
{
    let args = g->Rel_1@;
    assert(args.drop_last().drop_last() =~= Seq::<Term>::empty());
    assert(list_vars(args.drop_last().drop_last()) == Set::<Seq<char>>::empty());
    assert(term_vars(args[0]) == set![a]);
    assert(term_vars(args[1]) == set![b]);
    assert(list_vars(args.drop_last()) =~= set![a]);
}

proof fn lemma_rel2_sat<F: Fn(&[String]) -> String, R: Fn(&[String]) -> bool>(
    st: Structure<F, R>,
    g: Formula,
    r: Seq<char>,
    a: Seq<char>,
    b: Seq<char>,
    asg: Map<Seq<char>, Seq<char>>,
)
    requires
        is_rel2(g, r, a, b),
        asg.contains_key(a),
        asg.contains_key(b),
        last_named(st.relations@, r) is Some,
    ensures
        sat(st, g, asg) == rel_holds(last_named(st.relations@, r)->Some_0, asg[a], asg[b]),
{
    let args = g->Rel_1@;
    assert(args.drop_last().drop_last() =~= Seq::<Term>::empty());
    assert(list_vals(st, args.drop_last().drop_last(), asg) == Some(Seq::<Seq<char>>::empty()));
    assert(term_val(st, args[0], asg) == Some(asg[a]));
    assert(term_val(st, args[1], asg) == Some(asg[b]));
    assert(list_vals(st, args.drop_last(), asg) == Some(seq![asg[a]]));
    assert(list_vals(st, args, asg) == Some(seq![asg[a], asg[b]]));
}

proof fn lemma_models_reflexivity<F: Fn(&[String]) -> String, R: Fn(&[String]) -> bool>(
    st: Structure<F, R>,
    f: Formula,
    r: Seq<char>,
)
    requires
        is_reflexivity(f, r),
        last_named(st.relations@, r) is Some,
    ensures
        models_spec(st, f) <==> forall|i: int|
            0 <= i < st.domain@.len() ==> #[trigger] rel_holds(
                last_named(st.relations@, r)->Some_0,
                st.domain@[i]@,
                st.domain@[i]@,
            ),
{
    reveal_strlit("x");
    let x = "x"@;
    let g = *f->Forall_1;
    let d = st.domain@;
    let q = last_named(st.relations@, r)->Some_0;
    lemma_rel2_vars(g, r, x, x);
    assert(free_vars(f) =~= Set::<Seq<char>>::empty());
    lemma_sat_forall(st, f, Map::empty());
    assert forall|i: int| 0 <= i < d.len() implies sat(st, g, Map::<Seq<char>, Seq<char>>::empty().insert(x, d[i]@))
        == rel_holds(q, d[i]@, d[i]@) by {
        lemma_rel2_sat(st, g, r, x, x, Map::<Seq<char>, Seq<char>>::empty().insert(x, d[i]@));
    }
}

/// The assignment x ↦ `a`, y ↦ `b`.
spec fn asg_xy(a: Seq<char>, b: Seq<char>) -> Map<Seq<char>, Seq<char>> {
    Map::<Seq<char>, Seq<char>>::empty().insert("x"@, a).insert("y"@, b)
}

/// `∀x∀y. body` holds exactly when `body` holds with x, y set to any two
/// elements of the domain.
proof fn lemma_sat_forall2<F: Fn(&[String]) -> String, R: Fn(&[String]) -> bool>(
    st: Structure<F, R>,
    f: Formula,
)
    requires
        f is Forall,
        f->Forall_0@ == "x"@,
        *f->Forall_1 is Forall,
        (*f->Forall_1)->Forall_0@ == "y"@,
    ensures
        sat(st, f, Map::empty()) <==> forall|i: int, j: int|
            0 <= i < st.domain@.len() && 0 <= j < st.domain@.len() ==> #[trigger] sat(
                st,
                *(*f->Forall_1)->Forall_1,
                asg_xy(st.domain@[i]@, st.domain@[j]@),
            ),
{
    let d = st.domain@;
    let g1 = *f->Forall_1;
    let g2 = *g1->Forall_1;
    let e = Map::<Seq<char>, Seq<char>>::empty();
    lemma_sat_forall(st, f, e);
    if sat(st, f, e) {
        assert forall|i: int, j: int| 0 <= i < d.len() && 0 <= j < d.len() implies #[trigger] sat(
            st,
            g2,
            asg_xy(d[i]@, d[j]@),
        ) by {
            lemma_sat_forall(st, g1, e.insert("x"@, d[i]@));
            assert(sat(st, g1, e.insert("x"@, d[i]@)));
            assert(sat(st, g2, e.insert("x"@, d[i]@).insert("y"@, d[j]@)));
        }
    }
    if forall|i: int, j: int|
        0 <= i < d.len() && 0 <= j < d.len() ==> #[trigger] sat(st, g2, asg_xy(d[i]@, d[j]@)) {
        assert forall|i: int| 0 <= i < d.len() implies #[trigger] sat(st, g1, e.insert("x"@, d[i]@)) by {
            lemma_sat_forall(st, g1, e.insert("x"@, d[i]@));
            assert forall|j: int| 0 <= j < d.len() implies #[trigger] sat(
                st,
                g2,
                e.insert("x"@, d[i]@).insert("y"@, d[j]@),
            ) by {
                assert(sat(st, g2, asg_xy(d[i]@, d[j]@)));
            }
        }
    }
}

proof fn lemma_models_antisymmetry<F: Fn(&[String]) -> String, R: Fn(&[String]) -> bool>(
    st: Structure<F, R>,
    f: Formula,
    r: Seq<char>,
)
    requires
        is_antisymmetry(f, r),
        last_named(st.relations@, r) is Some,
    ensures
        models_spec(st, f) <==> forall|i: int, j: int|
            0 <= i < st.domain@.len() && 0 <= j < st.domain@.len() && #[trigger] rel_holds(
                last_named(st.relations@, r)->Some_0,
                st.domain@[i]@,
                st.domain@[j]@,
            ) && rel_holds(last_named(st.relations@, r)->Some_0, st.domain@[j]@, st.domain@[i]@)
                ==> st.domain@[i]@ == st.domain@[j]@,
{
    reveal_strlit("x");
    reveal_strlit("y");
    let x = "x"@;
    let y = "y"@;
    let d = st.domain@;
    let q = last_named(st.relations@, r)->Some_0;
    let g1 = *f->Forall_1;
    let g2 = *g1->Forall_1;
    let p = *g2->Impl_0;
    let e = *g2->Impl_1;
    let p1 = *p->And_0;
    let p2 = *p->And_1;
    lemma_rel2_vars(p1, r, x, y);
    lemma_rel2_vars(p2, r, y, x);
    assert(term_vars(e->Eq_0) == set![x]);
    assert(term_vars(e->Eq_1) == set![y]);
    assert(x[0] != y[0]);
    assert(free_vars(p) =~= set![x, y]);
    assert(free_vars(e) =~= set![x, y]);
    assert(free_vars(g2) =~= set![x, y]);
    assert(free_vars(g1) =~= set![x]);
    assert(free_vars(f) =~= Set::<Seq<char>>::empty());
    lemma_sat_forall2(st, f);
    assert forall|i: int, j: int| 0 <= i < d.len() && 0 <= j < d.len() implies #[trigger] sat(st, g2, asg_xy(d[i]@, d[j]@))
        == (rel_holds(q, d[i]@, d[j]@) && rel_holds(q, d[j]@, d[i]@) ==> d[i]@ == d[j]@) by {
        let b = asg_xy(d[i]@, d[j]@);
        assert(b[x] == d[i]@);
        assert(b[y] == d[j]@);
        lemma_rel2_sat(st, p1, r, x, y, b);
        lemma_rel2_sat(st, p2, r, y, x, b);
        assert(term_val(st, e->Eq_0, b) == Some(d[i]@));
        assert(term_val(st, e->Eq_1, b) == Some(d[j]@));
        assert(sat(st, p, b) == (sat(st, p1, b) && sat(st, p2, b)));
        assert(sat(st, e, b) == (d[i]@ == d[j]@));
        assert(sat(st, g2, b) == (!sat(st, p, b) || sat(st, e, b)));
    }
    if models_spec(st, f) {
        assert forall|i: int, j: int|
            0 <= i < d.len() && 0 <= j < d.len() && #[trigger] rel_holds(q, d[i]@, d[j]@) && rel_holds(q, d[j]@, d[i]@)
            implies d[i]@ == d[j]@ by {
            assert(sat(st, g2, asg_xy(d[i]@, d[j]@)));
        }
    }
}

proof fn lemma_models_totality<F: Fn(&[String]) -> String, R: Fn(&[String]) -> bool>(
    st: Structure<F, R>,
    f: Formula,
    r: Seq<char>,
)
    requires
        is_totality(f, r),
        last_named(st.relations@, r) is Some,
    ensures
        models_spec(st, f) <==> forall|i: int, j: int|
            0 <= i < st.domain@.len() && 0 <= j < st.domain@.len() ==> #[trigger] rel_holds(
                last_named(st.relations@, r)->Some_0,
                st.domain@[i]@,
                st.domain@[j]@,
            ) || rel_holds(last_named(st.relations@, r)->Some_0, st.domain@[j]@, st.domain@[i]@),
{
    reveal_strlit("x");
    reveal_strlit("y");
    let x = "x"@;
    let y = "y"@;
    let d = st.domain@;
    let q = last_named(st.relations@, r)->Some_0;
    let g1 = *f->Forall_1;
    let g2 = *g1->Forall_1;
    let p1 = *g2->Or_0;
    let p2 = *g2->Or_1;
    lemma_rel2_vars(p1, r, x, y);
    lemma_rel2_vars(p2, r, y, x);
    assert(x[0] != y[0]);
    assert(free_vars(g2) =~= set![x, y]);
    assert(free_vars(g1) =~= set![x]);
    assert(free_vars(f) =~= Set::<Seq<char>>::empty());
    lemma_sat_forall2(st, f);
    assert forall|i: int, j: int| 0 <= i < d.len() && 0 <= j < d.len() implies #[trigger] sat(st, g2, asg_xy(d[i]@, d[j]@))
        == (rel_holds(q, d[i]@, d[j]@) || rel_holds(q, d[j]@, d[i]@)) by {
        let b = asg_xy(d[i]@, d[j]@);
        assert(b[x] == d[i]@);
        assert(b[y] == d[j]@);
        lemma_rel2_sat(st, p1, r, x, y, b);
        lemma_rel2_sat(st, p2, r, y, x, b);
    }
    if models_spec(st, f) {
        assert forall|i: int, j: int| 0 <= i < d.len() && 0 <= j < d.len() implies #[trigger] rel_holds(q, d[i]@, d[j]@)
            || rel_holds(q, d[j]@, d[i]@) by {
            assert(sat(st, g2, asg_xy(d[i]@, d[j]@)));
        }
    }
}

/// The assignment x ↦ `a`, y ↦ `b`, z ↦ `c`.
spec fn asg_xyz(a: Seq<char>, b: Seq<char>, c: Seq<char>) -> Map<Seq<char>, Seq<char>> {
    asg_xy(a, b).insert("z"@, c)
}

/// `∀x∀y∀z. body` holds exactly when `body` holds with x, y, z set to any
/// three elements of the domain.
proof fn lemma_sat_forall3<F: Fn(&[String]) -> String, R: Fn(&[String]) -> bool>(
    st: Structure<F, R>,
    f: Formula,
)
    requires
        f is Forall,
        f->Forall_0@ == "x"@,
        *f->Forall_1 is Forall,
        (*f->Forall_1)->Forall_0@ == "y"@,
        *(*f->Forall_1)->Forall_1 is Forall,
        (*(*f->Forall_1)->Forall_1)->Forall_0@ == "z"@,
    ensures
        sat(st, f, Map::empty()) <==> forall|i: int, j: int, k: int|
            0 <= i < st.domain@.len() && 0 <= j < st.domain@.len() && 0 <= k < st.domain@.len() ==> #[trigger] sat(
                st,
                *(*(*f->Forall_1)->Forall_1)->Forall_1,
                asg_xyz(st.domain@[i]@, st.domain@[j]@, st.domain@[k]@),
            ),
{
    let d = st.domain@;
    let g2 = *(*f->Forall_1)->Forall_1;
    let g3 = *g2->Forall_1;
    lemma_sat_forall2(st, f);
    if sat(st, f, Map::empty()) {
        assert forall|i: int, j: int, k: int|
            0 <= i < d.len() && 0 <= j < d.len() && 0 <= k < d.len() implies #[trigger] sat(
            st,
            g3,
            asg_xyz(d[i]@, d[j]@, d[k]@),
        ) by {
            lemma_sat_forall(st, g2, asg_xy(d[i]@, d[j]@));
            assert(sat(st, g2, asg_xy(d[i]@, d[j]@)));
            assert(sat(st, g3, asg_xy(d[i]@, d[j]@).insert("z"@, d[k]@)));
        }
    }
    if forall|i: int, j: int, k: int|
        0 <= i < d.len() && 0 <= j < d.len() && 0 <= k < d.len() ==> #[trigger] sat(st, g3, asg_xyz(d[i]@, d[j]@, d[k]@)) {
        assert forall|i: int, j: int| 0 <= i < d.len() && 0 <= j < d.len() implies #[trigger] sat(
            st,
            g2,
            asg_xy(d[i]@, d[j]@),
        ) by {
            lemma_sat_forall(st, g2, asg_xy(d[i]@, d[j]@));
            assert forall|k: int| 0 <= k < d.len() implies #[trigger] sat(
                st,
                g3,
                asg_xy(d[i]@, d[j]@).insert("z"@, d[k]@),
            ) by {
                assert(sat(st, g3, asg_xyz(d[i]@, d[j]@, d[k]@)));
            }
        }
    }
}

proof fn lemma_models_transitivity<F: Fn(&[String]) -> String, R: Fn(&[String]) -> bool>(
    st: Structure<F, R>,
    f: Formula,
    r: Seq<char>,
)
    requires
        is_transitivity(f, r),
        last_named(st.relations@, r) is Some,
    ensures
        models_spec(st, f) <==> forall|i: int, j: int, k: int|
            0 <= i < st.domain@.len() && 0 <= j < st.domain@.len() && 0 <= k < st.domain@.len() && #[trigger] rel_holds(
                last_named(st.relations@, r)->Some_0,
                st.domain@[i]@,
                st.domain@[j]@,
            ) && #[trigger] rel_holds(last_named(st.relations@, r)->Some_0, st.domain@[j]@, st.domain@[k]@)
                ==> rel_holds(last_named(st.relations@, r)->Some_0, st.domain@[i]@, st.domain@[k]@),
{
    reveal_strlit("x");
    reveal_strlit("y");
    reveal_strlit("z");
    let x = "x"@;
    let y = "y"@;
    let z = "z"@;
    assert(x[0] != y[0] && y[0] != z[0] && x[0] != z[0]);
    let d = st.domain@;
    let q = last_named(st.relations@, r)->Some_0;
    let g1 = *f->Forall_1;
    let g2 = *g1->Forall_1;
    let g3 = *g2->Forall_1;
    let p = *g3->Impl_0;
    let c = *g3->Impl_1;
    let p1 = *p->And_0;
    let p2 = *p->And_1;
    lemma_rel2_vars(p1, r, x, y);
    lemma_rel2_vars(p2, r, y, z);
    lemma_rel2_vars(c, r, x, z);
    assert(free_vars(p) =~= set![x, y, z]);
    assert(free_vars(g3) =~= set![x, y, z]);
    assert(free_vars(g2) =~= set![x, y]);
    assert(free_vars(g1) =~= set![x]);
    assert(free_vars(f) =~= Set::<Seq<char>>::empty());
    lemma_sat_forall3(st, f);
    assert forall|i: int, j: int, k: int|
        0 <= i < d.len() && 0 <= j < d.len() && 0 <= k < d.len() implies #[trigger] sat(st, g3, asg_xyz(d[i]@, d[j]@, d[k]@))
        == (rel_holds(q, d[i]@, d[j]@) && rel_holds(q, d[j]@, d[k]@) ==> rel_holds(q, d[i]@, d[k]@)) by {
        let b = asg_xyz(d[i]@, d[j]@, d[k]@);
        assert(b[x] == d[i]@);
        assert(b[y] == d[j]@);
        assert(b[z] == d[k]@);
        lemma_rel2_sat(st, p1, r, x, y, b);
        lemma_rel2_sat(st, p2, r, y, z, b);
        lemma_rel2_sat(st, c, r, x, z, b);
        assert(sat(st, p, b) == (sat(st, p1, b) && sat(st, p2, b)));
        assert(sat(st, g3, b) == (!sat(st, p, b) || sat(st, c, b)));
    }
    if models_spec(st, f) {
        assert forall|i: int, j: int, k: int|
            0 <= i < d.len() && 0 <= j < d.len() && 0 <= k < d.len() && #[trigger] rel_holds(q, d[i]@, d[j]@)
                && #[trigger] rel_holds(q, d[j]@, d[k]@) implies rel_holds(q, d[i]@, d[k]@) by {
            assert(sat(st, g3, asg_xyz(d[i]@, d[j]@, d[k]@)));
        }
    }
}

/// A structure that interprets `r` is a model of the theory of linear
/// orders on `r` exactly when its interpretation of `r` is reflexive,
/// antisymmetric, transitive and total on its domain.
pub proof fn law_linear_order_models<F: Fn(&[String]) -> String, R: Fn(&[String]) -> bool>(
    st: Structure<F, R>,
    t: Theory,
    r: Seq<char>,
)
    requires
        t@.len() == 4,
        is_reflexivity(t@[0], r),
        is_antisymmetry(t@[1], r),
        is_transitivity(t@[2], r),
        is_totality(t@[3], r),
        last_named(st.relations@, r) is Some,
    ensures
        (forall|i: int| 0 <= i < t@.len() ==> models_spec(st, #[trigger] t@[i]))
            <==> is_linear_order(st, last_named(st.relations@, r)->Some_0),
{
    lemma_models_reflexivity(st, t@[0], r);
    lemma_models_antisymmetry(st, t@[1], r);
    lemma_models_transitivity(st, t@[2], r);
    lemma_models_totality(st, t@[3], r);
    if forall|i: int| 0 <= i < t@.len() ==> models_spec(st, #[trigger] t@[i]) {
        assert(models_spec(st, t@[0]));
        assert(models_spec(st, t@[1]));
        assert(models_spec(st, t@[2]));
        assert(models_spec(st, t@[3]));
    }
    if is_linear_order(st, last_named(st.relations@, r)->Some_0) {
        assert forall|i: int| 0 <= i < t@.len() implies models_spec(st, #[trigger] t@[i]) by {
            if i == 0 {
            } else if i == 1 {
            } else if i == 2 {
            } else {
            }
        }
    }
}

} // verus!
