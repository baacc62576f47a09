//! Robinson's resolution rule and saturation-based refutation.
use vstd::prelude::*;
use crate::search::logic::{
    clause_holds, cnf_holds, complementary, lemma_remove_lit, lit_equal, lit_holds, remove_lit,
    satisfiable, Clause, Lit, Literal, CNF,
};

verus! {

/// Proposition names ordered as strings are: lexicographically by
/// character code, a proper prefix first.
pub open spec fn name_lt(a: Seq<char>, b: Seq<char>) -> bool
    decreases a.len(),
{
    if b.len() == 0 {
        false
    } else if a.len() == 0 {
        true
    } else if a[0] != b[0] {
        (a[0] as int) < (b[0] as int)
    } else {
        name_lt(a.drop_first(), b.drop_first())
    }
}

/// `x` inserted into `s` after every literal whose name is not greater
/// (one step of a stable insertion sort by name).
pub open spec fn insert_by_name(s: Seq<Lit>, x: Lit) -> Seq<Lit>
    decreases s.len(),
{
    if s.len() == 0 {
        seq![x]
    } else if name_lt(x.1, s.last().1) {
        insert_by_name(s.drop_last(), x).push(s.last())
    } else {
        s.push(x)
    }
}

/// `s` stably sorted by proposition name.
pub open spec fn sort_by_name(s: Seq<Lit>) -> Seq<Lit>
    decreases s.len(),
{
    if s.len() == 0 {
        s
    } else {
        insert_by_name(sort_by_name(s.drop_last()), s.last())
    }
}

/// `s` without consecutive repeats (the first of each run stays).
pub open spec fn dedup(s: Seq<Lit>) -> Seq<Lit>
    decreases s.len(),
{
    if s.len() <= 1 {
        s
    } else if s.last() == s[s.len() - 2] {
        dedup(s.drop_last())
    } else {
        dedup(s.drop_last()).push(s.last())
    }
}

/// The literals of a resolvent, sorted by name and without repeats.
pub open spec fn normalize(s: Seq<Lit>) -> Seq<Lit> {
    dedup(sort_by_name(s))
}

/// Literal `c1[i]` and `c2[j]` are complementary, and no earlier pair
/// (in the order `c1` first, then `c2`) is.
pub open spec fn first_clash(c1: Seq<Lit>, c2: Seq<Lit>, i: int, j: int) -> bool {
    &&& 0 <= i < c1.len()
    &&& 0 <= j < c2.len()
    &&& complementary(c1[i], c2[j])
    &&& forall|a: int, b: int|
        0 <= a < c1.len() && 0 <= b < c2.len() && (a < i || (a == i && b < j)) ==> !#[trigger] complementary(
            c1[a],
            c2[b],
        )
}

/// Some literal of `c1` is complementary to some literal of `c2`.
pub open spec fn clash(c1: Seq<Lit>, c2: Seq<Lit>) -> bool {
    exists|a: int, b: int| 0 <= a < c1.len() && 0 <= b < c2.len() && #[trigger] complementary(c1[a], c2[b])
}

/// The resolvent of `c1` and `c2` on `c1[i]` and `c2[j]`.
pub open spec fn resolvent(c1: Seq<Lit>, c2: Seq<Lit>, i: int, j: int) -> Seq<Lit> {
    normalize(remove_lit(c1, c1[i]) + remove_lit(c2, c2[j]))
}

pub proof fn lemma_insert_by_name_contains(s: Seq<Lit>, x: Lit)
    ensures
        insert_by_name(s, x).len() == s.len() + 1,
        forall|y: Lit| #[trigger] insert_by_name(s, x).contains(y) <==> (s.contains(y) || y == x),
    decreases s.len(),
{
    broadcast use vstd::seq_lib::lemma_seq_contains_after_push;

    if s.len() > 0 {
        lemma_insert_by_name_contains(s.drop_last(), x);
        assert(s =~= s.drop_last().push(s.last()));
    } else {
        assert(seq![x] =~= Seq::<Lit>::empty().push(x));
    }
}

pub proof fn lemma_sort_by_name_contains(s: Seq<Lit>)
    ensures
        sort_by_name(s).len() == s.len(),
        forall|y: Lit| #[trigger] sort_by_name(s).contains(y) <==> s.contains(y),
    decreases s.len(),
{
    broadcast use vstd::seq_lib::lemma_seq_contains_after_push;

    if s.len() > 0 {
        lemma_sort_by_name_contains(s.drop_last());
        lemma_insert_by_name_contains(sort_by_name(s.drop_last()), s.last());
        assert(s =~= s.drop_last().push(s.last()));
    }
}

pub proof fn lemma_dedup_contains(s: Seq<Lit>)
    ensures
        dedup(s).len() <= s.len(),
        s.len() > 0 ==> dedup(s).len() > 0 && dedup(s).last() == s.last(),
        forall|y: Lit| #[trigger] dedup(s).contains(y) <==> s.contains(y),
    decreases s.len(),
{
    broadcast use vstd::seq_lib::lemma_seq_contains_after_push;

    if s.len() > 1 {
        let p = s.drop_last();
        lemma_dedup_contains(p);
        assert(s =~= p.push(s.last()));
        assert(p.last() == s[s.len() - 2]);
    } else if s.len() == 1 {
        assert(s =~= Seq::<Lit>::empty().push(s.last()));
    }
}

pub proof fn lemma_normalize_contains(s: Seq<Lit>)
    ensures
        forall|y: Lit| #[trigger] normalize(s).contains(y) <==> s.contains(y),
        normalize(s).len() == 0 <==> s.len() == 0,
{
    lemma_sort_by_name_contains(s);
    lemma_dedup_contains(sort_by_name(s));
    if s.len() > 0 {
        assert(s.contains(s[0]));
    }
}

/// Every total assignment that satisfies both clauses satisfies their
/// resolvent on a complementary pair.
pub proof fn lemma_resolvent_sound(
    sigma: spec_fn(Seq<char>) -> bool,
    c1: Seq<Lit>,
    c2: Seq<Lit>,
    i: int,
    j: int,
)
    requires
        0 <= i < c1.len(),
        0 <= j < c2.len(),
        complementary(c1[i], c2[j]),
        clause_holds(sigma, c1),
        clause_holds(sigma, c2),
    ensures
        clause_holds(sigma, resolvent(c1, c2, i, j)),
{
    broadcast use vstd::seq_lib::lemma_seq_concat_contains_all_elements;

    let r1 = remove_lit(c1, c1[i]);
    let r2 = remove_lit(c2, c2[j]);
    lemma_remove_lit(c1, c1[i]);
    lemma_remove_lit(c2, c2[j]);
    lemma_normalize_contains(r1 + r2);
    let a = choose|a: int| 0 <= a < c1.len() && #[trigger] lit_holds(sigma, c1[a]);
    let b = choose|b: int| 0 <= b < c2.len() && #[trigger] lit_holds(sigma, c2[b]);
    let m = if c1[a] != c1[i] {
        assert(c1.contains(c1[a]));
        c1[a]
    } else {
        assert(c2[b] != c2[j]);
        assert(c2.contains(c2[b]));
        c2[b]
    };
    assert(lit_holds(sigma, m));
    assert((r1 + r2).contains(m));
    let n = resolvent(c1, c2, i, j);
    assert(n.contains(m));
    let k = choose|k: int| 0 <= k < n.len() && n[k] == m;
    assert(lit_holds(sigma, n[k]));
}

/// Result of one resolution step.
#[derive(Debug, Clone)]
pub enum ResolutionResult {
    /// The (non-empty) resolvent.
    Resolvent(Clause),
    /// No literal of the first clause is complementary to one of the second.
    NoResolution,
    /// The resolvent is the empty clause.
    Unsatisfiable,
}

/// Exec counterpart of `name_lt`.
pub fn name_less(a: &str, b: &str) -> (r: bool)
    ensures
        r == name_lt(a@, b@),
{
    let x = crate::text::chars_of(a);
    let y = crate::text::chars_of(b);
    let mut k: usize = 0;
    assert(a@.skip(0) =~= a@ && b@.skip(0) =~= b@);
    while k < x.len() && k < y.len() && x[k] == y[k]
        invariant
            k <= x@.len(),
            k <= y@.len(),
            x@ == a@,
            y@ == b@,
            name_lt(a@, b@) == name_lt(a@.skip(k as int), b@.skip(k as int)),
        decreases x@.len() - k,
    {
        proof {
            let s = a@.skip(k as int);
            let t = b@.skip(k as int);
            assert(s.drop_first() =~= a@.skip(k as int + 1));
            assert(t.drop_first() =~= b@.skip(k as int + 1));
        }
        k = k + 1;
    }
    if k == y.len() {
        return false;
    }
    if k == x.len() {
        return true;
    }
    x[k] < y[k]
}

/// Insert `x` into `out` as `insert_by_name` does.
fn insert_literal(out: &mut Vec<Literal>, x: Literal)
    ensures
        final(out)@.map_values(|l: Literal| l@) == insert_by_name(old(out)@.map_values(|l: Literal| l@), x@),
{
    let ghost s = out@.map_values(|l: Literal| l@);
    let mut p: usize = out.len();
    assert(s.take(p as int) =~= s && s.skip(p as int) =~= Seq::<Lit>::empty());
    while p > 0 && name_less(x.name(), out[p - 1].name())
        invariant
            p <= out@.len(),
            out@.map_values(|l: Literal| l@) == s,
            insert_by_name(s, x@) == insert_by_name(s.take(p as int), x@) + s.skip(p as int),
        decreases p,
    {
        proof {
            let t = s.take(p as int);
            assert(t.drop_last() =~= s.take(p as int - 1));
            assert(t.last() == s[p - 1]);
            assert(insert_by_name(t, x@) == insert_by_name(t.drop_last(), x@).push(t.last()));
            assert(insert_by_name(t.drop_last(), x@).push(t.last()) + s.skip(p as int)
                =~= insert_by_name(s.take(p as int - 1), x@) + s.skip(p as int - 1));
        }
        p = p - 1;
    }
    proof {
        let t = s.take(p as int);
        if p > 0 {
            assert(t.last() == s[p - 1]);
            assert(insert_by_name(t, x@) == t.push(x@));
        } else {
            assert(insert_by_name(t, x@) == seq![x@]);
        }
    }
    out.insert(p, x);
    proof {
        assert(out@.map_values(|l: Literal| l@) =~= s.take(p as int).push(x@) + s.skip(p as int));
    }
}

/// The literals `lits` normalized: stably sorted by name, then without
/// consecutive repeats.
fn normalize_literals(lits: Vec<Literal>) -> (r: Vec<Literal>)
    ensures
        r@.map_values(|l: Literal| l@) == normalize(lits@.map_values(|l: Literal| l@)),
{
    let ghost s = lits@.map_values(|l: Literal| l@);
    let mut sorted: Vec<Literal> = Vec::new();
    let mut i: usize = 0;
    while i < lits.len()
        invariant
            i <= lits@.len(),
            s == lits@.map_values(|l: Literal| l@),
            sorted@.map_values(|l: Literal| l@) == sort_by_name(s.take(i as int)),
        decreases lits@.len() - i,
    {
        proof {
            assert(s.take(i as int + 1).drop_last() =~= s.take(i as int));
        }
        insert_literal(&mut sorted, lits[i].clone());
        i = i + 1;
    }
    assert(s.take(i as int) =~= s);
    let ghost t = sorted@.map_values(|l: Literal| l@);
    let mut out: Vec<Literal> = Vec::new();
    let mut k: usize = 0;
    while k < sorted.len()
        invariant
            k <= sorted@.len(),
            t == sorted@.map_values(|l: Literal| l@),
            out@.map_values(|l: Literal| l@) == dedup(t.take(k as int)),
        decreases sorted@.len() - k,
    {
        proof {
            let u = t.take(k as int + 1);
            assert(u.drop_last() =~= t.take(k as int));
            if k > 0 {
                assert(u[u.len() - 2] == t[k - 1]);
            }
        }
        if k == 0 || !lit_equal(&sorted[k], &sorted[k - 1]) {
            out.push(sorted[k].clone());
            proof {
                let u = t.take(k as int + 1);
                if k == 0 {
                    assert(u =~= seq![t[0]]);
                    assert(dedup(u) == u);
                }
                assert(out@.map_values(|l: Literal| l@) =~= dedup(u));
            }
        }
        k = k + 1;
    }
    assert(t.take(k as int) =~= t);
    out
}

/// Resolve two clauses on their first complementary pair of literals
/// (in the order of `c1`, then `c2`): `(C₁ ∨ A, C₂ ∨ ¬A) ⟹ C₁ ∨ C₂`,
/// with every occurrence of the pair removed, the literals sorted by name
/// and repeats dropped.
pub fn resolve(c1: &Clause, c2: &Clause) -> (r: ResolutionResult)
    ensures
        r is NoResolution <==> !clash(c1@, c2@),
        r is Unsatisfiable ==> exists|i: int, j: int|
            first_clash(c1@, c2@, i, j) && resolvent(c1@, c2@, i, j).len() == 0,
        r matches ResolutionResult::Resolvent(c) ==> exists|i: int, j: int|
            first_clash(c1@, c2@, i, j) && resolvent(c1@, c2@, i, j).len() > 0 && c@ == resolvent(
                c1@,
                c2@,
                i,
                j,
            ),
{
    let n1 = c1.literals.len();
    let n2 = c2.literals.len();
    let mut i: usize = 0;
    while i < n1
        invariant
            n1 == c1@.len(),
            n2 == c2@.len(),
            i <= n1,
            forall|a: int, b: int| 0 <= a < i && 0 <= b < n2 ==> !#[trigger] complementary(c1@[a], c2@[b]),
        decreases n1 - i,
    {
        let mut j: usize = 0;
        while j < n2
            invariant
                n1 == c1@.len(),
                n2 == c2@.len(),
                i < n1,
                j <= n2,
                forall|a: int, b: int| 0 <= a < i && 0 <= b < n2 ==> !#[trigger] complementary(c1@[a], c2@[b]),
                forall|b: int| 0 <= b < j ==> !#[trigger] complementary(c1@[i as int], c2@[b]),
            decreases n2 - j,
        {
            let lit1 = &c1.literals[i];
            let lit2 = &c2.literals[j];
            if lit1.is_complement(lit2) {
                let ghost gi = i as int;
                let ghost gj = j as int;
                assert(first_clash(c1@, c2@, gi, gj));
                let mut lits: Vec<Literal> = Vec::new();
                let mut a: usize = 0;
                while a < n1
                    invariant
                        n1 == c1@.len(),
                        a <= n1,
                        gi < n1,
                        c1@[gi] == lit1@,
                        lits@.map_values(|l: Literal| l@) =~= remove_lit(c1@.take(a as int), c1@[gi]),
                    decreases n1 - a,
                {
                    proof {
                        assert(c1@.take(a as int + 1).drop_last() =~= c1@.take(a as int));
                    }
                    if !lit_equal(&c1.literals[a], lit1) {
                        lits.push(c1.literals[a].clone());
                    }
                    a = a + 1;
                }
                assert(c1@.take(a as int) =~= c1@);
                let ghost first = lits@.map_values(|l: Literal| l@);
                let mut b: usize = 0;
                while b < n2
                    invariant
                        n2 == c2@.len(),
                        b <= n2,
                        gj < n2,
                        c2@[gj] == lit2@,
                        lits@.map_values(|l: Literal| l@) =~= first + remove_lit(c2@.take(b as int), c2@[gj]),
                    decreases n2 - b,
                {
                    proof {
                        assert(c2@.take(b as int + 1).drop_last() =~= c2@.take(b as int));
                    }
                    if !lit_equal(&c2.literals[b], lit2) {
                        let ghost before = lits@.map_values(|l: Literal| l@);
                        lits.push(c2.literals[b].clone());
                        proof {
                            let x = c2@[b as int];
                            let rb = remove_lit(c2@.take(b as int), c2@[gj]);
                            assert(c2@.take(b as int + 1).last() == x);
                            assert(remove_lit(c2@.take(b as int + 1), c2@[gj]) == rb.push(x));
                            assert(lits@.map_values(|l: Literal| l@) =~= before.push(x));
                            assert(before == first + rb);
                            assert((first + rb).push(x) =~= first + rb.push(x));
                        }
                    }
                    b = b + 1;
                }
                assert(c2@.take(b as int) =~= c2@);
                let normal = normalize_literals(lits);
                let resolvent_clause = Clause::new(normal);
                if resolvent_clause.is_empty() {
                    assert(clash(c1@, c2@));
                    return ResolutionResult::Unsatisfiable;
                }
                assert(clash(c1@, c2@));
                return ResolutionResult::Resolvent(resolvent_clause);
            }
            j = j + 1;
        }
        i = i + 1;
    }
    ResolutionResult::NoResolution
}

// ─── Order on names ───────────────────────────────────────────────────

pub proof fn lemma_name_lt_irreflexive(a: Seq<char>)
    ensures
        !name_lt(a, a),
    decreases a.len(),
{
    if a.len() > 0 {
        lemma_name_lt_irreflexive(a.drop_first());
    }
}

pub proof fn lemma_name_lt_transitive(a: Seq<char>, b: Seq<char>, c: Seq<char>)
    requires
        name_lt(a, b),
        name_lt(b, c),
    ensures
        name_lt(a, c),
    decreases a.len(),
{
    if a.len() > 0 && b.len() > 0 && c.len() > 0 && a[0] == b[0] && b[0] == c[0] {
        lemma_name_lt_transitive(a.drop_first(), b.drop_first(), c.drop_first());
    }
}

pub proof fn lemma_name_lt_total(a: Seq<char>, b: Seq<char>)
    requires
        a != b,
    ensures
        name_lt(a, b) || name_lt(b, a),
    decreases a.len(),
{
    if a.len() > 0 && b.len() > 0 && a[0] == b[0] {
        assert(a =~= seq![a[0]] + a.drop_first());
        assert(b =~= seq![b[0]] + b.drop_first());
        lemma_name_lt_total(a.drop_first(), b.drop_first());
    } else if a.len() == 0 && b.len() == 0 {
        assert(a =~= b);
    } else if a.len() > 0 && b.len() > 0 {
        let x = a[0] as int;
        let y = b[0] as int;
        assert(x != y);
    }
}

pub proof fn lemma_name_lt_asymmetric(a: Seq<char>, b: Seq<char>)
    requires
        name_lt(a, b),
    ensures
        !name_lt(b, a),
{
    if name_lt(b, a) {
        lemma_name_lt_transitive(a, b, a);
        lemma_name_lt_irreflexive(a);
    }
}

/// No later literal has a smaller name than an earlier one.
pub open spec fn name_sorted(s: Seq<Lit>) -> bool {
    forall|a: int, b: int| 0 <= a < b < s.len() ==> !#[trigger] name_lt(s[b].1, #[trigger] s[a].1)
}

/// Names strictly increase along the clause.
pub open spec fn strictly_sorted(s: Seq<Lit>) -> bool {
    forall|a: int, b: int| 0 <= a < b < s.len() ==> #[trigger] name_lt(s[a].1, #[trigger] s[b].1)
}

/// Two complementary literals occur in the clause.
pub open spec fn has_clash(s: Seq<Lit>) -> bool {
    exists|a: int, b: int| 0 <= a < b < s.len() && #[trigger] complementary(s[a], s[b])
}

/// `name ≤` as the negation of the reverse strict order.
proof fn lemma_le_transitive(a: Seq<char>, b: Seq<char>, c: Seq<char>)
    requires
        !name_lt(b, a),
        !name_lt(c, b),
    ensures
        !name_lt(c, a),
{
    if name_lt(c, a) {
        if a != b {
            lemma_name_lt_total(a, b);
        }
        if b != c {
            lemma_name_lt_total(b, c);
        }
        if a == b {
        } else if b == c {
        } else {
            lemma_name_lt_transitive(a, b, c);
            lemma_name_lt_asymmetric(a, c);
        }
    }
}

proof fn lemma_insert_by_name_sorted(s: Seq<Lit>, x: Lit)
    requires
        name_sorted(s),
    ensures
        name_sorted(insert_by_name(s, x)),
    decreases s.len(),
{
    if s.len() > 0 {
        let p = s.drop_last();
        let last = s.last();
        if name_lt(x.1, last.1) {
            lemma_insert_by_name_sorted(p, x);
            let q = insert_by_name(p, x);
            lemma_insert_by_name_contains(p, x);
            lemma_name_lt_asymmetric(x.1, last.1);
            let r = q.push(last);
            assert forall|a: int, b: int| 0 <= a < b < r.len() implies !#[trigger] name_lt(r[b].1, #[trigger] r[a].1) by {
                if b == r.len() - 1 {
                    assert(q.contains(q[a]));
                    if q[a] != x {
                        let k = choose|k: int| 0 <= k < p.len() && p[k] == q[a];
                        assert(s[k] == q[a] && s[s.len() - 1] == last);
                    }
                } else {
                    assert(r[a] == q[a] && r[b] == q[b]);
                }
            }
        } else {
            let r = s.push(x);
            assert forall|a: int, b: int| 0 <= a < b < r.len() implies !#[trigger] name_lt(r[b].1, #[trigger] r[a].1) by {
                if b == r.len() - 1 {
                    if a < s.len() - 1 {
                        assert(!name_lt(s[s.len() - 1].1, s[a].1));
                        lemma_le_transitive(s[a].1, last.1, x.1);
                    }
                } else {
                    assert(r[a] == s[a] && r[b] == s[b]);
                }
            }
        }
    }
}

proof fn lemma_sort_by_name_sorted(s: Seq<Lit>)
    ensures
        name_sorted(sort_by_name(s)),
    decreases s.len(),
{
    if s.len() > 0 {
        lemma_sort_by_name_sorted(s.drop_last());
        lemma_insert_by_name_sorted(sort_by_name(s.drop_last()), s.last());
    }
}

proof fn lemma_dedup_sorted(s: Seq<Lit>)
    requires
        name_sorted(s),
    ensures
        name_sorted(dedup(s)),
        forall|a: int| 0 <= a < dedup(s).len() - 1 ==> #[trigger] dedup(s)[a] != dedup(s)[a + 1],
    decreases s.len(),
{
    if s.len() > 1 {
        let p = s.drop_last();
        assert(name_sorted(p)) by {
            assert forall|a: int, b: int| 0 <= a < b < p.len() implies !#[trigger] name_lt(p[b].1, #[trigger] p[a].1) by {
                assert(p[a] == s[a] && p[b] == s[b]);
            }
        }
        lemma_dedup_sorted(p);
        lemma_dedup_contains(p);
        let d = dedup(p);
        if s.last() != s[s.len() - 2] {
            let r = d.push(s.last());
            assert forall|a: int, b: int| 0 <= a < b < r.len() implies !#[trigger] name_lt(r[b].1, #[trigger] r[a].1) by {
                if b == r.len() - 1 {
                    assert(d.contains(d[a]));
                    let k = choose|k: int| 0 <= k < p.len() && p[k] == d[a];
                    assert(s[k] == d[a]);
                } else {
                    assert(r[a] == d[a] && r[b] == d[b]);
                }
            }
            assert forall|a: int| 0 <= a < r.len() - 1 implies #[trigger] r[a] != r[a + 1] by {
                if a == r.len() - 2 {
                    assert(d.last() == p.last());
                    assert(p.last() == s[s.len() - 2]);
                } else {
                    assert(r[a] == d[a] && r[a + 1] == d[a + 1]);
                }
            }
        }
    }
}

proof fn lemma_strict_from_adjacent(s: Seq<Lit>)
    requires
        forall|a: int| 0 <= a < s.len() - 1 ==> #[trigger] name_lt(s[a].1, s[a + 1].1),
    ensures
        strictly_sorted(s),
    decreases s.len(),
{
    if s.len() > 1 {
        let p = s.drop_last();
        assert forall|a: int| 0 <= a < p.len() - 1 implies #[trigger] name_lt(p[a].1, p[a + 1].1) by {
            assert(p[a] == s[a] && p[a + 1] == s[a + 1]);
        }
        lemma_strict_from_adjacent(p);
        assert forall|a: int, b: int| 0 <= a < b < s.len() implies #[trigger] name_lt(s[a].1, #[trigger] s[b].1) by {
            if b < s.len() - 1 {
                assert(p[a] == s[a] && p[b] == s[b]);
            } else {
                let c = b - 1;
                assert(name_lt(s[c].1, s[c + 1].1));
                if a < c {
                    assert(p[a] == s[a] && p[c] == s[c]);
                    assert(name_lt(p[a].1, p[c].1));
                    lemma_name_lt_transitive(s[a].1, s[c].1, s[b].1);
                }
            }
        }
    }
}

/// A normalized clause without complementary literals has strictly
/// increasing names.
pub proof fn lemma_normalize_strict(s: Seq<Lit>)
    requires
        !has_clash(normalize(s)),
    ensures
        strictly_sorted(normalize(s)),
{
    lemma_sort_by_name_sorted(s);
    lemma_dedup_sorted(sort_by_name(s));
    let n = normalize(s);
    assert forall|a: int| 0 <= a < n.len() - 1 implies #[trigger] name_lt(n[a].1, n[a + 1].1) by {
        assert(n[a] != n[a + 1]);
        assert(!name_lt(n[a + 1].1, n[a].1));
        if n[a].1 == n[a + 1].1 {
            assert(n[a] == (n[a].0, n[a].1));
            assert(n[a + 1] == (n[a + 1].0, n[a + 1].1));
            assert(complementary(n[a], n[a + 1]));
        } else {
            lemma_name_lt_total(n[a].1, n[a + 1].1);
        }
    }
    lemma_strict_from_adjacent(n);
}

/// Two clauses with strictly increasing names and the same literals are
/// equal.
pub proof fn lemma_strict_unique(s: Seq<Lit>, t: Seq<Lit>)
    requires
        strictly_sorted(s),
        strictly_sorted(t),
        s.to_set() == t.to_set(),
    ensures
        s == t,
    decreases s.len(),
{
    if s.len() == 0 {
        if t.len() > 0 {
            assert(t.to_set().contains(t[0]));
        }
        assert(s =~= t);
    } else {
        assert(s.to_set().contains(s[0]));
        assert(t.len() > 0);
        assert(t.to_set().contains(t[0]));
        let k = choose|k: int| 0 <= k < t.len() && t[k] == s[0];
        let m = choose|m: int| 0 <= m < s.len() && s[m] == t[0];
        if k > 0 {
            assert(name_lt(t[0].1, t[k].1));
            if m > 0 {
                assert(name_lt(s[0].1, s[m].1));
                lemma_name_lt_asymmetric(t[0].1, s[0].1);
            } else {
                lemma_name_lt_irreflexive(s[0].1);
            }
        }
        assert(s[0] == t[0]);
        let s1 = s.drop_first();
        let t1 = t.drop_first();
        assert(strictly_sorted(s1)) by {
            assert forall|a: int, b: int| 0 <= a < b < s1.len() implies #[trigger] name_lt(s1[a].1, #[trigger] s1[b].1) by {
                assert(s1[a] == s[a + 1] && s1[b] == s[b + 1]);
            }
        }
        assert(strictly_sorted(t1)) by {
            assert forall|a: int, b: int| 0 <= a < b < t1.len() implies #[trigger] name_lt(t1[a].1, #[trigger] t1[b].1) by {
                assert(t1[a] == t[a + 1] && t1[b] == t[b + 1]);
            }
        }
        assert(s1.to_set() =~= t1.to_set()) by {
            assert forall|y: Lit| s1.to_set().contains(y) implies t1.to_set().contains(y) by {
                let a = choose|a: int| 0 <= a < s1.len() && s1[a] == y;
                assert(s[a + 1] == y);
                assert(s.to_set().contains(y));
                let b = choose|b: int| 0 <= b < t.len() && t[b] == y;
                if b == 0 {
                    assert(name_lt(s[0].1, s[a + 1].1));
                    lemma_name_lt_irreflexive(y.1);
                }
                assert(t1[b - 1] == y);
            }
            assert forall|y: Lit| t1.to_set().contains(y) implies s1.to_set().contains(y) by {
                let a = choose|a: int| 0 <= a < t1.len() && t1[a] == y;
                assert(t[a + 1] == y);
                assert(t.to_set().contains(y));
                let b = choose|b: int| 0 <= b < s.len() && s[b] == y;
                if b == 0 {
                    assert(name_lt(t[0].1, t[a + 1].1));
                    lemma_name_lt_irreflexive(y.1);
                }
                assert(s1[b - 1] == y);
            }
        }
        lemma_strict_unique(s1, t1);
        assert(s =~= seq![s[0]] + s1);
        assert(t =~= seq![t[0]] + t1);
    }
}

// ─── Counting clauses over a finite set of literals ───────────────────

/// All subsets of `s`.
pub open spec fn subsets<A>(s: Set<A>) -> Set<Set<A>> {
    Set::new(|t: Set<A>| t.subset_of(s))
}

pub proof fn lemma_subsets_finite<A>(s: Set<A>)
    requires
        s.finite(),
    ensures
        subsets(s).finite(),
    decreases s.len(),
{
    if s.len() == 0 {
        assert(s =~= Set::<A>::empty());
        assert(subsets(s) =~= Set::<Set<A>>::empty().insert(Set::<A>::empty())) by {
            assert forall|t: Set<A>| subsets(s).contains(t) implies t == Set::<A>::empty() by {
                assert(t =~= Set::<A>::empty());
            }
        }
    } else {
        let a = s.choose();
        let r = s.remove(a);
        lemma_subsets_finite(r);
        let with_a = |t: Set<A>| t.insert(a);
        subsets(r).lemma_map_finite(with_a);
        assert(subsets(s) =~= subsets(r).union(subsets(r).map(with_a))) by {
            assert forall|t: Set<A>| subsets(s).contains(t) implies subsets(r).union(subsets(r).map(with_a)).contains(t) by {
                if t.contains(a) {
                    let u = t.remove(a);
                    assert(subsets(r).contains(u));
                    assert(u.insert(a) =~= t);
                    assert(subsets(r).map(with_a).contains(t));
                } else {
                    assert(subsets(r).contains(t));
                }
            }
            assert forall|t: Set<A>| subsets(r).union(subsets(r).map(with_a)).contains(t) implies subsets(s).contains(t) by {
                if subsets(r).map(with_a).contains(t) {
                    let u = choose|u: Set<A>| subsets(r).contains(u) && with_a(u) == t;
                    assert(t.subset_of(s));
                }
            }
        }
    }
}

/// The literals occurring in a formula.
pub open spec fn formula_literals(f: Seq<Seq<Lit>>) -> Set<Lit>
    decreases f.len(),
{
    if f.len() == 0 {
        Set::empty()
    } else {
        formula_literals(f.drop_last()).union(f.last().to_set())
    }
}

pub proof fn lemma_formula_literals(f: Seq<Seq<Lit>>)
    ensures
        formula_literals(f).finite(),
        forall|j: int, i: int|
            0 <= j < f.len() && 0 <= i < f[j].len() ==> formula_literals(f).contains(#[trigger] f[j][i]),
    decreases f.len(),
{
    if f.len() > 0 {
        let p = f.drop_last();
        lemma_formula_literals(p);
        vstd::seq_lib::seq_to_set_is_finite(f.last());
        assert forall|j: int, i: int| 0 <= j < f.len() && 0 <= i < f[j].len() implies formula_literals(f).contains(
            #[trigger] f[j][i],
        ) by {
            if j < p.len() {
                assert(p[j][i] == f[j][i]);
            } else {
                assert(f.last().contains(f[j][i]));
            }
        }
    }
}

/// Distinct clauses with strictly increasing names over the literals of
/// `lits` are at most as many as the subsets of `lits`.
pub proof fn lemma_clause_count(cs: Seq<Seq<Lit>>, lits: Set<Lit>)
    requires
        lits.finite(),
        cs.no_duplicates(),
        forall|k: int| 0 <= k < cs.len() ==> strictly_sorted(#[trigger] cs[k]),
        forall|k: int, i: int| 0 <= k < cs.len() && 0 <= i < cs[k].len() ==> lits.contains(#[trigger] cs[k][i]),
    ensures
        cs.len() <= subsets(lits).len(),
{
    let sets = cs.map_values(|c: Seq<Lit>| c.to_set());
    assert(sets.no_duplicates()) by {
        assert forall|a: int, b: int| 0 <= a < sets.len() && 0 <= b < sets.len() && a != b implies sets[a] != sets[b] by {
            if sets[a] == sets[b] {
                lemma_strict_unique(cs[a], cs[b]);
            }
        }
    }
    sets.unique_seq_to_set();
    lemma_subsets_finite(lits);
    assert(sets.to_set().subset_of(subsets(lits))) by {
        assert forall|t: Set<Lit>| sets.to_set().contains(t) implies subsets(lits).contains(t) by {
            let k = choose|k: int| 0 <= k < sets.len() && sets[k] == t;
            assert forall|y: Lit| t.contains(y) implies lits.contains(y) by {
                let i = choose|i: int| 0 <= i < cs[k].len() && cs[k][i] == y;
            }
        }
    }
    vstd::set_lib::lemma_len_subset(sets.to_set(), subsets(lits));
}

// ─── Saturation ───────────────────────────────────────────────────────

/// Whether two clauses hold the same literals in the same order.
fn clause_equal(a: &Clause, b: &Clause) -> (r: bool)
    ensures
        r == (a@ == b@),
{
    if a.literals.len() != b.literals.len() {
        return false;
    }
    let mut i: usize = 0;
    while i < a.literals.len()
        invariant
            a@.len() == b@.len(),
            i <= a@.len(),
            forall|k: int| 0 <= k < i ==> a@[k] == b@[k],
        decreases a@.len() - i,
    {
        if !lit_equal(&a.literals[i], &b.literals[i]) {
            assert(a@[i as int] != b@[i as int]);
            return false;
        }
        i = i + 1;
    }
    assert(a@ =~= b@);
    true
}

fn clause_list_contains(list: &Vec<Clause>, c: &Clause) -> (r: bool)
    ensures
        r == list@.map_values(|x: Clause| x@).contains(c@),
{
    let ghost v = list@.map_values(|x: Clause| x@);
    let mut k: usize = 0;
    while k < list.len()
        invariant
            k <= list@.len(),
            v == list@.map_values(|x: Clause| x@),
            forall|t: int| 0 <= t < k ==> v[t] != c@,
        decreases list@.len() - k,
    {
        if clause_equal(&list[k], c) {
            assert(v[k as int] == c@);
            return true;
        }
        k = k + 1;
    }
    false
}

/// What the saturation loop keeps between rounds.
pub open spec fn saturation_inv(f: Seq<Seq<Lit>>, v: Seq<Seq<Lit>>, n0: int, lits: Set<Lit>) -> bool {
    &&& 0 <= n0 <= v.len()
    &&& v.take(n0) == f
    &&& forall|k: int| 0 <= k < v.len() ==> (#[trigger] v[k]).len() > 0
    &&& forall|sigma: spec_fn(Seq<char>) -> bool| #[trigger] cnf_holds(sigma, f) ==> cnf_holds(sigma, v)
    &&& forall|k: int, i: int| 0 <= k < v.len() && 0 <= i < v[k].len() ==> lits.contains(#[trigger] v[k][i])
    &&& forall|k: int| n0 <= k < v.len() ==> strictly_sorted(#[trigger] v[k])
    &&& v.subrange(n0, v.len() as int).no_duplicates()
}

// ─── Completeness of saturation ──────────────────────────────────────

/// Every pair of clauses of `s` (in list order) that clashes resolves, on
/// its first complementary pair, to a non-empty clause that is a
/// tautology or already in `s`.
pub open spec fn res_closed(s: Seq<Seq<Lit>>) -> bool {
    forall|p: int, q: int, a: int, b: int|
        0 <= p < q < s.len() && #[trigger] first_clash(s[p], s[q], a, b) ==> resolvent(s[p], s[q], a, b).len() > 0 && (
        has_clash(resolvent(s[p], s[q], a, b)) || s.contains(resolvent(s[p], s[q], a, b)))
}

/// Every literal of `c` is on a variable of `vars` and false under `sigma`.
pub open spec fn within_false(sigma: spec_fn(Seq<char>) -> bool, vars: Set<Seq<char>>, c: Seq<Lit>) -> bool {
    forall|i: int| 0 <= i < c.len() ==> vars.contains(#[trigger] c[i].1) && !lit_holds(sigma, c[i])
}

/// `c` holds the literal `(pol, x)`, and every other literal of it is on a
/// variable of `vars` other than `x` and false under `sigma`.
pub open spec fn critical(sigma: spec_fn(Seq<char>) -> bool, vars: Set<Seq<char>>, x: Seq<char>, pol: bool, c: Seq<Lit>) -> bool {
    &&& c.contains((pol, x))
    &&& forall|i: int|
        0 <= i < c.len() ==> #[trigger] c[i] == (pol, x) || (c[i].1 != x && vars.contains(c[i].1) && !lit_holds(sigma, c[i]))
}

/// The assignment built variable by variable over `vars`: a variable is
/// made true exactly when some clause needs it true, its other literals
/// being false already.
pub open spec fn model_of(s: Seq<Seq<Lit>>, vars: Set<Seq<char>>) -> spec_fn(Seq<char>) -> bool
    decreases vars.len(),
    when vars.finite()
{
    if vars.len() == 0 {
        |y: Seq<char>| false
    } else {
        let x = vars.choose();
        let rest = vars.remove(x);
        proof {
            vstd::set::axiom_set_choose_len(vars);
        }
        let prev = model_of(s, rest);
        let val = exists|p: int| 0 <= p < s.len() && #[trigger] critical(prev, rest, x, true, s[p]);
        |y: Seq<char>| if y == x { val } else { prev(y) }
    }
}

/// Two clashing clauses have a first clash.
proof fn lemma_first_clash_exists(c1: Seq<Lit>, c2: Seq<Lit>, a0: int, b0: int)
    requires
        0 <= a0 < c1.len(),
        0 <= b0 < c2.len(),
        complementary(c1[a0], c2[b0]),
    ensures
        exists|a: int, b: int| #[trigger] first_clash(c1, c2, a, b),
    decreases a0, b0,
{
    let earlier = exists|a: int, b: int|
        0 <= a < c1.len() && 0 <= b < c2.len() && (a < a0 || (a == a0 && b < b0)) && #[trigger] complementary(
            c1[a],
            c2[b],
        );
    if earlier {
        let (a, b) = choose|a: int, b: int|
            0 <= a < c1.len() && 0 <= b < c2.len() && (a < a0 || (a == a0 && b < b0)) && #[trigger] complementary(
                c1[a],
                c2[b],
            );
        lemma_first_clash_exists(c1, c2, a, b);
    } else {
        assert(first_clash(c1, c2, a0, b0));
    }
}

/// A pair of clauses has at most one first clash.
proof fn lemma_first_clash_unique(c1: Seq<Lit>, c2: Seq<Lit>, a: int, b: int, a2: int, b2: int)
    requires
        first_clash(c1, c2, a, b),
        first_clash(c1, c2, a2, b2),
    ensures
        a == a2 && b == b2,
{
    if a < a2 || (a == a2 && b < b2) {
        assert(!complementary(c1[a], c2[b]));
    } else if a2 < a || (a2 == a && b2 < b) {
        assert(!complementary(c1[a2], c2[b2]));
    }
}

/// Resolving two critical clauses of opposite polarities on `x` leaves
/// only literals false under `sigma` on the other variables.
proof fn lemma_critical_resolvent(
    sigma: spec_fn(Seq<char>) -> bool,
    rest: Set<Seq<char>>,
    x: Seq<char>,
    pol: bool,
    c1: Seq<Lit>,
    c2: Seq<Lit>,
    a: int,
    b: int,
)
    requires
        critical(sigma, rest, x, pol, c1),
        critical(sigma, rest, x, !pol, c2),
        first_clash(c1, c2, a, b),
    ensures
        within_false(sigma, rest, resolvent(c1, c2, a, b)),
        !has_clash(resolvent(c1, c2, a, b)),
{
    broadcast use vstd::seq_lib::lemma_seq_concat_contains_all_elements;

    assert(c1[a] == (pol, x)) by {
        if c1[a] != (pol, x) {
            if c2[b] != (!pol, x) {
                assert(lit_holds(sigma, c1[a]) || lit_holds(sigma, c2[b]));
            }
        }
    }
    assert(c2[b] == (!pol, x));
    let r1 = remove_lit(c1, c1[a]);
    let r2 = remove_lit(c2, c2[b]);
    lemma_remove_lit(c1, c1[a]);
    lemma_remove_lit(c2, c2[b]);
    lemma_normalize_contains(r1 + r2);
    let r = resolvent(c1, c2, a, b);
    assert forall|i: int| 0 <= i < r.len() implies rest.contains(#[trigger] r[i].1) && !lit_holds(sigma, r[i]) by {
        assert(r.contains(r[i]));
        assert((r1 + r2).contains(r[i]));
        if r1.contains(r[i]) {
            let k = choose|k: int| 0 <= k < c1.len() && c1[k] == r[i];
            assert(c1[k] == (pol, x) || (c1[k].1 != x && rest.contains(c1[k].1) && !lit_holds(sigma, c1[k])));
        } else {
            assert(r2.contains(r[i]));
            let k = choose|k: int| 0 <= k < c2.len() && c2[k] == r[i];
            assert(c2[k] == (!pol, x) || (c2[k].1 != x && rest.contains(c2[k].1) && !lit_holds(sigma, c2[k])));
        }
    }
    if has_clash(r) {
        let (i, j) = choose|i: int, j: int| 0 <= i < j < r.len() && #[trigger] complementary(r[i], r[j]);
        assert(!lit_holds(sigma, r[i]) && !lit_holds(sigma, r[j]));
    }
}

/// Under the built assignment no clause of a closed list without empty
/// clauses is false on variables of `vars` only.
proof fn lemma_model_of(s: Seq<Seq<Lit>>, vars: Set<Seq<char>>)
    requires
        vars.finite(),
        res_closed(s),
        forall|p: int| 0 <= p < s.len() ==> (#[trigger] s[p]).len() > 0,
    ensures
        forall|p: int| 0 <= p < s.len() ==> !within_false(model_of(s, vars), vars, #[trigger] s[p]),
    decreases vars.len(),
{
    if vars.len() == 0 {
        assert forall|p: int| 0 <= p < s.len() implies !within_false(model_of(s, vars), vars, #[trigger] s[p]) by {
            assert(!vars.contains(s[p][0].1));
        }
    } else {
        let x = vars.choose();
        vstd::set::axiom_set_choose_len(vars);
        let rest = vars.remove(x);
        lemma_model_of(s, rest);
        let prev = model_of(s, rest);
        let val = exists|p: int| 0 <= p < s.len() && #[trigger] critical(prev, rest, x, true, s[p]);
        let sigma = model_of(s, vars);
        assert(forall|y: Seq<char>| #[trigger] sigma(y) == if y == x { val } else { prev(y) });
        assert forall|q: int| 0 <= q < s.len() implies !within_false(sigma, vars, #[trigger] s[q]) by {
            let c = s[q];
            if within_false(sigma, vars, c) {
                if c.contains((true, x)) || c.contains((false, x)) {
                    let pol = !val;
                    assert forall|i: int| 0 <= i < c.len() implies #[trigger] c[i] == (pol, x) || (c[i].1 != x
                        && rest.contains(c[i].1) && !lit_holds(prev, c[i])) by {
                        assert(vars.contains(c[i].1) && !lit_holds(sigma, c[i]));
                    }
                    if c.contains((val, x)) {
                        let k = choose|k: int| 0 <= k < c.len() && c[k] == (val, x);
                        assert(!lit_holds(sigma, c[k]));
                    }
                    assert(c.contains((pol, x)));
                    assert(critical(prev, rest, x, pol, c));
                    if !val {
                        assert(critical(prev, rest, x, true, s[q]));
                    } else {
                        let p = choose|p: int| 0 <= p < s.len() && #[trigger] critical(prev, rest, x, true, s[p]);
                        let k1 = choose|k: int| 0 <= k < s[p].len() && s[p][k] == (true, x);
                        let k2 = choose|k: int| 0 <= k < c.len() && c[k] == (false, x);
                        assert(p != q) by {
                            if p == q {
                                assert(c[k1] == (true, x));
                                assert(c[k1] == (false, x) || c[k1].1 != x);
                            }
                        }
                        let (lo, hi) = if p < q { (p, q) } else { (q, p) };
                        if p < q {
                            lemma_first_clash_exists(s[p], s[q], k1, k2);
                        } else {
                            lemma_first_clash_exists(s[q], s[p], k2, k1);
                        }
                        let (a, b) = choose|a: int, b: int| #[trigger] first_clash(s[lo], s[hi], a, b);
                        if p < q {
                            lemma_critical_resolvent(prev, rest, x, true, s[p], s[q], a, b);
                        } else {
                            lemma_critical_resolvent(prev, rest, x, false, s[q], s[p], a, b);
                        }
                        let r = resolvent(s[lo], s[hi], a, b);
                        assert(s.contains(r));
                        let t = choose|t: int| 0 <= t < s.len() && s[t] == r;
                        assert(!within_false(prev, rest, s[t]));
                    }
                } else {
                    assert forall|i: int| 0 <= i < c.len() implies rest.contains(#[trigger] c[i].1) && !lit_holds(
                        prev,
                        c[i],
                    ) by {
                        assert(vars.contains(c[i].1) && !lit_holds(sigma, c[i]));
                        if c[i].1 == x {
                            assert(c.contains(c[i]));
                        }
                    }
                    assert(within_false(prev, rest, c));
                }
            }
        }
    }
}

/// A closed list of non-empty clauses over the variables `vars` is
/// satisfiable.
pub proof fn lemma_closed_satisfiable(s: Seq<Seq<Lit>>, vars: Set<Seq<char>>)
    requires
        vars.finite(),
        res_closed(s),
        forall|p: int| 0 <= p < s.len() ==> (#[trigger] s[p]).len() > 0,
        forall|p: int, i: int| 0 <= p < s.len() && 0 <= i < s[p].len() ==> vars.contains(#[trigger] s[p][i].1),
    ensures
        cnf_holds(model_of(s, vars), s),
{
    lemma_model_of(s, vars);
    let sigma = model_of(s, vars);
    assert forall|p: int| 0 <= p < s.len() implies #[trigger] clause_holds(sigma, s[p]) by {
        assert(!within_false(sigma, vars, s[p]));
        let i = choose|i: int| 0 <= i < s[p].len() && !(vars.contains(s[p][i].1) && !lit_holds(sigma, s[p][i]));
        assert(vars.contains(s[p][i].1));
    }
}

/// Saturate the clause set under resolution of every pair (each on its
/// first complementary pair), keeping new non-tautological resolvents;
/// `true` when the formula holds the empty clause or once the empty clause
/// is derived, `false` once a round adds nothing. A `true` answer means
/// the formula is unsatisfiable.
pub fn resolution_refutation(cnf: &CNF) -> (r: bool)
    ensures
        r <==> !satisfiable(cnf@),
{
    let mut e: usize = 0;
    while e < cnf.clauses.len()
        invariant
            e <= cnf.clauses@.len(),
            forall|k: int| 0 <= k < e ==> cnf@[k] != Seq::<Lit>::empty(),
        decreases cnf.clauses@.len() - e,
    {
        if cnf.clauses[e].literals.len() == 0 {
            proof {
                let c = cnf@[e as int];
                assert(c.len() == 0);
                assert forall|sigma: spec_fn(Seq<char>) -> bool| !#[trigger] cnf_holds(sigma, cnf@) by {
                    if cnf_holds(sigma, cnf@) {
                        assert(clause_holds(sigma, cnf@[e as int]));
                    }
                }
            }
            return true;
        }
        proof {
            assert(cnf@[e as int].len() == cnf.clauses@[e as int].literals@.len());
        }
        e = e + 1;
    }
    proof {
        if cnf@.contains(Seq::<Lit>::empty()) {
            let k = choose|k: int| 0 <= k < cnf@.len() && cnf@[k] == Seq::<Lit>::empty();
            assert(cnf@[k] != Seq::<Lit>::empty());
        }
    }
    let mut clauses: Vec<Clause> = cnf.clauses.clone();
    let ghost f = cnf@;
    let ghost n0 = cnf@.len() as int;
    let ghost lits = formula_literals(f);
    proof {
        lemma_formula_literals(f);
        assert(clauses@.map_values(|x: Clause| x@) =~= f);
        assert(clauses@.map_values(|x: Clause| x@).subrange(n0, n0) =~= Seq::<Seq<Lit>>::empty());
        assert(f.take(n0) =~= f);
        assert forall|k: int| 0 <= k < f.len() implies (#[trigger] f[k]).len() > 0 by {
            if f[k].len() == 0 {
                assert(f[k] =~= Seq::<Lit>::empty());
                assert(f.contains(Seq::<Lit>::empty()));
            }
        }
    }
    loop
        invariant
            f == cnf@,
            !cnf@.contains(Seq::<Lit>::empty()),
            lits.finite(),
            saturation_inv(f, clauses@.map_values(|x: Clause| x@), n0, lits),
        decreases subsets(lits).len() - (clauses@.len() - n0),
    {
        let ghost v = clauses@.map_values(|x: Clause| x@);
        proof {
            lemma_clause_count(v.subrange(n0, v.len() as int), lits);
        }
        let mut new_clauses: Vec<Clause> = Vec::new();
        let mut found_new = false;
        let n = clauses.len();
        let mut i: usize = 0;
        while i < n
            invariant
                f == cnf@,
                n == clauses@.len(),
                v == clauses@.map_values(|x: Clause| x@),
                saturation_inv(f, v, n0, lits),
                i <= n,
                found_new == (new_clauses@.len() > 0),
                saturation_inv(f, v + new_clauses@.map_values(|x: Clause| x@), n0, lits),
                forall|p: int, q: int, a: int, b: int|
                    0 <= p < q < v.len() && p < i && #[trigger] first_clash(v[p], v[q], a, b) ==> resolvent(v[p], v[q], a, b).len()
                        > 0 && (has_clash(resolvent(v[p], v[q], a, b)) || (v + new_clauses@.map_values(|x: Clause| x@)).contains(
                        resolvent(v[p], v[q], a, b),
                    )),
            decreases n - i,
        {
            let mut j: usize = i + 1;
            while j < n
                invariant
                    f == cnf@,
                    n == clauses@.len(),
                    v == clauses@.map_values(|x: Clause| x@),
                    saturation_inv(f, v, n0, lits),
                    i < n,
                    i + 1 <= j <= n,
                    found_new == (new_clauses@.len() > 0),
                    saturation_inv(f, v + new_clauses@.map_values(|x: Clause| x@), n0, lits),
                    forall|p: int, q: int, a: int, b: int|
                        0 <= p < q < v.len() && (p < i || (p == i && q < j)) && #[trigger] first_clash(v[p], v[q], a, b)
                            ==> resolvent(v[p], v[q], a, b).len() > 0 && (has_clash(resolvent(v[p], v[q], a, b)) || (v
                            + new_clauses@.map_values(|x: Clause| x@)).contains(resolvent(v[p], v[q], a, b))),
                decreases n - j,
            {
                let ghost w0 = v + new_clauses@.map_values(|x: Clause| x@);
                let rr = resolve(&clauses[i], &clauses[j]);
                proof {
                    assert(clauses@[i as int]@ == v[i as int]);
                    assert(clauses@[j as int]@ == v[j as int]);
                }
                match rr {
                    ResolutionResult::Unsatisfiable => {
                        proof {
                            assert(clauses@[i as int]@ == v[i as int]);
                            assert(clauses@[j as int]@ == v[j as int]);
                            let (a, b) = choose|a: int, b: int|
                                first_clash(v[i as int], v[j as int], a, b) && resolvent(v[i as int], v[j as int], a, b).len() == 0;
                            assert forall|sigma: spec_fn(Seq<char>) -> bool| !#[trigger] cnf_holds(sigma, f) by {
                                if cnf_holds(sigma, f) {
                                    assert(cnf_holds(sigma, v));
                                    assert(clause_holds(sigma, v[i as int]));
                                    assert(clause_holds(sigma, v[j as int]));
                                    lemma_resolvent_sound(sigma, v[i as int], v[j as int], a, b);
                                }
                            }
                        }
                        return true;
                    },
                    ResolutionResult::Resolvent(res) => {
                        let taut = res.is_tautology();
                        let in_old = clause_list_contains(&clauses, &res);
                        let in_new = clause_list_contains(&new_clauses, &res);
                        proof {
                            let (a, b) = choose|a: int, b: int|
                                first_clash(v[i as int], v[j as int], a, b) && resolvent(v[i as int], v[j as int], a, b).len() > 0
                                    && res@ == resolvent(v[i as int], v[j as int], a, b);
                            assert forall|a2: int, b2: int| #[trigger] first_clash(v[i as int], v[j as int], a2, b2) implies a2
                                == a && b2 == b by {
                                lemma_first_clash_unique(v[i as int], v[j as int], a, b, a2, b2);
                            }
                            if in_old {
                                let t = choose|t: int| 0 <= t < v.len() && v[t] == res@;
                                assert(w0[t] == res@);
                            }
                            if in_new {
                                let nw = new_clauses@.map_values(|x: Clause| x@);
                                let t = choose|t: int| 0 <= t < nw.len() && nw[t] == res@;
                                assert(w0[v.len() + t] == res@);
                            }
                        }
                        if !taut && !in_old && !in_new {
                            let ghost w = v + new_clauses@.map_values(|x: Clause| x@);
                            proof {
                                assert(clauses@[i as int]@ == v[i as int]);
                                assert(clauses@[j as int]@ == v[j as int]);
                                let (a, b) = choose|a: int, b: int|
                                    first_clash(v[i as int], v[j as int], a, b) && resolvent(v[i as int], v[j as int], a, b).len() > 0
                                        && res@ == resolvent(v[i as int], v[j as int], a, b);
                                let c1 = v[i as int];
                                let c2 = v[j as int];
                                lemma_remove_lit(c1, c1[a]);
                                lemma_remove_lit(c2, c2[b]);
                                lemma_normalize_contains(remove_lit(c1, c1[a]) + remove_lit(c2, c2[b]));
                                lemma_normalize_strict(remove_lit(c1, c1[a]) + remove_lit(c2, c2[b]));
                                assert forall|sigma: spec_fn(Seq<char>) -> bool| #[trigger] cnf_holds(sigma, f) implies clause_holds(sigma, res@) by {
                                    assert(cnf_holds(sigma, v));
                                    assert(clause_holds(sigma, c1));
                                    assert(clause_holds(sigma, c2));
                                    lemma_resolvent_sound(sigma, c1, c2, a, b);
                                }
                                assert forall|t: int| 0 <= t < res@.len() implies lits.contains(#[trigger] res@[t]) by {
                                    let y = res@[t];
                                    assert(res@.contains(y));
                                    assert((remove_lit(c1, c1[a]) + remove_lit(c2, c2[b])).contains(y));
                                    vstd::seq_lib::lemma_seq_concat_contains_all_elements(
                                        remove_lit(c1, c1[a]),
                                        remove_lit(c2, c2[b]),
                                        y,
                                    );
                                    if c1.contains(y) {
                                        let q = choose|q: int| 0 <= q < c1.len() && c1[q] == y;
                                        assert(lits.contains(v[i as int][q]));
                                    } else {
                                        assert(c2.contains(y));
                                        let q = choose|q: int| 0 <= q < c2.len() && c2[q] == y;
                                        assert(lits.contains(v[j as int][q]));
                                    }
                                }
                            }
                            new_clauses.push(res);
                            proof {
                                let w2 = v + new_clauses@.map_values(|x: Clause| x@);
                                assert(w2 =~= w.push(res@));
                                assert(w2.take(n0) =~= w.take(n0));
                                assert forall|k: int| 0 <= k < w2.len() implies (#[trigger] w2[k]).len() > 0 by {
                                    if k < w.len() {
                                        assert(w2[k] == w[k]);
                                    }
                                }
                                let nw = new_clauses@.map_values(|x: Clause| x@);
                                assert forall|sigma: spec_fn(Seq<char>) -> bool| #[trigger] cnf_holds(sigma, f) implies cnf_holds(sigma, w2) by {
                                    assert(cnf_holds(sigma, w));
                                    assert forall|k: int| 0 <= k < w2.len() implies #[trigger] clause_holds(sigma, w2[k]) by {
                                        if k < w.len() {
                                            assert(w2[k] == w[k]);
                                        }
                                    }
                                }
                                assert forall|k: int, t: int| 0 <= k < w2.len() && 0 <= t < w2[k].len() implies lits.contains(#[trigger] w2[k][t]) by {
                                    if k < w.len() {
                                        assert(w2[k] == w[k]);
                                    }
                                }
                                assert forall|k: int| n0 <= k < w2.len() implies strictly_sorted(#[trigger] w2[k]) by {
                                    if k < w.len() {
                                        assert(w2[k] == w[k]);
                                    }
                                }
                                let old_tail = w.subrange(n0, w.len() as int);
                                let tail = w2.subrange(n0, w2.len() as int);
                                assert(tail =~= old_tail.push(res@));
                                assert(!old_tail.contains(res@)) by {
                                    if old_tail.contains(res@) {
                                        let q = choose|q: int| 0 <= q < old_tail.len() && old_tail[q] == res@;
                                        if n0 + q < v.len() {
                                            assert(v[n0 + q] == res@);
                                            assert(v.contains(res@));
                                        } else {
                                            let nq = n0 + q - v.len();
                                            let old_nw = new_clauses@.drop_last().map_values(|x: Clause| x@);
                                            assert(w[n0 + q] == old_nw[nq]);
                                            assert(old_nw.contains(res@));
                                        }
                                    }
                                }
                                assert(tail.no_duplicates());
                            }
                            found_new = true;
                            proof {
                                let w2 = v + new_clauses@.map_values(|x: Clause| x@);
                                assert(w2[w2.len() - 1] == res@);
                            }
                        }
                    },
                    ResolutionResult::NoResolution => {},
                }
                proof {
                    let w1 = v + new_clauses@.map_values(|x: Clause| x@);
                    assert(w1.len() >= w0.len());
                    assert forall|k: int| 0 <= k < w0.len() implies w1[k] == #[trigger] w0[k] by {
                        if k >= v.len() {
                            assert(new_clauses@[k - v.len()]@ == w0[k]);
                        }
                    }
                    assert forall|p: int, q: int, a: int, b: int|
                        0 <= p < q < v.len() && (p < i || (p == i && q < j + 1)) && #[trigger] first_clash(v[p], v[q], a, b)
                            implies resolvent(v[p], v[q], a, b).len() > 0 && (has_clash(resolvent(v[p], v[q], a, b)) || w1.contains(
                            resolvent(v[p], v[q], a, b),
                        )) by {
                        let r = resolvent(v[p], v[q], a, b);
                        if p == i && q == j {
                            assert(clash(v[p], v[q]));
                        } else {
                            if w0.contains(r) {
                                let t = choose|t: int| 0 <= t < w0.len() && w0[t] == r;
                                assert(w1[t] == r);
                            }
                        }
                    }
                }
                j = j + 1;
            }
            i = i + 1;
        }
        if !found_new && new_clauses.len() == 0 {
            proof {
                assert(v + new_clauses@.map_values(|x: Clause| x@) =~= v);
                assert(res_closed(v));
                let vars = lits.map(|l: Lit| l.1);
                lits.lemma_map_finite(|l: Lit| l.1);
                assert forall|p: int, t: int| 0 <= p < v.len() && 0 <= t < v[p].len() implies vars.contains(
                    #[trigger] v[p][t].1,
                ) by {
                    assert(lits.contains(v[p][t]));
                }
                lemma_closed_satisfiable(v, vars);
                let sigma = model_of(v, vars);
                assert forall|k: int| 0 <= k < f.len() implies #[trigger] clause_holds(sigma, f[k]) by {
                    assert(v.take(n0)[k] == v[k]);
                    assert(clause_holds(sigma, v[k]));
                }
                assert(cnf_holds(sigma, f));
            }
            return false;
        }
        let ghost before = clauses@.map_values(|x: Clause| x@);
        let ghost added = new_clauses@.map_values(|x: Clause| x@);
        let mut k: usize = 0;
        while k < new_clauses.len()
            invariant
                k <= new_clauses@.len(),
                added == new_clauses@.map_values(|x: Clause| x@),
                clauses@.map_values(|x: Clause| x@) =~= before + added.take(k as int),
            decreases new_clauses@.len() - k,
        {
            let ghost cur = clauses@.map_values(|x: Clause| x@);
            clauses.push(new_clauses[k].clone());
            proof {
                assert(clauses@.map_values(|x: Clause| x@) =~= cur.push(added[k as int]));
                assert(added.take(k as int + 1) =~= added.take(k as int).push(added[k as int]));
            }
            k = k + 1;
        }
        proof {
            assert(added.take(k as int) =~= added);
            lemma_clause_count(
                (before + added).subrange(n0, (before + added).len() as int),
                lits,
            );
        }
    }
}

} // verus!
