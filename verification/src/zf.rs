//! Hereditarily finite sets and the ZF axioms on them.
//!
//! A set is `Empty` or a list of elements. Sets are unordered, so every
//! constructor puts its elements in a canonical order: by the text that
//! `Debug` prints for them (their key), without repetitions. Two sets are
//! the same set when they have the same key.
use vstd::prelude::*;
use crate::search::resolution::{lemma_name_lt_irreflexive, lemma_name_lt_total, lemma_name_lt_transitive, name_lt};
use crate::text::{chars_of, join};
use vstd::arithmetic::power2::{pow2, lemma2_to64, lemma_pow2_strictly_increases};
use vstd::bits::{lemma_u32_shl_is_mul, lemma_u32_shr_is_div};
use crate::sets::Ordinal;

verus! {

/// A hereditarily finite set: its elements are themselves sets.
#[derive(Debug, PartialEq, Eq)]
pub enum HfSet {
    /// The empty set ∅.
    Empty,
    /// The set of the listed elements.
    Finite(Vec<HfSet>),
}

/// The listed elements.
pub open spec fn elems(s: HfSet) -> Seq<HfSet> {
    match s {
        HfSet::Empty => Seq::empty(),
        HfSet::Finite(v) => v@,
    }
}

/// The text that `Debug` prints for `s`: `Empty`, or `Finite([..])` with
/// the elements' texts separated by `, `.
pub open spec fn key(s: HfSet) -> Seq<char>
    decreases s, 1nat, 0int,
{
    match s {
        HfSet::Empty => "Empty"@,
        HfSet::Finite(v) => "Finite(["@ + join_keys(s, v@.len() as int) + "])"@,
    }
}

/// The keys of the first `n` elements of `s`, separated by `, `.
pub open spec fn join_keys(s: HfSet, n: int) -> Seq<char>
    decreases s, 0nat, n,
{
    match s {
        HfSet::Empty => Seq::empty(),
        HfSet::Finite(v) => if n <= 0 || n > v@.len() {
            Seq::empty()
        } else {
            proof {
                assert(decreases_to!(s => s->Finite_0));
                assert(decreases_to!(v => v@));
                assert(decreases_to!(v@ => v@[n - 1]));
            }
            if n == 1 {
                key(v@[0])
            } else {
                join_keys(s, n - 1) + ", "@ + key(v@[n - 1])
            }
        },
    }
}

/// The keys of a list of sets.
pub open spec fn keys_of(es: Seq<HfSet>) -> Seq<Seq<char>> {
    es.map_values(|e: HfSet| key(e))
}

/// The members of `s`, by key.
pub open spec fn members(s: HfSet) -> Set<Seq<char>> {
    keys_of(elems(s)).to_set()
}

/// Keys in strictly increasing order.
pub open spec fn strictly_sorted(ks: Seq<Seq<char>>) -> bool {
    forall|i: int, j: int| 0 <= i < j < ks.len() ==> name_lt(ks[i], ks[j])
}

/// Canonical form: `Empty`, or a non-empty list in strictly increasing
/// key order.
pub open spec fn canonical(s: HfSet) -> bool {
    match s {
        HfSet::Empty => true,
        HfSet::Finite(v) => v@.len() > 0 && strictly_sorted(keys_of(v@)),
    }
}

/// The keys of `ks` in increasing order.
pub open spec fn sorted_keys(ks: Set<Seq<char>>) -> Seq<Seq<char>> {
    choose|q: Seq<Seq<char>>| strictly_sorted(q) && q.to_set() == ks
}

/// The key of the canonical set whose members have the keys `ks`.
pub open spec fn canon_key(ks: Set<Seq<char>>) -> Seq<char> {
    if ks == Set::<Seq<char>>::empty() {
        "Empty"@
    } else {
        "Finite(["@ + join(sorted_keys(ks), ", "@) + "])"@
    }
}

// ─── Lemmas on keys ───────────────────────────────────────────────────

/// The joined keys of the first `n` elements are their keys joined.
proof fn lemma_join_keys(s: HfSet, n: int)
    requires
        s is Finite,
        0 <= n <= elems(s).len(),
    ensures
        join_keys(s, n) == join(keys_of(elems(s)).take(n), ", "@),
    decreases n,
{
    let ks = keys_of(elems(s));
    if n == 0 {
        assert(ks.take(0) =~= Seq::<Seq<char>>::empty());
    } else if n == 1 {
        assert(ks.take(1) =~= seq![ks[0]]);
    } else {
        lemma_join_keys(s, n - 1);
        assert(ks.take(n).drop_last() =~= ks.take(n - 1));
    }
}

/// The key of a list: its elements' keys joined.
pub proof fn lemma_key_list(s: HfSet)
    requires
        s is Finite,
    ensures
        key(s) == "Finite(["@ + join(keys_of(elems(s)), ", "@) + "])"@,
{
    lemma_join_keys(s, elems(s).len() as int);
    assert(keys_of(elems(s)).take(elems(s).len() as int) =~= keys_of(elems(s)));
}

/// Two strictly sorted lists of keys with the same members are the same.
pub proof fn lemma_sorted_unique(q1: Seq<Seq<char>>, q2: Seq<Seq<char>>)
    requires
        strictly_sorted(q1),
        strictly_sorted(q2),
        q1.to_set() == q2.to_set(),
    ensures
        q1 == q2,
    decreases q1.len(),
{
    if q1.len() == 0 {
        if q2.len() > 0 {
            assert(q2.to_set().contains(q2[0]));
        }
        assert(q1 =~= q2);
    } else {
        assert(q1.to_set().contains(q1[0]));
        assert(q2.len() > 0);
        let j = choose|j: int| 0 <= j < q2.len() && q2[j] == q1[0];
        assert(q2.to_set().contains(q2[0]));
        let i = choose|i: int| 0 <= i < q1.len() && q1[i] == q2[0];
        if j > 0 {
            assert(name_lt(q2[0], q2[j]));
            if i > 0 {
                assert(name_lt(q1[0], q1[i]));
                lemma_name_lt_transitive(q1[0], q2[0], q1[0]);
                lemma_name_lt_irreflexive(q1[0]);
            } else {
                lemma_name_lt_irreflexive(q1[0]);
            }
        }
        assert(q1[0] == q2[0]);
        let r1 = q1.drop_first();
        let r2 = q2.drop_first();
        assert forall|k: Seq<char>| r1.to_set().contains(k) implies r2.to_set().contains(k) by {
            let a = choose|a: int| 0 <= a < r1.len() && r1[a] == k;
            assert(q1[a + 1] == k);
            assert(q1.to_set().contains(k));
            let b = choose|b: int| 0 <= b < q2.len() && q2[b] == k;
            if b == 0 {
                assert(name_lt(q1[0], q1[a + 1]));
                lemma_name_lt_irreflexive(k);
            }
            assert(r2[b - 1] == k);
        }
        assert forall|k: Seq<char>| r2.to_set().contains(k) implies r1.to_set().contains(k) by {
            let a = choose|a: int| 0 <= a < r2.len() && r2[a] == k;
            assert(q2[a + 1] == k);
            assert(q2.to_set().contains(k));
            let b = choose|b: int| 0 <= b < q1.len() && q1[b] == k;
            if b == 0 {
                assert(name_lt(q2[0], q2[a + 1]));
                lemma_name_lt_irreflexive(k);
            }
            assert(r1[b - 1] == k);
        }
        assert(r1.to_set() =~= r2.to_set());
        lemma_sorted_unique(r1, r2);
        assert(q1 =~= seq![q1[0]] + r1);
        assert(q2 =~= seq![q2[0]] + r2);
    }
}

/// The members of a list with one more entry.
pub proof fn lemma_push_to_set<A>(s: Seq<A>, x: A)
    ensures
        s.push(x).to_set() == s.to_set().insert(x),
{
    assert forall|k: A| s.push(x).to_set().contains(k) <==> s.to_set().insert(x).contains(k) by {
        if s.push(x).to_set().contains(k) {
            let i = choose|i: int| 0 <= i < s.push(x).len() && s.push(x)[i] == k;
            if i < s.len() {
                assert(s[i] == k);
            }
        }
        if s.to_set().contains(k) {
            let i = choose|i: int| 0 <= i < s.len() && s[i] == k;
            assert(s.push(x)[i] == k);
        }
        if k == x {
            assert(s.push(x)[s.len() as int] == x);
        }
    }
    assert(s.push(x).to_set() =~= s.to_set().insert(x));
}

/// `x` put into the strictly sorted `q` at its place.
pub open spec fn insert_sorted(q: Seq<Seq<char>>, x: Seq<char>) -> Seq<Seq<char>>
    decreases q.len(),
{
    if q.len() == 0 {
        seq![x]
    } else if name_lt(q.last(), x) {
        q.push(x)
    } else {
        insert_sorted(q.drop_last(), x).push(q.last())
    }
}

proof fn lemma_insert_sorted(q: Seq<Seq<char>>, x: Seq<char>)
    requires
        strictly_sorted(q),
        !q.contains(x),
    ensures
        strictly_sorted(insert_sorted(q, x)),
        insert_sorted(q, x).to_set() == q.to_set().insert(x),
    decreases q.len(),
{
    if q.len() == 0 {
        lemma_push_to_set(q, x);
        assert(q.push(x) =~= seq![x]);
    } else if name_lt(q.last(), x) {
        lemma_push_to_set(q, x);
        let r = q.push(x);
        assert forall|i: int, j: int| 0 <= i < j < r.len() implies name_lt(r[i], r[j]) by {
            if j == q.len() && i < q.len() - 1 {
                lemma_name_lt_transitive(q[i], q.last(), x);
            }
        }
    } else {
        let q1 = q.drop_last();
        let l = q.last();
        assert(q =~= q1.push(l));
        if q1.contains(x) {
            let m = choose|m: int| 0 <= m < q1.len() && q1[m] == x;
            assert(q[m] == x);
        }
        lemma_insert_sorted(q1, x);
        let r1 = insert_sorted(q1, x);
        assert(q[q.len() - 1] == l);
        assert(x != l);
        lemma_name_lt_total(x, l);
        lemma_push_to_set(r1, l);
        lemma_push_to_set(q1, l);
        let r = r1.push(l);
        assert forall|i: int, j: int| 0 <= i < j < r.len() implies name_lt(r[i], r[j]) by {
            if j == r1.len() {
                assert(r1.to_set().contains(r1[i]));
                if r1[i] != x {
                    let m = choose|m: int| 0 <= m < q1.len() && q1[m] == r1[i];
                    assert(q[m] == q1[m]);
                }
            }
        }
        assert(r.to_set() =~= q.to_set().insert(x));
    }
}

/// The members of any list can be listed in strictly increasing order.
proof fn lemma_sorted_exists(s: Seq<Seq<char>>)
    ensures
        exists|q: Seq<Seq<char>>| strictly_sorted(q) && q.to_set() == s.to_set(),
    decreases s.len(),
{
    if s.len() == 0 {
        let q = Seq::<Seq<char>>::empty();
        assert(q.to_set() =~= s.to_set());
    } else {
        let s1 = s.drop_last();
        let x = s.last();
        lemma_sorted_exists(s1);
        let q1 = choose|q: Seq<Seq<char>>| strictly_sorted(q) && q.to_set() == s1.to_set();
        assert(s =~= s1.push(x));
        lemma_push_to_set(s1, x);
        if q1.contains(x) {
            let m = choose|m: int| 0 <= m < q1.len() && q1[m] == x;
            assert(q1.to_set().contains(x));
            assert(s1.to_set().insert(x) =~= s1.to_set());
        } else {
            lemma_insert_sorted(q1, x);
        }
    }
}

/// A joined list is at least as long as each of its parts.
proof fn lemma_join_len(q: Seq<Seq<char>>, sep: Seq<char>, i: int)
    requires
        0 <= i < q.len(),
    ensures
        join(q, sep).len() >= q[i].len(),
    decreases q.len(),
{
    if q.len() > 1 && i < q.len() - 1 {
        lemma_join_len(q.drop_last(), sep, i);
    }
}

/// The key of ordinal `n + 1` is longer than that of every smaller ordinal.
proof fn lemma_vn_key_len(n: nat)
    ensures
        forall|i: int| 0 <= i <= n ==> (#[trigger] canon_key(vn_keys(i as nat).to_set())).len() <= canon_key(
            vn_keys(n).to_set(),
        ).len(),
        n > 0 ==> canon_key(vn_keys((n - 1) as nat).to_set()).len() < canon_key(vn_keys(n).to_set()).len(),
    decreases n,
{
    reveal_strlit("Empty");
    reveal_strlit("Finite([");
    reveal_strlit("])");
    reveal_strlit(", ");
    if n > 0 {
        let m = (n - 1) as nat;
        lemma_vn_key_len(m);
        let km = canon_key(vn_keys(m).to_set());
        let sn = vn_keys(n).to_set();
        assert(vn_keys(n) == vn_keys(m).push(km));
        lemma_push_to_set(vn_keys(m), km);
        assert(sn.contains(km));
        assert(sn != Set::<Seq<char>>::empty());
        lemma_sorted_exists(vn_keys(n));
        let q = sorted_keys(sn);
        assert(strictly_sorted(q) && q.to_set() == sn);
        assert(q.to_set().contains(km));
        let p = choose|p: int| 0 <= p < q.len() && q[p] == km;
        lemma_join_len(q, ", "@, p);
    }
}

/// The keys of the ordinals below `n` are distinct, so the von Neumann
/// ordinal `n` has exactly `n` members.
pub proof fn law_ordinal_cardinality(n: nat)
    ensures
        vn_keys(n).no_duplicates(),
        vn_keys(n).to_set().len() == n,
    decreases n,
{
    if n == 0 {
        assert(vn_keys(0).to_set() =~= Set::<Seq<char>>::empty());
    } else {
        let m = (n - 1) as nat;
        law_ordinal_cardinality(m);
        lemma_vn_keys(n, 0);
        let km = canon_key(vn_keys(m).to_set());
        let s = vn_keys(n);
        assert(s == vn_keys(m).push(km));
        assert(s.len() == n);
        lemma_vn_key_len(m);
        assert forall|i: int, j: int| 0 <= i < s.len() && 0 <= j < s.len() && i != j implies s[i] != s[j] by {
            if i < m && j < m {
                assert(s[i] == vn_keys(m)[i] && s[j] == vn_keys(m)[j]);
            } else {
                let k = if i < m {
                    i
                } else {
                    j
                };
                lemma_vn_keys(m, k);
                assert(s[k] == canon_key(vn_keys(k as nat).to_set()));
                lemma_vn_key_len((k + 1) as nat);
                assert(canon_key(vn_keys((k + 1) as nat).to_set()).len() <= km.len());
            }
        }
        s.unique_seq_to_set();
    }
}

/// A canonical set's key is determined by its members.
pub proof fn lemma_canonical_key(s: HfSet)
    requires
        canonical(s),
    ensures
        key(s) == canon_key(members(s)),
{
    match s {
        HfSet::Empty => {
            assert(members(s) =~= Set::<Seq<char>>::empty());
        },
        HfSet::Finite(v) => {
            let q = keys_of(v@);
            assert(members(s).contains(q[0]));
            assert(members(s) != Set::<Seq<char>>::empty());
            let q2 = sorted_keys(members(s));
            assert(strictly_sorted(q2) && q2.to_set() == members(s));
            lemma_sorted_unique(q, q2);
            lemma_key_list(s);
        },
    }
}

/// Canonical sets with the same members have the same key
/// (extensionality).
pub proof fn law_extensionality(a: HfSet, b: HfSet)
    requires
        canonical(a),
        canonical(b),
        members(a) == members(b),
    ensures
        key(a) == key(b),
{
    lemma_canonical_key(a);
    lemma_canonical_key(b);
}

/// Union is commutative: the canonical sets of the members of `a ∪ b` and
/// of `b ∪ a` are the same set.
pub proof fn law_union_commutative(a: HfSet, b: HfSet, r1: HfSet, r2: HfSet)
    requires
        canonical(r1),
        canonical(r2),
        members(r1) == members(a).union(members(b)),
        members(r2) == members(b).union(members(a)),
    ensures
        key(r1) == key(r2),
{
    assert(members(r1) =~= members(r2));
    law_extensionality(r1, r2);
}

/// Building a set from two lists with the same elements, in whatever order
/// and with whatever repetition, gives the same canonical set.
pub proof fn law_from_vec_ignores_order(e1: Seq<HfSet>, e2: Seq<HfSet>, r1: HfSet, r2: HfSet)
    requires
        keys_of(e1).to_set() == keys_of(e2).to_set(),
        canonical(r1),
        members(r1) == keys_of(e1).to_set(),
        canonical(r2),
        members(r2) == keys_of(e2).to_set(),
    ensures
        key(r1) == key(r2),
{
    law_extensionality(r1, r2);
}

/// The ordinal `n + 1` is the successor `n ∪ {n}` of the ordinal `n`.
pub proof fn law_ordinal_successor(n: nat, on: HfSet, next: HfSet, succ: HfSet)
    requires
        canonical(on),
        members(on) == vn_keys(n).to_set(),
        key(on) == canon_key(vn_keys(n).to_set()),
        canonical(next),
        members(next) == vn_keys(n + 1).to_set(),
        canonical(succ),
        members(succ) == members(on).insert(key(on)),
    ensures
        key(next) == key(succ),
{
    assert(vn_keys(n + 1) == vn_keys(n).push(canon_key(vn_keys(n).to_set())));
    assert(vn_keys(n).push(canon_key(vn_keys(n).to_set())).to_set() =~= vn_keys(n).to_set().insert(
        canon_key(vn_keys(n).to_set()),
    )) by {
        vstd::seq_lib::lemma_seq_contains_after_push(vn_keys(n), canon_key(vn_keys(n).to_set()), canon_key(vn_keys(n).to_set()));
        assert forall|k: Seq<char>| #[trigger] vn_keys(n).push(canon_key(vn_keys(n).to_set())).contains(k) <==> (vn_keys(
            n,
        ).contains(k) || k == canon_key(vn_keys(n).to_set())) by {
            vstd::seq_lib::lemma_seq_contains_after_push(vn_keys(n), canon_key(vn_keys(n).to_set()), k);
        }
    }
    assert(members(next) =~= members(succ));
    law_extensionality(next, succ);
}

// ─── Keys in code ─────────────────────────────────────────────────────

/// Appends the characters of `text`.
fn push_text(out: &mut Vec<char>, text: &str)
    ensures
        final(out)@ == old(out)@ + text@,
{
    let cs = chars_of(text);
    let mut i: usize = 0;
    let ghost start = out@;
    while i < cs.len()
        invariant
            i <= cs@.len(),
            cs@ == text@,
            out@ == start + cs@.take(i as int),
        decreases cs@.len() - i,
    {
        out.push(cs[i]);
        proof {
            assert(cs@.take(i as int + 1) =~= cs@.take(i as int).push(cs@[i as int]));
        }
        i = i + 1;
    }
    proof {
        assert(cs@.take(i as int) =~= cs@);
    }
}

/// Appends `b` to `a`.
fn push_all(a: &mut Vec<char>, b: &Vec<char>)
    ensures
        final(a)@ == old(a)@ + b@,
{
    let mut i: usize = 0;
    let ghost start = a@;
    while i < b.len()
        invariant
            i <= b@.len(),
            a@ == start + b@.take(i as int),
        decreases b@.len() - i,
    {
        a.push(b[i]);
        proof {
            assert(b@.take(i as int + 1) =~= b@.take(i as int).push(b@[i as int]));
        }
        i = i + 1;
    }
    proof {
        assert(b@.take(i as int) =~= b@);
    }
}

/// Whether two keys are equal.
fn keys_equal(a: &Vec<char>, b: &Vec<char>) -> (r: bool)
    ensures
        r == (a@ == b@),
{
    if a.len() != b.len() {
        return false;
    }
    let mut i: usize = 0;
    while i < a.len()
        invariant
            a@.len() == b@.len(),
            i <= a@.len(),
            forall|k: int| 0 <= k < i ==> a@[k] == b@[k],
        decreases a@.len() - i,
    {
        if a[i] != b[i] {
            return false;
        }
        i = i + 1;
    }
    assert(a@ =~= b@);
    true
}

/// Whether key `a` comes before key `b`.
fn key_less(a: &Vec<char>, b: &Vec<char>) -> (r: bool)
    ensures
        r == name_lt(a@, b@),
{
    let mut k: usize = 0;
    assert(a@.skip(0) =~= a@ && b@.skip(0) =~= b@);
    while k < a.len() && k < b.len() && a[k] == b[k]
        invariant
            k <= a@.len(),
            k <= b@.len(),
            name_lt(a@, b@) == name_lt(a@.skip(k as int), b@.skip(k as int)),
        decreases a@.len() - k,
    {
        proof {
            let s = a@.skip(k as int);
            let t = b@.skip(k as int);
            assert(s.drop_first() =~= a@.skip(k as int + 1));
            assert(t.drop_first() =~= b@.skip(k as int + 1));
        }
        k = k + 1;
    }
    if k == b.len() {
        return false;
    }
    if k == a.len() {
        return true;
    }
    a[k] < b[k]
}

impl HfSet {
    /// The key of the set: the text `Debug` prints for it.
    pub fn debug_key(&self) -> (r: Vec<char>)
        ensures
            r@ == key(*self),
        decreases self,
    {
        match self {
            HfSet::Empty => {
                let mut out: Vec<char> = Vec::new();
                push_text(&mut out, "Empty");
                out
            },
            HfSet::Finite(v) => {
                let mut out: Vec<char> = Vec::new();
                push_text(&mut out, "Finite([");
                let mut i: usize = 0;
                while i < v.len()
                    invariant
                        *self == HfSet::Finite(*v),
                        i <= v@.len(),
                        out@ == "Finite(["@ + join_keys(*self, i as int),
                    decreases v@.len() - i,
                {
                    proof {
                        let w = (*self)->Finite_0;
                        assert(decreases_to!(*self => (*self)->Finite_0));
                        assert(decreases_to!(w => w@));
                        assert(decreases_to!(w@ => w@[i as int]));
                    }
                    if i > 0 {
                        push_text(&mut out, ", ");
                    }
                    let k = v[i].debug_key();
                    push_all(&mut out, &k);
                    i = i + 1;
                }
                push_text(&mut out, "])");
                out
            },
        }
    }

    /// A copy of the set.
    pub fn copy(&self) -> (r: HfSet)
        ensures
            key(r) == key(*self),
            keys_of(elems(r)) == keys_of(elems(*self)),
            (r is Empty) == (*self is Empty),
        decreases self,
    {
        match self {
            HfSet::Empty => HfSet::Empty,
            HfSet::Finite(v) => {
                let mut out: Vec<HfSet> = Vec::new();
                let mut i: usize = 0;
                while i < v.len()
                    invariant
                        *self == HfSet::Finite(*v),
                        i <= v@.len(),
                        out@.len() == i,
                        forall|k: int| 0 <= k < i ==> key(#[trigger] out@[k]) == key(v@[k]),
                    decreases v@.len() - i,
                {
                    proof {
                        let w = (*self)->Finite_0;
                        assert(decreases_to!(*self => (*self)->Finite_0));
                        assert(decreases_to!(w => w@));
                        assert(decreases_to!(w@ => w@[i as int]));
                    }
                    let c = v[i].copy();
                    out.push(c);
                    i = i + 1;
                }
                let r = HfSet::Finite(out);
                proof {
                    assert(keys_of(elems(r)) =~= keys_of(elems(*self)));
                    lemma_key_list(r);
                    lemma_key_list(*self);
                }
                r
            },
        }
    }
}

/// Where key `k` goes among the strictly increasing keys `ks`: the index
/// of an equal key (`true`), else the index of the first greater key.
fn find_slot(ks: &Vec<Vec<char>>, k: &Vec<char>) -> (r: (usize, bool))
    requires
        forall|i: int, j: int| 0 <= i < j < ks@.len() ==> name_lt(ks@[i]@, ks@[j]@),
    ensures
        r.0 <= ks@.len(),
        r.1 ==> r.0 < ks@.len() && ks@[r.0 as int]@ == k@,
        !r.1 ==> (forall|q: int| 0 <= q < r.0 ==> name_lt(ks@[q]@, k@)) && (forall|q: int|
            r.0 <= q < ks@.len() ==> name_lt(k@, ks@[q]@)),
{
    let mut p: usize = 0;
    while p < ks.len()
        invariant
            p <= ks@.len(),
            forall|i: int, j: int| 0 <= i < j < ks@.len() ==> name_lt(ks@[i]@, ks@[j]@),
            forall|q: int| 0 <= q < p ==> name_lt(ks@[q]@, k@),
        decreases ks@.len() - p,
    {
        if keys_equal(&ks[p], k) {
            return (p, true);
        }
        if key_less(k, &ks[p]) {
            proof {
                assert forall|q: int| p <= q < ks@.len() implies name_lt(k@, ks@[q]@) by {
                    if q > p {
                        lemma_name_lt_transitive(k@, ks@[p as int]@, ks@[q]@);
                    }
                }
            }
            return (p, false);
        }
        proof {
            lemma_name_lt_total(k@, ks@[p as int]@);
        }
        p = p + 1;
    }
    (p, false)
}

impl HfSet {
    /// The set of the listed elements, in canonical order: sorted by key,
    /// each key once.
    pub fn from_vec(elements: Vec<HfSet>) -> (r: HfSet)
        ensures
            canonical(r),
            members(r) == keys_of(elements@).to_set(),
            (r is Empty) == (elements@.len() == 0),
            key(r) == canon_key(keys_of(elements@).to_set()),
    {
        let ghost input = elements@;
        let mut items: Vec<HfSet> = Vec::new();
        let mut ks: Vec<Vec<char>> = Vec::new();
        let mut rest = elements;
        let ghost mut done: int = 0;
        while rest.len() > 0
            invariant
                0 <= done <= input.len(),
                rest@ == input.skip(done),
                items@.len() == ks@.len(),
                forall|i: int| 0 <= i < ks@.len() ==> (#[trigger] ks@[i])@ == key(items@[i]),
                forall|i: int, j: int| 0 <= i < j < ks@.len() ==> name_lt(ks@[i]@, ks@[j]@),
                keys_of(items@).to_set() == keys_of(input.take(done)).to_set(),
                done > 0 ==> items@.len() > 0,
                items@.len() <= done,
            decreases rest@.len(),
        {
            let x = rest.remove(0);
            assert(x == input[done]);
            let kx = x.debug_key();
            let (p, dup) = find_slot(&ks, &kx);
            let ghost old_items = items@;
            let ghost old_ks = ks@;
            if !dup {
                items.insert(p, x);
                ks.insert(p, kx);
                proof {
                    assert(items@ == old_items.insert(p as int, x));
                    assert(ks@ == old_ks.insert(p as int, kx));
                    assert forall|i: int, j: int| 0 <= i < j < ks@.len() implies name_lt(ks@[i]@, ks@[j]@) by {
                        if j < p {
                        } else if j == p {
                        } else if i < p {
                            lemma_name_lt_transitive(ks@[i]@, kx@, ks@[j]@);
                        } else if i == p {
                        } else {
                        }
                    }
                }
            }
            proof {
                let before = keys_of(old_items).to_set();
                assert(input.take(done + 1) =~= input.take(done).push(x));
                assert(keys_of(input.take(done + 1)) =~= keys_of(input.take(done)).push(key(x)));
                lemma_push_to_set(keys_of(input.take(done)), key(x));
                if dup {
                    assert(keys_of(old_items)[p as int] == key(x));
                    assert(before.contains(key(x)));
                    assert(before.insert(key(x)) =~= before);
                } else {
                    assert(keys_of(items@) =~= keys_of(old_items).insert(p as int, key(x)));
                    assert forall|k: Seq<char>| keys_of(items@).to_set().contains(k) <==> before.insert(key(x)).contains(
                        k,
                    ) by {
                        if keys_of(items@).to_set().contains(k) {
                            let i = choose|i: int| 0 <= i < keys_of(items@).len() && keys_of(items@)[i] == k;
                            if i < p {
                                assert(keys_of(old_items)[i] == k);
                            } else if i > p {
                                assert(keys_of(old_items)[i - 1] == k);
                            }
                        }
                        if before.contains(k) {
                            let i = choose|i: int| 0 <= i < keys_of(old_items).len() && keys_of(old_items)[i] == k;
                            if i < p {
                                assert(keys_of(items@)[i] == k);
                            } else {
                                assert(keys_of(items@)[i + 1] == k);
                            }
                        }
                        if k == key(x) {
                            assert(keys_of(items@)[p as int] == k);
                        }
                    }
                    assert(keys_of(items@).to_set() =~= before.insert(key(x)));
                }
                assert(rest@ =~= input.skip(done + 1));
                done = done + 1;
            }
        }
        proof {
            assert(input.take(done) =~= input);
        }
        let r = if items.len() == 0 {
            HfSet::Empty
        } else {
            HfSet::Finite(items)
        };
        proof {
            if input.len() == 0 {
                assert(keys_of(input).to_set() =~= Set::<Seq<char>>::empty());
            } else {
                assert(keys_of(input)[0] == key(input[0]));
                assert(keys_of(input).contains(key(input[0])));
                assert(keys_of(input).to_set().contains(key(input[0])));
            }
            assert(members(r) =~= keys_of(input).to_set());
            assert(strictly_sorted(keys_of(elems(r)))) by {
                assert forall|i: int, j: int| 0 <= i < j < keys_of(elems(r)).len() implies name_lt(
                    keys_of(elems(r))[i],
                    keys_of(elems(r))[j],
                ) by {
                    assert(ks@[i]@ == key(items@[i]));
                    assert(ks@[j]@ == key(items@[j]));
                }
            }
            lemma_canonical_key(r);
        }
        r
    }
}

/// The union of the members of the sets `es`.
pub open spec fn big_union(es: Seq<HfSet>) -> Set<Seq<char>>
    decreases es.len(),
{
    if es.len() == 0 {
        Set::empty()
    } else {
        big_union(es.drop_last()).union(members(es.last()))
    }
}

/// The members of a concatenation.
pub proof fn lemma_concat_to_set<A>(a: Seq<A>, b: Seq<A>)
    ensures
        (a + b).to_set() == a.to_set().union(b.to_set()),
{
    assert forall|k: A| (a + b).to_set().contains(k) <==> a.to_set().union(b.to_set()).contains(k) by {
        if (a + b).to_set().contains(k) {
            let i = choose|i: int| 0 <= i < (a + b).len() && (a + b)[i] == k;
            if i < a.len() {
                assert(a[i] == k);
            } else {
                assert(b[i - a.len()] == k);
            }
        }
        if a.to_set().contains(k) {
            let i = choose|i: int| 0 <= i < a.len() && a[i] == k;
            assert((a + b)[i] == k);
        }
        if b.to_set().contains(k) {
            let i = choose|i: int| 0 <= i < b.len() && b[i] == k;
            assert((a + b)[a.len() + i] == k);
        }
    }
    assert((a + b).to_set() =~= a.to_set().union(b.to_set()));
}

/// Appends copies of the sets of `v` to `out`.
fn push_copies(out: &mut Vec<HfSet>, v: &Vec<HfSet>)
    ensures
        keys_of(final(out)@) == keys_of(old(out)@) + keys_of(v@),
{
    let ghost start = out@;
    let mut i: usize = 0;
    while i < v.len()
        invariant
            i <= v@.len(),
            keys_of(out@) == keys_of(start) + keys_of(v@.take(i as int)),
        decreases v@.len() - i,
    {
        let ghost before = out@;
        let c = v[i].copy();
        out.push(c);
        proof {
            assert(keys_of(out@) =~= keys_of(before).push(key(c)));
            assert(keys_of(v@.take(i as int + 1)) =~= keys_of(v@.take(i as int)).push(key(v@[i as int])));
            assert(keys_of(out@) =~= keys_of(start) + keys_of(v@.take(i as int + 1)));
        }
        i = i + 1;
    }
    proof {
        assert(v@.take(i as int) =~= v@);
    }
}

/// Bit `i` of `mask`.
pub open spec fn bit_set(mask: int, i: int) -> bool {
    (mask / pow2(i as nat) as int) % 2 == 1
}

/// The sets of `es` whose bit is set in `mask`, in order.
pub open spec fn select(es: Seq<HfSet>, mask: int) -> Seq<HfSet>
    decreases es.len(),
{
    if es.len() == 0 {
        Seq::empty()
    } else if bit_set(mask, es.len() - 1) {
        select(es.drop_last(), mask).push(es.last())
    } else {
        select(es.drop_last(), mask)
    }
}

/// The keys of the subsets of `s`, one for each mask below 2ⁿ.
pub open spec fn power_members(s: HfSet) -> Set<Seq<char>> {
    Set::new(
        |k: Seq<char>|
            exists|m: int| 0 <= m < pow2(elems(s).len()) && k == canon_key(keys_of(select(elems(s), m)).to_set()),
    )
}

/// The keys of the von Neumann ordinals below `n`: the key of ordinal `i`
/// is the canonical key of the keys of the ordinals below `i`.
pub open spec fn vn_keys(n: nat) -> Seq<Seq<char>>
    decreases n,
{
    if n == 0 {
        Seq::empty()
    } else {
        let prev = vn_keys((n - 1) as nat);
        prev.push(canon_key(prev.to_set()))
    }
}

/// Prefixes of the ordinal keys are ordinal keys.
pub proof fn lemma_vn_keys(n: nat, i: int)
    requires
        0 <= i < n,
    ensures
        vn_keys(n).len() == n,
        vn_keys(n)[i] == canon_key(vn_keys(i as nat).to_set()),
    decreases n,
{
    let m = (n - 1) as nat;
    if n > 1 {
        lemma_vn_keys(m, 0);
    }
    assert(vn_keys(m).len() == m);
    assert(vn_keys(n) == vn_keys(m).push(canon_key(vn_keys(m).to_set())));
    if i < m {
        lemma_vn_keys(m, i);
    } else {
        assert(i as nat == m);
    }
}

/// The sets of `es` on which `bs` is true, in order.
pub open spec fn pick(es: Seq<HfSet>, bs: Seq<bool>) -> Seq<HfSet>
    decreases es.len(),
{
    if es.len() == 0 || bs.len() != es.len() {
        Seq::empty()
    } else if bs.last() {
        pick(es.drop_last(), bs.drop_last()).push(es.last())
    } else {
        pick(es.drop_last(), bs.drop_last())
    }
}

impl HfSet {
    /// The empty set ∅.
    pub fn empty() -> (r: HfSet)
        ensures
            r is Empty,
    {
        HfSet::Empty
    }

    /// The singleton {s}.
    pub fn singleton(s: HfSet) -> (r: HfSet)
        ensures
            r is Finite,
            elems(r) == seq![s],
            canonical(r),
            members(r) == set![key(s)],
    {
        let mut v: Vec<HfSet> = Vec::new();
        v.push(s);
        let r = HfSet::Finite(v);
        proof {
            assert(elems(r) =~= seq![s]);
            assert(keys_of(elems(r)) =~= seq![key(s)]);
            assert(keys_of(elems(r))[0] == key(s));
            assert(members(r) =~= set![key(s)]);
        }
        r
    }

    /// The pair {a, b}: one element when they are equal, else both in key
    /// order.
    pub fn pair(a: HfSet, b: HfSet) -> (r: HfSet)
        ensures
            canonical(r),
            r is Finite,
            elems(r) == (if key(a) == key(b) {
                seq![a]
            } else if name_lt(key(a), key(b)) {
                seq![a, b]
            } else {
                seq![b, a]
            }),
            members(r) == set![key(a), key(b)],
    {
        let key_a = a.debug_key();
        let key_b = b.debug_key();
        if keys_equal(&key_a, &key_b) {
            let r = HfSet::singleton(a);
            proof {
                assert(set![key(a), key(b)] =~= set![key(a)]);
            }
            r
        } else {
            let less = key_less(&key_a, &key_b);
            let ghost ka = key(a);
            let ghost kb = key(b);
            let mut v: Vec<HfSet> = Vec::new();
            if less {
                v.push(a);
                v.push(b);
            } else {
                v.push(b);
                v.push(a);
            }
            let r = HfSet::Finite(v);
            proof {
                if !less {
                    lemma_name_lt_total(ka, kb);
                }
                assert(keys_of(elems(r)) =~= (if less { seq![ka, kb] } else { seq![kb, ka] }));
                assert(keys_of(elems(r))[0] == keys_of(elems(r))[0]);
                assert(members(r).contains(ka) && members(r).contains(kb)) by {
                    assert(keys_of(elems(r))[0] == (if less { ka } else { kb }));
                    assert(keys_of(elems(r))[1] == (if less { kb } else { ka }));
                }
                assert(members(r) =~= set![ka, kb]);
            }
            r
        }
    }

    /// The elements, in order.
    pub fn elements(&self) -> (r: Vec<&HfSet>)
        ensures
            r@.len() == elems(*self).len(),
            forall|i: int| 0 <= i < r@.len() ==> *r@[i] == elems(*self)[i],
    {
        let mut out: Vec<&HfSet> = Vec::new();
        match self {
            HfSet::Empty => {},
            HfSet::Finite(v) => {
                let mut i: usize = 0;
                while i < v.len()
                    invariant
                        i <= v@.len(),
                        elems(*self) == v@,
                        out@.len() == i,
                        forall|k: int| 0 <= k < i ==> *out@[k] == v@[k],
                    decreases v@.len() - i,
                {
                    out.push(&v[i]);
                    i = i + 1;
                }
            },
        }
        out
    }

    /// The number of listed elements.
    pub fn cardinality(&self) -> (n: usize)
        ensures
            n == elems(*self).len(),
    {
        match self {
            HfSet::Empty => 0,
            HfSet::Finite(v) => v.len(),
        }
    }

    /// Whether this is `Empty`.
    pub fn is_empty(&self) -> (b: bool)
        ensures
            b == (*self is Empty),
    {
        match self {
            HfSet::Empty => true,
            HfSet::Finite(_) => false,
        }
    }

    /// Membership x ∈ self.
    pub fn contains(&self, x: &HfSet) -> (b: bool)
        ensures
            b == members(*self).contains(key(*x)),
    {
        let kx = x.debug_key();
        self.contains_key(&kx)
    }

    /// Whether some element has key `k`.
    fn contains_key(&self, k: &Vec<char>) -> (b: bool)
        ensures
            b == members(*self).contains(k@),
    {
        match self {
            HfSet::Empty => {
                proof {
                    assert(keys_of(elems(*self)) =~= Seq::<Seq<char>>::empty());
                }
                false
            },
            HfSet::Finite(v) => {
                let mut i: usize = 0;
                while i < v.len()
                    invariant
                        i <= v@.len(),
                        elems(*self) == v@,
                        forall|j: int| 0 <= j < i ==> key(#[trigger] v@[j]) != k@,
                    decreases v@.len() - i,
                {
                    let ki = v[i].debug_key();
                    if keys_equal(&ki, k) {
                        proof {
                            assert(keys_of(v@)[i as int] == k@);
                        }
                        return true;
                    }
                    i = i + 1;
                }
                proof {
                    if members(*self).contains(k@) {
                        let j = choose|j: int| 0 <= j < keys_of(v@).len() && keys_of(v@)[j] == k@;
                        assert(key(v@[j]) == k@);
                    }
                }
                false
            },
        }
    }

    /// Subset self ⊆ other.
    pub fn is_subset(&self, other: &HfSet) -> (b: bool)
        ensures
            b == members(*self).subset_of(members(*other)),
    {
        let es = self.elements();
        let mut i: usize = 0;
        while i < es.len()
            invariant
                i <= es@.len(),
                es@.len() == elems(*self).len(),
                forall|j: int| 0 <= j < es@.len() ==> *es@[j] == elems(*self)[j],
                forall|j: int| 0 <= j < i ==> members(*other).contains(key(#[trigger] elems(*self)[j])),
            decreases es@.len() - i,
        {
            if !other.contains(es[i]) {
                proof {
                    assert(keys_of(elems(*self))[i as int] == key(elems(*self)[i as int]));
                    assert(members(*self).contains(key(elems(*self)[i as int])));
                }
                return false;
            }
            i = i + 1;
        }
        proof {
            assert forall|k: Seq<char>| members(*self).contains(k) implies members(*other).contains(k) by {
                let j = choose|j: int| 0 <= j < keys_of(elems(*self)).len() && keys_of(elems(*self))[j] == k;
                assert(key(elems(*self)[j]) == k);
            }
        }
        true
    }

    /// Equality by extensionality: the same members.
    pub fn extensional_eq(&self, other: &HfSet) -> (b: bool)
        ensures
            b == (members(*self) == members(*other)),
    {
        let r = self.is_subset(other) && other.is_subset(self);
        proof {
            if members(*self) == members(*other) {
                assert(members(*self).subset_of(members(*other)));
            }
            if r {
                assert(members(*self) =~= members(*other));
            }
        }
        r
    }

    /// The union of all elements ⋃ self.
    pub fn union_all(&self) -> (r: HfSet)
        ensures
            canonical(r),
            members(r) == big_union(elems(*self)),
    {
        let mut result: Vec<HfSet> = Vec::new();
        let es = self.elements();
        let mut i: usize = 0;
        while i < es.len()
            invariant
                i <= es@.len(),
                es@.len() == elems(*self).len(),
                forall|j: int| 0 <= j < es@.len() ==> *es@[j] == elems(*self)[j],
                keys_of(result@).to_set() == big_union(elems(*self).take(i as int)),
            decreases es@.len() - i,
        {
            let ghost before = keys_of(result@);
            match es[i] {
                HfSet::Empty => {
                    proof {
                        assert(members(elems(*self)[i as int]) =~= Set::<Seq<char>>::empty());
                    }
                },
                HfSet::Finite(v) => {
                    push_copies(&mut result, v);
                    proof {
                        lemma_concat_to_set(before, keys_of(v@));
                    }
                },
            }
            proof {
                assert(elems(*self).take(i as int + 1).drop_last() =~= elems(*self).take(i as int));
                assert(keys_of(result@).to_set() =~= big_union(elems(*self).take(i as int + 1)));
            }
            i = i + 1;
        }
        proof {
            assert(elems(*self).take(i as int) =~= elems(*self));
        }
        HfSet::from_vec(result)
    }

    /// Binary union self ∪ other.
    pub fn union(&self, other: &HfSet) -> (r: HfSet)
        ensures
            canonical(r),
            members(r) == members(*self).union(members(*other)),
    {
        let mut result: Vec<HfSet> = Vec::new();
        if let HfSet::Finite(v) = self {
            push_copies(&mut result, v);
        }
        let ghost mid = keys_of(result@);
        if let HfSet::Finite(w) = other {
            push_copies(&mut result, w);
        }
        proof {
            assert(keys_of(elems(*self)) =~= mid) by {
                assert(keys_of(Seq::<HfSet>::empty()) =~= Seq::<Seq<char>>::empty());
            }
            lemma_concat_to_set(mid, keys_of(elems(*other)));
            assert(keys_of(result@) =~= mid + keys_of(elems(*other)));
        }
        HfSet::from_vec(result)
    }

    /// Intersection self ∩ other.
    pub fn intersect(&self, other: &HfSet) -> (r: HfSet)
        ensures
            canonical(r),
            members(r) == members(*self).intersect(members(*other)),
    {
        self.filter_members(other, true)
    }

    /// Difference self \ other.
    pub fn difference(&self, other: &HfSet) -> (r: HfSet)
        ensures
            canonical(r),
            members(r) == members(*self).difference(members(*other)),
    {
        self.filter_members(other, false)
    }

    /// The elements whose membership in `other` is `inside`.
    fn filter_members(&self, other: &HfSet, inside: bool) -> (r: HfSet)
        ensures
            canonical(r),
            members(r) == (if inside {
                members(*self).intersect(members(*other))
            } else {
                members(*self).difference(members(*other))
            }),
    {
        let es = self.elements();
        let mut out: Vec<HfSet> = Vec::new();
        let mut i: usize = 0;
        let ghost target = if inside {
            members(*self).intersect(members(*other))
        } else {
            members(*self).difference(members(*other))
        };
        while i < es.len()
            invariant
                i <= es@.len(),
                es@.len() == elems(*self).len(),
                forall|j: int| 0 <= j < es@.len() ==> *es@[j] == elems(*self)[j],
                target == (if inside {
                    members(*self).intersect(members(*other))
                } else {
                    members(*self).difference(members(*other))
                }),
                forall|k: Seq<char>| #[trigger] keys_of(out@).to_set().contains(k) <==> (exists|j: int|
                    0 <= j < i && key(elems(*self)[j]) == k && members(*other).contains(k) == inside),
            decreases es@.len() - i,
        {
            let ghost before = keys_of(out@);
            let c = other.contains(es[i]);
            if c == inside {
                let x = es[i].copy();
                out.push(x);
                proof {
                    assert(keys_of(out@) =~= before.push(key(x)));
                    lemma_push_to_set(before, key(x));
                }
            }
            i = i + 1;
        }
        proof {
            assert forall|k: Seq<char>| keys_of(out@).to_set().contains(k) <==> target.contains(k) by {
                if keys_of(out@).to_set().contains(k) {
                    let j = choose|j: int| 0 <= j < i && key(elems(*self)[j]) == k && members(*other).contains(k) == inside;
                    assert(keys_of(elems(*self))[j] == k);
                }
                if target.contains(k) {
                    let j = choose|j: int| 0 <= j < keys_of(elems(*self)).len() && keys_of(elems(*self))[j] == k;
                    assert(key(elems(*self)[j]) == k);
                }
            }
            assert(keys_of(out@).to_set() =~= target);
        }
        HfSet::from_vec(out)
    }
}

impl HfSet {
    /// The power set 𝒫(self): the subset chosen by each mask below 2ⁿ. The
    /// masks are 32-bit signed integers, so 2ⁿ must be a positive one: at
    /// most 30 elements (2³¹ masks already no longer fit, and 2³⁰ subsets
    /// are more than memory holds in practice).
    pub fn power_set(&self) -> (r: HfSet)
        requires
            elems(*self).len() <= 30,
        ensures
            canonical(r),
            members(r) == power_members(*self),
    {
        let es = self.elements();
        let n = es.len();
        let ghost e = elems(*self);
        proof {
            lemma2_to64();
            if n < 30 {
                lemma_pow2_strictly_increases(n as nat, 30);
            }
            lemma_u32_shl_is_mul(1, n as u32);
        }
        let total: u32 = 1u32 << (n as u32);
        assert(total == pow2(n as nat));
        let mut subsets: Vec<HfSet> = Vec::new();
        let mut mask: u32 = 0;
        while mask < total
            invariant
                mask <= total,
                n <= 30,
                total == pow2(n as nat),
                n == e.len(),
                e == elems(*self),
                es@.len() == n,
                forall|j: int| 0 <= j < n ==> *es@[j] == e[j],
                subsets@.len() == mask,
                forall|j: int|
                    0 <= j < mask ==> key(#[trigger] subsets@[j]) == canon_key(keys_of(select(e, j)).to_set()),
            decreases total - mask,
        {
            let mut subset: Vec<HfSet> = Vec::new();
            let mut i: usize = 0;
            while i < n
                invariant
                    i <= n,
                    n <= 30,
                    n == e.len(),
                    es@.len() == n,
                    forall|j: int| 0 <= j < n ==> *es@[j] == e[j],
                    keys_of(subset@) == keys_of(select(e.take(i as int), mask as int)),
                decreases n - i,
            {
                let ghost before = subset@;
                let y = mask >> (i as u32);
                proof {
                    lemma_u32_shr_is_div(mask, i as u32);
                    assert((y & 1u32) == (y % 2u32)) by (bit_vector);
                    assert(e.take(i as int + 1).drop_last() =~= e.take(i as int));
                    assert(e.take(i as int + 1).last() == e[i as int]);
                }
                proof {
                    assert(bit_set(mask as int, i as int) == (y % 2 == 1));
                    if y & 1u32 != 1u32 {
                        assert(select(e.take(i as int + 1), mask as int) == select(e.take(i as int), mask as int));
                    }
                }
                if y & 1u32 == 1u32 {
                    let c = es[i].copy();
                    subset.push(c);
                    proof {
                        assert(keys_of(subset@) =~= keys_of(before).push(key(c)));
                        assert(keys_of(select(e.take(i as int + 1), mask as int)) =~= keys_of(
                            select(e.take(i as int), mask as int),
                        ).push(key(e[i as int])));
                    }
                }
                i = i + 1;
            }
            proof {
                assert(e.take(n as int) =~= e);
            }
            let s = HfSet::from_vec(subset);
            subsets.push(s);
            mask = mask + 1;
        }
        proof {
            assert forall|k: Seq<char>| keys_of(subsets@).to_set().contains(k) <==> power_members(*self).contains(k) by {
                if keys_of(subsets@).to_set().contains(k) {
                    let j = choose|j: int| 0 <= j < keys_of(subsets@).len() && keys_of(subsets@)[j] == k;
                    assert(key(subsets@[j]) == k);
                }
                if power_members(*self).contains(k) {
                    let m = choose|m: int|
                        0 <= m < pow2(elems(*self).len()) && k == canon_key(keys_of(select(elems(*self), m)).to_set());
                    assert(key(subsets@[m]) == k);
                    assert(keys_of(subsets@)[m] == k);
                }
            }
            assert(keys_of(subsets@).to_set() =~= power_members(*self));
        }
        HfSet::from_vec(subsets)
    }

    /// The successor self ∪ {self}.
    pub fn successor(&self) -> (r: HfSet)
        ensures
            canonical(r),
            members(r) == members(*self).insert(key(*self)),
    {
        let single = HfSet::singleton(self.copy());
        let r = self.union(&single);
        proof {
            assert(members(*self).union(members(single)) =~= members(*self).insert(key(*self)));
        }
        r
    }
}

// ─── The ZF axioms on finite sets ─────────────────────────────────────

/// Extensionality on `x`, `y`: when each is a subset of the other, they
/// are the same set.
pub fn axiom_extensionality_holds(x: &HfSet, y: &HfSet) -> (b: bool)
    ensures
        b == (members(*x) == members(*y) ==> key(*x) == key(*y)),
{
    if x.is_subset(y) && y.is_subset(x) {
        proof {
            assert(members(*x) =~= members(*y));
        }
        keys_equal(&x.debug_key(), &y.debug_key())
    } else {
        true
    }
}

/// The empty set exists.
pub fn axiom_empty_set() -> (r: HfSet)
    ensures
        r is Empty,
{
    HfSet::empty()
}

/// Pairing: the set {a, b}.
pub fn axiom_pairing(a: &HfSet, b: &HfSet) -> (r: HfSet)
    ensures
        canonical(r),
        members(r) == set![key(*a), key(*b)],
{
    HfSet::pair(a.copy(), b.copy())
}

/// Union: the set ⋃x.
pub fn axiom_union(x: &HfSet) -> (r: HfSet)
    ensures
        canonical(r),
        members(r) == big_union(elems(*x)),
{
    x.union_all()
}

/// Power set: the set 𝒫(x).
pub fn axiom_power_set(x: &HfSet) -> (r: HfSet)
    requires
        elems(*x).len() <= 30,
    ensures
        canonical(r),
        members(r) == power_members(*x),
{
    x.power_set()
}

/// Infinity, cut at `n`: the set of the first `n` natural numbers, as
/// von Neumann ordinals.
pub fn axiom_infinity(n: usize) -> (r: HfSet)
    ensures
        canonical(r),
        members(r) == vn_keys(n as nat).to_set(),
{
    let mut omega: Vec<HfSet> = Vec::new();
    let mut current = HfSet::empty();
    let mut i: usize = 0;
    proof {
        assert(members(current) =~= Set::<Seq<char>>::empty());
        assert(vn_keys(0).to_set() =~= Set::<Seq<char>>::empty());
    }
    while i < n
        invariant
            i <= n,
            canonical(current),
            members(current) == vn_keys(i as nat).to_set(),
            keys_of(omega@) == vn_keys(i as nat),
        decreases n - i,
    {
        proof {
            lemma_canonical_key(current);
        }
        let ghost before = omega@;
        let c = current.copy();
        omega.push(c);
        proof {
            assert(keys_of(omega@) =~= keys_of(before).push(key(c)));
            assert(vn_keys((i + 1) as nat) == vn_keys(i as nat).push(canon_key(vn_keys(i as nat).to_set())));
        }
        let next = current.successor();
        proof {
            lemma_push_to_set(vn_keys(i as nat), key(current));
        }
        current = next;
        i = i + 1;
    }
    HfSet::from_vec(omega)
}

/// Foundation on `x`: `x` is empty or has an element disjoint from it.
pub fn axiom_foundation_holds(x: &HfSet) -> (b: bool)
    ensures
        b == (*x is Empty || exists|i: int|
            0 <= i < elems(*x).len() && members(elems(*x)[i]).intersect(members(*x)) == Set::<Seq<char>>::empty()),
{
    if x.is_empty() {
        return true;
    }
    let es = x.elements();
    let mut i: usize = 0;
    while i < es.len()
        invariant
            i <= es@.len(),
            es@.len() == elems(*x).len(),
            forall|j: int| 0 <= j < es@.len() ==> *es@[j] == elems(*x)[j],
            forall|j: int|
                0 <= j < i ==> members(#[trigger] elems(*x)[j]).intersect(members(*x)) != Set::<Seq<char>>::empty(),
        decreases es@.len() - i,
    {
        let inter = es[i].intersect(x);
        if inter.is_empty() {
            proof {
                assert(members(inter) =~= Set::<Seq<char>>::empty());
            }
            return true;
        }
        proof {
            assert(keys_of(elems(inter))[0] == key(elems(inter)[0]));
            assert(members(inter).contains(key(elems(inter)[0])));
        }
        i = i + 1;
    }
    false
}

impl Ordinal {
    /// The von Neumann set of the ordinal: the set of the smaller ones.
    pub fn to_set(&self) -> (r: HfSet)
        ensures
            canonical(r),
            members(r) == vn_keys(self.0 as nat).to_set(),
            key(r) == canon_key(vn_keys(self.0 as nat).to_set()),
            elems(r).len() == self.0,
        decreases self.0,
    {
        let n = self.0;
        let mut result: Vec<HfSet> = Vec::new();
        let mut i: u64 = 0;
        while i < n
            invariant
                i <= n,
                n == self.0,
                keys_of(result@) == vn_keys(n as nat).take(i as int),
            decreases n - i,
        {
            let ghost before = result@;
            let s = Ordinal(i).to_set();
            result.push(s);
            proof {
                lemma_vn_keys(n as nat, i as int);
                assert(keys_of(result@) =~= keys_of(before).push(key(s)));
                assert(vn_keys(n as nat).take(i as int + 1) =~= vn_keys(n as nat).take(i as int).push(vn_keys(n as nat)[i as int]));
                assert(keys_of(result@) =~= vn_keys(n as nat).take(i as int + 1));
            }
            i = i + 1;
        }
        proof {
            if n > 0 {
                lemma_vn_keys(n as nat, 0);
            }
            assert(vn_keys(n as nat).take(i as int) =~= vn_keys(n as nat));
        }
        let r = HfSet::from_vec(result);
        proof {
            lemma_canonical_key(r);
            law_ordinal_cardinality(n as nat);
            let ks = keys_of(elems(r));
            assert forall|a: int, b: int| 0 <= a < ks.len() && 0 <= b < ks.len() && a != b implies ks[a] != ks[b] by {
                if a < b {
                    lemma_name_lt_irreflexive(ks[a]);
                } else {
                    lemma_name_lt_irreflexive(ks[b]);
                }
            }
            ks.unique_seq_to_set();
        }
        r
    }
}

// ─── Choice, well-ordering, separation and replacement ────────────────

/// A choice function on `sets`: the first element of each, none when
/// one of them has no element.
pub fn choice_function(sets: &[HfSet]) -> (r: Option<Vec<HfSet>>)
    ensures
        r is Some <==> forall|i: int| 0 <= i < sets@.len() ==> #[trigger] elems(sets@[i]).len() > 0,
        r matches Some(v) ==> v@.len() == sets@.len() && forall|i: int|
            0 <= i < sets@.len() ==> key(#[trigger] v@[i]) == key(elems(sets@[i])[0]),
{
    let mut choices: Vec<HfSet> = Vec::new();
    let mut i: usize = 0;
    while i < sets.len()
        invariant
            i <= sets@.len(),
            choices@.len() == i,
            forall|j: int| 0 <= j < i ==> #[trigger] elems(sets@[j]).len() > 0,
            forall|j: int| 0 <= j < i ==> key(#[trigger] choices@[j]) == key(elems(sets@[j])[0]),
        decreases sets@.len() - i,
    {
        let si = &sets[i];
        assert(*si == sets@[i as int]);
        match si {
            HfSet::Empty => {
                assert(elems(sets@[i as int]).len() == 0);
                return None;
            },
            HfSet::Finite(v) => {
                if v.len() == 0 {
                    assert(elems(sets@[i as int]).len() == 0);
                    return None;
                }
                let c = v[0].copy();
                choices.push(c);
            },
        }
        i = i + 1;
    }
    Some(choices)
}

/// A well-ordering of the elements of `s`: their listed order.
pub fn well_order(s: &HfSet) -> (r: Vec<HfSet>)
    ensures
        keys_of(r@) == keys_of(elems(*s)),
{
    let mut out: Vec<HfSet> = Vec::new();
    match s {
        HfSet::Empty => {
            assert(keys_of(out@) =~= keys_of(elems(*s)));
        },
        HfSet::Finite(v) => {
            push_copies(&mut out, v);
            assert(keys_of(out@) =~= keys_of(elems(*s)));
        },
    }
    out
}

/// Separation {x ∈ a | φ(x)}: the elements on which `predicate` holds.
pub fn separation<F: Fn(&HfSet) -> bool>(a: &HfSet, predicate: F) -> (r: HfSet)
    requires
        forall|x: &HfSet| call_requires(predicate, (x,)),
    ensures
        canonical(r),
        exists|bs: Seq<bool>|
            bs.len() == elems(*a).len() && (forall|i: int|
                0 <= i < bs.len() ==> call_ensures(predicate, (&elems(*a)[i],), #[trigger] bs[i])) && members(r)
                == keys_of(pick(elems(*a), bs)).to_set(),
{
    let es = a.elements();
    let ghost e = elems(*a);
    let mut out: Vec<HfSet> = Vec::new();
    let ghost mut bs: Seq<bool> = Seq::empty();
    let mut i: usize = 0;
    while i < es.len()
        invariant
            i <= es@.len(),
            e == elems(*a),
            es@.len() == e.len(),
            forall|j: int| 0 <= j < es@.len() ==> *es@[j] == e[j],
            forall|x: &HfSet| call_requires(predicate, (x,)),
            bs.len() == i,
            forall|j: int| 0 <= j < i ==> call_ensures(predicate, (&e[j],), #[trigger] bs[j]),
            keys_of(out@) == keys_of(pick(e.take(i as int), bs)),
        decreases es@.len() - i,
    {
        let ghost before = out@;
        let b = predicate(es[i]);
        proof {
            assert(e.take(i as int + 1).drop_last() =~= e.take(i as int));
            assert(bs.push(b).drop_last() =~= bs);
        }
        if b {
            let c = es[i].copy();
            out.push(c);
            proof {
                assert(keys_of(out@) =~= keys_of(before).push(key(c)));
                assert(keys_of(pick(e.take(i as int + 1), bs.push(b))) =~= keys_of(pick(e.take(i as int), bs)).push(
                    key(e[i as int]),
                ));
            }
        }
        proof {
            bs = bs.push(b);
        }
        i = i + 1;
    }
    proof {
        assert(e.take(i as int) =~= e);
    }
    HfSet::from_vec(out)
}

/// Replacement {f(x) | x ∈ a}: the image of `a` under `f`.
pub fn replacement<F: Fn(&HfSet) -> HfSet>(a: &HfSet, f: F) -> (r: HfSet)
    requires
        forall|x: &HfSet| call_requires(f, (x,)),
    ensures
        canonical(r),
        exists|ys: Seq<HfSet>|
            ys.len() == elems(*a).len() && (forall|i: int|
                0 <= i < ys.len() ==> call_ensures(f, (&elems(*a)[i],), #[trigger] ys[i])) && members(r) == keys_of(
                ys,
            ).to_set(),
{
    let es = a.elements();
    let ghost e = elems(*a);
    let mut out: Vec<HfSet> = Vec::new();
    let mut i: usize = 0;
    while i < es.len()
        invariant
            i <= es@.len(),
            e == elems(*a),
            es@.len() == e.len(),
            forall|j: int| 0 <= j < es@.len() ==> *es@[j] == e[j],
            forall|x: &HfSet| call_requires(f, (x,)),
            out@.len() == i,
            forall|j: int| 0 <= j < i ==> call_ensures(f, (&e[j],), #[trigger] out@[j]),
        decreases es@.len() - i,
    {
        let y = f(es[i]);
        out.push(y);
        i = i + 1;
    }
    let ghost ys = out@;
    let r = HfSet::from_vec(out);
    assert(members(r) == keys_of(ys).to_set());
    r
}

impl Clone for HfSet {
    fn clone(&self) -> (r: Self)
        ensures
            key(r) == key(*self),
            keys_of(elems(r)) == keys_of(elems(*self)),
            (r is Empty) == (*self is Empty),
    {
        self.copy()
    }
}

} // verus!
