//! Homotopy type theory, emulated: identity types (paths) with textual
//! witnesses, path algebra, equivalences, univalence as a witness,
//! transport, the circle, homotopy levels and truncations.
use vstd::prelude::*;
use vstd::string::*;
use std::marker::PhantomData;
use crate::category::compose;

verus! {

/// Universe levels U₀ : U₁ : U₂ : …
pub trait Universe {
    const LEVEL: usize;
}

/// The lowest universe.
pub struct U0;

impl Universe for U0 {
    const LEVEL: usize = 0;
}

/// The universe above `U`.
pub struct Succ<U>(PhantomData<U>);

impl<U: Universe> Universe for Succ<U> {
    const LEVEL: usize = U::LEVEL + 1;
}

pub type U1 = Succ<U0>;

pub type U2 = Succ<U1>;

pub type U3 = Succ<U2>;

/// Cumulativity: a type can be lifted to universe `To`.
pub trait Lift<To: Universe> {
    /// The level lifted to.
    fn lift_level() -> (n: usize) {
        To::LEVEL
    }
}

impl<T: Universe, U: Universe> Lift<U> for T {
}

/// A path (identification) from `A` to `B`, witnessed by text.
#[derive(Debug)]
pub struct Id<A, B> {
    _from: PhantomData<A>,
    _to: PhantomData<B>,
    witness: String,
}

impl<A, B> Clone for Id<A, B> {
    fn clone(&self) -> (c: Self)
        ensures
            c.witness_text() == self.witness_text(),
    {
        Id { _from: PhantomData, _to: PhantomData, witness: self.witness.clone() }
    }
}

impl<A, B> Id<A, B> {
    pub closed spec fn witness_text(&self) -> Seq<char> {
        self.witness@
    }

    pub fn new(witness: &str) -> (p: Self)
        ensures
            p.witness_text() == witness@,
    {
        Id { _from: PhantomData, _to: PhantomData, witness: witness.to_owned() }
    }

    pub fn witness(&self) -> (w: &str)
        ensures
            w@ == self.witness_text(),
    {
        self.witness.as_str()
    }

    fn from_string(witness: String) -> (p: Self)
        ensures
            p.witness_text() == witness@,
    {
        Id { _from: PhantomData, _to: PhantomData, witness }
    }
}

/// refl : a = a.
pub fn refl<A>() -> (p: Id<A, A>)
    ensures
        p.witness_text() == "refl"@,
{
    Id::new("refl")
}

/// Path inversion p⁻¹, witnessed by `sym(p)`.
pub fn sym<A, B>(p: Id<A, B>) -> (q: Id<B, A>)
    ensures
        q.witness_text() == "sym("@ + p.witness_text() + ")"@,
{
    let mut w = String::from_str("sym(");
    w.append(p.witness());
    w.append(")");
    Id::from_string(w)
}

/// Path concatenation p · q, witnessed by `trans(p, q)`.
pub fn trans<A, B, C>(p: Id<A, B>, q: Id<B, C>) -> (r: Id<A, C>)
    ensures
        r.witness_text() == "trans("@ + p.witness_text() + ", "@ + q.witness_text() + ")"@,
{
    let mut w = String::from_str("trans(");
    w.append(p.witness());
    w.append(", ");
    w.append(q.witness());
    w.append(")");
    Id::from_string(w)
}

/// p · p⁻¹ : a = a.
pub fn inv_left<A, B>(p: Id<A, B>) -> (r: Id<A, A>)
    ensures
        r.witness_text() == "trans("@ + p.witness_text() + ", "@ + ("sym("@ + p.witness_text() + ")"@) + ")"@,
{
    trans(p.clone(), sym(p))
}

/// p⁻¹ · p : b = b.
pub fn inv_right<A, B>(p: Id<A, B>) -> (r: Id<B, B>)
    ensures
        r.witness_text() == "trans("@ + ("sym("@ + p.witness_text() + ")"@) + ", "@ + p.witness_text() + ")"@,
{
    trans(sym(p.clone()), p)
}

/// An equivalence A ≃ B: maps both ways.
#[verifier::reject_recursive_types(A)]
#[verifier::reject_recursive_types(B)]
pub struct Equiv<A, B, F: Fn(A) -> B, G: Fn(B) -> A> {
    forward: F,
    backward: G,
    _types: PhantomData<(A, B)>,
}

impl<A, B, F: Fn(A) -> B, G: Fn(B) -> A> Equiv<A, B, F, G> {
    pub closed spec fn to(&self) -> F {
        self.forward
    }

    pub closed spec fn from(&self) -> G {
        self.backward
    }

    pub fn new(forward: F, backward: G) -> (e: Self)
        ensures
            e.to() == forward,
            e.from() == backward,
    {
        Equiv { forward, backward, _types: PhantomData }
    }

    pub fn forward(&self, a: A) -> (b: B)
        requires
            call_requires(self.to(), (a,)),
        ensures
            call_ensures(self.to(), (a,), b),
    {
        (self.forward)(a)
    }

    pub fn backward(&self, b: B) -> (a: A)
        requires
            call_requires(self.from(), (b,)),
        ensures
            call_ensures(self.from(), (b,), a),
    {
        (self.backward)(b)
    }

    /// The inverse equivalence B ≃ A.
    pub fn inverse(self) -> (e: Equiv<B, A, G, F>)
        ensures
            e.to() == self.from(),
            e.from() == self.to(),
    {
        Equiv { forward: self.backward, backward: self.forward, _types: PhantomData }
    }
}

/// The identity equivalence A ≃ A.
pub fn id_equiv<A>() -> (e: Equiv<A, A, impl Fn(A) -> A, impl Fn(A) -> A>)
    ensures
        forall|x: A| call_requires(e.to(), (x,)),
        forall|x: A| call_requires(e.from(), (x,)),
        forall|x: A, y: A| call_ensures(e.to(), (x,), y) ==> y == x,
        forall|x: A, y: A| call_ensures(e.from(), (x,), y) ==> y == x,
{
    Equiv::new(|x: A| -> (y: A) ensures y == x { x }, |x: A| -> (y: A) ensures y == x { x })
}

/// Composition of equivalences A ≃ B ≃ C.
pub fn compose_equiv<A, B, C, F1: Fn(A) -> B, G1: Fn(B) -> A, F2: Fn(B) -> C, G2: Fn(C) -> B>(
    e1: Equiv<A, B, F1, G1>,
    e2: Equiv<B, C, F2, G2>,
) -> (e: Equiv<A, C, impl Fn(A) -> C, impl Fn(C) -> A>)
    requires
        forall|a: A| call_requires(e1.to(), (a,)),
        forall|b: B| call_requires(e1.from(), (b,)),
        forall|b: B| call_requires(e2.to(), (b,)),
        forall|c: C| call_requires(e2.from(), (c,)),
    ensures
        forall|a: A| call_requires(e.to(), (a,)),
        forall|c: C| call_requires(e.from(), (c,)),
        forall|a: A, c: C| call_ensures(e.to(), (a,), c) ==> exists|b: B| call_ensures(e1.to(), (a,), b) && call_ensures(e2.to(), (b,), c),
        forall|c: C, a: A| call_ensures(e.from(), (c,), a) ==> exists|b: B| call_ensures(e2.from(), (c,), b) && call_ensures(e1.from(), (b,), a),
{
    let fwd_ab = e1.forward;
    let bwd_ba = e1.backward;
    let fwd_bc = e2.forward;
    let bwd_cb = e2.backward;
    assert(fwd_ab == e1.to() && bwd_ba == e1.from() && fwd_bc == e2.to() && bwd_cb == e2.from());
    assert(forall|a: A| call_requires(fwd_ab, (a,)));
    assert(forall|b: B| call_requires(fwd_bc, (b,)));
    assert(forall|c: C| call_requires(bwd_cb, (c,)));
    assert(forall|b: B| call_requires(bwd_ba, (b,)));
    let to_c = compose(fwd_ab, fwd_bc);
    let to_a = compose(bwd_cb, bwd_ba);
    let e = Equiv::new(to_c, to_a);
    assert(e.to() == to_c && e.from() == to_a);
    e
}

/// Univalence: an equivalence gives a path, witnessed by `ua(equiv)`.
pub fn ua<A, B, F: Fn(A) -> B, G: Fn(B) -> A>(equiv: Equiv<A, B, F, G>) -> (p: Id<A, B>)
    ensures
        p.witness_text() == "ua(equiv)"@,
{
    Id::new("ua(equiv)")
}

/// Transport along a path: the fiber map `lift` applied to `x`.
pub fn transport<P, A, B, F: FnOnce(P) -> P>(path: Id<A, B>, x: P, lift: F) -> (y: P)
    requires
        call_requires(lift, (x,)),
    ensures
        call_ensures(lift, (x,), y),
{
    lift(x)
}

/// Transport in a constant family leaves the value unchanged.
pub fn transport_trivial<P, A, B>(path: Id<A, B>, x: P) -> (y: P)
    ensures
        y == x,
{
    x
}

/// The circle S¹ (its base point).
#[derive(Debug, Clone, Copy, PartialEq, Eq, Structural)]
pub struct Circle;

/// The base point of the circle.
pub const BASE: Circle = Circle;

/// The loop: base = base.
pub fn loop_path() -> (p: Id<Circle, Circle>)
    ensures
        p.witness_text() == "loop : base = base"@,
{
    Id::new("loop : base = base")
}

/// Recursion on the circle: the map sending the base point to `b`.
pub fn circle_rec<X: Copy>(b: X, l: Id<X, X>) -> (f: impl Fn(Circle) -> X)
    ensures
        forall|c: Circle| call_requires(f, (c,)),
        forall|c: Circle, x: X| call_ensures(f, (c,), x) ==> x == b,
{
    move |_point: Circle| -> (x: X)
        ensures
            x == b,
        { b }
}

/// Homotopy levels.
#[derive(Debug, Clone, Copy, PartialEq, Eq, Structural)]
pub enum HLevel {
    Contractible,
    Proposition,
    SetLevel,
    Groupoid,
    TwoGroupoid,
    Higher(usize),
}

/// Every type here is a set.
pub fn is_set<A>() -> (b: bool)
    ensures
        b,
{
    true
}

/// No type here is taken to be a proposition.
pub fn is_prop<A>() -> (b: bool)
    ensures
        !b,
{
    false
}

/// N-truncation of a type.
#[derive(Debug, Clone)]
pub struct Trunc<A, const N: usize> {
    value: A,
}

impl<A, const N: usize> Trunc<A, N> {
    pub closed spec fn inner(&self) -> A {
        self.value
    }

    pub fn new(value: A) -> (t: Self)
        ensures
            t.inner() == value,
    {
        Trunc { value }
    }

    pub fn value(&self) -> (v: &A)
        ensures
            *v == self.inner(),
    {
        &self.value
    }
}

pub type PropTrunc<A> = Trunc<A, 0>;

pub type SetTrunc<A> = Trunc<A, 1>;

} // verus!
