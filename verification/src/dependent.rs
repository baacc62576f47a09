//! Dependent types emulated in the type system: type-level naturals,
//! length-indexed vectors, Π and Σ types, proofs as witnesses, subset types
//! and propositional equality.
use vstd::prelude::*;
use vstd::string::*;
use std::marker::PhantomData;

verus! {

/// Type-level zero.
#[derive(Debug)]
pub struct Z;

/// Type-level successor.
#[derive(Debug)]
pub struct S<N>(PhantomData<N>);

/// Type-level natural number.
pub trait Nat {
    /// The number this type stands for.
    spec fn value() -> nat;

    /// The number as a `usize`.
    fn to_usize() -> (n: usize)
        requires
            Self::value() <= usize::MAX,
        ensures
            n == Self::value(),
    ;
}

impl Nat for Z {
    open spec fn value() -> nat {
        0
    }

    fn to_usize() -> (n: usize) {
        0
    }
}

impl<N: Nat> Nat for S<N> {
    open spec fn value() -> nat {
        1 + N::value()
    }

    fn to_usize() -> (n: usize) {
        1 + N::to_usize()
    }
}

pub type _0 = Z;

pub type _1 = S<Z>;

pub type _2 = S<S<Z>>;

pub type _3 = S<S<S<Z>>>;

pub type _4 = S<S<S<S<Z>>>>;

pub type _5 = S<S<S<S<S<Z>>>>>;

/// Type-level addition.
pub trait Add<B: Nat> {
    type Result: Nat;
}

impl<B: Nat> Add<B> for Z {
    type Result = B;
}

impl<A: Nat + Add<B>, B: Nat> Add<B> for S<A> {
    type Result = S<<A as Add<B>>::Result>;
}

/// A vector whose length is the type-level number `N`.
#[derive(Debug)]
pub struct Vector<T, N: Nat> {
    elements: Vec<T>,
    _length: PhantomData<N>,
}

impl<T, N: Nat> Vector<T, N> {
    /// The elements.
    pub closed spec fn items(&self) -> Seq<T> {
        self.elements@
    }

    /// The length equals `N`.
    pub open spec fn wf(&self) -> bool {
        self.items().len() == N::value()
    }

    /// Append a value: length `N + 1`.
    pub fn push(self, value: T) -> (v: Vector<T, S<N>>)
        requires
            self.wf(),
        ensures
            v.wf(),
            v.items() == self.items().push(value),
    {
        let mut new_elements = self.elements;
        new_elements.push(value);
        Vector { elements: new_elements, _length: PhantomData }
    }

    pub fn len(&self) -> (n: usize)
        ensures
            n == self.items().len(),
    {
        self.elements.len()
    }

    pub fn is_empty(&self) -> (b: bool)
        ensures
            b == (self.items().len() == 0),
    {
        self.elements.len() == 0
    }

    pub fn get(&self, index: usize) -> (r: Option<&T>)
        ensures
            index < self.items().len() ==> r == Some(&self.items()[index as int]),
            index >= self.items().len() ==> r.is_none(),
    {
        if index < self.elements.len() {
            Some(&self.elements[index])
        } else {
            None
        }
    }
}

impl<T> Vector<T, Z> {
    /// The empty vector.
    pub fn empty() -> (v: Self)
        ensures
            v.wf(),
            v.items() == Seq::<T>::empty(),
    {
        Vector { elements: Vec::new(), _length: PhantomData }
    }
}

impl<T, N: Nat> Vector<T, S<N>> {
    /// First element (the length is at least one).
    pub fn head(&self) -> (h: &T)
        requires
            self.wf(),
        ensures
            *h == self.items()[0],
    {
        &self.elements[0]
    }

    /// All but the first element: length `N`.
    pub fn tail(self) -> (v: Vector<T, N>)
        requires
            self.wf(),
        ensures
            v.wf(),
            v.items() == self.items().drop_first(),
    {
        let mut new_elements = self.elements;
        new_elements.remove(0);
        Vector { elements: new_elements, _length: PhantomData }
    }

    /// Remove the last element: length `N`, and the element.
    pub fn pop(self) -> (r: (Vector<T, N>, T))
        requires
            self.wf(),
        ensures
            r.0.wf(),
            r.0.items() == self.items().drop_last(),
            r.1 == self.items().last(),
    {
        let mut elements = self.elements;
        let value = match elements.pop() {
            Some(v) => v,
            None => vstd::pervasive::unreached(),
        };
        (Vector { elements, _length: PhantomData }, value)
    }
}

/// Dependent function type Π(x:A).B.
#[derive(Debug)]
#[verifier::reject_recursive_types(A)]
#[verifier::reject_recursive_types(B)]
pub struct Pi<A, B, F: Fn(A) -> B> {
    function: F,
    _domain: PhantomData<A>,
    _codomain: PhantomData<B>,
}

impl<A, B, F: Fn(A) -> B> Pi<A, B, F> {
    pub closed spec fn func(&self) -> F {
        self.function
    }

    pub fn new(function: F) -> (p: Self)
        ensures
            p.func() == function,
    {
        Pi { function, _domain: PhantomData, _codomain: PhantomData }
    }

    /// Apply the function.
    pub fn apply(&self, arg: A) -> (b: B)
        requires
            call_requires(self.func(), (arg,)),
        ensures
            call_ensures(self.func(), (arg,), b),
    {
        (self.function)(arg)
    }
}

/// A Π type from a function.
pub fn arrow<A, B, F: Fn(A) -> B>(f: F) -> (p: Pi<A, B, F>)
    ensures
        p.func() == f,
{
    Pi::new(f)
}

/// Dependent pair type Σ(x:A).B.
#[derive(Debug, Clone)]
pub struct Sigma<A, B> {
    pub fst: A,
    pub snd: B,
}

impl<A, B> Sigma<A, B> {
    pub fn new(fst: A, snd: B) -> (s: Self)
        ensures
            s.fst == fst,
            s.snd == snd,
    {
        Sigma { fst, snd }
    }

    pub fn fst(&self) -> (a: &A)
        ensures
            *a == self.fst,
    {
        &self.fst
    }

    pub fn snd(&self) -> (b: &B)
        ensures
            *b == self.snd,
    {
        &self.snd
    }

    pub fn map_fst<C, F: FnOnce(A) -> C>(self, f: F) -> (s: Sigma<C, B>)
        requires
            call_requires(f, (self.fst,)),
        ensures
            call_ensures(f, (self.fst,), s.fst),
            s.snd == self.snd,
    {
        Sigma { fst: f(self.fst), snd: self.snd }
    }

    pub fn map_snd<C, F: FnOnce(B) -> C>(self, f: F) -> (s: Sigma<A, C>)
        requires
            call_requires(f, (self.snd,)),
        ensures
            s.fst == self.fst,
            call_ensures(f, (self.snd,), s.snd),
    {
        Sigma { fst: self.fst, snd: f(self.snd) }
    }
}

/// A proof of proposition `P`, carried by a textual witness.
#[derive(Debug)]
pub struct Proof<P> {
    _proposition: PhantomData<P>,
    witness: String,
}

impl<P> Clone for Proof<P> {
    fn clone(&self) -> (c: Self)
        ensures
            c.witness_text() == self.witness_text(),
    {
        Proof { _proposition: PhantomData, witness: self.witness.clone() }
    }
}

impl<P> Proof<P> {
    pub closed spec fn witness_text(&self) -> Seq<char> {
        self.witness@
    }

    pub fn new(witness: &str) -> (p: Self)
        ensures
            p.witness_text() == witness@,
    {
        Proof { _proposition: PhantomData, witness: witness.to_owned() }
    }

    pub fn witness(&self) -> (w: &str)
        ensures
            w@ == self.witness_text(),
    {
        self.witness.as_str()
    }
}

/// Implication: a proof of P turned into a proof of Q by `f`.
pub fn implies<P, Q, F: FnOnce(Proof<P>) -> Proof<Q>>(proof: Proof<P>, f: F) -> (q: Proof<Q>)
    requires
        call_requires(f, (proof,)),
    ensures
        call_ensures(f, (proof,), q),
{
    f(proof)
}

/// Conjunction: both proofs as a pair.
pub fn and<P, Q>(p: Proof<P>, q: Proof<Q>) -> (s: Sigma<Proof<P>, Proof<Q>>)
    ensures
        s.fst == p,
        s.snd == q,
{
    Sigma::new(p, q)
}

/// Disjunction: a proof of one side.
#[derive(Debug, Clone)]
pub enum Or<P, Q> {
    Left(Proof<P>),
    Right(Proof<Q>),
}

/// Universal quantification: a proof for every `x`.
#[verifier::reject_recursive_types(A)]
#[verifier::reject_recursive_types(P)]
pub struct Forall<A, P, F: Fn(A) -> Proof<P>> {
    function: F,
    _domain: PhantomData<A>,
    _proposition: PhantomData<P>,
}

impl<A, P, F: Fn(A) -> Proof<P>> Forall<A, P, F> {
    pub closed spec fn func(&self) -> F {
        self.function
    }

    pub fn new(function: F) -> (q: Self)
        ensures
            q.func() == function,
    {
        Forall { function, _domain: PhantomData, _proposition: PhantomData }
    }

    /// The proof for `x`.
    pub fn instantiate(&self, x: A) -> (p: Proof<P>)
        requires
            call_requires(self.func(), (x,)),
        ensures
            call_ensures(self.func(), (x,), p),
    {
        (self.function)(x)
    }
}

/// Existential: a witness and a proof.
pub type Exists<A, P> = Sigma<A, Proof<P>>;

/// Subset type {x : T | P(x)}: a value with a proof.
#[derive(Debug, Clone)]
pub struct Subset<T, P> {
    value: T,
    proof: Proof<P>,
}

impl<T, P> Subset<T, P> {
    pub closed spec fn value_of(&self) -> T {
        self.value
    }

    pub closed spec fn proof_of(&self) -> Proof<P> {
        self.proof
    }

    pub fn new(value: T, proof: Proof<P>) -> (s: Self)
        ensures
            s.value_of() == value,
            s.proof_of() == proof,
    {
        Subset { value, proof }
    }

    pub fn value(&self) -> (v: &T)
        ensures
            *v == self.value_of(),
    {
        &self.value
    }

    pub fn proof_term(&self) -> (p: &Proof<P>)
        ensures
            *p == self.proof_of(),
    {
        &self.proof
    }

    pub fn into_inner(self) -> (r: (T, Proof<P>))
        ensures
            r == (self.value_of(), self.proof_of()),
    {
        (self.value, self.proof)
    }
}

/// Propositional equality A = B.
#[derive(Debug)]
pub struct Equals<A, B> {
    _a: PhantomData<A>,
    _b: PhantomData<B>,
}

impl<A, B> Equals<A, B> {
    pub fn new() -> (e: Self)
        ensures
            true,
    {
        Equals { _a: PhantomData, _b: PhantomData }
    }
}

/// Reflexivity: A = A, witnessed by `refl`.
pub fn refl<A>() -> (p: Proof<Equals<A, A>>)
    ensures
        p.witness_text() == "refl"@,
{
    Proof::new("refl")
}

/// Symmetry: from A = B, B = A, witnessed by `sym(w)`.
pub fn sym<A, B>(proof: Proof<Equals<A, B>>) -> (p: Proof<Equals<B, A>>)
    ensures
        p.witness_text() == "sym("@ + proof.witness_text() + ")"@,
{
    let mut w = String::from_str("sym(");
    w.append(proof.witness());
    w.append(")");
    Proof { _proposition: PhantomData, witness: w }
}

/// Transitivity: from A = B and B = C, A = C, witnessed by
/// `trans(w1, w2)`.
pub fn trans<A, B, C>(ab: Proof<Equals<A, B>>, bc: Proof<Equals<B, C>>) -> (p: Proof<Equals<A, C>>)
    ensures
        p.witness_text() == "trans("@ + ab.witness_text() + ", "@ + bc.witness_text() + ")"@,
{
    let mut w = String::from_str("trans(");
    w.append(ab.witness());
    w.append(", ");
    w.append(bc.witness());
    w.append(")");
    Proof { _proposition: PhantomData, witness: w }
}

} // verus!
