//! Linear logic connectives as types.
//!
//! - `Linear<T>`: a resource used exactly once (consumed by value).
//! - `Tensor<A, B>` (⊗): use both components, once each.
//! - `With<A, B>` (&): both available, choose one.
//! - `Plus<A, B>` (⊕): one side, chosen by the producer.
//! - `Par<A, B>` (⅋): one side, eliminated by refuting the other.
//! - `Bang<T>` (!): unlimited reuse (dereliction, contraction, weakening,
//!   digging).
use vstd::prelude::*;
use std::marker::PhantomData;

verus! {

/// A value that must be consumed exactly once.
#[derive(Debug)]
pub struct Linear<T> {
    value: Option<T>,
    _linear: PhantomData<()>,
}

impl<T> Linear<T> {
    /// The held value, while it has not been consumed.
    pub closed spec fn held(&self) -> Option<T> {
        self.value
    }

    /// Create a linear resource.
    pub fn new(value: T) -> (l: Self)
        ensures
            l.held() == Some(value),
    {
        Linear { value: Some(value), _linear: PhantomData }
    }

    /// Consume the resource (takes ownership); it must still hold its value.
    pub fn consume(self) -> (v: T)
        requires
            self.held().is_some(),
        ensures
            self.held() == Some(v),
    {
        match self.value {
            Some(v) => v,
            None => {
                proof {
                    assert(false);
                }
                vstd::pervasive::unreached()
            },
        }
    }

    /// Map the held value, keeping it linear.
    pub fn map<U, F: FnOnce(T) -> U>(self, f: F) -> (l: Linear<U>)
        requires
            self.held().is_some(),
            call_requires(f, (self.held()->0,)),
        ensures
            l.held().is_some() && call_ensures(f, (self.held()->0,), l.held()->0),
    {
        let value = self.consume();
        Linear::new(f(value))
    }

    /// Whether the value is still held.
    pub fn is_available(&self) -> (b: bool)
        ensures
            b == self.held().is_some(),
    {
        self.value.is_some()
    }
}

/// Tensor product A ⊗ B.
#[derive(Debug)]
pub struct Tensor<A, B> {
    first: A,
    second: B,
}

impl<A, B> Tensor<A, B> {
    pub closed spec fn fst_of(&self) -> A {
        self.first
    }

    pub closed spec fn snd_of(&self) -> B {
        self.second
    }

    /// Introduction: from A and B, A ⊗ B.
    pub fn new(a: A, b: B) -> (t: Self)
        ensures
            t.fst_of() == a,
            t.snd_of() == b,
    {
        Tensor { first: a, second: b }
    }

    /// Elimination: both components.
    pub fn split(self) -> (r: (A, B))
        ensures
            r == (self.fst_of(), self.snd_of()),
    {
        (self.first, self.second)
    }

    /// Map both components.
    pub fn bimap<C, D, F: FnOnce(A) -> C, G: FnOnce(B) -> D>(self, f: F, g: G) -> (t: Tensor<C, D>)
        requires
            call_requires(f, (self.fst_of(),)),
            call_requires(g, (self.snd_of(),)),
        ensures
            call_ensures(f, (self.fst_of(),), t.fst_of()),
            call_ensures(g, (self.snd_of(),), t.snd_of()),
    {
        let (a, b) = self.split();
        Tensor::new(f(a), g(b))
    }

    /// Map the first component.
    pub fn map_fst<C, F: FnOnce(A) -> C>(self, f: F) -> (t: Tensor<C, B>)
        requires
            call_requires(f, (self.fst_of(),)),
        ensures
            call_ensures(f, (self.fst_of(),), t.fst_of()),
            t.snd_of() == self.snd_of(),
    {
        let (a, b) = self.split();
        Tensor::new(f(a), b)
    }

    /// Map the second component.
    pub fn map_snd<C, F: FnOnce(B) -> C>(self, f: F) -> (t: Tensor<A, C>)
        requires
            call_requires(f, (self.snd_of(),)),
        ensures
            t.fst_of() == self.fst_of(),
            call_ensures(f, (self.snd_of(),), t.snd_of()),
    {
        let (a, b) = self.split();
        Tensor::new(a, f(b))
    }
}

/// Additive conjunction A & B.
#[derive(Debug, Clone)]
pub struct With<A, B> {
    first: A,
    second: B,
}

impl<A, B> With<A, B> {
    pub closed spec fn fst_of(&self) -> A {
        self.first
    }

    pub closed spec fn snd_of(&self) -> B {
        self.second
    }

    pub fn new(a: A, b: B) -> (w: Self)
        ensures
            w.fst_of() == a,
            w.snd_of() == b,
    {
        With { first: a, second: b }
    }

    /// Choose the first component.
    pub fn fst(self) -> (a: A)
        ensures
            a == self.fst_of(),
    {
        self.first
    }

    /// Choose the second component.
    pub fn snd(self) -> (b: B)
        ensures
            b == self.snd_of(),
    {
        self.second
    }

    /// Look at the first component.
    pub fn project_fst(&self) -> (a: &A)
        ensures
            *a == self.fst_of(),
    {
        &self.first
    }

    /// Look at the second component.
    pub fn project_snd(&self) -> (b: &B)
        ensures
            *b == self.snd_of(),
    {
        &self.second
    }
}

/// Additive disjunction A ⊕ B.
#[derive(Debug, Clone)]
pub enum Plus<A, B> {
    /// The producer chose A.
    Inl(A),
    /// The producer chose B.
    Inr(B),
}

impl<A, B> Plus<A, B> {
    pub fn inl(a: A) -> (p: Self)
        ensures
            p == Plus::<A, B>::Inl(a),
    {
        Plus::Inl(a)
    }

    pub fn inr(b: B) -> (p: Self)
        ensures
            p == Plus::<A, B>::Inr(b),
    {
        Plus::Inr(b)
    }

    /// Case analysis: `f` handles the left side, `g` the right one.
    pub fn eliminate<C, F: FnOnce(A) -> C, G: FnOnce(B) -> C>(self, f: F, g: G) -> (c: C)
        requires
            self matches Plus::Inl(a) ==> call_requires(f, (a,)),
            self matches Plus::Inr(b) ==> call_requires(g, (b,)),
        ensures
            self matches Plus::Inl(a) ==> call_ensures(f, (a,), c),
            self matches Plus::Inr(b) ==> call_ensures(g, (b,), c),
    {
        match self {
            Plus::Inl(a) => f(a),
            Plus::Inr(b) => g(b),
        }
    }

    /// Map either side, keeping the side.
    pub fn bimap<C, D, F: FnOnce(A) -> C, G: FnOnce(B) -> D>(self, f: F, g: G) -> (p: Plus<C, D>)
        requires
            self matches Plus::Inl(a) ==> call_requires(f, (a,)),
            self matches Plus::Inr(b) ==> call_requires(g, (b,)),
        ensures
            self matches Plus::Inl(a) ==> (p matches Plus::Inl(c) && call_ensures(f, (a,), c)),
            self matches Plus::Inr(b) ==> (p matches Plus::Inr(d) && call_ensures(g, (b,), d)),
    {
        match self {
            Plus::Inl(a) => Plus::Inl(f(a)),
            Plus::Inr(b) => Plus::Inr(g(b)),
        }
    }

    pub fn is_left(&self) -> (b: bool)
        ensures
            b == (self is Inl),
    {
        match self {
            Plus::Inl(_) => true,
            Plus::Inr(_) => false,
        }
    }

    pub fn is_right(&self) -> (b: bool)
        ensures
            b == (self is Inr),
    {
        match self {
            Plus::Inl(_) => false,
            Plus::Inr(_) => true,
        }
    }
}

/// Multiplicative disjunction A ⅋ B: exactly one side is present.
#[derive(Debug, Clone)]
pub struct Par<A, B> {
    first: Option<A>,
    second: Option<B>,
}

impl<A, B> Par<A, B> {
    pub closed spec fn left_of(&self) -> Option<A> {
        self.first
    }

    pub closed spec fn right_of(&self) -> Option<B> {
        self.second
    }

    /// Exactly one side is present.
    pub open spec fn one_sided(&self) -> bool {
        self.left_of().is_some() != self.right_of().is_some()
    }

    pub fn left(a: A) -> (p: Self)
        ensures
            p.left_of() == Some(a),
            p.right_of().is_none(),
    {
        Par { first: Some(a), second: None }
    }

    pub fn right(b: B) -> (p: Self)
        ensures
            p.left_of().is_none(),
            p.right_of() == Some(b),
    {
        Par { first: None, second: Some(b) }
    }

    pub fn is_left(&self) -> (b: bool)
        ensures
            b == self.left_of().is_some(),
    {
        self.first.is_some()
    }

    pub fn is_right(&self) -> (b: bool)
        ensures
            b == self.right_of().is_some(),
    {
        self.second.is_some()
    }

    /// Eliminate the present side; the other is refuted.
    pub fn eliminate<C, F: FnOnce(A) -> C, G: FnOnce(B) -> C>(self, ref_fst: F, ref_snd: G) -> (c: C)
        requires
            self.one_sided(),
            self.left_of() matches Some(a) ==> call_requires(ref_fst, (a,)),
            self.right_of() matches Some(b) ==> call_requires(ref_snd, (b,)),
        ensures
            self.left_of() matches Some(a) ==> call_ensures(ref_fst, (a,), c),
            self.right_of() matches Some(b) ==> call_ensures(ref_snd, (b,), c),
    {
        match (self.first, self.second) {
            (Some(a), None) => ref_fst(a),
            (None, Some(b)) => ref_snd(b),
            _ => {
                proof {
                    assert(false);
                }
                vstd::pervasive::unreached()
            },
        }
    }
}

/// Exponential !A: unlimited duplication and discarding.
#[derive(Debug, Clone)]
pub struct Bang<T: Clone> {
    value: T,
}

impl<T: Clone> Bang<T> {
    pub closed spec fn inner(&self) -> T {
        self.value
    }

    /// Introduction.
    pub fn new(value: T) -> (b: Self)
        ensures
            b.inner() == value,
    {
        Bang { value }
    }

    /// Dereliction: !A ⊢ A.
    pub fn derelict(&self) -> (v: T)
        ensures
            cloned(self.inner(), v),
    {
        self.value.clone()
    }

    /// Contraction: !A ⊢ A ⊗ A.
    pub fn contract(&self) -> (r: (T, T))
        ensures
            cloned(self.inner(), r.0),
            cloned(self.inner(), r.1),
    {
        (self.value.clone(), self.value.clone())
    }

    /// Weakening: !A ⊢ 1.
    pub fn weaken(self)
        ensures
            true,
    {
    }

    /// Digging: !A ⊢ !!A.
    pub fn dig(self) -> (b: Bang<Bang<T>>)
        ensures
            b.inner() == self,
    {
        Bang::new(self)
    }
}

/// A resource-aware proof term with a textual witness.
#[derive(Debug)]
pub struct LinearProof<P> {
    _proposition: PhantomData<P>,
    witness: String,
}

impl<P> Clone for LinearProof<P> {
    fn clone(&self) -> (c: Self)
        ensures
            c.witness_text() == self.witness_text(),
    {
        LinearProof { _proposition: PhantomData, witness: self.witness.clone() }
    }
}

impl<P> LinearProof<P> {
    pub closed spec fn witness_text(&self) -> Seq<char> {
        self.witness@
    }

    pub fn new(witness: &str) -> (p: Self)
        ensures
            p.witness_text() == witness@,
    {
        LinearProof { _proposition: PhantomData, witness: witness.to_owned() }
    }

    pub fn witness(&self) -> (w: &str)
        ensures
            w@ == self.witness_text(),
    {
        self.witness.as_str()
    }
}

/// Linear implication A ⊸ B: consume `a` with `f`.
pub fn limp<A, B, F: FnOnce(A) -> B>(a: A, f: F) -> (b: B)
    requires
        call_requires(f, (a,)),
    ensures
        call_ensures(f, (a,), b),
{
    f(a)
}

/// Tensor introduction.
pub fn tensor_intro<A, B>(a: A, b: B) -> (t: Tensor<A, B>)
    ensures
        t.fst_of() == a,
        t.snd_of() == b,
{
    Tensor::new(a, b)
}

/// Tensor elimination: use both components with `f`.
pub fn tensor_elim<A, B, C, F: FnOnce(A, B) -> C>(tensor: Tensor<A, B>, f: F) -> (c: C)
    requires
        call_requires(f, (tensor.fst_of(), tensor.snd_of())),
    ensures
        call_ensures(f, (tensor.fst_of(), tensor.snd_of()), c),
{
    let (a, b) = tensor.split();
    f(a, b)
}

} // verus!
