//! Session types at the type level: protocols built from sending,
//! receiving, choice and termination, and their duals.
use vstd::prelude::*;
use std::marker::PhantomData;

verus! {

/// Send an `A`, then continue as `K` (!A.K).
#[derive(Debug)]
#[verifier::reject_recursive_types(A)]
#[verifier::reject_recursive_types(K)]
pub struct Out<A, K> {
    _a: PhantomData<A>,
    _k: PhantomData<K>,
}

/// Receive an `A`, then continue as `K` (?A.K).
#[derive(Debug)]
#[verifier::reject_recursive_types(A)]
#[verifier::reject_recursive_types(K)]
pub struct In<A, K> {
    _a: PhantomData<A>,
    _k: PhantomData<K>,
}

/// The session is over.
#[derive(Debug, Clone, Copy)]
pub struct End;

/// Internal choice ⊕{K1, K2}: this side picks.
#[derive(Debug)]
#[verifier::reject_recursive_types(K1)]
#[verifier::reject_recursive_types(K2)]
pub struct Branch<K1, K2> {
    _k1: PhantomData<K1>,
    _k2: PhantomData<K2>,
}

/// External choice &{K1, K2}: the other side picks.
#[derive(Debug)]
#[verifier::reject_recursive_types(K1)]
#[verifier::reject_recursive_types(K2)]
pub struct Offer<K1, K2> {
    _k1: PhantomData<K1>,
    _k2: PhantomData<K2>,
}

impl<A, K> Clone for Out<A, K> {
    fn clone(&self) -> (r: Self) {
        Out { _a: PhantomData, _k: PhantomData }
    }
}

impl<A, K> Copy for Out<A, K> {
}

impl<A, K> Clone for In<A, K> {
    fn clone(&self) -> (r: Self) {
        In { _a: PhantomData, _k: PhantomData }
    }
}

impl<A, K> Copy for In<A, K> {
}

impl<K1, K2> Clone for Branch<K1, K2> {
    fn clone(&self) -> (r: Self) {
        Branch { _k1: PhantomData, _k2: PhantomData }
    }
}

impl<K1, K2> Copy for Branch<K1, K2> {
}

impl<K1, K2> Clone for Offer<K1, K2> {
    fn clone(&self) -> (r: Self) {
        Offer { _k1: PhantomData, _k2: PhantomData }
    }
}

impl<K1, K2> Copy for Offer<K1, K2> {
}

/// The dual protocol: what the other end of the channel follows.
pub trait Dual {
    type Dual;
}

impl<A, K: Dual> Dual for Out<A, K> {
    type Dual = In<A, K::Dual>;
}

impl<A, K: Dual> Dual for In<A, K> {
    type Dual = Out<A, K::Dual>;
}

impl Dual for End {
    type Dual = End;
}

impl<K1: Dual, K2: Dual> Dual for Branch<K1, K2> {
    type Dual = Offer<K1::Dual, K2::Dual>;
}

impl<K1: Dual, K2: Dual> Dual for Offer<K1, K2> {
    type Dual = Branch<K1::Dual, K2::Dual>;
}

/// The side of a choice.
#[derive(Debug, Clone, Copy, PartialEq, Eq, Structural)]
pub enum Label {
    Left,
    Right,
}

/// What an offer receives: the channel of the chosen side.
pub enum OfferResult<C1, C2> {
    Left(C1),
    Right(C2),
}

/// Protocols built from the constructors above.
pub trait WellFormed {
    /// Every such protocol is well formed.
    fn is_well_formed() -> (b: bool)
        ensures
            b,
    {
        true
    }
}

impl<A, K: WellFormed> WellFormed for Out<A, K> {
}

impl<A, K: WellFormed> WellFormed for In<A, K> {
}

impl WellFormed for End {
}

impl<K1: WellFormed, K2: WellFormed> WellFormed for Branch<K1, K2> {
}

impl<K1: WellFormed, K2: WellFormed> WellFormed for Offer<K1, K2> {
}

/// The calculator protocol, client side.
pub type CalcClient = Out<i32, In<i32, Out<bool, End>>>;

/// The calculator protocol, server side.
pub type CalcServer = In<i32, Out<i32, In<bool, End>>>;

/// The login protocol, client side.
pub type LoginClient = Out<String, In<Result<String, String>, End>>;

/// The login protocol, server side.
pub type LoginServer = In<String, Out<Result<String, String>, End>>;

/// The streaming protocol, client side.
pub type StreamClient = Out<i32, Out<i32, In<i32, End>>>;

/// The streaming protocol, server side.
pub type StreamServer = In<i32, In<i32, Out<i32, End>>>;

} // verus!
