//! Monadic error handling: `Outcome<T, E>` (success or failure) and
//! `Maybe<T>` (a value or nothing), with bind (`and_then`), map and the
//! monad laws.
use vstd::prelude::*;

verus! {

/// A computation that succeeded with a `T` or failed with an `E`.
#[derive(Debug, Clone, PartialEq, Eq)]
pub enum Outcome<T, E> {
    Success(T),
    Failure(E),
}

/// Monadic bind on outcomes.
pub open spec fn bind_outcome<T, U, E>(m: Outcome<T, E>, f: spec_fn(T) -> Outcome<U, E>) -> Outcome<U, E> {
    match m {
        Outcome::Success(v) => f(v),
        Outcome::Failure(e) => Outcome::Failure(e),
    }
}

impl<T, E> Outcome<T, E> {
    pub fn ok(value: T) -> (r: Self)
        ensures
            r == Outcome::<T, E>::Success(value),
    {
        Outcome::Success(value)
    }

    pub fn err(error: E) -> (r: Self)
        ensures
            r == Outcome::<T, E>::Failure(error),
    {
        Outcome::Failure(error)
    }

    pub fn is_ok(&self) -> (b: bool)
        ensures
            b == (self is Success),
    {
        match self {
            Outcome::Success(_) => true,
            Outcome::Failure(_) => false,
        }
    }

    pub fn is_err(&self) -> (b: bool)
        ensures
            b == (self is Failure),
    {
        match self {
            Outcome::Success(_) => false,
            Outcome::Failure(_) => true,
        }
    }

    /// The success value; only for a success.
    pub fn unwrap(self) -> (v: T)
        requires
            self is Success,
        ensures
            self == Outcome::<T, E>::Success(v),
    {
        match self {
            Outcome::Success(v) => v,
            Outcome::Failure(_) => vstd::pervasive::unreached(),
        }
    }

    /// The failure value; only for a failure.
    pub fn unwrap_err(self) -> (e: E)
        requires
            self is Failure,
        ensures
            self == Outcome::<T, E>::Failure(e),
    {
        match self {
            Outcome::Success(_) => vstd::pervasive::unreached(),
            Outcome::Failure(e) => e,
        }
    }

    /// Bind: continue with `f` after a success; a failure passes through.
    pub fn and_then<U, F: FnOnce(T) -> Outcome<U, E>>(self, f: F) -> (r: Outcome<U, E>)
        requires
            self matches Outcome::Success(v) ==> call_requires(f, (v,)),
        ensures
            self matches Outcome::Success(v) ==> call_ensures(f, (v,), r),
            self matches Outcome::Failure(e) ==> r == Outcome::<U, E>::Failure(e),
    {
        match self {
            Outcome::Success(v) => f(v),
            Outcome::Failure(e) => Outcome::Failure(e),
        }
    }

    /// Map the success value.
    pub fn map<U, F: FnOnce(T) -> U>(self, f: F) -> (r: Outcome<U, E>)
        requires
            self matches Outcome::Success(v) ==> call_requires(f, (v,)),
        ensures
            self matches Outcome::Success(v) ==> (r matches Outcome::Success(u) && call_ensures(f, (v,), u)),
            self matches Outcome::Failure(e) ==> r == Outcome::<U, E>::Failure(e),
    {
        match self {
            Outcome::Success(v) => Outcome::Success(f(v)),
            Outcome::Failure(e) => Outcome::Failure(e),
        }
    }

    /// Map the failure value.
    pub fn map_err<F: FnOnce(E) -> O, O>(self, f: F) -> (r: Outcome<T, O>)
        requires
            self matches Outcome::Failure(e) ==> call_requires(f, (e,)),
        ensures
            self matches Outcome::Success(v) ==> r == Outcome::<T, O>::Success(v),
            self matches Outcome::Failure(e) ==> (r matches Outcome::Failure(o) && call_ensures(f, (e,), o)),
    {
        match self {
            Outcome::Success(v) => Outcome::Success(v),
            Outcome::Failure(e) => Outcome::Failure(f(e)),
        }
    }

    /// The success value, or `default`.
    pub fn unwrap_or(self, default: T) -> (v: T)
        ensures
            v == (match self {
                Outcome::Success(x) => x,
                Outcome::Failure(_) => default,
            }),
    {
        match self {
            Outcome::Success(v) => v,
            Outcome::Failure(_) => default,
        }
    }
}

/// A value or nothing.
#[derive(Debug, Clone, PartialEq, Eq)]
pub enum Maybe<T> {
    Just(T),
    Nothing,
}

/// Monadic bind on optional values.
pub open spec fn bind_maybe<T, U>(m: Maybe<T>, f: spec_fn(T) -> Maybe<U>) -> Maybe<U> {
    match m {
        Maybe::Just(v) => f(v),
        Maybe::Nothing => Maybe::Nothing,
    }
}

impl<T> Maybe<T> {
    pub fn some(value: T) -> (r: Self)
        ensures
            r == Maybe::Just(value),
    {
        Maybe::Just(value)
    }

    pub fn none() -> (r: Self)
        ensures
            r == Maybe::<T>::Nothing,
    {
        Maybe::Nothing
    }

    pub fn is_some(&self) -> (b: bool)
        ensures
            b == (self is Just),
    {
        match self {
            Maybe::Just(_) => true,
            Maybe::Nothing => false,
        }
    }

    pub fn is_none(&self) -> (b: bool)
        ensures
            b == (self is Nothing),
    {
        match self {
            Maybe::Just(_) => false,
            Maybe::Nothing => true,
        }
    }

    /// The value; only for `Just`.
    pub fn unwrap(self) -> (v: T)
        requires
            self is Just,
        ensures
            self == Maybe::Just(v),
    {
        match self {
            Maybe::Just(v) => v,
            Maybe::Nothing => vstd::pervasive::unreached(),
        }
    }

    /// Bind: continue with `f` after a value; nothing passes through.
    pub fn and_then<U, F: FnOnce(T) -> Maybe<U>>(self, f: F) -> (r: Maybe<U>)
        requires
            self matches Maybe::Just(v) ==> call_requires(f, (v,)),
        ensures
            self matches Maybe::Just(v) ==> call_ensures(f, (v,), r),
            self is Nothing ==> r == Maybe::<U>::Nothing,
    {
        match self {
            Maybe::Just(v) => f(v),
            Maybe::Nothing => Maybe::Nothing,
        }
    }

    /// Map the value.
    pub fn map<U, F: FnOnce(T) -> U>(self, f: F) -> (r: Maybe<U>)
        requires
            self matches Maybe::Just(v) ==> call_requires(f, (v,)),
        ensures
            self matches Maybe::Just(v) ==> (r matches Maybe::Just(u) && call_ensures(f, (v,), u)),
            self is Nothing ==> r == Maybe::<U>::Nothing,
    {
        match self {
            Maybe::Just(v) => Maybe::Just(f(v)),
            Maybe::Nothing => Maybe::Nothing,
        }
    }

    /// The value, or `default`.
    pub fn unwrap_or(self, default: T) -> (v: T)
        ensures
            v == (match self {
                Maybe::Just(x) => x,
                Maybe::Nothing => default,
            }),
    {
        match self {
            Maybe::Just(v) => v,
            Maybe::Nothing => default,
        }
    }

    /// A success with the value, or a failure with `err`.
    pub fn ok_or<E>(self, err: E) -> (r: Outcome<T, E>)
        ensures
            r == (match self {
                Maybe::Just(x) => Outcome::<T, E>::Success(x),
                Maybe::Nothing => Outcome::<T, E>::Failure(err),
            }),
    {
        match self {
            Maybe::Just(v) => Outcome::Success(v),
            Maybe::Nothing => Outcome::Failure(err),
        }
    }
}

/// Left identity: binding a success on `f` is applying `f`.
pub proof fn law_outcome_left_identity<T, U, E>(v: T, f: spec_fn(T) -> Outcome<U, E>)
    ensures
        bind_outcome(Outcome::<T, E>::Success(v), f) == f(v),
{
}

/// Right identity: binding on `Success` changes nothing.
pub proof fn law_outcome_right_identity<T, E>(m: Outcome<T, E>)
    ensures
        bind_outcome(m, |x: T| Outcome::<T, E>::Success(x)) == m,
{
}

/// Associativity of bind.
pub proof fn law_outcome_associativity<T, U, V, E>(
    m: Outcome<T, E>,
    f: spec_fn(T) -> Outcome<U, E>,
    g: spec_fn(U) -> Outcome<V, E>,
)
    ensures
        bind_outcome(bind_outcome(m, f), g) == bind_outcome(m, |x: T| bind_outcome(f(x), g)),
{
}

/// Left identity for optional values.
pub proof fn law_maybe_left_identity<T, U>(v: T, f: spec_fn(T) -> Maybe<U>)
    ensures
        bind_maybe(Maybe::Just(v), f) == f(v),
{
}

/// Right identity for optional values.
pub proof fn law_maybe_right_identity<T>(m: Maybe<T>)
    ensures
        bind_maybe(m, |x: T| Maybe::Just(x)) == m,
{
}

/// Associativity of bind for optional values.
pub proof fn law_maybe_associativity<T, U, V>(m: Maybe<T>, f: spec_fn(T) -> Maybe<U>, g: spec_fn(U) -> Maybe<V>)
    ensures
        bind_maybe(bind_maybe(m, f), g) == bind_maybe(m, |x: T| bind_maybe(f(x), g)),
{
}

} // verus!
