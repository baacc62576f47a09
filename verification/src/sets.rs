//! Set theory on a finite fragment: von Neumann ordinals and aleph
//! cardinals as numbers.
//!
//! ZF set theory is about infinite sets; here ordinals are the finite ones
//! (natural numbers) and cardinals are indexed alephs. Independence results
//! such as the continuum hypothesis are illustrated, not proved.
use vstd::prelude::*;
use vstd::arithmetic::power::pow;

verus! {

/// Von Neumann ordinal (finite fragment): 0 = ∅, n + 1 = n ∪ {n}.
#[derive(Debug, Clone, Copy, PartialEq, Eq, PartialOrd, Ord, Structural)]
pub struct Ordinal(pub u64);

impl Ordinal {
    /// 0 = ∅.
    pub fn zero() -> (o: Self)
        ensures
            o == Ordinal(0),
    {
        Ordinal(0)
    }

    /// α + 1.
    pub fn successor(self) -> (o: Self)
        requires
            self.0 < u64::MAX,
        ensures
            o.0 == self.0 + 1,
    {
        Ordinal(self.0 + 1)
    }

    /// In this finite fragment only 0 counts as a limit.
    pub fn is_limit(&self) -> (b: bool)
        ensures
            b == (self.0 == 0),
    {
        self.0 == 0
    }

    /// α + β.
    pub fn add(self, other: Self) -> (o: Self)
        requires
            self.0 + other.0 <= u64::MAX,
        ensures
            o.0 == self.0 + other.0,
    {
        Ordinal(self.0 + other.0)
    }

    /// α · β.
    pub fn multiply(self, other: Self) -> (o: Self)
        requires
            self.0 * other.0 <= u64::MAX,
        ensures
            o.0 == self.0 * other.0,
    {
        Ordinal(self.0 * other.0)
    }

    /// α^β, with the exponent taken as a `u32` (its low 32 bits); the
    /// power must fit in `u64`.
    pub fn power(self, other: Self) -> (o: Self)
        requires
            pow(self.0 as int, (#[verifier::truncate] (other.0 as u32)) as nat) <= u64::MAX,
        ensures
            o.0 == pow(self.0 as int, (#[verifier::truncate] (other.0 as u32)) as nat),
    {
        let e = #[verifier::truncate] (other.0 as u32);
        let b = self.0;
        if b == 0 {
            proof {
                lemma_pow_zero_base(e as nat);
            }
            return if e == 0 {
                Ordinal(1)
            } else {
                Ordinal(0)
            };
        }
        if b == 1 {
            proof {
                lemma_pow_one_base(e as nat);
            }
            return Ordinal(1);
        }
        let mut acc: u64 = 1;
        let mut i: u32 = 0;
        proof {
            vstd::arithmetic::power::lemma_pow0(b as int);
        }
        while i < e
            invariant
                b >= 2,
                i <= e,
                acc == pow(b as int, i as nat),
                pow(b as int, e as nat) <= u64::MAX,
            decreases e - i,
        {
            proof {
                vstd::arithmetic::power::lemma_pow_increases(b as nat, (i + 1) as nat, e as nat);
                assert(pow(b as int, (i + 1) as nat) == b * pow(b as int, i as nat)) by {
                    reveal(pow);
                }
            }
            acc = acc * b;
            i = i + 1;
        }
        Ordinal(acc)
    }

    /// Every ordinal of this fragment is finite.
    pub fn is_finite(&self) -> (b: bool)
        ensures
            b,
    {
        true
    }
}

proof fn lemma_pow_one_base(e: nat)
    ensures
        pow(1, e) == 1,
    decreases e,
{
    reveal(pow);
    if e > 0 {
        lemma_pow_one_base((e - 1) as nat);
    }
}

proof fn lemma_pow_zero_base(e: nat)
    ensures
        pow(0, e) == if e == 0 { 1int } else { 0int },
    decreases e,
{
    reveal(pow);
    if e > 0 {
        lemma_pow_zero_base((e - 1) as nat);
    }
}

/// Aleph cardinal ℵₙ, by its index.
#[derive(Debug, Clone, Copy, PartialEq, Eq, PartialOrd, Ord, Structural)]
pub struct Cardinal(pub u64);

impl Cardinal {
    /// ℵ₀.
    pub fn aleph_0() -> (c: Self)
        ensures
            c == Cardinal(0),
    {
        Cardinal(0)
    }

    /// ℵ₁.
    pub fn aleph_1() -> (c: Self)
        ensures
            c == Cardinal(1),
    {
        Cardinal(1)
    }

    /// ℵₙ.
    pub fn aleph(n: u64) -> (c: Self)
        ensures
            c == Cardinal(n),
    {
        Cardinal(n)
    }

    /// 2^κ, taken as the next aleph.
    pub fn power_set(self) -> (c: Self)
        requires
            self.0 < u64::MAX,
        ensures
            c.0 == self.0 + 1,
    {
        Cardinal(self.0 + 1)
    }

    /// 2^ℵ₀.
    pub fn continuum() -> (c: Self)
        ensures
            c == Cardinal(1),
    {
        Cardinal(0).power_set()
    }

    /// 2^ℵ₀ = ℵ₁ in this model.
    pub fn continuum_hypothesis() -> (b: bool)
        ensures
            b,
    {
        Cardinal::continuum() == Cardinal::aleph_1()
    }

    /// 2^ℵ_α = ℵ_{α+1} in this model.
    pub fn gch_holds(alpha: Self) -> (b: bool)
        requires
            alpha.0 < u64::MAX,
        ensures
            b,
    {
        alpha.power_set() == Cardinal::aleph(alpha.0 + 1)
    }

    /// κ + λ: the larger of the two.
    pub fn add(self, other: Self) -> (c: Self)
        ensures
            c.0 == if self.0 >= other.0 { self.0 } else { other.0 },
    {
        if self.0 == 0 && other.0 == 0 {
            Cardinal(0)
        } else {
            Cardinal(if self.0 >= other.0 { self.0 } else { other.0 })
        }
    }

    /// κ · λ: the larger of the two.
    pub fn multiply(self, other: Self) -> (c: Self)
        ensures
            c.0 == if self.0 >= other.0 { self.0 } else { other.0 },
    {
        self.add(other)
    }
}

} // verus!
