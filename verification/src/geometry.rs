//! Integer geometry of abjad numbers: the Fibonacci-like sequence
//! 12, 21, 33, …, the abjad π as an exact fraction, a golden-ratio hash
//! of texts and a 6k ± 1 primality test.
use vstd::prelude::*;
use crate::abjad::{abjad_letter, letter_value};
use crate::stdlib::math::{fib, is_prime_spec};
use crate::text::chars_of;

verus! {

/// Numerator of the abjad π, `Σ 1/V(h)` over the letter values.
pub const ABJAD_PI_NUMERATOR: u64 = 263857;

/// Denominator of the abjad π.
pub const ABJAD_PI_DENOMINATOR: u64 = 84000;

/// The observed Fibonacci-like sequence 12, 21, 33, …
pub const QURANIC_FIBONACCI: [u64; 16] = [
    12,
    21,
    33,
    54,
    87,
    141,
    228,
    369,
    597,
    966,
    1563,
    2529,
    4092,
    6621,
    10713,
    17334,
];

/// The sequence as values.
pub open spec fn quranic_table() -> Seq<u64> {
    seq![12, 21, 33, 54, 87, 141, 228, 369, 597, 966, 1563, 2529, 4092, 6621, 10713, 17334]
}

/// The golden-ratio hashing constant `⌊2^64 / φ⌋`.
pub const FIB_HASH_CONST: u64 = 0x9E3779B97F4A7C15;

/// Fibonacci number `n` (iterative); it must fit in `u64`.
pub fn standard_fibonacci(n: usize) -> (r: u64)
    requires
        fib(n as nat) <= u64::MAX,
    ensures
        r == fib(n as nat),
{
    crate::stdlib::math::fibonacci(n as u64)
}

/// Whether `n` is one of the sixteen terms of the sequence.
pub fn is_quranic_fibonacci(n: u64) -> (r: bool)
    ensures
        r == quranic_table().contains(n),
{
    let table = QURANIC_FIBONACCI;
    let mut i: usize = 0;
    proof {
        assert(table@ =~= quranic_table());
    }
    while i < 16
        invariant
            i <= 16,
            table@ == quranic_table(),
            forall|k: int| 0 <= k < i ==> quranic_table()[k] != n,
        decreases 16 - i,
    {
        if table[i] == n {
            assert(quranic_table()[i as int] == n);
            return true;
        }
        i = i + 1;
    }
    false
}

/// Term `k` after the pair `(a, b)`: `a + b`, then each term the sum of
/// the two before it.
pub open spec fn continue_from(a: int, b: int, k: nat) -> int
    decreases k,
{
    if k == 0 {
        a + b
    } else {
        continue_from(b, a + b, (k - 1) as nat)
    }
}

/// Element `i` of `quranic_fibonacci_sequence(start, _)`: the term at
/// position `start + i` of the table, continued past its end by making
/// each term the sum of the two before it.
pub open spec fn quranic_term(start: int, i: int) -> int {
    if start + i < 16 {
        quranic_table()[start + i] as int
    } else {
        continue_from(quranic_table()[14] as int, quranic_table()[15] as int, (start + i - 16) as nat)
    }
}

proof fn lemma_continue_step(a: int, b: int, k: nat)
    ensures
        continue_from(a, b, k + 1) == continue_from(b, a + b, k),
{
}

proof fn lemma_continue_shift(a: int, b: int, k: nat)
    ensures
        continue_from(a, b, k + 2) == continue_from(a, b, k) + continue_from(a, b, k + 1),
    decreases k,
{
    if k > 0 {
        lemma_continue_shift(b, a + b, (k - 1) as nat);
        assert(continue_from(a, b, k + 2) == continue_from(b, a + b, k + 1));
        assert(continue_from(a, b, k + 1) == continue_from(b, a + b, k));
        assert(continue_from(a, b, k) == continue_from(b, a + b, (k - 1) as nat));
    } else {
        assert(continue_from(a, b, 1) == continue_from(b, a + b, 0));
        assert(continue_from(a, b, 2) == continue_from(b, a + b, 1));
        assert(continue_from(b, a + b, 1) == continue_from(a + b, b + (a + b), 0));
    }
}

/// `count` terms from position `start`: the table's terms, continued by
/// sums once the table ends; empty when `start` is past the table.
pub fn quranic_fibonacci_sequence(start_idx: usize, count: usize) -> (r: Vec<u64>)
    requires
        start_idx < 16 ==> forall|i: int| 0 <= i < count ==> #[trigger] quranic_term(start_idx as int, i) <= u64::MAX,
    ensures
        start_idx >= 16 ==> r@.len() == 0,
        start_idx < 16 ==> r@.len() == count && forall|i: int|
            0 <= i < count ==> r@[i] as int == #[trigger] quranic_term(start_idx as int, i),
{
    let mut seq: Vec<u64> = Vec::new();
    if start_idx >= 16 {
        return seq;
    }
    let table = QURANIC_FIBONACCI;
    proof {
        assert(table@ =~= quranic_table());
    }
    let mut a: u64 = table[14];
    let mut b: u64 = table[15];
    let ghost a0: int = a as int;
    let ghost b0: int = b as int;
    let mut i: usize = 0;
    while i < count
        invariant
            start_idx < 16,
            i <= count,
            table@ == quranic_table(),
            a0 == quranic_table()[14] as int,
            b0 == quranic_table()[15] as int,
            forall|q: int| 0 <= q < count ==> #[trigger] quranic_term(start_idx as int, q) <= u64::MAX,
            seq@.len() == i,
            forall|q: int| 0 <= q < i ==> seq@[q] as int == #[trigger] quranic_term(start_idx as int, q),
            start_idx + i <= 16 ==> a == a0 && b == b0,
            start_idx + i == 17 ==> a as int == b0,
            start_idx + i >= 18 ==> a as int == continue_from(a0, b0, (start_idx + i - 18) as nat),
            start_idx + i >= 17 ==> b as int == continue_from(a0, b0, (start_idx + i - 17) as nat),
        decreases count - i,
    {
        if i < 16 - start_idx {
            seq.push(table[start_idx + i]);
        } else {
            proof {
                let k = (start_idx + i - 16) as nat;
                assert(quranic_term(start_idx as int, i as int) == continue_from(a0, b0, k));
                if k == 0 {
                    assert(a + b == continue_from(a0, b0, 0));
                } else if k == 1 {
                    lemma_continue_step(a0, b0, 0);
                    assert(continue_from(a0, b0, 1) == continue_from(b0, a0 + b0, 0));
                    assert(b as int == continue_from(a0, b0, 0));
                } else {
                    lemma_continue_shift(a0, b0, (k - 2) as nat);
                }
                assert(a + b == continue_from(a0, b0, k));
            }
            let c = a + b;
            seq.push(c);
            a = b;
            b = c;
        }
        i = i + 1;
    }
    seq
}

/// One hash step: multiply by the golden constant, add the letter value,
/// rotate left by 5 (all modulo 2^64).
pub open spec fn hash_step(h: u64, v: u32) -> u64 {
    let m = ((h as int * FIB_HASH_CONST as int + v as int) % 0x1_0000_0000_0000_0000) as u64;
    (m << 5u64) | (m >> 59u64)
}

/// The hash of the letters of `s` from the seed `h`; characters without
/// a letter value leave it unchanged.
pub open spec fn hash_chars(h: u64, s: Seq<char>) -> u64
    decreases s.len(),
{
    if s.len() == 0 {
        h
    } else {
        let prev = hash_chars(h, s.drop_last());
        match letter_value(s.last()) {
            Some(v) => hash_step(prev, v),
            None => prev,
        }
    }
}

/// Golden-ratio (Fibonacci) hash of the abjad letters of a text.
pub fn geometric_hash(text: &str) -> (r: u64)
    ensures
        r == hash_chars(0x123456789ABCDEF0, text@),
{
    let chars = chars_of(text);
    let mut hash: u64 = 0x123456789ABCDEF0;
    let mut i: usize = 0;
    while i < chars.len()
        invariant
            i <= chars@.len(),
            chars@ == text@,
            hash == hash_chars(0x123456789ABCDEF0, chars@.take(i as int)),
        decreases chars@.len() - i,
    {
        proof {
            assert(chars@.take(i as int + 1).drop_last() =~= chars@.take(i as int));
        }
        match abjad_letter(chars[i]) {
            Some(value) => {
                let m = hash.wrapping_mul(FIB_HASH_CONST).wrapping_add(value as u64);
                proof {
                    assert(m == ((hash as int * FIB_HASH_CONST as int + value as int) % 0x1_0000_0000_0000_0000) as u64) by {
                        vstd::arithmetic::div_mod::lemma_add_mod_noop(
                            hash as int * FIB_HASH_CONST as int,
                            value as int,
                            0x1_0000_0000_0000_0000,
                        );
                        vstd::arithmetic::div_mod::lemma_mod_twice(value as int, 0x1_0000_0000_0000_0000);
                    }
                }
                hash = (m << 5u64) | (m >> 59u64);
            },
            None => {},
        }
        i = i + 1;
    }
    proof {
        assert(chars@.take(i as int) =~= chars@);
    }
    hash
}

/// Primality by trial division with 2, 3 and the numbers `6k ± 1` up to
/// the integer square root.
pub fn is_golden_prime(n: u64) -> (r: bool)
    ensures
        r == is_prime_spec(n as nat),
{
    if n < 2 {
        return false;
    }
    if n == 2 || n == 3 {
        assert forall|d: nat| 2 <= d < n implies #[trigger] ((n as nat) % d) != 0 by {}
        return true;
    }
    if n % 2 == 0 || n % 3 == 0 {
        return false;
    }
    let mut i: u64 = 5;
    proof {
        assert forall|d: nat| 2 <= d < 5 && d * d <= n implies #[trigger] ((n as nat) % d) != 0 by {
            if d == 4 && (n as nat) % 4 == 0 {
                lemma_divisor_mod(n as nat, 4, 2);
            }
        }
    }
    while (i as u128) * (i as u128) <= n as u128
        invariant
            5 <= i,
            i % 6 == 5,
            i <= 0x1_0000_0005,
            (i as int) * (i as int) <= 0x1_0000_000A_0000_0019,
            n >= 4,
            n % 2 != 0,
            n % 3 != 0,
            forall|d: nat| 2 <= d < i && d * d <= n ==> #[trigger] ((n as nat) % d) != 0,
        decreases 0x1_0000_0005 - i,
    {
        if n % i == 0 || n % (i + 2) == 0 {
            proof {
                assert(i + 2 < n) by (nonlinear_arith)
                    requires
                        (i as int) * (i as int) <= n,
                        i >= 5,
                ;
                if n % i == 0 {
                    assert((n as nat) % (i as nat) == 0);
                } else {
                    assert((n as nat) % ((i + 2) as nat) == 0);
                }
            }
            return false;
        }
        proof {
            assert(i < 0x1_0000_0000) by (nonlinear_arith)
                requires
                    (i as int) * (i as int) <= n,
                    n <= u64::MAX,
                    i >= 5,
            ;
            assert(((i + 6) as int) * ((i + 6) as int) <= 0x1_0000_000A_0000_0019) by (nonlinear_arith)
                requires
                    i < 0x1_0000_0000,
            ;
            assert forall|d: nat| 2 <= d < i + 6 && d * d <= n implies #[trigger] ((n as nat) % d) != 0 by {
                if d >= i {
                    if d % 2 == 0 {
                        if (n as nat) % d == 0 {
                            crate::geometry::lemma_divisor_mod(n as nat, d, 2);
                        }
                    } else if d % 3 == 0 {
                        if (n as nat) % d == 0 {
                            crate::geometry::lemma_divisor_mod(n as nat, d, 3);
                        }
                    } else {
                        assert(d == i || d == i + 2);
                    }
                }
            }
        }
        i = i + 6;
    }
    proof {
        assert forall|d: nat| 2 <= d < n implies #[trigger] ((n as nat) % d) != 0 by {
            if (n as nat) % d == 0 {
                let e = crate::geometry::small_factor(n as nat, d);
                if e >= i {
                    assert(e * e >= i * i) by (nonlinear_arith)
                        requires
                            e >= i,
                            i >= 0,
                    ;
                }
            }
        }
    }
    true
}

/// A divisor of `n` that is a multiple of `m` makes `m` a divisor.
proof fn lemma_divisor_mod(n: nat, d: nat, m: nat)
    requires
        m > 0,
        d > 0,
        n % d == 0,
        d % m == 0,
    ensures
        n % m == 0,
{
    let k = n / d;
    let j = d / m;
    assert(n == k * d) by (nonlinear_arith)
        requires
            d > 0,
            n % d == 0,
            k == n / d,
    ;
    assert(d == j * m) by (nonlinear_arith)
        requires
            m > 0,
            d % m == 0,
            j == d / m,
    ;
    assert(n == (k * j) * m) by (nonlinear_arith)
        requires
            n == k * d,
            d == j * m,
    ;
    vstd::arithmetic::div_mod::lemma_mod_multiples_basic((k * j) as int, m as int);
}

/// A factor at most the square root, from any proper factor.
proof fn small_factor(n: nat, d: nat) -> (e: nat)
    requires
        2 <= d < n,
        n % d == 0,
    ensures
        2 <= e,
        e * e <= n,
        n % e == 0,
{
    let q = n / d;
    assert(q * d == n && q >= 2) by (nonlinear_arith)
        requires
            2 <= d < n,
            n % d == 0,
            q == n / d,
    ;
    if d * d <= n {
        d
    } else {
        assert(q * q <= n) by (nonlinear_arith)
            requires
                q * d == n,
                d * d > n,
                q >= 2,
                d >= 2,
        ;
        assert(n % q == 0) by (nonlinear_arith)
            requires
                q * d == n,
                q >= 2,
        ;
        q
    }
}

} // verus!
