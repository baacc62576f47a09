//! Integer mathematics: Fibonacci numbers, factorials, gcd and lcm,
//! integer square roots and primality.
use vstd::prelude::*;

verus! {

/// The Fibonacci numbers, `fib(0) = 0`, `fib(1) = 1`.
pub open spec fn fib(n: nat) -> nat
    decreases n,
{
    if n <= 1 {
        n
    } else {
        fib((n - 2) as nat) + fib((n - 1) as nat)
    }
}

proof fn lemma_fib_monotonic(i: nat, j: nat)
    requires
        i <= j,
    ensures
        fib(i) <= fib(j),
    decreases j - i,
{
    if i < j {
        lemma_fib_monotonic(i, (j - 1) as nat);
        if j >= 2 {
            assert(fib(j) == fib((j - 2) as nat) + fib((j - 1) as nat));
        }
    }
}

/// The `n`-th Fibonacci number, computed iteratively.
pub fn fibonacci(n: u64) -> (r: u64)
    requires
        fib(n as nat) <= u64::MAX,
    ensures
        r == fib(n as nat),
{
    if n <= 1 {
        return n;
    }
    let mut a: u64 = 0;
    let mut b: u64 = 1;
    let mut i: u64 = 1;
    while i < n
        invariant
            1 <= i <= n,
            fib(n as nat) <= u64::MAX,
            a == fib((i - 1) as nat),
            b == fib(i as nat),
        decreases n - i,
    {
        proof {
            lemma_fib_monotonic(i as nat + 1, n as nat);
        }
        let temp = a + b;
        a = b;
        b = temp;
        i = i + 1;
    }
    b
}

/// `n!`, with `0! = 1`.
pub open spec fn fact(n: nat) -> nat
    decreases n,
{
    if n == 0 {
        1
    } else {
        n * fact((n - 1) as nat)
    }
}

proof fn lemma_fact_positive(n: nat)
    ensures
        fact(n) >= 1,
    decreases n,
{
    if n > 0 {
        lemma_fact_positive((n - 1) as nat);
        assert(n * fact((n - 1) as nat) >= 1) by (nonlinear_arith)
            requires
                n >= 1,
                fact((n - 1) as nat) >= 1,
        ;
    }
}

proof fn lemma_fact_monotonic(i: nat, j: nat)
    requires
        i <= j,
    ensures
        fact(i) <= fact(j),
    decreases j - i,
{
    if i < j {
        lemma_fact_monotonic(i, (j - 1) as nat);
        lemma_fact_positive((j - 1) as nat);
        assert(j * fact((j - 1) as nat) >= fact((j - 1) as nat)) by (nonlinear_arith)
            requires
                j >= 1,
        ;
    }
}

/// `n!`, the product `2 · 3 · … · n`.
pub fn factorial(n: u64) -> (r: u64)
    requires
        fact(n as nat) <= u64::MAX,
    ensures
        r == fact(n as nat),
{
    if n <= 1 {
        proof {
            assert(fact(1) == 1 * fact(0));
        }
        return 1;
    }
    proof {
        assert(fact(1) == 1 * fact(0));
    }
    let mut acc: u64 = 1;
    let mut i: u64 = 1;
    while i < n
        invariant
            1 <= i <= n,
            fact(n as nat) <= u64::MAX,
            acc == fact(i as nat),
        decreases n - i,
    {
        i = i + 1;
        proof {
            lemma_fact_monotonic(i as nat, n as nat);
            assert(fact(i as nat) == i * fact((i - 1) as nat));
            assert(acc * i == fact(i as nat)) by (nonlinear_arith)
                requires
                    acc == fact((i - 1) as nat),
                    fact(i as nat) == i * fact((i - 1) as nat),
            ;
        }
        acc = acc * i;
    }
    acc
}

/// The greatest common divisor by Euclid's recursion.
pub open spec fn gcd_spec(a: nat, b: nat) -> nat
    decreases b,
{
    if b == 0 {
        a
    } else {
        gcd_spec(b, a % b)
    }
}

/// `d` divides `n` (only 0 is divisible by 0).
pub open spec fn divides(d: nat, n: nat) -> bool {
    if d == 0 {
        n == 0
    } else {
        n % d == 0
    }
}

proof fn lemma_divides_mod(d: nat, a: nat, b: nat)
    requires
        b > 0,
        divides(d, b),
        divides(d, a % b),
    ensures
        divides(d, a),
{
    let k1 = b / d;
    let k2 = (a % b) / d;
    let q = a / b;
    assert(b == k1 * d && a % b == k2 * d) by (nonlinear_arith)
        requires
            d > 0,
            b % d == 0,
            (a % b) % d == 0,
            k1 == b / d,
            k2 == (a % b) / d,
    ;
    assert(a == q * b + a % b) by (nonlinear_arith)
        requires
            b > 0,
            q == a / b,
    ;
    let k: nat = q * k1 + k2;
    assert(a == k * d) by (nonlinear_arith)
        requires
            k == q * k1 + k2,
            b == k1 * d,
            a % b == k2 * d,
            a == q * b + a % b,
    ;
    vstd::arithmetic::div_mod::lemma_mod_multiples_basic(k as int, d as int);
}

proof fn lemma_gcd_divides(a: nat, b: nat)
    ensures
        divides(gcd_spec(a, b), a),
        divides(gcd_spec(a, b), b),
    decreases b,
{
    if b == 0 {
        if a > 0 {
            vstd::arithmetic::div_mod::lemma_mod_self_0(a as int);
        }
    } else {
        lemma_gcd_divides(b, a % b);
        lemma_divides_mod(gcd_spec(a, b), a, b);
    }
}

proof fn lemma_divides_rem(d: nat, a: nat, b: nat)
    requires
        b > 0,
        divides(d, a),
        divides(d, b),
    ensures
        divides(d, a % b),
{
    let x = a / d;
    let y = b / d;
    let q = a / b;
    vstd::arithmetic::div_mod::lemma_fundamental_div_mod(a as int, d as int);
    vstd::arithmetic::div_mod::lemma_fundamental_div_mod(b as int, d as int);
    vstd::arithmetic::div_mod::lemma_fundamental_div_mod(a as int, b as int);
    assert(a == d * x && b == d * y && a == b * q + a % b);
    let ai = a as int;
    let bi = b as int;
    let di = d as int;
    let xi = x as int;
    let yi = y as int;
    let qi = q as int;
    let ri = (a % b) as int;
    assert(bi * qi == di * (yi * qi)) by (nonlinear_arith)
        requires
            bi == di * yi,
    ;
    assert(ri == (xi - yi * qi) * di) by (nonlinear_arith)
        requires
            ai == di * xi,
            bi * qi == di * (yi * qi),
            ai == bi * qi + ri,
    ;
    vstd::arithmetic::div_mod::lemma_mod_multiples_basic(x - y * q, d as int);
}

/// Every common divisor of `a` and `b` divides their gcd.
pub proof fn law_gcd_greatest(d: nat, a: nat, b: nat)
    requires
        divides(d, a),
        divides(d, b),
    ensures
        divides(d, gcd_spec(a, b)),
    decreases b,
{
    if b > 0 {
        lemma_divides_rem(d, a, b);
        law_gcd_greatest(d, b, a % b);
    }
}

/// Greatest common divisor by the Euclidean algorithm: it divides both
/// arguments, and every common divisor of them divides it.
pub fn gcd(a: u64, b: u64) -> (r: u64)
    ensures
        r == gcd_spec(a as nat, b as nat),
        divides(r as nat, a as nat),
        divides(r as nat, b as nat),
        forall|d: nat| divides(d, a as nat) && divides(d, b as nat) ==> #[trigger] divides(d, r as nat),
{
    let mut x = a;
    let mut y = b;
    while y != 0
        invariant
            gcd_spec(x as nat, y as nat) == gcd_spec(a as nat, b as nat),
        decreases y,
    {
        let temp = y;
        y = x % y;
        x = temp;
    }
    proof {
        lemma_gcd_divides(a as nat, b as nat);
        assert forall|d: nat| divides(d, a as nat) && divides(d, b as nat) implies #[trigger] divides(d, x as nat) by {
            law_gcd_greatest(d, a as nat, b as nat);
        }
    }
    x
}

proof fn lemma_gcd_positive(a: nat, b: nat)
    requires
        a > 0,
    ensures
        gcd_spec(a, b) > 0,
    decreases b,
{
    if b > 0 {
        if a % b == 0 {
            assert(gcd_spec(b, 0) == b);
        } else {
            lemma_gcd_positive(b, a % b);
        }
    }
}

/// Least common multiple: 0 when either argument is 0, else
/// `(a / gcd(a, b)) · b`.
pub fn lcm(a: u64, b: u64) -> (r: u64)
    requires
        a > 0 && b > 0 ==> (a as nat / gcd_spec(a as nat, b as nat)) * b <= u64::MAX,
    ensures
        r == (if a == 0 || b == 0 {
            0
        } else {
            (a as nat / gcd_spec(a as nat, b as nat)) * b
        }),
{
    if a == 0 || b == 0 {
        return 0;
    }
    let g = gcd(a, b);
    proof {
        lemma_gcd_positive(a as nat, b as nat);
    }
    (a / g) * b
}

proof fn lemma_newton_step(n: int, x: int, q: int, y: int)
    requires
        x >= 1,
        q == n / x,
        n >= 0,
        y == (x + q) / 2,
    ensures
        (y + 1) * (y + 1) > n,
{
    let a = (q + 1) * x;
    let s = x + q + 1;
    let b = s * s;
    let t = 2 * (y + 1);
    let c = (y + 1) * (y + 1);
    assert(q >= 0) by (nonlinear_arith)
        requires
            x >= 1,
            q == n / x,
            n >= 0,
    ;
    assert(n < a) by (nonlinear_arith)
        requires
            x >= 1,
            q == n / x,
            n >= 0,
            a == (q + 1) * x,
    ;
    assert(4 * a <= b) by (nonlinear_arith)
        requires
            a == (q + 1) * x,
            s == x + q + 1,
            b == s * s,
    ;
    assert(0 <= s <= t);
    assert(b <= t * t) by (nonlinear_arith)
        requires
            0 <= s <= t,
            b == s * s,
    ;
    assert(t * t == 4 * c) by (nonlinear_arith)
        requires
            t == 2 * (y + 1),
            c == (y + 1) * (y + 1),
    ;
}

proof fn lemma_newton_bounds(n: int, x: int)
    requires
        1 <= x <= n,
    ensures
        x + n / x <= n + 1,
        n / x >= 1,
        x * x > n ==> (x + n / x) / 2 < x,
{
    let q = n / x;
    assert(q >= 1 && q * x <= n) by (nonlinear_arith)
        requires
            1 <= x <= n,
            q == n / x,
    ;
    assert(x + q <= n + 1) by (nonlinear_arith)
        requires
            x >= 1,
            q >= 1,
            q * x <= n,
    ;
    if x * x > n {
        assert(q < x) by (nonlinear_arith)
            requires
                x >= 1,
                q * x <= n,
                x * x > n,
        ;
    }
}

/// Floor of the square root: the `r` with `r² ≤ n < (r + 1)²`
/// (Newton's iteration).
pub fn isqrt(n: u64) -> (r: u64)
    ensures
        r * r <= n < (r + 1) * (r + 1),
{
    if n == 0 {
        return 0;
    }
    let mut x = n;
    let mut y = x / 2 + x % 2;
    proof {
        assert((n as int + 1) * (n as int + 1) > n) by (nonlinear_arith)
            requires
                n >= 1,
        ;
        let h: int = (n as int + 1) / 2;
        assert((h + 1) * (h + 1) > n) by (nonlinear_arith)
            requires
                h == (n as int + 1) / 2,
                n >= 1,
        ;
    }
    while y < x
        invariant
            1 <= x <= n,
            (y + 1) * (y + 1) > n,
            (x + 1) * (x + 1) > n,
            y >= 1,
            y == (x + n / x) / 2,
        decreases x,
    {
        x = y;
        proof {
            lemma_newton_bounds(n as int, x as int);
            let q = n as int / x as int;
            assert(q * x <= n) by (nonlinear_arith)
                requires
                    x >= 1,
                    n >= 0,
                    q == n as int / x as int,
            ;
            if x >= 2 {
                assert(x + q <= n) by (nonlinear_arith)
                    requires
                        2 <= x < n,
                        q >= 1,
                        q * x <= n,
                ;
            } else {
                assert(n < 4) by (nonlinear_arith)
                    requires
                        x == 1,
                        (x + 1) * (x + 1) > n,
                ;
            }
        }
        y = (x + n / x) / 2;
        proof {
            lemma_newton_step(n as int, x as int, (n / x) as int, y as int);
            if y == 0 {
                assert((y + 1) * (y + 1) == 1);
            }
        }
    }
    proof {
        lemma_newton_bounds(n as int, x as int);
        if x * x > n {
            assert(false);
        }
    }
    x
}

/// `n` is prime: at least 2 and without a divisor strictly between 1
/// and `n`.
pub open spec fn is_prime_spec(n: nat) -> bool {
    n >= 2 && forall|d: nat| 2 <= d < n ==> #[trigger] (n % d) != 0
}

proof fn small_divisor(n: nat, d: nat) -> (e: nat)
    requires
        2 <= d < n,
        n % d == 0,
    ensures
        2 <= e,
        e * e <= n,
        n % e == 0,
{
    let q = n / d;
    assert(q * d == n && q >= 2) by (nonlinear_arith)
        requires
            2 <= d < n,
            n % d == 0,
            q == n / d,
    ;
    if d * d <= n {
        d
    } else {
        assert(q * q <= n) by (nonlinear_arith)
            requires
                q * d == n,
                d * d > n,
                q >= 2,
                d >= 2,
        ;
        assert(n % q == 0) by (nonlinear_arith)
            requires
                q * d == n,
                q >= 2,
        ;
        q
    }
}

proof fn lemma_even_divisor(n: nat, e: nat)
    requires
        e >= 2,
        n % e == 0,
        e % 2 == 0,
    ensures
        n % 2 == 0,
{
    let k = n / e;
    let m = e / 2;
    assert(n == k * e) by (nonlinear_arith)
        requires
            e >= 2,
            n % e == 0,
            k == n / e,
    ;
    assert(n == (k * m) * 2) by (nonlinear_arith)
        requires
            n == k * e,
            e == m * 2,
    ;
}

/// Primality by trial division with odd divisors up to `isqrt(n)`.
pub fn is_prime(n: u64) -> (r: bool)
    requires
        n < u64::MAX,
    ensures
        r == is_prime_spec(n as nat),
{
    if n < 2 {
        return false;
    }
    if n == 2 {
        return true;
    }
    if n % 2 == 0 {
        assert((n as nat) % 2 == 0);
        return false;
    }
    let limit = isqrt(n);
    let mut i: u64 = 3;
    proof {
        assert(limit < 0x1_0000_0000) by (nonlinear_arith)
            requires
                limit * limit <= n,
                n < u64::MAX,
        ;
    }
    while i <= limit
        invariant
            3 <= i <= limit + 2,
            i % 2 == 1,
            limit < 0x1_0000_0000,
            limit * limit <= n < (limit + 1) * (limit + 1),
            n % 2 == 1,
            forall|k: nat| 3 <= k < i && k % 2 == 1 ==> #[trigger] ((n as nat) % k) != 0,
        decreases limit + 2 - i,
    {
        if n % i == 0 {
            proof {
                assert(i < n) by (nonlinear_arith)
                    requires
                        3 <= i <= limit,
                        limit * limit <= n,
                ;
                assert((n as nat) % (i as nat) == 0);
            }
            return false;
        }
        i = i + 2;
    }
    proof {
        assert forall|d: nat| 2 <= d < n implies #[trigger] ((n as nat) % d) != 0 by {
            if (n as nat) % d == 0 {
                let e = small_divisor(n as nat, d);
                if e % 2 == 0 {
                    lemma_even_divisor(n as nat, e);
                }
                assert(e <= limit) by (nonlinear_arith)
                    requires
                        e * e <= n,
                        n < (limit + 1) * (limit + 1),
                ;
                assert(e >= 3);
                assert((n as nat) % e != 0);
            }
        }
    }
    true
}

} // verus!
