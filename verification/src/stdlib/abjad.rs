//! Abjad numerals of single characters and of strings, and the digital
//! root by repeated digit sums.
use vstd::prelude::*;
use crate::abjad::dr;
use crate::text::chars_of;

verus! {

/// The abjad value of a character, for the 28 letters and the common
/// variant forms of alif and ya.
pub open spec fn char_value_spec(c: char) -> Option<u32> {
    if c == 'ا' || c == 'أ' || c == 'إ' || c == 'آ' {
        Some(1)
    } else if c == 'ب' {
        Some(2)
    } else if c == 'ج' {
        Some(3)
    } else if c == 'د' {
        Some(4)
    } else if c == 'ه' {
        Some(5)
    } else if c == 'و' {
        Some(6)
    } else if c == 'ز' {
        Some(7)
    } else if c == 'ح' {
        Some(8)
    } else if c == 'ط' {
        Some(9)
    } else if c == 'ي' || c == 'ى' {
        Some(10)
    } else if c == 'ك' {
        Some(20)
    } else if c == 'ل' {
        Some(30)
    } else if c == 'م' {
        Some(40)
    } else if c == 'ن' {
        Some(50)
    } else if c == 'س' {
        Some(60)
    } else if c == 'ع' {
        Some(70)
    } else if c == 'ف' {
        Some(80)
    } else if c == 'ص' {
        Some(90)
    } else if c == 'ق' {
        Some(100)
    } else if c == 'ر' {
        Some(200)
    } else if c == 'ش' {
        Some(300)
    } else if c == 'ت' {
        Some(400)
    } else if c == 'ث' {
        Some(500)
    } else if c == 'خ' {
        Some(600)
    } else if c == 'ذ' {
        Some(700)
    } else if c == 'ض' {
        Some(800)
    } else if c == 'ظ' {
        Some(900)
    } else if c == 'غ' {
        Some(1000)
    } else {
        None
    }
}

/// Abjad value of a character, `None` for characters without one.
pub fn char_value(c: char) -> (r: Option<u32>)
    ensures
        r == char_value_spec(c),
{
    match c {
        'ا' | 'أ' | 'إ' | 'آ' => Some(1),
        'ب' => Some(2),
        'ج' => Some(3),
        'د' => Some(4),
        'ه' => Some(5),
        'و' => Some(6),
        'ز' => Some(7),
        'ح' => Some(8),
        'ط' => Some(9),
        'ي' | 'ى' => Some(10),
        'ك' => Some(20),
        'ل' => Some(30),
        'م' => Some(40),
        'ن' => Some(50),
        'س' => Some(60),
        'ع' => Some(70),
        'ف' => Some(80),
        'ص' => Some(90),
        'ق' => Some(100),
        'ر' => Some(200),
        'ش' => Some(300),
        'ت' => Some(400),
        'ث' => Some(500),
        'خ' => Some(600),
        'ذ' => Some(700),
        'ض' => Some(800),
        'ظ' => Some(900),
        'غ' => Some(1000),
        _ => None,
    }
}

/// Value of a character for summing: its abjad value, or 0.
pub open spec fn char_contribution(c: char) -> nat {
    match char_value_spec(c) {
        Some(v) => v as nat,
        None => 0,
    }
}

/// Sum of the abjad values of the characters of `s` that have one.
pub open spec fn string_value_spec(s: Seq<char>) -> nat
    decreases s.len(),
{
    if s.len() == 0 {
        0
    } else {
        string_value_spec(s.drop_last()) + char_contribution(s.last())
    }
}

proof fn lemma_string_value_prefix(s: Seq<char>, i: int)
    requires
        0 <= i <= s.len(),
    ensures
        string_value_spec(s.take(i)) <= string_value_spec(s),
    decreases s.len() - i,
{
    if i < s.len() {
        lemma_string_value_prefix(s, i + 1);
        assert(s.take(i + 1).drop_last() =~= s.take(i));
    } else {
        assert(s.take(i) =~= s);
    }
}

/// Abjad value of a string: the sum over its characters, which must fit
/// in `u32`.
pub fn string_value(s: &str) -> (r: u32)
    requires
        string_value_spec(s@) <= u32::MAX,
    ensures
        r == string_value_spec(s@),
{
    let chars = chars_of(s);
    let mut sum: u32 = 0;
    let mut i: usize = 0;
    while i < chars.len()
        invariant
            i <= chars@.len(),
            chars@ == s@,
            string_value_spec(s@) <= u32::MAX,
            sum == string_value_spec(chars@.take(i as int)),
        decreases chars@.len() - i,
    {
        proof {
            assert(chars@.take(i as int + 1).drop_last() =~= chars@.take(i as int));
            lemma_string_value_prefix(chars@, i as int + 1);
        }
        match char_value(chars[i]) {
            Some(v) => {
                sum = sum + v;
            },
            None => {},
        }
        i = i + 1;
    }
    proof {
        assert(chars@.take(i as int) =~= chars@);
    }
    sum
}

/// Digital root by repeated digit sums; equal to `dr(n)`.
pub fn digital_root(n: u32) -> (r: u32)
    ensures
        r == dr(n as nat),
{
    if n == 0 {
        return 0;
    }
    let ghost orig = n;
    let mut n = n;
    while n >= 10
        invariant
            1 <= n,
            n as int % 9 == orig as int % 9,
        decreases n,
    {
        let ghost start = n;
        let mut sum: u32 = 0;
        let ghost mut k: int = 0;
        while n > 0
            invariant
                start >= 10,
                sum as int + n as int + 9 * k == start as int,
                k >= 0,
                k >= 1 || n == start,
                n > 0 || sum > 0,
            decreases n,
        {
            let q = n / 10;
            let d = n % 10;
            proof {
                assert(n as int == 10 * q as int + d as int);
                if n == start {
                    assert(q >= 1);
                }
            }
            sum = sum + d;
            n = q;
            proof {
                k = k + q as int;
            }
        }
        proof {
            assert(sum as int % 9 == start as int % 9) by (nonlinear_arith)
                requires
                    sum as int + 9 * k == start as int,
            ;
        }
        n = sum;
    }
    proof {
        assert(dr(orig as nat) == ((orig - 1) as nat % 9) + 1);
        assert((orig as int - 1) % 9 == n as int - 1) by (nonlinear_arith)
            requires
                1 <= n <= 9,
                n as int % 9 == orig as int % 9,
                orig >= 1,
        ;
    }
    n
}

} // verus!
