//! Abjad numerals (Hisab al-Jummal): the 28 Arabic letters valued 1–1000,
//! word and text sums, decimal closure (×10ᵏ), digital roots and
//! checksums, exact decimal money, an index of texts by their value, per-word
//! compression, a three-modulus checksum with CRT reconstruction, and the
//! dual abjad/alphabetical (hijai) character.
//!
//! This is a numerical encoding, not semantic analysis: different words may
//! share a sum.
use vstd::prelude::*;
use crate::lexer::{char_is_whitespace, skip_ws, unicode_whitespace};
use crate::text::chars_of;

verus! {

/// Abjad value (traditionally 1–1000).
#[derive(Debug, Clone, Copy, PartialEq, Eq, PartialOrd, Ord, Hash, Structural)]
pub struct AbjadValue(pub u32);

impl AbjadValue {
    /// Create a value, which must lie in 1..=1000.
    pub fn new(value: u32) -> (r: Option<Self>)
        ensures
            r == (if 1 <= value <= 1000 { Some(AbjadValue(value)) } else { None::<AbjadValue> }),
    {
        if value >= 1 && value <= 1000 {
            Some(AbjadValue(value))
        } else {
            None
        }
    }

    /// Unchecked constructor.
    pub fn unchecked(value: u32) -> (r: Self)
        ensures
            r == AbjadValue(value),
    {
        AbjadValue(value)
    }

    /// The raw value.
    pub fn value(&self) -> (v: u32)
        ensures
            v == self.0,
    {
        self.0
    }

    /// Sum of two values; the sum must fit in `u32`.
    pub fn add(self, other: Self) -> (r: Self)
        requires
            self.0 + other.0 <= u32::MAX,
        ensures
            r.0 == self.0 + other.0,
    {
        AbjadValue(self.0 + other.0)
    }
}

/// Value of a character: the 28 letters (with the alif, ya and kaf
/// variants), zero for space, tab and newline, none otherwise.
pub open spec fn letter_value(c: char) -> Option<u32> {
    match c {
        'ا' | 'أ' | 'إ' | 'آ' => Some(1u32),
        'ب' => Some(2u32),
        'ج' => Some(3u32),
        'د' => Some(4u32),
        'ه' => Some(5u32),
        'و' => Some(6u32),
        'ز' => Some(7u32),
        'ح' => Some(8u32),
        'ط' => Some(9u32),
        'ي' | 'ى' => Some(10u32),
        'ك' | 'ک' => Some(20u32),
        'ل' => Some(30u32),
        'م' => Some(40u32),
        'ن' => Some(50u32),
        'س' => Some(60u32),
        'ع' => Some(70u32),
        'ف' => Some(80u32),
        'ص' => Some(90u32),
        'ق' => Some(100u32),
        'ر' => Some(200u32),
        'ش' => Some(300u32),
        'ت' => Some(400u32),
        'ث' => Some(500u32),
        'خ' => Some(600u32),
        'ذ' => Some(700u32),
        'ض' => Some(800u32),
        'ظ' => Some(900u32),
        'غ' => Some(1000u32),
        ' ' | '\t' | '\n' => Some(0u32),
        _ => None,
    }
}

/// Abjad value of an Arabic letter.
pub fn abjad_letter(c: char) -> (r: Option<u32>)
    ensures
        r == letter_value(c),
{
    match c {
        'ا' | 'أ' | 'إ' | 'آ' => Some(1u32),
        'ب' => Some(2u32),
        'ج' => Some(3u32),
        'د' => Some(4u32),
        'ه' => Some(5u32),
        'و' => Some(6u32),
        'ز' => Some(7u32),
        'ح' => Some(8u32),
        'ط' => Some(9u32),
        'ي' | 'ى' => Some(10u32),
        'ك' | 'ک' => Some(20u32),
        'ل' => Some(30u32),
        'م' => Some(40u32),
        'ن' => Some(50u32),
        'س' => Some(60u32),
        'ع' => Some(70u32),
        'ف' => Some(80u32),
        'ص' => Some(90u32),
        'ق' => Some(100u32),
        'ر' => Some(200u32),
        'ش' => Some(300u32),
        'ت' => Some(400u32),
        'ث' => Some(500u32),
        'خ' => Some(600u32),
        'ذ' => Some(700u32),
        'ض' => Some(800u32),
        'ظ' => Some(900u32),
        'غ' => Some(1000u32),
        ' ' | '\t' | '\n' => Some(0u32),
        _ => None,
    }
}

/// The 28 letters in their traditional abjad order, the order of the
/// mnemonic أبجد هوز حطي كلمن سعفص قرشت ثخذ ضظغ.
pub open spec fn abjad_order() -> Seq<char> {
    "ابجدهوزحطيكلمنسعفصقرشتثخذضظغ"@
}

/// The value of the letter at place `i` of the abjad order: the units 1..9,
/// then the tens 10..90, the hundreds 100..900, and 1000.
pub open spec fn place_value(i: int) -> int {
    ((i % 9) + 1) * pow10((i / 9) as nat)
}

/// The abjad numerals are positional: the letter at place `i` of the
/// traditional order is worth `place_value(i)`, so the 28 letters take the
/// 28 values 1..9, 10..90, 100..900 and 1000.
pub proof fn law_abjad_numerals()
    ensures
        abjad_order().len() == 28,
        forall|i: int| 0 <= i < 28 ==> #[trigger] letter_value(abjad_order()[i]) == Some(place_value(i) as u32),
{
    reveal_strlit("ابجدهوزحطيكلمنسعفصقرشتثخذضظغ");
    let order = abjad_order();
    assert(pow10(0) == 1 && pow10(1) == 10 && pow10(2) == 100 && pow10(3) == 1000) by {
        reveal_with_fuel(pow10, 4);
    }
    assert forall|i: int| 0 <= i < 28 implies #[trigger] letter_value(abjad_order()[i]) == Some(place_value(i) as u32) by {
        if i == 0 {
            assert(order[0] == 'ا');
            assert(place_value(0) == 1) by {
                assert(0int / 9 == 0 && 0int % 9 == 0);
                reveal_with_fuel(pow10, 4);
                assert(pow10(0) == 1);
            }
            assert(letter_value('ا') == Some(1u32));
        }
        if i == 1 {
            assert(order[1] == 'ب');
            assert(place_value(1) == 2) by {
                assert(1int / 9 == 0 && 1int % 9 == 1);
                reveal_with_fuel(pow10, 4);
                assert(pow10(0) == 1);
            }
            assert(letter_value('ب') == Some(2u32));
        }
        if i == 2 {
            assert(order[2] == 'ج');
            assert(place_value(2) == 3) by {
                assert(2int / 9 == 0 && 2int % 9 == 2);
                reveal_with_fuel(pow10, 4);
                assert(pow10(0) == 1);
            }
            assert(letter_value('ج') == Some(3u32));
        }
        if i == 3 {
            assert(order[3] == 'د');
            assert(place_value(3) == 4) by {
                assert(3int / 9 == 0 && 3int % 9 == 3);
                reveal_with_fuel(pow10, 4);
                assert(pow10(0) == 1);
            }
            assert(letter_value('د') == Some(4u32));
        }
        if i == 4 {
            assert(order[4] == 'ه');
            assert(place_value(4) == 5) by {
                assert(4int / 9 == 0 && 4int % 9 == 4);
                reveal_with_fuel(pow10, 4);
                assert(pow10(0) == 1);
            }
            assert(letter_value('ه') == Some(5u32));
        }
        if i == 5 {
            assert(order[5] == 'و');
            assert(place_value(5) == 6) by {
                assert(5int / 9 == 0 && 5int % 9 == 5);
                reveal_with_fuel(pow10, 4);
                assert(pow10(0) == 1);
            }
            assert(letter_value('و') == Some(6u32));
        }
        if i == 6 {
            assert(order[6] == 'ز');
            assert(place_value(6) == 7) by {
                assert(6int / 9 == 0 && 6int % 9 == 6);
                reveal_with_fuel(pow10, 4);
                assert(pow10(0) == 1);
            }
            assert(letter_value('ز') == Some(7u32));
        }
        if i == 7 {
            assert(order[7] == 'ح');
            assert(place_value(7) == 8) by {
                assert(7int / 9 == 0 && 7int % 9 == 7);
                reveal_with_fuel(pow10, 4);
                assert(pow10(0) == 1);
            }
            assert(letter_value('ح') == Some(8u32));
        }
        if i == 8 {
            assert(order[8] == 'ط');
            assert(place_value(8) == 9) by {
                assert(8int / 9 == 0 && 8int % 9 == 8);
                reveal_with_fuel(pow10, 4);
                assert(pow10(0) == 1);
            }
            assert(letter_value('ط') == Some(9u32));
        }
        if i == 9 {
            assert(order[9] == 'ي');
            assert(place_value(9) == 10) by {
                assert(9int / 9 == 1 && 9int % 9 == 0);
                reveal_with_fuel(pow10, 4);
                assert(pow10(1) == 10);
            }
            assert(letter_value('ي') == Some(10u32));
        }
        if i == 10 {
            assert(order[10] == 'ك');
            assert(place_value(10) == 20) by {
                assert(10int / 9 == 1 && 10int % 9 == 1);
                reveal_with_fuel(pow10, 4);
                assert(pow10(1) == 10);
            }
            assert(letter_value('ك') == Some(20u32));
        }
        if i == 11 {
            assert(order[11] == 'ل');
            assert(place_value(11) == 30) by {
                assert(11int / 9 == 1 && 11int % 9 == 2);
                reveal_with_fuel(pow10, 4);
                assert(pow10(1) == 10);
            }
            assert(letter_value('ل') == Some(30u32));
        }
        if i == 12 {
            assert(order[12] == 'م');
            assert(place_value(12) == 40) by {
                assert(12int / 9 == 1 && 12int % 9 == 3);
                reveal_with_fuel(pow10, 4);
                assert(pow10(1) == 10);
            }
            assert(letter_value('م') == Some(40u32));
        }
        if i == 13 {
            assert(order[13] == 'ن');
            assert(place_value(13) == 50) by {
                assert(13int / 9 == 1 && 13int % 9 == 4);
                reveal_with_fuel(pow10, 4);
                assert(pow10(1) == 10);
            }
            assert(letter_value('ن') == Some(50u32));
        }
        if i == 14 {
            assert(order[14] == 'س');
            assert(place_value(14) == 60) by {
                assert(14int / 9 == 1 && 14int % 9 == 5);
                reveal_with_fuel(pow10, 4);
                assert(pow10(1) == 10);
            }
            assert(letter_value('س') == Some(60u32));
        }
        if i == 15 {
            assert(order[15] == 'ع');
            assert(place_value(15) == 70) by {
                assert(15int / 9 == 1 && 15int % 9 == 6);
                reveal_with_fuel(pow10, 4);
                assert(pow10(1) == 10);
            }
            assert(letter_value('ع') == Some(70u32));
        }
        if i == 16 {
            assert(order[16] == 'ف');
            assert(place_value(16) == 80) by {
                assert(16int / 9 == 1 && 16int % 9 == 7);
                reveal_with_fuel(pow10, 4);
                assert(pow10(1) == 10);
            }
            assert(letter_value('ف') == Some(80u32));
        }
        if i == 17 {
            assert(order[17] == 'ص');
            assert(place_value(17) == 90) by {
                assert(17int / 9 == 1 && 17int % 9 == 8);
                reveal_with_fuel(pow10, 4);
                assert(pow10(1) == 10);
            }
            assert(letter_value('ص') == Some(90u32));
        }
        if i == 18 {
            assert(order[18] == 'ق');
            assert(place_value(18) == 100) by {
                assert(18int / 9 == 2 && 18int % 9 == 0);
                reveal_with_fuel(pow10, 4);
                assert(pow10(2) == 100);
            }
            assert(letter_value('ق') == Some(100u32));
        }
        if i == 19 {
            assert(order[19] == 'ر');
            assert(place_value(19) == 200) by {
                assert(19int / 9 == 2 && 19int % 9 == 1);
                reveal_with_fuel(pow10, 4);
                assert(pow10(2) == 100);
            }
            assert(letter_value('ر') == Some(200u32));
        }
        if i == 20 {
            assert(order[20] == 'ش');
            assert(place_value(20) == 300) by {
                assert(20int / 9 == 2 && 20int % 9 == 2);
                reveal_with_fuel(pow10, 4);
                assert(pow10(2) == 100);
            }
            assert(letter_value('ش') == Some(300u32));
        }
        if i == 21 {
            assert(order[21] == 'ت');
            assert(place_value(21) == 400) by {
                assert(21int / 9 == 2 && 21int % 9 == 3);
                reveal_with_fuel(pow10, 4);
                assert(pow10(2) == 100);
            }
            assert(letter_value('ت') == Some(400u32));
        }
        if i == 22 {
            assert(order[22] == 'ث');
            assert(place_value(22) == 500) by {
                assert(22int / 9 == 2 && 22int % 9 == 4);
                reveal_with_fuel(pow10, 4);
                assert(pow10(2) == 100);
            }
            assert(letter_value('ث') == Some(500u32));
        }
        if i == 23 {
            assert(order[23] == 'خ');
            assert(place_value(23) == 600) by {
                assert(23int / 9 == 2 && 23int % 9 == 5);
                reveal_with_fuel(pow10, 4);
                assert(pow10(2) == 100);
            }
            assert(letter_value('خ') == Some(600u32));
        }
        if i == 24 {
            assert(order[24] == 'ذ');
            assert(place_value(24) == 700) by {
                assert(24int / 9 == 2 && 24int % 9 == 6);
                reveal_with_fuel(pow10, 4);
                assert(pow10(2) == 100);
            }
            assert(letter_value('ذ') == Some(700u32));
        }
        if i == 25 {
            assert(order[25] == 'ض');
            assert(place_value(25) == 800) by {
                assert(25int / 9 == 2 && 25int % 9 == 7);
                reveal_with_fuel(pow10, 4);
                assert(pow10(2) == 100);
            }
            assert(letter_value('ض') == Some(800u32));
        }
        if i == 26 {
            assert(order[26] == 'ظ');
            assert(place_value(26) == 900) by {
                assert(26int / 9 == 2 && 26int % 9 == 8);
                reveal_with_fuel(pow10, 4);
                assert(pow10(2) == 100);
            }
            assert(letter_value('ظ') == Some(900u32));
        }
        if i == 27 {
            assert(order[27] == 'غ');
            assert(place_value(27) == 1000) by {
                assert(27int / 9 == 3 && 27int % 9 == 0);
                reveal_with_fuel(pow10, 4);
                assert(pow10(3) == 1000);
            }
            assert(letter_value('غ') == Some(1000u32));
        }
    }
}

/// Later places of the abjad order are worth more.
proof fn lemma_place_value_increasing(i: int, j: int)
    requires
        0 <= i < j < 28,
    ensures
        0 < place_value(i) < place_value(j) <= 1000,
{
    assert(pow10(0) == 1 && pow10(1) == 10 && pow10(2) == 100 && pow10(3) == 1000) by {
        reveal_with_fuel(pow10, 4);
    }
    let ki = i / 9;
    let kj = j / 9;
    assert(0 <= ki <= kj <= 3);
    assert(i == 9 * ki + i % 9 && j == 9 * kj + j % 9);
    assert(1 <= place_value(i) <= 9 * pow10(ki as nat)) by {
        if ki == 0 {
            assert(place_value(i) == (i % 9 + 1) * 1);
        } else if ki == 1 {
            assert(place_value(i) == (i % 9 + 1) * 10);
        } else if ki == 2 {
            assert(place_value(i) == (i % 9 + 1) * 100);
        } else {
            assert(place_value(i) == (i % 9 + 1) * 1000);
        }
    }
    assert(pow10(kj as nat) <= place_value(j) <= 1000) by {
        if kj == 0 {
            assert(place_value(j) == (j % 9 + 1) * 1);
        } else if kj == 1 {
            assert(place_value(j) == (j % 9 + 1) * 10);
        } else if kj == 2 {
            assert(place_value(j) == (j % 9 + 1) * 100);
        } else {
            assert(j == 27);
            assert(place_value(j) == (j % 9 + 1) * 1000);
        }
    }
    if ki == kj {
        assert(i % 9 < j % 9);
        if ki == 0 {
            assert(place_value(i) == (i % 9 + 1) * 1 && place_value(j) == (j % 9 + 1) * 1);
        } else if ki == 1 {
            assert(place_value(i) == (i % 9 + 1) * 10 && place_value(j) == (j % 9 + 1) * 10);
        } else if ki == 2 {
            assert(place_value(i) == (i % 9 + 1) * 100 && place_value(j) == (j % 9 + 1) * 100);
        } else {
            assert(place_value(i) == (i % 9 + 1) * 1000 && place_value(j) == (j % 9 + 1) * 1000);
        }
    } else {
        assert(9 * pow10(ki as nat) < pow10(kj as nat)) by {
            if ki == 0 {
            } else if ki == 1 {
            } else {
            }
        }
    }
}

/// The letter forms that share a value: the alif with hamza or madda, the
/// alif maqsura as ya, the Persian kaf as kaf.
pub open spec fn letter_form_of(c: char) -> char {
    if c == 'أ' || c == 'إ' || c == 'آ' {
        'ا'
    } else if c == 'ى' {
        'ي'
    } else if c == 'ک' {
        'ك'
    } else {
        c
    }
}

/// Only letters count: a character has a value exactly when it is one of
/// the 28 letters of the abjad order or one of their other forms, which
/// are worth the same, or a space, tab or newline, which are worth 0.
pub proof fn law_abjad_letters_only(c: char)
    ensures
        letter_value(c) is Some <==> abjad_order().contains(letter_form_of(c)) || c == ' ' || c == '\t' || c == '\n',
        letter_value(c) == letter_value(letter_form_of(c)),
        (c == ' ' || c == '\t' || c == '\n') ==> letter_value(c) == Some(0u32),
{
    reveal_strlit("ابجدهوزحطيكلمنسعفصقرشتثخذضظغ");
    let order = abjad_order();
    let f = letter_form_of(c);
    if order.contains(f) {
        let k = choose|k: int| 0 <= k < order.len() && order[k] == f;
        if k == 0 {
            assert(f == 'ا');
        }
        if k == 1 {
            assert(f == 'ب');
        }
        if k == 2 {
            assert(f == 'ج');
        }
        if k == 3 {
            assert(f == 'د');
        }
        if k == 4 {
            assert(f == 'ه');
        }
        if k == 5 {
            assert(f == 'و');
        }
        if k == 6 {
            assert(f == 'ز');
        }
        if k == 7 {
            assert(f == 'ح');
        }
        if k == 8 {
            assert(f == 'ط');
        }
        if k == 9 {
            assert(f == 'ي');
        }
        if k == 10 {
            assert(f == 'ك');
        }
        if k == 11 {
            assert(f == 'ل');
        }
        if k == 12 {
            assert(f == 'م');
        }
        if k == 13 {
            assert(f == 'ن');
        }
        if k == 14 {
            assert(f == 'س');
        }
        if k == 15 {
            assert(f == 'ع');
        }
        if k == 16 {
            assert(f == 'ف');
        }
        if k == 17 {
            assert(f == 'ص');
        }
        if k == 18 {
            assert(f == 'ق');
        }
        if k == 19 {
            assert(f == 'ر');
        }
        if k == 20 {
            assert(f == 'ش');
        }
        if k == 21 {
            assert(f == 'ت');
        }
        if k == 22 {
            assert(f == 'ث');
        }
        if k == 23 {
            assert(f == 'خ');
        }
        if k == 24 {
            assert(f == 'ذ');
        }
        if k == 25 {
            assert(f == 'ض');
        }
        if k == 26 {
            assert(f == 'ظ');
        }
        if k == 27 {
            assert(f == 'غ');
        }
    }
    if letter_value(c) is Some && !(c == ' ' || c == '\t' || c == '\n') {
        if f == 'ا' {
            assert(order[0] == 'ا');
        }
        if f == 'ب' {
            assert(order[1] == 'ب');
        }
        if f == 'ج' {
            assert(order[2] == 'ج');
        }
        if f == 'د' {
            assert(order[3] == 'د');
        }
        if f == 'ه' {
            assert(order[4] == 'ه');
        }
        if f == 'و' {
            assert(order[5] == 'و');
        }
        if f == 'ز' {
            assert(order[6] == 'ز');
        }
        if f == 'ح' {
            assert(order[7] == 'ح');
        }
        if f == 'ط' {
            assert(order[8] == 'ط');
        }
        if f == 'ي' {
            assert(order[9] == 'ي');
        }
        if f == 'ك' {
            assert(order[10] == 'ك');
        }
        if f == 'ل' {
            assert(order[11] == 'ل');
        }
        if f == 'م' {
            assert(order[12] == 'م');
        }
        if f == 'ن' {
            assert(order[13] == 'ن');
        }
        if f == 'س' {
            assert(order[14] == 'س');
        }
        if f == 'ع' {
            assert(order[15] == 'ع');
        }
        if f == 'ف' {
            assert(order[16] == 'ف');
        }
        if f == 'ص' {
            assert(order[17] == 'ص');
        }
        if f == 'ق' {
            assert(order[18] == 'ق');
        }
        if f == 'ر' {
            assert(order[19] == 'ر');
        }
        if f == 'ش' {
            assert(order[20] == 'ش');
        }
        if f == 'ت' {
            assert(order[21] == 'ت');
        }
        if f == 'ث' {
            assert(order[22] == 'ث');
        }
        if f == 'خ' {
            assert(order[23] == 'خ');
        }
        if f == 'ذ' {
            assert(order[24] == 'ذ');
        }
        if f == 'ض' {
            assert(order[25] == 'ض');
        }
        if f == 'ظ' {
            assert(order[26] == 'ظ');
        }
        if f == 'غ' {
            assert(order[27] == 'غ');
        }
    }
}

/// The 28 letters of the abjad order have 28 distinct values.
pub proof fn law_abjad_values_distinct()
    ensures
        forall|i: int, j: int|
            0 <= i < 28 && 0 <= j < 28 && i != j ==> #[trigger] letter_value(abjad_order()[i]) != #[trigger] letter_value(
                abjad_order()[j],
            ),
{
    law_abjad_numerals();
    assert(pow10(0) == 1 && pow10(1) == 10 && pow10(2) == 100 && pow10(3) == 1000) by {
        reveal_with_fuel(pow10, 4);
    }
    assert forall|i: int, j: int| 0 <= i < 28 && 0 <= j < 28 && i != j implies #[trigger] letter_value(abjad_order()[i])
        != #[trigger] letter_value(abjad_order()[j]) by {
        assert(letter_value(abjad_order()[i]) == Some(place_value(i) as u32));
        assert(letter_value(abjad_order()[j]) == Some(place_value(j) as u32));
        if i < j {
            lemma_place_value_increasing(i, j);
        } else {
            lemma_place_value_increasing(j, i);
        }
    }
}

/// Sum of the letter values of `s`; characters without a value count 0.
pub open spec fn abjad_sum(s: Seq<char>) -> nat
    decreases s.len(),
{
    if s.len() == 0 {
        0
    } else {
        abjad_sum(s.drop_last()) + match letter_value(s.last()) {
            Some(v) => v as nat,
            None => 0,
        }
    }
}

proof fn lemma_abjad_sum_prefix(s: Seq<char>, j: int, k: int, e: int)
    requires
        0 <= j <= k <= e <= s.len(),
    ensures
        abjad_sum(s.subrange(j, k)) <= abjad_sum(s.subrange(j, e)),
    decreases e - k,
{
    if k < e {
        lemma_abjad_sum_prefix(s, j, k, e - 1);
        assert(s.subrange(j, e).drop_last() =~= s.subrange(j, e - 1));
    }
}

/// Sum of the values of `s[j..k]`, which must fit in `u32`.
fn sum_range(s: &Vec<char>, j: usize, k: usize) -> (r: u32)
    requires
        j <= k <= s@.len(),
        abjad_sum(s@.subrange(j as int, k as int)) <= u32::MAX,
    ensures
        r == abjad_sum(s@.subrange(j as int, k as int)),
{
    let mut sum: u32 = 0;
    let mut i = j;
    while i < k
        invariant
            j <= i <= k <= s@.len(),
            abjad_sum(s@.subrange(j as int, k as int)) <= u32::MAX,
            sum == abjad_sum(s@.subrange(j as int, i as int)),
        decreases k - i,
    {
        proof {
            lemma_abjad_sum_prefix(s@, j as int, i as int + 1, k as int);
            assert(s@.subrange(j as int, i as int + 1).drop_last() =~= s@.subrange(j as int, i as int));
        }
        match abjad_letter(s[i]) {
            Some(v) => {
                sum = sum + v;
            },
            None => {},
        }
        i = i + 1;
    }
    sum
}

/// Abjad value of a text: the sum of its letters, which must fit in `u32`.
pub fn abjad_value(text: &str) -> (r: AbjadValue)
    requires
        abjad_sum(text@) <= u32::MAX,
    ensures
        r.0 == abjad_sum(text@),
{
    let chars = chars_of(text);
    proof {
        assert(chars@.subrange(0, chars@.len() as int) =~= chars@);
    }
    AbjadValue(sum_range(&chars, 0, chars.len()))
}

/// The whole text as one value (different words may collide).
pub fn compress_to_abjad(text: &str) -> (r: AbjadValue)
    requires
        abjad_sum(text@) <= u32::MAX,
    ensures
        r.0 == abjad_sum(text@),
{
    abjad_value(text)
}

/// First index at or after `i` holding whitespace, or `s.len()`.
pub open spec fn word_end(s: Seq<char>, i: int) -> int
    decreases s.len() - i,
{
    if 0 <= i < s.len() && !unicode_whitespace(s[i]) {
        word_end(s, i + 1)
    } else {
        i
    }
}

/// The words of `s` from index `i`: maximal runs of non-whitespace
/// characters, as `str::split_whitespace` yields them.
pub open spec fn words_from(s: Seq<char>, i: int) -> Seq<Seq<char>>
    decreases s.len() - i,
    when 0 <= i
{
    let j = skip_ws(s, i);
    if j >= s.len() {
        Seq::empty()
    } else {
        proof {
            crate::lexer::lemma_skip_ws(s, i);
            lemma_word_end(s, j);
        }
        seq![s.subrange(j, word_end(s, j))] + words_from(s, word_end(s, j))
    }
}

/// The words of `s`.
pub open spec fn words(s: Seq<char>) -> Seq<Seq<char>> {
    words_from(s, 0)
}

/// The abjad sums of the words of `s`.
pub open spec fn word_sums(s: Seq<char>) -> Seq<nat> {
    words(s).map_values(|w: Seq<char>| abjad_sum(w))
}

/// Every word of `s` has a sum that fits in `u32`.
pub open spec fn words_fit(s: Seq<char>) -> bool {
    forall|k: int| 0 <= k < words(s).len() ==> abjad_sum(#[trigger] words(s)[k]) <= u32::MAX
}

pub proof fn lemma_word_end(s: Seq<char>, i: int)
    requires
        0 <= i <= s.len(),
    ensures
        i <= word_end(s, i) <= s.len(),
        word_end(s, i) < s.len() ==> unicode_whitespace(s[word_end(s, i)]),
        i < s.len() && !unicode_whitespace(s[i]) ==> i < word_end(s, i),
    decreases s.len() - i,
{
    if i < s.len() && !unicode_whitespace(s[i]) {
        lemma_word_end(s, i + 1);
    }
}

/// Per-word abjad values, for the words that `str::split_whitespace` yields.
pub fn compress_words(text: &str) -> (r: Vec<AbjadValue>)
    requires
        words_fit(text@),
    ensures
        r@.len() == words(text@).len(),
        forall|k: int| 0 <= k < r@.len() ==> #[trigger] r@[k].0 == abjad_sum(words(text@)[k]),
{
    let chars = chars_of(text);
    let ghost s = chars@;
    let mut out: Vec<AbjadValue> = Vec::new();
    let mut i: usize = 0;
    loop
        invariant
            i <= s.len(),
            s == chars@,
            s == text@,
            words_fit(s),
            out@.len() + words_from(s, i as int).len() == words(s).len(),
            forall|k: int| 0 <= k < out@.len() ==> #[trigger] out@[k].0 == abjad_sum(words(s)[k]),
            forall|k: int|
                0 <= k < words_from(s, i as int).len() ==> #[trigger] words_from(s, i as int)[k] == words(s)[out@.len() + k],
        decreases s.len() - i,
    {
        let ghost i0 = i as int;
        while i < chars.len() && char_is_whitespace(chars[i])
            invariant
                i0 <= i <= s.len(),
                s == chars@,
                skip_ws(s, i as int) == skip_ws(s, i0),
            decreases s.len() - i,
        {
            i = i + 1;
        }
        proof {
            crate::lexer::lemma_skip_ws(s, i0);
        }
        if i >= chars.len() {
            return out;
        }
        let j = i;
        proof {
            lemma_word_end(s, j as int);
        }
        while i < chars.len() && !char_is_whitespace(chars[i])
            invariant
                j <= i <= s.len(),
                s == chars@,
                word_end(s, i as int) == word_end(s, j as int),
            decreases s.len() - i,
        {
            i = i + 1;
        }
        proof {
            let w = s.subrange(j as int, i as int);
            assert(words_from(s, i0) == seq![w] + words_from(s, i as int));
            assert(words_from(s, i0)[0] == w);
            assert(words(s)[out@.len() as int] == w);
            assert forall|k: int| 0 <= k < words_from(s, i as int).len() implies #[trigger] words_from(s, i as int)[k]
                == words(s)[out@.len() + 1 + k] by {
                assert(words_from(s, i0)[k + 1] == words_from(s, i as int)[k]);
            }
        }
        let v = sum_range(&chars, j, i);
        out.push(AbjadValue(v));
    }
}


// ─── Decimal closure ──────────────────────────────────────────────────

/// 10 to the power `k`.
pub open spec fn pow10(k: nat) -> nat
    decreases k,
{
    if k == 0 {
        1
    } else {
        10 * pow10((k - 1) as nat)
    }
}

/// A value in 1..=1000 as an `AbjadValue`, else nothing.
pub open spec fn in_range(v: int) -> Option<AbjadValue> {
    if 1 <= v <= 1000 {
        Some(AbjadValue(v as u32))
    } else {
        None
    }
}

proof fn lemma_pow10_small()
    ensures
        pow10(0) == 1,
        pow10(1) == 10,
        pow10(2) == 100,
        pow10(3) == 1000,
        pow10(4) == 10000,
{
    reveal_with_fuel(pow10, 5);
}

proof fn lemma_pow10_positive(k: nat)
    ensures
        pow10(k) >= 1,
    decreases k,
{
    if k > 0 {
        lemma_pow10_positive((k - 1) as nat);
    }
}

proof fn lemma_pow10_add(a: nat, b: nat)
    ensures
        pow10(a + b) == pow10(a) * pow10(b),
    decreases b,
{
    if b == 0 {
        assert(pow10(0) == 1);
        assert(a + b == a);
    } else {
        lemma_pow10_add(a, (b - 1) as nat);
        assert((a + b - 1) as nat == a + (b - 1) as nat);
        assert(pow10(a + b) == 10 * pow10((a + b - 1) as nat));
        assert(pow10(a) * pow10(b) == pow10(a) * (10 * pow10((b - 1) as nat)));
        assert(pow10(a) * (10 * pow10((b - 1) as nat)) == 10 * (pow10(a) * pow10((b - 1) as nat))) by (nonlinear_arith);
    }
}

/// Decimal closure: multiplication and division by powers of ten.
pub struct DecimalClosure;

impl DecimalClosure {
    /// Multiply by 10^k (k ∈ {0,1,2,3}); `None` for another `k` or when the
    /// product leaves 1..=1000. The product itself must fit in `u32`.
    pub fn multiply_power(value: AbjadValue, k: u8) -> (r: Option<AbjadValue>)
        requires
            k <= 3 ==> value.0 * pow10(k as nat) <= u32::MAX,
        ensures
            r == (if k <= 3 { in_range(value.0 * pow10(k as nat)) } else { None::<AbjadValue> }),
    {
        proof {
            lemma_pow10_small();
        }
        let factor: u32 = match k {
            0 => 1,
            1 => 10,
            2 => 100,
            3 => 1000,
            _ => {
                return None;
            },
        };
        assert(factor == pow10(k as nat));
        let result = value.0 * factor;
        AbjadValue::new(result)
    }

    /// Multiply by 10.
    pub fn times_10(value: AbjadValue) -> (r: Option<AbjadValue>)
        requires
            value.0 * 10 <= u32::MAX,
        ensures
            r == in_range(value.0 * 10),
    {
        proof {
            lemma_pow10_small();
        }
        Self::multiply_power(value, 1)
    }

    /// Multiply by 100.
    pub fn times_100(value: AbjadValue) -> (r: Option<AbjadValue>)
        requires
            value.0 * 100 <= u32::MAX,
        ensures
            r == in_range(value.0 * 100),
    {
        proof {
            lemma_pow10_small();
        }
        Self::multiply_power(value, 2)
    }

    /// Multiply by 1000.
    pub fn times_1000(value: AbjadValue) -> (r: Option<AbjadValue>)
        requires
            value.0 * 1000 <= u32::MAX,
        ensures
            r == in_range(value.0 * 1000),
    {
        proof {
            lemma_pow10_small();
        }
        Self::multiply_power(value, 3)
    }

    /// Divide by 10^k (k ∈ {0,1,2,3}) when it divides exactly and the
    /// quotient lies in 1..=1000.
    pub fn divide_power(value: AbjadValue, k: u8) -> (r: Option<AbjadValue>)
        ensures
            r == (if k <= 3 && (value.0 as int) % (pow10(k as nat) as int) == 0 {
                in_range((value.0 as int) / (pow10(k as nat) as int))
            } else {
                None::<AbjadValue>
            }),
    {
        proof {
            lemma_pow10_small();
        }
        let divisor: u32 = match k {
            0 => 1,
            1 => 10,
            2 => 100,
            3 => 1000,
            _ => {
                return None;
            },
        };
        if value.0 % divisor == 0 {
            AbjadValue::new(value.0 / divisor)
        } else {
            None
        }
    }

    /// Whether `value` lies in the decimal closure of `base`: `base` is
    /// nonzero and `value = base · 10^k` for some `k ≥ 0`.
    pub fn is_closure_of(value: AbjadValue, base: AbjadValue) -> (r: bool)
        ensures
            r == (base.0 != 0 && exists|k: nat| value.0 == base.0 * #[trigger] pow10(k)),
    {
        if base.0 == 0 {
            return false;
        }
        let mut v = value.0;
        let ghost mut i: nat = 0;
        assert(pow10(0) == 1);
        loop
            invariant
                base.0 != 0,
                value.0 == v * pow10(i),
                forall|j: nat| j < i ==> value.0 != base.0 * #[trigger] pow10(j),
            decreases v,
        {
            if v == base.0 {
                assert(value.0 == base.0 * pow10(i));
                return true;
            }
            if v == 0 || v % 10 != 0 {
                proof {
                    lemma_pow10_positive(i);
                    assert forall|j: nat| value.0 != base.0 * #[trigger] pow10(j) by {
                        if j > i {
                            let d = (j - i) as nat;
                            lemma_pow10_add(i, d);
                            lemma_pow10_positive(d);
                            if value.0 == base.0 * pow10(j) {
                                assert(v == base.0 * pow10(d)) by (nonlinear_arith)
                                    requires
                                        value.0 == v * pow10(i),
                                        value.0 == base.0 * (pow10(i) * pow10(d)),
                                        pow10(i) >= 1,
                                ;
                                assert(pow10(d) == 10 * pow10((d - 1) as nat));
                                assert(v == (base.0 * pow10((d - 1) as nat)) * 10) by (nonlinear_arith)
                                    requires
                                        v == base.0 * pow10(d),
                                        pow10(d) == 10 * pow10((d - 1) as nat),
                                ;
                                assert(v > 0) by (nonlinear_arith)
                                    requires
                                        v == base.0 * pow10(d),
                                        base.0 >= 1,
                                        pow10(d) >= 1,
                                ;
                            }
                        } else if j == i {
                            if value.0 == base.0 * pow10(j) {
                                assert(v == base.0) by (nonlinear_arith)
                                    requires
                                        value.0 == v * pow10(i),
                                        value.0 == base.0 * pow10(i),
                                        pow10(i) >= 1,
                                ;
                            }
                        }
                    }
                }
                return false;
            }
            let ghost old_v = v;
            v = v / 10;
            proof {
                lemma_pow10_positive(i);
                assert(value.0 != base.0 * pow10(i)) by (nonlinear_arith)
                    requires
                        value.0 == old_v * pow10(i),
                        old_v != base.0,
                        pow10(i) >= 1,
                ;
                i = i + 1;
                assert(pow10(i) == 10 * pow10((i - 1) as nat));
                assert(old_v == v * 10);
                assert(value.0 == v * pow10(i)) by (nonlinear_arith)
                    requires
                        value.0 == old_v * pow10((i - 1) as nat),
                        old_v == v * 10,
                        pow10(i) == 10 * pow10((i - 1) as nat),
                ;
            }
        }
    }
}

// ─── Digital root and checksums ───────────────────────────────────────

/// Digital root: 0 for 0, else `(n − 1) mod 9 + 1`.
pub open spec fn dr(n: nat) -> nat {
    if n == 0 {
        0
    } else {
        ((n - 1) as nat % 9) + 1
    }
}

/// Digital root of `n`: 0 only for 0, otherwise in 1..=9 and congruent to
/// `n` modulo 9.
pub fn digital_root(n: u32) -> (r: u8)
    ensures
        r == dr(n as nat),
        (r == 0) == (n == 0),
        n > 0 ==> 1 <= r <= 9 && r % 9 == n % 9,
{
    if n == 0 {
        0
    } else {
        let r = (n - 1) % 9 + 1;
        r as u8
    }
}

/// Digital root of an abjad value.
pub fn abjad_digital_root(value: AbjadValue) -> (r: u8)
    ensures
        r == dr(value.0 as nat),
{
    digital_root(value.0)
}

/// Checksum of a text: the digital root of its abjad value.
pub fn abjad_checksum(text: &str) -> (r: u8)
    requires
        abjad_sum(text@) <= u32::MAX,
    ensures
        r == dr(abjad_sum(text@)),
{
    let value = abjad_value(text);
    abjad_digital_root(value)
}

/// Whether the text has the expected checksum.
pub fn verify_checksum(text: &str, expected: u8) -> (r: bool)
    requires
        abjad_sum(text@) <= u32::MAX,
    ensures
        r == (dr(abjad_sum(text@)) == expected),
{
    abjad_checksum(text) == expected
}

// ─── Decimal money ────────────────────────────────────────────────────

/// Factor for a number of decimal places (0–4); other counts use 1.
pub open spec fn decimal_factor(decimals: u8) -> int {
    if decimals <= 4 {
        pow10(decimals as nat) as int
    } else {
        1
    }
}

/// Exact money: an amount in the smallest unit and its decimal places.
#[derive(Debug, Clone, Copy, PartialEq, Eq, Structural)]
pub struct DecimalMoney {
    /// Amount in the smallest unit (e.g. cents).
    pub amount: i64,
    /// Decimal places (0–4).
    pub decimals: u8,
}

impl DecimalMoney {
    /// From an amount already in the smallest unit.
    pub fn from_units(amount: i64, decimals: u8) -> (m: Self)
        ensures
            m == (DecimalMoney { amount, decimals }),
    {
        DecimalMoney { amount, decimals }
    }

    /// From a whole display value: `value · 10^decimals` (factor 1 beyond
    /// four places); the product must fit in `i64`.
    pub fn from_display(value: i64, decimals: u8) -> (m: Self)
        requires
            i64::MIN <= value * decimal_factor(decimals) <= i64::MAX,
        ensures
            m.amount == value * decimal_factor(decimals),
            m.decimals == decimals,
    {
        proof {
            lemma_pow10_small();
        }
        let multiplier: i64 = match decimals {
            0 => 1,
            1 => 10,
            2 => 100,
            3 => 1000,
            4 => 10000,
            _ => 1,
        };
        DecimalMoney { amount: value * multiplier, decimals }
    }

    /// Exact sum of two amounts with the same decimal places; `None` when
    /// the places differ.
    pub fn add(self, other: Self) -> (r: Option<Self>)
        requires
            self.decimals == other.decimals ==> i64::MIN <= self.amount + other.amount <= i64::MAX,
        ensures
            self.decimals != other.decimals ==> r.is_none(),
            self.decimals == other.decimals ==> r == Some(DecimalMoney { amount: (self.amount + other.amount) as i64, decimals: self.decimals }),
    {
        if self.decimals != other.decimals {
            return None;
        }
        Some(DecimalMoney { amount: self.amount + other.amount, decimals: self.decimals })
    }

    /// Multiply the amount by 10.
    pub fn times_10(self) -> (r: Self)
        requires
            i64::MIN <= self.amount * 10 <= i64::MAX,
        ensures
            r.amount == self.amount * 10,
            r.decimals == self.decimals,
    {
        DecimalMoney { amount: self.amount * 10, decimals: self.decimals }
    }

    /// Multiply the amount by 100.
    pub fn times_100(self) -> (r: Self)
        requires
            i64::MIN <= self.amount * 100 <= i64::MAX,
        ensures
            r.amount == self.amount * 100,
            r.decimals == self.decimals,
    {
        DecimalMoney { amount: self.amount * 100, decimals: self.decimals }
    }
}


// ─── Index of texts by abjad value ────────────────────────────────────

/// Texts that share one abjad value, in insertion order.
struct TrieEntry {
    key: u32,
    texts: Vec<String>,
}

/// Index of texts by their abjad value. Each value keeps its texts in
/// insertion order, without repetition.
pub struct AbjadTrie {
    entries: Vec<TrieEntry>,
}

/// The characters of each text.
pub open spec fn texts_view(v: Seq<String>) -> Seq<Seq<char>> {
    v.map_values(|s: String| s@)
}

/// Pairs `(value, text)` for the texts stored under `value`.
pub open spec fn tagged(value: u32, texts: Seq<Seq<char>>) -> Seq<(u32, Seq<char>)> {
    texts.map_values(|t: Seq<char>| (value, t))
}

/// A result list of `(value, text)` pairs, as values.
pub open spec fn pairs_view(v: Seq<(u32, &str)>) -> Seq<(u32, Seq<char>)> {
    v.map_values(|p: (u32, &str)| (p.0, p.1@))
}

/// The texts under `v` once `text` is inserted where `texts` were: `text`
/// joins at the end when its abjad value is `v` and it is not there yet.
pub open spec fn after_insert(texts: Seq<Seq<char>>, v: u32, text: Seq<char>) -> Seq<Seq<char>> {
    if abjad_sum(text) == v && !texts.contains(text) {
        texts.push(text)
    } else {
        texts
    }
}

/// The texts under `v` once each text of `ts` is inserted in turn into an
/// empty index.
pub open spec fn inserted(ts: Seq<Seq<char>>, v: u32) -> Seq<Seq<char>>
    decreases ts.len(),
{
    if ts.len() == 0 {
        Seq::empty()
    } else {
        after_insert(inserted(ts.drop_last(), v), v, ts.last())
    }
}

/// Index of the first occurrence of `t` in `ts`.
pub open spec fn first_at(ts: Seq<Seq<char>>, t: Seq<char>) -> int
    decreases ts.len(),
{
    if ts.len() == 0 {
        0
    } else if ts.drop_last().contains(t) {
        first_at(ts.drop_last(), t)
    } else {
        ts.len() - 1
    }
}

proof fn lemma_first_at(ts: Seq<Seq<char>>, t: Seq<char>)
    requires
        ts.contains(t),
    ensures
        0 <= first_at(ts, t) < ts.len(),
    decreases ts.len(),
{
    if ts.drop_last().contains(t) {
        lemma_first_at(ts.drop_last(), t);
    }
}

/// After the texts `ts` are inserted one by one into an empty index, the
/// texts under `v` are the texts of `ts` whose abjad value is `v`, each
/// once, in the order in which they were first inserted.
pub proof fn law_find_after_inserts(ts: Seq<Seq<char>>, v: u32)
    ensures
        inserted(ts, v).no_duplicates(),
        forall|t: Seq<char>| #[trigger] inserted(ts, v).contains(t) <==> ts.contains(t) && abjad_sum(t) == v,
        forall|a: int, b: int|
            0 <= a < b < inserted(ts, v).len() ==> first_at(ts, #[trigger] inserted(ts, v)[a]) < first_at(
                ts,
                #[trigger] inserted(ts, v)[b],
            ),
    decreases ts.len(),
{
    if ts.len() > 0 {
        let pre = ts.drop_last();
        let x = ts.last();
        let p = inserted(pre, v);
        law_find_after_inserts(pre, v);
        assert(ts =~= pre.push(x));
        assert forall|t: Seq<char>| ts.contains(t) <==> pre.contains(t) || t == x by {
            if ts.contains(t) {
                let k = choose|k: int| 0 <= k < ts.len() && ts[k] == t;
                if k < pre.len() {
                    assert(pre[k] == t);
                }
            }
            if pre.contains(t) {
                let k = choose|k: int| 0 <= k < pre.len() && pre[k] == t;
                assert(ts[k] == t);
            }
            if t == x {
                assert(ts[ts.len() - 1] == t);
            }
        }
        assert forall|a: int| 0 <= a < p.len() implies first_at(ts, #[trigger] p[a]) == first_at(pre, p[a])
            && first_at(pre, p[a]) < pre.len() by {
            assert(p.contains(p[a]));
            lemma_first_at(pre, p[a]);
        }
        if abjad_sum(x) == v && !p.contains(x) {
            let r = p.push(x);
            assert(!pre.contains(x));
            assert(first_at(ts, x) == ts.len() - 1);
            assert forall|t: Seq<char>| #[trigger] r.contains(t) <==> p.contains(t) || t == x by {
                if r.contains(t) {
                    let k = choose|k: int| 0 <= k < r.len() && r[k] == t;
                    if k < p.len() {
                        assert(p[k] == t);
                    }
                }
                if p.contains(t) {
                    let k = choose|k: int| 0 <= k < p.len() && p[k] == t;
                    assert(r[k] == t);
                }
                if t == x {
                    assert(r[r.len() - 1] == t);
                }
            }
            assert forall|a: int, b: int| 0 <= a < b < r.len() implies r[a] != r[b] by {
                if b == r.len() - 1 {
                    assert(p.contains(r[a]));
                }
            }
            assert forall|a: int, b: int| 0 <= a < b < r.len() implies first_at(ts, #[trigger] r[a]) < first_at(
                ts,
                #[trigger] r[b],
            ) by {
                assert(r[a] == p[a]);
                if b < p.len() {
                    assert(r[b] == p[b]);
                }
            }
        }
    }
}

impl AbjadTrie {
    /// Distinct values have distinct entries.
    pub closed spec fn wf(&self) -> bool {
        forall|a: int, b: int|
            0 <= a < b < self.entries@.len() ==> #[trigger] self.entries@[a].key != #[trigger] self.entries@[b].key
    }

    /// The texts stored under `value`.
    pub closed spec fn texts_at(&self, value: u32) -> Seq<Seq<char>> {
        if exists|i: int| 0 <= i < self.entries@.len() && #[trigger] self.entries@[i].key == value {
            let i = choose|i: int| 0 <= i < self.entries@.len() && #[trigger] self.entries@[i].key == value;
            texts_view(self.entries@[i].texts@)
        } else {
            Seq::empty()
        }
    }

    /// All `(value, text)` pairs for values in `lo..hi`, by increasing value.
    pub open spec fn pairs_between(&self, lo: int, hi: int) -> Seq<(u32, Seq<char>)>
        decreases hi - lo,
    {
        if hi <= lo {
            Seq::empty()
        } else {
            self.pairs_between(lo, hi - 1) + tagged((hi - 1) as u32, self.texts_at((hi - 1) as u32))
        }
    }

    /// All `(value, text)` pairs for values in `1..hi` whose digital root
    /// is `root`, by increasing value.
    pub open spec fn pairs_with_root(&self, root: u8, hi: int) -> Seq<(u32, Seq<char>)>
        decreases hi,
    {
        if hi <= 1 {
            Seq::empty()
        } else if dr((hi - 1) as nat) == root {
            self.pairs_with_root(root, hi - 1) + tagged((hi - 1) as u32, self.texts_at((hi - 1) as u32))
        } else {
            self.pairs_with_root(root, hi - 1)
        }
    }

    proof fn lemma_texts_at(&self, i: int)
        requires
            self.wf(),
            0 <= i < self.entries@.len(),
        ensures
            self.texts_at(self.entries@[i].key) == texts_view(self.entries@[i].texts@),
    {
        let k = self.entries@[i].key;
        let j = choose|j: int| 0 <= j < self.entries@.len() && #[trigger] self.entries@[j].key == k;
        assert(j == i);
    }

    /// An empty index.
    pub fn new() -> (t: Self)
        ensures
            t.wf(),
            forall|v: u32| #[trigger] t.texts_at(v) == Seq::<Seq<char>>::empty(),
    {
        AbjadTrie { entries: Vec::new() }
    }

    fn find_entry(&self, key: u32) -> (r: Option<usize>)
        requires
            self.wf(),
        ensures
            match r {
                Some(i) => i < self.entries@.len() && self.entries@[i as int].key == key,
                None => forall|i: int| 0 <= i < self.entries@.len() ==> #[trigger] self.entries@[i].key != key,
            },
    {
        let mut i: usize = 0;
        while i < self.entries.len()
            invariant
                i <= self.entries@.len(),
                forall|k: int| 0 <= k < i ==> #[trigger] self.entries@[k].key != key,
            decreases self.entries@.len() - i,
        {
            if self.entries[i].key == key {
                return Some(i);
            }
            i = i + 1;
        }
        None
    }

    /// Store `text` under its abjad value, unless it is already there.
    pub fn insert(&mut self, text: &str)
        requires
            old(self).wf(),
            abjad_sum(text@) <= u32::MAX,
        ensures
            final(self).wf(),
            forall|v: u32| #[trigger] final(self).texts_at(v) == after_insert(old(self).texts_at(v), v, text@),
    {
        let key = abjad_value(text).0;
        let owned = text.to_owned();
        match self.find_entry(key) {
            Some(i) => {
                proof {
                    self.lemma_texts_at(i as int);
                }
                let mut present = false;
                let mut k: usize = 0;
                while k < self.entries[i].texts.len()
                    invariant
                        i < self.entries@.len(),
                        k <= self.entries@[i as int].texts@.len(),
                        owned@ == text@,
                        present == exists|m: int| 0 <= m < k && #[trigger] self.entries@[i as int].texts@[m]@ == text@,
                    decreases self.entries@[i as int].texts@.len() - k,
                {
                    if self.entries[i].texts[k] == owned {
                        present = true;
                    }
                    k = k + 1;
                }
                proof {
                    let tv = texts_view(self.entries@[i as int].texts@);
                    if present {
                        let m = choose|m: int| 0 <= m < k && #[trigger] self.entries@[i as int].texts@[m]@ == text@;
                        assert(tv[m] == text@);
                    } else {
                        assert forall|m: int| 0 <= m < tv.len() implies tv[m] != text@ by {
                            assert(self.entries@[i as int].texts@[m]@ == tv[m]);
                        }
                    }
                }
                if !present {
                    let ghost old_self = *self;
                    let mut entries: Vec<TrieEntry> = Vec::new();
                    std::mem::swap(&mut entries, &mut self.entries);
                    let mut entry = entries.remove(i);
                    entry.texts.push(owned);
                    entries.insert(i, entry);
                    self.entries = entries;
                    proof {
                        assert(texts_view(self.entries@[i as int].texts@) =~= old_self.texts_at(key).push(text@));
                        assert forall|a: int, b: int| 0 <= a < b < self.entries@.len() implies #[trigger] self.entries@[a].key
                            != #[trigger] self.entries@[b].key by {
                            assert(self.entries@[a].key == old_self.entries@[a].key);
                            assert(self.entries@[b].key == old_self.entries@[b].key);
                        }
                        self.lemma_texts_at(i as int);
                        assert forall|v: u32| v != key implies #[trigger] self.texts_at(v) == old_self.texts_at(v) by {
                            if exists|j: int| 0 <= j < old_self.entries@.len() && #[trigger] old_self.entries@[j].key == v {
                                let j = choose|j: int| 0 <= j < old_self.entries@.len() && #[trigger] old_self.entries@[j].key == v;
                                old_self.lemma_texts_at(j);
                                self.lemma_texts_at(j);
                            } else {
                                assert forall|j: int| 0 <= j < self.entries@.len() implies #[trigger] self.entries@[j].key != v by {
                                    assert(self.entries@[j].key == old_self.entries@[j].key);
                                }
                            }
                        }
                    }
                }
            },
            None => {
                let ghost old_self = *self;
                let mut texts: Vec<String> = Vec::new();
                texts.push(owned);
                self.entries.push(TrieEntry { key, texts });
                proof {
                    let n = self.entries@.len() - 1;
                    assert(self.entries@[n].key == key);
                    self.lemma_texts_at(n);
                    assert(texts_view(self.entries@[n].texts@) =~= seq![text@]);
                    assert(old_self.texts_at(key) =~= Seq::<Seq<char>>::empty());
                    assert(old_self.texts_at(key).push(text@) =~= seq![text@]);
                    assert forall|v: u32| v != key implies #[trigger] self.texts_at(v) == old_self.texts_at(v) by {
                        if exists|j: int| 0 <= j < old_self.entries@.len() && #[trigger] old_self.entries@[j].key == v {
                            let j = choose|j: int| 0 <= j < old_self.entries@.len() && #[trigger] old_self.entries@[j].key == v;
                            old_self.lemma_texts_at(j);
                            self.lemma_texts_at(j);
                        } else {
                            assert forall|j: int| 0 <= j < self.entries@.len() implies #[trigger] self.entries@[j].key != v by {
                                if j < n {
                                    assert(self.entries@[j].key == old_self.entries@[j].key);
                                }
                            }
                        }
                    }
                }
            },
        }
    }

    /// The texts stored under `value`.
    pub fn find_by_value(&self, value: u32) -> (r: Vec<&str>)
        requires
            self.wf(),
        ensures
            r@.map_values(|s: &str| s@) == self.texts_at(value),
    {
        let mut out: Vec<&str> = Vec::new();
        match self.find_entry(value) {
            None => {
                proof {
                    assert(out@.map_values(|s: &str| s@) =~= self.texts_at(value));
                }
                out
            },
            Some(i) => {
                proof {
                    self.lemma_texts_at(i as int);
                }
                let texts = &self.entries[i].texts;
                let mut k: usize = 0;
                while k < texts.len()
                    invariant
                        k <= texts@.len(),
                        out@.len() == k,
                        forall|m: int| 0 <= m < k ==> #[trigger] out@[m]@ == texts@[m]@,
                    decreases texts@.len() - k,
                {
                    out.push(texts[k].as_str());
                    k = k + 1;
                }
                proof {
                    assert(out@.map_values(|s: &str| s@) =~= texts_view(texts@));
                }
                out
            },
        }
    }

    /// Pairs `(value, text)` for every value in `min..=max`, by value.
    pub fn find_in_range(&self, min: u32, max: u32) -> (r: Vec<(u32, &str)>)
        requires
            self.wf(),
        ensures
            pairs_view(r@) == self.pairs_between(min as int, max as int + 1),
    {
        let mut results: Vec<(u32, &str)> = Vec::new();
        if min > max {
            proof {
                assert(pairs_view(results@) =~= Seq::<(u32, Seq<char>)>::empty());
            }
            return results;
        }
        let mut v: u64 = min as u64;
        proof {
            assert(pairs_view(results@) =~= Seq::<(u32, Seq<char>)>::empty());
        }
        while v <= max as u64
            invariant
                self.wf(),
                min <= v <= max as u64 + 1,
                pairs_view(results@) == self.pairs_between(min as int, v as int),
            decreases max as u64 + 1 - v,
        {
            let found = self.find_by_value(v as u32);
            let ghost before = results@;
            let mut k: usize = 0;
            while k < found.len()
                invariant
                    k <= found@.len(),
                    v <= u32::MAX,
                    results@.len() == before.len() + k,
                    forall|m: int| 0 <= m < before.len() ==> #[trigger] results@[m] == before[m],
                    forall|m: int| 0 <= m < k ==> #[trigger] results@[before.len() + m] == (v as u32, found@[m]),
                decreases found@.len() - k,
            {
                results.push((v as u32, found[k]));
                k = k + 1;
            }
            proof {
                let fv = found@.map_values(|s: &str| s@);
                let tg = tagged(v as u32, fv);
                assert forall|m: int| 0 <= m < results@.len() implies #[trigger] pairs_view(results@)[m]
                    == (pairs_view(before) + tg)[m] by {
                    if m >= before.len() {
                        let k2 = m - before.len();
                        assert(results@[before.len() + k2] == (v as u32, found@[k2]));
                        assert(tg[k2] == (v as u32, fv[k2]));
                    } else {
                        assert(results@[m] == before[m]);
                    }
                }
                assert(pairs_view(results@) =~= pairs_view(before) + tg);
            }
            v = v + 1;
        }
        results
    }

    /// Values in `lo..hi` with digital root `root` that hold no entry add
    /// nothing to the pairs.
    proof fn lemma_root_gap(&self, root: u8, lo: int, hi: int)
        requires
            1 <= lo <= hi <= 0x1_0000_0000,
            forall|i: int|
                0 <= i < self.entries@.len() && lo <= #[trigger] self.entries@[i].key < hi ==> dr(
                    self.entries@[i].key as nat,
                ) != root,
        ensures
            self.pairs_with_root(root, hi) == self.pairs_with_root(root, lo),
        decreases hi - lo,
    {
        if hi > lo {
            self.lemma_root_gap(root, lo, hi - 1);
            if dr((hi - 1) as nat) == root {
                assert(!exists|i: int| 0 <= i < self.entries@.len() && #[trigger] self.entries@[i].key == (hi - 1) as u32);
                assert(self.texts_at((hi - 1) as u32) =~= Seq::<Seq<char>>::empty());
                assert(tagged((hi - 1) as u32, self.texts_at((hi - 1) as u32)) =~= Seq::<(u32, Seq<char>)>::empty());
                assert(self.pairs_with_root(root, hi - 1) + Seq::<(u32, Seq<char>)>::empty() =~= self.pairs_with_root(
                    root,
                    hi - 1,
                ));
            }
        }
    }

    /// Pairs `(value, text)` for every value held whose digital root is
    /// `target_root`, by increasing value.
    pub fn find_by_digital_root(&self, target_root: u8) -> (r: Vec<(u32, &str)>)
        requires
            self.wf(),
        ensures
            pairs_view(r@) == self.pairs_with_root(target_root, 0x1_0000_0000),
    {
        let mut results: Vec<(u32, &str)> = Vec::new();
        let mut lo: u64 = 1;
        loop
            invariant
                self.wf(),
                1 <= lo <= 0x1_0000_0000,
                pairs_view(results@) == self.pairs_with_root(target_root, lo as int),
            decreases 0x1_0000_0000 - lo,
        {
            let mut best: Option<u32> = None;
            let mut i: usize = 0;
            while i < self.entries.len()
                invariant
                    1 <= lo <= 0x1_0000_0000,
                    i <= self.entries@.len(),
                    match best {
                        Some(b) => b >= lo && dr(b as nat) == target_root && exists|e: int|
                            0 <= e < self.entries@.len() && #[trigger] self.entries@[e].key == b,
                        None => true,
                    },
                    forall|e: int|
                        0 <= e < i && self.entries@[e].key >= lo && dr(self.entries@[e].key as nat) == target_root
                            ==> (best is Some && best->0 <= #[trigger] self.entries@[e].key),
                decreases self.entries@.len() - i,
            {
                let key = self.entries[i].key;
                if key as u64 >= lo && digital_root(key) == target_root {
                    let better = match best {
                        Some(b) => key < b,
                        None => true,
                    };
                    if better {
                        best = Some(key);
                    }
                }
                i = i + 1;
            }
            match best {
                None => {
                    proof {
                        self.lemma_root_gap(target_root, lo as int, 0x1_0000_0000);
                    }
                    return results;
                },
                Some(b) => {
                    proof {
                        self.lemma_root_gap(target_root, lo as int, b as int);
                    }
                    let found = self.find_by_value(b);
                    let ghost before = results@;
                    let mut k: usize = 0;
                    while k < found.len()
                        invariant
                            k <= found@.len(),
                            results@.len() == before.len() + k,
                            forall|m: int| 0 <= m < before.len() ==> #[trigger] results@[m] == before[m],
                            forall|m: int| 0 <= m < k ==> #[trigger] results@[before.len() + m] == (b, found@[m]),
                        decreases found@.len() - k,
                    {
                        results.push((b, found[k]));
                        k = k + 1;
                    }
                    proof {
                        let fv = found@.map_values(|s: &str| s@);
                        let tg = tagged(b, fv);
                        assert forall|m: int| 0 <= m < results@.len() implies #[trigger] pairs_view(results@)[m]
                            == (pairs_view(before) + tg)[m] by {
                            if m >= before.len() {
                                let k2 = m - before.len();
                                assert(results@[before.len() + k2] == (b, found@[k2]));
                                assert(tg[k2] == (b, fv[k2]));
                            } else {
                                assert(results@[m] == before[m]);
                            }
                        }
                        assert(pairs_view(results@) =~= pairs_view(before) + tg);
                        assert(((b as int + 1) - 1) as u32 == b);
                    }
                    lo = b as u64 + 1;
                },
            }
        }
    }
}


// ─── Per-word compression ─────────────────────────────────────────────

/// Sum of a sequence of word values.
pub open spec fn seq_sum(s: Seq<u32>) -> nat
    decreases s.len(),
{
    if s.len() == 0 {
        0
    } else {
        seq_sum(s.drop_last()) + s.last() as nat
    }
}

proof fn lemma_seq_sum_prefix(s: Seq<u32>, k: int)
    requires
        0 <= k <= s.len(),
    ensures
        seq_sum(s.take(k)) <= seq_sum(s),
    decreases s.len() - k,
{
    if k < s.len() {
        lemma_seq_sum_prefix(s, k + 1);
        assert(s.take(k + 1).drop_last() =~= s.take(k));
    } else {
        assert(s.take(k) =~= s);
    }
}

/// A text stored as the abjad values of its words.
#[derive(Debug, Clone)]
pub struct AbjadCompressed {
    word_values: Vec<u32>,
    word_count: usize,
}

impl AbjadCompressed {
    /// The stored word values.
    pub closed spec fn values(&self) -> Seq<u32> {
        self.word_values@
    }

    /// The recorded word count equals the number of stored values.
    pub closed spec fn wf(&self) -> bool {
        self.word_count == self.word_values@.len()
    }

    /// Compress a text into the abjad values of its words.
    pub fn compress(text: &str) -> (c: Self)
        requires
            words_fit(text@),
        ensures
            c.wf(),
            c.values().len() == words(text@).len(),
            forall|k: int| 0 <= k < c.values().len() ==> #[trigger] c.values()[k] == abjad_sum(words(text@)[k]),
    {
        let words = compress_words(text);
        let mut word_values: Vec<u32> = Vec::new();
        let mut i: usize = 0;
        while i < words.len()
            invariant
                i <= words@.len(),
                word_values@.len() == i,
                forall|k: int| 0 <= k < i ==> #[trigger] word_values@[k] == words@[k].0,
            decreases words@.len() - i,
        {
            word_values.push(words[i].0);
            i = i + 1;
        }
        AbjadCompressed { word_count: word_values.len(), word_values }
    }

    /// Size in bytes of the compressed form: four bytes per word.
    pub fn compressed_size(&self) -> (n: usize)
        requires
            self.values().len() * 4 <= usize::MAX,
        ensures
            n == self.values().len() * 4,
    {
        self.word_values.len() * 4
    }

    /// Estimated UTF-8 size of the original: two bytes per character and
    /// one separator per word.
    pub fn estimated_original_size(&self, avg_chars_per_word: usize) -> (n: usize)
        requires
            self.wf(),
            self.values().len() * avg_chars_per_word * 2 + self.values().len() <= usize::MAX,
        ensures
            n == self.values().len() * avg_chars_per_word * 2 + self.values().len(),
    {
        let c = self.word_count;
        assert(c * avg_chars_per_word * 2 <= c * avg_chars_per_word * 2 + c);
        assert(c * avg_chars_per_word <= c * avg_chars_per_word * 2) by (nonlinear_arith);
        c * avg_chars_per_word * 2 + c
    }

    /// Value of the word at `index`.
    pub fn word_value(&self, index: usize) -> (r: Option<u32>)
        ensures
            r == (if index < self.values().len() { Some(self.values()[index as int]) } else { None::<u32> }),
    {
        if index < self.word_values.len() {
            Some(self.word_values[index])
        } else {
            None
        }
    }

    /// Sum of all word values, which must fit in `u32`.
    pub fn total_sum(&self) -> (r: u32)
        requires
            seq_sum(self.values()) <= u32::MAX,
        ensures
            r == seq_sum(self.values()),
    {
        let mut sum: u32 = 0;
        let mut i: usize = 0;
        while i < self.word_values.len()
            invariant
                i <= self.word_values@.len(),
                seq_sum(self.word_values@) <= u32::MAX,
                sum == seq_sum(self.word_values@.take(i as int)),
            decreases self.word_values@.len() - i,
        {
            proof {
                lemma_seq_sum_prefix(self.word_values@, i as int + 1);
                assert(self.word_values@.take(i as int + 1).drop_last() =~= self.word_values@.take(i as int));
            }
            sum = sum + self.word_values[i];
            i = i + 1;
        }
        proof {
            assert(self.word_values@.take(i as int) =~= self.word_values@);
        }
        sum
    }

    /// Digital root of the whole text.
    pub fn text_digital_root(&self) -> (r: u8)
        requires
            seq_sum(self.values()) <= u32::MAX,
        ensures
            r == dr(seq_sum(self.values())),
    {
        digital_root(self.total_sum())
    }

    /// Number of words.
    pub fn word_count(&self) -> (n: usize)
        requires
            self.wf(),
        ensures
            n == self.values().len(),
    {
        self.word_count
    }

    /// Positions of the words whose value is `target`, in increasing order.
    pub fn find_words_with_value(&self, target: u32) -> (r: Vec<usize>)
        ensures
            forall|a: int, b: int| 0 <= a < b < r@.len() ==> r@[a] < r@[b],
            forall|a: int| 0 <= a < r@.len() ==> r@[a] < self.values().len() && self.values()[r@[a] as int] == target,
            forall|i: int| 0 <= i < self.values().len() && self.values()[i] == target ==> r@.contains(i as usize),
    {
        let mut out: Vec<usize> = Vec::new();
        let mut i: usize = 0;
        while i < self.word_values.len()
            invariant
                i <= self.word_values@.len(),
                forall|a: int, b: int| 0 <= a < b < out@.len() ==> out@[a] < out@[b],
                forall|a: int| 0 <= a < out@.len() ==> out@[a] < i && self.word_values@[out@[a] as int] == target,
                forall|k: int| 0 <= k < i && self.word_values@[k] == target ==> out@.contains(k as usize),
            decreases self.word_values@.len() - i,
        {
            if self.word_values[i] == target {
                let ghost prev = out@;
                out.push(i);
                proof {
                    assert(out@[out@.len() - 1] == i);
                    assert forall|k: int| 0 <= k < i + 1 && self.word_values@[k] == target implies out@.contains(k as usize) by {
                        if k < i {
                            assert(prev.contains(k as usize));
                            let w = choose|w: int| 0 <= w < prev.len() && prev[w] == k as usize;
                            assert(out@[w] == k as usize);
                        } else {
                            assert(out@[out@.len() - 1] == k as usize);
                        }
                    }
                }
            }
            i = i + 1;
        }
        out
    }
}

// ─── Three-modulus checksum ───────────────────────────────────────────

/// Residues of a text's abjad value modulo 9, 11 and 13.
#[derive(Debug, Clone, Copy, PartialEq, Eq, Structural)]
pub struct MultiChecksum {
    pub mod_9: u8,
    pub mod_11: u8,
    pub mod_13: u8,
}

/// CRT combination of three residues modulo 9·11·13 = 1287.
pub open spec fn crt(a1: int, a2: int, a3: int) -> int {
    (a1 * 143 * 8 + a2 * 117 * 8 + a3 * 99 * 5) % 1287
}

impl MultiChecksum {
    /// Residues of the text's abjad value, which must fit in `u32`.
    pub fn compute(text: &str) -> (c: Self)
        requires
            abjad_sum(text@) <= u32::MAX,
        ensures
            c.mod_9 == abjad_sum(text@) % 9,
            c.mod_11 == abjad_sum(text@) % 11,
            c.mod_13 == abjad_sum(text@) % 13,
    {
        let value = abjad_value(text).0;
        MultiChecksum { mod_9: (value % 9) as u8, mod_11: (value % 11) as u8, mod_13: (value % 13) as u8 }
    }

    /// Whether the text has exactly these residues.
    pub fn verify(&self, text: &str) -> (r: bool)
        requires
            abjad_sum(text@) <= u32::MAX,
        ensures
            r == (self.mod_9 == abjad_sum(text@) % 9 && self.mod_11 == abjad_sum(text@) % 11
                && self.mod_13 == abjad_sum(text@) % 13),
    {
        *self == Self::compute(text)
    }

    /// Size of the residue space: 9 · 11 · 13.
    pub fn unique_space_size() -> (n: u32)
        ensures
            n == 1287,
    {
        9 * 11 * 13
    }

    /// The value modulo 1287 with these residues (Chinese Remainder
    /// Theorem). For residues in range, it has each of them.
    pub fn reconstruct_modulo(&self) -> (x: u32)
        ensures
            x == crt(self.mod_9 as int, self.mod_11 as int, self.mod_13 as int),
            x < 1287,
            self.mod_9 < 9 && self.mod_11 < 11 && self.mod_13 < 13 ==> x % 9 == self.mod_9 && x % 11
                == self.mod_11 && x % 13 == self.mod_13,
    {
        let m1 = 9u32;
        let m2 = 11u32;
        let m3 = 13u32;
        let m = m1 * m2 * m3;
        let a1 = self.mod_9 as u32;
        let a2 = self.mod_11 as u32;
        let a3 = self.mod_13 as u32;
        let n1 = m / m1;
        let n2 = m / m2;
        let n3 = m / m3;
        let inv1 = 8u32;
        let inv2 = 8u32;
        let inv3 = 5u32;
        assert(n1 == 143 && n2 == 117 && n3 == 99 && m == 1287);
        assert(a1 * n1 * inv1 <= 255 * 1144) by (nonlinear_arith)
            requires
                a1 <= 255,
                n1 == 143,
                inv1 == 8,
        ;
        assert(a2 * n2 * inv2 <= 255 * 936) by (nonlinear_arith)
            requires
                a2 <= 255,
                n2 == 117,
                inv2 == 8,
        ;
        assert(a3 * n3 * inv3 <= 255 * 495) by (nonlinear_arith)
            requires
                a3 <= 255,
                n3 == 99,
                inv3 == 5,
        ;
        let x = (a1 * n1 * inv1 + a2 * n2 * inv2 + a3 * n3 * inv3) % m;
        proof {
            if self.mod_9 < 9 && self.mod_11 < 11 && self.mod_13 < 13 {
                lemma_crt(a1 as int, a2 as int, a3 as int);
            }
        }
        x
    }
}

/// Two numbers with equal residues modulo `m` differ by a multiple of `m`.
proof fn lemma_same_residue(x: int, w: int, m: int)
    requires
        m > 0,
        x % m == w % m,
    ensures
        (x - w) % m == 0,
{
    vstd::arithmetic::div_mod::lemma_fundamental_div_mod(x, m);
    vstd::arithmetic::div_mod::lemma_fundamental_div_mod(w, m);
    assert(x - w == (x / m - w / m) * m) by (nonlinear_arith)
        requires
            x == m * (x / m) + x % m,
            w == m * (w / m) + w % m,
            x % m == w % m,
    ;
    vstd::arithmetic::div_mod::lemma_mod_multiples_basic(x / m - w / m, m);
}

/// A multiple of 9, 11 and 13 smaller than 1287 in size is zero.
proof fn lemma_coprime_zero(d: int)
    requires
        -1287 < d < 1287,
        d % 9 == 0,
        d % 11 == 0,
        d % 13 == 0,
    ensures
        d == 0,
{
    vstd::arithmetic::div_mod::lemma_fundamental_div_mod(d, 9);
    vstd::arithmetic::div_mod::lemma_fundamental_div_mod(d, 11);
    vstd::arithmetic::div_mod::lemma_fundamental_div_mod(d, 13);
    let a = d / 9;
    let b = d / 11;
    let e = d / 13;
    assert(d == 9 * a && d == 11 * b && d == 13 * e);
    let c = 5 * b - 4 * a;
    assert(a == 11 * c);
    let f = 5 * e - 38 * c;
    assert(c == 13 * f);
    assert(d == 1287 * f);
}

/// The residues modulo 9, 11 and 13 of a value determine it modulo 1287:
/// rebuilding a checksum of `v` gives `v mod 1287`.
pub proof fn law_checksum_reconstructs(c: MultiChecksum, v: nat)
    requires
        c.mod_9 == v % 9,
        c.mod_11 == v % 11,
        c.mod_13 == v % 13,
    ensures
        crt(c.mod_9 as int, c.mod_11 as int, c.mod_13 as int) == v % 1287,
{
    let x = crt(c.mod_9 as int, c.mod_11 as int, c.mod_13 as int);
    let w = (v % 1287) as int;
    lemma_crt(c.mod_9 as int, c.mod_11 as int, c.mod_13 as int);
    vstd::arithmetic::div_mod::lemma_mod_mod(v as int, 9, 143);
    vstd::arithmetic::div_mod::lemma_mod_mod(v as int, 11, 117);
    vstd::arithmetic::div_mod::lemma_mod_mod(v as int, 13, 99);
    lemma_same_residue(x, w, 9);
    lemma_same_residue(x, w, 11);
    lemma_same_residue(x, w, 13);
    lemma_coprime_zero(x - w);
}

/// The CRT combination has the given residues.
pub proof fn lemma_crt(a1: int, a2: int, a3: int)
    requires
        0 <= a1 < 9,
        0 <= a2 < 11,
        0 <= a3 < 13,
    ensures
        crt(a1, a2, a3) % 9 == a1,
        crt(a1, a2, a3) % 11 == a2,
        crt(a1, a2, a3) % 13 == a3,
{
    let y = a1 * 1144 + a2 * 936 + a3 * 495;
    assert(crt(a1, a2, a3) == y % 1287);
    vstd::arithmetic::div_mod::lemma_mod_mod(y, 9, 143);
    vstd::arithmetic::div_mod::lemma_mod_mod(y, 11, 117);
    vstd::arithmetic::div_mod::lemma_mod_mod(y, 13, 99);
    assert(y == 9 * (a1 * 127 + a2 * 104 + a3 * 55) + a1);
    assert(y == 11 * (a1 * 104 + a2 * 85 + a3 * 45) + a2);
    assert(y == 13 * (a1 * 88 + a2 * 72 + a3 * 38) + a3);
    vstd::arithmetic::div_mod::lemma_mod_multiples_vanish(a1 * 127 + a2 * 104 + a3 * 55, a1, 9);
    vstd::arithmetic::div_mod::lemma_mod_multiples_vanish(a1 * 104 + a2 * 85 + a3 * 45, a2, 11);
    vstd::arithmetic::div_mod::lemma_mod_multiples_vanish(a1 * 88 + a2 * 72 + a3 * 38, a3, 13);
    vstd::arithmetic::div_mod::lemma_small_mod(a1 as nat, 9);
    vstd::arithmetic::div_mod::lemma_small_mod(a2 as nat, 11);
    vstd::arithmetic::div_mod::lemma_small_mod(a3 as nat, 13);
}

// ─── Dual-layer character ─────────────────────────────────────────────

/// Abjad value and alphabetical (hijai) rank of the 28 letters.
pub open spec fn dual_values(c: char) -> Option<(u16, u8)> {
    match c {
        'ا' | 'أ' | 'إ' | 'آ' => Some((1u16, 1u8)),
        'ب' => Some((2u16, 2u8)),
        'ت' => Some((400u16, 3u8)),
        'ث' => Some((500u16, 4u8)),
        'ج' => Some((3u16, 5u8)),
        'ح' => Some((8u16, 6u8)),
        'خ' => Some((600u16, 7u8)),
        'د' => Some((4u16, 8u8)),
        'ذ' => Some((700u16, 9u8)),
        'ر' => Some((200u16, 10u8)),
        'ز' => Some((7u16, 11u8)),
        'س' => Some((60u16, 12u8)),
        'ش' => Some((300u16, 13u8)),
        'ص' => Some((90u16, 14u8)),
        'ض' => Some((800u16, 15u8)),
        'ط' => Some((9u16, 16u8)),
        'ظ' => Some((900u16, 17u8)),
        'ع' => Some((70u16, 18u8)),
        'غ' => Some((1000u16, 19u8)),
        'ف' => Some((80u16, 20u8)),
        'ق' => Some((100u16, 21u8)),
        'ك' => Some((20u16, 22u8)),
        'ل' => Some((30u16, 23u8)),
        'م' => Some((40u16, 24u8)),
        'ن' => Some((50u16, 25u8)),
        'ه' => Some((5u16, 26u8)),
        'و' => Some((6u16, 27u8)),
        'ي' | 'ى' => Some((10u16, 28u8)),
        _ => None,
    }
}

/// A letter with its abjad value (arithmetic) and hijai rank (ordering).
#[derive(Debug, Clone, Copy, PartialEq, Eq, Structural)]
pub struct MALChar {
    pub glyph: char,
    pub abjad: u16,
    pub hijai: u8,
}

/// Sum of the abjad values of a sequence of letters.
pub open spec fn abjad_total(s: Seq<MALChar>) -> nat
    decreases s.len(),
{
    if s.len() == 0 {
        0
    } else {
        abjad_total(s.drop_last()) + s.last().abjad as nat
    }
}

/// Letters ordered by hijai rank.
pub open spec fn hijai_sorted(s: Seq<MALChar>) -> bool {
    forall|a: int, b: int| 0 <= a < b < s.len() ==> s[a].hijai <= s[b].hijai
}

/// The letters of `s` of hijai rank `k`, in order.
pub open spec fn with_rank(s: Seq<MALChar>, k: u8) -> Seq<MALChar> {
    s.filter(|x: MALChar| x.hijai == k)
}

/// Appending a letter appends it to the letters of its rank.
proof fn lemma_rank_push(s: Seq<MALChar>, c: MALChar, k: u8)
    ensures
        with_rank(s.push(c), k) == (if k == c.hijai {
            with_rank(s, k).push(c)
        } else {
            with_rank(s, k)
        }),
{
    reveal(Seq::filter);
    assert(s.push(c).drop_last() =~= s);
}

/// Inserting `c` after every letter of rank at most its own and before
/// every greater one appends it to the letters of its rank and leaves the
/// other ranks alone.
proof fn lemma_rank_insert(before: Seq<MALChar>, p: int, c: MALChar, k: u8)
    requires
        hijai_sorted(before),
        0 <= p <= before.len(),
        forall|a: int| 0 <= a < p ==> before[a].hijai <= c.hijai,
        p < before.len() ==> before[p].hijai > c.hijai,
    ensures
        with_rank(before.insert(p, c), k) == (if k == c.hijai {
            with_rank(before, k).push(c)
        } else {
            with_rank(before, k)
        }),
{
    let pred = |x: MALChar| x.hijai == k;
    let t = before.take(p);
    let d = before.skip(p);
    assert(before.insert(p, c) =~= t.push(c) + d);
    assert(before =~= t + d);
    Seq::filter_distributes_over_add(t.push(c), d, pred);
    Seq::filter_distributes_over_add(t, d, pred);
    lemma_rank_push(t, c, k);
    if k == c.hijai {
        assert forall|a: int| 0 <= a < d.len() implies !pred(#[trigger] d[a]) by {
            assert(before[p + a].hijai >= before[p].hijai);
        }
        assert(d.all(|x: MALChar| !pred(x)));
        d.lemma_all_neg_filter_empty(pred);
        assert(d.filter(pred) =~= Seq::<MALChar>::empty());
        assert(t.filter(pred).push(c) + Seq::<MALChar>::empty() =~= (t.filter(pred) + Seq::<MALChar>::empty()).push(c));
    }
}

impl MALChar {
    /// The dual character of an Arabic letter.
    pub fn from_char(c: char) -> (r: Option<Self>)
        ensures
            r == (match dual_values(c) {
                Some((a, h)) => Some(MALChar { glyph: c, abjad: a, hijai: h }),
                None => None::<MALChar>,
            }),
    {
        let pair: Option<(u16, u8)> = match c {
        'ا' | 'أ' | 'إ' | 'آ' => Some((1u16, 1u8)),
        'ب' => Some((2u16, 2u8)),
        'ت' => Some((400u16, 3u8)),
        'ث' => Some((500u16, 4u8)),
        'ج' => Some((3u16, 5u8)),
        'ح' => Some((8u16, 6u8)),
        'خ' => Some((600u16, 7u8)),
        'د' => Some((4u16, 8u8)),
        'ذ' => Some((700u16, 9u8)),
        'ر' => Some((200u16, 10u8)),
        'ز' => Some((7u16, 11u8)),
        'س' => Some((60u16, 12u8)),
        'ش' => Some((300u16, 13u8)),
        'ص' => Some((90u16, 14u8)),
        'ض' => Some((800u16, 15u8)),
        'ط' => Some((9u16, 16u8)),
        'ظ' => Some((900u16, 17u8)),
        'ع' => Some((70u16, 18u8)),
        'غ' => Some((1000u16, 19u8)),
        'ف' => Some((80u16, 20u8)),
        'ق' => Some((100u16, 21u8)),
        'ك' => Some((20u16, 22u8)),
        'ل' => Some((30u16, 23u8)),
        'م' => Some((40u16, 24u8)),
        'ن' => Some((50u16, 25u8)),
        'ه' => Some((5u16, 26u8)),
        'و' => Some((6u16, 27u8)),
        'ي' | 'ى' => Some((10u16, 28u8)),
            _ => None,
        };
        match pair {
            Some((abjad, hijai)) => Some(MALChar { glyph: c, abjad, hijai }),
            None => None,
        }
    }

    /// Order letters by hijai rank (stable: equal ranks keep their order).
    pub fn sort_hijai(chars: &mut Vec<Self>)
        ensures
            hijai_sorted(final(chars)@),
            final(chars)@.to_multiset() == old(chars)@.to_multiset(),
            forall|k: u8| #[trigger] with_rank(final(chars)@, k) == with_rank(old(chars)@, k),
    {
        let mut sorted: Vec<MALChar> = Vec::new();
        let mut i: usize = 0;
        proof {
            broadcast use vstd::seq_lib::group_to_multiset_ensures;
            assert(chars@.take(0) =~= Seq::<MALChar>::empty());
            assert(sorted@ =~= Seq::<MALChar>::empty());
        }
        while i < chars.len()
            invariant
                i <= chars@.len(),
                chars@ == old(chars)@,
                hijai_sorted(sorted@),
                sorted@.to_multiset() == chars@.take(i as int).to_multiset(),
                forall|k: u8| #[trigger] with_rank(sorted@, k) == with_rank(chars@.take(i as int), k),
            decreases chars@.len() - i,
        {
            let c = chars[i];
            let mut p: usize = 0;
            while p < sorted.len() && sorted[p].hijai <= c.hijai
                invariant
                    p <= sorted@.len(),
                    forall|a: int| 0 <= a < p ==> sorted@[a].hijai <= c.hijai,
                decreases sorted@.len() - p,
            {
                p = p + 1;
            }
            let ghost before = sorted@;
            sorted.insert(p, c);
            proof {
                assert forall|a: int, b: int| 0 <= a < b < sorted@.len() implies sorted@[a].hijai <= sorted@[b].hijai by {
                    if b < p {
                    } else if b == p {
                    } else if a < p {
                        assert(before[a].hijai <= c.hijai);
                        assert(p < before.len() ==> before[p as int].hijai > c.hijai);
                        assert(before[p as int].hijai <= before[b - 1].hijai);
                    } else if a == p {
                        assert(before[p as int].hijai > c.hijai);
                        assert(before[p as int].hijai <= before[b - 1].hijai);
                    } else {
                    }
                }
                broadcast use vstd::seq_lib::group_to_multiset_ensures;
                assert(chars@.take(i as int + 1) =~= chars@.take(i as int).push(c));
                assert(sorted@ =~= before.insert(p as int, c));
                vstd::seq_lib::to_multiset_insert(before, p as int, c);
                assert forall|k: u8| #[trigger] with_rank(sorted@, k) == with_rank(chars@.take(i as int + 1), k) by {
                    lemma_rank_insert(before, p as int, c, k);
                    assert(chars@.take(i as int + 1) =~= chars@.take(i as int).push(c));
                    lemma_rank_push(chars@.take(i as int), c, k);
                }
            }
            i = i + 1;
        }
        proof {
            assert(chars@.take(i as int) =~= chars@);
        }
        *chars = sorted;
    }

    /// Sum of the abjad values, which must fit in `u32`.
    pub fn sum_abjad(chars: &[Self]) -> (r: u32)
        requires
            abjad_total(chars@) <= u32::MAX,
        ensures
            r == abjad_total(chars@),
    {
        let mut sum: u32 = 0;
        let mut i: usize = 0;
        while i < chars.len()
            invariant
                i <= chars@.len(),
                abjad_total(chars@) <= u32::MAX,
                sum == abjad_total(chars@.take(i as int)),
            decreases chars@.len() - i,
        {
            proof {
                lemma_abjad_total_prefix(chars@, i as int + 1);
                assert(chars@.take(i as int + 1).drop_last() =~= chars@.take(i as int));
            }
            sum = sum + chars[i].abjad as u32;
            i = i + 1;
        }
        proof {
            assert(chars@.take(i as int) =~= chars@);
        }
        sum
    }
}

proof fn lemma_abjad_total_prefix(s: Seq<MALChar>, k: int)
    requires
        0 <= k <= s.len(),
    ensures
        abjad_total(s.take(k)) <= abjad_total(s),
    decreases s.len() - k,
{
    if k < s.len() {
        lemma_abjad_total_prefix(s, k + 1);
        assert(s.take(k + 1).drop_last() =~= s.take(k));
    } else {
        assert(s.take(k) =~= s);
    }
}

} // verus!
