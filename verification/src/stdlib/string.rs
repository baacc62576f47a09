//! String utilities on characters: reversal, palindromes and word counts.
use vstd::prelude::*;
use crate::abjad::{lemma_word_end, word_end, words, words_from};
use crate::lexer::{char_is_whitespace, lemma_skip_ws, skip_ws};
use crate::text::{chars_of, string_push};

verus! {

/// The characters of `s` in reverse order.
pub fn reverse(s: &str) -> (r: String)
    ensures
        r@ == s@.reverse(),
{
    let chars = chars_of(s);
    let mut out = String::new();
    let mut i: usize = chars.len();
    while i > 0
        invariant
            i <= chars@.len(),
            chars@ == s@,
            out@ =~= chars@.subrange(i as int, chars@.len() as int).reverse(),
        decreases i,
    {
        i = i - 1;
        string_push(&mut out, chars[i]);
        proof {
            assert(out@ =~= chars@.subrange(i as int, chars@.len() as int).reverse());
        }
    }
    proof {
        assert(chars@.subrange(0, chars@.len() as int) =~= chars@);
    }
    out
}

/// Whether `s` reads the same forwards and backwards (by characters).
pub fn is_palindrome(s: &str) -> (r: bool)
    ensures
        r == (s@ == s@.reverse()),
{
    let chars = chars_of(s);
    let len = chars.len();
    let mut i: usize = 0;
    while i < len / 2
        invariant
            len == chars@.len(),
            chars@ == s@,
            i <= len / 2,
            forall|j: int| 0 <= j < i ==> #[trigger] chars@[j] == chars@[len - 1 - j],
        decreases len / 2 - i,
    {
        if chars[i] != chars[len - 1 - i] {
            proof {
                assert(s@.reverse()[i as int] == s@[len - 1 - i]);
            }
            return false;
        }
        i = i + 1;
    }
    proof {
        assert forall|j: int| 0 <= j < len implies s@.reverse()[j] == #[trigger] s@[j] by {
            if j >= len / 2 {
                let m = len - 1 - j;
                if m < len / 2 {
                    assert(chars@[m] == chars@[len - 1 - m]);
                }
            }
        }
        assert(s@ =~= s@.reverse());
    }
    true
}

/// Number of words: the maximal runs of non-whitespace characters, as
/// `str::split_whitespace` yields them.
pub fn word_count(s: &str) -> (r: usize)
    ensures
        r == words(s@).len(),
{
    let chars = chars_of(s);
    let ghost t = chars@;
    let mut count: usize = 0;
    let mut i: usize = 0;
    proof {
        assert(words(t) == words_from(t, 0));
    }
    loop
        invariant
            i <= t.len(),
            t == chars@,
            t == s@,
            count + words_from(t, i as int).len() == words(t).len(),
            count <= i,
        decreases t.len() - i,
    {
        let ghost i0 = i as int;
        while i < chars.len() && char_is_whitespace(chars[i])
            invariant
                i0 <= i <= t.len(),
                t == chars@,
                skip_ws(t, i as int) == skip_ws(t, i0),
            decreases t.len() - i,
        {
            i = i + 1;
        }
        proof {
            lemma_skip_ws(t, i0);
        }
        if i >= chars.len() {
            return count;
        }
        let j = i;
        proof {
            lemma_word_end(t, j as int);
        }
        while i < chars.len() && !char_is_whitespace(chars[i])
            invariant
                j <= i <= t.len(),
                t == chars@,
                word_end(t, i as int) == word_end(t, j as int),
            decreases t.len() - i,
        {
            i = i + 1;
        }
        proof {
            assert(words_from(t, i0) == seq![t.subrange(j as int, i as int)] + words_from(t, i as int));
        }
        count = count + 1;
    }
}

} // verus!
