//! The written form of a weight: which texts are decimal numbers.
//!
//! A weight is never computed with here; the library only checks that its
//! text is a number, so that whoever reads the value can rely on it:
//!
//! ```text
//! Number   ::= Sign? ( 'inf' | 'infinity' | 'nan' | Decimal )
//! Decimal  ::= ( Digit+ | Digit+ '.' Digit* | Digit* '.' Digit+ ) Exponent?
//! Exponent ::= 'e' Sign? Digit+
//! Sign     ::= [+-]
//! Digit    ::= [0-9]
//! ```
//!
//! Letters count in either case.

use vstd::prelude::*;
use crate::text::{ascii, ascii_bytes, is_digit, DIGIT_0, DIGIT_9, PLUS};

verus! {

/// `-`, the sign of a negative number.
pub const MINUS: u8 = 45;

/// `.`, the decimal point.
pub const POINT: u8 = 46;

/// `e`, which begins an exponent.
pub const LOWER_E: u8 = 101;

/// The number of digits at the front of `s`.
pub open spec fn digits_len(s: Seq<u8>) -> int
    decreases s.len(),
{
    if s.len() == 0 || !is_digit(s[0]) {
        0
    } else {
        1 + digits_len(s.skip(1))
    }
}

/// The digits at the front of a text end at its first byte that is no digit.
pub proof fn lemma_digits_len(s: Seq<u8>, n: int)
    requires
        0 <= n <= s.len(),
        forall|k: int| 0 <= k < n ==> is_digit(s[k]),
        n < s.len() ==> !is_digit(s[n]),
    ensures
        digits_len(s) == n,
    decreases n,
{
    if n > 0 {
        assert forall|k: int| 0 <= k < n - 1 implies is_digit(s.skip(1)[k]) by {
            assert(s.skip(1)[k] == s[k + 1]);
        }
        lemma_digits_len(s.skip(1), n - 1);
    }
}

/// Counts the digits that stand at `from`.
pub fn count_digits(s: &[u8], from: usize) -> (n: usize)
    requires
        from <= s@.len(),
    ensures
        n == digits_len(s@.skip(from as int)),
        from + n <= s@.len(),
{
    let mut end: usize = from;
    while end < s.len() && DIGIT_0 <= s[end] && s[end] <= DIGIT_9
        invariant
            from <= end <= s@.len(),
            forall|k: int| from <= k < end ==> is_digit(s@[k]),
        decreases s@.len() - end,
    {
        end += 1;
    }
    proof {
        lemma_digits_len(s@.skip(from as int), end - from);
    }
    end - from
}

/// A letter in lower case; any other byte as it is.
pub open spec fn lower(b: u8) -> u8 {
    if 65 <= b <= 90 {
        (b + 32) as u8
    } else {
        b
    }
}

/// A letter in lower case; any other byte as it is.
pub fn to_lower(b: u8) -> (out: u8)
    ensures
        out == lower(b),
{
    if 65 <= b && b <= 90 {
        b + 32
    } else {
        b
    }
}

/// Whether `s` is the word `w`, letters counting in either case.
pub open spec fn is_word(s: Seq<u8>, w: Seq<u8>) -> bool {
    s.len() == w.len() && forall|i: int| 0 <= i < s.len() ==> lower(s[i]) == w[i]
}

/// Whether the text from `from` on is the word `w`, in either case.
pub fn matches_word(s: &[u8], from: usize, w: &[u8]) -> (yes: bool)
    requires
        from <= s@.len(),
    ensures
        yes == is_word(s@.skip(from as int), w@),
{
    if s.len() - from != w.len() {
        return false;
    }
    let mut i: usize = 0;
    while i < w.len()
        invariant
            from + w@.len() == s@.len(),
            s@.len() <= usize::MAX,
            0 <= i <= w@.len(),
            forall|k: int| 0 <= k < i ==> lower(s@[from + k]) == w@[k],
        decreases w@.len() - i,
    {
        if to_lower(s[from + i]) != w[i] {
            assert(s@.skip(from as int)[i as int] == s@[from + i]);
            return false;
        }
        i += 1;
    }
    assert forall|k: int| 0 <= k < w@.len() implies lower(s@.skip(from as int)[k]) == w@[k] by {
        assert(s@.skip(from as int)[k] == s@[from + k]);
    }
    true
}

/// Whether a byte is a sign.
pub open spec fn is_sign(b: u8) -> bool {
    b == PLUS || b == MINUS
}

/// A text without the sign that may stand at its front.
pub open spec fn without_sign(s: Seq<u8>) -> Seq<u8> {
    if s.len() > 0 && is_sign(s[0]) {
        s.skip(1)
    } else {
        s
    }
}

/// Whether `s` is an exponent: an `e`, an optional sign, one digit or more.
pub open spec fn is_exponent(s: Seq<u8>) -> bool {
    s.len() > 0 && lower(s[0]) == LOWER_E && {
        let d = without_sign(s.skip(1));
        d.len() > 0 && digits_len(d) == d.len()
    }
}

/// Whether `s` is a decimal: digits with at most one point among them, one
/// digit at least, and an optional exponent.
pub open spec fn is_decimal(s: Seq<u8>) -> bool {
    let whole = digits_len(s);
    let pointed = whole < s.len() && s[whole] == POINT;
    let fraction = if pointed {
        digits_len(s.skip(whole + 1))
    } else {
        0
    };
    let rest = if pointed {
        s.skip(whole + 1 + fraction)
    } else {
        s.skip(whole)
    };
    whole + fraction >= 1 && (rest.len() == 0 || is_exponent(rest))
}

/// Whether a text is a number: an optional sign, then a decimal or one of the
/// words `inf`, `infinity` and `nan`.
pub open spec fn is_number(s: Seq<u8>) -> bool {
    let u = without_sign(s);
    is_word(u, ascii("inf")) || is_word(u, ascii("infinity")) || is_word(u, ascii("nan"))
        || is_decimal(u)
}

/// Whether the text from `from` on is an exponent.
fn exponent_at(s: &[u8], from: usize) -> (yes: bool)
    requires
        from <= s@.len(),
    ensures
        yes == is_exponent(s@.skip(from as int)),
{
    let ghost rest = s@.skip(from as int);
    if from >= s.len() || to_lower(s[from]) != LOWER_E {
        return false;
    }
    let mut at: usize = from + 1;
    proof {
        assert(rest.skip(1) =~= s@.skip(from + 1));
    }
    if at < s.len() && (s[at] == PLUS || s[at] == MINUS) {
        proof {
            assert(s@.skip(from + 1).skip(1) =~= s@.skip(from + 2));
        }
        at += 1;
    }
    let n = count_digits(s, at);
    n > 0 && at + n == s.len()
}

/// Checks that a text is a number.
pub fn is_number_text(s: &[u8]) -> (yes: bool)
    ensures
        yes == is_number(s@),
{
    let start: usize = if s.len() > 0 && (s[0] == PLUS || s[0] == MINUS) {
        1
    } else {
        0
    };
    let ghost u = without_sign(s@);
    proof {
        assert(u =~= s@.skip(start as int));
        reveal_strlit("inf");
        reveal_strlit("infinity");
        reveal_strlit("nan");
    }
    if matches_word(s, start, ascii_bytes("inf")) || matches_word(s, start, ascii_bytes("infinity"))
        || matches_word(s, start, ascii_bytes("nan")) {
        return true;
    }
    let whole = count_digits(s, start);
    let mut at: usize = start + whole;
    let mut fraction: usize = 0;
    if at < s.len() && s[at] == POINT {
        proof {
            assert(u.skip(whole + 1) =~= s@.skip(at + 1));
        }
        fraction = count_digits(s, at + 1);
        at = at + 1 + fraction;
        proof {
            assert(u.skip(whole + 1 + fraction) =~= s@.skip(at as int));
        }
    } else {
        proof {
            assert(u.skip(whole as int) =~= s@.skip(at as int));
            if at < s@.len() {
                assert(u[whole as int] == s@[at as int]);
            }
        }
    }
    if whole + fraction == 0 {
        return false;
    }
    at == s.len() || exponent_at(s, at)
}

} // verus!
