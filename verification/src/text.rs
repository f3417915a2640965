//! Byte-level text utilities: comparison, splitting, unsigned decimal numbers
//! and chromosome-name normalization.

use vstd::prelude::*;

verus! {

/// The line feed that ends a line.
pub const NEWLINE: u8 = 10;

/// The carriage return that may stand before a line feed.
pub const CARRIAGE_RETURN: u8 = 13;

/// The tab between the columns of a record.
pub const TAB: u8 = 9;

/// `#`, the first byte of a comment line.
pub const HASH: u8 = 35;

/// `+`, the sign that may stand before a number.
pub const PLUS: u8 = 43;

/// The digit `0`.
pub const DIGIT_0: u8 = 48;

/// The digit `1`.
pub const DIGIT_1: u8 = 49;

/// The digit `9`.
pub const DIGIT_9: u8 = 57;

/// The letter `c`.
pub const LOWER_C: u8 = 99;

/// The letter `h`.
pub const LOWER_H: u8 = 104;

/// The letter `r`.
pub const LOWER_R: u8 = 114;

/// Index of the first occurrence of `d` in `s`, or `s.len()` when there is none.
pub open spec fn first_index(s: Seq<u8>, d: u8) -> int
    decreases s.len(),
{
    if s.len() == 0 {
        0
    } else if s[0] == d {
        0
    } else {
        1 + first_index(s.skip(1), d)
    }
}

/// `first_index` is the least position that holds `d`.
pub proof fn lemma_first_index(s: Seq<u8>, d: u8)
    ensures
        0 <= first_index(s, d) <= s.len(),
        first_index(s, d) < s.len() ==> s[first_index(s, d)] == d,
        forall|k: int| 0 <= k < first_index(s, d) ==> s[k] != d,
    decreases s.len(),
{
    if s.len() != 0 && s[0] != d {
        lemma_first_index(s.skip(1), d);
        assert forall|k: int| 0 <= k < first_index(s, d) implies s[k] != d by {
            if k > 0 {
                assert(s.skip(1)[k - 1] == s[k]);
            }
        }
    }
}

/// A position that holds `d` with none before it is the first index.
pub proof fn lemma_first_index_is(s: Seq<u8>, d: u8, i: int)
    requires
        0 <= i <= s.len(),
        i < s.len() ==> s[i] == d,
        forall|k: int| 0 <= k < i ==> s[k] != d,
    ensures
        first_index(s, d) == i,
{
    lemma_first_index(s, d);
    let f = first_index(s, d);
    if f < i {
        assert(s[f] == d);
    } else if f > i {
        assert(s[i] == d);
    }
}

/// The pieces of `s` between occurrences of `d`; always at least one piece.
pub open spec fn split(s: Seq<u8>, d: u8) -> Seq<Seq<u8>>
    decreases s.len(),
{
    let i = first_index(s, d);
    if 0 <= i < s.len() {
        seq![s.take(i)] + split(s.skip(i + 1), d)
    } else {
        seq![s]
    }
}

/// Every byte of a text that is not the delimiter stands in one of its pieces.
pub proof fn lemma_split_covers(s: Seq<u8>, d: u8, i: int) -> (at: (int, int))
    requires
        0 <= i < s.len(),
        s[i] != d,
    ensures
        0 <= at.0 < split(s, d).len(),
        0 <= at.1 < split(s, d)[at.0].len(),
        split(s, d)[at.0][at.1] == s[i],
    decreases s.len(),
{
    lemma_first_index(s, d);
    let f = first_index(s, d);
    if f >= s.len() {
        (0, i)
    } else if i < f {
        assert(s.take(f)[i] == s[i]);
        (0, i)
    } else {
        assert(s.skip(f + 1)[i - f - 1] == s[i]);
        let inner = lemma_split_covers(s.skip(f + 1), d, i - f - 1);
        assert(split(s, d)[inner.0 + 1] == split(s.skip(f + 1), d)[inner.0]);
        (inner.0 + 1, inner.1)
    }
}

/// Whether two byte strings hold the same bytes.
pub fn bytes_eq(a: &[u8], b: &[u8]) -> (same: bool)
    ensures
        same == (a@ == b@),
{
    if a.len() != b.len() {
        return false;
    }
    let mut i: usize = 0;
    while i < a.len()
        invariant
            a@.len() == b@.len(),
            0 <= i <= a@.len(),
            forall|k: int| 0 <= k < i ==> a@[k] == b@[k],
        decreases a@.len() - i,
    {
        if a[i] != b[i] {
            return false;
        }
        i += 1;
    }
    assert(a@ =~= b@);
    true
}

/// Whether `s` begins with the bytes of `p`.
pub fn starts_with(s: &[u8], p: &[u8]) -> (yes: bool)
    ensures
        yes == p@.is_prefix_of(s@),
{
    if p.len() > s.len() {
        return false;
    }
    let mut i: usize = 0;
    while i < p.len()
        invariant
            p@.len() <= s@.len(),
            0 <= i <= p@.len(),
            forall|k: int| 0 <= k < i ==> s@[k] == p@[k],
        decreases p@.len() - i,
    {
        if s[i] != p[i] {
            assert(s@.subrange(0, p@.len() as int)[i as int] != p@[i as int]);
            return false;
        }
        i += 1;
    }
    assert(p@ =~= s@.subrange(0, p@.len() as int));
    true
}

/// Position of the first `d` at or after `from`, or the length when there is none.
pub fn find_byte(s: &[u8], from: usize, d: u8) -> (at: usize)
    requires
        from <= s@.len(),
    ensures
        at == from + first_index(s@.skip(from as int), d),
        from <= at <= s@.len(),
{
    let mut i: usize = from;
    while i < s.len() && s[i] != d
        invariant
            from <= i <= s@.len(),
            forall|k: int| from <= k < i ==> s@[k] != d,
        decreases s@.len() - i,
    {
        i += 1;
    }
    proof {
        lemma_first_index_is(s@.skip(from as int), d, i - from);
    }
    i
}

/// The views of a vector of byte slices, piece by piece.
pub open spec fn pieces(v: Seq<&[u8]>) -> Seq<Seq<u8>> {
    Seq::new(v.len(), |i: int| v[i]@)
}

/// Splits `s` at every occurrence of `d`.
pub fn split_fields<'a>(s: &'a [u8], d: u8) -> (out: Vec<&'a [u8]>)
    ensures
        pieces(out@) == split(s@, d),
{
    let mut out: Vec<&'a [u8]> = Vec::new();
    let mut start: usize = 0;
    proof {
        assert(s@.skip(0) =~= s@);
        assert(pieces(out@) + split(s@, d) =~= split(s@, d));
    }
    loop
        invariant_except_break
            0 <= start <= s@.len(),
            split(s@, d) == pieces(out@) + split(s@.skip(start as int), d),
        ensures
            pieces(out@) == split(s@, d),
        decreases s@.len() - start,
    {
        let at = find_byte(s, start, d);
        let ghost rest = s@.skip(start as int);
        let ghost before = pieces(out@);
        out.push(vstd::slice::slice_subrange(s, start, at));
        proof {
            assert(pieces(out@) =~= before.push(rest.take(at - start))) by {
                assert(rest.take(at - start) =~= s@.subrange(start as int, at as int));
            }
        }
        if at >= s.len() {
            proof {
                assert(rest.take(at - start) =~= rest);
                assert(split(rest, d) =~= seq![rest]);
                assert(before + seq![rest] =~= before.push(rest));
            }
            break;
        }
        proof {
            assert(rest.skip(at - start + 1) =~= s@.skip(at + 1));
            assert(split(rest, d) == seq![rest.take(at - start)] + split(s@.skip(at + 1), d));
            assert(before + (seq![rest.take(at - start)] + split(s@.skip(at + 1), d))
                =~= before.push(rest.take(at - start)) + split(s@.skip(at + 1), d));
        }
        start = at + 1;
    }
    out
}

/// Whether `s` begins with the three bytes `chr`.
pub open spec fn has_chr_prefix(s: Seq<u8>) -> bool {
    s.len() >= 3 && s[0] == LOWER_C && s[1] == LOWER_H && s[2] == LOWER_R
}

/// A chromosome name without any leading `chr`: the prefix is removed as often
/// as it stands at the front, so `chrchr1` and `chr1` both name `1`.
pub open spec fn normalized(s: Seq<u8>) -> Seq<u8>
    decreases s.len(),
{
    if has_chr_prefix(s) {
        normalized(s.skip(3))
    } else {
        s
    }
}

/// Normalizing is idempotent: a normalized name has no `chr` left at its
/// front, so normalizing it again changes nothing.
pub proof fn lemma_normalized_idempotent(s: Seq<u8>)
    ensures
        !has_chr_prefix(normalized(s)),
        normalized(normalized(s)) == normalized(s),
    decreases s.len(),
{
    if has_chr_prefix(s) {
        lemma_normalized_idempotent(s.skip(3));
    }
}

/// Whether a chromosome name begins with `chr`.
pub fn uses_chr_prefix(chrom: &[u8]) -> (yes: bool)
    ensures
        yes == has_chr_prefix(chrom@),
{
    chrom.len() >= 3 && chrom[0] == LOWER_C && chrom[1] == LOWER_H && chrom[2] == LOWER_R
}

/// Strips every leading `chr` from a chromosome name.
pub fn normalize_chromosome<'a>(chrom: &'a [u8]) -> (out: &'a [u8])
    ensures
        out@ == normalized(chrom@),
{
    let mut start: usize = 0;
    proof {
        assert(chrom@.skip(0) =~= chrom@);
    }
    while chrom.len() - start >= 3 && chrom[start] == LOWER_C && chrom[start + 1] == LOWER_H && chrom[start
        + 2] == LOWER_R
        invariant
            0 <= start <= chrom@.len(),
            normalized(chrom@) == normalized(chrom@.skip(start as int)),
        decreases chrom@.len() - start,
    {
        proof {
            assert(chrom@.skip(start as int).skip(3) =~= chrom@.skip(start + 3));
        }
        start += 3;
    }
    let out = vstd::slice::slice_subrange(chrom, start, chrom.len());
    proof {
        assert(out@ =~= chrom@.skip(start as int));
    }
    out
}

/// Whether `b` is an ASCII decimal digit.
pub open spec fn is_digit(b: u8) -> bool {
    DIGIT_0 <= b <= DIGIT_9
}

/// The value of one digit; zero for any other byte.
pub open spec fn digit_value(b: u8) -> nat {
    if is_digit(b) {
        (b - DIGIT_0) as nat
    } else {
        0
    }
}

/// Whether every byte of `s` is a decimal digit.
pub open spec fn all_digits(s: Seq<u8>) -> bool {
    forall|i: int| 0 <= i < s.len() ==> is_digit(#[trigger] s[i])
}

/// The number that a string of digits writes in base ten.
pub open spec fn decimal_value(s: Seq<u8>) -> nat
    decreases s.len(),
{
    if s.len() == 0 {
        0
    } else {
        decimal_value(s.drop_last()) * 10 + digit_value(s.last())
    }
}

/// A longer string of digits never writes a smaller number than its prefix.
pub proof fn lemma_decimal_value_prefix(s: Seq<u8>, k: int)
    requires
        0 <= k <= s.len(),
    ensures
        decimal_value(s.take(k)) <= decimal_value(s),
    decreases s.len(),
{
    if k == s.len() {
        assert(s.take(k) =~= s);
    } else {
        lemma_decimal_value_prefix(s.drop_last(), k);
        assert(s.drop_last().take(k) =~= s.take(k));
    }
}

/// The digits of an unsigned number: the text without one leading `+`.
pub open spec fn unsigned_digits(s: Seq<u8>) -> Seq<u8> {
    if s.len() > 0 && s[0] == PLUS {
        s.skip(1)
    } else {
        s
    }
}

/// What a text is as an unsigned 32-bit decimal number: an optional `+`, then
/// one or more digits whose value fits; anything else is no number.
pub open spec fn parsed_u32(s: Seq<u8>) -> Option<u32> {
    let d = unsigned_digits(s);
    if d.len() > 0 && all_digits(d) && decimal_value(d) <= u32::MAX {
        Some(decimal_value(d) as u32)
    } else {
        None
    }
}

/// Reads an unsigned 32-bit decimal number.
pub fn parse_u32(text: &[u8]) -> (out: Option<u32>)
    ensures
        out == parsed_u32(text@),
{
    let start: usize = if text.len() > 0 && text[0] == PLUS {
        1
    } else {
        0
    };
    if start >= text.len() {
        return None;
    }
    let ghost d = unsigned_digits(text@);
    let mut acc: u64 = 0;
    let mut i: usize = start;
    proof {
        assert(d =~= text@.skip(start as int));
    }
    while i < text.len()
        invariant
            start <= i <= text@.len(),
            d == text@.skip(start as int),
            d == unsigned_digits(text@),
            all_digits(d.take(i - start)),
            acc == decimal_value(d.take(i - start)),
            acc <= u32::MAX,
        decreases text@.len() - i,
    {
        let b = text[i];
        if b < DIGIT_0 || b > DIGIT_9 {
            assert(!is_digit(d[i - start]));
            return None;
        }
        proof {
            assert(d.take(i + 1 - start).drop_last() =~= d.take(i - start));
            assert(d.take(i + 1 - start).last() == b);
        }
        acc = acc * 10 + (b - DIGIT_0) as u64;
        if acc > u32::MAX as u64 {
            proof {
                lemma_decimal_value_prefix(d, i + 1 - start);
            }
            return None;
        }
        i += 1;
    }
    proof {
        assert(d.take(i - start) =~= d);
    }
    Some(acc as u32)
}

/// Whether the bytes are well-formed UTF-8, as `std::str::from_utf8` judges
/// them: it accepts exactly the byte strings that are valid UTF-8.
#[verifier::external_body]
pub(crate) fn decodes_as_text(bytes: &[u8]) -> (ok: bool)
    ensures
        ok == vstd::utf8::valid_utf8(bytes@),
{
    std::str::from_utf8(bytes).is_ok()
}

/// The bytes of a text that is written in ASCII.
pub open spec fn ascii(s: &str) -> Seq<u8> {
    Seq::new(s@.len(), |i: int| s@[i] as u8)
}

/// The bytes of a text that is written in ASCII.
pub(crate) fn ascii_bytes(s: &str) -> (out: &[u8])
    requires
        vstd::string::is_ascii(s),
    ensures
        out@ == ascii(s),
{
    s.as_bytes()
}

} // verus!
