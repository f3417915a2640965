//! The column header of a variant file: the line that names the samples.

use vstd::prelude::*;
use vstd::slice::slice_subrange;
use crate::error::FormatError;
use crate::lines::{at_line_start, lines, next_line};
use crate::text::{ascii, ascii_bytes, pieces, starts_with};
use crate::variant::FIXED_COLUMNS;

verus! {

/// The marker with which the column header begins.
pub open spec fn header_marker() -> Seq<u8> {
    ascii("#CHROM")
}

/// Whether a line is a column header.
pub open spec fn is_header_line(line: Seq<u8>) -> bool {
    header_marker().is_prefix_of(line)
}

/// Whether a line is a column header.
pub fn line_is_header(line: &[u8]) -> (yes: bool)
    ensures
        yes == is_header_line(line@),
{
    proof {
        reveal_strlit("#CHROM");
    }
    starts_with(line, ascii_bytes("#CHROM"))
}

/// Whether a byte is white space: a blank, a tab, a line feed, a vertical
/// tab, a form feed or a carriage return.
pub open spec fn is_space(b: u8) -> bool {
    b == 32 || (9 <= b <= 13)
}

/// The length of the word at the front of `s`: of its longest prefix without
/// white space.
pub open spec fn word_len(s: Seq<u8>) -> int
    decreases s.len(),
{
    if s.len() == 0 || is_space(s[0]) {
        0
    } else {
        1 + word_len(s.skip(1))
    }
}

/// The words of a line: its longest runs of bytes that are not white space.
pub open spec fn words(s: Seq<u8>) -> Seq<Seq<u8>>
    decreases s.len(),
{
    if s.len() == 0 {
        Seq::empty()
    } else if is_space(s[0]) {
        words(s.skip(1))
    } else {
        let n = word_len(s);
        if 0 < n <= s.len() {
            seq![s.take(n)] + words(s.skip(n))
        } else {
            Seq::empty()
        }
    }
}

/// The word at the front of a text ends where the first white space stands.
pub proof fn lemma_word_len(s: Seq<u8>, n: int)
    requires
        0 <= n <= s.len(),
        forall|k: int| 0 <= k < n ==> !is_space(s[k]),
        n < s.len() ==> is_space(s[n]),
    ensures
        word_len(s) == n,
    decreases n,
{
    if n > 0 {
        assert forall|k: int| 0 <= k < n - 1 implies !is_space(s.skip(1)[k]) by {
            assert(s.skip(1)[k] == s[k + 1]);
        }
        lemma_word_len(s.skip(1), n - 1);
    }
}

/// Splits a line into its words.
pub fn split_words<'a>(s: &'a [u8]) -> (out: Vec<&'a [u8]>)
    ensures
        pieces(out@) == words(s@),
{
    let mut out: Vec<&'a [u8]> = Vec::new();
    let mut at: usize = 0;
    proof {
        assert(s@.skip(0) =~= s@);
        assert(pieces(out@) + words(s@) =~= words(s@));
    }
    while at < s.len()
        invariant
            0 <= at <= s@.len(),
            words(s@) == pieces(out@) + words(s@.skip(at as int)),
        decreases s@.len() - at,
    {
        let ghost rest = s@.skip(at as int);
        let b = s[at];
        if b == 32 || (9 <= b && b <= 13) {
            proof {
                assert(rest.skip(1) =~= s@.skip(at + 1));
            }
            at += 1;
        } else {
            let mut end: usize = at + 1;
            while end < s.len() && !(s[end] == 32 || (9 <= s[end] && s[end] <= 13))
                invariant
                    at < end <= s@.len(),
                    forall|k: int| at <= k < end ==> !is_space(s@[k]),
                decreases s@.len() - end,
            {
                end += 1;
            }
            let ghost before = pieces(out@);
            out.push(slice_subrange(s, at, end));
            proof {
                lemma_word_len(rest, end - at);
                assert(rest.take(end - at) =~= s@.subrange(at as int, end as int));
                assert(rest.skip(end - at) =~= s@.skip(end as int));
                assert(pieces(out@) =~= before.push(rest.take(end - at)));
                assert(before + (seq![rest.take(end - at)] + words(s@.skip(end as int)))
                    =~= before.push(rest.take(end - at)) + words(s@.skip(end as int)));
            }
            at = end;
        }
    }
    proof {
        assert(s@.skip(at as int) =~= Seq::<u8>::empty());
        assert(pieces(out@) + words(s@.skip(at as int)) =~= pieces(out@));
    }
    out
}

/// The sample identifiers that a column header names: its words after the
/// nine fixed columns, in file order.
pub open spec fn sample_names(header: Seq<u8>) -> Seq<Seq<u8>> {
    if words(header).len() > FIXED_COLUMNS {
        words(header).skip(FIXED_COLUMNS as int)
    } else {
        Seq::empty()
    }
}

/// The column header of a variant file.
#[derive(Clone, Debug, PartialEq, Eq)]
pub struct Header<'a> {
    /// The sample identifiers, in file order.
    pub samples: Vec<&'a [u8]>,
    /// The number of the header line among the lines of the text, from zero.
    pub line: usize,
    /// The offset at which the lines after the header begin.
    pub body_start: usize,
}

/// The number of the first header line among some lines, or the number of
/// lines when none of them is a header line.
pub open spec fn header_index(ls: Seq<Seq<u8>>) -> int
    decreases ls.len(),
{
    if ls.len() == 0 {
        0
    } else if is_header_line(ls[0]) {
        0
    } else {
        1 + header_index(ls.skip(1))
    }
}

/// A header line with none before it is the first header line.
pub proof fn lemma_header_index(ls: Seq<Seq<u8>>, i: int)
    requires
        0 <= i <= ls.len(),
        i < ls.len() ==> is_header_line(ls[i]),
        forall|j: int| 0 <= j < i ==> !is_header_line(ls[j]),
    ensures
        header_index(ls) == i,
    decreases i,
{
    if i > 0 {
        assert forall|j: int| 0 <= j < i - 1 implies !is_header_line(ls.skip(1)[j]) by {
            assert(ls.skip(1)[j] == ls[j + 1]);
        }
        lemma_header_index(ls.skip(1), i - 1);
    }
}

/// Whether a text has no column header.
pub open spec fn lacks_header(text: Seq<u8>) -> bool {
    header_index(lines(text)) >= lines(text).len()
}

/// The lines after the column header of a text: the lines that are scored.
pub open spec fn body_lines(text: Seq<u8>) -> Seq<Seq<u8>> {
    lines(text).skip(header_index(lines(text)) + 1)
}

/// The sample identifiers of a text that has a column header.
pub open spec fn samples_of(text: Seq<u8>) -> Seq<Seq<u8>> {
    sample_names(lines(text)[header_index(lines(text))])
}

/// Whether `header` is the column header of `text`: its line is the first
/// header line of the text, its samples are those that the line names, and
/// its body is the lines after that line.
pub open spec fn is_header_of(header: Header, text: Seq<u8>) -> bool {
    &&& !lacks_header(text)
    &&& header.line == header_index(lines(text))
    &&& pieces(header.samples@) == samples_of(text)
    &&& at_line_start(text, header.body_start as int)
    &&& lines(text.skip(header.body_start as int)) == body_lines(text)
}

/// Finds the column header of a variant file. Every line before it is passed
/// over. A text that ends before any header line is an error.
pub fn resolve_header<'a>(text: &'a [u8]) -> (out: Result<Header<'a>, FormatError>)
    ensures
        match out {
            Ok(header) => is_header_of(header, text@),
            Err(e) => e == FormatError::HeaderNotFound && lacks_header(text@),
        },
{
    let mut at: usize = 0;
    let mut count: usize = 0;
    let ghost all = lines(text@);
    proof {
        assert(text@.skip(0) =~= text@);
        assert(all.skip(0) =~= all);
    }
    while at < text.len()
        invariant
            0 <= at <= text@.len(),
            all == lines(text@),
            at_line_start(text@, at as int),
            count <= at,
            count <= all.len(),
            lines(text@.skip(at as int)) == all.skip(count as int),
            forall|j: int| 0 <= j < count ==> !is_header_line(#[trigger] all[j]),
        decreases text@.len() - at,
    {
        let (line, next) = next_line(text, at);
        proof {
            let rest = lines(text@.skip(at as int));
            assert(rest[0] == line@);
            assert(rest.len() >= 1);
            assert(all.skip(count as int)[0] == all[count as int]);
            assert(lines(text@.skip(next as int)) =~= all.skip(count + 1)) by {
                assert(rest.skip(1) =~= lines(text@.skip(next as int)));
                assert(all.skip(count as int).skip(1) =~= all.skip(count + 1));
            }
        }
        if line_is_header(line) {
            let fields = split_words(line);
            let mut samples = fields;
            if samples.len() > FIXED_COLUMNS {
                let ghost whole = samples@;
                let tail = samples.split_off(FIXED_COLUMNS);
                proof {
                    assert(pieces(tail@) =~= sample_names(line@)) by {
                        assert forall|i: int| 0 <= i < tail@.len() implies pieces(tail@)[i]
                            == words(line@).skip(FIXED_COLUMNS as int)[i] by {
                            assert(tail@[i] == whole[i + FIXED_COLUMNS]);
                            assert(pieces(whole)[i + FIXED_COLUMNS] == whole[i + FIXED_COLUMNS]@);
                        }
                    }
                }
                samples = tail;
            } else {
                assert(pieces(samples@).len() == samples@.len());
                samples = Vec::new();
                assert(pieces(samples@) =~= sample_names(line@));
            }
            proof {
                lemma_header_index(all, count as int);
            }
            return Ok(Header { samples, line: count, body_start: next });
        }
        count += 1;
        at = next;
    }
    proof {
        assert(text@.skip(at as int) =~= Seq::<u8>::empty());
        assert(all.skip(count as int).len() == 0);
        lemma_header_index(all, count as int);
    }
    Err(FormatError::HeaderNotFound)
}

} // verus!
