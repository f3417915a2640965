//! The lines of a text, and cuts of a text that split no line.

use vstd::prelude::*;
use crate::text::{find_byte, first_index, lemma_first_index, lemma_first_index_is, CARRIAGE_RETURN, NEWLINE};

verus! {

/// A line without the carriage return that may end it.
pub open spec fn trim_cr(line: Seq<u8>) -> Seq<u8> {
    if line.len() > 0 && line.last() == CARRIAGE_RETURN {
        line.drop_last()
    } else {
        line
    }
}

/// The lines of a text. A line ends at a line feed or at the end of the text;
/// the line feed, and a carriage return right before it, are no part of the
/// line. A text that ends in a line feed has no empty last line.
pub open spec fn lines(text: Seq<u8>) -> Seq<Seq<u8>>
    decreases text.len(),
{
    if text.len() == 0 {
        Seq::empty()
    } else {
        let i = first_index(text, NEWLINE);
        if 0 <= i < text.len() {
            seq![trim_cr(text.take(i))] + lines(text.skip(i + 1))
        } else {
            seq![text]
        }
    }
}

/// A text has no more lines than bytes.
pub proof fn lemma_lines_len(text: Seq<u8>)
    ensures
        lines(text).len() <= text.len(),
    decreases text.len(),
{
    if text.len() > 0 {
        let i = first_index(text, NEWLINE);
        lemma_first_index(text, NEWLINE);
        if i < text.len() {
            lemma_lines_len(text.skip(i + 1));
        }
    }
}

/// Whether a line may begin at `at`: at the start of the text, at its end, or
/// right after a line feed.
pub open spec fn at_line_start(text: Seq<u8>, at: int) -> bool {
    0 <= at <= text.len() && (at == 0 || at == text.len() || text[at - 1] == NEWLINE)
}

/// Whether a text is made of whole lines that all end in a line feed.
pub open spec fn ends_lines(text: Seq<u8>) -> bool {
    text.len() == 0 || text.last() == NEWLINE
}

/// The lines of two texts set side by side are the lines of the first, then
/// those of the second, provided the first ends its last line.
pub proof fn lemma_lines_concat(a: Seq<u8>, b: Seq<u8>)
    requires
        ends_lines(a),
    ensures
        lines(a + b) == lines(a) + lines(b),
    decreases a.len(),
{
    if a.len() == 0 {
        assert(a + b =~= b);
        assert(lines(a) + lines(b) =~= lines(b));
    } else {
        let i = first_index(a, NEWLINE);
        lemma_first_index(a, NEWLINE);
        assert(i < a.len()) by {
            if i >= a.len() {
                assert(a[a.len() - 1] != NEWLINE);
            }
        }
        assert forall|k: int| 0 <= k < i implies (a + b)[k] != NEWLINE by {
            assert((a + b)[k] == a[k]);
        }
        assert((a + b)[i] == a[i]);
        lemma_first_index_is(a + b, NEWLINE, i);
        assert((a + b).take(i) =~= a.take(i));
        assert((a + b).skip(i + 1) =~= a.skip(i + 1) + b);
        let rest = a.skip(i + 1);
        assert(ends_lines(rest)) by {
            if rest.len() > 0 {
                assert(rest.last() == a.last());
            }
        }
        lemma_lines_concat(rest, b);
        assert(seq![trim_cr(a.take(i))] + (lines(rest) + lines(b)) =~= (seq![trim_cr(a.take(i))]
            + lines(rest)) + lines(b));
    }
}

/// Cutting a text where a line may begin cuts its lines in two.
pub proof fn lemma_lines_cut(text: Seq<u8>, at: int)
    requires
        at_line_start(text, at),
    ensures
        lines(text) == lines(text.take(at)) + lines(text.skip(at)),
{
    assert(text =~= text.take(at) + text.skip(at));
    if at == text.len() {
        assert(text.take(at) =~= text);
        assert(text.skip(at) =~= Seq::<u8>::empty());
        assert(lines(text) + lines(text.skip(at)) =~= lines(text));
    } else {
        lemma_lines_concat(text.take(at), text.skip(at));
    }
}

/// Reads the line that begins at `from`: the line, and where the next begins.
pub fn next_line<'a>(text: &'a [u8], from: usize) -> (out: (&'a [u8], usize))
    requires
        from < text@.len(),
    ensures
        from < out.1 <= text@.len(),
        at_line_start(text@, from as int) ==> at_line_start(text@, out.1 as int),
        lines(text@.skip(from as int)) == seq![out.0@] + lines(text@.skip(out.1 as int)),
{
    let at = find_byte(text, from, NEWLINE);
    let ghost rest = text@.skip(from as int);
    let mut end = at;
    if at < text.len() && end > from && text[end - 1] == CARRIAGE_RETURN {
        end = end - 1;
    }
    let line = vstd::slice::slice_subrange(text, from, end);
    let next = if at < text.len() {
        at + 1
    } else {
        at
    };
    proof {
        lemma_first_index(rest, NEWLINE);
        if at < text@.len() {
            assert(rest.take(at - from) =~= text@.subrange(from as int, at as int));
            assert(rest.skip(at - from + 1) =~= text@.skip(next as int));
            assert(line@ =~= trim_cr(rest.take(at - from)));
        } else {
            assert(rest =~= text@.subrange(from as int, at as int));
            assert(line@ =~= rest);
            assert(text@.skip(next as int) =~= Seq::<u8>::empty());
            assert(seq![line@] + lines(text@.skip(next as int)) =~= seq![line@]);
        }
    }
    (line, next)
}

} // verus!
