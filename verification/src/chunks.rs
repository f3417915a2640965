//! Cutting a text into chunks of whole lines, and reducing the chunks' results.

use vstd::prelude::*;
use vstd::slice::slice_subrange;
use crate::lines::{at_line_start, lemma_lines_concat, lemma_lines_len, lines, next_line};
use crate::sample::{SampleData, Tally};
use crate::scoring::{lemma_tally_concat, lemma_tally_counts, tally_of, undecodable_count};
use crate::single_sample::score_text;
use crate::text::{find_byte, first_index, lemma_first_index, NEWLINE};
use crate::weights::WeightTable;

verus! {

/// Where the chunk with nominal start `nominal` really begins: at the start
/// of the text if `nominal` is zero, else right after the first line feed at
/// or after `nominal`, and at the end of the text if there is none. The line
/// that `nominal` falls into, or begins, is thereby left to the chunk before.
pub open spec fn cut_after(text: Seq<u8>, nominal: int) -> int {
    if nominal <= 0 {
        0
    } else if nominal >= text.len() {
        text.len() as int
    } else {
        let feed = nominal + first_index(text.skip(nominal), NEWLINE);
        if feed < text.len() {
            feed + 1
        } else {
            text.len() as int
        }
    }
}

/// A cut is a place where a line may begin, at or after its nominal offset
/// unless the text ends before.
pub proof fn lemma_cut_after(text: Seq<u8>, nominal: int)
    ensures
        at_line_start(text, cut_after(text, nominal)),
        0 <= nominal <= text.len() ==> nominal <= cut_after(text, nominal),
        0 < nominal < text.len() ==> forall|k: int|
            nominal <= k < cut_after(text, nominal) - 1 ==> text[k] != NEWLINE,
{
    if 0 < nominal < text.len() {
        let rest = text.skip(nominal);
        lemma_first_index(rest, NEWLINE);
        let f = first_index(rest, NEWLINE);
        if nominal + f < text.len() {
            assert(rest[f] == text[nominal + f]);
        }
        assert forall|k: int| nominal <= k < cut_after(text, nominal) - 1 implies text[k]
            != NEWLINE by {
            assert(rest[k - nominal] == text[k]);
        }
    }
}

/// Cuts never cross: a later nominal offset gives no earlier cut.
pub proof fn lemma_cut_monotone(text: Seq<u8>, x: int, y: int)
    requires
        x <= y,
    ensures
        cut_after(text, x) <= cut_after(text, y),
{
    lemma_cut_after(text, x);
    lemma_cut_after(text, y);
    if 0 < x && y < text.len() {
        let cx = cut_after(text, x);
        let cy = cut_after(text, y);
        if cy < cx {
            // the feed that ends the chunk at y stands before the first feed at or after x
            assert(text[cy - 1] == NEWLINE);
            assert(x <= cy - 1 < cx - 1);
        }
    }
}

/// Finds where the chunk with nominal start `nominal` really begins.
pub fn chunk_cut(text: &[u8], nominal: usize) -> (cut: usize)
    ensures
        cut == cut_after(text@, nominal as int),
        at_line_start(text@, cut as int),
{
    proof {
        lemma_cut_after(text@, nominal as int);
    }
    if nominal == 0 {
        0
    } else if nominal >= text.len() {
        text.len()
    } else {
        let feed = find_byte(text, nominal, NEWLINE);
        if feed < text.len() {
            feed + 1
        } else {
            text.len()
        }
    }
}

/// Whether `bounds` cuts a text into chunks of whole lines: the first bound is
/// the start of the text, the last its end, no bound stands before the one
/// before it, and at every bound a line may begin.
pub open spec fn is_line_cover(bounds: Seq<usize>, text: Seq<u8>) -> bool {
    &&& bounds.len() >= 1
    &&& bounds[0] == 0
    &&& bounds.last() == text.len()
    &&& forall|i: int| 0 <= i < bounds.len() ==> at_line_start(text, #[trigger] bounds[i] as int)
    &&& forall|i: int, j: int| 0 <= i <= j < bounds.len() ==> bounds[i] <= bounds[j]
}

/// The number of ranges of `size` bytes that it takes to cover `len` bytes.
pub open spec fn range_count(len: int, size: int) -> int {
    if len <= 0 {
        0
    } else {
        (len - 1) / size + 1
    }
}

/// The bounds of the chunks of a text for ranges of `chunk_size` bytes: bound
/// `i` is the cut for the nominal offset `i * chunk_size`.
pub open spec fn bounds_of(text: Seq<u8>, chunk_size: int) -> Seq<usize> {
    Seq::new(
        (range_count(text.len() as int, chunk_size) + 1) as nat,
        |i: int| cut_after(text, i * chunk_size) as usize,
    )
}

/// The bounds for ranges of a given size cut the text into chunks of whole lines.
pub proof fn lemma_bounds_cover(text: Seq<u8>, chunk_size: int)
    requires
        chunk_size > 0,
        text.len() <= usize::MAX,
    ensures
        is_line_cover(bounds_of(text, chunk_size), text),
{
    let b = bounds_of(text, chunk_size);
    let n = range_count(text.len() as int, chunk_size);
    assert(n >= 0 && n * chunk_size >= text.len()) by (nonlinear_arith)
        requires
            chunk_size > 0,
            text.len() >= 0,
            n == range_count(text.len() as int, chunk_size),
    {
        if text.len() > 0 {
            let q = (text.len() - 1) / chunk_size;
            assert((text.len() - 1) == q * chunk_size + (text.len() - 1) % chunk_size);
            assert((text.len() - 1) % chunk_size < chunk_size);
            assert((q + 1) * chunk_size == q * chunk_size + chunk_size);
        }
    }
    assert forall|i: int| 0 <= i < b.len() implies at_line_start(text, #[trigger] b[i] as int) by {
        lemma_cut_after(text, i * chunk_size);
    }
    assert forall|i: int, j: int| 0 <= i <= j < b.len() implies b[i] <= b[j] by {
        assert(i * chunk_size <= j * chunk_size) by (nonlinear_arith)
            requires
                0 <= i <= j,
                chunk_size > 0,
        ;
        lemma_cut_monotone(text, i * chunk_size, j * chunk_size);
        lemma_cut_after(text, i * chunk_size);
        lemma_cut_after(text, j * chunk_size);
    }
    lemma_cut_after(text, 0);
    lemma_cut_after(text, n * chunk_size);
    assert(0 * chunk_size == 0);
}

/// Cuts a text into chunks of whole lines for ranges of `chunk_size` bytes.
pub fn chunk_bounds(text: &[u8], chunk_size: usize) -> (bounds: Vec<usize>)
    requires
        chunk_size > 0,
    ensures
        bounds@ == bounds_of(text@, chunk_size as int),
        is_line_cover(bounds@, text@),
{
    let mut bounds: Vec<usize> = Vec::new();
    bounds.push(0);
    let mut nominal: usize = 0;
    let total = text.len();
    assert(text@.len() == total);
    let ghost mut i: int = 0;
    let ghost n = range_count(text@.len() as int, chunk_size as int);
    proof {
        lemma_bounds_cover(text@, chunk_size as int);
        assert(0 * chunk_size == 0);
    }
    while nominal < text.len()
        invariant
            chunk_size > 0,
            0 <= i <= n,
            n == range_count(text@.len() as int, chunk_size as int),
            nominal == if i < n {
                i * chunk_size
            } else {
                text@.len() as int
            },
            i < n <==> nominal < text@.len(),
            bounds@.len() == i + 1,
            forall|k: int|
                0 <= k <= i ==> #[trigger] bounds@[k] == cut_after(text@, k * chunk_size) as usize,
        decreases text@.len() - nominal,
    {
        let ghost len = text@.len() as int;
        let ghost size = chunk_size as int;
        proof {
            assert((i + 1) * size == i * size + size) by (nonlinear_arith);
            // the ranges before the last end inside the text, the last one at or after its end
            assert(i + 1 < n ==> (i + 1) * size < len) by (nonlinear_arith)
                requires
                    size > 0,
                    len > 0,
                    n == (len - 1) / size + 1,
                    0 <= i,
            {
                if i + 1 < n {
                    assert(i + 1 <= (len - 1) / size);
                    assert((len - 1) == ((len - 1) / size) * size + (len - 1) % size);
                    assert((len - 1) % size >= 0);
                    assert((i + 1) * size <= ((len - 1) / size) * size);
                }
            }
            assert(i + 1 >= n ==> (i + 1) * size >= len) by (nonlinear_arith)
                requires
                    size > 0,
                    len > 0,
                    n == (len - 1) / size + 1,
                    0 <= i,
            {
                if i + 1 >= n {
                    assert(i + 1 >= (len - 1) / size + 1);
                    assert((len - 1) == ((len - 1) / size) * size + (len - 1) % size);
                    assert((len - 1) % size < size);
                    assert((i + 1) * size >= ((len - 1) / size + 1) * size);
                    assert(((len - 1) / size + 1) * size == ((len - 1) / size) * size + size);
                }
            }
        }
        nominal = if text.len() - nominal <= chunk_size {
            text.len()
        } else {
            nominal + chunk_size
        };
        let cut = chunk_cut(text, nominal);
        proof {
            if i + 1 >= n {
                assert(cut_after(text@, (i + 1) * size) == len);
            }
            i = i + 1;
        }
        bounds.push(cut);
    }
    proof {
        assert(bounds@ =~= bounds_of(text@, chunk_size as int));
    }
    bounds
}

/// The totals of a sample, reduced over the chunks that `bounds` cuts.
pub open spec fn chunked_tally(
    text: Seq<u8>,
    bounds: Seq<usize>,
    table: Map<(Seq<u8>, u32), (Seq<u8>, usize)>,
    sample: int,
) -> Tally
    decreases bounds.len(),
{
    if bounds.len() <= 1 {
        Tally::zero()
    } else {
        let n = bounds.len();
        chunked_tally(text, bounds.drop_last(), table, sample).plus(
            tally_of(
                lines(text.subrange(bounds[n - 2] as int, bounds[n - 1] as int)),
                table,
                sample,
            ),
        )
    }
}

/// The number of undecodable lines, summed over the chunks that `bounds` cuts.
pub open spec fn chunked_undecodable(text: Seq<u8>, bounds: Seq<usize>) -> nat
    decreases bounds.len(),
{
    if bounds.len() <= 1 {
        0
    } else {
        let n = bounds.len();
        chunked_undecodable(text, bounds.drop_last()) + undecodable_count(
            lines(text.subrange(bounds[n - 2] as int, bounds[n - 1] as int)),
        )
    }
}

/// Whether `bounds` cuts some prefix of a text into chunks of whole lines.
pub open spec fn is_line_cover_up_to(bounds: Seq<usize>, text: Seq<u8>) -> bool {
    &&& bounds.len() >= 1
    &&& bounds[0] == 0
    &&& forall|i: int| 0 <= i < bounds.len() ==> at_line_start(text, #[trigger] bounds[i] as int)
    &&& forall|i: int, j: int| 0 <= i <= j < bounds.len() ==> bounds[i] <= bounds[j]
}

/// Reducing over chunks of whole lines gives the totals of the text that the
/// chunks cover, however many chunks there are and wherever they are cut.
pub proof fn lemma_chunks_up_to(
    text: Seq<u8>,
    bounds: Seq<usize>,
    table: Map<(Seq<u8>, u32), (Seq<u8>, usize)>,
    sample: int,
)
    requires
        is_line_cover_up_to(bounds, text),
    ensures
        chunked_tally(text, bounds, table, sample) == tally_of(
            lines(text.take(bounds.last() as int)),
            table,
            sample,
        ),
        chunked_undecodable(text, bounds) == undecodable_count(
            lines(text.take(bounds.last() as int)),
        ),
    decreases bounds.len(),
{
    let n = bounds.len();
    if n == 1 {
        assert(text.take(0) =~= Seq::<u8>::empty());
    } else {
        let shorter = bounds.drop_last();
        assert(is_line_cover_up_to(shorter, text)) by {
            assert forall|i: int| 0 <= i < shorter.len() implies at_line_start(
                text,
                #[trigger] shorter[i] as int,
            ) by {
                assert(shorter[i] == bounds[i]);
            }
        }
        lemma_chunks_up_to(text, shorter, table, sample);
        let from = bounds[n - 2] as int;
        let to = bounds[n - 1] as int;
        assert(shorter.last() == bounds[n - 2]);
        assert(at_line_start(text, bounds[n - 2] as int));
        assert(at_line_start(text, bounds[n - 1] as int));
        let head = text.take(from);
        let piece = text.subrange(from, to);
        assert(text.take(to) =~= head + piece);
        if from == text.len() && from > 0 {
            assert(piece =~= Seq::<u8>::empty());
            assert(head + piece =~= head);
            assert(lines(head) + lines(piece) =~= lines(head));
        } else {
            assert(crate::lines::ends_lines(head)) by {
                if from > 0 {
                    assert(head.last() == text[from - 1]);
                }
            }
            lemma_lines_concat(head, piece);
        }
        lemma_tally_concat(lines(head), lines(piece), table, sample);
    }
}

/// Reduction over chunks does not depend on the chunking: for every way of
/// cutting a text into chunks of whole lines, the reduced totals are the
/// totals of the whole text.
pub proof fn lemma_chunking_is_invisible(
    text: Seq<u8>,
    bounds: Seq<usize>,
    table: Map<(Seq<u8>, u32), (Seq<u8>, usize)>,
    sample: int,
)
    requires
        is_line_cover(bounds, text),
    ensures
        chunked_tally(text, bounds, table, sample) == tally_of(lines(text), table, sample),
        chunked_undecodable(text, bounds) == undecodable_count(lines(text)),
{
    lemma_chunks_up_to(text, bounds, table, sample);
    assert(text.take(text.len() as int) =~= text);
}

/// Scores every chunk that `bounds` cuts and reduces the results in the order
/// of the chunks. Returns the totals of the first sample, and the number of
/// lines that were skipped because they are not valid text.
pub fn reduce_chunks(text: &[u8], bounds: &Vec<usize>, table: &WeightTable) -> (out: (
    SampleData,
    usize,
))
    requires
        table.wf(),
        is_line_cover(bounds@, text@),
    ensures
        out.0.wf(),
        out.0@ == chunked_tally(text@, bounds@, table@, 0),
        out.1 == chunked_undecodable(text@, bounds@),
        out.0@ == tally_of(lines(text@), table@, 0),
        out.1 == undecodable_count(lines(text@)),
{
    let mut totals = SampleData::new();
    let mut skipped: usize = 0;
    let mut i: usize = 0;
    let total = text.len();
    let count = bounds.len();
    proof {
        lemma_chunking_is_invisible(text@, bounds@, table@, 0);
    }
    while i + 1 < count
        invariant
            table.wf(),
            count == bounds@.len(),
            is_line_cover(bounds@, text@),
            text@.len() <= usize::MAX,
            0 <= i < bounds@.len(),
            totals.wf(),
            totals@ == chunked_tally(text@, bounds@.take(i + 1), table@, 0),
            skipped == chunked_undecodable(text@, bounds@.take(i + 1)),
        decreases bounds@.len() - i,
    {
        let from = bounds[i];
        let to = bounds[i + 1];
        let ghost so_far = bounds@.take(i + 1);
        let ghost next = bounds@.take(i + 2);
        let ghost piece = text@.subrange(from as int, to as int);
        proof {
            assert(from <= to);
            assert(at_line_start(text@, to as int));
            assert(next.drop_last() =~= so_far);
            assert(next[next.len() - 2] == from);
            assert(next[next.len() - 1] == to);
            // what was seen so far lies before `from`, what the piece adds lies in it
            assert(is_line_cover_up_to(so_far, text@)) by {
                assert forall|k: int| 0 <= k < so_far.len() implies at_line_start(
                    text@,
                    #[trigger] so_far[k] as int,
                ) by {
                    assert(so_far[k] == bounds@[k]);
                }
            }
            lemma_chunks_up_to(text@, so_far, table@, 0);
            lemma_tally_counts(lines(text@.take(from as int)), table@, 0);
            lemma_lines_len(text@.take(from as int));
            lemma_tally_counts(lines(piece), table@, 0);
            lemma_lines_len(piece);
        }
        let part = score_text(slice_subrange(text, from, to), table);
        totals.merge(&part.0);
        skipped = skipped + part.1;
        i += 1;
    }
    proof {
        assert(bounds@.take(i + 1) =~= bounds@);
    }
    (totals, skipped)
}

/// Scores a text in chunks of about `chunk_size` bytes. The result is that of
/// scoring the text as a whole: the size of the chunks, and so their number,
/// does not show in it.
pub fn score_in_chunks(text: &[u8], table: &WeightTable, chunk_size: usize) -> (out: (
    SampleData,
    usize,
))
    requires
        table.wf(),
        chunk_size > 0,
    ensures
        out.0.wf(),
        out.0@ == tally_of(lines(text@), table@, 0),
        out.1 == undecodable_count(lines(text@)),
{
    let bounds = chunk_bounds(text, chunk_size);
    reduce_chunks(text, &bounds, table)
}

/// The number of lines of the chunk between two bounds.
pub open spec fn lines_between(text: Seq<u8>, from: int, to: int) -> nat {
    lines(text.subrange(from, to)).len()
}

/// Whether `bounds` cuts a text into batches of `batch_lines` lines: every
/// batch but the last holds that many lines, and the last holds the lines
/// that are left, one at least.
pub open spec fn is_batch_cover(bounds: Seq<usize>, text: Seq<u8>, batch_lines: int) -> bool {
    &&& is_line_cover(bounds, text)
    &&& forall|k: int|
        0 <= k < bounds.len() - 2 ==> lines_between(
            text,
            #[trigger] bounds[k] as int,
            bounds[k + 1] as int,
        ) == batch_lines
    &&& bounds.len() >= 2 ==> 1 <= lines_between(
        text,
        bounds[bounds.len() - 2] as int,
        bounds.last() as int,
    ) <= batch_lines
}

/// The lines between two places where a line may begin are those that follow
/// the first place, less those that follow the second.
pub proof fn lemma_lines_between(text: Seq<u8>, from: int, to: int)
    requires
        at_line_start(text, from),
        at_line_start(text, to),
        from <= to,
    ensures
        lines(text.skip(from)) == lines(text.subrange(from, to)) + lines(text.skip(to)),
{
    let rest = text.skip(from);
    assert(rest.take(to - from) =~= text.subrange(from, to));
    assert(rest.skip(to - from) =~= text.skip(to));
    assert(at_line_start(rest, to - from)) by {
        if to - from > 0 && to - from < rest.len() {
            assert(rest[to - from - 1] == text[to - 1]);
        }
    }
    crate::lines::lemma_lines_cut(rest, to - from);
}

/// Cuts a text into batches of `batch_lines` whole lines, in order.
pub fn line_batch_bounds(text: &[u8], batch_lines: usize) -> (bounds: Vec<usize>)
    requires
        batch_lines > 0,
    ensures
        is_batch_cover(bounds@, text@, batch_lines as int),
{
    let mut bounds: Vec<usize> = Vec::new();
    bounds.push(0);
    let mut at: usize = 0;
    let mut in_batch: usize = 0;
    let ghost mut from: int = 0;
    proof {
        assert(text@.subrange(0, 0) =~= Seq::<u8>::empty());
    }
    while at < text.len()
        invariant
            batch_lines > 0,
            0 <= from <= at <= text@.len(),
            at_line_start(text@, from),
            at_line_start(text@, at as int),
            bounds@.len() >= 1,
            bounds@[0] == 0,
            bounds@.last() == from,
            0 <= in_batch < batch_lines,
            in_batch == lines_between(text@, from, at as int),
            in_batch == 0 <==> from == at,
            forall|i: int| 0 <= i < bounds@.len() ==> at_line_start(text@, #[trigger] bounds@[i] as int),
            forall|i: int, j: int| 0 <= i <= j < bounds@.len() ==> bounds@[i] <= bounds@[j],
            forall|k: int|
                0 <= k < bounds@.len() - 1 ==> lines_between(
                    text@,
                    #[trigger] bounds@[k] as int,
                    bounds@[k + 1] as int,
                ) == batch_lines,
        decreases text@.len() - at,
    {
        let (line, next) = next_line(text, at);
        proof {
            lemma_lines_between(text@, from, at as int);
            lemma_lines_between(text@, from, next as int);
            let tail = lines(text@.skip(next as int));
            assert((seq![line@] + tail).len() == 1 + tail.len());
            assert(lines(text@.skip(from)).len() == lines_between(text@, from, at as int) + (1
                + tail.len()));
            assert(lines(text@.skip(from)).len() == lines_between(text@, from, next as int)
                + tail.len());
            assert(lines_between(text@, from, next as int) == in_batch + 1);
        }
        let ghost last = from;
        in_batch = in_batch + 1;
        at = next;
        if in_batch == batch_lines {
            let ghost before = bounds@;
            bounds.push(at);
            proof {
                from = at as int;
                assert(text@.subrange(from, from) =~= Seq::<u8>::empty());
                assert forall|k: int| 0 <= k < bounds@.len() - 1 implies lines_between(
                    text@,
                    #[trigger] bounds@[k] as int,
                    bounds@[k + 1] as int,
                ) == batch_lines by {
                    if k < before.len() - 1 {
                        assert(bounds@[k] == before[k]);
                        assert(bounds@[k + 1] == before[k + 1]);
                    } else {
                        assert(bounds@[k] == last);
                    }
                }
            }
            in_batch = 0;
        }
    }
    if in_batch > 0 {
        bounds.push(at);
    }
    bounds
}

} // verus!
