//! What a text of variant lines adds to the totals of a sample.

use vstd::prelude::*;
use vstd::utf8::valid_utf8;
use crate::sample::{lemma_plus_zero, Tally};
use crate::text::{has_chr_prefix, DIGIT_0, DIGIT_1, HASH};
use crate::genotype::{genotype_text, lemma_marker_has_no_dosage, PIPE, SLASH};
use crate::variant::{line_term, record_of};

verus! {

/// Whether a line is empty or a comment: such a line is passed over.
pub open spec fn is_passed_over(line: Seq<u8>) -> bool {
    line.len() == 0 || line[0] == HASH
}

/// Whether a line is a data line: neither empty nor a comment, and valid text.
pub open spec fn is_data_line(line: Seq<u8>) -> bool {
    !is_passed_over(line) && valid_utf8(line)
}

/// Whether a line is skipped with a warning: neither empty nor a comment, and
/// not valid text.
pub open spec fn is_undecodable(line: Seq<u8>) -> bool {
    !is_passed_over(line) && !valid_utf8(line)
}

/// The totals of the sample in column `sample` over some lines: every data
/// line is seen once, and adds its term when it is matched for the sample.
pub open spec fn tally_of(
    lines: Seq<Seq<u8>>,
    table: Map<(Seq<u8>, u32), (Seq<u8>, usize)>,
    sample: int,
) -> Tally
    decreases lines.len(),
{
    if lines.len() == 0 {
        Tally::zero()
    } else {
        let before = tally_of(lines.drop_last(), table, sample);
        if is_data_line(lines.last()) {
            before.with_line(line_term(lines.last(), table, sample))
        } else {
            before
        }
    }
}

/// The number of lines that are skipped with a warning.
pub open spec fn undecodable_count(lines: Seq<Seq<u8>>) -> nat
    decreases lines.len(),
{
    if lines.len() == 0 {
        0
    } else {
        undecodable_count(lines.drop_last()) + if is_undecodable(lines.last()) {
            1nat
        } else {
            0nat
        }
    }
}

/// The number of data lines.
pub open spec fn data_line_count(lines: Seq<Seq<u8>>) -> nat
    decreases lines.len(),
{
    if lines.len() == 0 {
        0
    } else {
        data_line_count(lines.drop_last()) + if is_data_line(lines.last()) {
            1nat
        } else {
            0nat
        }
    }
}

/// Every data line is seen once and no other line is; a line is matched at
/// most once, and adds one term when it is.
pub proof fn lemma_tally_counts(
    lines: Seq<Seq<u8>>,
    table: Map<(Seq<u8>, u32), (Seq<u8>, usize)>,
    sample: int,
)
    ensures
        tally_of(lines, table, sample).total == data_line_count(lines),
        tally_of(lines, table, sample).matched == tally_of(lines, table, sample).terms.len(),
        tally_of(lines, table, sample).matched <= tally_of(lines, table, sample).total,
        data_line_count(lines) + undecodable_count(lines) <= lines.len(),
    decreases lines.len(),
{
    if lines.len() > 0 {
        lemma_tally_counts(lines.drop_last(), table, sample);
    }
}

/// The totals over two runs of lines are the sum of the totals over each.
pub proof fn lemma_tally_concat(
    a: Seq<Seq<u8>>,
    b: Seq<Seq<u8>>,
    table: Map<(Seq<u8>, u32), (Seq<u8>, usize)>,
    sample: int,
)
    ensures
        tally_of(a + b, table, sample) == tally_of(a, table, sample).plus(
            tally_of(b, table, sample),
        ),
        undecodable_count(a + b) == undecodable_count(a) + undecodable_count(b),
    decreases b.len(),
{
    if b.len() == 0 {
        assert(a + b =~= a);
        lemma_plus_zero(tally_of(a, table, sample));
    } else {
        assert((a + b).drop_last() =~= a + b.drop_last());
        assert((a + b).last() == b.last());
        lemma_tally_concat(a, b.drop_last(), table, sample);
        let ta = tally_of(a, table, sample);
        let tb = tally_of(b.drop_last(), table, sample);
        if is_data_line(b.last()) {
            let term = line_term(b.last(), table, sample);
            assert(ta.plus(tb).with_line(term).terms =~= ta.plus(tb.with_line(term)).terms);
        }
    }
}

/// Whether the first data line among some lines begins with `chr`; false when
/// there is no data line.
pub open spec fn chr_format_of(lines: Seq<Seq<u8>>) -> bool
    decreases lines.len(),
{
    if lines.len() == 0 {
        false
    } else if is_data_line(lines[0]) {
        has_chr_prefix(lines[0])
    } else {
        chr_format_of(lines.skip(1))
    }
}

/// Missing data is seen but not matched: a data line whose genotype for a
/// sample holds any byte other than `0`, `1`, `/` and `|` (a `.`, a `2`, a
/// `3`) adds no term to the sample's score and leaves its count of matched
/// lines as it was, but counts as one more line seen.
pub proof fn lemma_missing_data_is_seen_not_matched(
    before: Seq<Seq<u8>>,
    line: Seq<u8>,
    table: Map<(Seq<u8>, u32), (Seq<u8>, usize)>,
    sample: int,
    i: int,
)
    requires
        is_data_line(line),
        record_of(line) is Some,
        0 <= sample < record_of(line)->Some_0.genotypes.len(),
        0 <= i < genotype_text(record_of(line)->Some_0.genotypes[sample]).len(),
        genotype_text(record_of(line)->Some_0.genotypes[sample])[i] != DIGIT_0,
        genotype_text(record_of(line)->Some_0.genotypes[sample])[i] != DIGIT_1,
        genotype_text(record_of(line)->Some_0.genotypes[sample])[i] != SLASH,
        genotype_text(record_of(line)->Some_0.genotypes[sample])[i] != PIPE,
    ensures
        line_term(line, table, sample).is_none(),
        tally_of(before.push(line), table, sample).terms == tally_of(before, table, sample).terms,
        tally_of(before.push(line), table, sample).matched == tally_of(
            before,
            table,
            sample,
        ).matched,
        tally_of(before.push(line), table, sample).total == tally_of(before, table, sample).total
            + 1,
{
    let gt = genotype_text(record_of(line)->Some_0.genotypes[sample]);
    lemma_marker_has_no_dosage(gt, i, true);
    lemma_marker_has_no_dosage(gt, i, false);
    assert(before.push(line).drop_last() =~= before);
}

} // verus!
