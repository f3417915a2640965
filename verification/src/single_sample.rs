//! Scoring a file with a single sample.

use vstd::prelude::*;
use vstd::slice::slice_subrange;
use crate::chunks::score_in_chunks;
use crate::common::{after_decoding, ChromosomeFormat};
use crate::container::{compression_of, decode, decoded, Compression};
use crate::multi_sample::multi_score_of;
use crate::error::{FormatError, VcfError};
use crate::header::{body_lines, lacks_header, resolve_header};
use crate::lines::{lines, next_line};
use crate::sample::{SampleData, Tally};
use crate::scoring::{chr_format_of, lemma_tally_counts, tally_of, undecodable_count};
use crate::text::{decodes_as_text, HASH};
use crate::variant::process_single_sample_line;
use crate::weights::WeightTable;

verus! {

/// Scores a text of whole lines for the sample in the first sample column.
/// Returns the totals, and the number of lines that were skipped because they
/// are not valid text. Empty lines and comment lines are passed over.
pub fn score_text(text: &[u8], table: &WeightTable) -> (out: (SampleData, usize))
    requires
        table.wf(),
    ensures
        out.0.wf(),
        out.0@ == tally_of(lines(text@), table@, 0),
        out.1 == undecodable_count(lines(text@)),
{
    let mut totals = SampleData::new();
    let mut skipped: usize = 0;
    let mut at: usize = 0;
    let ghost all = lines(text@);
    let ghost mut done: Seq<Seq<u8>> = Seq::empty();
    proof {
        assert(text@.skip(0) =~= text@);
        assert(done + all =~= all);
    }
    while at < text.len()
        invariant
            table.wf(),
            0 <= at <= text@.len(),
            all == lines(text@),
            all == done + lines(text@.skip(at as int)),
            done.len() <= at,
            totals.wf(),
            totals@ == tally_of(done, table@, 0),
            skipped == undecodable_count(done),
        decreases text@.len() - at,
    {
        let (line, next) = next_line(text, at);
        let ghost grown = done.push(line@);
        proof {
            assert(grown.drop_last() =~= done);
            assert(done + (seq![line@] + lines(text@.skip(next as int))) =~= grown + lines(
                text@.skip(next as int),
            ));
            lemma_tally_counts(done, table@, 0);
        }
        if line.len() > 0 && line[0] != HASH {
            if decodes_as_text(line) {
                let term = process_single_sample_line(line, table);
                totals.record(term);
            } else {
                skipped = skipped + 1;
            }
        }
        proof {
            done = grown;
        }
        at = next;
    }
    proof {
        assert(text@.skip(at as int) =~= Seq::<u8>::empty());
        assert(done + lines(text@.skip(at as int)) =~= done);
    }
    (totals, skipped)
}

/// The result of scoring a single-sample file.
#[derive(Clone, Debug, PartialEq, Eq)]
pub struct SingleScore {
    /// The totals of the sample.
    pub totals: SampleData,
    /// The number of lines that were skipped because they are not valid text.
    pub skipped_lines: usize,
    /// How the file writes its chromosomes.
    pub vcf_chr_format: ChromosomeFormat,
}

/// The result of scoring a single-sample file, as values.
pub ghost struct SingleView {
    pub totals: Tally,
    pub skipped: nat,
    pub has_chr_prefix: bool,
}

impl View for SingleScore {
    type V = SingleView;

    open spec fn view(&self) -> SingleView {
        SingleView {
            totals: self.totals@,
            skipped: self.skipped_lines as nat,
            has_chr_prefix: self.vcf_chr_format.has_chr_prefix,
        }
    }
}

/// What scoring a variant text for its first sample gives: the totals over the
/// lines after the column header, the number of those lines that are skipped,
/// and the naming convention of the first data line among them. A text
/// without a column header is an error.
pub open spec fn single_score_of(text: Seq<u8>, table: Map<(Seq<u8>, u32), (Seq<u8>, usize)>) -> Result<
    SingleView,
    VcfError,
> {
    if lacks_header(text) {
        Err(VcfError::InvalidFormat(FormatError::HeaderNotFound))
    } else {
        Ok(
            SingleView {
                totals: tally_of(body_lines(text), table, 0),
                skipped: undecodable_count(body_lines(text)),
                has_chr_prefix: chr_format_of(body_lines(text)),
            },
        )
    }
}

/// A scoring result, as values.
pub open spec fn single_view(r: Result<SingleScore, VcfError>) -> Result<SingleView, VcfError> {
    match r {
        Ok(score) => Ok(score@),
        Err(e) => Err(e),
    }
}

/// The size of the byte ranges into which a text is cut for scoring.
pub const CHUNK_SIZE: usize = 4194304;

/// Scores a decoded variant text for its first sample, chunk by chunk.
pub fn score_single_sample(text: &[u8], table: &WeightTable) -> (out: Result<SingleScore, VcfError>)
    requires
        table.wf(),
    ensures
        single_view(out) == single_score_of(text@, table@),
        out matches Ok(score) ==> score.totals.wf(),
{
    let header = match resolve_header(text) {
        Ok(header) => header,
        Err(e) => {
            return Err(VcfError::InvalidFormat(e));
        },
    };
    let body = slice_subrange(text, header.body_start, text.len());
    proof {
        assert(body@ =~= text@.skip(header.body_start as int));
    }
    let (totals, skipped_lines) = score_in_chunks(body, table, CHUNK_SIZE);
    let vcf_chr_format = ChromosomeFormat::of_text(body);
    Ok(SingleScore { totals, skipped_lines, vcf_chr_format })
}

/// Scores a single-sample variant file from its bytes, whatever its container.
pub fn calculate_polygenic_score(data: &[u8], table: &WeightTable) -> (out: Result<
    SingleScore,
    VcfError,
>)
    requires
        table.wf(),
    ensures
        single_view(out) == after_decoding(
            decoded(data@),
            |text: Seq<u8>| single_score_of(text, table@),
        ),
        out matches Ok(score) ==> score.totals.wf(),
{
    match decode(data) {
        Err(e) => Err(VcfError::InvalidFormat(e)),
        Ok(text) => score_single_sample(text.as_slice(), table),
    }
}

/// The container does not show in a score: two files that decode to the same
/// text, be they plain, gzip or block gzip, give the same result.
pub proof fn lemma_container_is_invisible(
    a: Seq<u8>,
    b: Seq<u8>,
    table: Map<(Seq<u8>, u32), (Seq<u8>, usize)>,
)
    requires
        decoded(a) == decoded(b),
    ensures
        after_decoding(decoded(a), |text: Seq<u8>| single_score_of(text, table)) == after_decoding(
            decoded(b),
            |text: Seq<u8>| single_score_of(text, table),
        ),
        after_decoding(decoded(a), |text: Seq<u8>| multi_score_of(text, table)) == after_decoding(
            decoded(b),
            |text: Seq<u8>| multi_score_of(text, table),
        ),
{
}

/// A plain file is its own text: a file that begins with neither magic is
/// scored as it stands.
pub proof fn lemma_plain_text_is_scored_as_it_stands(
    text: Seq<u8>,
    table: Map<(Seq<u8>, u32), (Seq<u8>, usize)>,
)
    requires
        compression_of(text) == Compression::Plain,
    ensures
        after_decoding(decoded(text), |t: Seq<u8>| single_score_of(t, table)) == single_score_of(
            text,
            table,
        ),
        after_decoding(decoded(text), |t: Seq<u8>| multi_score_of(t, table)) == multi_score_of(
            text,
            table,
        ),
{
}

} // verus!
