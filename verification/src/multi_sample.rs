//! Scoring a file with one accumulator per sample.

use vstd::prelude::*;
use vstd::slice::{slice_subrange, slice_to_vec};
use crate::common::{after_decoding, texts, ChromosomeFormat};
use crate::container::{decode, decoded};
use crate::error::{FormatError, VcfError};
use crate::header::{body_lines, lacks_header, resolve_header, samples_of};
use crate::lines::{lines, next_line};
use crate::sample::{SampleData, Tally};
use crate::scoring::{chr_format_of, lemma_tally_counts, tally_of, undecodable_count};
use crate::single_sample::single_score_of;
use crate::text::{decodes_as_text, pieces, HASH};
use crate::variant::{line_term, match_record, parse_variant, sample_contribution};
use crate::weights::WeightTable;

verus! {

/// Whether every accumulator is well-formed and can take `room` more lines.
pub open spec fn have_room(samples: Seq<SampleData>, room: int) -> bool {
    forall|s: int|
        0 <= s < samples.len() ==> (#[trigger] samples[s]).wf() && samples[s].total_variants + room
            <= usize::MAX
}

/// Records one data line in every accumulator: accumulator `s` belongs to the
/// sample in column `s`.
pub fn process_line(line: &[u8], table: &WeightTable, sample_data: &mut Vec<SampleData>)
    requires
        table.wf(),
        have_room(old(sample_data)@, 1),
    ensures
        final(sample_data)@.len() == old(sample_data)@.len(),
        forall|s: int|
            0 <= s < old(sample_data)@.len() ==> (#[trigger] final(sample_data)@[s]).wf() && final(sample_data)@[s]@ == old(sample_data)@[s]@.with_line(line_term(line@, table@, s)),
{
    let record = parse_variant(line);
    let hit = match &record {
        Some(r) => match_record(r, table),
        None => None,
    };
    let mut s: usize = 0;
    while s < sample_data.len()
        invariant
            0 <= s <= sample_data@.len(),
            sample_data@.len() == old(sample_data)@.len(),
            have_room(old(sample_data)@, 1),
            record.is_some() == crate::variant::record_of(line@).is_some(),
            record.is_some() ==> record.unwrap()@ == crate::variant::record_of(line@).unwrap(),
            record.is_some() ==> hit == crate::variant::hit_of(record.unwrap()@, table@),
            record.is_none() ==> hit.is_none(),
            forall|k: int|
                0 <= k < s ==> (#[trigger] sample_data@[k]).wf() && sample_data@[k]@ == old(sample_data)@[k]@.with_line(line_term(line@, table@, k)),
            forall|k: int| s <= k < sample_data@.len() ==> sample_data@[k] == old(sample_data)@[k],
        decreases sample_data@.len() - s,
    {
        let term = match &record {
            Some(r) => match hit {
                Some(h) => sample_contribution(r, h, s),
                None => None,
            },
            None => None,
        };
        assert(old(sample_data)@[s as int].wf());
        sample_data[s].record(term);
        s += 1;
    }
}

/// Scores a chunk of whole lines into the accumulators of the samples, and
/// returns the number of lines that were skipped because they are not valid
/// text. Empty lines and comment lines are passed over.
pub fn process_chunk(chunk: &[u8], table: &WeightTable, sample_data: &mut Vec<SampleData>) -> (skipped:
    usize)
    requires
        table.wf(),
        have_room(old(sample_data)@, chunk.len() as int),
    ensures
        final(sample_data)@.len() == old(sample_data)@.len(),
        forall|s: int|
            0 <= s < old(sample_data)@.len() ==> (#[trigger] final(sample_data)@[s]).wf() && final(sample_data)@[s]@ == old(sample_data)@[s]@.plus(tally_of(lines(chunk@), table@, s)),
        skipped == undecodable_count(lines(chunk@)),
{
    let mut skipped: usize = 0;
    let mut at: usize = 0;
    let ghost all = lines(chunk@);
    let ghost mut done: Seq<Seq<u8>> = Seq::empty();
    proof {
        assert(chunk@.skip(0) =~= chunk@);
        assert(done + all =~= all);
        assert forall|s: int| 0 <= s < sample_data@.len() implies sample_data@[s]@ == old(sample_data)@[s]@.plus(tally_of(done, table@, s)) by {
            crate::sample::lemma_plus_zero(sample_data@[s]@);
        }
    }
    while at < chunk.len()
        invariant
            table.wf(),
            0 <= at <= chunk@.len(),
            all == lines(chunk@),
            all == done + lines(chunk@.skip(at as int)),
            done.len() <= at,
            sample_data@.len() == old(sample_data)@.len(),
            have_room(old(sample_data)@, chunk@.len() as int),
            skipped == undecodable_count(done),
            forall|s: int|
                0 <= s < sample_data@.len() ==> (#[trigger] sample_data@[s]).wf()
                    && sample_data@[s]@ == old(sample_data)@[s]@.plus(tally_of(done, table@, s)),
        decreases chunk@.len() - at,
    {
        let (line, next) = next_line(chunk, at);
        let ghost before = sample_data@;
        let ghost grown = done.push(line@);
        proof {
            assert(grown.drop_last() =~= done);
            assert(done + (seq![line@] + lines(chunk@.skip(next as int))) =~= grown + lines(
                chunk@.skip(next as int),
            ));
            // no more lines are skipped than were read
            lemma_tally_counts(done, table@, 0);
            assert forall|s: int| 0 <= s < sample_data@.len() implies sample_data@[s].total_variants
                + 1 <= usize::MAX by {
                lemma_tally_counts(done, table@, s);
                assert(old(sample_data)@[s].wf());
            }
        }
        if line.len() > 0 && line[0] != HASH {
            if decodes_as_text(line) {
                process_line(line, table, sample_data);
                proof {
                    assert forall|s: int| 0 <= s < sample_data@.len() implies sample_data@[s]@
                        == old(sample_data)@[s]@.plus(tally_of(grown, table@, s)) by {
                        let t = tally_of(done, table@, s);
                        let term = line_term(line@, table@, s);
                        assert(before[s]@ == old(sample_data)@[s]@.plus(t));
                        assert(old(sample_data)@[s]@.plus(t).with_line(term).terms =~= old(sample_data)@[s]@.plus(t.with_line(term)).terms);
                    }
                }
            } else {
                skipped = skipped + 1;
            }
        }
        proof {
            done = grown;
        }
        at = next;
    }
    proof {
        assert(chunk@.skip(at as int) =~= Seq::<u8>::empty());
        assert(done + lines(chunk@.skip(at as int)) =~= done);
    }
    skipped
}

/// The result of scoring a multi-sample file.
#[derive(Clone, Debug, PartialEq, Eq)]
pub struct MultiScore {
    /// The sample identifiers, in file order.
    pub sample_names: Vec<Vec<u8>>,
    /// The totals of the samples, in the same order.
    pub samples: Vec<SampleData>,
    /// The number of lines that were skipped because they are not valid text.
    pub skipped_lines: usize,
    /// How the file writes its chromosomes.
    pub vcf_chr_format: ChromosomeFormat,
}

/// The result of scoring a multi-sample file, as values.
pub ghost struct MultiView {
    pub sample_names: Seq<Seq<u8>>,
    pub totals: Seq<Tally>,
    pub skipped: nat,
    pub has_chr_prefix: bool,
}

impl View for MultiScore {
    type V = MultiView;

    open spec fn view(&self) -> MultiView {
        MultiView {
            sample_names: texts(self.sample_names@),
            totals: Seq::new(self.samples@.len(), |s: int| self.samples@[s]@),
            skipped: self.skipped_lines as nat,
            has_chr_prefix: self.vcf_chr_format.has_chr_prefix,
        }
    }
}

impl MultiScore {
    /// The invariant of a result: one well-formed accumulator per sample.
    pub open spec fn wf(&self) -> bool {
        &&& self.samples@.len() == self.sample_names@.len()
        &&& forall|s: int| 0 <= s < self.samples@.len() ==> (#[trigger] self.samples@[s]).wf()
    }
}

/// What scoring a variant text for all its samples gives: the samples that
/// the column header names, for each of them the totals over the lines after
/// the header, the number of those lines that are skipped, and the naming
/// convention of the first data line among them. A text without a column
/// header is an error.
pub open spec fn multi_score_of(text: Seq<u8>, table: Map<(Seq<u8>, u32), (Seq<u8>, usize)>) -> Result<
    MultiView,
    VcfError,
> {
    if lacks_header(text) {
        Err(VcfError::InvalidFormat(FormatError::HeaderNotFound))
    } else {
        Ok(
            MultiView {
                sample_names: samples_of(text),
                totals: Seq::new(
                    samples_of(text).len(),
                    |s: int| tally_of(body_lines(text), table, s),
                ),
                skipped: undecodable_count(body_lines(text)),
                has_chr_prefix: chr_format_of(body_lines(text)),
            },
        )
    }
}

/// A scoring result, as values.
pub open spec fn multi_view(r: Result<MultiScore, VcfError>) -> Result<MultiView, VcfError> {
    match r {
        Ok(score) => Ok(score@),
        Err(e) => Err(e),
    }
}

/// Scores a decoded variant text for all its samples.
pub fn score_multi_sample(text: &[u8], table: &WeightTable) -> (out: Result<MultiScore, VcfError>)
    requires
        table.wf(),
    ensures
        multi_view(out) == multi_score_of(text@, table@),
        out matches Ok(score) ==> score.wf(),
{
    let header = match resolve_header(text) {
        Ok(header) => header,
        Err(e) => {
            return Err(VcfError::InvalidFormat(e));
        },
    };
    let body = slice_subrange(text, header.body_start, text.len());
    proof {
        assert(body@ =~= text@.skip(header.body_start as int));
    }
    let mut sample_names: Vec<Vec<u8>> = Vec::new();
    let mut samples: Vec<SampleData> = Vec::new();
    let mut s: usize = 0;
    while s < header.samples.len()
        invariant
            0 <= s <= header.samples@.len(),
            sample_names@.len() == s,
            samples@.len() == s,
            forall|k: int| 0 <= k < s ==> (#[trigger] sample_names@[k])@ == header.samples@[k]@,
            forall|k: int|
                0 <= k < s ==> (#[trigger] samples@[k]).wf() && samples@[k]@ == Tally::zero(),
        decreases header.samples@.len() - s,
    {
        sample_names.push(slice_to_vec(header.samples[s]));
        samples.push(SampleData::new());
        s += 1;
    }
    let ghost fresh = samples@;
    let skipped_lines = process_chunk(body, table, &mut samples);
    let vcf_chr_format = ChromosomeFormat::of_text(body);
    let score = MultiScore { sample_names, samples, skipped_lines, vcf_chr_format };
    proof {
        assert(texts(score.sample_names@) =~= pieces(header.samples@));
        assert(score@.totals =~= multi_score_of(text@, table@)->Ok_0.totals) by {
            assert forall|k: int| 0 <= k < score.samples@.len() implies score.samples@[k]@
                == tally_of(body_lines(text@), table@, k) by {
                assert(fresh[k]@ == Tally::zero());
                crate::sample::lemma_plus_zero(tally_of(body_lines(text@), table@, k));
            }
        }
    }
    Ok(score)
}

/// Scores a multi-sample variant file from its bytes, whatever its container.
pub fn calculate_polygenic_score_multi(data: &[u8], table: &WeightTable) -> (out: Result<
    MultiScore,
    VcfError,
>)
    requires
        table.wf(),
    ensures
        multi_view(out) == after_decoding(
            decoded(data@),
            |text: Seq<u8>| multi_score_of(text, table@),
        ),
        out matches Ok(score) ==> score.wf(),
{
    match decode(data) {
        Err(e) => Err(VcfError::InvalidFormat(e)),
        Ok(text) => score_multi_sample(text.as_slice(), table),
    }
}

/// Whether the accumulators of `from` can be added to those of `into`: there
/// are as many, all are well-formed, and no count of lines seen overflows.
pub open spec fn can_merge(into: Seq<SampleData>, from: Seq<SampleData>) -> bool {
    &&& into.len() == from.len()
    &&& forall|s: int|
        0 <= s < into.len() ==> (#[trigger] into[s]).wf() && from[s].wf() && into[s].total_variants
            + from[s].total_variants <= usize::MAX
}

/// Adds the totals of one vector of accumulators to another, sample by sample.
pub fn merge_samples(into: &mut Vec<SampleData>, from: &Vec<SampleData>)
    requires
        can_merge(old(into)@, from@),
    ensures
        final(into)@.len() == old(into)@.len(),
        forall|s: int|
            0 <= s < from@.len() ==> (#[trigger] final(into)@[s]).wf() && final(into)@[s]@ == old(
                into,
            )@[s]@.plus(from@[s]@),
{
    let mut s: usize = 0;
    while s < from.len()
        invariant
            0 <= s <= from@.len(),
            into@.len() == from@.len(),
            can_merge(old(into)@, from@),
            forall|k: int|
                0 <= k < s ==> (#[trigger] into@[k]).wf() && into@[k]@ == old(into)@[k]@.plus(
                    from@[k]@,
                ),
            forall|k: int| s <= k < from@.len() ==> into@[k] == old(into)@[k],
        decreases from@.len() - s,
    {
        assert(old(into)@[s as int].wf());
        into[s].merge(&from[s]);
        s += 1;
    }
}

/// The number of lines seen, summed over some samples.
pub open spec fn sum_of_totals(samples: Seq<SampleData>) -> nat
    decreases samples.len(),
{
    if samples.len() == 0 {
        0
    } else {
        sum_of_totals(samples.drop_last()) + samples.last().total_variants as nat
    }
}

/// The number of lines matched, summed over some samples.
pub open spec fn sum_of_matched(samples: Seq<SampleData>) -> nat
    decreases samples.len(),
{
    if samples.len() == 0 {
        0
    } else {
        sum_of_matched(samples.drop_last()) + samples.last().matched_variants as nat
    }
}

/// Sums the counts of the samples of a file: the lines seen and the lines
/// matched, each summed over all samples. The sums are taken in 128 bits,
/// which they cannot exceed.
pub fn cohort_counts(samples: &Vec<SampleData>) -> (out: (u128, u128))
    ensures
        out.0 == sum_of_totals(samples@),
        out.1 == sum_of_matched(samples@),
{
    let mut total: u128 = 0;
    let mut matched: u128 = 0;
    let mut s: usize = 0;
    let count = samples.len();
    assert(samples@.take(0) =~= Seq::<SampleData>::empty());
    while s < count
        invariant
            count == samples@.len(),
            0 <= s <= count,
            total == sum_of_totals(samples@.take(s as int)),
            matched == sum_of_matched(samples@.take(s as int)),
            total <= s * 0xffff_ffff_ffff_ffff,
            matched <= s * 0xffff_ffff_ffff_ffff,
        decreases count - s,
    {
        proof {
            assert(samples@.take(s + 1).drop_last() =~= samples@.take(s as int));
            assert((s + 1) * 0xffff_ffff_ffff_ffff <= 0xffff_ffff_ffff_ffff * 0xffff_ffff_ffff_ffff)
                by (nonlinear_arith)
                requires
                    0 <= s + 1 <= 0xffff_ffff_ffff_ffff,
            ;
            assert((s + 1) * 0xffff_ffff_ffff_ffff == s * 0xffff_ffff_ffff_ffff
                + 0xffff_ffff_ffff_ffff) by (nonlinear_arith);
        }
        total = total + samples[s].total_variants as u128;
        matched = matched + samples[s].matched_variants as u128;
        s += 1;
    }
    assert(samples@.take(s as int) =~= samples@);
    (total, matched)
}

/// The two modes agree: the first sample of a file has the same totals
/// whether the file is scored for that sample alone or for all its samples,
/// and the same lines are skipped and the same naming convention is found.
pub proof fn lemma_first_sample_agrees(
    text: Seq<u8>,
    table: Map<(Seq<u8>, u32), (Seq<u8>, usize)>,
)
    requires
        !lacks_header(text),
        samples_of(text).len() >= 1,
    ensures
        multi_score_of(text, table)->Ok_0.totals[0] == single_score_of(text, table)->Ok_0.totals,
        multi_score_of(text, table)->Ok_0.skipped == single_score_of(text, table)->Ok_0.skipped,
        multi_score_of(text, table)->Ok_0.has_chr_prefix == single_score_of(
            text,
            table,
        )->Ok_0.has_chr_prefix,
{
}

} // verus!
