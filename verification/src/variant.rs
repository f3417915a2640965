//! One variant line: its fields, its match against the weight table and the
//! term it adds to a sample's score.

use vstd::prelude::*;
use crate::genotype::{allele_count, genotype_of, genotype_text, orientation_of, parse_allele_count, resolve_orientation, Orientation};
use crate::text::{parse_u32, parsed_u32, pieces, split, split_fields, LOWER_C, LOWER_H, LOWER_R, TAB};
use crate::weights::{site, WeightTable};

verus! {

/// The number of columns that stand before the first sample column.
pub const FIXED_COLUMNS: usize = 9;

/// One term of a score: the weight with number `weight`, taken `allele_count` times.
#[derive(Clone, Copy, Debug, PartialEq, Eq, Structural)]
pub struct Contribution {
    /// The number of the weight, as the matching table entry gives it.
    pub weight: usize,
    /// The number of copies of the effect allele.
    pub allele_count: usize,
}

/// What a variant line says, as values: the model of a `VariantRecord`.
pub ghost struct RecordView {
    pub chromosome: Seq<u8>,
    pub position: u32,
    pub reference: Seq<u8>,
    pub alternate: Seq<u8>,
    pub genotypes: Seq<Seq<u8>>,
}

/// A parsed variant line; it borrows from the line and lives no longer.
#[derive(Clone, Debug, PartialEq, Eq)]
pub struct VariantRecord<'a> {
    /// The chromosome as the line writes it.
    pub chromosome: &'a [u8],
    /// The 1-based position.
    pub position: u32,
    /// The reference allele.
    pub reference: &'a [u8],
    /// The alternate allele.
    pub alternate: &'a [u8],
    /// The sample columns, one per sample, in file order.
    pub genotypes: Vec<&'a [u8]>,
}

impl<'a> View for VariantRecord<'a> {
    type V = RecordView;

    open spec fn view(&self) -> RecordView {
        RecordView {
            chromosome: self.chromosome@,
            position: self.position,
            reference: self.reference@,
            alternate: self.alternate@,
            genotypes: pieces(self.genotypes@),
        }
    }
}

/// The record that a line holds. A line needs ten tab-separated fields or more
/// (nine fixed columns and one sample at least) and a position that is an
/// unsigned 32-bit decimal number; any other line holds no record.
pub open spec fn record_of(line: Seq<u8>) -> Option<RecordView> {
    let f = split(line, TAB);
    if f.len() <= FIXED_COLUMNS {
        None
    } else {
        match parsed_u32(f[1]) {
            Some(position) => Some(
                RecordView {
                    chromosome: f[0],
                    position,
                    reference: f[3],
                    alternate: f[4],
                    genotypes: f.skip(FIXED_COLUMNS as int),
                },
            ),
            None => None,
        }
    }
}

/// Parses one variant line.
pub fn parse_variant<'a>(line: &'a [u8]) -> (out: Option<VariantRecord<'a>>)
    ensures
        out.is_some() == record_of(line@).is_some(),
        out.is_some() ==> out.unwrap()@ == record_of(line@).unwrap(),
{
    let mut fields = split_fields(line, TAB);
    if fields.len() <= FIXED_COLUMNS {
        return None;
    }
    let ghost f = split(line@, TAB);
    proof {
        assert(forall|i: int| 0 <= i < f.len() ==> fields@[i]@ == #[trigger] f[i]) by {
            assert forall|i: int| 0 <= i < f.len() implies fields@[i]@ == #[trigger] f[i] by {
                assert(pieces(fields@)[i] == fields@[i]@);
            }
        }
    }
    match parse_u32(fields[1]) {
        None => None,
        Some(position) => {
            let ghost all = fields@;
            let genotypes = fields.split_off(FIXED_COLUMNS);
            let record = VariantRecord {
                chromosome: fields[0],
                position,
                reference: fields[3],
                alternate: fields[4],
                genotypes,
            };
            proof {
                assert(pieces(record.genotypes@) =~= f.skip(FIXED_COLUMNS as int)) by {
                    assert forall|i: int| 0 <= i < record.genotypes@.len() implies pieces(
                        record.genotypes@,
                    )[i] == f.skip(FIXED_COLUMNS as int)[i] by {
                        assert(record.genotypes@[i] == all[i + FIXED_COLUMNS]);
                    }
                }
            }
            Some(record)
        },
    }
}

/// A hit in the weight table: the orientation of the effect allele against the
/// line's alleles, and the number of the weight.
#[derive(Clone, Copy, Debug, PartialEq, Eq, Structural)]
pub struct Hit {
    /// Whether the reference or the alternate allele is scored.
    pub orientation: Orientation,
    /// The number of the weight.
    pub weight: usize,
}

/// The hit of a record in a table: the table has the record's site, and the
/// effect allele there is the record's reference or alternate allele.
pub open spec fn hit_of(record: RecordView, table: Map<(Seq<u8>, u32), (Seq<u8>, usize)>) -> Option<
    Hit,
> {
    let k = site(record.chromosome, record.position);
    if table.contains_key(k) {
        match orientation_of(table[k].0, record.reference, record.alternate) {
            Some(orientation) => Some(Hit { orientation, weight: table[k].1 }),
            None => None,
        }
    } else {
        None
    }
}

/// Looks a record up in the weight table and resolves the orientation.
pub fn match_record(record: &VariantRecord, table: &WeightTable) -> (out: Option<Hit>)
    requires
        table.wf(),
    ensures
        out == hit_of(record@, table@),
{
    match table.get(record.chromosome, record.position) {
        None => None,
        Some(entry) => match resolve_orientation(
            entry.effect_allele.as_slice(),
            record.reference,
            record.alternate,
        ) {
            Some(orientation) => Some(Hit { orientation, weight: entry.weight }),
            None => None,
        },
    }
}

/// The term that a record with a hit adds to the score of the sample in
/// column `sample`: none when the record has no such column or the genotype
/// there has no dosage.
pub open spec fn term_of(record: RecordView, hit: Hit, sample: int) -> Option<Contribution> {
    if 0 <= sample < record.genotypes.len() {
        match allele_count(
            genotype_text(record.genotypes[sample]),
            hit.orientation == Orientation::AltIsEffect,
        ) {
            Some(n) => Some(Contribution { weight: hit.weight, allele_count: n as usize }),
            None => None,
        }
    } else {
        None
    }
}

/// Decodes the genotype of one sample of a record with a hit.
pub fn sample_contribution(record: &VariantRecord, hit: Hit, sample: usize) -> (out: Option<
    Contribution,
>)
    ensures
        out == term_of(record@, hit, sample as int),
{
    if sample >= record.genotypes.len() {
        return None;
    }
    assert(pieces(record.genotypes@)[sample as int] == record.genotypes@[sample as int]@);
    let gt = genotype_of(record.genotypes[sample]);
    let effect_is_alt = match hit.orientation {
        Orientation::AltIsEffect => true,
        Orientation::RefIsEffect => false,
    };
    match parse_allele_count(gt, effect_is_alt) {
        Some(allele_count) => Some(Contribution { weight: hit.weight, allele_count }),
        None => None,
    }
}

/// The term that a line adds to the score of the sample in column `sample`,
/// if the line is matched for that sample: it holds a record, the record has a
/// hit in the table, and the sample's genotype has a dosage.
pub open spec fn line_term(
    line: Seq<u8>,
    table: Map<(Seq<u8>, u32), (Seq<u8>, usize)>,
    sample: int,
) -> Option<Contribution> {
    match record_of(line) {
        Some(record) => match hit_of(record, table) {
            Some(hit) => term_of(record, hit, sample),
            None => None,
        },
        None => None,
    }
}

/// Scores one line of a single-sample file: the sample is the first sample column.
pub fn process_single_sample_line(line: &[u8], table: &WeightTable) -> (out: Option<Contribution>)
    requires
        table.wf(),
    ensures
        out == line_term(line@, table@, 0),
{
    match parse_variant(line) {
        None => None,
        Some(record) => match match_record(&record, table) {
            None => None,
            Some(hit) => sample_contribution(&record, hit, 0),
        },
    }
}

/// A record with `chr` set before its chromosome.
pub open spec fn with_chr_prefix(record: RecordView) -> RecordView {
    RecordView {
        chromosome: seq![LOWER_C, LOWER_H, LOWER_R] + record.chromosome,
        position: record.position,
        reference: record.reference,
        alternate: record.alternate,
        genotypes: record.genotypes,
    }
}

/// The naming convention does not show in a match: a record hits the same
/// entry, and adds the same terms, whether its chromosome is written with a
/// leading `chr` or without.
pub proof fn lemma_chr_prefix_is_invisible(
    record: RecordView,
    table: Map<(Seq<u8>, u32), (Seq<u8>, usize)>,
)
    ensures
        hit_of(with_chr_prefix(record), table) == hit_of(record, table),
{
    let longer = seq![LOWER_C, LOWER_H, LOWER_R] + record.chromosome;
    assert(longer.skip(3) =~= record.chromosome);
}

} // verus!
