//! What the scoring modes share: the naming convention of chromosomes, the
//! kind of a variant file, and the loader of the scoring file.

use vstd::prelude::*;
use vstd::slice::slice_to_vec;
use vstd::utf8::valid_utf8;
use crate::container::{decode, decoded};
use crate::error::{FormatError, ScoringColumn, VcfError};
use crate::header::{lacks_header, resolve_header, samples_of};
use crate::lines::{lines, next_line};
use crate::number::{is_number, is_number_text};
use crate::scoring::chr_format_of;
use crate::text::{ascii, ascii_bytes, bytes_eq, decodes_as_text, has_chr_prefix, parse_u32, parsed_u32, pieces, split, split_fields, starts_with, uses_chr_prefix, HASH, TAB};
use crate::weights::{site, WeightTable};

verus! {

/// How a file writes its chromosomes: with a leading `chr` or without.
#[derive(Clone, Copy, Debug, PartialEq, Eq, Structural)]
pub struct ChromosomeFormat {
    /// Whether the first usable record of the file begins with `chr`.
    pub has_chr_prefix: bool,
}

/// The bytes of a column's name.
pub open spec fn column_name(column: ScoringColumn) -> Seq<u8> {
    match column {
        ScoringColumn::Chromosome => ascii("chr_name"),
        ScoringColumn::Position => ascii("chr_position"),
        ScoringColumn::EffectAllele => ascii("effect_allele"),
        ScoringColumn::EffectWeight => ascii("effect_weight"),
    }
}

/// The index of the first field that equals `name`, or the number of fields
/// when none does.
pub open spec fn column_of(header: Seq<Seq<u8>>, name: Seq<u8>) -> int
    decreases header.len(),
{
    if header.len() == 0 {
        0
    } else if header[0] == name {
        0
    } else {
        1 + column_of(header.skip(1), name)
    }
}

/// A field that equals `name` with none before it is the column of that name.
pub proof fn lemma_column_of(header: Seq<Seq<u8>>, name: Seq<u8>, i: int)
    requires
        0 <= i <= header.len(),
        i < header.len() ==> header[i] == name,
        forall|k: int| 0 <= k < i ==> header[k] != name,
    ensures
        column_of(header, name) == i,
    decreases i,
{
    if i > 0 {
        assert forall|k: int| 0 <= k < i - 1 implies header.skip(1)[k] != name by {
            assert(header.skip(1)[k] == header[k + 1]);
        }
        lemma_column_of(header.skip(1), name, i - 1);
    }
}

/// Finds the first field of a header that equals the name of a column.
fn find_column(header: &Vec<&[u8]>, column: ScoringColumn) -> (at: usize)
    ensures
        at == column_of(pieces(header@), column_name(column)),
        at <= header@.len(),
{
    proof {
        reveal_strlit("chr_name");
        reveal_strlit("chr_position");
        reveal_strlit("effect_allele");
        reveal_strlit("effect_weight");
    }
    let name = match column {
        ScoringColumn::Chromosome => ascii_bytes("chr_name"),
        ScoringColumn::Position => ascii_bytes("chr_position"),
        ScoringColumn::EffectAllele => ascii_bytes("effect_allele"),
        ScoringColumn::EffectWeight => ascii_bytes("effect_weight"),
    };
    let mut i: usize = 0;
    while i < header.len() && !bytes_eq(header[i], name)
        invariant
            0 <= i <= header@.len(),
            name@ == column_name(column),
            forall|k: int| 0 <= k < i ==> pieces(header@)[k] != name@,
        decreases header@.len() - i,
    {
        i += 1;
    }
    proof {
        lemma_column_of(pieces(header@), name@, i as int);
    }
    i
}

/// One row of a scoring file, as values.
pub ghost struct RowView {
    pub chromosome: Seq<u8>,
    pub position: u32,
    pub effect_allele: Seq<u8>,
    pub weight: Seq<u8>,
}

/// One row of a scoring file; it borrows from the line.
#[derive(Clone, Copy, Debug, PartialEq, Eq)]
pub struct ScoringRow<'a> {
    /// The chromosome as the row writes it.
    pub chromosome: &'a [u8],
    /// The 1-based position.
    pub position: u32,
    /// The effect allele.
    pub effect_allele: &'a [u8],
    /// The weight, as the row writes it: a number.
    pub weight: &'a [u8],
}

impl<'a> View for ScoringRow<'a> {
    type V = RowView;

    open spec fn view(&self) -> RowView {
        RowView {
            chromosome: self.chromosome@,
            position: self.position,
            effect_allele: self.effect_allele@,
            weight: self.weight@,
        }
    }
}

/// The row that a line holds under a header. The checks come in this order:
/// the line has as many tab-separated fields as the header; the header names
/// the chromosome, the position, the effect allele and the weight; the
/// position is an unsigned 32-bit number; the weight is a number.
pub open spec fn row_of(header: Seq<Seq<u8>>, line: Seq<u8>) -> Result<RowView, FormatError> {
    let parts = split(line, TAB);
    let c = column_of(header, column_name(ScoringColumn::Chromosome));
    let p = column_of(header, column_name(ScoringColumn::Position));
    let a = column_of(header, column_name(ScoringColumn::EffectAllele));
    let w = column_of(header, column_name(ScoringColumn::EffectWeight));
    if parts.len() != header.len() {
        Err(FormatError::ColumnMismatch)
    } else if c >= header.len() {
        Err(FormatError::MissingColumn(ScoringColumn::Chromosome))
    } else if p >= header.len() {
        Err(FormatError::MissingColumn(ScoringColumn::Position))
    } else if a >= header.len() {
        Err(FormatError::MissingColumn(ScoringColumn::EffectAllele))
    } else if w >= header.len() {
        Err(FormatError::MissingColumn(ScoringColumn::EffectWeight))
    } else if parsed_u32(parts[p]).is_none() {
        Err(FormatError::InvalidPosition)
    } else if !is_number(parts[w]) {
        Err(FormatError::InvalidWeight)
    } else {
        Ok(
            RowView {
                chromosome: parts[c],
                position: parsed_u32(parts[p]).unwrap(),
                effect_allele: parts[a],
                weight: parts[w],
            },
        )
    }
}

/// The row of a parsing result, as values.
pub open spec fn row_view(r: Result<ScoringRow, FormatError>) -> Result<RowView, FormatError> {
    match r {
        Ok(row) => Ok(row@),
        Err(e) => Err(e),
    }
}

/// Parses one row of a scoring file under its header.
pub fn parse_row<'a>(header: &Vec<&[u8]>, line: &'a [u8]) -> (out: Result<ScoringRow<'a>, FormatError>)
    ensures
        row_view(out) == row_of(pieces(header@), line@),
{
    let parts = split_fields(line, TAB);
    if parts.len() != header.len() {
        return Err(FormatError::ColumnMismatch);
    }
    let c = find_column(header, ScoringColumn::Chromosome);
    if c >= header.len() {
        return Err(FormatError::MissingColumn(ScoringColumn::Chromosome));
    }
    let p = find_column(header, ScoringColumn::Position);
    if p >= header.len() {
        return Err(FormatError::MissingColumn(ScoringColumn::Position));
    }
    let a = find_column(header, ScoringColumn::EffectAllele);
    if a >= header.len() {
        return Err(FormatError::MissingColumn(ScoringColumn::EffectAllele));
    }
    let w = find_column(header, ScoringColumn::EffectWeight);
    if w >= header.len() {
        return Err(FormatError::MissingColumn(ScoringColumn::EffectWeight));
    }
    proof {
        assert(pieces(parts@)[c as int] == parts@[c as int]@);
        assert(pieces(parts@)[p as int] == parts@[p as int]@);
        assert(pieces(parts@)[a as int] == parts@[a as int]@);
        assert(pieces(parts@)[w as int] == parts@[w as int]@);
    }
    let position = match parse_u32(parts[p]) {
        Some(position) => position,
        None => {
            return Err(FormatError::InvalidPosition);
        },
    };
    if !is_number_text(parts[w]) {
        return Err(FormatError::InvalidWeight);
    }
    Ok(ScoringRow { chromosome: parts[c], position, effect_allele: parts[a], weight: parts[w] })
}

/// A loaded scoring file, as values.
pub ghost struct ScoringView {
    /// The fields of the header line, once it was read.
    pub header: Option<Seq<Seq<u8>>>,
    /// The table: from site to effect allele and number of the weight.
    pub table: Map<(Seq<u8>, u32), (Seq<u8>, usize)>,
    /// The weights as written, by number: one per row, in file order.
    pub weights: Seq<Seq<u8>>,
    /// Whether the chromosome of the first row begins with `chr`.
    pub has_chr_prefix: bool,
}

/// A scoring file before its first line.
pub open spec fn nothing_loaded() -> ScoringView {
    ScoringView { header: None, table: Map::empty(), weights: Seq::empty(), has_chr_prefix: false }
}

/// A scoring file after one more row. The weight of the row gets the next
/// number; the row's entry replaces an earlier one for the same site; the
/// first row decides the naming convention.
pub open spec fn with_row(state: ScoringView, row: RowView) -> ScoringView {
    ScoringView {
        header: state.header,
        table: state.table.insert(
            site(row.chromosome, row.position),
            (row.effect_allele, state.weights.len() as usize),
        ),
        weights: state.weights.push(row.weight),
        has_chr_prefix: if state.weights.len() == 0 {
            has_chr_prefix(row.chromosome)
        } else {
            state.has_chr_prefix
        },
    }
}

/// A scoring file after one more line. A line that is not valid text is an
/// error; a line that begins with `#` is passed over; the first other line is
/// the header; every line after it is a row.
pub open spec fn with_line(state: ScoringView, line: Seq<u8>) -> Result<ScoringView, VcfError> {
    if !valid_utf8(line) {
        Err(VcfError::Utf8Error)
    } else if line.len() > 0 && line[0] == HASH {
        Ok(state)
    } else {
        match state.header {
            None => Ok(
                ScoringView {
                    header: Some(split(line, TAB)),
                    table: state.table,
                    weights: state.weights,
                    has_chr_prefix: state.has_chr_prefix,
                },
            ),
            Some(header) => match row_of(header, line) {
                Ok(row) => Ok(with_row(state, row)),
                Err(e) => Err(VcfError::InvalidFormat(e)),
            },
        }
    }
}

/// A scoring file after its lines, or the error of the first line that has one.
pub open spec fn loaded(lines: Seq<Seq<u8>>) -> Result<ScoringView, VcfError>
    decreases lines.len(),
{
    if lines.len() == 0 {
        Ok(nothing_loaded())
    } else {
        match loaded(lines.drop_last()) {
            Ok(state) => with_line(state, lines.last()),
            Err(e) => Err(e),
        }
    }
}

/// The error of a line stands, whatever lines follow.
pub proof fn lemma_loaded_error_stands(a: Seq<Seq<u8>>, b: Seq<Seq<u8>>)
    requires
        loaded(a) is Err,
    ensures
        loaded(a + b) == loaded(a),
    decreases b.len(),
{
    if b.len() == 0 {
        assert(a + b =~= a);
    } else {
        assert((a + b).drop_last() =~= a + b.drop_last());
        lemma_loaded_error_stands(a, b.drop_last());
    }
}

/// The texts of a vector of byte strings.
pub open spec fn texts(v: Seq<Vec<u8>>) -> Seq<Seq<u8>> {
    Seq::new(v.len(), |i: int| v[i]@)
}

/// A loaded scoring file.
pub struct ScoringFile {
    /// The table, in which an entry names its weight by number.
    pub table: WeightTable,
    /// The weights as written, by number.
    pub weights: Vec<Vec<u8>>,
    /// How the file writes its chromosomes.
    pub chr_format: ChromosomeFormat,
}

impl ScoringFile {
    /// Whether the file holds what `state` says.
    pub open spec fn holds(&self, state: ScoringView) -> bool {
        &&& self.table.wf()
        &&& self.table@ == state.table
        &&& texts(self.weights@) == state.weights
        &&& self.chr_format.has_chr_prefix == state.has_chr_prefix
    }
}

/// Loads a scoring file from its content.
///
/// Every weight is checked to be a number and kept as written, for the caller
/// to read its value; an entry of the table names its weight by its number in
/// `weights`.
pub fn load_scoring_file(content: &[u8]) -> (out: Result<ScoringFile, VcfError>)
    ensures
        match out {
            Ok(file) => loaded(lines(content@)) is Ok && file.holds(loaded(lines(content@))->Ok_0),
            Err(e) => loaded(lines(content@)) == Err::<ScoringView, VcfError>(e),
        },
{
    let mut file = ScoringFile {
        table: WeightTable::new(),
        weights: Vec::new(),
        chr_format: ChromosomeFormat { has_chr_prefix: false },
    };
    let mut header: Option<Vec<&[u8]>> = None;
    let mut at: usize = 0;
    let ghost all = lines(content@);
    let ghost mut done: Seq<Seq<u8>> = Seq::empty();
    let ghost mut state = nothing_loaded();
    proof {
        assert(content@.skip(0) =~= content@);
        assert(done + all =~= all);
        assert(texts(file.weights@) =~= state.weights);
    }
    while at < content.len()
        invariant
            0 <= at <= content@.len(),
            all == lines(content@),
            all == done + lines(content@.skip(at as int)),
            loaded(done) == Ok::<ScoringView, VcfError>(state),
            file.holds(state),
            header.is_some() == state.header.is_some(),
            header.is_some() ==> pieces(header.unwrap()@) == state.header.unwrap(),
        decreases content@.len() - at,
    {
        let (line, next) = next_line(content, at);
        let ghost grown = done.push(line@);
        proof {
            assert(grown.drop_last() =~= done);
            assert(done + (seq![line@] + lines(content@.skip(next as int))) =~= grown + lines(
                content@.skip(next as int),
            ));
        }
        if !decodes_as_text(line) {
            proof {
                lemma_loaded_error_stands(grown, lines(content@.skip(next as int)));
            }
            return Err(VcfError::Utf8Error);
        }
        if line.len() > 0 && line[0] == HASH {
        } else if let Some(columns) = &header {
            match parse_row(columns, line) {
                Err(e) => {
                    proof {
                        lemma_loaded_error_stands(grown, lines(content@.skip(next as int)));
                    }
                    return Err(VcfError::InvalidFormat(e));
                },
                Ok(row) => {
                    if file.weights.len() == 0 {
                        file.chr_format = ChromosomeFormat {
                            has_chr_prefix: uses_chr_prefix(row.chromosome),
                        };
                    }
                    let number = file.weights.len();
                    let ghost before = file.weights@;
                    file.table.insert(row.chromosome, row.position, row.effect_allele, number);
                    file.weights.push(slice_to_vec(row.weight));
                    proof {
                        state = with_row(state, row@);
                        assert(texts(file.weights@) =~= texts(before).push(row.weight@));
                    }
                },
            }
        } else {
            header = Some(split_fields(line, TAB));
            proof {
                state = with_line(state, line@)->Ok_0;
            }
        }
        proof {
            done = grown;
        }
        at = next;
    }
    proof {
        assert(content@.skip(at as int) =~= Seq::<u8>::empty());
        assert(done + lines(content@.skip(at as int)) =~= done);
    }
    Ok(file)
}

impl ChromosomeFormat {
    /// The naming convention of a text of variant lines, read off its first
    /// data line.
    pub fn of_text(text: &[u8]) -> (out: ChromosomeFormat)
        ensures
            out.has_chr_prefix == chr_format_of(lines(text@)),
    {
        let mut at: usize = 0;
        proof {
            assert(text@.skip(0) =~= text@);
        }
        while at < text.len()
            invariant
                0 <= at <= text@.len(),
                chr_format_of(lines(text@)) == chr_format_of(lines(text@.skip(at as int))),
            decreases text@.len() - at,
        {
            let (line, next) = next_line(text, at);
            proof {
                let rest = lines(text@.skip(at as int));
                assert(rest[0] == line@);
                assert(rest.skip(1) =~= lines(text@.skip(next as int)));
            }
            if line.len() > 0 && line[0] != HASH && decodes_as_text(line) {
                return ChromosomeFormat { has_chr_prefix: uses_chr_prefix(line) };
            }
            at = next;
        }
        proof {
            assert(text@.skip(at as int) =~= Seq::<u8>::empty());
        }
        ChromosomeFormat { has_chr_prefix: false }
    }
}

/// The kind of a variant file, by the number of its samples.
#[derive(Clone, Copy, Debug, PartialEq, Eq, Structural)]
pub enum FileType {
    /// At most one sample.
    SingleSample,
    /// Two samples or more.
    MultiSample,
}

/// Whether a text declares itself a variant file in its first line.
pub open spec fn declares_vcf(text: Seq<u8>) -> bool {
    lines(text).len() > 0 && ascii("##fileformat=VCF").is_prefix_of(lines(text)[0])
}

/// The kind of a variant file. A text that does not declare itself a variant
/// file, or has no column header, is an error, in this order.
pub open spec fn file_type_of(text: Seq<u8>) -> Result<FileType, VcfError> {
    if !declares_vcf(text) {
        Err(VcfError::InvalidFormat(FormatError::NotVcf))
    } else if lacks_header(text) {
        Err(VcfError::InvalidFormat(FormatError::HeaderNotFound))
    } else if samples_of(text).len() > 1 {
        Ok(FileType::MultiSample)
    } else {
        Ok(FileType::SingleSample)
    }
}

/// What becomes of a decoding result when `then` reads the decoded text: an
/// error of the decoding stays, as a format error.
pub open spec fn after_decoding<T>(
    text: Result<Seq<u8>, FormatError>,
    then: spec_fn(Seq<u8>) -> Result<T, VcfError>,
) -> Result<T, VcfError> {
    match text {
        Ok(text) => then(text),
        Err(e) => Err(VcfError::InvalidFormat(e)),
    }
}

impl FileType {
    /// Tells the kind of a variant file from its decoded text.
    pub fn of_text(text: &[u8]) -> (out: Result<FileType, VcfError>)
        ensures
            out == file_type_of(text@),
    {
        if text.len() == 0 {
            return Err(VcfError::InvalidFormat(FormatError::NotVcf));
        }
        let (first, _) = next_line(text, 0);
        proof {
            assert(text@.skip(0) =~= text@);
            assert(lines(text@)[0] == first@);
            reveal_strlit("##fileformat=VCF");
        }
        if !starts_with(first, ascii_bytes("##fileformat=VCF")) {
            return Err(VcfError::InvalidFormat(FormatError::NotVcf));
        }
        match resolve_header(text) {
            Err(e) => Err(VcfError::InvalidFormat(e)),
            Ok(header) => {
                assert(pieces(header.samples@).len() == header.samples@.len());
                if header.samples.len() > 1 {
                    Ok(FileType::MultiSample)
                } else {
                    Ok(FileType::SingleSample)
                }
            },
        }
    }

    /// Tells the kind of a variant file from its bytes, whatever its container.
    pub fn detect(data: &[u8]) -> (out: Result<FileType, VcfError>)
        ensures
            out == after_decoding(decoded(data@), |text: Seq<u8>| file_type_of(text)),
    {
        match decode(data) {
            Err(e) => Err(VcfError::InvalidFormat(e)),
            Ok(text) => FileType::of_text(text.as_slice()),
        }
    }
}

} // verus!
