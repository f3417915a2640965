//! The errors of the library.

use vstd::prelude::*;
use vstd::string::StringExecFns;

verus! {

/// A column that a scoring file must name in its header.
#[derive(Clone, Copy, Debug, PartialEq, Eq, Structural)]
pub enum ScoringColumn {
    /// `chr_name`
    Chromosome,
    /// `chr_position`
    Position,
    /// `effect_allele`
    EffectAllele,
    /// `effect_weight`
    EffectWeight,
}

/// Why an input is not what its format asks for.
#[derive(Clone, Copy, Debug, PartialEq, Eq, Structural)]
pub enum FormatError {
    /// A compressed block does not begin with the block magic.
    BadMagic,
    /// A compressed block is cut short, or states a size that cannot be.
    MalformedBlock,
    /// Compressed data could not be inflated.
    InflateFailed,
    /// The first line of a variant file does not declare the file format.
    NotVcf,
    /// A variant file ended before its column header.
    HeaderNotFound,
    /// A row of a scoring file has another number of columns than its header.
    ColumnMismatch,
    /// The header of a scoring file lacks a column.
    MissingColumn(ScoringColumn),
    /// A position in a scoring file is no unsigned 32-bit number.
    InvalidPosition,
    /// A weight in a scoring file is no decimal number.
    InvalidWeight,
}

/// Why a read failed.
#[derive(Clone, Copy, Debug, PartialEq, Eq, Structural)]
pub enum ReadFailure {
    /// The read was interrupted; the same read may succeed when tried again.
    Interrupted,
    /// The source gave no bytes before its known end.
    UnexpectedEnd,
    /// Any other failure.
    Other,
}

/// An error that ends a run.
#[derive(Clone, Copy, Debug, PartialEq, Eq, Structural)]
pub enum VcfError {
    /// A read failed, at once or after the retries allowed.
    Io(ReadFailure),
    /// The input is not in the expected format.
    InvalidFormat(FormatError),
    /// The input is not valid UTF-8 where text is required.
    Utf8Error,
}

impl ScoringColumn {
    /// The name of the column in the header of a scoring file.
    pub open spec fn name_text(self) -> Seq<char> {
        match self {
            ScoringColumn::Chromosome => "chr_name"@,
            ScoringColumn::Position => "chr_position"@,
            ScoringColumn::EffectAllele => "effect_allele"@,
            ScoringColumn::EffectWeight => "effect_weight"@,
        }
    }

    /// The name of the column in the header of a scoring file.
    pub fn name(self) -> (out: &'static str)
        ensures
            out@ == self.name_text(),
    {
        match self {
            ScoringColumn::Chromosome => "chr_name",
            ScoringColumn::Position => "chr_position",
            ScoringColumn::EffectAllele => "effect_allele",
            ScoringColumn::EffectWeight => "effect_weight",
        }
    }
}

impl FormatError {
    /// The words that describe the error.
    pub open spec fn message_text(self) -> Seq<char> {
        match self {
            FormatError::BadMagic => "bad block magic"@,
            FormatError::MalformedBlock => "malformed compressed block"@,
            FormatError::InflateFailed => "corrupt compressed data"@,
            FormatError::NotVcf => "Not a VCF file"@,
            FormatError::HeaderNotFound => "header not found"@,
            FormatError::ColumnMismatch => "Mismatch between header and data columns"@,
            FormatError::MissingColumn(column) => "Missing '"@ + column.name_text() + "' column"@,
            FormatError::InvalidPosition => "Invalid numeric position"@,
            FormatError::InvalidWeight => "Invalid numeric weight"@,
        }
    }

    /// Describes the error in words.
    pub fn message(self) -> (out: String)
        ensures
            out@ == self.message_text(),
    {
        match self {
            FormatError::BadMagic => String::from_str("bad block magic"),
            FormatError::MalformedBlock => String::from_str("malformed compressed block"),
            FormatError::InflateFailed => String::from_str("corrupt compressed data"),
            FormatError::NotVcf => String::from_str("Not a VCF file"),
            FormatError::HeaderNotFound => String::from_str("header not found"),
            FormatError::ColumnMismatch => String::from_str(
                "Mismatch between header and data columns",
            ),
            FormatError::MissingColumn(column) => String::from_str("Missing '").concat(
                column.name(),
            ).concat("' column"),
            FormatError::InvalidPosition => String::from_str("Invalid numeric position"),
            FormatError::InvalidWeight => String::from_str("Invalid numeric weight"),
        }
    }
}

impl ReadFailure {
    /// The words that describe the failure.
    pub open spec fn message_text(self) -> Seq<char> {
        match self {
            ReadFailure::Interrupted => "interrupted"@,
            ReadFailure::UnexpectedEnd => "unexpected end of input"@,
            ReadFailure::Other => "read failed"@,
        }
    }

    /// Describes the failure in words.
    pub fn message(self) -> (out: String)
        ensures
            out@ == self.message_text(),
    {
        match self {
            ReadFailure::Interrupted => String::from_str("interrupted"),
            ReadFailure::UnexpectedEnd => String::from_str("unexpected end of input"),
            ReadFailure::Other => String::from_str("read failed"),
        }
    }
}

impl VcfError {
    /// The words that describe the error: its kind, a colon, and the detail.
    pub open spec fn message_text(self) -> Seq<char> {
        match self {
            VcfError::Io(failure) => "I/O error: "@ + failure.message_text(),
            VcfError::InvalidFormat(error) => "Invalid format: "@ + error.message_text(),
            VcfError::Utf8Error => "UTF-8 error: invalid byte sequence"@,
        }
    }

    /// Describes the error in words.
    pub fn message(self) -> (out: String)
        ensures
            out@ == self.message_text(),
    {
        match self {
            VcfError::Io(failure) => {
                let detail = failure.message();
                String::from_str("I/O error: ").concat(detail.as_str())
            },
            VcfError::InvalidFormat(error) => {
                let detail = error.message();
                String::from_str("Invalid format: ").concat(detail.as_str())
            },
            VcfError::Utf8Error => String::from_str("UTF-8 error: invalid byte sequence"),
        }
    }
}

impl From<FormatError> for VcfError {
    fn from(error: FormatError) -> (out: VcfError) {
        VcfError::InvalidFormat(error)
    }
}

impl vstd::std_specs::convert::FromSpecImpl<FormatError> for VcfError {
    open spec fn obeys_from_spec() -> bool {
        true
    }

    /// A format error ends a run as an error of the format.
    open spec fn from_spec(error: FormatError) -> VcfError {
        VcfError::InvalidFormat(error)
    }
}

impl From<ReadFailure> for VcfError {
    fn from(failure: ReadFailure) -> (out: VcfError) {
        VcfError::Io(failure)
    }
}

impl vstd::std_specs::convert::FromSpecImpl<ReadFailure> for VcfError {
    open spec fn obeys_from_spec() -> bool {
        true
    }

    /// A failed read ends a run as an error of input.
    open spec fn from_spec(failure: ReadFailure) -> VcfError {
        VcfError::Io(failure)
    }
}

} // verus!
