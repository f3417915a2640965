//! Polygenic risk scoring of variant-call text.
//!
//! A score is the sum, over the variant lines of a file, of the weight of the
//! matching table entry times the number of copies of its effect allele that
//! the sample carries. This library decodes the container, finds the column
//! header, parses and matches each line and reduces the per-line results. It
//! works on bytes and integers only: a weight is known here by the number of
//! the table row that holds it, and a score is the exact list of its terms.

pub mod chunks;
pub mod common;
pub mod container;
pub mod error;
pub mod genotype;
pub mod header;
pub mod lines;
pub mod multi_sample;
pub mod number;
pub mod retry;
pub mod sample;
pub mod scoring;
pub mod single_sample;
pub mod text;
pub mod variant;
pub mod weights;
