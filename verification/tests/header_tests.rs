use polygenic_score::common::{ChromosomeFormat, FileType};
use polygenic_score::error::{FormatError, VcfError};
use polygenic_score::header::{line_is_header, resolve_header, split_words};
use polygenic_score::multi_sample::score_multi_sample;
use polygenic_score::sample::SampleData;
use polygenic_score::single_sample::score_single_sample;
use polygenic_score::variant::Contribution;
use polygenic_score::weights::WeightTable;

const COLUMNS: &str = "#CHROM\tPOS\tID\tREF\tALT\tQUAL\tFILTER\tINFO\tFORMAT";

#[test]
fn the_header_line_begins_with_the_marker() {
    assert!(line_is_header(COLUMNS.as_bytes()));
    assert!(line_is_header(b"#CHROM"));
    assert!(!line_is_header(b"#CHRO"));
    assert!(!line_is_header(b"##CHROM"));
    assert!(!line_is_header(b"#chrom\tPOS"));
    assert!(!line_is_header(b"CHROM"));
    assert!(!line_is_header(b""));
}

#[test]
fn words_are_runs_without_white_space() {
    assert_eq!(split_words(b"a b\tc"), vec![&b"a"[..], &b"b"[..], &b"c"[..]]);
    assert_eq!(split_words(b"  lead and trail \t"), vec![&b"lead"[..], &b"and"[..], &b"trail"[..]]);
    assert_eq!(split_words(b""), Vec::<&[u8]>::new());
    assert_eq!(split_words(b" \t\r\n\x0b\x0c"), Vec::<&[u8]>::new());
    assert_eq!(split_words(b"one"), vec![&b"one"[..]]);
}

#[test]
fn split_words_agrees_with_the_standard_split_on_ascii() {
    let cases: [&str; 6] = ["", "a", " a  b ", "x\ty\tz", "\t\t", "a\x0bb\x0cc\rd"];
    for case in cases {
        let expected: Vec<&[u8]> = case.split_whitespace().map(|w| w.as_bytes()).collect();
        assert_eq!(split_words(case.as_bytes()), expected, "{:?}", case);
    }
}

#[test]
fn the_samples_are_the_words_after_the_nine_columns() {
    let text = format!("##fileformat=VCFv4.2\n##x\n{}\tNA001\tNA002\tNA003\n1\t5\n", COLUMNS);
    let header = resolve_header(text.as_bytes()).unwrap();
    assert_eq!(header.samples, vec![&b"NA001"[..], &b"NA002"[..], &b"NA003"[..]]);
    assert_eq!(header.line, 2);
    assert_eq!(&text.as_bytes()[header.body_start..], b"1\t5\n");
}

#[test]
fn a_header_without_samples_names_none() {
    let text = format!("{}\n", COLUMNS);
    let header = resolve_header(text.as_bytes()).unwrap();
    assert!(header.samples.is_empty());
    assert_eq!(header.line, 0);
    assert_eq!(header.body_start, text.len());
    let header = resolve_header(b"#CHROM\tPOS").unwrap();
    assert!(header.samples.is_empty());
    assert_eq!(header.body_start, 10);
}

#[test]
fn the_first_header_line_counts() {
    let text = format!("data before\n{}\tA\n{}\tB\tC\nrest\n", COLUMNS, COLUMNS);
    let header = resolve_header(text.as_bytes()).unwrap();
    assert_eq!(header.samples, vec![&b"A"[..]]);
    assert_eq!(header.line, 1);
}

#[test]
fn a_text_without_header_line_is_an_error() {
    assert_eq!(resolve_header(b""), Err(FormatError::HeaderNotFound));
    assert_eq!(resolve_header(b"##fileformat=VCFv4.2\n##a\n##b\n"), Err(FormatError::HeaderNotFound));
    assert_eq!(
        resolve_header(b"1\t100\t.\tA\tC\t.\t.\t.\tGT\t0/1\n"),
        Err(FormatError::HeaderNotFound)
    );
    assert_eq!(resolve_header(b" #CHROM\n"), Err(FormatError::HeaderNotFound));
}

#[test]
fn the_file_type_goes_by_the_number_of_samples() {
    let single = format!("##fileformat=VCFv4.2\n{}\tS1\n", COLUMNS);
    let multi = format!("##fileformat=VCFv4.2\n{}\tS1\tS2\n", COLUMNS);
    let none = format!("##fileformat=VCFv4.2\n{}\n", COLUMNS);
    assert_eq!(FileType::of_text(single.as_bytes()), Ok(FileType::SingleSample));
    assert_eq!(FileType::of_text(multi.as_bytes()), Ok(FileType::MultiSample));
    assert_eq!(FileType::of_text(none.as_bytes()), Ok(FileType::SingleSample));
}

#[test]
fn a_text_that_does_not_declare_the_format_is_no_variant_file() {
    let text = format!("{}\tS1\n", COLUMNS);
    assert_eq!(
        FileType::of_text(text.as_bytes()),
        Err(VcfError::InvalidFormat(FormatError::NotVcf))
    );
    assert_eq!(FileType::of_text(b""), Err(VcfError::InvalidFormat(FormatError::NotVcf)));
    assert_eq!(
        FileType::of_text(b"#fileformat=VCFv4.2\n"),
        Err(VcfError::InvalidFormat(FormatError::NotVcf))
    );
    assert_eq!(
        FileType::of_text(b"##fileformat=VCFv4.2\n##meta\n"),
        Err(VcfError::InvalidFormat(FormatError::HeaderNotFound))
    );
    assert_eq!(
        FileType::of_text(b"##fileformat=VCF"),
        Err(VcfError::InvalidFormat(FormatError::HeaderNotFound))
    );
}

#[test]
fn the_naming_convention_is_read_off_the_first_data_line() {
    assert!(ChromosomeFormat::of_text(b"#c\n\nchr1\t5\n1\t6\n").has_chr_prefix);
    assert!(!ChromosomeFormat::of_text(b"#c\n1\t5\nchr1\t6\n").has_chr_prefix);
    assert!(!ChromosomeFormat::of_text(b"").has_chr_prefix);
    assert!(!ChromosomeFormat::of_text(b"#chr\n").has_chr_prefix);
    assert!(ChromosomeFormat::of_text(b"\xffbroken\nchrX\t1\n").has_chr_prefix);
}

#[test]
fn only_lines_after_the_header_are_scored() {
    let mut table = WeightTable::new();
    table.insert(b"1", 100, b"A", 0);
    let text = format!(
        "##fileformat=VCFv4.2\n1\t100\t.\tA\tC\t.\t.\t.\tGT\t0/0\n{}\tS1\nchr1\t100\t.\tA\tC\t.\t.\t.\tGT\t0/1\n",
        COLUMNS
    );
    let score = score_single_sample(text.as_bytes(), &table).unwrap();
    assert_eq!(score.totals.terms, vec![Contribution { weight: 0, allele_count: 1 }]);
    assert_eq!(score.totals.total_variants, 1);
    assert!(score.vcf_chr_format.has_chr_prefix);
}

#[test]
fn a_file_without_header_is_not_scored() {
    let table = WeightTable::new();
    let text = b"##fileformat=VCFv4.2\n1\t100\t.\tA\tC\t.\t.\t.\tGT\t0/0\n";
    assert_eq!(
        score_single_sample(text, &table),
        Err(VcfError::InvalidFormat(FormatError::HeaderNotFound))
    );
    assert_eq!(
        score_multi_sample(text, &table),
        Err(VcfError::InvalidFormat(FormatError::HeaderNotFound))
    );
}

#[test]
fn a_run_without_matches_is_a_result_not_an_error() {
    let table = WeightTable::new();
    let text = format!("{}\tS1\n1\t100\t.\tA\tC\t.\t.\t.\tGT\t0/0\n", COLUMNS);
    let score = score_single_sample(text.as_bytes(), &table).unwrap();
    assert_eq!(score.totals.terms, vec![]);
    assert_eq!(score.totals.matched_variants, 0);
    assert_eq!(score.totals.total_variants, 1);
    let empty = format!("{}\tS1\n", COLUMNS);
    let score = score_single_sample(empty.as_bytes(), &table).unwrap();
    assert_eq!(score.totals, SampleData::new());
}

#[test]
fn a_cohort_gets_one_accumulator_per_sample() {
    let mut table = WeightTable::new();
    table.insert(b"1", 100, b"A", 0);
    table.insert(b"2", 7, b"T", 1);
    let text = format!(
        "##fileformat=VCFv4.2\n{}\tmum\tdad\tkid\n\
chr1\t100\t.\tA\tC\t.\t.\t.\tGT\t0/0\t0/1\t1/1\n\
chr2\t7\t.\tG\tT\t.\t.\t.\tGT\t0|1\t.|.\t1|1\n\
chr2\t8\t.\tG\tT\t.\t.\t.\tGT\t0|1\t0|1\t1|1\n",
        COLUMNS
    );
    let score = score_multi_sample(text.as_bytes(), &table).unwrap();
    assert_eq!(score.sample_names, vec![b"mum".to_vec(), b"dad".to_vec(), b"kid".to_vec()]);
    assert_eq!(score.samples.len(), 3);
    let c = |weight, allele_count| Contribution { weight, allele_count };
    assert_eq!(score.samples[0].terms, vec![c(0, 2), c(1, 1)]);
    assert_eq!(score.samples[1].terms, vec![c(0, 1)]);
    assert_eq!(score.samples[2].terms, vec![c(0, 0), c(1, 2)]);
    assert_eq!(score.samples[1].matched_variants, 1);
    assert_eq!(score.samples[1].total_variants, 3);
    assert_eq!(score.samples[2].total_variants, 3);
    assert!(score.vcf_chr_format.has_chr_prefix);
    assert_eq!(score.skipped_lines, 0);
    let weights = [0.5f32, -1.5];
    let scores: Vec<f64> = score
        .samples
        .iter()
        .map(|s| s.terms.iter().map(|t| weights[t.weight] as f64 * t.allele_count as f64).sum())
        .collect();
    assert_eq!(scores, vec![-0.5, 0.5, -3.0]);
}

#[test]
fn a_cohort_without_samples_has_no_accumulator() {
    let table = WeightTable::new();
    let text = format!("{}\n1\t100\t.\tA\tC\t.\t.\t.\tGT\t0/0\n", COLUMNS);
    let score = score_multi_sample(text.as_bytes(), &table).unwrap();
    assert!(score.samples.is_empty());
    assert!(score.sample_names.is_empty());
}
