use polygenic_score::common::{load_scoring_file, parse_row, ScoringRow};
use polygenic_score::error::{FormatError, ScoringColumn, VcfError};
use polygenic_score::number::{count_digits, is_number_text, matches_word, to_lower};
use polygenic_score::text::split_fields;

const SCORES: &[u8] = b"#genome_build=GRCh38\n\
rsID\tchr_name\tchr_position\teffect_allele\tother_allele\teffect_weight\n\
rs1\t1\t1000\tA\tG\t0.5\n\
rs2\tchr2\t2000\tT\tC\t-1.25e-2\n\
#a comment in between\n\
rs3\t1\t1000\tG\tA\t7\n";

#[test]
fn a_scoring_file_loads_into_a_table() {
    let file = load_scoring_file(SCORES).unwrap();
    assert_eq!(file.table.len(), 2);
    assert_eq!(file.weights, vec![b"0.5".to_vec(), b"-1.25e-2".to_vec(), b"7".to_vec()]);
    assert!(!file.chr_format.has_chr_prefix);
    let entry = file.table.get(b"2", 2000).unwrap();
    assert_eq!(entry.effect_allele, b"T");
    assert_eq!(entry.weight, 1);
    let weights: Vec<f32> =
        file.weights.iter().map(|w| std::str::from_utf8(w).unwrap().parse().unwrap()).collect();
    assert_eq!(weights, vec![0.5, -0.0125, 7.0]);
}

#[test]
fn a_later_row_for_a_site_replaces_the_earlier() {
    let file = load_scoring_file(SCORES).unwrap();
    let entry = file.table.get(b"chr1", 1000).unwrap();
    assert_eq!(entry.effect_allele, b"G");
    assert_eq!(entry.weight, 2);
}

#[test]
fn the_first_row_decides_the_naming_convention() {
    let with = b"chr_name\tchr_position\teffect_allele\teffect_weight\nchr1\t5\tA\t1\n2\t6\tC\t2\n";
    assert!(load_scoring_file(with).unwrap().chr_format.has_chr_prefix);
    let without = b"chr_name\tchr_position\teffect_allele\teffect_weight\n1\t5\tA\t1\nchr2\t6\tC\t2\n";
    assert!(!load_scoring_file(without).unwrap().chr_format.has_chr_prefix);
    let file = load_scoring_file(with).unwrap();
    assert_eq!(file.table.get(b"1", 5).unwrap().chromosome, b"1");
}

#[test]
fn a_file_without_rows_loads_empty() {
    let file = load_scoring_file(b"").unwrap();
    assert_eq!(file.table.len(), 0);
    assert!(file.weights.is_empty());
    assert!(!file.chr_format.has_chr_prefix);
    let file = load_scoring_file(b"#only\n#comments\n").unwrap();
    assert_eq!(file.table.len(), 0);
    let file = load_scoring_file(b"a header\twithout the columns\n").unwrap();
    assert_eq!(file.table.len(), 0);
}

#[test]
fn columns_may_come_in_any_order() {
    let text = b"effect_weight\teffect_allele\tchr_position\tchr_name\n0.1\tACGT\t+12\tchrX\r\n";
    let file = load_scoring_file(text).unwrap();
    let entry = file.table.get(b"X", 12).unwrap();
    assert_eq!(entry.effect_allele, b"ACGT");
    assert_eq!(file.weights, vec![b"0.1".to_vec()]);
    assert!(file.chr_format.has_chr_prefix);
}

#[test]
fn a_row_with_another_number_of_columns_is_rejected() {
    let text = b"chr_name\tchr_position\teffect_allele\teffect_weight\n1\t5\tA\n";
    assert_eq!(
        load_scoring_file(text).err(),
        Some(VcfError::InvalidFormat(FormatError::ColumnMismatch))
    );
    let text = b"chr_name\tchr_position\teffect_allele\teffect_weight\n1\t5\tA\t1\textra\n";
    assert_eq!(
        load_scoring_file(text).err(),
        Some(VcfError::InvalidFormat(FormatError::ColumnMismatch))
    );
    let text = b"chr_name\tchr_position\teffect_allele\teffect_weight\n1\t5\tA\t1\n\n";
    assert_eq!(
        load_scoring_file(text).err(),
        Some(VcfError::InvalidFormat(FormatError::ColumnMismatch))
    );
}

#[test]
fn a_missing_column_is_reported_by_name() {
    let cases: [(&str, ScoringColumn); 4] = [
        ("x\tchr_position\teffect_allele\teffect_weight\n", ScoringColumn::Chromosome),
        ("chr_name\tx\teffect_allele\teffect_weight\n", ScoringColumn::Position),
        ("chr_name\tchr_position\tx\teffect_weight\n", ScoringColumn::EffectAllele),
        ("chr_name\tchr_position\teffect_allele\tx\n", ScoringColumn::EffectWeight),
    ];
    for (header, column) in cases {
        let text = format!("{}1\t5\tA\t1\n", header);
        assert_eq!(
            load_scoring_file(text.as_bytes()).err(),
            Some(VcfError::InvalidFormat(FormatError::MissingColumn(column)))
        );
    }
    let text = b"a\tb\tc\td\n1\t5\tA\t1\n";
    assert_eq!(
        load_scoring_file(text).err(),
        Some(VcfError::InvalidFormat(FormatError::MissingColumn(ScoringColumn::Chromosome)))
    );
}

#[test]
fn an_invalid_position_is_rejected() {
    for position in ["x", "", "-3", "1.5", "4294967296"] {
        let text = format!(
            "chr_name\tchr_position\teffect_allele\teffect_weight\n1\t{}\tA\t1\n",
            position
        );
        assert_eq!(
            load_scoring_file(text.as_bytes()).err(),
            Some(VcfError::InvalidFormat(FormatError::InvalidPosition))
        );
    }
}

#[test]
fn an_invalid_weight_is_rejected() {
    for weight in ["x", "", "1,5", "0.5 ", "--1", "1e", "."] {
        let text = format!(
            "chr_name\tchr_position\teffect_allele\teffect_weight\n1\t5\tA\t{}\n",
            weight
        );
        assert_eq!(
            load_scoring_file(text.as_bytes()).err(),
            Some(VcfError::InvalidFormat(FormatError::InvalidWeight))
        );
    }
}

#[test]
fn the_first_error_in_file_order_is_reported() {
    let text =
        b"chr_name\tchr_position\teffect_allele\teffect_weight\n1\t5\tA\tbad\n1\tbad\tA\t1\n1\n";
    assert_eq!(
        load_scoring_file(text).err(),
        Some(VcfError::InvalidFormat(FormatError::InvalidWeight))
    );
    let text = b"chr_name\tchr_position\teffect_allele\teffect_weight\n1\tbad\tA\tbad\n";
    assert_eq!(
        load_scoring_file(text).err(),
        Some(VcfError::InvalidFormat(FormatError::InvalidPosition))
    );
}

#[test]
fn a_line_that_is_not_valid_text_is_an_encoding_error() {
    let text = b"chr_name\tchr_position\teffect_allele\teffect_weight\n1\t5\t\xff\t1\n";
    assert_eq!(load_scoring_file(text).err(), Some(VcfError::Utf8Error));
    let text = b"#\xff\nchr_name\tchr_position\teffect_allele\teffect_weight\n";
    assert_eq!(load_scoring_file(text).err(), Some(VcfError::Utf8Error));
}

#[test]
fn a_row_is_read_by_the_columns_of_its_header() {
    let header = split_fields(b"id\tchr_name\tchr_position\teffect_allele\teffect_weight", b'\t');
    assert_eq!(
        parse_row(&header, b"rs7\tchr3\t99\tT\t1e3"),
        Ok(ScoringRow { chromosome: b"chr3", position: 99, effect_allele: b"T", weight: b"1e3" })
    );
    assert_eq!(parse_row(&header, b"rs7\tchr3\t99\tT"), Err(FormatError::ColumnMismatch));
    let twice = split_fields(b"chr_name\tchr_name\tchr_position\teffect_allele\teffect_weight", b'\t');
    assert_eq!(parse_row(&twice, b"first\tsecond\t1\tA\t2").unwrap().chromosome, b"first");
}

#[test]
fn numbers_follow_the_grammar() {
    let good: [&str; 24] = [
        "0", "1", "12", "0.5", "5.", ".5", "+1", "-1", "+.5", "-5.", "1e5", "1E5", "1e+5",
        "1e-5", "1.5e10", ".5e-3", "5.e3", "inf", "-inf", "+Infinity", "NaN", "nan", "INF",
        "007.250",
    ];
    for text in good {
        assert!(is_number_text(text.as_bytes()), "{:?}", text);
    }
    let bad: [&str; 24] = [
        "", ".", "+", "-", "e5", "1e", "1e+", "1e5.0", "1.2.3", "1,5", " 1", "1 ", "0x10", "1_000",
        "in", "infinit", "infinityy", "na", "nanx", "++1", "1-", "e", ".e5", "1f",
    ];
    for text in bad {
        assert!(!is_number_text(text.as_bytes()), "{:?}", text);
    }
}

#[test]
fn numbers_are_what_the_standard_parser_reads() {
    let pieces: [&str; 14] =
        ["", "0", "7", "12", ".", "+", "-", "e", "E", "inf", "nan", "infinity", "I", "a"];
    for a in pieces {
        for b in pieces {
            for c in pieces {
                let text = format!("{}{}{}", a, b, c);
                assert_eq!(
                    is_number_text(text.as_bytes()),
                    text.parse::<f32>().is_ok(),
                    "{:?}",
                    text
                );
                assert_eq!(
                    is_number_text(text.as_bytes()),
                    text.parse::<f64>().is_ok(),
                    "{:?}",
                    text
                );
            }
        }
    }
}

#[test]
fn digits_are_counted_from_a_position() {
    assert_eq!(count_digits(b"123abc", 0), 3);
    assert_eq!(count_digits(b"123abc", 1), 2);
    assert_eq!(count_digits(b"123abc", 3), 0);
    assert_eq!(count_digits(b"123", 3), 0);
    assert_eq!(count_digits(b"", 0), 0);
    assert_eq!(count_digits(b"/0:", 1), 1);
}

#[test]
fn words_match_in_either_case() {
    assert!(matches_word(b"+INF", 1, b"inf"));
    assert!(matches_word(b"NaN", 0, b"nan"));
    assert!(!matches_word(b"nano", 0, b"nan"));
    assert!(!matches_word(b"na", 0, b"nan"));
    assert!(matches_word(b"x", 1, b""));
    assert_eq!(to_lower(b'A'), b'a');
    assert_eq!(to_lower(b'Z'), b'z');
    assert_eq!(to_lower(b'a'), b'a');
    assert_eq!(to_lower(b'@'), b'@');
    assert_eq!(to_lower(b'['), b'[');
    assert_eq!(to_lower(b'5'), b'5');
}
