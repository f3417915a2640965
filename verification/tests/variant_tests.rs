use polygenic_score::genotype::Orientation;
use polygenic_score::sample::SampleData;
use polygenic_score::variant::{
    match_record, parse_variant, process_single_sample_line, sample_contribution, Contribution,
    Hit,
};
use polygenic_score::weights::WeightTable;

fn table_with_a_at_1_1000() -> WeightTable {
    let mut table = WeightTable::new();
    table.insert(b"1", 1000, b"A", 0);
    table
}

fn score_of(terms: &[Contribution], weights: &[f32]) -> f64 {
    terms.iter().map(|t| weights[t.weight] as f64 * t.allele_count as f64).sum()
}

#[test]
fn scenario_reference_is_effect_allele() {
    let table = table_with_a_at_1_1000();
    let weights = [0.5f32];
    let line = b"1\t1000\t.\tA\tG\t.\t.\t.\tGT\t0/1";
    let record = parse_variant(line).unwrap();
    let hit = match_record(&record, &table).unwrap();
    assert_eq!(hit, Hit { orientation: Orientation::RefIsEffect, weight: 0 });
    let term = process_single_sample_line(line, &table);
    assert_eq!(term, Some(Contribution { weight: 0, allele_count: 1 }));
    let mut totals = SampleData::new();
    totals.record(term);
    assert_eq!(totals.matched_variants, 1);
    assert_eq!(totals.total_variants, 1);
    assert_eq!(score_of(&totals.terms, &weights), 0.5);
}

#[test]
fn scenario_chr_prefix_is_stripped() {
    let table = table_with_a_at_1_1000();
    let weights = [0.5f32];
    let line = b"chr1\t1000\t.\tA\tG\t.\t.\t.\tGT\t0/1";
    let term = process_single_sample_line(line, &table);
    assert_eq!(term, Some(Contribution { weight: 0, allele_count: 1 }));
    assert_eq!(term, process_single_sample_line(b"1\t1000\t.\tA\tG\t.\t.\t.\tGT\t0/1", &table));
    let mut totals = SampleData::new();
    totals.record(term);
    assert_eq!(totals.matched_variants, 1);
    assert_eq!(score_of(&totals.terms, &weights), 0.5);
}

#[test]
fn scenario_homozygous_alt_counts_twice() {
    let mut table = WeightTable::new();
    table.insert(b"1", 1000, b"G", 0);
    let weights = [0.25f32];
    let line = b"1\t1000\t.\tA\tG\t.\t.\t.\tGT\t1/1";
    let record = parse_variant(line).unwrap();
    assert_eq!(match_record(&record, &table).unwrap().orientation, Orientation::AltIsEffect);
    let term = process_single_sample_line(line, &table);
    assert_eq!(term, Some(Contribution { weight: 0, allele_count: 2 }));
    assert_eq!(score_of(&[term.unwrap()], &weights), 2.0 * 0.25);
}

#[test]
fn scenario_missing_token_is_seen_but_not_matched() {
    let mut table = WeightTable::new();
    table.insert(b"1", 1000, b"G", 0);
    let line = b"1\t1000\t.\tA\tG\t.\t.\t.\tGT\t./1";
    let term = process_single_sample_line(line, &table);
    assert_eq!(term, None);
    let mut totals = SampleData::new();
    totals.record(Some(Contribution { weight: 0, allele_count: 2 }));
    totals.record(term);
    assert_eq!(totals.matched_variants, 1);
    assert_eq!(totals.total_variants, 2);
    assert_eq!(totals.terms, vec![Contribution { weight: 0, allele_count: 2 }]);
}

#[test]
fn genotypes_with_missing_or_further_alleles_add_nothing() {
    let mut table = WeightTable::new();
    table.insert(b"1", 1000, b"G", 0);
    let genotypes: [&str; 8] = [".", "./.", "0/.", "1|2", "2/2", "3/1", "0/3", ".|."];
    for genotype in genotypes {
        let line = format!("1\t1000\t.\tA\tG\t.\t.\t.\tGT\t{}", genotype);
        assert_eq!(process_single_sample_line(line.as_bytes(), &table), None, "{}", genotype);
    }
}

#[test]
fn subfields_after_the_genotype_are_dropped() {
    let mut table = WeightTable::new();
    table.insert(b"1", 1000, b"G", 4);
    let line = b"1\t1000\trs1\tA\tG\t50\tPASS\tDP=9\tGT:DP:GQ\t1|0:9:.";
    assert_eq!(
        process_single_sample_line(line, &table),
        Some(Contribution { weight: 4, allele_count: 1 })
    );
}

#[test]
fn a_line_with_fewer_than_ten_fields_holds_no_record() {
    let table = table_with_a_at_1_1000();
    assert!(parse_variant(b"1\t1000\t.\tA\tG\t.\t.\t.\tGT").is_none());
    assert!(parse_variant(b"").is_none());
    assert!(parse_variant(b"1 1000 . A G . . . GT 0/1").is_none());
    assert_eq!(process_single_sample_line(b"1\t1000\t.\tA\tG\t.\t.\t.\tGT", &table), None);
}

#[test]
fn a_line_with_an_unparsable_position_holds_no_record() {
    let table = table_with_a_at_1_1000();
    assert!(parse_variant(b"1\tabc\t.\tA\tG\t.\t.\t.\tGT\t0/1").is_none());
    assert!(parse_variant(b"1\t-5\t.\tA\tG\t.\t.\t.\tGT\t0/1").is_none());
    assert!(parse_variant(b"1\t\t.\tA\tG\t.\t.\t.\tGT\t0/1").is_none());
    assert!(parse_variant(b"1\t4294967296\t.\tA\tG\t.\t.\t.\tGT\t0/1").is_none());
    assert_eq!(process_single_sample_line(b"1\t1e3\t.\tA\tG\t.\t.\t.\tGT\t0/1", &table), None);
}

#[test]
fn a_record_keeps_its_fields_and_sample_columns() {
    let record = parse_variant(b"chr7\t42\trs9\tAC\tA\t.\t.\t.\tGT\t0/1\t1/1:3\t./.").unwrap();
    assert_eq!(record.chromosome, b"chr7");
    assert_eq!(record.position, 42);
    assert_eq!(record.reference, b"AC");
    assert_eq!(record.alternate, b"A");
    assert_eq!(record.genotypes, vec![&b"0/1"[..], &b"1/1:3"[..], &b"./."[..]]);
}

#[test]
fn a_site_that_the_table_lacks_is_a_miss() {
    let table = table_with_a_at_1_1000();
    let record = parse_variant(b"1\t1001\t.\tA\tG\t.\t.\t.\tGT\t0/1").unwrap();
    assert_eq!(match_record(&record, &table), None);
    let record = parse_variant(b"2\t1000\t.\tA\tG\t.\t.\t.\tGT\t0/1").unwrap();
    assert_eq!(match_record(&record, &table), None);
}

#[test]
fn an_effect_allele_that_is_neither_allele_is_unmatched() {
    let mut table = WeightTable::new();
    table.insert(b"1", 1000, b"T", 0);
    let line = b"1\t1000\t.\tA\tG\t.\t.\t.\tGT\t0/1";
    let record = parse_variant(line).unwrap();
    assert_eq!(match_record(&record, &table), None);
    assert_eq!(process_single_sample_line(line, &table), None);
}

#[test]
fn each_sample_column_has_its_own_contribution() {
    let mut table = WeightTable::new();
    table.insert(b"1", 1000, b"G", 2);
    let record = parse_variant(b"1\t1000\t.\tA\tG\t.\t.\t.\tGT\t0/0\t0/1\t1/1\t./.").unwrap();
    let hit = match_record(&record, &table).unwrap();
    assert_eq!(sample_contribution(&record, hit, 0), Some(Contribution { weight: 2, allele_count: 0 }));
    assert_eq!(sample_contribution(&record, hit, 1), Some(Contribution { weight: 2, allele_count: 1 }));
    assert_eq!(sample_contribution(&record, hit, 2), Some(Contribution { weight: 2, allele_count: 2 }));
    assert_eq!(sample_contribution(&record, hit, 3), None);
    assert_eq!(sample_contribution(&record, hit, 4), None);
}
