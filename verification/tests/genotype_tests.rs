use polygenic_score::genotype::{genotype_of, parse_allele_count, resolve_orientation, Orientation};

#[test]
fn homozygous_alt_counts_two_copies_of_alt() {
    assert_eq!(parse_allele_count(b"1/1", true), Some(2));
    assert_eq!(parse_allele_count(b"1|1", true), Some(2));
}

#[test]
fn homozygous_ref_counts_no_copy_of_alt() {
    assert_eq!(parse_allele_count(b"0/0", true), Some(0));
    assert_eq!(parse_allele_count(b"0|0", true), Some(0));
}

#[test]
fn heterozygous_counts_one_copy_whatever_the_phase() {
    assert_eq!(parse_allele_count(b"0/1", true), Some(1));
    assert_eq!(parse_allele_count(b"1/0", true), Some(1));
    assert_eq!(parse_allele_count(b"0|1", true), Some(1));
    assert_eq!(parse_allele_count(b"1|0", true), Some(1));
}

#[test]
fn reference_orientation_counts_zero_tokens() {
    assert_eq!(parse_allele_count(b"0/0", false), Some(2));
    assert_eq!(parse_allele_count(b"0/1", false), Some(1));
    assert_eq!(parse_allele_count(b"1|1", false), Some(0));
}

#[test]
fn missing_or_third_allele_has_no_dosage() {
    assert_eq!(parse_allele_count(b"./1", true), None);
    assert_eq!(parse_allele_count(b"./.", true), None);
    assert_eq!(parse_allele_count(b".", false), None);
    assert_eq!(parse_allele_count(b"1/2", true), None);
    assert_eq!(parse_allele_count(b"3|0", false), None);
}

#[test]
fn tokens_that_are_not_single_alleles_have_no_dosage() {
    assert_eq!(parse_allele_count(b"", true), None);
    assert_eq!(parse_allele_count(b"0/", true), None);
    assert_eq!(parse_allele_count(b"/1", true), None);
    assert_eq!(parse_allele_count(b"01", true), None);
    assert_eq!(parse_allele_count(b"4/1", true), None);
    assert_eq!(parse_allele_count(b"0/1\r", true), None);
}

#[test]
fn haploid_and_polyploid_genotypes_count_their_tokens() {
    assert_eq!(parse_allele_count(b"1", true), Some(1));
    assert_eq!(parse_allele_count(b"0", true), Some(0));
    assert_eq!(parse_allele_count(b"1/1/1", true), Some(3));
    assert_eq!(parse_allele_count(b"1/0|1", false), Some(1));
}

#[test]
fn genotype_is_the_text_before_the_first_colon() {
    assert_eq!(genotype_of(b"0/1:35:99"), b"0/1");
    assert_eq!(genotype_of(b"1|1"), b"1|1");
    assert_eq!(genotype_of(b":12"), b"");
    assert_eq!(genotype_of(b"0/1:.:."), b"0/1");
}

#[test]
fn orientation_tries_the_reference_first() {
    assert_eq!(resolve_orientation(b"A", b"A", b"G"), Some(Orientation::RefIsEffect));
    assert_eq!(resolve_orientation(b"G", b"A", b"G"), Some(Orientation::AltIsEffect));
    assert_eq!(resolve_orientation(b"T", b"A", b"G"), None);
    assert_eq!(resolve_orientation(b"A", b"A", b"A"), Some(Orientation::RefIsEffect));
    assert_eq!(resolve_orientation(b"a", b"A", b"G"), None);
}
