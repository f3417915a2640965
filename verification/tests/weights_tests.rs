use polygenic_score::weights::WeightTable;

#[test]
fn an_empty_table_has_no_site() {
    let table = WeightTable::new();
    assert_eq!(table.len(), 0);
    assert!(table.get(b"1", 1000).is_none());
}

#[test]
fn an_inserted_entry_is_found_again() {
    let mut table = WeightTable::new();
    table.insert(b"1", 1000, b"A", 0);
    assert_eq!(table.len(), 1);
    let entry = table.get(b"1", 1000).unwrap();
    assert_eq!(entry.chromosome, b"1");
    assert_eq!(entry.position, 1000);
    assert_eq!(entry.effect_allele, b"A");
    assert_eq!(entry.weight, 0);
}

#[test]
fn lookups_normalize_the_chromosome() {
    let mut table = WeightTable::new();
    table.insert(b"chr2", 5, b"T", 3);
    assert_eq!(table.get(b"2", 5).unwrap().weight, 3);
    assert_eq!(table.get(b"chr2", 5).unwrap().weight, 3);
    assert_eq!(table.get(b"chr2", 5).unwrap().chromosome, b"2");
    assert!(table.get(b"Chr2", 5).is_none());
    assert!(table.get(b"2", 6).is_none());
    assert!(table.get(b"3", 5).is_none());
}

#[test]
fn a_later_entry_for_a_site_replaces_the_earlier() {
    let mut table = WeightTable::new();
    table.insert(b"1", 1000, b"A", 0);
    table.insert(b"chr1", 1000, b"G", 1);
    assert_eq!(table.len(), 1);
    let entry = table.get(b"1", 1000).unwrap();
    assert_eq!(entry.effect_allele, b"G");
    assert_eq!(entry.weight, 1);
}

#[test]
fn sites_at_one_position_on_several_chromosomes_are_kept_apart() {
    let mut table = WeightTable::new();
    table.insert(b"1", 77, b"A", 0);
    table.insert(b"2", 77, b"C", 1);
    table.insert(b"X", 77, b"G", 2);
    table.insert(b"1", 78, b"T", 3);
    assert_eq!(table.len(), 4);
    assert_eq!(table.get(b"1", 77).unwrap().effect_allele, b"A");
    assert_eq!(table.get(b"2", 77).unwrap().effect_allele, b"C");
    assert_eq!(table.get(b"chrX", 77).unwrap().effect_allele, b"G");
    assert_eq!(table.get(b"1", 78).unwrap().weight, 3);
    assert!(table.get(b"Y", 77).is_none());
    table.insert(b"2", 77, b"CT", 9);
    assert_eq!(table.len(), 4);
    assert_eq!(table.get(b"2", 77).unwrap().effect_allele, b"CT");
    assert_eq!(table.get(b"1", 77).unwrap().weight, 0);
}

#[test]
fn a_large_table_answers_every_lookup() {
    let mut table = WeightTable::new();
    for i in 0..5000usize {
        let chromosome = format!("{}", i % 22 + 1);
        table.insert(chromosome.as_bytes(), (i / 22) as u32, b"A", i);
    }
    assert_eq!(table.len(), 5000);
    for i in 0..5000usize {
        let chromosome = format!("chr{}", i % 22 + 1);
        assert_eq!(table.get(chromosome.as_bytes(), (i / 22) as u32).unwrap().weight, i);
    }
    assert!(table.get(b"23", 0).is_none());
}
