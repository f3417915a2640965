//! The weight table: which allele is scored at which site, and with which weight.

use vstd::prelude::*;
use vstd::slice::slice_to_vec;
use std::collections::HashMap;
use crate::text::{bytes_eq, has_chr_prefix, lemma_normalized_idempotent, normalize_chromosome, normalized};

verus! {

broadcast use vstd::std_specs::hash::group_hash_axioms;

/// One row of the weight table.
///
/// The weight itself is a decimal fraction that this library never reads: an
/// entry names it by `weight`, the number under which the caller keeps it.
#[derive(Clone, Debug, PartialEq, Eq)]
pub struct WeightEntry {
    /// The chromosome, without any leading `chr`.
    pub chromosome: Vec<u8>,
    /// The 1-based position on the chromosome.
    pub position: u32,
    /// The allele whose copies are scored.
    pub effect_allele: Vec<u8>,
    /// The number under which the caller keeps the weight.
    pub weight: usize,
}

impl WeightEntry {
    /// The site of the entry: its chromosome and position.
    pub open spec fn key(&self) -> (Seq<u8>, u32) {
        (self.chromosome@, self.position)
    }

    /// What the entry says of its site: the effect allele and the weight's number.
    pub open spec fn value(&self) -> (Seq<u8>, usize) {
        (self.effect_allele@, self.weight)
    }
}

/// The site that a chromosome name and a position denote in a table: the name
/// is normalized, so `chr1` and `1` denote the same site.
pub open spec fn site(chromosome: Seq<u8>, position: u32) -> (Seq<u8>, u32) {
    (normalized(chromosome), position)
}

/// A lookup structure from sites to effect alleles and weights, with at most
/// one entry per site.
pub struct WeightTable {
    entries: Vec<WeightEntry>,
    by_position: HashMap<u32, Vec<usize>>,
    model: Ghost<Map<(Seq<u8>, u32), (Seq<u8>, usize)>>,
}

impl WeightTable {
    /// The table as a map from `(chromosome, position)` to `(effect allele, weight number)`.
    pub closed spec fn view(&self) -> Map<(Seq<u8>, u32), (Seq<u8>, usize)> {
        self.model@
    }

    /// The invariant of the table: every entry stands for exactly one site of
    /// the map and every site for one entry, and every chromosome is normalized.
    pub closed spec fn wf(&self) -> bool {
        &&& forall|i: int|
            0 <= i < self.entries@.len() ==> {
                &&& self.model@.contains_key(#[trigger] self.entries@[i].key())
                &&& self.model@[self.entries@[i].key()] == self.entries@[i].value()
                &&& !has_chr_prefix(self.entries@[i].chromosome@)
            }
        &&& forall|k: (Seq<u8>, u32)| #[trigger]
            self.model@.contains_key(k) ==> exists|i: int|
                0 <= i < self.entries@.len() && #[trigger] self.entries@[i].key() == k
        &&& forall|i: int, j: int|
            0 <= i < j < self.entries@.len() ==> #[trigger] self.entries@[i].key()
                != #[trigger] self.entries@[j].key()
        &&& self.model@.dom().finite()
        &&& self.model@.dom().len() == self.entries@.len()
        &&& self.indexed()
    }

    /// The invariant of the index: under every position stand the numbers of
    /// exactly the entries at that position.
    pub closed spec fn indexed(&self) -> bool {
        &&& forall|i: int|
            0 <= i < self.entries@.len() ==> {
                &&& self.by_position@.contains_key((#[trigger] self.entries@[i]).position)
                &&& self.by_position@[self.entries@[i].position]@.contains(i as usize)
            }
        &&& forall|p: u32, j: int|
            self.by_position@.contains_key(p) && 0 <= j < self.by_position@[p]@.len() ==> {
                &&& (#[trigger] self.by_position@[p]@[j]) < self.entries@.len()
                &&& self.entries@[self.by_position@[p]@[j] as int].position == p
            }
    }

    /// Every site of a table has a normalized chromosome.
    pub proof fn lemma_sites_normalized(&self, k: (Seq<u8>, u32))
        requires
            self.wf(),
            self@.contains_key(k),
        ensures
            normalized(k.0) == k.0,
    {
        let i = choose|i: int| 0 <= i < self.entries@.len() && #[trigger] self.entries@[i].key() == k;
        assert(!has_chr_prefix(self.entries@[i].chromosome@));
    }

    /// An empty table.
    pub fn new() -> (table: WeightTable)
        ensures
            table.wf(),
            table@ == Map::<(Seq<u8>, u32), (Seq<u8>, usize)>::empty(),
    {
        WeightTable { entries: Vec::new(), by_position: HashMap::new(), model: Ghost(Map::empty()) }
    }

    /// The number of sites in the table.
    pub fn len(&self) -> (n: usize)
        requires
            self.wf(),
        ensures
            n == self@.len(),
    {
        self.entries.len()
    }

    fn find(&self, chromosome: &[u8], position: u32) -> (at: Option<usize>)
        requires
            self.wf(),
        ensures
            match at {
                Some(i) => i < self.entries@.len() && self.entries@[i as int].key() == site(
                    chromosome@,
                    position,
                ),
                None => !self@.contains_key(site(chromosome@, position)),
            },
    {
        let name = normalize_chromosome(chromosome);
        let bucket = match self.by_position.get(&position) {
            Some(bucket) => bucket,
            None => {
                return None;
            },
        };
        let mut j: usize = 0;
        while j < bucket.len()
            invariant
                self.wf(),
                0 <= j <= bucket@.len(),
                name@ == normalized(chromosome@),
                self.by_position@.contains_key(position),
                self.by_position@[position] == *bucket,
                forall|k: int|
                    0 <= k < j ==> self.entries@[(#[trigger] bucket@[k]) as int].key() != (
                        name@,
                        position,
                    ),
            decreases bucket@.len() - j,
        {
            let i = bucket[j];
            if bytes_eq(self.entries[i].chromosome.as_slice(), name) {
                return Some(i);
            }
            j += 1;
        }
        let count = self.entries.len();
        proof {
            if self@.contains_key(site(chromosome@, position)) {
                let i = choose|i: int|
                    0 <= i < self.entries@.len() && #[trigger] self.entries@[i].key() == site(
                        chromosome@,
                        position,
                    );
                assert(self.entries@[i].position == position);
                assert(i < count);
                assert(bucket@.contains(i as usize));
                let k = choose|k: int| 0 <= k < bucket@.len() && bucket@[k] == i as usize;
                assert(self.entries@[bucket@[k] as int].key() != (name@, position));
            }
        }
        None
    }

    /// Looks up the entry for a site; the chromosome may be written with or
    /// without `chr`.
    pub fn get(&self, chromosome: &[u8], position: u32) -> (out: Option<&WeightEntry>)
        requires
            self.wf(),
        ensures
            match out {
                Some(e) => self@.contains_key(site(chromosome@, position)) && e.key() == site(
                    chromosome@,
                    position,
                ) && e.value() == self@[site(chromosome@, position)],
                None => !self@.contains_key(site(chromosome@, position)),
            },
    {
        match self.find(chromosome, position) {
            Some(i) => Some(&self.entries[i]),
            None => None,
        }
    }

    /// Sets the entry for a site, replacing the one that was there.
    pub fn insert(&mut self, chromosome: &[u8], position: u32, effect_allele: &[u8], weight: usize)
        requires
            old(self).wf(),
        ensures
            final(self).wf(),
            final(self)@ == old(self)@.insert(
                site(chromosome@, position),
                (effect_allele@, weight),
            ),
    {
        let found = self.find(chromosome, position);
        let entry = WeightEntry {
            chromosome: slice_to_vec(normalize_chromosome(chromosome)),
            position,
            effect_allele: slice_to_vec(effect_allele),
            weight,
        };
        let ghost k = site(chromosome@, position);
        let ghost before = self.entries@;
        proof {
            lemma_normalized_idempotent(chromosome@);
            assert(entry.key() == k);
        }
        match found {
            Some(i) => {
                self.entries[i] = entry;
                proof {
                    assert forall|j: int| 0 <= j < self.entries@.len() implies (
                    #[trigger] self.entries@[j]).position == before[j].position by {}
                    self.model@ = self.model@.insert(k, (effect_allele@, weight));
                    assert forall|j: int| 0 <= j < self.entries@.len() implies self.entries@[j].key()
                        == before[j].key() by {}
                    assert(self.model@.dom() =~= old(self).model@.dom());
                    assert forall|q: (Seq<u8>, u32)| #[trigger]
                        self.model@.contains_key(q) implies exists|j: int|
                        0 <= j < self.entries@.len() && #[trigger] self.entries@[j].key() == q by {
                        assert(old(self).model@.contains_key(q));
                        let j = choose|j: int| 0 <= j < before.len() && #[trigger] before[j].key() == q;
                        assert(self.entries@[j].key() == q);
                    }
                }
            },
            None => {
                let number = self.entries.len();
                let ghost index_before = self.by_position@;
                let mut bucket = match self.by_position.remove(&position) {
                    Some(bucket) => bucket,
                    None => Vec::new(),
                };
                let ghost bucket_before = bucket@;
                bucket.push(number);
                let ghost bucket_after = bucket@;
                self.by_position.insert(position, bucket);
                self.entries.push(entry);
                proof {
                    assert forall|i: int| 0 <= i < self.entries@.len() implies {
                        &&& self.by_position@.contains_key((#[trigger] self.entries@[i]).position)
                        &&& self.by_position@[self.entries@[i].position]@.contains(i as usize)
                    } by {
                        if i < before.len() {
                            assert(self.entries@[i] == before[i]);
                            let p = before[i].position;
                            assert(index_before.contains_key(p) && index_before[p]@.contains(
                                i as usize,
                            ));
                            if p == position {
                                let at = choose|at: int|
                                    0 <= at < bucket_before.len() && bucket_before[at] == i as usize;
                                assert(bucket_after[at] == i as usize);
                            }
                        } else {
                            assert(bucket_after[bucket_after.len() - 1] == number);
                        }
                    }
                    assert forall|p: u32, j: int|
                        self.by_position@.contains_key(p) && 0 <= j < self.by_position@[p]@.len() implies {
                        &&& (#[trigger] self.by_position@[p]@[j]) < self.entries@.len()
                        &&& self.entries@[self.by_position@[p]@[j] as int].position == p
                    } by {
                        if p == position {
                            if j < bucket_before.len() {
                                assert(index_before.contains_key(p));
                                assert(bucket_after[j] == index_before[p]@[j]);
                                assert(index_before[p]@[j] < before.len());
                                assert(self.entries@[bucket_after[j] as int] == before[bucket_after[j] as int]);
                            }
                        } else {
                            assert(index_before.contains_key(p));
                            assert(self.by_position@[p] == index_before[p]);
                            assert(index_before[p]@[j] < before.len());
                            assert(self.entries@[index_before[p]@[j] as int] == before[index_before[p]@[j] as int]);
                        }
                    }
                    self.model@ = self.model@.insert(k, (effect_allele@, weight));
                    assert forall|j: int| 0 <= j < before.len() implies self.entries@[j]
                        == before[j] by {}
                    assert forall|q: (Seq<u8>, u32)| #[trigger]
                        self.model@.contains_key(q) implies exists|j: int|
                        0 <= j < self.entries@.len() && #[trigger] self.entries@[j].key() == q by {
                        if q == k {
                            assert(self.entries@[before.len() as int].key() == q);
                        } else {
                            assert(old(self).model@.contains_key(q));
                            let j = choose|j: int|
                                0 <= j < before.len() && #[trigger] before[j].key() == q;
                            assert(self.entries@[j].key() == q);
                        }
                    }
                }
            },
        }
    }
}

} // verus!
