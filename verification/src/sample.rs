//! Per-sample accumulators and their reduction.

use vstd::prelude::*;
use crate::variant::Contribution;

verus! {

/// The running totals of one sample, as values: the terms of its score in the
/// order in which they were added, and how many lines were matched and seen.
pub ghost struct Tally {
    pub terms: Seq<Contribution>,
    pub matched: nat,
    pub total: nat,
}

impl Tally {
    /// The totals before any line: no term, nothing matched, nothing seen.
    pub open spec fn zero() -> Tally {
        Tally { terms: Seq::empty(), matched: 0, total: 0 }
    }

    /// The totals after one more data line: the line is seen; it is matched,
    /// and adds its term, exactly when it has one.
    pub open spec fn with_line(self, term: Option<Contribution>) -> Tally {
        match term {
            Some(c) => Tally {
                terms: self.terms.push(c),
                matched: self.matched + 1,
                total: self.total + 1,
            },
            None => Tally { terms: self.terms, matched: self.matched, total: self.total + 1 },
        }
    }

    /// The sum of two totals, field by field; the terms of the second follow
    /// those of the first.
    pub open spec fn plus(self, other: Tally) -> Tally {
        Tally {
            terms: self.terms + other.terms,
            matched: self.matched + other.matched,
            total: self.total + other.total,
        }
    }
}

/// Adding the empty totals changes nothing, on either side.
pub proof fn lemma_plus_zero(a: Tally)
    ensures
        a.plus(Tally::zero()) == a,
        Tally::zero().plus(a) == a,
{
    assert(a.terms + Seq::<Contribution>::empty() =~= a.terms);
    assert(Seq::<Contribution>::empty() + a.terms =~= a.terms);
}

/// The reduction is associative: partial results may be grouped in any way.
pub proof fn lemma_plus_associative(a: Tally, b: Tally, c: Tally)
    ensures
        a.plus(b).plus(c) == a.plus(b.plus(c)),
{
    assert((a.terms + b.terms) + c.terms =~= a.terms + (b.terms + c.terms));
}

/// The reduction is commutative: in either order two partial results give the
/// same counts and the same terms, each as often; only the order in which the
/// terms stand differs.
pub proof fn lemma_plus_commutative(a: Tally, b: Tally)
    ensures
        a.plus(b).matched == b.plus(a).matched,
        a.plus(b).total == b.plus(a).total,
        a.plus(b).terms.to_multiset() == b.plus(a).terms.to_multiset(),
{
    vstd::seq_lib::lemma_multiset_commutative(a.terms, b.terms);
    vstd::seq_lib::lemma_multiset_commutative(b.terms, a.terms);
    assert(a.terms.to_multiset().add(b.terms.to_multiset()) =~= b.terms.to_multiset().add(
        a.terms.to_multiset(),
    ));
}

/// The accumulator of one sample.
///
/// The score of the sample is the sum of `weight × allele_count` over `terms`.
#[derive(Clone, Debug, PartialEq, Eq)]
pub struct SampleData {
    /// The terms of the score, in the order in which the lines were read.
    pub terms: Vec<Contribution>,
    /// The number of lines that added a term.
    pub matched_variants: usize,
    /// The number of data lines seen.
    pub total_variants: usize,
}

impl View for SampleData {
    type V = Tally;

    open spec fn view(&self) -> Tally {
        Tally {
            terms: self.terms@,
            matched: self.matched_variants as nat,
            total: self.total_variants as nat,
        }
    }
}

impl SampleData {
    /// The invariant of an accumulator: every matched line has added one term,
    /// and no line is matched that was not seen.
    pub open spec fn wf(&self) -> bool {
        self.matched_variants == self.terms@.len() && self.matched_variants <= self.total_variants
    }

    /// A zeroed accumulator.
    pub fn new() -> (out: SampleData)
        ensures
            out.wf(),
            out@ == Tally::zero(),
    {
        SampleData { terms: Vec::new(), matched_variants: 0, total_variants: 0 }
    }

    /// Records one data line: `term` is what the line adds to the score, if
    /// the line is matched.
    pub fn record(&mut self, term: Option<Contribution>)
        requires
            old(self).wf(),
            old(self).total_variants < usize::MAX,
        ensures
            final(self).wf(),
            final(self)@ == old(self)@.with_line(term),
    {
        self.total_variants = self.total_variants + 1;
        match term {
            Some(c) => {
                self.terms.push(c);
                self.matched_variants = self.matched_variants + 1;
            },
            None => {},
        }
    }

    /// Adds the totals of another accumulator to this one.
    pub fn merge(&mut self, other: &SampleData)
        requires
            old(self).wf(),
            other.wf(),
            old(self).total_variants + other.total_variants <= usize::MAX,
        ensures
            final(self).wf(),
            final(self)@ == old(self)@.plus(other@),
    {
        let mut i: usize = 0;
        while i < other.terms.len()
            invariant
                0 <= i <= other.terms@.len(),
                self.terms@ == old(self).terms@ + other.terms@.take(i as int),
                self.matched_variants == old(self).matched_variants,
                self.total_variants == old(self).total_variants,
            decreases other.terms@.len() - i,
        {
            self.terms.push(other.terms[i]);
            proof {
                assert(other.terms@.take(i + 1) =~= other.terms@.take(i as int).push(
                    other.terms@[i as int],
                ));
                assert(self.terms@ =~= old(self).terms@ + other.terms@.take(i + 1));
            }
            i += 1;
        }
        proof {
            assert(other.terms@.take(i as int) =~= other.terms@);
        }
        self.matched_variants = self.matched_variants + other.matched_variants;
        self.total_variants = self.total_variants + other.total_variants;
    }
}

} // verus!
