//! Effect-allele orientation and genotype dosage.

use vstd::prelude::*;
use crate::text::{bytes_eq, first_index, lemma_first_index_is, lemma_split_covers, split, DIGIT_0, DIGIT_1};

verus! {

/// `:`, which ends the genotype inside a sample column.
pub const COLON: u8 = 58;

/// `/`, between the alleles of an unphased genotype.
pub const SLASH: u8 = 47;

/// `|`, between the alleles of a phased genotype.
pub const PIPE: u8 = 124;

/// Which allele of a variant line the weight table scores.
#[derive(Clone, Copy, Debug, PartialEq, Eq, Structural)]
pub enum Orientation {
    /// The effect allele is the line's reference allele: allele index 0 counts.
    RefIsEffect,
    /// The effect allele is the line's alternate allele: allele index 1 counts.
    AltIsEffect,
}

/// How an effect allele lies against a line's alleles: the reference allele is
/// tried first, then the alternate; an allele that is neither has no orientation.
pub open spec fn orientation_of(effect: Seq<u8>, reference: Seq<u8>, alternate: Seq<u8>) -> Option<
    Orientation,
> {
    if effect == reference {
        Some(Orientation::RefIsEffect)
    } else if effect == alternate {
        Some(Orientation::AltIsEffect)
    } else {
        None
    }
}

/// Resolves the orientation of an effect allele against a line's alleles.
pub fn resolve_orientation(effect: &[u8], reference: &[u8], alternate: &[u8]) -> (out: Option<
    Orientation,
>)
    ensures
        out == orientation_of(effect@, reference@, alternate@),
{
    if bytes_eq(effect, reference) {
        Some(Orientation::RefIsEffect)
    } else if bytes_eq(effect, alternate) {
        Some(Orientation::AltIsEffect)
    } else {
        None
    }
}

/// The genotype of a sample column: the text before its first `:`.
pub open spec fn genotype_text(field: Seq<u8>) -> Seq<u8> {
    field.take(first_index(field, COLON))
}

/// Cuts a sample column down to its genotype.
pub fn genotype_of<'a>(field: &'a [u8]) -> (out: &'a [u8])
    ensures
        out@ == genotype_text(field@),
{
    let at = crate::text::find_byte(field, 0, COLON);
    proof {
        assert(field@.skip(0) =~= field@);
        assert(field@.subrange(0, at as int) =~= field@.take(at as int));
    }
    vstd::slice::slice_subrange(field, 0, at)
}

/// A genotype with every `|` written as `/`: phasing does not affect dosage.
pub open spec fn unphased(gt: Seq<u8>) -> Seq<u8> {
    Seq::new(
        gt.len(),
        |i: int|
            if gt[i] == PIPE {
                SLASH
            } else {
                gt[i]
            },
    )
}

/// The allele tokens of a genotype: its pieces between `/` or `|`.
pub open spec fn allele_tokens(gt: Seq<u8>) -> Seq<Seq<u8>> {
    split(unphased(gt), SLASH)
}

/// A token that names the reference (`0`) or the alternate (`1`) allele.
pub open spec fn is_allele_token(t: Seq<u8>) -> bool {
    t.len() == 1 && (t[0] == DIGIT_0 || t[0] == DIGIT_1)
}

/// The token that bears the effect allele: `1` when the effect allele is the
/// alternate allele, `0` when it is the reference allele.
pub open spec fn effect_token(effect_is_alt: bool) -> Seq<u8> {
    if effect_is_alt {
        seq![DIGIT_1]
    } else {
        seq![DIGIT_0]
    }
}

/// How many of the tokens equal `t`.
pub open spec fn count_of(ts: Seq<Seq<u8>>, t: Seq<u8>) -> nat
    decreases ts.len(),
{
    if ts.len() == 0 {
        0
    } else {
        count_of(ts.drop_last(), t) + if ts.last() == t {
            1nat
        } else {
            0nat
        }
    }
}

/// Whether every token names allele 0 or allele 1.
pub open spec fn all_allele_tokens(ts: Seq<Seq<u8>>) -> bool {
    forall|i: int| 0 <= i < ts.len() ==> is_allele_token(#[trigger] ts[i])
}

/// The dosage of a genotype: the number of its tokens that bear the effect
/// allele. A genotype with any token other than `0` or `1` (a missing allele, a
/// third allele, an empty token) has no dosage.
pub open spec fn allele_count(gt: Seq<u8>, effect_is_alt: bool) -> Option<nat> {
    if all_allele_tokens(allele_tokens(gt)) {
        Some(count_of(allele_tokens(gt), effect_token(effect_is_alt)))
    } else {
        None
    }
}

/// Counts the copies of the effect allele in a genotype such as `0/1` or `1|1`.
pub fn parse_allele_count(gt: &[u8], effect_is_alt: bool) -> (out: Option<usize>)
    ensures
        out.is_some() == allele_count(gt@, effect_is_alt).is_some(),
        out.is_some() ==> out.unwrap() == allele_count(gt@, effect_is_alt).unwrap(),
{
    let wanted: u8 = if effect_is_alt {
        DIGIT_1
    } else {
        DIGIT_0
    };
    let ghost u = unphased(gt@);
    let ghost ts = allele_tokens(gt@);
    let ghost mut done: Seq<Seq<u8>> = Seq::empty();
    let mut count: usize = 0;
    let mut start: usize = 0;
    proof {
        assert(u.skip(0) =~= u);
        assert(done + split(u, SLASH) =~= split(u, SLASH));
    }
    loop
        invariant_except_break
            0 <= start <= gt@.len(),
            ts == done + split(u.skip(start as int), SLASH),
            done.len() <= start,
        invariant
            u == unphased(gt@),
            ts == allele_tokens(gt@),
            wanted == effect_token(effect_is_alt)[0],
            all_allele_tokens(done),
            count == count_of(done, effect_token(effect_is_alt)),
            count <= done.len(),
        ensures
            ts == done,
        decreases gt@.len() - start,
    {
        let mut at: usize = start;
        while at < gt.len() && gt[at] != SLASH && gt[at] != PIPE
            invariant
                start <= at <= gt@.len(),
                u == unphased(gt@),
                forall|k: int| start <= k < at ==> u[k] != SLASH,
            decreases gt@.len() - at,
        {
            at += 1;
        }
        let ghost rest = u.skip(start as int);
        let ghost token = rest.take(at - start);
        proof {
            lemma_first_index_is(rest, SLASH, at - start);
            assert(split(rest, SLASH)[0] == token) by {
                if at < gt@.len() {
                    assert(split(rest, SLASH) == seq![token] + split(rest.skip(at - start + 1), SLASH));
                } else {
                    assert(token =~= rest);
                }
            }
            assert(ts[done.len() as int] == token);
        }
        if at - start != 1 || (gt[start] != DIGIT_0 && gt[start] != DIGIT_1) {
            proof {
                if at - start == 1 {
                    assert(token[0] == u[start as int]);
                }
                assert(!is_allele_token(ts[done.len() as int]));
            }
            return None;
        }
        proof {
            assert(token[0] == u[start as int]);
            assert(token =~= seq![gt@[start as int]]);
            assert(done.push(token).drop_last() =~= done);
            assert(effect_token(effect_is_alt) =~= seq![wanted]);
            assert((token == effect_token(effect_is_alt)) == (gt@[start as int] == wanted));
        }
        if gt[start] == wanted {
            count += 1;
        }
        proof {
            done = done.push(token);
        }
        if at >= gt.len() {
            proof {
                assert(split(rest, SLASH) =~= seq![token]);
                assert(done =~= done.drop_last() + seq![token]);
            }
            break;
        }
        proof {
            assert(rest.skip(at - start + 1) =~= u.skip(at + 1));
            assert(done.drop_last() + (seq![token] + split(u.skip(at + 1), SLASH)) =~= done + split(
                u.skip(at + 1),
                SLASH,
            ));
        }
        start = at + 1;
    }
    Some(count)
}

/// A genotype with every `/` written as `|`.
pub open spec fn phased(gt: Seq<u8>) -> Seq<u8> {
    Seq::new(
        gt.len(),
        |i: int|
            if gt[i] == SLASH {
                PIPE
            } else {
                gt[i]
            },
    )
}

/// Phasing does not affect dosage: a genotype has the same dosage whether its
/// alleles are separated by `/` or by `|`.
pub proof fn lemma_phase_is_irrelevant(gt: Seq<u8>, effect_is_alt: bool)
    ensures
        allele_count(phased(gt), effect_is_alt) == allele_count(gt, effect_is_alt),
        allele_count(unphased(gt), effect_is_alt) == allele_count(gt, effect_is_alt),
{
    assert(unphased(phased(gt)) =~= unphased(gt));
    assert(unphased(unphased(gt)) =~= unphased(gt));
}

/// Tokens that all name allele 0 or allele 1 name one or the other.
pub proof fn lemma_counts_complement(ts: Seq<Seq<u8>>)
    requires
        all_allele_tokens(ts),
    ensures
        count_of(ts, effect_token(true)) + count_of(ts, effect_token(false)) == ts.len(),
    decreases ts.len(),
{
    if ts.len() > 0 {
        assert(all_allele_tokens(ts.drop_last())) by {
            assert forall|i: int| 0 <= i < ts.drop_last().len() implies is_allele_token(
                #[trigger] ts.drop_last()[i],
            ) by {
                assert(ts.drop_last()[i] == ts[i]);
            }
        }
        lemma_counts_complement(ts.drop_last());
        let t = ts.last();
        assert(is_allele_token(t));
        assert(t =~= seq![t[0]]);
        assert(effect_token(true)[0] == DIGIT_1);
        assert(effect_token(false)[0] == DIGIT_0);
    }
}

/// The two orientations are symmetric: a genotype has a dosage under one
/// exactly when it has one under the other, and the two dosages add up to the
/// number of its alleles.
pub proof fn lemma_orientations_complement(gt: Seq<u8>)
    ensures
        allele_count(gt, true).is_some() == allele_count(gt, false).is_some(),
        allele_count(gt, true).is_some() ==> allele_count(gt, true).unwrap() + allele_count(
            gt,
            false,
        ).unwrap() == allele_tokens(gt).len(),
{
    if all_allele_tokens(allele_tokens(gt)) {
        lemma_counts_complement(allele_tokens(gt));
    }
}

/// The dosage of a diploid genotype: of two alleles, each `0` or `1`, with
/// `/` or `|` between them, it is the number of the two that bear the effect
/// allele. So `1/1` counts 2 alternate alleles, `0/0` none, `0/1` and `1/0`
/// one, and the same with `|`.
pub proof fn lemma_diploid_dosage(first: u8, separator: u8, second: u8, effect_is_alt: bool)
    requires
        first == DIGIT_0 || first == DIGIT_1,
        second == DIGIT_0 || second == DIGIT_1,
        separator == SLASH || separator == PIPE,
    ensures
        allele_count(seq![first, separator, second], effect_is_alt) == Some(
            (if seq![first] == effect_token(effect_is_alt) {
                1nat
            } else {
                0nat
            }) + (if seq![second] == effect_token(effect_is_alt) {
                1nat
            } else {
                0nat
            }),
        ),
{
    let gt = seq![first, separator, second];
    let u = unphased(gt);
    assert(u =~= seq![first, SLASH, second]);
    lemma_first_index_is(u, SLASH, 1);
    assert(u.take(1) =~= seq![first]);
    assert(u.skip(2) =~= seq![second]);
    lemma_first_index_is(seq![second], SLASH, 1);
    assert(split(seq![second], SLASH) =~= seq![seq![second]]);
    let ts = allele_tokens(gt);
    assert(ts =~= seq![seq![first], seq![second]]);
    assert(ts.drop_last() =~= seq![seq![first]]);
    assert(ts.drop_last().drop_last() =~= Seq::<Seq<u8>>::empty());
    let t = effect_token(effect_is_alt);
    assert(count_of(ts.drop_last().drop_last(), t) == 0);
    assert(count_of(ts.drop_last(), t) == count_of(ts.drop_last().drop_last(), t) + if seq![first]
        == t {
        1nat
    } else {
        0nat
    });
}

/// Missing data is never scored: a genotype that holds any byte other than
/// `0`, `1`, `/` and `|` (a `.` for a missing allele, a `2` or a `3` for
/// a further allele) has no dosage.
pub proof fn lemma_marker_has_no_dosage(gt: Seq<u8>, i: int, effect_is_alt: bool)
    requires
        0 <= i < gt.len(),
        gt[i] != DIGIT_0,
        gt[i] != DIGIT_1,
        gt[i] != SLASH,
        gt[i] != PIPE,
    ensures
        allele_count(gt, effect_is_alt).is_none(),
{
    let u = unphased(gt);
    assert(u[i] == gt[i]);
    let at = lemma_split_covers(u, SLASH, i);
    let token = allele_tokens(gt)[at.0];
    assert(!is_allele_token(token));
}

} // verus!
