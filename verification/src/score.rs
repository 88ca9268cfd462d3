//! How well one word of a query matches one word of a record.
//!
//! Scores are fixed-point numbers with 32 fractional bits, so that sums of
//! them are exact: [`UNIT`] stands for 1. A query word that equals the
//! candidate scores 5, one that the candidate begins with scores 3, and any
//! other pair scores its trigram similarity, a number from 0 to 1. Case
//! matters for the first two and not for the third, which folds case before
//! it compares. An empty word on either side scores 0.

use vstd::prelude::*;
use vstd::arithmetic::power2::*;
use vstd::bits::*;
use crate::text::{begins_with, same_text};

verus! {

/// The fixed-point number 1.
pub const UNIT: u64 = 0x1_0000_0000;

/// The score of a query word that equals the candidate: 5.
pub const EXACT: u64 = 0x5_0000_0000;

/// The score of a query word that the candidate begins with: 3.
pub const PREFIX: u64 = 0x3_0000_0000;

/// The bit pattern of the single-precision number 1.
pub const SINGLE_ONE: u32 = 0x3f80_0000;

/// What `trigram::similarity` returns for two texts, as the bit pattern of
/// that single-precision number.
pub uninterp spec fn trigram_similarity(a: Seq<char>, b: Seq<char>) -> u32;

/// Calls `trigram::similarity` and hands out the bit pattern of its result.
#[verifier::external_body]
fn similarity_bits(a: &str, b: &str) -> (bits: u32)
    ensures
        bits == trigram_similarity(a@, b@),
{
    trigram::similarity(a, b).to_bits()
}

/// The number that a single-precision bit pattern stands for, in units of
/// 2^-32 and rounded down; 0 for a pattern that stands for no number from 0
/// to 1 (a negative one, one above 1, an infinity, not a number).
///
/// The patterns of the numbers from 0 to 1 are those up to [`SINGLE_ONE`].
/// The top 9 bits of such a pattern hold the exponent `e` and the low 23 the
/// fraction `m`. With `e` at 0 the number is below 2^-126. Otherwise it is
/// `(2^23 + m) * 2^(e - 150)`.
pub open spec fn fixed_of_single(bits: u32) -> nat {
    let e = bits / 0x80_0000;
    let m = bits % 0x80_0000;
    if bits > SINGLE_ONE || e == 0 {
        0
    } else if e >= 118 {
        (0x80_0000 + m) as nat * pow2((e - 118) as nat)
    } else {
        (0x80_0000 + m) as nat / pow2((118 - e) as nat)
    }
}

/// No bit pattern stands for more than 1.
pub proof fn lemma_fixed_at_most_unit(bits: u32)
    ensures
        fixed_of_single(bits) <= UNIT,
{
    let e = bits / 0x80_0000;
    let m = bits % 0x80_0000;
    let significand = (0x80_0000 + m) as int;
    lemma2_to64();
    if bits > SINGLE_ONE || e == 0 {
    } else if e >= 118 {
        let shift = (e - 118) as nat;
        assert(shift == 9 ==> m == 0);
        if shift < 8 {
            lemma_pow2_strictly_increases(shift, 8);
        }
        assert(significand * pow2(shift) <= 0x1_0000_0000) by (nonlinear_arith)
            requires
                0 <= significand <= 0xff_ffff,
                shift <= 8 ==> pow2(shift) <= 0x100,
                shift > 8 ==> pow2(shift) == 0x200 && significand == 0x80_0000,
        ;
    } else {
        let shift = (118 - e) as nat;
        lemma_pow2_pos(shift);
        vstd::arithmetic::div_mod::lemma_div_pos_is_pos(significand, pow2(shift) as int);
        vstd::arithmetic::div_mod::lemma_div_is_ordered_by_denominator(
            significand,
            1,
            pow2(shift) as int,
        );
    }
}

/// Turns the bit pattern of a single-precision number into fixed point.
pub fn fixed_from_single(bits: u32) -> (fixed: u64)
    ensures
        fixed == fixed_of_single(bits),
        fixed <= UNIT,
{
    let e: u32 = bits / 0x80_0000;
    let m: u32 = bits % 0x80_0000;
    if bits > SINGLE_ONE || e == 0 {
        return 0;
    }
    let significand: u64 = 0x80_0000 + m as u64;
    proof {
        lemma_fixed_at_most_unit(bits);
    }
    if e >= 118 {
        let shift: u64 = (e - 118) as u64;
        proof {
            lemma_u64_shl_is_mul(significand, shift);
        }
        significand << shift
    } else if e <= 94 {
        proof {
            lemma2_to64();
            if e < 94 {
                lemma_pow2_strictly_increases(24, (118 - e) as nat);
            }
            vstd::arithmetic::div_mod::lemma_basic_div(
                significand as int,
                pow2((118 - e) as nat) as int,
            );
        }
        0
    } else {
        let shift: u64 = (118 - e) as u64;
        proof {
            lemma_u64_shr_is_div(significand, shift);
        }
        significand >> shift
    }
}

/// The score of one query word against one candidate word.
pub open spec fn score(query: Seq<char>, candidate: Seq<char>) -> u64 {
    if query.len() == 0 || candidate.len() == 0 {
        0
    } else if query == candidate {
        EXACT
    } else if query.is_prefix_of(candidate) {
        PREFIX
    } else {
        fixed_of_single(trigram_similarity(query, candidate)) as u64
    }
}

/// An exact match outscores a match of the beginning, and that outscores
/// every other match, whatever the words are and however long: for a query
/// word that is not empty, its score against itself is above its score
/// against a longer word that begins with it, and that is above its score
/// against a word that does not begin with it.
pub proof fn lemma_tiers(query: Seq<char>, longer: Seq<char>, other: Seq<char>)
    requires
        query.len() > 0,
        query.is_prefix_of(longer),
        longer != query,
        !query.is_prefix_of(other),
    ensures
        score(query, query) == EXACT,
        score(query, longer) == PREFIX,
        score(query, other) <= UNIT,
        score(query, query) > score(query, longer) > score(query, other),
{
    lemma_fixed_at_most_unit(trigram_similarity(query, other));
    assert(query.is_prefix_of(query)) by {
        assert(query.subrange(0, query.len() as int) =~= query);
    }
    assert(longer.len() > 0);
}

/// An empty word scores 0, whichever side it stands on.
pub proof fn lemma_empty_scores_nothing(word: Seq<char>)
    ensures
        score(Seq::empty(), word) == 0,
        score(word, Seq::empty()) == 0,
{
}

/// Scores one query word against one candidate word.
pub fn rank_similarity(query: &str, subject: &str) -> (points: u64)
    ensures
        points == score(query@, subject@),
        points <= EXACT,
{
    if query.is_empty() || subject.is_empty() {
        return 0;
    }
    if same_text(query, subject) {
        return EXACT;
    }
    if begins_with(subject, query) {
        return PREFIX;
    }
    proof {
        lemma_fixed_at_most_unit(trigram_similarity(query@, subject@));
    }
    fixed_from_single(similarity_bits(query, subject))
}

} // verus!
