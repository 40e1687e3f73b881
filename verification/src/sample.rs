//! Random numbers: where they come from, and what is made of them.
//!
//! A source hands out words of 64 random bits. A number between zero and one
//! is made of the upper 53 bits of a word, and a point inside the unit ball
//! of three such numbers, drawn again until the point lies inside.
use vstd::prelude::*;
use vstd::arithmetic::power2::lemma2_to64;
use vstd::arithmetic::power2::lemma2_to64_rest;
use vstd::arithmetic::power2::lemma_pow2_adds;
use vstd::arithmetic::power2::lemma_pow2_pos;
use vstd::arithmetic::power2::pow2;
use crate::arith::signed;
use crate::round::lemma_nearest_is;
use crate::round::lemma_pow2_is_monotone;
use crate::round::lemma_value_grows;
use crate::round::lemma_value_of_packed;
use crate::round::nearest;
use crate::round::round_pack;
use crate::scalar::Scalar;
use crate::scalar::lemma_small_integers;
use crate::scalar::value_of;
use crate::scalar::{HIDDEN_BIT, INFINITY_BITS, ONE_BITS, TWO_BITS, ZERO_BITS};
use crate::vector::Vec3;

verus! {

/// How many candidates are drawn from the cube before the draw from the unit
/// ball gives up and takes the centre of the ball.
pub const MAX_DRAWS: u32 = 1000;

/// A source of random words. Nothing is asked of the words: what is made of
/// them is right whatever they are, and as random as they are.
///
/// A source whose words follow from its state, as those of a seeded
/// generator do, says so in `foretold` and names them in `word_at`. Of a
/// source that does neither, nothing is claimed.
pub trait RandomSource {
    /// Whether the words of this type of source follow from its state.
    open spec fn foretold() -> bool {
        false
    }

    /// The word that the source hands out after `i` others.
    open spec fn word_at(&self, i: int) -> u64 {
        0
    }

    /// The next 64 random bits: the first of the words to come, which leaves
    /// the source with those after it.
    fn next_word(&mut self) -> (word: u64)
        ensures
            Self::foretold() ==> word == old(self).word_at(0),
            Self::foretold() ==> forall|i: int|
                0 <= i ==> #[trigger] final(self).word_at(i) == old(self).word_at(i + 1),
    ;
}

/// The random source of the running thread.
pub struct ThreadRandom {}

/// A word from `rand::random`, which draws it from the generator of the
/// running thread. Nothing is claimed of the word.
#[verifier::external_body]
fn thread_word() -> (word: u64) {
    rand::random()
}

impl ThreadRandom {
    /// The random source of the running thread.
    pub fn new() -> ThreadRandom {
        ThreadRandom {  }
    }
}

impl RandomSource for ThreadRandom {
    fn next_word(&mut self) -> u64 {
        thread_word()
    }
}

/// What is done with a candidate drawn from the cube `[-1, 1]^3`.
#[derive(Clone, Copy, Debug, PartialEq, Eq, Structural)]
pub enum Draw {
    /// The candidate lies strictly inside the unit ball: take it.
    Accept,
    /// It does not: draw another.
    Again,
    /// It does not, and enough were drawn: give up.
    GiveUp,
}

/// The number between zero and one that is made of a word: its upper 53
/// bits, as a whole number, divided by two to the power 53.
pub open spec fn unit_draw(word: u64) -> Scalar {
    signed(false, nearest((word / 2048) * pow2(1021), 1))
}

/// Whether a squared length is a number less than one.
pub open spec fn inside_unit_ball(squared_len: Scalar) -> bool {
    !squared_len.nan() && squared_len.scaled_value() < pow2(1074)
}

/// The vector of three ones.
pub open spec fn ones() -> Vec3 {
    Vec3 {
        x: Scalar { bits: ONE_BITS },
        y: Scalar { bits: ONE_BITS },
        z: Scalar { bits: ONE_BITS },
    }
}

/// The vector of three zeros.
pub open spec fn zeros() -> Vec3 {
    Vec3 {
        x: Scalar { bits: ZERO_BITS },
        y: Scalar { bits: ZERO_BITS },
        z: Scalar { bits: ZERO_BITS },
    }
}

/// The candidate that is made of three numbers between zero and one: the
/// point of the cube `[-1, 1]^3` at twice the numbers, less one.
pub open spec fn candidate(a: Scalar, b: Scalar, c: Scalar) -> Vec3 {
    (Vec3 { x: a, y: b, z: c }).scaled(Scalar { bits: TWO_BITS }).difference(ones())
}

/// Whether a point can come out of a draw from the unit ball: it lies
/// strictly inside the ball, or it is the centre, which the draw falls back
/// to.
pub open spec fn is_scatter(p: Vec3) -> bool {
    inside_unit_ball(p.sum_of_squares()) || p == zeros()
}

/// The number between zero and one that is made of a word. It is at least
/// zero and less than one.
pub fn unit_interval(word: u64) -> (s: Scalar)
    ensures
        s == unit_draw(word),
        !s.nan(),
        0 <= s.scaled_value() < pow2(1074),
        s.scaled_value() == (word / 2048) * pow2(1021),
{
    let q: u64 = word / 2048;
    proof {
        lemma2_to64();
        lemma2_to64_rest();
        lemma_pow2_is_monotone(53, 120);
    }
    let m: u64 = round_pack(q as u128, false, 1021);
    proof {
        let unit = pow2(1021) as int;
        lemma_pow2_pos(1021);
        lemma_nearest_is(m as int, q * unit, 1);
        lemma_pow2_adds(53, 1021);
        assert(q * unit < pow2(53) * unit) by (nonlinear_arith)
            requires
                q < pow2(53),
                unit > 0,
        ;
        assert(0 <= q * unit) by (nonlinear_arith)
            requires
                q >= 0,
                unit > 0,
        ;
        // less than one, so far from the greatest number
        lemma_small_integers();
        assert(value_of(ONE_BITS as int) == pow2(1074)) by {
            assert(1 * pow2(1074) == pow2(1074)) by (nonlinear_arith);
        }
        lemma_value_grows(ONE_BITS as int, INFINITY_BITS - 1);
        lemma_value_grows(INFINITY_BITS - 1, INFINITY_BITS as int);
        assert(m < INFINITY_BITS);
    }
    Scalar::from_bits(m)
}

/// Judges a candidate by its squared length: it is taken where that is less
/// than one. `drawn` counts the candidates drawn so far, this one included.
pub fn judge_draw(squared_len: Scalar, drawn: u32) -> (d: Draw)
    ensures
        inside_unit_ball(squared_len) ==> d == Draw::Accept,
        !inside_unit_ball(squared_len) && drawn < MAX_DRAWS ==> d == Draw::Again,
        !inside_unit_ball(squared_len) && drawn >= MAX_DRAWS ==> d == Draw::GiveUp,
{
    let one = Scalar::from_bits(ONE_BITS);
    proof {
        lemma_small_integers();
    }
    if squared_len.lt(one) {
        Draw::Accept
    } else if drawn < MAX_DRAWS {
        Draw::Again
    } else {
        Draw::GiveUp
    }
}

/// The vector of three zeros.
pub fn zero_vector() -> (v: Vec3)
    ensures
        v == zeros(),
{
    let zero = Scalar::from_bits(ZERO_BITS);
    Vec3::new(zero, zero, zero)
}

/// The candidate that a source makes of the three words from the word `at`
/// on.
pub open spec fn candidate_at<R: RandomSource>(rng: R, at: int) -> Vec3 {
    candidate(
        unit_draw(rng.word_at(at)),
        unit_draw(rng.word_at(at + 1)),
        unit_draw(rng.word_at(at + 2)),
    )
}

/// Whether the candidate number `k` of a source, counted from zero, lies
/// strictly inside the unit ball.
pub open spec fn is_taken<R: RandomSource>(rng: R, k: int) -> bool {
    inside_unit_ball(candidate_at(rng, 3 * k).sum_of_squares())
}

/// The number of the first candidate from number `from` on that lies
/// strictly inside the unit ball, or `MAX_DRAWS` where none does before
/// that many were drawn.
pub open spec fn first_taken<R: RandomSource>(rng: R, from: int) -> int
    decreases MAX_DRAWS - from,
{
    if from >= MAX_DRAWS || is_taken(rng, from) {
        from
    } else {
        first_taken(rng, from + 1)
    }
}

/// How many words a draw from the unit ball takes from a source: three for
/// each candidate up to the one that is taken, or up to the last where none
/// is.
pub open spec fn words_taken<R: RandomSource>(rng: R) -> int {
    if first_taken(rng, 0) < MAX_DRAWS {
        3 * (first_taken(rng, 0) + 1)
    } else {
        3 * MAX_DRAWS
    }
}

/// Whether the source `later` hands out the words of the source `sooner`
/// from the word `by` on: it is `sooner` after `by` words were taken.
pub open spec fn follows<R: RandomSource>(later: R, sooner: R, by: int) -> bool {
    forall|i: int| 0 <= i ==> #[trigger] later.word_at(i) == sooner.word_at(i + by)
}

/// Whether a draw from the unit ball finds a point with the words of a
/// source: one of the first `MAX_DRAWS` candidates lies inside the ball.
pub open spec fn finds_point<R: RandomSource>(rng: R) -> bool {
    first_taken(rng, 0) < MAX_DRAWS
}

/// The point that a draw from the unit ball makes of the words of a source:
/// the first candidate inside the ball, or the centre where none is found.
pub open spec fn point_drawn<R: RandomSource>(rng: R) -> Vec3 {
    if finds_point(rng) {
        candidate_at(rng, 3 * first_taken(rng, 0))
    } else {
        zeros()
    }
}

/// A random point inside the unit ball: candidates are drawn from the cube
/// until one lies strictly inside the ball. After `MAX_DRAWS` candidates
/// that do not, the centre of the ball is taken, and the second part of the
/// result says so with `false`.
///
/// Of a source whose words are foretold the point is the first candidate
/// that lies inside the ball, and the source is left with the words after
/// those of the candidates that were drawn.
pub fn random_in_unit_sphere<R: RandomSource>(rng: &mut R) -> (res: (Vec3, bool))
    ensures
        is_scatter(res.0),
        res.1 ==> inside_unit_ball(res.0.sum_of_squares()),
        !res.1 ==> res.0 == zeros(),
        R::foretold() ==> res.1 == finds_point(*old(rng)),
        R::foretold() ==> res.0 == point_drawn(*old(rng)),
        R::foretold() ==> follows(*final(rng), *old(rng), words_taken(*old(rng))),
{
    let two = Scalar::from_bits(TWO_BITS);
    let one = Scalar::from_bits(ONE_BITS);
    let ghost start = *rng;
    let mut drawn: u32 = 0;
    while drawn < MAX_DRAWS
        invariant
            drawn <= MAX_DRAWS,
            two == (Scalar { bits: TWO_BITS }),
            one == (Scalar { bits: ONE_BITS }),
            start == *old(rng),
            R::foretold() ==> first_taken(start, 0) == first_taken(start, drawn as int),
            R::foretold() ==> forall|i: int|
                0 <= i ==> #[trigger] rng.word_at(i) == start.word_at(i + 3 * drawn),
        decreases MAX_DRAWS - drawn,
    {
        let ghost before = *rng;
        let first = rng.next_word();
        let ghost after_first = *rng;
        let second = rng.next_word();
        let ghost after_second = *rng;
        let third = rng.next_word();
        let a = unit_interval(first);
        let b = unit_interval(second);
        let c = unit_interval(third);
        let p = Vec3::new(a, b, c) * two - Vec3::new(one, one, one);
        proof {
            if R::foretold() {
                assert(first == start.word_at(3 * drawn)) by {
                    assert(before.word_at(0) == start.word_at(0 + 3 * drawn));
                }
                assert(second == start.word_at(3 * drawn + 1)) by {
                    assert(after_first.word_at(0) == before.word_at(1));
                    assert(before.word_at(1) == start.word_at(1 + 3 * drawn));
                }
                assert(third == start.word_at(3 * drawn + 2)) by {
                    assert(after_second.word_at(0) == after_first.word_at(1));
                    assert(after_first.word_at(1) == before.word_at(2));
                    assert(before.word_at(2) == start.word_at(2 + 3 * drawn));
                }
                assert(p == candidate_at(start, 3 * drawn));
                assert forall|i: int| 0 <= i implies #[trigger] rng.word_at(i) == start.word_at(
                    i + 3 * (drawn + 1),
                ) by {
                    assert(rng.word_at(i) == after_second.word_at(i + 1));
                    assert(after_second.word_at(i + 1) == after_first.word_at(i + 2));
                    assert(after_first.word_at(i + 2) == before.word_at(i + 3));
                    assert(before.word_at(i + 3) == start.word_at(i + 3 + 3 * drawn));
                }
            }
        }
        drawn = drawn + 1;
        match judge_draw(p.squared_len(), drawn) {
            Draw::Accept => {
                proof {
                    if R::foretold() {
                        assert(is_taken(start, drawn - 1));
                        assert(first_taken(start, drawn - 1) == drawn - 1);
                    }
                }
                return (p, true);
            },
            Draw::Again => {
                proof {
                    if R::foretold() {
                        assert(!is_taken(start, drawn - 1));
                        assert(first_taken(start, drawn - 1) == first_taken(start, drawn as int));
                    }
                }
            },
            Draw::GiveUp => {
                proof {
                    if R::foretold() {
                        assert(!is_taken(start, drawn - 1));
                        assert(first_taken(start, drawn - 1) == first_taken(start, drawn as int));
                        assert(first_taken(start, drawn as int) == MAX_DRAWS);
                    }
                }
                return (zero_vector(), false);
            },
        }
    }
    (zero_vector(), false)
}

} // verus!
