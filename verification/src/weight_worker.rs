use vstd::prelude::*;
use vstd::seq_lib::*;
use crate::dices::Dices;
use crate::score_box::rules::lemma_byte_powers;
use crate::table::{
    lemma_records_round_trip, read_records, records_at, records_bytes, write_records, Record,
    TableError,
};
use crate::utils::{get_le, le_bytes, le_value, lemma_le_bytes_len, lemma_le_round_trip, put_le};
use crate::dices::{valid_throw, Throw};
use crate::play_worker::{
    game_fails, games_complete, hold_lookup, is_thrown, lookup_fails, tables_complete, throw_hand,
};
use crate::score_box::{mean_micro, spec_mean_micro};
use crate::score_box::rules::{valid_dice, Hand, LookupError};
use crate::utils::{
    base10_to_base2, base3_to_base10, base_pow, clear_hand, factor, has_bit, lemma_fresh_mask,
    lemma_members_below, is_cleared, popcount,
};

verus! {

/// The bonus that the game pays.
pub const ACTUAL_BONUS: u32 = 50;

/// The number of games by which a batch's winner is played again, where
/// nothing else is asked for.
pub const TUNING_LAPS: u32 = 1000000;

/// What a weight vector scored in a number of games.
#[derive(Clone, Copy, Debug, PartialEq, Eq)]
pub struct RunResult {
    /// The scores of all games, without bonus.
    pub total_score: u32,
    /// The bonuses of all games, each at `used_bonus`.
    pub total_bonus: u32,
    /// The weights, one for each category, in thousandths.
    pub weights: [i32; 15],
    /// The number of games.
    pub laps: u32,
    /// The bonus that a game paid in this run.
    pub used_bonus: u32,
    pub generation: u32,
}

/// The weights from which a search starts: one half for every category.
pub open spec fn start_weights() -> Seq<i32> {
    Seq::new(15, |i: int| 500i32)
}

impl RunResult {
    /// The mean score of a game with the bonus as it was paid, in millionths
    /// of a point; 0 where no game was played.
    pub open spec fn spec_avg_score(&self) -> nat {
        spec_mean_micro((self.total_score + self.total_bonus) as nat, self.laps as nat)
    }

    /// The mean score of a game with the game's own bonus in place of the
    /// one that was paid, in millionths of a point.
    pub open spec fn spec_true_avg_score(&self) -> nat {
        if self.laps > 0 && self.used_bonus > 0 {
            spec_mean_micro(
                (self.total_score + self.total_bonus / self.used_bonus * 50) as nat,
                self.laps as nat,
            )
        } else {
            0
        }
    }

    /// The result of no game at all, with the start weights.
    pub fn new() -> (r: RunResult)
        ensures
            r.total_score == 0,
            r.total_bonus == 0,
            r.weights@ == start_weights(),
            r.laps == 0,
            r.used_bonus == 0,
            r.generation == 0,
    {
        let r = RunResult {
            total_score: 0,
            total_bonus: 0,
            weights: [500i32;15],
            laps: 0,
            used_bonus: 0,
            generation: 0,
        };
        assert(r.weights@ =~= start_weights());
        r
    }

    /// The result of a run, not yet of any generation.
    pub fn from(total_score: u32, total_bonus: u32, laps: u32, used_bonus: u32, weights: [i32; 15]) -> (r:
        RunResult)
        ensures
            r == (RunResult {
                total_score,
                total_bonus,
                weights,
                laps,
                used_bonus,
                generation: 0,
            }),
    {
        RunResult { total_score, total_bonus, weights, laps, used_bonus, generation: 0 }
    }

    /// The mean score of a game with the bonus as it was paid, in millionths
    /// of a point.
    pub fn avg_score(&self) -> (avg: u64)
        ensures
            avg == self.spec_avg_score(),
    {
        mean_micro(self.total_score as u64 + self.total_bonus as u64, self.laps as u64)
    }

    /// The mean score with the game's own bonus. A run of some games that
    /// paid no bonus at all has no such mean and is given as 0.
    pub fn true_avg_score(&self) -> (avg: u64)
        ensures
            avg == self.spec_true_avg_score(),
    {
        if self.laps > 0 && self.used_bonus > 0 {
            let bonuses: u64 = (self.total_bonus / self.used_bonus) as u64;
            assert(bonuses * 50 <= 0xFFFF_FFFF * 50) by (nonlinear_arith)
                requires
                    bonuses <= 0xFFFF_FFFF,
            ;
            mean_micro(self.total_score as u64 + bonuses * 50, self.laps as u64)
        } else {
            0
        }
    }
}

/// The category and the score that a key of the game tree stands for.
pub fn key_to_hand_score(key: u16) -> (hand_score: (u16, u16))
    ensures
        hand_score.0 == key / 512,
        hand_score.1 == key % 512,
{
    let score = key & 0b111111111;
    let hand = key >> 9;
    assert(key & 0b111111111 == key % 512 && key >> 9 == key / 512) by (bit_vector);
    (hand, score)
}

/// What a ternary digit does to a weight, in thousandths: nothing, a tenth
/// up, a tenth down.
pub open spec fn tuning_of(digit: nat) -> int {
    if digit == 0 {
        0
    } else if digit == 1 {
        100
    } else {
        -100
    }
}

/// The digit of `n` at place `place` in base 3, counted from the least
/// significant.
pub open spec fn ternary_digit(n: nat, place: nat) -> nat {
    (n / base_pow(3, place)) % 3
}

/// Whether `n` has a digit at place `place` in base 3: it is no less than
/// three to that power.
pub open spec fn has_place(n: nat, place: nat) -> bool {
    n / base_pow(3, place) > 0
}

/// The perturbation that a candidate's number spells: the weight of
/// category `j` moves by what the digit at place `14 - j` says. Where the
/// number has no digit at a place, the entry is what `before` holds at
/// that place.
pub open spec fn spec_tuning(b10: nat, before: Seq<i32>) -> Seq<i32> {
    Seq::new(
        15,
        |j: int|
            if has_place(b10, (14 - j) as nat) {
                tuning_of(ternary_digit(b10, (14 - j) as nat)) as i32
            } else {
                before[14 - j]
            },
    )
}

/// Reads a candidate's number as a perturbation of the fifteen weights.
pub fn base10_to_tuning(b10: u32, into: &mut [i32; 15])
    requires
        b10 < 14348907,
    ensures
        final(into)@ == spec_tuning(b10 as nat, old(into)@),
{
    let before = *into;
    let mut rest: u32 = b10;
    let mut place: usize = 0;
    proof {
        assert(base_pow(3, 0) == 1);
    }
    while place < 15
        invariant
            place <= 15,
            before@ == old(into)@,
            rest == b10 as nat / base_pow(3, place as nat),
            forall|j: int|
                14 - place < j <= 14 ==> #[trigger] into@[j] == spec_tuning(
                    b10 as nat,
                    before@,
                )[j],
        decreases 15 - place,
    {
        proof {
            lemma_ternary_step(b10 as nat, place as nat);
        }
        let r = rest % 3;
        let moved: i32 = if rest == 0 {
            before[place]
        } else if r == 0 {
            0
        } else if r == 1 {
            100
        } else {
            -100
        };
        into[14 - place] = moved;
        rest = rest / 3;
        place += 1;
    }
    assert(into@ =~= spec_tuning(b10 as nat, old(into)@));
}

proof fn lemma_ternary_step(n: nat, place: nat)
    ensures
        n / base_pow(3, place + 1) == (n / base_pow(3, place)) / 3,
        base_pow(3, place + 1) == 3 * base_pow(3, place),
        base_pow(3, place) >= 1,
{
    crate::utils::lemma_base_pow_positive(3, place);
    let p = base_pow(3, place);
    assert(n / (3 * p) == (n / p) / 3) by (nonlinear_arith)
        requires
            p >= 1,
    ;
}

/// A weight rounded to the nearest tenth, halves away from zero.
pub open spec fn round_tenth(w: int) -> int {
    if w >= 0 {
        (w + 50) / 100 * 100
    } else {
        -((50 - w) / 100 * 100)
    }
}

/// Weights are held in thousandths; none is beyond two million.
pub open spec fn weights_bounded(weights: Seq<i32>) -> bool {
    forall|i: int| 0 <= i < weights.len() ==> -2000000000 <= #[trigger] weights[i] <= 2000000000
}

/// The weights can be moved by a tenth either way and stay within that
/// bound.
pub open spec fn weights_tunable(weights: Seq<i32>) -> bool {
    forall|i: int| 0 <= i < weights.len() ==> -1999999900 <= #[trigger] weights[i] <= 1999999900
}

/// Rounds every weight to the nearest tenth.
pub fn trim_weights(weights: [i32; 15]) -> (trimmed: [i32; 15])
    requires
        weights_bounded(weights@),
    ensures
        forall|i: int| 0 <= i < 15 ==> #[trigger] trimmed@[i] == round_tenth(weights@[i] as int),
        weights_bounded(trimmed@),
{
    let mut res: [i32; 15] = [0i32;15];
    let mut i: usize = 0;
    while i < 15
        invariant
            i <= 15,
            weights_bounded(weights@),
            forall|k: int| 0 <= k < i ==> #[trigger] res@[k] == round_tenth(weights@[k] as int),
            forall|k: int| 0 <= k < 15 ==> -2000000000 <= #[trigger] res@[k] <= 2000000000,
        decreases 15 - i,
    {
        let w = weights[i];
        assert(-2000000000 <= weights@[i as int] <= 2000000000);
        let r = if w >= 0 {
            (w + 50) / 100 * 100
        } else {
            -((50 - w) / 100 * 100)
        };
        res[i] = r;
        i += 1;
    }
    res
}

/// What category `pos` is worth for the throw: its score times its weight.
pub open spec fn weighted_score(hands: Seq<Box<Hand>>, weights: Seq<i32>, thrown: Seq<u8>, pos: int) -> int {
    hands[pos].hand_type().spec_score(thrown) * weights[pos]
}

/// Category `hand` is the open category with the highest weighted score
/// for the throw, and `score` is what the throw scores there: the mask
/// holds `hand`, no open category has a higher weighted score, and none
/// before `hand` on the score card has one as high.
pub open spec fn is_weighted_choice(
    hands: Seq<Box<Hand>>,
    weights: Seq<i32>,
    thrown: Seq<u8>,
    available_hands: u16,
    hand: u8,
    score: u16,
) -> bool {
    &&& hand < 15
    &&& has_bit(available_hands, hand as u16)
    &&& score == hands[hand as int].hand_type().spec_score(thrown)
    &&& score <= 50
    &&& forall|pos: u16|
        pos < 15 && #[trigger] has_bit(available_hands, pos) ==> {
            &&& weighted_score(hands, weights, thrown, pos as int) <= weighted_score(
                hands,
                weights,
                thrown,
                hand as int,
            )
            &&& pos < hand ==> weighted_score(hands, weights, thrown, pos as int) < weighted_score(
                hands,
                weights,
                thrown,
                hand as int,
            )
        }
}

/// The open category with the highest weighted score for the throw, and
/// what the throw scores there: of the categories that the mask holds, the
/// first in score-card order whose weighted score no other exceeds.
pub fn best_available_game_hand(
    thrown: &Vec<u8>,
    available_hands: u16,
    hands: &Vec<Box<Hand>>,
    weights: &[i32; 15],
) -> (best: Result<(u8, u16), LookupError>)
    requires
        valid_dice(thrown@),
        available_hands <= 32767,
        hands@.len() >= 15,
    ensures
        match best {
            Ok((hand, score)) => is_weighted_choice(
                hands@,
                weights@,
                thrown@,
                available_hands,
                hand,
                score,
            ),
            Err(e) => e == LookupError::NoBestHand && available_hands == 0,
        },
{
    let members = base10_to_base2(available_hands, false);
    proof {
        lemma_members_below(available_hands, 16, 0);
        lemma_no_high_bit(available_hands);
    }
    let mut best_hand_score: Option<(u8, u16)> = None;
    let mut max_weighted_score: i64 = i64::MIN;
    let mut i: usize = 0;
    while i < members.len()
        invariant
            i <= members.len(),
            valid_dice(thrown@),
            hands@.len() >= 15,
            forall|k: int|
                0 <= k < members.len() ==> (#[trigger] members[k]) < 15 && has_bit(
                    available_hands,
                    members[k] as u16,
                ),
            forall|a: int, b: int| 0 <= a < b < members.len() ==> members[a] < members[b],
            forall|k: int|
                0 <= k < i ==> weighted_score(hands@, weights@, thrown@, (#[trigger] members[k]) as int)
                    <= max_weighted_score,
            i > 0 ==> best_hand_score is Some,
            match best_hand_score {
                Some((hand, score)) => {
                    &&& exists|k: int| 0 <= k < i && members[k] == hand
                    &&& hand < 15
                    &&& score == hands@[hand as int].hand_type().spec_score(thrown@)
                    &&& score <= 50
                    &&& max_weighted_score == weighted_score(hands@, weights@, thrown@, hand as int)
                    &&& forall|k: int|
                        0 <= k < i && (#[trigger] members[k]) < hand ==> weighted_score(
                            hands@,
                            weights@,
                            thrown@,
                            members[k] as int,
                        ) < max_weighted_score
                },
                None => i == 0 && max_weighted_score == i64::MIN,
            },
        decreases members.len() - i,
    {
        let hand = members[i];
        let score = hands[hand as usize].score(thrown);
        let w = weights[hand as usize];
        assert(score as i64 * w as i64 == weighted_score(hands@, weights@, thrown@, hand as int)
            && -0x100_0000_0000 <= score as i64 * w as i64 <= 0x100_0000_0000) by (nonlinear_arith)
            requires
                score == hands@[hand as int].hand_type().spec_score(thrown@),
                w == weights@[hand as int],
                0 <= score <= 255,
                -0x8000_0000 <= w <= 0x7FFF_FFFF,
                weighted_score(hands@, weights@, thrown@, hand as int)
                    == hands@[hand as int].hand_type().spec_score(thrown@) * weights@[hand as int],
        ;
        let weighted: i64 = score as i64 * w as i64;
        if weighted > max_weighted_score {
            proof {
                assert forall|k: int| 0 <= k < i + 1 && (#[trigger] members[k])
                    < hand implies weighted_score(hands@, weights@, thrown@, members[k] as int)
                    < weighted by {
                    assert(k < i);
                }
            }
            max_weighted_score = weighted;
            best_hand_score = Some((hand, score as u16));
        } else {
            proof {
                if let Some((b, _)) = best_hand_score {
                    let kb = choose|k: int| 0 <= k < i && members[k] == b;
                    assert(members[kb] < members[i as int]);
                }
            }
        }
        i += 1;
    }
    proof {
        assert forall|pos: u16| pos < 15 && #[trigger] has_bit(available_hands, pos) implies exists|
            k: int,
        |
            0 <= k < members.len() && members[k] == pos by {
            assert(members@.contains((pos + 0u8) as u8));
        }
    }
    match best_hand_score {
        Some((hand, score)) => {
            proof {
                assert forall|pos: u16| pos < 15 && #[trigger] has_bit(available_hands, pos) implies {
                    &&& weighted_score(hands@, weights@, thrown@, pos as int) <= weighted_score(
                        hands@,
                        weights@,
                        thrown@,
                        hand as int,
                    )
                    &&& pos < hand ==> weighted_score(hands@, weights@, thrown@, pos as int)
                        < weighted_score(hands@, weights@, thrown@, hand as int)
                } by {
                    let k = choose|k: int| 0 <= k < members.len() && members[k] == pos;
                    assert(members[k] == pos);
                }
            }
            Ok((hand, score))
        },
        None => {
            proof {
                lemma_empty_mask(available_hands);
            }
            Err(LookupError::NoBestHand)
        },
    }
}

/// A mask of the fifteen categories has no bit above them.
pub proof fn lemma_no_high_bit(mask: u16)
    requires
        mask <= 32767,
    ensures
        !has_bit(mask, 15),
{
    assert((mask >> 15u16) & 1 != 1) by (bit_vector)
        requires
            mask <= 32767,
    ;
}

/// A mask that holds something is not zero, and the other way round.
pub proof fn lemma_empty_mask(mask: u16)
    ensures
        mask == 0 <==> forall|pos: u16| pos < 16 ==> !#[trigger] has_bit(mask, pos),
{
    if mask == 0 {
        lemma_fresh_mask();
    } else {
        assert((mask >> 0u16) & 1 == 1 || (mask >> 1u16) & 1 == 1 || (mask >> 2u16) & 1 == 1 || (mask
            >> 3u16) & 1 == 1 || (mask >> 4u16) & 1 == 1 || (mask >> 5u16) & 1 == 1 || (mask
            >> 6u16) & 1 == 1 || (mask >> 7u16) & 1 == 1 || (mask >> 8u16) & 1 == 1 || (mask
            >> 9u16) & 1 == 1 || (mask >> 10u16) & 1 == 1 || (mask >> 11u16) & 1 == 1 || (mask
            >> 12u16) & 1 == 1 || (mask >> 13u16) & 1 == 1 || (mask >> 14u16) & 1 == 1 || (mask
            >> 15u16) & 1 == 1) by (bit_vector)
            requires
                mask != 0,
        ;
        assert(has_bit(mask, 0) || has_bit(mask, 1) || has_bit(mask, 2) || has_bit(mask, 3)
            || has_bit(mask, 4) || has_bit(mask, 5) || has_bit(mask, 6) || has_bit(mask, 7)
            || has_bit(mask, 8) || has_bit(mask, 9) || has_bit(mask, 10) || has_bit(mask, 11)
            || has_bit(mask, 12) || has_bit(mask, 13) || has_bit(mask, 14) || has_bit(mask, 15));
    }
}

/// One scoring of a game: the dice that were thrown, the mask of that
/// moment, the category that was scored and what it brought.
pub struct Scoring {
    pub thrown: Seq<u8>,
    pub available_hands: u16,
    pub hand: u8,
    pub score: u16,
}

/// The dice are a throw that the learned holds guided, and the category is
/// the one that the weights choose for them.
pub open spec fn is_scoring(hands: Seq<Box<Hand>>, weights: Seq<i32>, s: Scoring) -> bool {
    &&& is_thrown(hands, s.available_hands, s.thrown)
    &&& is_weighted_choice(hands, weights, s.thrown, s.available_hands, s.hand, s.score)
}

/// A game by the weights: fifteen scorings, the first on a fresh card, each
/// further one on the card without the category scored before.
#[verifier::opaque]
pub open spec fn is_game(hands: Seq<Box<Hand>>, weights: Seq<i32>, game: Seq<Scoring>) -> bool {
    &&& game.len() == 15
    &&& game[0].available_hands == 32767
    &&& forall|k: int| 0 <= k < 15 ==> is_scoring(hands, weights, #[trigger] game[k])
    &&& forall|k: int|
        0 <= k < 14 ==> is_cleared(
            (#[trigger] game[k]).available_hands,
            game[k + 1].available_hands,
            game[k].hand as u16,
        )
}

/// The sum of the scores of the first `n` scorings; with `upper`, of those
/// among them that score a face-count category.
pub open spec fn game_sum(game: Seq<Scoring>, n: nat, upper: bool) -> nat
    decreases n,
{
    if n == 0 || n > game.len() {
        0
    } else {
        game_sum(game, (n - 1) as nat, upper) + if !upper || game[n - 1].hand < 6 {
            game[n - 1].score as nat
        } else {
            0
        }
    }
}

/// The scores of the first `n` games, without bonus.
pub open spec fn games_score(games: Seq<Seq<Scoring>>, n: nat) -> nat
    decreases n,
{
    if n == 0 || n > games.len() {
        0
    } else {
        games_score(games, (n - 1) as nat) + game_sum(games[n - 1], 15, false)
    }
}

/// The number of games among the first `n` whose face-count categories
/// reach 63.
pub open spec fn games_paid(games: Seq<Seq<Scoring>>, n: nat) -> nat
    decreases n,
{
    if n == 0 || n > games.len() {
        0
    } else {
        games_paid(games, (n - 1) as nat) + if game_sum(games[n - 1], 15, true) >= 63 {
            1nat
        } else {
            0nat
        }
    }
}

proof fn lemma_game_sum_same(one: Seq<Scoring>, other: Seq<Scoring>, n: nat, upper: bool)
    requires
        n <= one.len(),
        n <= other.len(),
        forall|i: int| 0 <= i < n ==> one[i] == other[i],
    ensures
        game_sum(one, n, upper) == game_sum(other, n, upper),
    decreases n,
{
    if n > 0 {
        lemma_game_sum_same(one, other, (n - 1) as nat, upper);
    }
}

proof fn lemma_games_same(one: Seq<Seq<Scoring>>, other: Seq<Seq<Scoring>>, n: nat)
    requires
        n <= one.len(),
        n <= other.len(),
        forall|i: int| 0 <= i < n ==> one[i] == other[i],
    ensures
        games_score(one, n) == games_score(other, n),
        games_paid(one, n) == games_paid(other, n),
    decreases n,
{
    if n > 0 {
        lemma_games_same(one, other, (n - 1) as nat);
    }
}

/// What a run of `laps` games hands back, whatever the dice showed: the
/// sums of `laps` games by the weights, each paid `bonus` where its
/// face-count categories reach 63.
pub open spec fn is_run_result(
    r: RunResult,
    laps: u32,
    hands: Seq<Box<Hand>>,
    weights: Seq<i32>,
    bonus: u32,
) -> bool {
    &&& r.laps == laps
    &&& r.weights@ == weights
    &&& r.used_bonus == bonus
    &&& r.generation == 0
    &&& r.total_score <= 750 * laps
    &&& sums_games(r, laps, hands, weights, bonus)
}

/// The result's sums are those of `laps` games by the weights.
#[verifier::opaque]
pub open spec fn sums_games(
    r: RunResult,
    laps: u32,
    hands: Seq<Box<Hand>>,
    weights: Seq<i32>,
    bonus: u32,
) -> bool {
    exists|games: Seq<Seq<Scoring>>|
        {
            &&& games.len() == laps
            &&& forall|i: int| 0 <= i < laps ==> is_game(hands, weights, #[trigger] games[i])
            &&& r.total_score == games_score(games, laps as nat)
            &&& r.total_bonus == #[trigger] games_paid(games, laps as nat) * bonus
        }
}

/// Plays one game by the weights: each of the fifteen categories is scored
/// once, each time the open category with the highest weighted score for
/// the dice that `throw_hand` leaves. Returns the game's score without
/// bonus and the part of it that the face-count categories brought. It
/// fails only where the tables give no hold for a throw that came.
pub fn play_game(dices: &mut Dices, hands: &Vec<Box<Hand>>, weights: &[i32; 15]) -> (played:
    Result<(u32, u32), LookupError>)
    requires
        hands@.len() >= 15,
    ensures
        match played {
            Ok((score, upper)) => score <= 750 && exists|game: Seq<Scoring>| #[trigger]
                is_game(hands@, weights@, game) && score == game_sum(game, 15, false) && upper
                    == game_sum(game, 15, true),
            Err(e) => e != LookupError::IllegalThrow && game_fails(hands@, e),
        },
        games_complete(hands@) ==> played is Ok,
{
    let mut available_hands: u16 = 32767;
    let mut game_score: u32 = 0;
    let mut upper: u32 = 0;
    let ghost mut game: Seq<Scoring> = Seq::empty();
    proof {
        lemma_fresh_mask();
    }
    while available_hands > 0
        invariant
            hands@.len() >= 15,
            available_hands <= 32767,
            popcount(available_hands) + game.len() == 15,
            game_score == game_sum(game, game.len(), false),
            upper == game_sum(game, game.len(), true),
            game_score <= 50 * game.len(),
            upper <= game_score,
            forall|k: int| 0 <= k < game.len() ==> is_scoring(hands@, weights@, #[trigger] game[k]),
            forall|k: int|
                0 <= k < game.len() - 1 ==> is_cleared(
                    (#[trigger] game[k]).available_hands,
                    game[k + 1].available_hands,
                    game[k].hand as u16,
                ),
            game.len() == 0 ==> available_hands == 32767,
            game.len() > 0 ==> game[0].available_hands == 32767 && is_cleared(
                game.last().available_hands,
                available_hands,
                game.last().hand as u16,
            ),
        decreases available_hands,
    {
        proof {
            assert forall|pos: u16| pos < 16 && has_bit(available_hands, pos) implies pos
                < hands.len() by {
                lemma_no_high_bit(available_hands);
            }
        }
        let thrown = match throw_hand(dices, available_hands, hands) {
            Err(e) => {
                return Err(e);
            },
            Ok(t) => t,
        };
        let (hand, score) = match best_available_game_hand(&thrown, available_hands, hands, weights) {
            Err(e) => {
                return Err(e);
            },
            Ok(hs) => hs,
        };
        proof {
            let s = Scoring { thrown: thrown@, available_hands, hand, score };
            let longer = game.push(s);
            assert(is_scoring(hands@, weights@, s));
            lemma_game_sum_same(game, longer, game.len(), false);
            lemma_game_sum_same(game, longer, game.len(), true);
            assert forall|k: int| 0 <= k < longer.len() implies is_scoring(
                hands@,
                weights@,
                #[trigger] longer[k],
            ) by {
                if k < game.len() {
                    assert(longer[k] == game[k]);
                }
            }
            assert forall|k: int| 0 <= k < longer.len() - 1 implies is_cleared(
                (#[trigger] longer[k]).available_hands,
                longer[k + 1].available_hands,
                longer[k].hand as u16,
            ) by {
                assert(longer[k] == game[k]);
                if k < game.len() - 1 {
                    assert(longer[k + 1] == game[k + 1]);
                }
            }
            game = longer;
        }
        game_score = game_score + score as u32;
        if hand < 6 {
            upper = upper + score as u32;
        }
        available_hands = clear_hand(available_hands, hand);
    }
    proof {
        lemma_fresh_mask();
        assert(game.len() == 15);
        reveal(is_game);
        assert(is_game(hands@, weights@, game));
    }
    Ok((game_score, upper))
}

/// Plays `laps` games by the weights and adds up what they bring. A game
/// whose six face-count categories reach 63 is paid `bonus`. The run fails
/// only where the tables give no hold for a throw that came; with tables
/// that give one for every throw, and with no game to play, it succeeds.
pub fn run(laps: u32, dices: &mut Dices, hands: &Vec<Box<Hand>>, weights: [i32; 15], bonus: u32) -> (result:
    Result<RunResult, LookupError>)
    requires
        hands@.len() >= 15,
        laps * 750 <= u32::MAX,
        laps * bonus <= u32::MAX,
    ensures
        match result {
            Ok(r) => is_run_result(r, laps, hands@, weights@, bonus),
            Err(e) => e != LookupError::IllegalThrow && game_fails(hands@, e) && laps > 0,
        },
        games_complete(hands@) ==> result is Ok,
{
    let mut total_score: u32 = 0;
    let mut total_bonus: u32 = 0;
    let mut lap: u32 = 0;
    let ghost mut games: Seq<Seq<Scoring>> = Seq::empty();
    assert(0 * bonus == 0) by (nonlinear_arith);
    while lap < laps
        invariant
            lap <= laps,
            hands@.len() >= 15,
            laps * 750 <= u32::MAX,
            laps * bonus <= u32::MAX,
            games.len() == lap,
            forall|i: int| 0 <= i < lap ==> is_game(hands@, weights@, #[trigger] games[i]),
            total_score == games_score(games, lap as nat),
            total_bonus == games_paid(games, lap as nat) * bonus,
            total_score <= 750 * lap,
            games_paid(games, lap as nat) <= lap,
        decreases laps - lap,
    {
        let (game_score, upper) = match play_game(dices, hands, &weights) {
            Err(e) => {
                return Err(e);
            },
            Ok(su) => su,
        };
        proof {
            let game = choose|game: Seq<Scoring>| #[trigger]
                is_game(hands@, weights@, game) && game_score == game_sum(game, 15, false)
                    && upper == game_sum(game, 15, true);
            let longer = games.push(game);
            lemma_games_same(games, longer, lap as nat);
            assert forall|i: int| 0 <= i < lap + 1 implies is_game(
                hands@,
                weights@,
                #[trigger] longer[i],
            ) by {
                if i < lap {
                    assert(longer[i] == games[i]);
                }
            }
            let paid = games_paid(games, lap as nat);
            assert((paid + 1) * bonus == paid * bonus + bonus && (paid + 1) * bonus <= laps
                * bonus) by (nonlinear_arith)
                requires
                    paid + 1 <= laps,
            ;
            games = longer;
        }
        let game_bonus: u32 = if upper >= 63 {
            bonus
        } else {
            0
        };
        total_score = total_score + game_score;
        total_bonus = total_bonus + game_bonus;
        lap += 1;
    }
    let r = RunResult::from(total_score, total_bonus, laps, bonus, weights);
    proof {
        reveal(sums_games);
        assert(r.total_bonus == games_paid(games, laps as nat) * bonus);
    }
    Ok(r)
}

/// The weights of candidate `f`: the base weights moved by the
/// perturbation that `f` spells.
pub open spec fn tuned_weights(weights: Seq<i32>, f: nat) -> Seq<i32> {
    Seq::new(
        15,
        |i: int| (weights[i] + spec_tuning(f, Seq::new(15, |k: int| 0i32))[i]) as i32,
    )
}

/// `kept` are the weights that a scan keeps after the trials: those of the
/// first candidate whose trial has the highest mean score, or the start
/// weights where no trial scored at all.
pub open spec fn is_kept(trials: Seq<RunResult>, weights: Seq<i32>, start: nat, kept: Seq<i32>) -> bool {
    ||| {
        &&& kept == start_weights()
        &&& forall|j: int| 0 <= j < trials.len() ==> (#[trigger] trials[j]).spec_avg_score() == 0
    }
    ||| exists|best: int|
        {
            &&& 0 <= best < trials.len()
            &&& kept == #[trigger] tuned_weights(weights, (start + best) as nat)
            &&& trials[best].spec_avg_score() > 0
            &&& forall|j: int|
                0 <= j < trials.len() ==> (#[trigger] trials[j]).spec_avg_score()
                    <= trials[best].spec_avg_score()
            &&& forall|j: int|
                0 <= j < best ==> (#[trigger] trials[j]).spec_avg_score()
                    < trials[best].spec_avg_score()
        }
}

/// What the scan of a batch hands back, whatever the dice showed: there is
/// a trial of `sub_laps` games for each candidate from `start` up to
/// `end`; the weights that are kept after the trials were played again
/// over `tuning_laps` games, and `r` is the result of that.
pub open spec fn is_batch_winner(
    r: RunResult,
    start: nat,
    end: nat,
    hands: Seq<Box<Hand>>,
    weights: Seq<i32>,
    bonus: u32,
    sub_laps: u32,
    tuning_laps: u32,
) -> bool {
    exists|trials: Seq<RunResult>|
        {
            &&& trials.len() == end - start
            &&& forall|j: int|
                0 <= j < trials.len() ==> is_run_result(
                    #[trigger] trials[j],
                    sub_laps,
                    hands,
                    tuned_weights(weights, (start + j) as nat),
                    bonus,
                )
            &&& #[trigger] is_kept(trials, weights, start, r.weights@)
            &&& is_run_result(r, tuning_laps, hands, r.weights@, bonus)
        }
}

/// Scans batch `factor` of a generation: plays `sub_laps` games with each
/// of the `batch` candidates from `factor * batch` on, keeps the one with
/// the highest mean score, and plays that one again over `tuning_laps`
/// games, so that a lucky candidate is not taken at its word. The scan
/// fails only where a game was to be played and the tables gave no hold for
/// a throw that came.
pub fn super_run(
    hands: &Vec<Box<Hand>>,
    dices: &mut Dices,
    sub_laps: u32,
    tuning_laps: u32,
    factor: u32,
    batch: u32,
    weights: [i32; 15],
    bonus: u32,
) -> (result: Result<RunResult, LookupError>)
    requires
        hands@.len() >= 15,
        factor * batch + batch <= 14348907,
        sub_laps * 750 <= u32::MAX,
        sub_laps * bonus <= u32::MAX,
        tuning_laps * 750 <= u32::MAX,
        tuning_laps * bonus <= u32::MAX,
        weights_tunable(weights@),
    ensures
        match result {
            Ok(r) => is_batch_winner(
                r,
                (factor * batch) as nat,
                (factor * batch + batch) as nat,
                hands@,
                weights@,
                bonus,
                sub_laps,
                tuning_laps,
            ),
            Err(e) => {
                &&& e != LookupError::IllegalThrow
                &&& game_fails(hands@, e)
                &&& batch > 0 && sub_laps > 0 || tuning_laps > 0
            },
        },
        games_complete(hands@) ==> result is Ok,
{
    let mut best_results = RunResult::new();
    assert(factor * batch <= 14348907 && factor * batch >= 0) by (nonlinear_arith)
        requires
            factor * batch + batch <= 14348907,
            batch >= 0,
            factor >= 0,
    ;
    let start: u32 = factor * batch;
    let end: u32 = start + batch;
    let mut f: u32 = start;
    let ghost mut trials: Seq<RunResult> = Seq::empty();
    let ghost mut best_at: Option<int> = None;
    while f < end
        invariant
            start <= f <= end <= 14348907,
            end - start == batch,
            hands@.len() >= 15,
            sub_laps * 750 <= u32::MAX,
            sub_laps * bonus <= u32::MAX,
            weights_tunable(weights@),
            trials.len() == f - start,
            forall|j: int|
                0 <= j < trials.len() ==> is_run_result(
                    #[trigger] trials[j],
                    sub_laps,
                    hands@,
                    tuned_weights(weights@, (start + j) as nat),
                    bonus,
                ),
            forall|j: int|
                0 <= j < trials.len() ==> (#[trigger] trials[j]).spec_avg_score()
                    <= best_results.spec_avg_score(),
            match best_at {
                None => best_results.weights@ == start_weights() && best_results.spec_avg_score()
                    == 0,
                Some(best) => {
                    &&& 0 <= best < trials.len()
                    &&& trials[best] == best_results
                    &&& best_results.spec_avg_score() > 0
                    &&& forall|j: int|
                        0 <= j < best ==> (#[trigger] trials[j]).spec_avg_score()
                            < best_results.spec_avg_score()
                },
            },
        decreases end - f,
    {
        let mut tuning: [i32; 15] = [0i32;15];
        assert(tuning@ =~= Seq::new(15, |k: int| 0i32));
        base10_to_tuning(f, &mut tuning);
        let mut tuned_weights_now: [i32; 15] = [0i32;15];
        let mut i: usize = 0;
        while i < 15
            invariant
                i <= 15,
                weights_tunable(weights@),
                tuning@ == spec_tuning(f as nat, Seq::new(15, |k: int| 0i32)),
                forall|k: int|
                    0 <= k < i ==> #[trigger] tuned_weights_now@[k] == tuned_weights(
                        weights@,
                        f as nat,
                    )[k],
            decreases 15 - i,
        {
            assert(-1999999900 <= weights@[i as int] <= 1999999900);
            assert(-100 <= tuning@[i as int] <= 100);
            tuned_weights_now[i] = tuning[i] + weights[i];
            i += 1;
        }
        assert(tuned_weights_now@ =~= tuned_weights(weights@, f as nat));
        match run(sub_laps, dices, hands, tuned_weights_now, bonus) {
            Ok(rr) => {
                let ghost before = trials;
                let ghost old_best = best_results;
                proof {
                    trials = trials.push(rr);
                    assert forall|j: int| 0 <= j < trials.len() implies is_run_result(
                        #[trigger] trials[j],
                        sub_laps,
                        hands@,
                        tuned_weights(weights@, (start + j) as nat),
                        bonus,
                    ) by {
                        if j < before.len() {
                            assert(trials[j] == before[j]);
                        }
                    }
                    assert forall|j: int| 0 <= j < before.len() implies (
                    #[trigger] trials[j]).spec_avg_score() <= old_best.spec_avg_score() by {
                        assert(trials[j] == before[j]);
                    }
                }
                if rr.avg_score() > best_results.avg_score() {
                    best_results = rr;
                    proof {
                        assert forall|j: int| 0 <= j < before.len() implies (
                        #[trigger] trials[j]).spec_avg_score() < rr.spec_avg_score() by {
                            assert(trials[j].spec_avg_score() <= old_best.spec_avg_score());
                        }
                        best_at = Some(before.len() as int);
                    }
                } else {
                    proof {
                        if let Some(best) = best_at {
                            assert(trials[best] == before[best]);
                            assert forall|j: int| 0 <= j < best implies (
                            #[trigger] trials[j]).spec_avg_score() < old_best.spec_avg_score() by {
                                assert(trials[j] == before[j]);
                            }
                        }
                    }
                }
            },
            Err(e) => {
                return Err(e);
            },
        }
        f += 1;
    }
    let kept = best_results.weights;
    proof {
        match best_at {
            None => {
                assert forall|j: int| 0 <= j < trials.len() implies (
                #[trigger] trials[j]).spec_avg_score() == 0 by {}
            },
            Some(best) => {
                assert(kept@ == tuned_weights(weights@, (start + best) as nat));
            },
        }
        assert(is_kept(trials, weights@, start as nat, kept@));
    }
    match run(tuning_laps, dices, hands, kept, bonus) {
        Ok(rr) => {
            proof {
                assert(rr.weights@ == kept@);
                assert(is_batch_winner(
                    rr,
                    start as nat,
                    end as nat,
                    hands@,
                    weights@,
                    bonus,
                    sub_laps,
                    tuning_laps,
                ));
            }
            Ok(rr)
        },
        Err(e) => Err(e),
    }
}

/// Why a generation cannot be split into batches.
#[derive(Clone, Copy, Debug, PartialEq, Eq, Structural)]
pub enum SearchError {
    /// The search space has no divisor that gives every worker a batch.
    NoFactors,
}

/// Whether `d` is a number of batches for `workers` workers: a divisor of
/// the search space that is no less than the number of workers.
pub open spec fn is_batch_count(d: u32, workers: u32) -> bool {
    1 <= d <= 14348907 && 14348907int % d as int == 0 && d >= workers
}

/// `batches` batches of `batch` candidates each are the plan for `workers`
/// workers: the number of batches is the smallest divisor of the search
/// space that is no less than the number of workers.
pub open spec fn is_batch_plan(batches: u32, batch: u32, workers: u32) -> bool {
    &&& is_batch_count(batches, workers)
    &&& batches * batch == 14348907
    &&& forall|d: u32| is_batch_count(d, workers) ==> batches <= d
}

/// Splits a generation's candidates into batches for `workers` workers:
/// the number of batches is the smallest divisor of the search space that
/// is no less than `workers`, and each batch has the same number of
/// candidates. Returns the number of batches and the size of a batch. For
/// more workers than candidates there is no such divisor, and that is the
/// error.
pub fn batch_plan(workers: u32) -> (plan: Result<(u32, u32), SearchError>)
    ensures
        match plan {
            Ok((batches, batch)) => is_batch_plan(batches, batch, workers),
            Err(e) => forall|d: u32| !is_batch_count(d, workers),
        },
{
    let mut twos: Vec<u8> = Vec::new();
    let mut k: usize = 0;
    while k < 15
        invariant
            k <= 15,
            twos@.len() == k,
            forall|i: int| 0 <= i < k ==> #[trigger] twos@[i] == 2,
        decreases 15 - k,
    {
        twos.push(2);
        k += 1;
    }
    proof {
        lemma_all_twos(twos@);
    }
    let base = base3_to_base10(&twos) + 1;
    if workers <= 1 {
        return Ok((1, base));
    }
    let divisors = factor(base);
    let mut i: usize = 0;
    while i < divisors.len()
        invariant
            i <= divisors.len(),
            base == 14348907,
            workers > 1,
            forall|a: int, b: int| 0 <= a < b < divisors.len() ==> divisors[a] < divisors[b],
            forall|d: u32| divisors@.contains(d) <==> 2 <= d < base && base as int % d as int == 0,
            forall|j: int| 0 <= j < i ==> (#[trigger] divisors[j]) < workers,
        decreases divisors.len() - i,
    {
        let d = divisors[i];
        if d >= workers {
            assert(divisors@.contains(d));
            let batch = base / d;
            assert(d * batch == 14348907) by (nonlinear_arith)
                requires
                    batch == 14348907int / d as int,
                    14348907int % d as int == 0,
                    d > 0,
            ;
            proof {
                assert forall|other: u32| is_batch_count(other, workers) implies d <= other by {
                    if other < base {
                        assert(divisors@.contains(other));
                        let j = choose|j: int| 0 <= j < divisors.len() && divisors[j] == other;
                        if j < i {
                            assert(divisors[j] < workers);
                        }
                    }
                }
            }
            return Ok((d, batch));
        }
        i += 1;
    }
    proof {
        assert forall|d: u32| is_batch_count(d, workers) implies d == base by {
            if d < base {
                assert(divisors@.contains(d));
                let j = choose|j: int| 0 <= j < divisors.len() && divisors[j] == d;
                assert(divisors[j] < workers);
            }
        }
    }
    if workers <= base {
        return Ok((base, 1));
    }
    Err(SearchError::NoFactors)
}

/// Fifteen digits 2 spell the largest candidate number.
proof fn lemma_all_twos(twos: Seq<u8>)
    requires
        twos.len() == 15,
        forall|i: int| 0 <= i < 15 ==> #[trigger] twos[i] == 2,
    ensures
        crate::utils::digits_below(twos, 3),
        crate::utils::digits_value(twos, 3) == 14348906,
{
    lemma_twos_value(twos, 15);
    assert(twos.take(15) =~= twos);
    reveal_with_fuel(base_pow, 16);
}

proof fn lemma_twos_value(twos: Seq<u8>, n: nat)
    requires
        n <= twos.len(),
        forall|i: int| 0 <= i < twos.len() ==> #[trigger] twos[i] == 2,
    ensures
        crate::utils::digits_value(twos.take(n as int), 3) + 1 == base_pow(3, n),
    decreases n,
{
    if n > 0 {
        lemma_twos_value(twos, (n - 1) as nat);
        assert(twos.take(n as int).drop_last() =~= twos.take(n - 1));
        assert(twos.take(n as int).last() == 2);
    } else {
        assert(twos.take(0) =~= Seq::<u8>::empty());
    }
}

/// One record of the weight population's file: a run's sums, and the four
/// bytes of each of the fifteen weights as the file holds them.
#[derive(Clone, Copy, Debug, PartialEq, Eq)]
pub struct WeightRecord {
    pub total_score: u32,
    pub total_bonus: u32,
    pub laps: u32,
    pub used_bonus: u32,
    pub generation: u32,
    pub weight_bits: [u32; 15],
}

/// The bytes of the first `n` words, four for each, one word after the
/// other.
pub open spec fn words_bytes(words: Seq<u32>, n: nat) -> Seq<u8>
    decreases n,
{
    if n == 0 || n > words.len() {
        Seq::empty()
    } else {
        words_bytes(words, (n - 1) as nat) + le_bytes(words[n - 1] as nat, 4)
    }
}

/// The array whose first `n` entries are those of `words`, and whose other
/// entries are 0.
pub open spec fn words_array(words: Seq<u32>, n: nat) -> [u32; 15]
    decreases n,
{
    if n == 0 || n > 15 || n > words.len() {
        vstd::array::spec_array_fill_for_copy_type(0u32)
    } else {
        vstd::array::spec_array_update(words_array(words, (n - 1) as nat), n - 1, words[n - 1])
    }
}

/// The fifteen words that lie in `bytes` from byte 20 on.
pub open spec fn words_in(bytes: Seq<u8>) -> Seq<u32> {
    Seq::new(15, |i: int| le_value(bytes.subrange(20 + 4 * i, 24 + 4 * i)) as u32)
}

proof fn lemma_words_array(words: Seq<u32>, n: nat)
    requires
        n <= 15,
        n <= words.len(),
    ensures
        forall|i: int| 0 <= i < n ==> #[trigger] words_array(words, n)@[i] == words[i],
    decreases n,
{
    broadcast use vstd::array::group_array_axioms;

    if n > 0 {
        lemma_words_array(words, (n - 1) as nat);
        let before = words_array(words, (n - 1) as nat);
        let after = words_array(words, n);
        assert(after@ == before@.update(n - 1, words[n - 1]));
    }
}

proof fn lemma_words_bytes(words: Seq<u32>, n: nat)
    requires
        n <= words.len(),
    ensures
        words_bytes(words, n).len() == 4 * n,
        forall|i: int|
            0 <= i < n ==> #[trigger] words_bytes(words, n).subrange(4 * i, 4 * i + 4) == le_bytes(
                words[i] as nat,
                4,
            ),
    decreases n,
{
    if n > 0 {
        lemma_words_bytes(words, (n - 1) as nat);
        lemma_le_bytes_len(words[n - 1] as nat, 4);
        let front = words_bytes(words, (n - 1) as nat);
        let all = words_bytes(words, n);
        assert forall|i: int| 0 <= i < n implies #[trigger] all.subrange(4 * i, 4 * i + 4)
            == le_bytes(words[i] as nat, 4) by {
            if i < n - 1 {
                assert(all.subrange(4 * i, 4 * i + 4) =~= front.subrange(4 * i, 4 * i + 4));
            } else {
                assert(all.subrange(4 * i, 4 * i + 4) =~= le_bytes(words[i] as nat, 4));
            }
        }
    }
}

impl WeightRecord {
    /// The twenty bytes of the five sums.
    pub open spec fn head_bytes(&self) -> Seq<u8> {
        le_bytes(self.total_score as nat, 4) + le_bytes(self.total_bonus as nat, 4) + le_bytes(
            self.laps as nat,
            4,
        ) + le_bytes(self.used_bonus as nat, 4) + le_bytes(self.generation as nat, 4)
    }
}

impl Record for WeightRecord {
    open spec fn width() -> nat {
        80
    }

    open spec fn to_bytes(&self) -> Seq<u8> {
        self.head_bytes() + words_bytes(self.weight_bits@, 15)
    }

    open spec fn from_bytes(bytes: Seq<u8>) -> Self {
        WeightRecord {
            total_score: le_value(bytes.subrange(0, 4)) as u32,
            total_bonus: le_value(bytes.subrange(4, 8)) as u32,
            laps: le_value(bytes.subrange(8, 12)) as u32,
            used_bonus: le_value(bytes.subrange(12, 16)) as u32,
            generation: le_value(bytes.subrange(16, 20)) as u32,
            weight_bits: words_array(words_in(bytes), 15),
        }
    }

    proof fn lemma_round_trip(&self) {
        broadcast use vstd::array::group_array_axioms;

        lemma_byte_powers();
        lemma_le_round_trip(self.total_score as nat, 4);
        lemma_le_round_trip(self.total_bonus as nat, 4);
        lemma_le_round_trip(self.laps as nat, 4);
        lemma_le_round_trip(self.used_bonus as nat, 4);
        lemma_le_round_trip(self.generation as nat, 4);
        lemma_words_bytes(self.weight_bits@, 15);
        let head = self.head_bytes();
        let tail = words_bytes(self.weight_bits@, 15);
        let all = self.to_bytes();
        assert(head.len() == 20);
        assert(all.subrange(0, 4) =~= le_bytes(self.total_score as nat, 4));
        assert(all.subrange(4, 8) =~= le_bytes(self.total_bonus as nat, 4));
        assert(all.subrange(8, 12) =~= le_bytes(self.laps as nat, 4));
        assert(all.subrange(12, 16) =~= le_bytes(self.used_bonus as nat, 4));
        assert(all.subrange(16, 20) =~= le_bytes(self.generation as nat, 4));
        let words = words_in(all);
        assert forall|i: int| 0 <= i < 15 implies words[i] == self.weight_bits@[i] by {
            assert(all.subrange(20 + 4 * i, 24 + 4 * i) =~= tail.subrange(4 * i, 4 * i + 4));
            lemma_le_round_trip(self.weight_bits@[i] as nat, 4);
        }
        lemma_words_array(words, 15);
        let back = words_array(words, 15);
        assert(back@ =~= self.weight_bits@);
        assert(back == self.weight_bits);
    }

    fn stride() -> (w: usize) {
        80
    }

    fn write(&self, out: &mut Vec<u8>) {
        put_le(out, self.total_score as u64, 4);
        put_le(out, self.total_bonus as u64, 4);
        put_le(out, self.laps as u64, 4);
        put_le(out, self.used_bonus as u64, 4);
        put_le(out, self.generation as u64, 4);
        assert(out@ =~= old(out)@ + self.head_bytes());
        let mut i: usize = 0;
        assert(out@ =~= old(out)@ + self.head_bytes() + words_bytes(self.weight_bits@, 0));
        while i < 15
            invariant
                i <= 15,
                out@ == old(out)@ + self.head_bytes() + words_bytes(self.weight_bits@, i as nat),
            decreases 15 - i,
        {
            let ghost before = out@;
            put_le(out, self.weight_bits[i] as u64, 4);
            assert(out@ =~= old(out)@ + self.head_bytes() + words_bytes(
                self.weight_bits@,
                (i + 1) as nat,
            ));
            i += 1;
        }
        assert(out@ =~= old(out)@ + self.to_bytes());
    }

    fn read(bytes: &Vec<u8>, at: usize) -> (record: Self) {
        broadcast use vstd::array::group_array_axioms;

        let ghost part = bytes@.subrange(at as int, at + 80);
        proof {
            lemma_byte_powers();
            assert(part.subrange(0, 4) =~= bytes@.subrange(at as int, at + 4));
            assert(part.subrange(4, 8) =~= bytes@.subrange(at + 4, at + 8));
            assert(part.subrange(8, 12) =~= bytes@.subrange(at + 8, at + 12));
            assert(part.subrange(12, 16) =~= bytes@.subrange(at + 12, at + 16));
            assert(part.subrange(16, 20) =~= bytes@.subrange(at + 16, at + 20));
        }
        let mut weight_bits: [u32; 15] = [0u32;15];
        let mut i: usize = 0;
        while i < 15
            invariant
                i <= 15,
                at + 80 <= bytes.len(),
                part == bytes@.subrange(at as int, at + 80),
                forall|k: int| 0 <= k < i ==> #[trigger] weight_bits@[k] == words_in(part)[k],
            decreases 15 - i,
        {
            proof {
                lemma_byte_powers();
                assert(part.subrange(20 + 4 * i, 24 + 4 * i) =~= bytes@.subrange(
                    at + 20 + 4 * i,
                    at + 24 + 4 * i,
                ));
            }
            let word = get_le(bytes, at + 20 + 4 * i, 4) as u32;
            weight_bits[i] = word;
            i += 1;
        }
        proof {
            lemma_words_array(words_in(part), 15);
            assert(weight_bits@ =~= words_array(words_in(part), 15)@);
            assert(weight_bits == words_array(words_in(part), 15));
        }
        WeightRecord {
            total_score: get_le(bytes, at, 4) as u32,
            total_bonus: get_le(bytes, at + 4, 4) as u32,
            laps: get_le(bytes, at + 8, 4) as u32,
            used_bonus: get_le(bytes, at + 12, 4) as u32,
            generation: get_le(bytes, at + 16, 4) as u32,
            weight_bits,
        }
    }
}

/// The file of a weight population: the number of records in eight bytes,
/// the generation in four, then the records.
pub open spec fn weights_file(generation: u32, records: Seq<WeightRecord>) -> Seq<u8> {
    le_bytes(records.len(), 8) + le_bytes(generation as nat, 4) + records_bytes(records)
}

/// The generation and the records that a population file holds, or why it
/// cannot be read.
pub open spec fn weights_in_file(bytes: Seq<u8>) -> Result<(u32, Seq<WeightRecord>), TableError> {
    if bytes.len() < 12 {
        Err(TableError::ShortHeader)
    } else {
        match records_at::<WeightRecord>(bytes, 12, le_value(bytes.subrange(0, 8))) {
            Err(e) => Err(e),
            Ok(records) => Ok((le_value(bytes.subrange(8, 12)) as u32, records)),
        }
    }
}

/// A population file that was written is read back as what went in.
pub proof fn weights_round_trip(generation: u32, records: Seq<WeightRecord>)
    requires
        records.len() <= u64::MAX,
    ensures
        weights_in_file(weights_file(generation, records)) == Ok::<
            (u32, Seq<WeightRecord>),
            TableError,
        >((generation, records)),
{
    lemma_byte_powers();
    lemma_le_round_trip(records.len(), 8);
    lemma_le_round_trip(generation as nat, 4);
    let head = le_bytes(records.len(), 8) + le_bytes(generation as nat, 4);
    let bytes = weights_file(generation, records);
    assert(head.len() == 12);
    assert(bytes.subrange(0, 8) =~= le_bytes(records.len(), 8));
    assert(bytes.subrange(8, 12) =~= le_bytes(generation as nat, 4));
    lemma_records_round_trip(head, records, Seq::<u8>::empty());
    assert(head + records_bytes(records) + Seq::<u8>::empty() =~= bytes);
}

/// Writes the file of a weight population.
pub fn save_weights(generation: u32, weights_score: &Vec<WeightRecord>) -> (file: Vec<u8>)
    ensures
        file@ == weights_file(generation, weights_score@),
        weights_in_file(file@) == Ok::<(u32, Seq<WeightRecord>), TableError>(
            (generation, weights_score@),
        ),
{
    let mut file: Vec<u8> = Vec::new();
    put_le(&mut file, weights_score.len() as u64, 8);
    put_le(&mut file, generation as u64, 4);
    write_records(&mut file, weights_score);
    proof {
        assert(file@ =~= weights_file(generation, weights_score@));
        assert(weights_score@.len() == weights_score.len());
        weights_round_trip(generation, weights_score@);
    }
    file
}

/// Reads the file of a weight population. `file` is what the file holds,
/// or nothing where there is no such file: that is no error but a cold
/// start, told by `Ok(None)`. A file that ends early is an error.
pub fn load_weights(file: Option<&Vec<u8>>) -> (loaded: Result<
    Option<(u32, Vec<WeightRecord>)>,
    TableError,
>)
    ensures
        match file {
            None => loaded matches Ok(None),
            Some(bytes) => match weights_in_file(bytes@) {
                Ok((generation, records)) => loaded matches Ok(Some((g, r))) && g == generation
                    && r@ == records,
                Err(e) => loaded matches Err(f) && f == e,
            },
        },
{
    let bytes = match file {
        None => {
            return Ok(None);
        },
        Some(bytes) => bytes,
    };
    if bytes.len() < 12 {
        return Err(TableError::ShortHeader);
    }
    proof {
        lemma_byte_powers();
    }
    let n_records = get_le(bytes, 0, 8);
    let generation = get_le(bytes, 8, 4) as u32;
    match read_records::<WeightRecord>(bytes, 12, n_records) {
        Err(e) => Err(e),
        Ok(records) => Ok(Some((generation, records))),
    }
}

/// The results with the better mean score first.
pub open spec fn sorted_by_score(results: Seq<RunResult>) -> bool {
    forall|i: int, j: int|
        0 <= i <= j < results.len() ==> results[i].spec_avg_score() >= results[j].spec_avg_score()
}

/// The results that played a game at all, in their order.
pub open spec fn played(results: Seq<RunResult>) -> Seq<RunResult>
    decreases results.len(),
{
    if results.len() == 0 {
        Seq::empty()
    } else if results.last().laps > 0 {
        played(results.drop_last()).push(results.last())
    } else {
        played(results.drop_last())
    }
}

/// The results as winners of generation `generation`.
pub open spec fn of_generation(results: Seq<RunResult>, generation: u32) -> Seq<RunResult> {
    Seq::new(results.len(), |i: int| RunResult { generation, ..results[i] })
}

/// A result with its weights rounded to tenths.
pub open spec fn is_trimmed(trimmed: RunResult, r: RunResult) -> bool {
    &&& trimmed.total_score == r.total_score
    &&& trimmed.total_bonus == r.total_bonus
    &&& trimmed.laps == r.laps
    &&& trimmed.used_bonus == r.used_bonus
    &&& trimmed.generation == r.generation
    &&& forall|i: int|
        0 <= i < 15 ==> #[trigger] trimmed.weights@[i] == round_tenth(r.weights@[i] as int)
}

/// `merged` is the population after a generation: the old population and
/// the generation's winners, without those that played no game, ranked by
/// mean score, cut to the best thousand, with weights rounded to tenths.
pub open spec fn is_merged(
    population: Seq<RunResult>,
    winners: Seq<RunResult>,
    generation: u32,
    merged: Seq<RunResult>,
) -> bool {
    exists|ranked: Seq<RunResult>|
        {
            &&& #[trigger] ranked.to_multiset() == played(
                population + of_generation(winners, generation),
            ).to_multiset()
            &&& sorted_by_score(ranked)
            &&& merged.len() == if ranked.len() <= 1000 {
                ranked.len()
            } else {
                1000
            }
            &&& forall|i: int| 0 <= i < merged.len() ==> is_trimmed(#[trigger] merged[i], ranked[i])
        }
}

/// The results ranked by mean score, the best first.
pub fn sort_by_score(results: &Vec<RunResult>) -> (ranked: Vec<RunResult>)
    ensures
        sorted_by_score(ranked@),
        ranked@.to_multiset() == results@.to_multiset(),
        ranked@.len() == results@.len(),
{
    let mut ranked: Vec<RunResult> = Vec::new();
    let mut i: usize = 0;
    assert(results@.take(0) =~= Seq::<RunResult>::empty());
    while i < results.len()
        invariant
            i <= results.len(),
            sorted_by_score(ranked@),
            ranked@.to_multiset() == results@.take(i as int).to_multiset(),
            ranked@.len() == i,
        decreases results.len() - i,
    {
        let r = results[i];
        let avg = r.avg_score();
        let mut at: usize = 0;
        while at < ranked.len() && ranked[at].avg_score() >= avg
            invariant
                at <= ranked.len(),
                forall|k: int| 0 <= k < at ==> ranked@[k].spec_avg_score() >= avg,
            decreases ranked.len() - at,
        {
            at += 1;
        }
        let ghost before = ranked@;
        ranked.insert(at, r);
        proof {
            assert(results@.take(i as int + 1) =~= results@.take(i as int).push(r));
            assert(ranked@ == before.insert(at as int, r));
            to_multiset_build(results@.take(i as int), r);
            to_multiset_insert(before, at as int, r);
            assert forall|a: int, b: int| 0 <= a <= b < ranked@.len() implies ranked@[a].spec_avg_score()
                >= ranked@[b].spec_avg_score() by {
                if a < at && b > at {
                    assert(before[a].spec_avg_score() >= avg);
                    assert(before[at as int].spec_avg_score() >= before[b - 1].spec_avg_score());
                } else if a < at && b == at {
                } else if a == at && b > at {
                    assert(before[at as int].spec_avg_score() >= before[b - 1].spec_avg_score());
                } else if a > at {
                    assert(before[a - 1].spec_avg_score() >= before[b - 1].spec_avg_score());
                }
            }
        }
        i += 1;
    }
    assert(results@.take(i as int) =~= results@);
    ranked
}

/// Every result's weights are within bounds.
pub open spec fn all_bounded(results: Seq<RunResult>) -> bool {
    forall|i: int| 0 <= i < results.len() ==> weights_bounded((#[trigger] results[i]).weights@)
}

/// Merges a generation's winners into the population: the winners get the
/// generation's number; results that played no game are dropped; the rest
/// is ranked by mean score, the best first, and cut to the best thousand;
/// every weight that stays is rounded to the nearest tenth.
pub fn merge_generation(population: &mut Vec<RunResult>, winners: &Vec<RunResult>, generation: u32)
    requires
        all_bounded(old(population)@),
        all_bounded(winners@),
    ensures
        is_merged(old(population)@, winners@, generation, final(population)@),
        sorted_by_score(final(population)@),
        final(population)@.len() <= 1000,
        all_bounded(final(population)@),
{
    let ghost candidates = old(population)@ + of_generation(winners@, generation);
    let mut all: Vec<RunResult> = Vec::new();
    let mut i: usize = 0;
    assert(candidates.take(0) =~= Seq::<RunResult>::empty());
    while i < population.len()
        invariant
            i <= population.len(),
            population@ == old(population)@,
            candidates == old(population)@ + of_generation(winners@, generation),
            all@ == played(candidates.take(i as int)),
            all_bounded(old(population)@),
            all_bounded(all@),
        decreases population.len() - i,
    {
        let r = population[i];
        proof {
            assert(candidates.take(i as int + 1).drop_last() =~= candidates.take(i as int));
            assert(candidates.take(i as int + 1).last() == r);
            assert(weights_bounded(old(population)@[i as int].weights@));
        }
        if r.laps > 0 {
            all.push(r);
        }
        i += 1;
    }
    let n = population.len();
    let mut j: usize = 0;
    while j < winners.len()
        invariant
            j <= winners.len(),
            n == old(population)@.len(),
            candidates == old(population)@ + of_generation(winners@, generation),
            all@ == played(candidates.take(n + j)),
            all_bounded(winners@),
            all_bounded(all@),
        decreases winners.len() - j,
    {
        let mut r = winners[j];
        r.generation = generation;
        proof {
            assert(candidates.take(n + j + 1).drop_last() =~= candidates.take(n + j));
            assert(candidates.take(n + j + 1).last() == r);
            assert(weights_bounded(winners@[j as int].weights@));
        }
        if r.laps > 0 {
            all.push(r);
        }
        j += 1;
    }
    assert(candidates.take(n + j) =~= candidates);
    let ranked = sort_by_score(&all);
    proof {
        assert forall|k: int| 0 <= k < ranked@.len() implies weights_bounded(
            (#[trigger] ranked@[k]).weights@,
        ) by {
            crate::dices::lemma_members_of(ranked@, all@, k);
        }
    }
    let mut merged: Vec<RunResult> = Vec::new();
    let mut k: usize = 0;
    while k < ranked.len() && k < 1000
        invariant
            k <= ranked.len(),
            k <= 1000,
            merged@.len() == k,
            all_bounded(ranked@),
            forall|m: int| 0 <= m < k ==> is_trimmed(#[trigger] merged@[m], ranked@[m]),
            all_bounded(merged@),
        decreases ranked.len() - k,
    {
        let r = ranked[k];
        assert(weights_bounded(ranked@[k as int].weights@));
        let trimmed = RunResult {
            total_score: r.total_score,
            total_bonus: r.total_bonus,
            weights: trim_weights(r.weights),
            laps: r.laps,
            used_bonus: r.used_bonus,
            generation: r.generation,
        };
        merged.push(trimmed);
        k += 1;
    }
    proof {
        assert forall|a: int, b: int| 0 <= a <= b < merged@.len() implies merged@[a].spec_avg_score()
            >= merged@[b].spec_avg_score() by {
            assert(is_trimmed(merged@[a], ranked@[a]));
            assert(is_trimmed(merged@[b], ranked@[b]));
        }
        assert(ranked@.to_multiset() == played(candidates).to_multiset());
    }
    *population = merged;
}

/// The result is the winner of one of the first `batches` batches of
/// `batch` candidates, scanned around the weights `weights`.
pub open spec fn wins_a_batch(
    winner: RunResult,
    batches: u32,
    batch: u32,
    hands: Seq<Box<Hand>>,
    weights: Seq<i32>,
    bonus: u32,
    sub_laps: u32,
    tuning_laps: u32,
) -> bool {
    exists|f: u32|
        f < batches && #[trigger] is_batch_winner(
            winner,
            (f * batch) as nat,
            (f * batch + batch) as nat,
            hands,
            weights,
            bonus,
            sub_laps,
            tuning_laps,
        )
}

/// Every one of the results is the winner of a batch of the plan.
pub open spec fn are_batch_winners(
    winners: Seq<RunResult>,
    batches: u32,
    batch: u32,
    hands: Seq<Box<Hand>>,
    weights: Seq<i32>,
    bonus: u32,
    sub_laps: u32,
    tuning_laps: u32,
) -> bool {
    forall|i: int|
        0 <= i < winners.len() ==> wins_a_batch(
            #[trigger] winners[i],
            batches,
            batch,
            hands,
            weights,
            bonus,
            sub_laps,
            tuning_laps,
        )
}

/// `n` is the number of batches of a plan for the workers.
pub open spec fn is_batch_number(n: u32, workers: u32) -> bool {
    exists|batch: u32| is_batch_plan(n, batch, workers)
}

/// Tables that give a hold for every throw fail for none.
proof fn lemma_complete_never_fails(hands: Seq<Box<Hand>>)
    requires
        games_complete(hands),
    ensures
        !tables_fail(hands),
{
    reveal(tables_fail);
    if tables_fail(hands) {
        let e = choose|e: LookupError| #[trigger] game_fails(hands, e);
        let mask = choose|mask: u16| 0 < mask <= 32767 && #[trigger] lookup_fails(hands, mask, e);
        assert(tables_complete(hands, mask));
        let (stage, dice) = choose|stage: Throw, dice: Seq<u8>|
            stage != Throw::Third && valid_throw(dice) && #[trigger] hold_lookup(
                hands,
                stage,
                mask,
                dice,
            ) == Err::<Seq<u8>, LookupError>(e);
        assert(hold_lookup(hands, stage, mask, dice) is Ok);
    }
}

/// For some throw that may come in a game the tables give no hold.
#[verifier::opaque]
pub open spec fn tables_fail(hands: Seq<Box<Hand>>) -> bool {
    exists|e: LookupError| #[trigger] game_fails(hands, e)
}

/// Runs one generation of the search, batch after batch: the candidates
/// around the best weights of the population are split into batches for
/// `workers` workers, each batch is scanned, and the winners are merged
/// into the population as generation `generation`. A batch that cannot be
/// played from the tables brings no winner. Returns the number of batches
/// that brought one: all of them, unless the tables give no hold for some
/// throw. Where the search space has no divisor that gives every
/// worker a batch, nothing is played, the population stays as it is, and
/// that is the error.
pub fn strategy_learn(
    hands: &Vec<Box<Hand>>,
    dices: &mut Dices,
    population: &mut Vec<RunResult>,
    generation: u32,
    sub_laps: u32,
    tuning_laps: u32,
    bonus: u32,
    workers: u32,
) -> (done: Result<u32, SearchError>)
    requires
        hands@.len() >= 15,
        old(population)@.len() > 0,
        all_bounded(old(population)@),
        weights_tunable(old(population)@[0].weights@),
        sub_laps * 750 <= u32::MAX,
        sub_laps * bonus <= u32::MAX,
        tuning_laps * 750 <= u32::MAX,
        tuning_laps * bonus <= u32::MAX,
    ensures
        match done {
            Ok(n) => {
                &&& exists|winners: Seq<RunResult>, batches: u32, batch: u32|
                    {
                        &&& winners.len() == n <= batches
                        &&& is_batch_plan(batches, batch, workers)
                        &&& #[trigger] are_batch_winners(
                            winners,
                            batches,
                            batch,
                            hands@,
                            old(population)@[0].weights@,
                            bonus,
                            sub_laps,
                            tuning_laps,
                        )
                        &&& is_merged(old(population)@, winners, generation, final(population)@)
                    }
                &&& sorted_by_score(final(population)@)
                &&& final(population)@.len() <= 1000
                &&& all_bounded(final(population)@)
                &&& tables_fail(hands@) || is_batch_number(n, workers)
                &&& games_complete(hands@) ==> is_batch_number(n, workers)
            },
            Err(e) => {
                &&& e == SearchError::NoFactors
                &&& forall|d: u32| !is_batch_count(d, workers)
                &&& final(population)@ == old(population)@
            },
        },
{
    let (batches, batch) = match batch_plan(workers) {
        Err(e) => {
            return Err(e);
        },
        Ok(plan) => plan,
    };
    let weights = population[0].weights;
    let mut winners: Vec<RunResult> = Vec::new();
    let mut f: u32 = 0;
    while f < batches
        invariant
            f <= batches,
            batches * batch == 14348907,
            hands@.len() >= 15,
            sub_laps * 750 <= u32::MAX,
            sub_laps * bonus <= u32::MAX,
            tuning_laps * 750 <= u32::MAX,
            tuning_laps * bonus <= u32::MAX,
            weights_tunable(weights@),
            winners@.len() <= f,
            winners@.len() == f || tables_fail(hands@),
            all_bounded(winners@),
            are_batch_winners(
                winners@,
                f,
                batch,
                hands@,
                weights@,
                bonus,
                sub_laps,
                tuning_laps,
            ),
        decreases batches - f,
    {
        assert(f * batch + batch <= 14348907) by (nonlinear_arith)
            requires
                f < batches,
                batches * batch == 14348907,
                batch >= 0,
        ;
        match super_run(hands, dices, sub_laps, tuning_laps, f, batch, weights, bonus) {
            Ok(rr) => {
                proof {
                    lemma_winner_bounded(
                        rr,
                        (f * batch) as nat,
                        (f * batch + batch) as nat,
                        hands@,
                        weights@,
                        bonus,
                        sub_laps,
                        tuning_laps,
                    );
                }
                let ghost before = winners@;
                winners.push(rr);
                proof {
                    assert forall|i: int| 0 <= i < winners@.len() implies wins_a_batch(
                        #[trigger] winners@[i],
                        (f + 1) as u32,
                        batch,
                        hands@,
                        weights@,
                        bonus,
                        sub_laps,
                        tuning_laps,
                    ) by {
                        if i < before.len() {
                            assert(winners@[i] == before[i]);
                            assert(wins_a_batch(
                                before[i],
                                f,
                                batch,
                                hands@,
                                weights@,
                                bonus,
                                sub_laps,
                                tuning_laps,
                            ));
                        } else {
                            assert(is_batch_winner(
                                winners@[i],
                                (f * batch) as nat,
                                (f * batch + batch) as nat,
                                hands@,
                                weights@,
                                bonus,
                                sub_laps,
                                tuning_laps,
                            ));
                        }
                    }
                }
            },
            Err(e) => {
                assert(tables_fail(hands@)) by {
                    reveal(tables_fail);
                    assert(game_fails(hands@, e));
                }
                assert forall|i: int| 0 <= i < winners@.len() implies wins_a_batch(
                    #[trigger] winners@[i],
                    (f + 1) as u32,
                    batch,
                    hands@,
                    weights@,
                    bonus,
                    sub_laps,
                    tuning_laps,
                ) by {
                    assert(wins_a_batch(
                        winners@[i],
                        f,
                        batch,
                        hands@,
                        weights@,
                        bonus,
                        sub_laps,
                        tuning_laps,
                    ));
                }
            },
        }
        f += 1;
    }
    merge_generation(population, &winners, generation);
    proof {
        if games_complete(hands@) {
            lemma_complete_never_fails(hands@);
        }
        if !tables_fail(hands@) {
            assert(is_batch_plan(winners@.len() as u32, batch, workers));
            assert(is_batch_number(winners@.len() as u32, workers));
        }
        assert(are_batch_winners(
            winners@,
            batches,
            batch,
            hands@,
            weights@,
            bonus,
            sub_laps,
            tuning_laps,
        ));
    }
    Ok(winners.len() as u32)
}

/// A batch's winner has weights within bounds where the base weights can
/// be moved.
proof fn lemma_winner_bounded(
    r: RunResult,
    start: nat,
    end: nat,
    hands: Seq<Box<Hand>>,
    weights: Seq<i32>,
    bonus: u32,
    sub_laps: u32,
    tuning_laps: u32,
)
    requires
        is_batch_winner(r, start, end, hands, weights, bonus, sub_laps, tuning_laps),
        weights_tunable(weights),
        weights.len() == 15,
    ensures
        weights_bounded(r.weights@),
{
    let trials = choose|trials: Seq<RunResult>| #[trigger]
        is_kept(trials, weights, start, r.weights@);
    if r.weights@ == start_weights() {
    } else {
        let best = choose|best: int|
            0 <= best < trials.len() && r.weights@ == #[trigger] tuned_weights(
                weights,
                (start + best) as nat,
            );
        let f = (start + best) as nat;
        assert forall|i: int| 0 <= i < 15 implies -2000000000 <= #[trigger] r.weights@[i]
            <= 2000000000 by {
            let t = spec_tuning(f, Seq::new(15, |k: int| 0i32))[i];
            assert(-100 <= t <= 100);
            assert(-1999999900 <= weights[i] <= 1999999900);
        }
    }
}

/// A time span in days, hours, minutes and seconds.
pub fn split_duration(secs: u64) -> (parts: (u64, u64, u64, u64))
    ensures
        parts.0 * 86400 + parts.1 * 3600 + parts.2 * 60 + parts.3 == secs,
        parts.1 < 24,
        parts.2 < 60,
        parts.3 < 60,
{
    let d = secs / 86400;
    let dr = secs % 86400;
    let h = dr / 3600;
    let hr = dr % 3600;
    let m = hr / 60;
    let s = hr % 60;
    (d, h, m, s)
}

} // verus!
