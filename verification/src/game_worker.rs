use vstd::prelude::*;
use crate::dices::hold_from_code;
use crate::game_box::MCGame;
use crate::score_box::{mean_micro, spec_mean_micro};
use crate::score_box::rules::{
    hits_below, scores_below, valid_dice, Hand, HandDistribution, LookupError,
};
use crate::utils::{base10_to_base2, digits_of, has_bit, lemma_members_below};
use crate::weight_worker::{lemma_empty_mask, lemma_no_high_bit};

verus! {

/// The most games that are played in one go.
pub const LAP_BATCH: i64 = 100000000;

/// One step of a long run that is played in batches.
#[derive(Clone, Copy, Debug, PartialEq, Eq, Structural)]
pub struct BatchStep {
    /// The number of games to play now.
    pub laps: i64,
    /// The number of the first of them.
    pub lap_offset: i64,
    /// The number of games that are left after this batch.
    pub remaining_laps: i64,
    /// The number of the first game of the next batch.
    pub next_offset: i64,
    /// Whether another batch follows, after a pause.
    pub pause: bool,
}

/// What to play next in a run of which `remaining_laps` games are left:
/// a batch of at most `LAP_BATCH` games, and whether the run goes on after
/// it.
pub fn mc_play(remaining_laps: i64, lap_offset: i64) -> (step: BatchStep)
    requires
        remaining_laps >= i64::MIN + 100000000,
        lap_offset <= i64::MAX - 100000000,
    ensures
        step.laps == if remaining_laps > 100000000 {
            100000000
        } else {
            remaining_laps as int
        },
        step.lap_offset == lap_offset,
        step.remaining_laps == remaining_laps - 100000000,
        step.next_offset == lap_offset + 100000000,
        step.pause == (remaining_laps > 100000000),
{
    let laps = if remaining_laps > LAP_BATCH {
        LAP_BATCH
    } else {
        remaining_laps
    };
    let remaining = remaining_laps - LAP_BATCH;
    BatchStep {
        laps,
        lap_offset,
        remaining_laps: remaining,
        next_offset: lap_offset + LAP_BATCH,
        pause: remaining > 0,
    }
}

/// The key of a node of the game tree: the category in the high bits, the
/// score in the nine low ones.
pub fn hand_score_to_key(hand: u16, score: u16) -> (key: u16)
    requires
        hand < 128,
        hand * 512 + score <= 65535,
    ensures
        key == hand * 512 + score,
{
    assert((hand << 9) == hand * 512) by (bit_vector)
        requires
            hand < 128,
    ;
    (hand << 9) + score
}

/// The category and the score that a key of the game tree stands for.
pub fn key_to_hand_score(key: u16) -> (hand_score: (u16, u16))
    ensures
        hand_score.0 == key / 512,
        hand_score.1 == key % 512,
{
    let score = key & 0b111111111;
    let hand = key >> 9;
    assert(key & 0b111111111 == key % 512 && key >> 9 == key / 512) by (bit_vector);
    (hand, score)
}

/// A key gives back the category and the score that made it, where the
/// score is below 512.
pub proof fn key_round_trip(hand: u16, score: u16)
    requires
        hand < 128,
        score < 512,
    ensures
        (hand * 512 + score) / 512 == hand,
        (hand * 512 + score) % 512 == score,
{
}

/// The share of an expected bonus that is added to the mean of category
/// `hand`, in millionths of a point: a face-count category gets its face's
/// part of a twenty-first of the bonus, each other category nothing.
pub open spec fn bonus_share(hand: int, bonus_extra: u64) -> Option<u64> {
    if hand <= 5 {
        Some((bonus_extra / 21 * (hand + 1)) as u64)
    } else {
        None
    }
}

/// What category `pos` is expected to score, in millionths of a point; none
/// where its distribution counted no game.
pub open spec fn expected_score(distr: Seq<Box<HandDistribution>>, pos: int, bonus_extra: u64) -> Option<
    nat,
> {
    if distr[pos].hits() == 0 {
        None
    } else {
        let extra = match bonus_share(pos, bonus_extra) {
            Some(e) => e as nat,
            None => 0,
        };
        Some(
            if distr[pos].spec_mean() + extra > u64::MAX {
                u64::MAX as nat
            } else {
                distr[pos].spec_mean() + extra
            },
        )
    }
}

/// What the throw gains in category `pos` over what the category is
/// expected to score, in millionths of a point.
pub open spec fn gain(
    hands: Seq<Box<Hand>>,
    distr: Seq<Box<HandDistribution>>,
    dice: Seq<u8>,
    pos: int,
    bonus_extra: u64,
) -> int {
    hands[pos].hand_type().spec_score(dice) * 1000000 - expected_score(
        distr,
        pos,
        bonus_extra,
    )->Some_0
}

/// The open category in which the throw gains most over the category's
/// expected score: of the categories that the mask holds, the first in
/// score-card order whose gain no other exceeds. `thrown` is the code of
/// the dice.
pub fn best_available_game_hand(
    thrown: u16,
    available_hands: u16,
    hands: &Vec<Box<Hand>>,
    distr: &Vec<Box<HandDistribution>>,
    bonus_extra: u64,
) -> (best: Result<usize, LookupError>)
    requires
        available_hands <= 32767,
        hands@.len() >= 15,
        distr@.len() >= 15,
    ensures
        match best {
            Ok(b) => {
                let dice = digits_of(thrown as nat, 7);
                &&& valid_dice(dice)
                &&& b < 15
                &&& has_bit(available_hands, b as u16)
                &&& forall|pos: u16|
                    pos < 15 && #[trigger] has_bit(available_hands, pos) ==> {
                        &&& expected_score(distr@, pos as int, bonus_extra) is Some
                        &&& gain(hands@, distr@, dice, pos as int, bonus_extra) <= gain(
                            hands@,
                            distr@,
                            dice,
                            b as int,
                            bonus_extra,
                        )
                        &&& pos < b ==> gain(hands@, distr@, dice, pos as int, bonus_extra) < gain(
                            hands@,
                            distr@,
                            dice,
                            b as int,
                            bonus_extra,
                        )
                    }
            },
            Err(LookupError::NoBestHand) => available_hands == 0,
            Err(LookupError::BadHold) => available_hands != 0 && !valid_dice(
                digits_of(thrown as nat, 7),
            ),
            Err(LookupError::NoEntry) => available_hands != 0 && valid_dice(
                digits_of(thrown as nat, 7),
            ) && exists|pos: u16|
                pos < 15 && #[trigger] has_bit(available_hands, pos) && expected_score(
                    distr@,
                    pos as int,
                    bonus_extra,
                ) is None,
            Err(LookupError::IllegalThrow) => false,
        },
{
    if available_hands == 0 {
        return Err(LookupError::NoBestHand);
    }
    let dice = match hold_from_code(thrown) {
        Err(e) => {
            return Err(LookupError::BadHold);
        },
        Ok(d) => d,
    };
    if dice.len() != 5 {
        return Err(LookupError::BadHold);
    }
    let members = base10_to_base2(available_hands, false);
    proof {
        lemma_members_below(available_hands, 16, 0);
        lemma_no_high_bit(available_hands);
    }
    let bonus_addition = bonus_extra / 21;
    let mut best_hand: Option<usize> = None;
    let mut max_gain: i128 = i128::MIN;
    let mut i: usize = 0;
    while i < members.len()
        invariant
            i <= members.len(),
            available_hands != 0,
            valid_dice(dice@),
            dice@ == digits_of(thrown as nat, 7),
            hands@.len() >= 15,
            distr@.len() >= 15,
            bonus_addition == bonus_extra / 21,
            forall|k: int|
                0 <= k < members.len() ==> (#[trigger] members[k]) < 15 && has_bit(
                    available_hands,
                    members[k] as u16,
                ),
            forall|a: int, b: int| 0 <= a < b < members.len() ==> members[a] < members[b],
            forall|k: int|
                0 <= k < i ==> expected_score(distr@, (#[trigger] members[k]) as int, bonus_extra) is Some
                    && gain(hands@, distr@, dice@, members[k] as int, bonus_extra) <= max_gain,
            match best_hand {
                Some(b) => {
                    &&& exists|k: int| 0 <= k < i && members[k] == b
                    &&& b < 15
                    &&& max_gain == gain(hands@, distr@, dice@, b as int, bonus_extra)
                    &&& forall|k: int|
                        0 <= k < i && (#[trigger] members[k]) < b ==> gain(
                            hands@,
                            distr@,
                            dice@,
                            members[k] as int,
                            bonus_extra,
                        ) < max_gain
                },
                None => i == 0 && max_gain == i128::MIN,
            },
        decreases members.len() - i,
    {
        let hand = members[i];
        let score = hands[hand as usize].score(&dice);
        let extras: Option<u64> = if hand <= 5 {
            assert(bonus_addition * (hand + 1) <= u64::MAX) by (nonlinear_arith)
                requires
                    bonus_addition <= 878416384462359600,
                    hand <= 5,
            ;
            Some(bonus_addition * (hand as u64 + 1))
        } else {
            None
        };
        let expected = match distr[hand as usize].mean_score(extras) {
            Err(e) => {
                assert(has_bit(available_hands, members[i as int] as u16));
                assert(expected_score(distr@, members[i as int] as int, bonus_extra) is None);
                return Err(LookupError::NoEntry);
            },
            Ok(m) => m,
        };
        assert(expected_score(distr@, hand as int, bonus_extra) == Some(expected as nat));
        let now: i128 = score as i128 * 1000000 - expected as i128;
        assert(now == gain(hands@, distr@, dice@, hand as int, bonus_extra));
        if now > max_gain {
            proof {
                assert forall|k: int| 0 <= k < i + 1 && (#[trigger] members[k]) < hand implies gain(
                    hands@,
                    distr@,
                    dice@,
                    members[k] as int,
                    bonus_extra,
                ) < now by {
                    assert(k < i);
                }
            }
            max_gain = now;
            best_hand = Some(hand as usize);
        } else {
            proof {
                if let Some(b) = best_hand {
                    let kb = choose|k: int| 0 <= k < i && members[k] == b;
                    assert(members[kb] < members[i as int]);
                }
            }
        }
        i += 1;
    }
    proof {
        assert forall|pos: u16| pos < 15 && #[trigger] has_bit(available_hands, pos) implies exists|
            k: int,
        |
            0 <= k < members.len() && members[k] == pos by {
            assert(members@.contains((pos + 0u8) as u8));
        }
    }
    match best_hand {
        Some(b) => {
            proof {
                assert forall|pos: u16| pos < 15 && #[trigger] has_bit(available_hands, pos) implies {
                    &&& expected_score(distr@, pos as int, bonus_extra) is Some
                    &&& gain(hands@, distr@, dice@, pos as int, bonus_extra) <= max_gain
                    &&& pos < b ==> gain(hands@, distr@, dice@, pos as int, bonus_extra) < max_gain
                } by {
                    let k = choose|k: int| 0 <= k < members.len() && members[k] == pos;
                    assert(members[k] == pos);
                }
            }
            Ok(b)
        },
        None => {
            proof {
                lemma_empty_mask(available_hands);
                let pos = choose|pos: u16| pos < 16 && has_bit(available_hands, pos);
                assert(members@.contains((pos + 0u8) as u8));
            }
            Err(LookupError::NoBestHand)
        },
    }
}

/// The keys under which the game tree holds the throw's outcomes: for each
/// open category, in score-card order, the category and the key of the
/// category with the score that the throw brings there. `thrown` is the
/// code of the dice.
pub fn candidate_keys(thrown: u16, available_hands: u16, hands: &Vec<Box<Hand>>) -> (keys: Result<
    Vec<(u8, u16)>,
    LookupError,
>)
    requires
        available_hands <= 32767,
        hands@.len() >= 15,
    ensures
        match keys {
            Ok(v) => {
                let dice = digits_of(thrown as nat, 7);
                &&& valid_dice(dice)
                &&& v@.len() == crate::utils::mask_members(available_hands, false).len()
                &&& forall|i: int|
                    0 <= i < v@.len() ==> {
                        &&& (#[trigger] v@[i]).0 == crate::utils::mask_members(
                            available_hands,
                            false,
                        )[i]
                        &&& v@[i].0 < 15
                        &&& v@[i].1 == v@[i].0 * 512 + hands@[v@[i].0 as int].hand_type().spec_score(
                            dice,
                        )
                    }
            },
            Err(e) => e == LookupError::BadHold && !valid_dice(digits_of(thrown as nat, 7)),
        },
{
    let dice = match hold_from_code(thrown) {
        Err(e) => {
            return Err(LookupError::BadHold);
        },
        Ok(d) => d,
    };
    if dice.len() != 5 {
        return Err(LookupError::BadHold);
    }
    let members = base10_to_base2(available_hands, false);
    proof {
        lemma_members_below(available_hands, 16, 0);
        lemma_no_high_bit(available_hands);
    }
    let mut keys: Vec<(u8, u16)> = Vec::new();
    let mut i: usize = 0;
    while i < members.len()
        invariant
            i <= members.len(),
            valid_dice(dice@),
            hands@.len() >= 15,
            keys@.len() == i,
            forall|k: int| 0 <= k < members.len() ==> (#[trigger] members[k]) < 15,
            forall|k: int|
                0 <= k < i ==> {
                    &&& (#[trigger] keys@[k]).0 == members[k]
                    &&& keys@[k].1 == keys@[k].0 * 512 + hands@[keys@[k].0 as int].hand_type().spec_score(
                        dice@,
                    )
                },
        decreases members.len() - i,
    {
        let hand = members[i];
        let score = hands[hand as usize].score(&dice);
        let key = hand_score_to_key(hand as u16, score as u16);
        keys.push((hand, key));
        i += 1;
    }
    Ok(keys)
}

/// What the game tree knows of a node: how many games passed through it
/// and what they scored in all.
#[derive(Clone, Copy, Debug, PartialEq, Eq, Structural)]
pub struct NodeTally {
    pub hits: u64,
    pub score: u64,
}

/// What the game tree says of a throw.
#[derive(Clone, Copy, Debug, PartialEq, Eq, Structural)]
pub enum TreeChoice {
    /// The category to score.
    Hand(usize),
    /// The tree does not know every outcome: ask the distributions.
    Fallback,
    /// There is no outcome to choose from.
    NoBest,
}

/// The mean total of the games that passed through a node, in millionths of
/// a point; 0 where none did.
pub open spec fn node_mean(t: NodeTally) -> nat {
    spec_mean_micro(t.score as nat, t.hits as nat)
}

/// Chooses a category from what the game tree holds for each of a throw's
/// outcomes: `children[i]` is the node of `candidates[i]`, or nothing where
/// the tree has no such node. Where a node is missing the tree is not
/// asked; else the first outcome with the highest mean total is taken.
pub fn best_available_game_hand_from_tree(candidates: &Vec<(u8, u16)>, children: &Vec<Option<NodeTally>>) -> (choice:
    TreeChoice)
    requires
        candidates@.len() == children@.len(),
    ensures
        match choice {
            TreeChoice::Fallback => exists|i: int|
                0 <= i < children@.len() && #[trigger] children@[i] is None,
            TreeChoice::NoBest => children@.len() == 0,
            TreeChoice::Hand(hand) => {
                &&& forall|i: int| 0 <= i < children@.len() ==> #[trigger] children@[i] is Some
                &&& exists|b: int|
                    {
                        &&& 0 <= b < children@.len()
                        &&& hand == (#[trigger] candidates@[b]).0
                        &&& forall|i: int|
                            0 <= i < children@.len() ==> node_mean(
                                (#[trigger] children@[i])->Some_0,
                            ) <= node_mean(children@[b]->Some_0)
                        &&& forall|i: int|
                            0 <= i < b ==> node_mean((#[trigger] children@[i])->Some_0) < node_mean(
                                children@[b]->Some_0,
                            )
                    }
            },
        },
{
    let mut best: Option<usize> = None;
    let mut max_score: u64 = 0;
    let mut i: usize = 0;
    while i < children.len()
        invariant
            i <= children.len(),
            candidates@.len() == children@.len(),
            forall|k: int| 0 <= k < i ==> #[trigger] children@[k] is Some,
            forall|k: int|
                0 <= k < i ==> node_mean((#[trigger] children@[k])->Some_0) <= max_score,
            match best {
                Some(b) => {
                    &&& b < i
                    &&& max_score == node_mean(children@[b as int]->Some_0)
                    &&& forall|k: int|
                        0 <= k < b ==> node_mean((#[trigger] children@[k])->Some_0) < max_score
                },
                None => i == 0,
            },
        decreases children.len() - i,
    {
        match children[i] {
            None => {
                return TreeChoice::Fallback;
            },
            Some(c) => {
                let score = mean_micro(c.score, c.hits);
                if best.is_none() || score > max_score {
                    max_score = score;
                    best = Some(i);
                }
            },
        }
        i += 1;
    }
    match best {
        Some(b) => TreeChoice::Hand(candidates[b].0 as usize),
        None => TreeChoice::NoBest,
    }
}

/// One category of a simulated game.
#[derive(Clone, Copy, Debug, PartialEq, Eq, Structural)]
pub struct LapStep {
    /// The category that was scored.
    pub hand: u8,
    /// The score that was drawn for it.
    pub score: u8,
    /// The key of this outcome in the game tree.
    pub key: u16,
    /// The number of different scores that the categories which are still
    /// open can bring.
    pub n_scores: u32,
}

/// A simulated game: its fifteen steps, and its total with the bonus.
pub struct Lap {
    pub steps: Vec<LapStep>,
    pub total: u16,
}

/// The sum of the scores of the first `n` steps; with `upper`, of those
/// among them that score a face-count category.
pub open spec fn steps_sum(steps: Seq<LapStep>, n: nat, upper: bool) -> nat
    decreases n,
{
    if n == 0 || n > steps.len() {
        0
    } else {
        steps_sum(steps, (n - 1) as nat, upper) + if !upper || steps[n - 1].hand < 6 {
            steps[n - 1].score as nat
        } else {
            0
        }
    }
}

/// The number of different scores that the categories below `below` hold
/// which are not scored in the steps up to step `upto`.
pub open spec fn scores_left(
    distr: Seq<Box<HandDistribution>>,
    steps: Seq<LapStep>,
    upto: int,
    below: nat,
) -> nat
    decreases below,
{
    if below == 0 {
        0
    } else {
        let hand = (below - 1) as int;
        scores_left(distr, steps, upto, (below - 1) as nat) + if forall|j: int|
            0 <= j <= upto ==> (#[trigger] steps[j]).hand != hand {
            scores_below(distr[hand].histogram(), 256)
        } else {
            0
        }
    }
}

/// What `play_lap` hands back, whatever was drawn: fifteen steps that score
/// each category once, each with its key and with the number of scores
/// that are left to the open categories, and the total of their scores
/// with the bonus that the face-count categories earn.
pub open spec fn is_lap(lap: &Lap, distr: Seq<Box<HandDistribution>>) -> bool {
    &&& lap.steps@.len() == 15
    &&& forall|i: int|
        0 <= i < 15 ==> {
            let step = #[trigger] lap.steps@[i];
            &&& step.hand < 15
            &&& distr[step.hand as int].histogram().contains_key(step.score)
            &&& distr[step.hand as int].histogram()[step.score] > 0
            &&& step.key == step.hand * 512 + step.score
            &&& step.n_scores == scores_left(distr, lap.steps@, i, 15)
        }
    &&& forall|i: int, j: int| 0 <= i < j < 15 ==> lap.steps@[i].hand != lap.steps@[j].hand
    &&& lap.total == steps_sum(lap.steps@, 15, false) + if steps_sum(lap.steps@, 15, true) >= 63 {
        50nat
    } else {
        0nat
    }
}

/// The number of different scores that the open categories below `below`
/// hold.
pub open spec fn open_scores_below(open: Seq<usize>, distr: Seq<Box<HandDistribution>>, below: nat) -> nat
    decreases below,
{
    if below == 0 {
        0
    } else {
        let hand = (below - 1) as usize;
        open_scores_below(open, distr, (below - 1) as nat) + if open.contains(hand) {
            scores_below(distr[hand as int].histogram(), 256)
        } else {
            0
        }
    }
}

/// The number of different scores that the open categories can bring.
fn open_scores(game: &MCGame, hand_distr: &Vec<Box<HandDistribution>>) -> (n: u32)
    requires
        game.wf(),
        hand_distr@.len() >= 15,
    ensures
        n == open_scores_below(game.open_hands(), hand_distr@, 15),
        n <= 3840,
{
    let mut n: u32 = 0;
    let mut hand: usize = 0;
    let mask = match game.available_hands() {
        Some(m) => m,
        None => 0,
    };
    proof {
        crate::utils::lemma_fresh_mask();
    }
    while hand < 15
        invariant
            hand <= 15,
            hand_distr@.len() >= 15,
            n <= 256 * hand,
            n == open_scores_below(game.open_hands(), hand_distr@, hand as nat),
            forall|pos: u16|
                pos < 16 ==> (#[trigger] has_bit(mask, pos) <==> game.open_hands().contains(
                    pos as usize,
                )),
        decreases 15 - hand,
    {
        assert(has_bit(mask, hand as u16) <==> game.open_hands().contains(hand));
        if (mask >> (hand as u16)) & 1 == 1 {
            n = n + hand_distr[hand].len();
        }
        hand += 1;
    }
    n
}

proof fn lemma_scores_left(
    open: Seq<usize>,
    distr: Seq<Box<HandDistribution>>,
    steps: Seq<LapStep>,
    upto: int,
    below: nat,
)
    requires
        below <= 15,
        forall|h: usize|
            h < 15 ==> (open.contains(h) <==> forall|j: int|
                0 <= j <= upto ==> (#[trigger] steps[j]).hand != h),
    ensures
        open_scores_below(open, distr, below) == scores_left(distr, steps, upto, below),
    decreases below,
{
    if below > 0 {
        lemma_scores_left(open, distr, steps, upto, (below - 1) as nat);
        let h = (below - 1) as usize;
        assert(open.contains(h) <==> forall|j: int|
            0 <= j <= upto ==> (#[trigger] steps[j]).hand != h);
    }
}

proof fn lemma_scores_left_same(
    distr: Seq<Box<HandDistribution>>,
    one: Seq<LapStep>,
    other: Seq<LapStep>,
    upto: int,
    below: nat,
)
    requires
        0 <= upto < one.len(),
        upto < other.len(),
        forall|j: int| 0 <= j <= upto ==> one[j] == other[j],
    ensures
        scores_left(distr, one, upto, below) == scores_left(distr, other, upto, below),
    decreases below,
{
    if below > 0 {
        lemma_scores_left_same(distr, one, other, upto, (below - 1) as nat);
        let hand = (below - 1) as int;
        assert((forall|j: int| 0 <= j <= upto ==> (#[trigger] one[j]).hand != hand) <==> (forall|
            j: int,
        |
            0 <= j <= upto ==> (#[trigger] other[j]).hand != hand)) by {
            if forall|j: int| 0 <= j <= upto ==> (#[trigger] one[j]).hand != hand {
                assert forall|j: int| 0 <= j <= upto implies (#[trigger] other[j]).hand != hand by {
                    assert(one[j].hand != hand);
                }
            }
            if forall|j: int| 0 <= j <= upto ==> (#[trigger] other[j]).hand != hand {
                assert forall|j: int| 0 <= j <= upto implies (#[trigger] one[j]).hand != hand by {
                    assert(other[j].hand != hand);
                }
            }
        }
    }
}

/// There is a score to draw from a distribution with this histogram: it
/// holds a hit, and its hits add up in a `u64`.
pub open spec fn can_draw(histogram: Map<u8, u64>) -> bool {
    0 < hits_below(histogram, 256) <= u64::MAX
}

/// Simulates one game from the categories' score distributions: the
/// categories are scored in an order picked by chance, each with a score
/// drawn from its distribution. It succeeds where each of the fifteen
/// distributions has a score to draw, and only there.
pub fn play_lap(game: &mut MCGame, hand_distr: &mut Vec<Box<HandDistribution>>) -> (lap: Result<
    Lap,
    LookupError,
>)
    requires
        old(hand_distr)@.len() >= 15,
    ensures
        final(hand_distr)@.len() == old(hand_distr)@.len(),
        forall|k: int|
            0 <= k < old(hand_distr)@.len() ==> (#[trigger] final(hand_distr)@[k]).histogram() == old(
                hand_distr,
            )@[k].histogram(),
        match lap {
            Ok(l) => is_lap(&l, old(hand_distr)@),
            Err(e) => e == LookupError::NoEntry,
        },
        lap is Ok <==> forall|h: int| 0 <= h < 15 ==> can_draw((#[trigger] old(hand_distr)@[h]).histogram()),
{
    game.reset();
    let mut steps: Vec<LapStep> = Vec::new();
    let mut total: u16 = 0;
    let mut upper: u16 = 0;
    let mut n: usize = 0;
    let ghost distr = old(hand_distr)@;
    proof {
        assert forall|h: usize| h < 15 implies game.open_hands().contains(h) by {
            assert(game.open_hands()[h as int] == h);
        }
    }
    while n < 15
        invariant
            n <= 15,
            game.wf(),
            distr == old(hand_distr)@,
            hand_distr@.len() == distr.len(),
            distr.len() >= 15,
            forall|k: int|
                0 <= k < distr.len() ==> (#[trigger] hand_distr@[k]).histogram()
                    == distr[k].histogram(),
            steps@.len() == n,
            game.open_hands().len() + n == 15,
            forall|h: usize|
                h < 15 ==> (game.open_hands().contains(h) <==> forall|j: int|
                    0 <= j <= n - 1 ==> (#[trigger] steps@[j]).hand != h),
            forall|i: int|
                0 <= i < n ==> {
                    let step = #[trigger] steps@[i];
                    &&& step.hand < 15
                    &&& distr[step.hand as int].histogram().contains_key(step.score)
                    &&& distr[step.hand as int].histogram()[step.score] > 0
                    &&& step.key == step.hand * 512 + step.score
                    &&& step.n_scores == scores_left(distr, steps@, i, 15)
                },
            forall|i: int, j: int| 0 <= i < j < n ==> steps@[i].hand != steps@[j].hand,
            forall|i: int| 0 <= i < n ==> can_draw(distr[(#[trigger] steps@[i]).hand as int].histogram()),
            total == steps_sum(steps@, n as nat, false),
            upper == steps_sum(steps@, n as nat, true),
            total <= 255 * n,
            upper <= total,
        decreases 15 - n,
    {
        let ghost open_before = game.open_hands();
        let hand = match game.pick_hand() {
            Some(h) => h,
            None => {
                assert(false);
                return Err(LookupError::NoEntry);
            },
        };
        assert(hand < 15) by {
            let at = choose|at: int| 0 <= at < open_before.len() && open_before[at] == hand;
            assert(open_before[at] < 15);
        }
        assert(hand_distr@[hand as int].histogram() == distr[hand as int].histogram());
        let score = match sample_at(hand_distr, hand) {
            Some(s) => s,
            None => {
                assert(!can_draw(distr[hand as int].histogram()));
                return Err(LookupError::NoEntry);
            },
        };
        let key = hand_score_to_key(hand as u16, score as u16);
        let n_scores = open_scores(game, hand_distr);
        let ghost before = steps@;
        steps.push(LapStep { hand: hand as u8, score, key, n_scores });
        proof {
            assert forall|i: int| 0 <= i < n implies steps@[i].hand != hand as u8 by {
                assert(steps@[i] == before[i]);
            }
            assert forall|h: usize| h < 15 implies (game.open_hands().contains(h) <==> forall|
                j: int,
            |
                0 <= j <= n ==> (#[trigger] steps@[j]).hand != h) by {
                if h == hand {
                    assert(steps@[n as int].hand == h);
                } else {
                    assert(game.open_hands().contains(h) <==> open_before.contains(h));
                    if open_before.contains(h) {
                        assert forall|j: int| 0 <= j <= n implies (#[trigger] steps@[j]).hand
                            != h by {
                            if j < n {
                                assert(steps@[j] == before[j]);
                            }
                        }
                    }
                    if forall|j: int| 0 <= j <= n ==> (#[trigger] steps@[j]).hand != h {
                        assert forall|j: int| 0 <= j <= n - 1 implies (#[trigger] before[j]).hand
                            != h by {
                            assert(steps@[j] == before[j]);
                        }
                    }
                }
            }
            lemma_scores_left(game.open_hands(), hand_distr@, steps@, n as int, 15);
            lemma_scores_left_distr(hand_distr@, distr, steps@, n as int, 15);
            assert forall|i: int| 0 <= i < n implies (#[trigger] steps@[i]).n_scores == scores_left(
                distr,
                steps@,
                i,
                15,
            ) by {
                assert(steps@[i] == before[i]);
                lemma_scores_left_same(distr, before, steps@, i, 15);
            }
            lemma_steps_sum_same(before, steps@, n as nat, false);
            lemma_steps_sum_same(before, steps@, n as nat, true);
            assert forall|i: int| 0 <= i <= n implies can_draw(
                distr[(#[trigger] steps@[i]).hand as int].histogram(),
            ) by {
                if i < n {
                    assert(steps@[i] == before[i]);
                }
            }
        }
        total = total + score as u16;
        if hand < 6 {
            upper = upper + score as u16;
        }
        n += 1;
    }
    let bonus: u16 = if upper >= 63 {
        50
    } else {
        0
    };
    proof {
        assert forall|h: int| 0 <= h < 15 implies can_draw((#[trigger] distr[h]).histogram()) by {
            assert(!game.open_hands().contains(h as usize));
            let j = choose|j: int| 0 <= j <= n - 1 && (#[trigger] steps@[j]).hand == h as usize;
            assert(can_draw(distr[steps@[j].hand as int].histogram()));
        }
    }
    Ok(Lap { steps, total: total + bonus })
}

proof fn lemma_scores_left_distr(
    one: Seq<Box<HandDistribution>>,
    other: Seq<Box<HandDistribution>>,
    steps: Seq<LapStep>,
    upto: int,
    below: nat,
)
    requires
        below <= one.len(),
        one.len() == other.len(),
        forall|k: int| 0 <= k < one.len() ==> (#[trigger] one[k]).histogram() == other[k].histogram(),
    ensures
        scores_left(one, steps, upto, below) == scores_left(other, steps, upto, below),
    decreases below,
{
    if below > 0 {
        lemma_scores_left_distr(one, other, steps, upto, (below - 1) as nat);
        assert(one[below - 1].histogram() == other[below - 1].histogram());
    }
}

/// Draws a score from the distribution of category `hand`: a score that
/// the distribution holds. There is one to draw where the distribution
/// holds a hit and its hits add up in a `u64`, and only there.
fn sample_at(hand_distr: &mut Vec<Box<HandDistribution>>, hand: usize) -> (score: Option<u8>)
    requires
        hand < old(hand_distr)@.len(),
    ensures
        final(hand_distr)@.len() == old(hand_distr)@.len(),
        score is Some <==> 0 < hits_below(old(hand_distr)@[hand as int].histogram(), 256)
            <= u64::MAX,
        forall|k: int|
            0 <= k < old(hand_distr)@.len() ==> (#[trigger] final(hand_distr)@[k]).histogram() == old(
                hand_distr,
            )@[k].histogram(),
        score matches Some(s) ==> old(hand_distr)@[hand as int].histogram().contains_key(s) && old(
            hand_distr,
        )@[hand as int].histogram()[s] > 0,
{
    let d = &mut hand_distr[hand];
    d.sample_from_distribution()
}

proof fn lemma_steps_sum_same(one: Seq<LapStep>, other: Seq<LapStep>, n: nat, upper: bool)
    requires
        n <= one.len(),
        n <= other.len(),
        forall|i: int| 0 <= i < n ==> one[i] == other[i],
    ensures
        steps_sum(one, n, upper) == steps_sum(other, n, upper),
    decreases n,
{
    if n > 0 {
        lemma_steps_sum_same(one, other, (n - 1) as nat, upper);
    }
}

} // verus!
