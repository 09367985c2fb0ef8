use vstd::prelude::*;
use crate::dices::Dices;
use crate::game_box::{valid_game, IntermediateResult};
use crate::play_worker::{game_fails, games_complete, is_thrown, throw_hand};
use crate::score_box::rules::{Hand, LookupError};
use crate::utils::{
    base10_to_base2, clear_hand, has_bit, is_cleared, lemma_fresh_mask, lemma_members_below,
    popcount,
};
use crate::weight_worker::{
    best_available_game_hand, is_weighted_choice, lemma_empty_mask, lemma_no_high_bit,
};

verus! {

/// What the reducer does to the lock that every producer takes once for
/// each finished batch.
#[derive(Clone, Copy, Debug, PartialEq, Eq, Structural)]
pub enum Throttle {
    /// Leave the lock as it is.
    Keep,
    /// Take the lock: the producers stall.
    Hold,
    /// Give the lock back: the producers go on.
    Release,
}

/// The reducer's view of how far the producers are ahead of it, and the
/// two marks by which it stalls them and lets them go.
#[derive(Clone, Copy, Debug, PartialEq, Eq)]
pub struct FlowControl {
    high_water: u64,
    low_water: u64,
    holding: bool,
}

/// How many batches are finished but not merged.
pub open spec fn backlog(produced: u64, consumed: u64) -> nat {
    if produced >= consumed {
        (produced - consumed) as nat
    } else {
        0
    }
}

impl FlowControl {
    /// The backlog from which the producers are stalled.
    pub closed spec fn high(&self) -> u64 {
        self.high_water
    }

    /// The backlog down to which they stay stalled.
    pub closed spec fn low(&self) -> u64 {
        self.low_water
    }

    /// Whether the reducer holds the lock.
    pub closed spec fn is_holding(&self) -> bool {
        self.holding
    }

    /// A flow control that holds no lock; none where the low mark is above
    /// the high one.
    pub fn new(high_water: u64, low_water: u64) -> (flow: Option<FlowControl>)
        ensures
            flow is Some <==> low_water <= high_water,
            flow matches Some(f) ==> f.high() == high_water && f.low() == low_water
                && !f.is_holding(),
    {
        if low_water <= high_water {
            Some(FlowControl { high_water, low_water, holding: false })
        } else {
            None
        }
    }

    /// Whether the reducer holds the lock.
    pub fn holding(&self) -> (holding: bool)
        ensures
            holding == self.is_holding(),
    {
        self.holding
    }

    /// Looks at the two counters after a merge: the lock is taken when the
    /// backlog has reached the high mark, and given back when it has shrunk
    /// to the low mark.
    pub fn observe(&mut self, produced: u64, consumed: u64) -> (action: Throttle)
        ensures
            final(self).high() == old(self).high(),
            final(self).low() == old(self).low(),
            action == if !old(self).is_holding() && backlog(produced, consumed) >= old(
                self,
            ).high() {
                Throttle::Hold
            } else if old(self).is_holding() && backlog(produced, consumed) <= old(self).low() {
                Throttle::Release
            } else {
                Throttle::Keep
            },
            final(self).is_holding() == match action {
                Throttle::Hold => true,
                Throttle::Release => false,
                Throttle::Keep => old(self).is_holding(),
            },
    {
        let gap = if produced >= consumed {
            produced - consumed
        } else {
            0
        };
        if !self.holding && gap >= self.high_water {
            self.holding = true;
            Throttle::Hold
        } else if self.holding && gap <= self.low_water {
            self.holding = false;
            Throttle::Release
        } else {
            Throttle::Keep
        }
    }
}

/// The rule by which a producer chooses the category to score.
#[derive(Clone, Copy, Debug, PartialEq, Eq)]
pub enum Selection {
    /// One of the open categories, picked by chance.
    ByChance,
    /// The open category with the highest score times weight; the weights
    /// are in thousandths.
    ByWeights([i32; 15]),
}

/// Whether the rule allows to score category `hand` for the dice, on a
/// card with the categories of the mask.
pub open spec fn is_selected(
    rule: Selection,
    hands: Seq<Box<Hand>>,
    thrown: Seq<u8>,
    available_hands: u16,
    hand: u8,
) -> bool {
    match rule {
        Selection::ByChance => true,
        Selection::ByWeights(weights) => is_weighted_choice(
            hands,
            weights@,
            thrown,
            available_hands,
            hand,
            hands[hand as int].hand_type().spec_score(thrown) as u16,
        ),
    }
}

/// What a game leaves for the reducer, whatever the dice showed: for each
/// category its score and the mask of the moment in which it was scored.
/// The categories were scored in some order, `order`, each for the dice of
/// a throw that the learned holds guided, `throws`, as the rule selects;
/// and each mask is the one before it without the category scored before.
pub open spec fn is_episode(
    results: Seq<IntermediateResult>,
    order: Seq<u8>,
    throws: Seq<Seq<u8>>,
    hands: Seq<Box<Hand>>,
    rule: Selection,
) -> bool {
    &&& results.len() == 15
    &&& order.len() == 15
    &&& throws.len() == 15
    &&& forall|k: int| 0 <= k < 15 ==> (#[trigger] order[k]) < 15
    &&& results[order[0] as int].available_hands == 32767
    &&& forall|k: int|
        0 <= k < 15 ==> {
            let r = results[(#[trigger] order[k]) as int];
            &&& has_bit(r.available_hands, order[k] as u16)
            &&& is_thrown(hands, r.available_hands, throws[k])
            &&& is_selected(rule, hands, throws[k], r.available_hands, order[k])
            &&& r.score == hands[order[k] as int].hand_type().spec_score(throws[k])
        }
    &&& forall|k: int|
        0 <= k < 14 ==> is_cleared(
            results[(#[trigger] order[k]) as int].available_hands,
            results[order[k + 1] as int].available_hands,
            order[k] as u16,
        )
}

/// Plays one game for the accumulator: fifteen turns, each thrown by the
/// learned hold policies; after each turn the selection rule names the
/// category that is scored. It fails only where the tables give no hold for
/// a throw that came.
pub fn play_episode(dices: &mut Dices, hands: &Vec<Box<Hand>>, rule: &Selection) -> (episode: Result<
    Vec<IntermediateResult>,
    LookupError,
>)
    requires
        hands@.len() >= 15,
    ensures
        match episode {
            Ok(results) => valid_game(results@) && exists|order: Seq<u8>, throws: Seq<Seq<u8>>| #[trigger]
                is_episode(results@, order, throws, hands@, *rule),
            Err(e) => e != LookupError::IllegalThrow && game_fails(hands@, e),
        },
        games_complete(hands@) ==> episode is Ok,
{
    let mut results: Vec<IntermediateResult> = Vec::new();
    let mut i: usize = 0;
    while i < 15
        invariant
            i <= 15,
            results@.len() == i,
            forall|k: int| 0 <= k < i ==> (#[trigger] results@[k]).score == 0,
        decreases 15 - i,
    {
        results.push(IntermediateResult::new());
        i += 1;
    }
    let mut available_hands: u16 = 32767;
    let ghost mut order: Seq<u8> = Seq::empty();
    let ghost mut throws: Seq<Seq<u8>> = Seq::empty();
    proof {
        lemma_fresh_mask();
    }
    while available_hands > 0
        invariant
            hands@.len() >= 15,
            available_hands <= 32767,
            results@.len() == 15,
            order.len() + popcount(available_hands) == 15,
            throws.len() == order.len(),
            forall|k: int|
                0 <= k < order.len() ==> {
                    let r = results@[(#[trigger] order[k]) as int];
                    &&& is_thrown(hands@, r.available_hands, throws[k])
                    &&& is_selected(*rule, hands@, throws[k], r.available_hands, order[k])
                    &&& r.score == hands@[order[k] as int].hand_type().spec_score(throws[k])
                },
            forall|k: int| 0 <= k < 15 ==> (#[trigger] results@[k]).score <= 50,
            forall|k: int| 0 <= k < order.len() ==> (#[trigger] order[k]) < 15,
            forall|k: int|
                0 <= k < order.len() ==> !has_bit(available_hands, (#[trigger] order[k]) as u16),
            forall|k: int|
                0 <= k < order.len() ==> has_bit(
                    results@[(#[trigger] order[k]) as int].available_hands,
                    order[k] as u16,
                ),
            order.len() > 0 ==> results@[order[0] as int].available_hands == 32767,
            order.len() == 0 ==> available_hands == 32767,
            forall|k: int|
                0 <= k < order.len() - 1 ==> is_cleared(
                    results@[(#[trigger] order[k]) as int].available_hands,
                    results@[order[k + 1] as int].available_hands,
                    order[k] as u16,
                ),
            order.len() > 0 ==> is_cleared(
                results@[order.last() as int].available_hands,
                available_hands,
                order.last() as u16,
            ),
        decreases available_hands,
    {
        proof {
            lemma_no_high_bit(available_hands);
            assert forall|pos: u16| pos < 16 && has_bit(available_hands, pos) implies pos
                < hands.len() by {}
        }
        let thrown = match throw_hand(dices, available_hands, hands) {
            Err(e) => {
                return Err(e);
            },
            Ok(t) => t,
        };
        let (hand, score): (u8, u16) = match rule {
            Selection::ByWeights(weights) => match best_available_game_hand(
                &thrown,
                available_hands,
                hands,
                weights,
            ) {
                Err(e) => {
                    return Err(e);
                },
                Ok(hs) => hs,
            },
            Selection::ByChance => {
                let members = base10_to_base2(available_hands, false);
                proof {
                    lemma_members_below(available_hands, 16, 0);
                }
                match dices.pick_index(members.len()) {
                    None => {
                        proof {
                            lemma_empty_mask(available_hands);
                            let pos = choose|pos: u16| pos < 16 && has_bit(available_hands, pos);
                            assert(members@.contains((pos + 0u8) as u8));
                        }
                        return Err(LookupError::NoBestHand);
                    },
                    Some(at) => {
                        let hand = members[at];
                        (hand, hands[hand as usize].score(&thrown) as u16)
                    },
                }
            },
        };
        let ghost before = results@;
        let ghost mask = available_hands;
        results[hand as usize] = IntermediateResult { available_hands, score: score as u64 };
        available_hands = clear_hand(available_hands, hand);
        proof {
            let longer = order.push(hand);
            let more = throws.push(thrown@);
            assert forall|k: int| 0 <= k < order.len() implies order[k] != hand by {
                assert(!has_bit(mask, order[k] as u16));
            }
            assert forall|k: int| 0 <= k < longer.len() implies {
                let r = results@[(#[trigger] longer[k]) as int];
                &&& is_thrown(hands@, r.available_hands, more[k])
                &&& is_selected(*rule, hands@, more[k], r.available_hands, longer[k])
                &&& r.score == hands@[longer[k] as int].hand_type().spec_score(more[k])
            } by {
                if k < order.len() {
                    assert(order[k] != hand);
                    assert(results@[order[k] as int] == before[order[k] as int]);
                    assert(more[k] == throws[k]);
                }
            }
            throws = more;
            assert forall|k: int| 0 <= k < longer.len() implies has_bit(
                results@[(#[trigger] longer[k]) as int].available_hands,
                longer[k] as u16,
            ) && !has_bit(available_hands, longer[k] as u16) by {
                if k < order.len() {
                    assert(order[k] != hand);
                    assert(results@[order[k] as int] == before[order[k] as int]);
                    assert(!has_bit(mask, order[k] as u16));
                }
            }
            assert forall|k: int| 0 <= k < longer.len() - 1 implies is_cleared(
                results@[(#[trigger] longer[k]) as int].available_hands,
                results@[longer[k + 1] as int].available_hands,
                longer[k] as u16,
            ) by {
                assert(order[k] != hand);
                assert(results@[order[k] as int] == before[order[k] as int]);
                if k < order.len() - 1 {
                    assert(order[k + 1] != hand);
                    assert(results@[order[k + 1] as int] == before[order[k + 1] as int]);
                }
            }
            order = longer;
        }
    }
    proof {
        lemma_fresh_mask();
        assert(order.len() == 15);
        assert(is_episode(results@, order, throws, hands@, *rule));
    }
    Ok(results)
}

} // verus!
