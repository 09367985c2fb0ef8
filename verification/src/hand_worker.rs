use vstd::prelude::*;
use crate::dices::{is_round, Dices, Throw};
use crate::score_box::{is_best_holds, pair_key, tally_after, HoldTally, MCHands};
use crate::score_box::HoldChoice;
use crate::score_box::rules::{holds_loaded, stage_number, stages_valid, Hand, HandType, HoldEntry};
use crate::table::TableError;

verus! {

/// What to do with a category in a learning run.
#[derive(Clone, Copy, Debug, PartialEq, Eq, Structural)]
pub enum LearnMode {
    Skip,
    Learn,
    Debug,
}

/// The most games that one learning run may play: the sums of their scores
/// then fit the counters.
pub const MAX_LAPS: i64 = 0x0100_0000_0000_0000;

/// What a learning run does with each category: with a selector, that
/// category alone is learned; without one, all are. `full` asks for the
/// learner's tallies besides.
pub open spec fn spec_learn_plan(rule: Option<usize>, full: bool) -> Seq<LearnMode> {
    let mode = if full {
        LearnMode::Debug
    } else {
        LearnMode::Learn
    };
    Seq::new(
        15,
        |i: int|
            match rule {
                Some(r) => if r == i {
                    mode
                } else {
                    LearnMode::Skip
                },
                None => mode,
            },
    )
}

/// The plan of a learning run, category by category.
pub fn learn_plan(rule: Option<usize>, full: bool) -> (plan: [LearnMode; 15])
    requires
        rule matches Some(r) ==> r < 15,
    ensures
        plan@ == spec_learn_plan(rule, full),
{
    let mode = if full {
        LearnMode::Debug
    } else {
        LearnMode::Learn
    };
    let mut learn: [LearnMode; 15] = [LearnMode::Skip;15];
    match rule {
        Some(r) => {
            learn[r] = mode;
        },
        None => {
            learn = [mode;15];
        },
    }
    assert(learn@ =~= spec_learn_plan(rule, full));
    learn
}

/// What a category's learner hands back: the category with its learned
/// hold policy, and the tallies that the policy was drawn from.
pub struct LearnedHand {
    pub hand: Hand,
    pub mc: MCHands,
}

/// One turn with holds chosen at random, as `play_round` hands it back.
pub struct Round {
    pub t1_code: u16,
    pub s1_code: u16,
    pub s1_len: u8,
    pub t2_code: u16,
    pub s2_code: u16,
    pub s2_len: u8,
    pub throw3: Seq<u8>,
}

/// The tallies of a stage after the first `n` rounds were counted for the
/// category.
pub open spec fn tallies_of(rounds: Seq<Round>, n: nat, hand_type: HandType, throw: Throw) -> Map<
    u32,
    HoldTally,
>
    decreases n,
{
    if n == 0 || n > rounds.len() || throw == Throw::Third {
        Map::empty()
    } else {
        let before = tallies_of(rounds, (n - 1) as nat, hand_type, throw);
        let round = rounds[n - 1];
        let (key, len) = if throw == Throw::First {
            (pair_key(round.t1_code, round.s1_code), round.s1_len)
        } else {
            (pair_key(round.t2_code, round.s2_code), round.s2_len)
        };
        before.insert(
            key,
            tally_after(
                if before.contains_key(key) {
                    Some(before[key])
                } else {
                    None
                },
                len,
                hand_type.spec_score(round.throw3) as u8,
            ),
        )
    }
}

/// The rounds are turns that the dice can bring.
pub open spec fn are_rounds(rounds: Seq<Round>) -> bool {
    forall|i: int|
        0 <= i < rounds.len() ==> is_round(
            (#[trigger] rounds[i]).t1_code,
            rounds[i].s1_code,
            rounds[i].s1_len,
            rounds[i].t2_code,
            rounds[i].s2_code,
            rounds[i].s2_len,
            rounds[i].throw3,
        )
}

/// The tallies are those of `laps` turns with holds chosen at random, each
/// counted with what the category pays for its last throw.
pub open spec fn counts_rounds(mc: &MCHands, hand_type: HandType, laps: i64) -> bool {
    exists|rounds: Seq<Round>|
        {
            &&& rounds.len() == if laps > 0 {
                laps as nat
            } else {
                0
            }
            &&& #[trigger] are_rounds(rounds)
            &&& mc.tallies(Throw::First) == tallies_of(rounds, rounds.len(), hand_type, Throw::First)
            &&& mc.tallies(Throw::Second) == tallies_of(
                rounds,
                rounds.len(),
                hand_type,
                Throw::Second,
            )
        }
}

/// The tallies count `laps` random turns, the policy is the best that the
/// tallies know, and no hold of it is larger than the category allows.
pub open spec fn is_learned(learned: &LearnedHand, hand_type: HandType, laps: i64) -> bool {
    &&& learned.hand.hand_type() == hand_type
    &&& learned.hand.feasible()
    &&& counts_rounds(&learned.mc, hand_type, laps)
    &&& is_best_holds(
        learned.mc.tallies(Throw::First),
        learned.hand.choices(Throw::First),
        hand_type.spec_min_holds() as u8,
    )
    &&& is_best_holds(
        learned.mc.tallies(Throw::Second),
        learned.hand.choices(Throw::Second),
        hand_type.spec_min_holds() as u8,
    )
}

proof fn lemma_tallies_of_same(one: Seq<Round>, other: Seq<Round>, n: nat, hand_type: HandType, throw: Throw)
    requires
        n <= one.len(),
        n <= other.len(),
        forall|i: int| 0 <= i < n ==> one[i] == other[i],
    ensures
        tallies_of(one, n, hand_type, throw) == tallies_of(other, n, hand_type, throw),
    decreases n,
{
    if n > 0 {
        lemma_tallies_of_same(one, other, (n - 1) as nat, hand_type, throw);
    }
}

/// Learns the hold policy of one category: plays `laps` turns with holds
/// chosen at random, counts for each throw and hold what the turn went on
/// to score, and takes the best hold after each throw. Nothing is learned
/// where the plan skips the category.
pub fn run(hand_type: HandType, laps: i64, learn: &[LearnMode; 15]) -> (learned: Option<LearnedHand>)
    requires
        laps <= MAX_LAPS,
    ensures
        learned is None <==> learn[hand_type.spec_id() as int] == LearnMode::Skip,
        learned matches Some(l) ==> is_learned(&l, hand_type, laps),
{
    if learn[hand_type.id()] == LearnMode::Skip {
        return None;
    }
    let mut dices = Dices::new();
    let mut hand = Hand::new(hand_type);
    let mut mc = MCHands::new();
    let ghost mut rounds: Seq<Round> = Seq::empty();
    proof {
        mc.lemma_last_stage();
    }

    let mut lap: i64 = 0;
    while lap < laps
        invariant
            0 <= lap,
            lap <= laps || lap == 0,
            laps <= MAX_LAPS,
            hand.hand_type() == hand_type,
            rounds.len() == lap,
            are_rounds(rounds),
            mc.tallies(Throw::First) == tallies_of(rounds, rounds.len(), hand_type, Throw::First),
            mc.tallies(Throw::Second) == tallies_of(
                rounds,
                rounds.len(),
                hand_type,
                Throw::Second,
            ),
            forall|throw: Throw, key: u32| #[trigger]
                mc.tallies(throw).contains_key(key) ==> mc.tallies(throw)[key].hits <= lap
                    && mc.tallies(throw)[key].value <= 255 * lap,
        decreases laps - lap,
    {
        let (t1_code, s1_code, s1_len, t2_code, s2_code, s2_len, throw3) = dices.play_round();
        let score = hand.score(&throw3);
        let ghost before = mc;
        mc.update_scores(Throw::First, t1_code, s1_code, s1_len, score);
        let ghost between = mc;
        mc.update_scores(Throw::Second, t2_code, s2_code, s2_len, score);
        proof {
            assert forall|throw: Throw, key: u32| #[trigger]
                mc.tallies(throw).contains_key(key) implies mc.tallies(throw)[key].hits <= lap + 1
                && mc.tallies(throw)[key].value <= 255 * (lap + 1) by {
                match throw {
                    Throw::First => {
                        assert(mc.tallies(throw) == between.tallies(throw));
                        if key != pair_key(t1_code, s1_code) {
                            assert(before.tallies(throw).contains_key(key));
                        }
                    },
                    Throw::Second => {
                        assert(between.tallies(throw) == before.tallies(throw));
                        if key != pair_key(t2_code, s2_code) {
                            assert(before.tallies(throw).contains_key(key));
                        }
                    },
                    Throw::Third => {
                        assert(mc.tallies(throw) == between.tallies(throw));
                        assert(between.tallies(throw) == before.tallies(throw));
                        assert(before.tallies(throw).contains_key(key));
                    },
                }
            }
            let round = Round { t1_code, s1_code, s1_len, t2_code, s2_code, s2_len, throw3: throw3@ };
            let longer = rounds.push(round);
            lemma_tallies_of_same(rounds, longer, rounds.len(), hand_type, Throw::First);
            lemma_tallies_of_same(rounds, longer, rounds.len(), hand_type, Throw::Second);
            assert(mc.tallies(Throw::First) == between.tallies(Throw::First));
            assert(between.tallies(Throw::Second) == before.tallies(Throw::Second));
            assert forall|i: int| 0 <= i < longer.len() implies is_round(
                (#[trigger] longer[i]).t1_code,
                longer[i].s1_code,
                longer[i].s1_len,
                longer[i].t2_code,
                longer[i].s2_code,
                longer[i].s2_len,
                longer[i].throw3,
            ) by {
                if i < rounds.len() {
                    assert(longer[i] == rounds[i]);
                }
            }
            rounds = longer;
        }
        lap += 1;
    }
    let min_holds = hand.min_holds();
    mc.update_optimal_holds(hand.optimal_holds_mut(), min_holds);
    proof {
        assert forall|throw: Throw, thrown: u16| #[trigger]
            hand.choices(throw).contains_key(thrown) implies hand.choices(throw)[thrown].hold_len
            <= hand.hand_type().spec_min_holds() by {
            match throw {
                Throw::First => {},
                Throw::Second => {},
                Throw::Third => {
                    hand.lemma_last_stage();
                },
            }
        }
        assert(counts_rounds(&mc, hand_type, laps));
    }
    Some(LearnedHand { hand, mc })
}

/// Learns the hold policies of the categories that the selector names,
/// one after the other: `rule` picks one category, or all where there is
/// none. The result holds the learned categories in score-card order.
pub fn learn_hands(laps: i64, rule: Option<usize>, full: bool) -> (learned: Vec<LearnedHand>)
    requires
        laps <= MAX_LAPS,
        rule matches Some(r) ==> r < 15,
    ensures
        learned@.len() == match rule {
            Some(_) => 1nat,
            None => 15nat,
        },
        forall|i: int|
            0 <= i < learned@.len() ==> {
                let id = match rule {
                    Some(r) => r as nat,
                    None => i as nat,
                };
                (#[trigger] learned@[i]).hand.hand_type().spec_id() == id && is_learned(
                    &learned@[i],
                    learned@[i].hand.hand_type(),
                    laps,
                )
            },
{
    let learn = learn_plan(rule, full);
    let mut learned: Vec<LearnedHand> = Vec::new();
    let mut id: usize = 0;
    while id < 15
        invariant
            id <= 15,
            laps <= MAX_LAPS,
            rule matches Some(r) ==> r < 15,
            learn@ == spec_learn_plan(rule, full),
            learned@.len() == match rule {
                Some(r) => if r < id {
                    1nat
                } else {
                    0nat
                },
                None => id as nat,
            },
            forall|i: int|
                0 <= i < learned@.len() ==> {
                    let want = match rule {
                        Some(r) => r as nat,
                        None => i as nat,
                    };
                    (#[trigger] learned@[i]).hand.hand_type().spec_id() == want && is_learned(
                        &learned@[i],
                        learned@[i].hand.hand_type(),
                        laps,
                    )
                },
        decreases 15 - id,
    {
        match HandType::from_id(id) {
            Some(hand_type) => {
                match run(hand_type, laps, &learn) {
                    Some(l) => {
                        learned.push(l);
                    },
                    None => {},
                }
            },
            None => {},
        }
        id += 1;
    }
    learned
}

/// Whether a category's table can be loaded: its file was read, or there
/// is none, and no entry names a stage without a hold decision.
pub open spec fn table_loads(table: Result<Option<Vec<HoldEntry>>, TableError>) -> Result<
    (),
    TableError,
> {
    match table {
        Err(e) => Err(e),
        Ok(None) => Ok(()),
        Ok(Some(entries)) => if stages_valid(entries@) {
            Ok(())
        } else {
            Err(TableError::BadStage)
        },
    }
}

/// The entries that a category's file gave; none where there is no file.
pub open spec fn table_entries(table: Result<Option<Vec<HoldEntry>>, TableError>) -> Seq<
    HoldEntry,
> {
    match table {
        Ok(Some(entries)) => entries@,
        _ => Seq::empty(),
    }
}

/// The categories from `from` on whose tables can be loaded, in score-card
/// order.
pub open spec fn loading_ids(
    tables: Seq<Result<Option<Vec<HoldEntry>>, TableError>>,
    from: nat,
) -> Seq<nat>
    decreases 15 - from,
{
    if from >= 15 || from >= tables.len() {
        Seq::empty()
    } else if table_loads(tables[from as int]) is Ok {
        seq![from] + loading_ids(tables, from + 1)
    } else {
        loading_ids(tables, from + 1)
    }
}

/// `hand` is category `id` with the hold tables that `table` holds: empty
/// ones where there is no file.
pub open spec fn is_loaded_hand(
    hand: &Hand,
    id: nat,
    table: Result<Option<Vec<HoldEntry>>, TableError>,
) -> bool {
    &&& hand.hand_type().spec_id() == id
    &&& table is Ok
    &&& forall|throw: Throw|
        hand.choices(throw) == holds_loaded(
            Map::<u16, HoldChoice>::empty(),
            table_entries(table),
            stage_number(throw),
        )
}

/// What `load_hands` hands back for the tables of the fifteen categories.
pub open spec fn hands_loaded(
    tables: Seq<Result<Option<Vec<HoldEntry>>, TableError>>,
    fail: bool,
    hands: Result<Vec<Box<Hand>>, TableError>,
) -> bool {
    match hands {
        Ok(v) => {
            &&& v@.len() == loading_ids(tables, 0).len()
            &&& forall|k: int|
                0 <= k < v@.len() ==> is_loaded_hand(
                    &*#[trigger] v@[k],
                    loading_ids(tables, 0)[k],
                    tables[loading_ids(tables, 0)[k] as int],
                )
            &&& fail ==> forall|i: int| 0 <= i < 15 ==> table_loads(#[trigger] tables[i]) is Ok
        },
        Err(e) => {
            &&& fail
            &&& exists|i: int|
                0 <= i < 15 && table_loads(#[trigger] tables[i]) == Err::<(), TableError>(e)
                    && forall|j: int| i < j < 15 ==> table_loads(#[trigger] tables[j]) is Ok
        },
    }
}

/// The categories with their hold tables as they were read, in score-card
/// order. Each of the fifteen places of `tables` holds what the category's
/// file gave: its entries, nothing where there is no such file, or why it
/// could not be read. A category without a file starts with empty tables:
/// that is no error. With `fail`, the first category from the end of the
/// score card whose table cannot be loaded makes the whole load fail, with
/// that reason; without it, such categories are left out.
pub fn load_hands(tables: &Vec<Result<Option<Vec<HoldEntry>>, TableError>>, fail: bool) -> (hands:
    Result<Vec<Box<Hand>>, TableError>)
    requires
        tables@.len() == 15,
    ensures
        hands_loaded(tables@, fail, hands),
{
    let mut res: Vec<Box<Hand>> = Vec::new();
    let mut index: usize = 15;
    while index > 0
        invariant
            index <= 15,
            tables@.len() == 15,
            res@.len() == loading_ids(tables@, index as nat).len(),
            forall|k: int|
                0 <= k < res@.len() ==> is_loaded_hand(
                    &*#[trigger] res@[k],
                    loading_ids(tables@, index as nat)[k],
                    tables@[loading_ids(tables@, index as nat)[k] as int],
                ),
            forall|k: int|
                0 <= k < loading_ids(tables@, index as nat).len() ==> index <= (
                #[trigger] loading_ids(tables@, index as nat)[k]) < 15,
            fail ==> forall|j: int| index <= j < 15 ==> table_loads(#[trigger] tables@[j]) is Ok,
        decreases index,
    {
        let id = index - 1;
        let ghost later = loading_ids(tables@, index as nat);
        let ghost before = res@;
        let hand_type = match HandType::from_id(id) {
            Some(t) => t,
            None => {
                assert(false);
                return Err(TableError::Unreadable);
            },
        };
        let mut hand = Hand::new(hand_type);
        let loaded = match &tables[id] {
            Err(e) => Err(*e),
            Ok(None) => hand.load_optimal_holds(None),
            Ok(Some(entries)) => hand.load_optimal_holds(Some(entries)),
        };
        match loaded {
            Err(e) => {
                assert(table_loads(tables@[id as int]) == Err::<(), TableError>(e));
                if fail {
                    return Err(e);
                }
                assert(loading_ids(tables@, id as nat) == later);
            },
            Ok(_) => {
                assert(table_loads(tables@[id as int]) is Ok);
                res.insert(0, Box::new(hand));
                proof {
                    let now = loading_ids(tables@, id as nat);
                    assert(now =~= seq![id as nat] + later);
                    assert forall|k: int| 0 <= k < res@.len() implies is_loaded_hand(
                        &*#[trigger] res@[k],
                        now[k],
                        tables@[now[k] as int],
                    ) by {
                        if k > 0 {
                            assert(res@[k] == before[k - 1]);
                            assert(now[k] == later[k - 1]);
                        }
                    }
                    assert forall|k: int| 0 <= k < now.len() implies id <= (#[trigger] now[k])
                        < 15 by {
                        if k > 0 {
                            assert(now[k] == later[k - 1]);
                        }
                    }
                }
            },
        }
        index -= 1;
    }
    Ok(res)
}

} // verus!
