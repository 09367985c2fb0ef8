use vstd::prelude::*;
use crate::dices::{is_rethrow, valid_throw, Dices, Throw};
use crate::hand_worker::{learn_plan, spec_learn_plan, LearnMode, MAX_LAPS};
use crate::score_box::rules::{
    distribution_after_load, hits_below, valid_dice, Hand, HandDistribution, HandType,
    LookupError,
};
use crate::table::TableError;
use crate::utils::{base7_to_base10, digits_value};

verus! {

/// A score that the category can pay for some throw.
pub open spec fn is_score_of(hand_type: HandType, score: u8) -> bool {
    exists|dice: Seq<u8>| #[trigger] valid_dice(dice) && score == hand_type.spec_score(dice)
}

/// The dice that the category's policy keeps after the throw `dice` at
/// stage `throw`, or the error for which it keeps none.
pub open spec fn policy_lookup(hand: &Hand, throw: Throw, dice: Seq<u8>) -> Result<
    Seq<u8>,
    LookupError,
> {
    hand.spec_hold(throw, digits_value(dice, 7) as u16)
}

/// There is a throw of five dice, at a stage with a hold decision, for
/// which the category's policy gives no hold but the error `e`.
pub open spec fn policy_fails(hand: &Hand, e: LookupError) -> bool {
    exists|stage: Throw, dice: Seq<u8>|
        stage != Throw::Third && valid_throw(dice) && #[trigger] policy_lookup(hand, stage, dice)
            == Err::<Seq<u8>, LookupError>(e)
}

/// The category's policy gives a hold for every throw of five dice at both
/// stages.
pub open spec fn policy_complete(hand: &Hand) -> bool {
    forall|stage: Throw, dice: Seq<u8>|
        stage != Throw::Third && valid_throw(dice) ==> (#[trigger] policy_lookup(
            hand,
            stage,
            dice,
        )) is Ok
}

/// The three throws of a turn in which the category's policy chose the
/// holds.
pub open spec fn is_policy_turn(hand: &Hand, throw1: Seq<u8>, throw2: Seq<u8>, throw3: Seq<u8>) -> bool {
    &&& valid_throw(throw1)
    &&& policy_lookup(hand, Throw::First, throw1) is Ok
    &&& valid_throw(throw2)
    &&& is_rethrow(throw2, policy_lookup(hand, Throw::First, throw1)->Ok_0)
    &&& policy_lookup(hand, Throw::Second, throw2) is Ok
    &&& valid_throw(throw3)
    &&& is_rethrow(throw3, policy_lookup(hand, Throw::Second, throw2)->Ok_0)
}

/// The throws of a turn by the category's policy that ends early with the
/// error `e`: the policy gives that error for the first throw; or it gives
/// a hold for the first throw, and that error for the second, which keeps
/// that hold.
pub open spec fn is_failed_policy_turn(hand: &Hand, throw1: Seq<u8>, throw2: Seq<u8>, e: LookupError) -> bool {
    let first = policy_lookup(hand, Throw::First, throw1);
    &&& valid_throw(throw1)
    &&& first == Err::<Seq<u8>, LookupError>(e) || {
        &&& first is Ok
        &&& valid_throw(throw2)
        &&& is_rethrow(throw2, first->Ok_0)
        &&& policy_lookup(hand, Throw::Second, throw2) == Err::<Seq<u8>, LookupError>(e)
    }
}

/// A turn by the category's policy can end early with the error `e`.
pub open spec fn policy_turn_fails(hand: &Hand, e: LookupError) -> bool {
    exists|throw1: Seq<u8>, throw2: Seq<u8>| #[trigger]
        is_failed_policy_turn(hand, throw1, throw2, e)
}

/// A score that a turn by the category's policy can end with.
pub open spec fn is_policy_score(hand: &Hand, score: u8) -> bool {
    exists|throw1: Seq<u8>, throw2: Seq<u8>, throw3: Seq<u8>| #[trigger]
        is_policy_turn(hand, throw1, throw2, throw3) && score == hand.hand_type().spec_score(
            throw3,
        )
}

/// Plays one turn by the category's learned hold policy and scores the
/// last throw. It fails only where the policy gives no hold for a throw
/// that came, with the error that it gives: the table has no entry for the
/// throw, or names something that is no hold.
pub fn play_hand(dices: &mut Dices, hand: &Hand) -> (score: Result<u8, LookupError>)
    ensures
        match score {
            Ok(s) => {
                &&& is_policy_score(hand, s)
                &&& is_score_of(hand.hand_type(), s)
                &&& s <= hand.hand_type().spec_max_score()
            },
            Err(e) => {
                &&& e == LookupError::NoEntry || e == LookupError::BadHold
                &&& policy_turn_fails(hand, e)
                &&& policy_fails(hand, e)
            },
        },
        policy_complete(hand) ==> score is Ok,
{
    let throw1 = dices.throw_and_hold(None);
    let t1_code = base7_to_base10(&throw1);
    let hold1 = match hand.hold_after(Throw::First, t1_code) {
        Err(e) => {
            assert(policy_lookup(hand, Throw::First, throw1@) == Err::<Seq<u8>, LookupError>(e));
            assert(is_failed_policy_turn(hand, throw1@, throw1@, e));
            return Err(e);
        },
        Ok(h) => h,
    };
    let throw2 = dices.throw_and_hold(Some(hold1));
    let t2_code = base7_to_base10(&throw2);
    let hold2 = match hand.hold_after(Throw::Second, t2_code) {
        Err(e) => {
            assert(policy_lookup(hand, Throw::Second, throw2@) == Err::<Seq<u8>, LookupError>(e));
            assert(is_failed_policy_turn(hand, throw1@, throw2@, e));
            return Err(e);
        },
        Ok(h) => h,
    };
    let throw3 = dices.throw_and_hold(Some(hold2));
    assert(valid_dice(throw3@));
    assert(is_policy_turn(hand, throw1@, throw2@, throw3@));
    Ok(hand.score(&throw3))
}

/// The hits of a histogram after one score was hit once more.
proof fn lemma_hits_below_insert(histogram: Map<u8, u64>, score: u8, below: nat)
    requires
        below <= 256,
        histogram.contains_key(score) ==> histogram[score] < u64::MAX,
    ensures
        hits_below(
            histogram.insert(
                score,
                if histogram.contains_key(score) {
                    (histogram[score] + 1) as u64
                } else {
                    1
                },
            ),
            below,
        ) == hits_below(histogram, below) + if score < below {
            1nat
        } else {
            0nat
        },
    decreases below,
{
    if below > 0 {
        lemma_hits_below_insert(histogram, score, (below - 1) as nat);
    }
}

/// A histogram without scores has no hits.
proof fn lemma_hits_below_empty(below: nat)
    ensures
        hits_below(Map::<u8, u64>::empty(), below) == 0,
    decreases below,
{
    if below > 0 {
        lemma_hits_below_empty((below - 1) as nat);
    }
}

/// A score's hits are among the hits of all scores.
proof fn lemma_hits_below_member(histogram: Map<u8, u64>, score: u8, below: nat)
    requires
        score < below <= 256,
        histogram.contains_key(score),
    ensures
        histogram[score] <= hits_below(histogram, below),
    decreases below,
{
    if score < below - 1 {
        lemma_hits_below_member(histogram, score, (below - 1) as nat);
    }
}

/// The histogram of the first `n` scores.
pub open spec fn histogram_of(scores: Seq<u8>, n: nat) -> Map<u8, u64>
    decreases n,
{
    if n == 0 || n > scores.len() {
        Map::empty()
    } else {
        let before = histogram_of(scores, (n - 1) as nat);
        before.insert(
            scores[n - 1],
            if before.contains_key(scores[n - 1]) {
                (before[scores[n - 1]] + 1) as u64
            } else {
                1
            },
        )
    }
}

/// Every score is one that a turn by the category's policy can end with.
pub open spec fn are_policy_scores(hand: &Hand, scores: Seq<u8>) -> bool {
    forall|i: int| 0 <= i < scores.len() ==> is_policy_score(hand, #[trigger] scores[i])
}

/// What a category's distribution learner hands back: the histogram of
/// the scores of `laps` turns by the category's policy.
pub open spec fn is_distribution(d: &HandDistribution, hand: &Hand, laps: i64) -> bool {
    &&& d.hand_type() == hand.hand_type()
    &&& d.hits() == if laps > 0 {
        laps as nat
    } else {
        0
    }
    &&& hits_below(d.histogram(), 256) == d.hits()
    &&& exists|scores: Seq<u8>|
        {
            &&& scores.len() == d.hits()
            &&& #[trigger] are_policy_scores(hand, scores)
            &&& d.histogram() == histogram_of(scores, scores.len())
        }
}

proof fn lemma_histogram_of_same(one: Seq<u8>, other: Seq<u8>, n: nat)
    requires
        n <= one.len(),
        n <= other.len(),
        forall|i: int| 0 <= i < n ==> one[i] == other[i],
    ensures
        histogram_of(one, n) == histogram_of(other, n),
    decreases n,
{
    if n > 0 {
        lemma_histogram_of_same(one, other, (n - 1) as nat);
    }
}

/// Learns the distribution of a category's final score: plays `laps`
/// turns by the category's learned hold policy and counts what each scored.
/// An error, and no distribution, where a turn cannot be played from the
/// tables.
pub fn run(hand: &Hand, laps: i64) -> (distribution: Result<HandDistribution, LookupError>)
    requires
        laps <= MAX_LAPS,
    ensures
        match distribution {
            Ok(d) => is_distribution(&d, hand, laps),
            Err(e) => (e == LookupError::NoEntry || e == LookupError::BadHold) && policy_fails(
                hand,
                e,
            ),
        },
        laps <= 0 || policy_complete(hand) ==> distribution is Ok,
{
    let mut dices = Dices::new();
    let mut hd = HandDistribution::new(hand.hand());
    let ghost mut scores: Seq<u8> = Seq::empty();
    proof {
        lemma_hits_below_empty(256);
    }
    let mut lap: i64 = 0;
    while lap < laps
        invariant
            0 <= lap,
            lap <= laps || lap == 0,
            laps <= MAX_LAPS,
            hd.hand_type() == hand.hand_type(),
            hd.hits() == lap,
            hits_below(hd.histogram(), 256) == hd.hits(),
            scores.len() == lap,
            are_policy_scores(hand, scores),
            hd.histogram() == histogram_of(scores, scores.len()),
        decreases laps - lap,
    {
        let score = match play_hand(&mut dices, hand) {
            Err(e) => {
                return Err(e);
            },
            Ok(s) => s,
        };
        proof {
            if hd.histogram().contains_key(score) {
                lemma_hits_below_member(hd.histogram(), score, 256);
            }
            lemma_hits_below_insert(hd.histogram(), score, 256);
            let longer = scores.push(score);
            lemma_histogram_of_same(scores, longer, scores.len());
            assert forall|i: int| 0 <= i < longer.len() implies is_policy_score(
                hand,
                #[trigger] longer[i],
            ) by {
                if i < scores.len() {
                    assert(longer[i] == scores[i]);
                }
            }
            scores = longer;
        }
        hd.update_scores(score);
        lap += 1;
    }
    Ok(hd)
}

/// Learns the score distributions of the categories that the selector
/// names, one after the other: `rule` picks one category, or all where
/// there is none. Place `i` of the result belongs to `hands[i]`: nothing
/// where the category is not selected, else its distribution or why it
/// could not be learned.
pub fn learn_hand_distributions(laps: i64, hands: &Vec<Box<Hand>>, rule: Option<usize>) -> (learned:
    Vec<Option<Result<HandDistribution, LookupError>>>)
    requires
        laps <= MAX_LAPS,
        rule matches Some(r) ==> r < 15,
    ensures
        learned@.len() == hands@.len(),
        forall|i: int|
            0 <= i < hands@.len() ==> match #[trigger] learned@[i] {
                None => rule matches Some(r) && r != hands@[i].hand_type().spec_id(),
                Some(Ok(d)) => is_distribution(&d, &*hands@[i], laps),
                Some(Err(e)) => (e == LookupError::NoEntry || e == LookupError::BadHold)
                    && policy_fails(&*hands@[i], e) && laps > 0,
            } && (learned@[i] is None <==> spec_learn_plan(rule, false)[hands@[i].hand_type().spec_id() as int]
                == LearnMode::Skip),
{
    let learn = learn_plan(rule, false);
    let mut learned: Vec<Option<Result<HandDistribution, LookupError>>> = Vec::new();
    let mut i: usize = 0;
    while i < hands.len()
        invariant
            i <= hands.len(),
            laps <= MAX_LAPS,
            learn@ == spec_learn_plan(rule, false),
            learned@.len() == i,
            forall|k: int|
                0 <= k < i ==> match #[trigger] learned@[k] {
                    None => rule matches Some(r) && r != hands@[k].hand_type().spec_id(),
                    Some(Ok(d)) => is_distribution(&d, &*hands@[k], laps),
                    Some(Err(e)) => (e == LookupError::NoEntry || e == LookupError::BadHold)
                        && policy_fails(&*hands@[k], e) && laps > 0,
                } && (learned@[k] is None <==> spec_learn_plan(
                    rule,
                    false,
                )[hands@[k].hand_type().spec_id() as int] == LearnMode::Skip),
        decreases hands.len() - i,
    {
        let id = hands[i].id();
        if learn[id] == LearnMode::Skip {
            learned.push(None);
        } else {
            let d = run(&hands[i], laps);
            learned.push(Some(d));
        }
        i += 1;
    }
    learned
}

/// Whether a category's distribution can be loaded: there is no file; or
/// its file was read, holds whole records, and their hits fit the counter.
pub open spec fn distribution_loads(file: Result<Option<Vec<u8>>, TableError>) -> Result<
    (),
    TableError,
> {
    match file {
        Err(e) => Err(e),
        Ok(None) => Ok(()),
        Ok(Some(bytes)) => match distribution_after_load(Map::empty(), bytes@) {
            Ok(_) => Ok(()),
            Err(e) => Err(e),
        },
    }
}

/// The categories from `from` on whose distributions can be loaded, in
/// score-card order.
pub open spec fn loading_ids(files: Seq<Result<Option<Vec<u8>>, TableError>>, from: nat) -> Seq<
    nat,
>
    decreases 15 - from,
{
    if from >= 15 || from >= files.len() {
        Seq::empty()
    } else if distribution_loads(files[from as int]) is Ok {
        seq![from] + loading_ids(files, from + 1)
    } else {
        loading_ids(files, from + 1)
    }
}

/// `d` is the distribution of category `id` as `file` holds it: an empty
/// one where there is no file.
pub open spec fn is_loaded_distribution(
    d: &HandDistribution,
    id: nat,
    file: Result<Option<Vec<u8>>, TableError>,
) -> bool {
    &&& d.hand_type().spec_id() == id
    &&& match file {
        Err(_) => false,
        Ok(None) => d.histogram() == Map::<u8, u64>::empty() && d.hits() == 0,
        Ok(Some(bytes)) => distribution_after_load(Map::empty(), bytes@) == Ok::<
            Map<u8, u64>,
            TableError,
        >(d.histogram()),
    }
}

/// What `load_hand_distributions` hands back for the files of the fifteen
/// categories.
pub open spec fn distributions_loaded(
    files: Seq<Result<Option<Vec<u8>>, TableError>>,
    fail: bool,
    loaded: Result<Vec<Box<HandDistribution>>, TableError>,
) -> bool {
    match loaded {
        Ok(v) => {
            &&& v@.len() == loading_ids(files, 0).len()
            &&& forall|k: int|
                0 <= k < v@.len() ==> is_loaded_distribution(
                    &*#[trigger] v@[k],
                    loading_ids(files, 0)[k],
                    files[loading_ids(files, 0)[k] as int],
                )
            &&& fail ==> forall|i: int| 0 <= i < 15 ==> distribution_loads(#[trigger] files[i]) is Ok
        },
        Err(e) => {
            &&& fail
            &&& exists|i: int|
                0 <= i < 15 && distribution_loads(#[trigger] files[i]) == Err::<(), TableError>(e)
                    && forall|j: int| i < j < 15 ==> distribution_loads(#[trigger] files[j]) is Ok
        },
    }
}

/// The categories' score distributions as they were read, in score-card
/// order. Each of the fifteen places of `files` holds what the category's
/// file gave: its bytes, nothing where there is no such file, or why it
/// could not be read. A category without a file starts with an empty
/// distribution: that is no error. With `fail`, the first category from the
/// end of the score card whose distribution cannot be loaded makes the
/// whole load fail, with that reason; without it, such categories are left
/// out.
pub fn load_hand_distributions(
    files: &Vec<Result<Option<Vec<u8>>, TableError>>,
    fail: bool,
) -> (loaded: Result<Vec<Box<HandDistribution>>, TableError>)
    requires
        files@.len() == 15,
    ensures
        distributions_loaded(files@, fail, loaded),
{
    let mut res: Vec<Box<HandDistribution>> = Vec::new();
    let mut index: usize = 15;
    while index > 0
        invariant
            index <= 15,
            files@.len() == 15,
            res@.len() == loading_ids(files@, index as nat).len(),
            forall|k: int|
                0 <= k < res@.len() ==> is_loaded_distribution(
                    &*#[trigger] res@[k],
                    loading_ids(files@, index as nat)[k],
                    files@[loading_ids(files@, index as nat)[k] as int],
                ),
            forall|k: int|
                0 <= k < loading_ids(files@, index as nat).len() ==> index <= (
                #[trigger] loading_ids(files@, index as nat)[k]) < 15,
            fail ==> forall|j: int| index <= j < 15 ==> distribution_loads(#[trigger] files@[j]) is Ok,
        decreases index,
    {
        let id = index - 1;
        let ghost later = loading_ids(files@, index as nat);
        let ghost before = res@;
        let hand_type = match HandType::from_id(id) {
            Some(t) => t,
            None => {
                assert(false);
                return Err(TableError::Unreadable);
            },
        };
        let mut hd = HandDistribution::new(hand_type);
        let loaded = match &files[id] {
            Err(e) => Err(*e),
            Ok(None) => hd.load_distribution(None),
            Ok(Some(bytes)) => hd.load_distribution(Some(bytes)),
        };
        match loaded {
            Err(e) => {
                assert(distribution_loads(files@[id as int]) == Err::<(), TableError>(e));
                if fail {
                    return Err(e);
                }
                assert(loading_ids(files@, id as nat) == later);
            },
            Ok(_) => {
                assert(distribution_loads(files@[id as int]) is Ok);
                res.insert(0, Box::new(hd));
                proof {
                    let now = loading_ids(files@, id as nat);
                    assert(now =~= seq![id as nat] + later);
                    assert forall|k: int| 0 <= k < res@.len() implies is_loaded_distribution(
                        &*#[trigger] res@[k],
                        now[k],
                        files@[now[k] as int],
                    ) by {
                        if k > 0 {
                            assert(res@[k] == before[k - 1]);
                            assert(now[k] == later[k - 1]);
                        }
                    }
                    assert forall|k: int| 0 <= k < now.len() implies id <= (#[trigger] now[k])
                        < 15 by {
                        if k > 0 {
                            assert(now[k] == later[k - 1]);
                        }
                    }
                }
            },
        }
        index -= 1;
    }
    Ok(res)
}

} // verus!
