use yatzy::dices::{hold_from_code, sorted_dice, Dices, Throw};
use yatzy::score_box::rules::{
    best_available_hand, Hand, HandType, HoldEntry, LookupError,
};
use yatzy::score_box::{
    mean_micro, mean_micro_wide, HoldChoice, HoldTally, HoldUpdate, MCHands, OptimalHolds,
};
use yatzy::table::TableError;
use yatzy::utils::{base10_to_base7, base7_to_base10};

fn all_hand_types() -> Vec<HandType> {
    vec![
        HandType::Ones,
        HandType::Twos,
        HandType::Threes,
        HandType::Fours,
        HandType::Fives,
        HandType::Sixes,
        HandType::OnePair,
        HandType::TwoPairs,
        HandType::ThreeOfAKind,
        HandType::FourOfAKind,
        HandType::SmallStraight,
        HandType::LargeStraight,
        HandType::FullHouse,
        HandType::Chance,
        HandType::Yatzy,
    ]
}

fn all_throws() -> Vec<Vec<u8>> {
    let mut throws = Vec::new();
    for a in 1..=6u8 {
        for b in a..=6u8 {
            for c in b..=6u8 {
                for d in c..=6u8 {
                    for e in d..=6u8 {
                        throws.push(vec![a, b, c, d, e]);
                    }
                }
            }
        }
    }
    throws
}

#[test]
fn scores_of_the_pairs() {
    assert_eq!(HandType::OnePair.score(&vec![2, 2, 5, 5, 6]), 10);
    assert_eq!(HandType::TwoPairs.score(&vec![2, 2, 5, 5, 6]), 14);
    assert_eq!(HandType::OnePair.score(&vec![1, 2, 3, 4, 6]), 0);
    assert_eq!(HandType::OnePair.score(&vec![6, 6, 6, 6, 6]), 12);
    assert_eq!(HandType::TwoPairs.score(&vec![2, 2, 2, 2, 6]), 0);
    assert_eq!(HandType::TwoPairs.score(&vec![5, 5, 6, 6, 6]), 22);
    assert_eq!(HandType::TwoPairs.score(&vec![1, 1, 2, 3, 3]), 8);
}

#[test]
fn scores_of_full_house_and_straights() {
    assert_eq!(HandType::FullHouse.score(&vec![3, 3, 3, 6, 6]), 21);
    assert_eq!(HandType::FullHouse.score(&vec![3, 3, 6, 6, 6]), 24);
    assert_eq!(HandType::FullHouse.score(&vec![5, 5, 6, 6, 6]), 28);
    assert_eq!(HandType::FullHouse.score(&vec![3, 3, 3, 3, 6]), 0);
    assert_eq!(HandType::FullHouse.score(&vec![3, 3, 3, 3, 3]), 0);
    assert_eq!(HandType::FullHouse.score(&vec![1, 1, 2, 2, 3]), 0);
    assert_eq!(HandType::SmallStraight.score(&vec![1, 2, 3, 4, 5]), 15);
    assert_eq!(HandType::SmallStraight.score(&vec![1, 2, 2, 4, 5]), 0);
    assert_eq!(HandType::SmallStraight.score(&vec![2, 3, 4, 5, 6]), 0);
    assert_eq!(HandType::SmallStraight.score(&vec![5, 4, 3, 2, 1]), 15);
    assert_eq!(HandType::SmallStraight.score(&vec![3, 1, 5, 2, 4]), 15);
    assert_eq!(HandType::LargeStraight.score(&vec![6, 2, 5, 3, 4]), 20);
    assert_eq!(HandType::LargeStraight.score(&vec![2, 3, 4, 5, 5]), 0);
    assert_eq!(HandType::LargeStraight.score(&vec![2, 3, 4, 5, 6]), 20);
    assert_eq!(HandType::LargeStraight.score(&vec![1, 2, 3, 4, 5]), 0);
}

#[test]
fn scores_of_the_other_categories() {
    assert_eq!(HandType::Yatzy.score(&vec![6, 6, 6, 6, 6]), 50);
    assert_eq!(HandType::Yatzy.score(&vec![1, 1, 1, 1, 1]), 50);
    assert_eq!(HandType::Yatzy.score(&vec![1, 6, 6, 6, 6]), 0);
    assert_eq!(HandType::Chance.score(&vec![1, 2, 3, 4, 6]), 16);
    assert_eq!(HandType::Chance.score(&vec![6, 6, 6, 6, 6]), 30);
    assert_eq!(HandType::ThreeOfAKind.score(&vec![2, 4, 4, 4, 6]), 12);
    assert_eq!(HandType::ThreeOfAKind.score(&vec![2, 2, 4, 4, 6]), 0);
    assert_eq!(HandType::FourOfAKind.score(&vec![4, 4, 4, 4, 6]), 16);
    assert_eq!(HandType::FourOfAKind.score(&vec![6, 6, 6, 6, 6]), 24);
    assert_eq!(HandType::FourOfAKind.score(&vec![4, 4, 4, 6, 6]), 0);
    assert_eq!(HandType::Ones.score(&vec![1, 1, 2, 3, 1]), 3);
    assert_eq!(HandType::Twos.score(&vec![1, 2, 2, 3, 1]), 4);
    assert_eq!(HandType::Threes.score(&vec![3, 3, 3, 3, 3]), 15);
    assert_eq!(HandType::Fours.score(&vec![1, 2, 3, 5, 6]), 0);
    assert_eq!(HandType::Fives.score(&vec![5, 2, 3, 5, 6]), 10);
    assert_eq!(HandType::Sixes.score(&vec![6, 6, 6, 6, 6]), 30);
}

#[test]
fn no_score_is_above_the_highest() {
    for hand in all_hand_types() {
        let mut best = 0;
        for throw in all_throws() {
            let s = hand.score(&throw);
            assert!(s <= hand.max_score());
            if s > best {
                best = s;
            }
        }
        assert_eq!(best, hand.max_score());
    }
}

#[test]
fn category_tables() {
    let names = [
        "ones", "twos", "threes", "fours", "fives", "sixes", "one_pair", "two_pairs",
        "three_of_a_kind", "four_of_a_kind", "small_straight", "large_straight", "full_house",
        "chance", "yatzy",
    ];
    let max = [5, 10, 15, 20, 25, 30, 12, 22, 18, 24, 15, 20, 28, 30, 50];
    let min = [5, 5, 5, 5, 5, 5, 2, 4, 3, 4, 5, 5, 5, 5, 5];
    for (i, hand) in all_hand_types().into_iter().enumerate() {
        assert_eq!(hand.id(), i);
        assert_eq!(hand.name(), names[i]);
        assert_eq!(hand.max_score(), max[i]);
        assert_eq!(hand.min_holds(), min[i]);
        assert_eq!(HandType::from_id(i), Some(hand));
    }
    assert_eq!(HandType::from_id(15), None);
}

#[test]
fn means_in_millionths() {
    assert_eq!(mean_micro(7, 2), 3_500_000);
    assert_eq!(mean_micro(1, 3), 333_333);
    assert_eq!(mean_micro(0, 5), 0);
    assert_eq!(mean_micro(5, 0), 0);
    assert_eq!(mean_micro(50, 1), 50_000_000);
    assert_eq!(mean_micro(u64::MAX, 1), u64::MAX);
    assert_eq!(mean_micro_wide(1 << 70, 1 << 60), 1024_000_000);
}

#[test]
fn hold_tallies_add_up() {
    let mut mc = MCHands::new();
    assert_eq!(mc.get(Throw::First, 2867, 57), None);
    mc.update_scores(Throw::First, 2867, 57, 2, 10);
    mc.update_scores(Throw::First, 2867, 57, 2, 4);
    mc.update_scores(Throw::Second, 2867, 57, 2, 6);
    mc.update_scores(Throw::Third, 2867, 57, 2, 6);
    assert_eq!(mc.get(Throw::First, 2867, 57), Some(HoldTally { hold_len: 2, hits: 2, value: 14 }));
    assert_eq!(mc.get(Throw::Second, 2867, 57), Some(HoldTally { hold_len: 2, hits: 1, value: 6 }));
    assert_eq!(mc.get(Throw::Third, 2867, 57), None);
    assert_eq!(mc.get(Throw::First, 57, 2867), None);
    assert_eq!(mc.entries(Throw::First), vec![(2867, 57, HoldTally { hold_len: 2, hits: 2, value: 14 })]);
    assert_eq!(mc.entries(Throw::Third), vec![]);
}

#[test]
fn best_hold_is_the_highest_mean_within_the_threshold() {
    let mut mc = MCHands::new();
    // after throw 100: hold 1 (len 1) mean 4, hold 8 (len 2) mean 6, hold 57 (len 3) mean 9
    for s in [4u8, 4] {
        mc.update_scores(Throw::First, 100, 1, 1, s);
    }
    for s in [5u8, 7] {
        mc.update_scores(Throw::First, 100, 8, 2, s);
    }
    mc.update_scores(Throw::First, 100, 57, 3, 9);
    // after throw 200 only a hold that is too large
    mc.update_scores(Throw::First, 200, 400, 4, 12);
    mc.update_scores(Throw::Second, 300, 0, 0, 3);
    let mut holds = OptimalHolds::new();
    holds.insert(Throw::First, 999, HoldChoice { hold_len: 0, hold: 0, score: 1 });
    mc.update_optimal_holds(&mut holds, 2);
    assert_eq!(holds.get(Throw::First, 100), Some(HoldChoice { hold_len: 2, hold: 8, score: 6_000_000 }));
    assert_eq!(holds.get(Throw::First, 200), None);
    assert_eq!(holds.get(Throw::First, 999), None);
    assert_eq!(holds.get(Throw::Second, 300), Some(HoldChoice { hold_len: 0, hold: 0, score: 3_000_000 }));
    mc.update_optimal_holds(&mut holds, 5);
    assert_eq!(holds.get(Throw::First, 100), Some(HoldChoice { hold_len: 3, hold: 57, score: 9_000_000 }));
    assert_eq!(holds.get(Throw::First, 200), Some(HoldChoice { hold_len: 4, hold: 400, score: 12_000_000 }));
    assert_eq!(holds.entries(Throw::First).len(), 2);
    assert_eq!(holds.entries(Throw::Third).len(), 0);
    assert_eq!(holds.get(Throw::Third, 100), None);
}

#[test]
fn learned_holds_are_within_the_threshold() {
    let mut mc = MCHands::new();
    let mut dices = Dices::new();
    for _ in 0..5000 {
        let (t1, s1, l1, t2, s2, l2, throw3) = dices.play_round();
        let score = HandType::OnePair.score(&throw3);
        mc.update_scores(Throw::First, t1, s1, l1, score);
        mc.update_scores(Throw::Second, t2, s2, l2, score);
    }
    let mut hand = Hand::new(HandType::OnePair);
    let min_holds = hand.min_holds();
    mc.update_optimal_holds(hand.optimal_holds_mut(), min_holds);
    let entries = hand.save_optimal_holds();
    assert!(!entries.is_empty());
    for e in &entries {
        assert!(e.choice.hold_len <= 2);
        assert!(e.throw < 2);
        assert_eq!(base10_to_base7(e.choice.hold).len(), e.choice.hold_len as usize);
    }
}

#[test]
fn hold_tables_round_trip() {
    let mut hand = Hand::new(HandType::Chance);
    assert_eq!(hand.name(), "chance");
    assert_eq!(hand.id(), 13);
    assert_eq!(hand.min_holds(), 5);
    assert_eq!(hand.hand(), HandType::Chance);
    let entries = vec![
        HoldEntry { throw: 0, thrown: 2867, choice: HoldChoice { hold_len: 1, hold: 4, score: 17_500_000 } },
        HoldEntry { throw: 1, thrown: 2867, choice: HoldChoice { hold_len: 2, hold: 25, score: 18_000_000 } },
        HoldEntry { throw: 0, thrown: 16806, choice: HoldChoice { hold_len: 5, hold: 16806, score: 30_000_000 } },
        HoldEntry { throw: 0, thrown: 2867, choice: HoldChoice { hold_len: 2, hold: 25, score: 19_000_000 } },
    ];
    assert_eq!(hand.load_optimal_holds(Some(&entries)), Ok(Some(())));
    let first = hand.optimal_holds(Throw::First).unwrap();
    assert_eq!(first.len(), 2);
    assert_eq!(first.get(&2867), Some(&HoldChoice { hold_len: 2, hold: 25, score: 19_000_000 }));
    assert_eq!(hand.optimal_holds(Throw::Second).unwrap().len(), 1);
    assert_eq!(hand.optimal_holds(Throw::Third).err(), Some(LookupError::IllegalThrow));
    let saved = hand.save_optimal_holds();
    assert_eq!(saved.len(), 3);
    let mut again = Hand::new(HandType::Chance);
    assert_eq!(again.load_optimal_holds(Some(&saved)), Ok(Some(())));
    assert_eq!(again.optimal_holds(Throw::First).unwrap(), hand.optimal_holds(Throw::First).unwrap());
    assert_eq!(again.optimal_holds(Throw::Second).unwrap(), hand.optimal_holds(Throw::Second).unwrap());
}

#[test]
fn a_hand_without_a_file_stays_as_it_is() {
    let mut hand = Hand::new(HandType::Yatzy);
    assert_eq!(hand.load_optimal_holds(None), Ok(None));
    assert_eq!(hand.save_optimal_holds().len(), 0);
    let entries = vec![
        HoldEntry { throw: 1, thrown: 400, choice: HoldChoice { hold_len: 3, hold: 57, score: 9_000_000 } },
    ];
    assert_eq!(hand.load_optimal_holds(Some(&entries)), Ok(Some(())));
    assert_eq!(hand.load_optimal_holds(None), Ok(None));
    assert_eq!(hand.save_optimal_holds(), entries);
    let mut again = Hand::new(HandType::Yatzy);
    assert_eq!(again.load_optimal_holds(None), Ok(None));
    assert_eq!(again.load_optimal_holds(Some(&hand.save_optimal_holds())), Ok(Some(())));
    assert_eq!(again.save_optimal_holds(), entries);
}

#[test]
fn hold_table_with_a_bad_stage_is_refused_whole() {
    let mut hand = Hand::new(HandType::Ones);
    let entries = vec![
        HoldEntry { throw: 0, thrown: 1, choice: HoldChoice { hold_len: 1, hold: 1, score: 1 } },
        HoldEntry { throw: 2, thrown: 2, choice: HoldChoice { hold_len: 1, hold: 1, score: 1 } },
    ];
    assert_eq!(hand.load_optimal_holds(Some(&entries)), Err(TableError::BadStage));
    assert_eq!(hand.optimal_holds(Throw::First).unwrap().len(), 0);
    assert_eq!(hand.save_optimal_holds().len(), 0);
}

#[test]
fn share_of_the_highest_score() {
    let mut hand = Hand::new(HandType::Yatzy);
    hand.optimal_holds_mut().insert(Throw::First, 7, HoldChoice { hold_len: 0, hold: 0, score: 25_000_000 });
    assert_eq!(hand.max_score_probability(Throw::First, 7), Ok(500_000));
    assert_eq!(hand.max_score_probability(Throw::First, 8), Err(LookupError::NoEntry));
    assert_eq!(hand.max_score_probability(Throw::Second, 7), Err(LookupError::NoEntry));
    assert_eq!(hand.max_score_probability(Throw::Third, 7), Err(LookupError::IllegalThrow));
    assert_eq!(hand.expected_score(Throw::First, 7), Ok(25_000_000));
    assert_eq!(hand.expected_score(Throw::First, 8), Err(LookupError::NoEntry));
    assert_eq!(hand.expected_score(Throw::Third, 7), Err(LookupError::IllegalThrow));
    hand.optimal_holds_mut().insert(Throw::First, 9, HoldChoice { hold_len: 0, hold: 0, score: 49 });
    assert_eq!(hand.max_score_probability(Throw::First, 9), Ok(0));
    assert_eq!(hand.score(&vec![2, 2, 2, 2, 2]), 50);
}

fn hands_with_scores(scores: [u64; 15]) -> Vec<Box<Hand>> {
    let mut hands = Vec::new();
    for (i, hand_type) in all_hand_types().into_iter().enumerate() {
        let mut hand = Hand::new(hand_type);
        hand.optimal_holds_mut().insert(Throw::First, 42, HoldChoice { hold_len: 0, hold: 0, score: scores[i] });
        hands.push(Box::new(hand));
    }
    hands
}

#[test]
fn best_category_is_the_first_with_the_largest_share() {
    // shares: ones 3/5, sixes 18/30, yatzy 30/50 are all 600000; chance 15/30
    let mut scores = [0u64; 15];
    scores[0] = 3_000_000;
    scores[5] = 18_000_000;
    scores[13] = 15_000_000;
    scores[14] = 30_000_000;
    let hands = hands_with_scores(scores);
    assert_eq!(best_available_hand(Throw::First, 42, 32767, &hands), Ok(0));
    assert_eq!(best_available_hand(Throw::First, 42, 32766, &hands), Ok(5));
    assert_eq!(best_available_hand(Throw::First, 42, 0b110_0000_0000_0000, &hands), Ok(14));
    assert_eq!(best_available_hand(Throw::First, 42, 0b010_0000_0000_0000, &hands), Ok(13));
    assert_eq!(best_available_hand(Throw::First, 42, 0b000_0000_0000_0110, &hands), Err(LookupError::NoBestHand));
    assert_eq!(best_available_hand(Throw::First, 42, 0, &hands), Err(LookupError::NoBestHand));
    assert_eq!(best_available_hand(Throw::First, 43, 32767, &hands), Err(LookupError::NoEntry));
    assert_eq!(best_available_hand(Throw::Second, 42, 32767, &hands), Err(LookupError::NoEntry));
    assert_eq!(best_available_hand(Throw::Third, 42, 32767, &hands), Err(LookupError::IllegalThrow));
    assert_eq!(best_available_hand(Throw::Third, 42, 0, &hands), Err(LookupError::IllegalThrow));
    // shares are compared exactly: 1/12 of a millionth is more than 4/50
    let mut small = [0u64; 15];
    small[6] = 1;
    small[14] = 4;
    let hands = hands_with_scores(small);
    assert_eq!(best_available_hand(Throw::First, 42, 32767, &hands), Ok(6));
    small[14] = 5;
    let hands = hands_with_scores(small);
    assert_eq!(best_available_hand(Throw::First, 42, 32767, &hands), Ok(14));
}

#[test]
fn sorting_dice() {
    assert_eq!(sorted_dice(&vec![5, 1, 6, 1, 3]), vec![1, 1, 3, 5, 6]);
    assert_eq!(sorted_dice(&vec![]), Vec::<u8>::new());
    assert_eq!(sorted_dice(&vec![9, 0, 255, 9]), vec![0, 9, 9, 255]);
}

#[test]
fn throws_are_five_sorted_faces() {
    let mut dices = Dices::new();
    let mut seen = [false; 7];
    for _ in 0..2000 {
        let throw = dices.throw_and_hold(None);
        assert_eq!(throw.len(), 5);
        for i in 0..5 {
            assert!(throw[i] >= 1 && throw[i] <= 6);
            seen[throw[i] as usize] = true;
            if i > 0 {
                assert!(throw[i - 1] <= throw[i]);
            }
        }
    }
    assert_eq!(seen, [false, true, true, true, true, true, true]);
}

#[test]
fn held_dice_stay_on_the_table() {
    let mut dices = Dices::new();
    for _ in 0..500 {
        let throw = dices.throw_and_hold(Some(vec![6, 6, 2]));
        assert_eq!(throw.len(), 5);
        assert!(throw.iter().filter(|d| **d == 6).count() >= 2);
        assert!(throw.iter().filter(|d| **d == 2).count() >= 1);
        assert!(throw.windows(2).all(|w| w[0] <= w[1]));
    }
    assert_eq!(dices.throw_and_hold(Some(vec![5, 4, 3, 2, 1])), vec![1, 2, 3, 4, 5]);
    assert_eq!(dices.throw_and_hold(Some(vec![3, 3, 1, 1, 2, 2])), vec![1, 1, 2, 2, 3, 3]);
    assert_eq!(dices.throw_and_hold(Some(vec![])).len(), 5);
}

#[test]
fn selected_holds_are_part_of_the_dice() {
    let mut dices = Dices::new();
    let mut sizes = [0usize; 6];
    for _ in 0..3000 {
        let throw = dices.throw_and_hold(None);
        let hold = dices.select(throw.clone());
        assert!(hold.len() <= 5);
        sizes[hold.len()] += 1;
        assert!(hold.windows(2).all(|w| w[0] <= w[1]));
        for face in 1..=6u8 {
            let in_hold = hold.iter().filter(|d| **d == face).count();
            let in_throw = throw.iter().filter(|d| **d == face).count();
            assert!(in_hold <= in_throw);
        }
    }
    assert!(sizes.iter().all(|n| *n > 0));
    assert_eq!(dices.select(vec![4, 4]).len() <= 2, true);
    assert_eq!(dices.select(vec![]), Vec::<u8>::new());
}

#[test]
fn rounds_are_coded_turns() {
    let mut dices = Dices::new();
    for _ in 0..2000 {
        let (t1, s1, l1, t2, s2, l2, throw3) = dices.play_round();
        let throw1 = base10_to_base7(t1);
        let hold1 = base10_to_base7(s1);
        let throw2 = base10_to_base7(t2);
        let hold2 = base10_to_base7(s2);
        assert_eq!(throw1.len(), 5);
        assert_eq!(throw2.len(), 5);
        assert_eq!(throw3.len(), 5);
        assert_eq!(hold1.len(), l1 as usize);
        assert_eq!(hold2.len(), l2 as usize);
        assert_eq!(base7_to_base10(&throw1), t1);
        for (hold, from, to) in [(&hold1, &throw1, &throw2), (&hold2, &throw2, &throw3)] {
            for face in 1..=6u8 {
                let held = hold.iter().filter(|d| **d == face).count();
                assert!(held <= from.iter().filter(|d| **d == face).count());
                assert!(held <= to.iter().filter(|d| **d == face).count());
            }
        }
        assert!(throw3.iter().all(|d| (1..=6).contains(d)));
        assert!(throw3.windows(2).all(|w| w[0] <= w[1]));
    }
}

#[test]
fn holds_from_codes() {
    assert_eq!(hold_from_code(0), Ok(vec![]));
    assert_eq!(hold_from_code(2867), Ok(vec![1, 1, 2, 3, 4]));
    assert_eq!(hold_from_code(6), Ok(vec![6]));
    assert_eq!(hold_from_code(7), Err(LookupError::BadHold));
    assert_eq!(hold_from_code(49), Err(LookupError::BadHold));
    assert_eq!(hold_from_code(16806), Ok(vec![6, 6, 6, 6, 6]));
    assert_eq!(hold_from_code(16807), Err(LookupError::BadHold));
    assert_eq!(hold_from_code(19608), Err(LookupError::BadHold));
    assert_eq!(hold_from_code(65535), Err(LookupError::BadHold));
}

fn tries_of_holds() -> Vec<HoldUpdate> {
    let mut tries = Vec::new();
    for k in 0..60u16 {
        let throw = match k % 3 {
            0 => Throw::First,
            1 => Throw::Second,
            _ => Throw::Third,
        };
        tries.push(HoldUpdate {
            throw,
            t_code: 2801 + k % 4,
            s_code: k % 5,
            s_len: (k % 5 > 0) as u8,
            score: (k * 7 % 31) as u8,
        });
    }
    tries
}

fn sums_of_stage(mc: &MCHands, throw: Throw) -> Vec<(u16, u16, u64, u64)> {
    let mut sums: Vec<(u16, u16, u64, u64)> =
        mc.entries(throw).iter().map(|e| (e.0, e.1, e.2.hits, e.2.value)).collect();
    sums.sort();
    sums
}

#[test]
fn tries_are_counted_all_at_once_in_any_order() {
    let tries = tries_of_holds();
    let mut one_by_one = MCHands::new();
    for u in tries.iter() {
        one_by_one.update_scores(u.throw, u.t_code, u.s_code, u.s_len, u.score);
    }
    let mut at_once = MCHands::new();
    at_once.update_all(&tries);
    let mut turned = tries.clone();
    turned.reverse();
    turned.swap(7, 41);
    let mut other = MCHands::new();
    other.update_all(&turned[..25].to_vec());
    other.update_all(&turned[25..].to_vec());
    other.update_all(&Vec::new());
    for throw in [Throw::First, Throw::Second, Throw::Third] {
        let want = sums_of_stage(&one_by_one, throw);
        assert_eq!(sums_of_stage(&at_once, throw), want);
        assert_eq!(sums_of_stage(&other, throw), want);
        let hits: u64 = want.iter().map(|s| s.2).sum();
        let value: u64 = want.iter().map(|s| s.3).sum();
        let counted = tries.iter().filter(|u| u.throw == throw && throw != Throw::Third);
        assert_eq!(hits, counted.clone().count() as u64);
        assert_eq!(value, counted.map(|u| u.score as u64).sum::<u64>());
    }
    assert_eq!(sums_of_stage(&at_once, Throw::Third), vec![]);
    // a try of one stage leaves the other as it is
    let mut mc = MCHands::new();
    mc.update_all(&vec![
        HoldUpdate { throw: Throw::First, t_code: 2801, s_code: 8, s_len: 2, score: 4 },
        HoldUpdate { throw: Throw::Third, t_code: 2801, s_code: 8, s_len: 2, score: 9 },
        HoldUpdate { throw: Throw::First, t_code: 2801, s_code: 8, s_len: 2, score: 6 },
    ]);
    assert_eq!(mc.get(Throw::First, 2801, 8), Some(HoldTally { hold_len: 2, hits: 2, value: 10 }));
    assert_eq!(mc.get(Throw::Second, 2801, 8), None);
    assert_eq!(mc.get(Throw::Third, 2801, 8), None);
}
