use yatzy::dices::{Dices, Throw};
use yatzy::distr_worker::{
    learn_hand_distributions, load_hand_distributions, play_hand,
};
use yatzy::game_box::MCGame;
use yatzy::game_worker::{
    best_available_game_hand, best_available_game_hand_from_tree, candidate_keys,
    hand_score_to_key, key_to_hand_score, mc_play, play_lap, BatchStep, NodeTally, TreeChoice,
};
use yatzy::hand_worker::{learn_hands, learn_plan, load_hands, LearnMode};
use yatzy::score_box::rules::{
    DistrRecord, Hand, HandDistribution, HandType, HoldEntry, LookupError,
};
use yatzy::score_box::HoldChoice;
use yatzy::table::{encode_table, TableError};
use yatzy::utils::{base10_to_base7, base7_to_base10};

fn all_throw_codes() -> Vec<u16> {
    let mut codes = Vec::new();
    for a in 1..=6u8 {
        for b in a..=6u8 {
            for c in b..=6u8 {
                for d in c..=6u8 {
                    for e in d..=6u8 {
                        codes.push(base7_to_base10(&vec![a, b, c, d, e]));
                    }
                }
            }
        }
    }
    codes
}

/// A policy that keeps every six and throws the other dice again.
fn keep_sixes(hand_type: HandType) -> Hand {
    let mut hand = Hand::new(hand_type);
    for code in all_throw_codes() {
        let dice = base10_to_base7(code);
        let sixes: Vec<u8> = dice.iter().copied().filter(|d| *d == 6).collect();
        let choice = HoldChoice {
            hold_len: sixes.len() as u8,
            hold: base7_to_base10(&sixes),
            score: 1_000_000,
        };
        hand.optimal_holds_mut().insert(Throw::First, code, choice);
        hand.optimal_holds_mut().insert(Throw::Second, code, choice);
    }
    hand
}

fn all_hands() -> Vec<Box<Hand>> {
    (0..15).map(|id| Box::new(keep_sixes(HandType::from_id(id).unwrap()))).collect()
}

#[test]
fn plan_of_a_learning_run() {
    assert_eq!(learn_plan(None, false), [LearnMode::Learn; 15]);
    assert_eq!(learn_plan(None, true), [LearnMode::Debug; 15]);
    let mut one = [LearnMode::Skip; 15];
    one[7] = LearnMode::Learn;
    assert_eq!(learn_plan(Some(7), false), one);
    one[7] = LearnMode::Skip;
    one[14] = LearnMode::Debug;
    assert_eq!(learn_plan(Some(14), true), one);
}

#[test]
fn a_hand_is_learned_from_random_turns() {
    let plan = learn_plan(Some(6), false);
    assert!(yatzy::hand_worker::run(HandType::Ones, 10, &plan).is_none());
    let learned = yatzy::hand_worker::run(HandType::OnePair, 3000, &plan).unwrap();
    assert_eq!(learned.hand.hand(), HandType::OnePair);
    let entries = learned.hand.save_optimal_holds();
    assert!(!entries.is_empty());
    for e in &entries {
        assert!(e.choice.hold_len <= 2);
        let stage = if e.throw == 0 { Throw::First } else { Throw::Second };
        let tally = learned.mc.get(stage, e.thrown, e.choice.hold).unwrap();
        assert_eq!(tally.hold_len, e.choice.hold_len);
        assert_eq!(e.choice.score, tally.value * 1_000_000 / tally.hits);
        for (thrown, hold, other) in learned.mc.entries(stage) {
            if thrown == e.thrown && other.hold_len <= 2 {
                assert!(other.value * 1_000_000 / other.hits <= e.choice.score);
                assert!(hold != e.choice.hold || other == tally);
            }
        }
    }
    let hits: u64 = learned.mc.entries(Throw::First).iter().map(|e| e.2.hits).sum();
    assert_eq!(hits, 3000);
    let none = yatzy::hand_worker::run(HandType::OnePair, 0, &plan).unwrap();
    assert_eq!(none.hand.save_optimal_holds().len(), 0);
    let negative = yatzy::hand_worker::run(HandType::OnePair, -5, &plan).unwrap();
    assert_eq!(negative.mc.entries(Throw::First).len(), 0);
}

#[test]
fn hands_are_learned_by_the_selector() {
    let one = learn_hands(200, Some(12), true);
    assert_eq!(one.len(), 1);
    assert_eq!(one[0].hand.hand(), HandType::FullHouse);
    let all = learn_hands(50, None, false);
    assert_eq!(all.len(), 15);
    for (i, l) in all.iter().enumerate() {
        assert_eq!(l.hand.id(), i);
        let min = l.hand.min_holds();
        assert!(l.hand.save_optimal_holds().iter().all(|e| e.choice.hold_len <= min));
    }
}

fn table_of(n: u16) -> Vec<HoldEntry> {
    (0..n)
        .map(|i| HoldEntry { throw: (i % 2) as u8, thrown: i, choice: HoldChoice { hold_len: 0, hold: 0, score: i as u64 } })
        .collect()
}

#[test]
fn hands_are_loaded_in_card_order() {
    let tables: Vec<Result<Option<Vec<HoldEntry>>, TableError>> =
        (0..15).map(|i| Ok(Some(table_of(i)))).collect();
    for fail in [true, false] {
        let hands = load_hands(&tables, fail).unwrap();
        assert_eq!(hands.len(), 15);
        for (i, hand) in hands.iter().enumerate() {
            assert_eq!(hand.id(), i);
            assert_eq!(hand.save_optimal_holds().len(), i);
        }
    }
}

#[test]
fn hands_that_cannot_be_loaded() {
    let mut tables: Vec<Result<Option<Vec<HoldEntry>>, TableError>> =
        (0..15).map(|i| Ok(Some(table_of(i)))).collect();
    tables[3] = Err(TableError::Unreadable);
    tables[9] = Err(TableError::ShortRecord);
    tables[11] = Ok(Some(vec![HoldEntry { throw: 7, thrown: 0, choice: HoldChoice { hold_len: 0, hold: 0, score: 0 } }]));
    assert_eq!(load_hands(&tables, true).err(), Some(TableError::BadStage));
    tables[11] = Ok(Some(vec![]));
    assert_eq!(load_hands(&tables, true).err(), Some(TableError::ShortRecord));
    tables[9] = Ok(Some(vec![]));
    assert_eq!(load_hands(&tables, true).err(), Some(TableError::Unreadable));
    tables[9] = Err(TableError::ShortHeader);
    let hands = load_hands(&tables, false).unwrap();
    let ids: Vec<usize> = hands.iter().map(|h| h.id()).collect();
    assert_eq!(ids, vec![0, 1, 2, 4, 5, 6, 7, 8, 10, 11, 12, 13, 14]);
    let none: Vec<Result<Option<Vec<HoldEntry>>, TableError>> =
        (0..15).map(|_| Err(TableError::Unreadable)).collect();
    assert_eq!(load_hands(&none, false).unwrap().len(), 0);
}

#[test]
fn hands_without_a_file_start_empty() {
    let mut tables: Vec<Result<Option<Vec<HoldEntry>>, TableError>> =
        (0..15).map(|_| Ok(None)).collect();
    tables[4] = Ok(Some(table_of(6)));
    for fail in [true, false] {
        let hands = load_hands(&tables, fail).unwrap();
        assert_eq!(hands.len(), 15);
        for (i, hand) in hands.iter().enumerate() {
            assert_eq!(hand.id(), i);
            assert_eq!(hand.save_optimal_holds().len(), if i == 4 { 6 } else { 0 });
        }
    }
    tables[7] = Err(TableError::ShortHeader);
    assert_eq!(load_hands(&tables, true).err(), Some(TableError::ShortHeader));
    assert_eq!(load_hands(&tables, false).unwrap().len(), 14);
}

#[test]
fn distributions_without_a_file_start_empty() {
    let mut files: Vec<Result<Option<Vec<u8>>, TableError>> = (0..15).map(|_| Ok(None)).collect();
    files[13] = Ok(Some(distribution_file(&vec![DistrRecord { score: 17, hits: 3 }])));
    for fail in [true, false] {
        let loaded = load_hand_distributions(&files, fail).unwrap();
        assert_eq!(loaded.len(), 15);
        for (i, d) in loaded.iter().enumerate() {
            assert_eq!(d.name(), HandType::from_id(i).unwrap().name());
            assert_eq!(d.n_hits(), if i == 13 { 3 } else { 0 });
            assert_eq!(d.len(), if i == 13 { 1 } else { 0 });
        }
    }
    files[2] = Ok(Some(vec![0; 3]));
    assert_eq!(load_hand_distributions(&files, true).err(), Some(TableError::ShortHeader));
    assert_eq!(load_hand_distributions(&files, false).unwrap().len(), 14);
}

#[test]
fn a_turn_by_the_policy() {
    let hand = keep_sixes(HandType::Sixes);
    let mut dices = Dices::new();
    let mut sum = 0u32;
    for _ in 0..2000 {
        let s = play_hand(&mut dices, &hand).unwrap();
        assert!(s <= 30 && s % 6 == 0);
        sum += s as u32;
    }
    // keeping sixes over three throws leaves 5 * 91/216 of them on average
    assert!(sum > 2000 * 10 && sum < 2000 * 15);
    assert_eq!(play_hand(&mut dices, &Hand::new(HandType::Sixes)), Err(LookupError::NoEntry));
    let mut bad = keep_sixes(HandType::Sixes);
    for code in all_throw_codes() {
        bad.optimal_holds_mut().insert(Throw::Second, code, HoldChoice { hold_len: 1, hold: 7, score: 0 });
    }
    assert_eq!(play_hand(&mut dices, &bad), Err(LookupError::BadHold));
}

#[test]
fn a_distribution_is_learned_by_the_policy() {
    let hand = keep_sixes(HandType::Sixes);
    let d = yatzy::distr_worker::run(&hand, 1500).unwrap();
    assert_eq!(d.n_hits(), 1500);
    assert_eq!(d.name(), "sixes");
    let records = d.records();
    assert_eq!(records.iter().map(|r| r.hits).sum::<u64>(), 1500);
    assert!(records.iter().all(|r| r.score % 6 == 0 && r.score <= 30 && r.hits > 0));
    assert!(records.len() >= 4);
    assert_eq!(yatzy::distr_worker::run(&hand, 0).unwrap().n_hits(), 0);
    assert_eq!(yatzy::distr_worker::run(&hand, -1).unwrap().n_hits(), 0);
    assert_eq!(yatzy::distr_worker::run(&Hand::new(HandType::Sixes), 5).err(), Some(LookupError::NoEntry));
    assert_eq!(yatzy::distr_worker::run(&Hand::new(HandType::Sixes), 0).unwrap().n_hits(), 0);
}

#[test]
fn distributions_are_learned_by_the_selector() {
    let mut hands = all_hands();
    hands.remove(4);
    hands[2] = Box::new(Hand::new(HandType::Threes));
    let all = learn_hand_distributions(20, &hands, None);
    assert_eq!(all.len(), 14);
    for (i, l) in all.iter().enumerate() {
        match l {
            Some(Ok(d)) => {
                assert!(i != 2);
                assert_eq!(d.name(), hands[i].name());
                assert_eq!(d.n_hits(), 20);
            }
            Some(Err(e)) => {
                assert_eq!(i, 2);
                assert_eq!(*e, LookupError::NoEntry);
            }
            None => panic!("category {} was skipped", i),
        }
    }
    let one = learn_hand_distributions(20, &hands, Some(5));
    assert_eq!(one.iter().filter(|l| l.is_some()).count(), 1);
    assert!(one[4].is_some());
    let missing = learn_hand_distributions(20, &hands, Some(4));
    assert!(missing.iter().all(|l| l.is_none()));
}

fn distribution_file(records: &Vec<DistrRecord>) -> Vec<u8> {
    encode_table(records)
}

#[test]
fn distributions_are_loaded_in_card_order() {
    let mut files: Vec<Result<Option<Vec<u8>>, TableError>> = (0..15u8)
        .map(|i| Ok(Some(distribution_file(&vec![DistrRecord { score: i, hits: i as u64 + 1 }]))))
        .collect();
    let loaded = load_hand_distributions(&files, true).unwrap();
    assert_eq!(loaded.len(), 15);
    for (i, d) in loaded.iter().enumerate() {
        assert_eq!(d.name(), HandType::from_id(i).unwrap().name());
        assert_eq!(d.hits_of(i as u8), i as u64 + 1);
        assert_eq!(d.n_hits(), i as u64 + 1);
    }
    files[0] = Err(TableError::Unreadable);
    files[6] = Ok(Some(vec![1, 0, 0, 0, 0, 0, 0, 0, 9]));
    files[14] = Ok(Some(distribution_file(&vec![
        DistrRecord { score: 0, hits: u64::MAX },
        DistrRecord { score: 50, hits: 1 },
    ])));
    assert_eq!(load_hand_distributions(&files, true).err(), Some(TableError::TooManyHits));
    let kept = load_hand_distributions(&files, false).unwrap();
    let names: Vec<String> = kept.iter().map(|d| d.name()).collect();
    assert_eq!(names.len(), 12);
    assert_eq!(names[0], "twos");
    assert_eq!(names[5], "two_pairs");
    assert_eq!(names[11], "chance");
    files[14] = Ok(Some(vec![0; 8]));
    assert_eq!(load_hand_distributions(&files, true).err(), Some(TableError::ShortRecord));
    files[6] = Ok(Some(vec![0; 8]));
    assert_eq!(load_hand_distributions(&files, true).err(), Some(TableError::Unreadable));
}

#[test]
fn batches_of_a_long_run() {
    assert_eq!(
        mc_play(250_000_000, 0),
        BatchStep { laps: 100_000_000, lap_offset: 0, remaining_laps: 150_000_000, next_offset: 100_000_000, pause: true }
    );
    assert_eq!(
        mc_play(150_000_000, 100_000_000),
        BatchStep { laps: 100_000_000, lap_offset: 100_000_000, remaining_laps: 50_000_000, next_offset: 200_000_000, pause: true }
    );
    assert_eq!(
        mc_play(50_000_000, 200_000_000),
        BatchStep { laps: 50_000_000, lap_offset: 200_000_000, remaining_laps: -50_000_000, next_offset: 300_000_000, pause: false }
    );
    assert_eq!(mc_play(100_000_000, 0).pause, false);
    assert_eq!(mc_play(100_000_001, 0).pause, true);
    assert_eq!(mc_play(100_000_001, 0).laps, 100_000_000);
    assert_eq!(mc_play(0, 5).laps, 0);
    assert_eq!(mc_play(-3, 5).laps, -3);
}

#[test]
fn keys_of_the_game_tree() {
    assert_eq!(hand_score_to_key(14, 50), 14 * 512 + 50);
    assert_eq!(hand_score_to_key(0, 0), 0);
    assert_eq!(hand_score_to_key(127, 511), 65535);
    assert_eq!(key_to_hand_score(14 * 512 + 50), (14, 50));
    assert_eq!(key_to_hand_score(65535), (127, 511));
    assert_eq!(yatzy::weight_worker::key_to_hand_score(7218), (14, 50));
    for hand in 0..15u16 {
        for score in 0..=50u16 {
            assert_eq!(key_to_hand_score(hand_score_to_key(hand, score)), (hand, score));
            assert_eq!(yatzy::weight_worker::key_to_hand_score(hand_score_to_key(hand, score)), (hand, score));
        }
    }
}

fn distributions(means: [u8; 15]) -> Vec<Box<HandDistribution>> {
    let mut all = Vec::new();
    for (id, mean) in means.into_iter().enumerate() {
        let mut d = HandDistribution::new(HandType::from_id(id).unwrap());
        d.update_scores(mean);
        all.push(Box::new(d));
    }
    all
}

#[test]
fn best_category_by_gain_over_the_mean() {
    let hands = all_hands();
    let throw = base7_to_base10(&vec![2, 2, 5, 5, 6]);
    // scores of the throw: 0 4 0 0 10 6 | 10 14 0 0 0 0 0 20 0
    let distr = distributions([2, 4, 6, 8, 10, 12, 8, 10, 9, 5, 3, 3, 6, 21, 2]);
    // gains: -2 0 -6 -8 0 -6 | 2 4 -9 -5 -3 -3 -6 -1 -2
    assert_eq!(best_available_game_hand(throw, 32767, &hands, &distr, 0), Ok(7));
    assert_eq!(best_available_game_hand(throw, 32767 & !(1 << 7), &hands, &distr, 0), Ok(6));
    assert_eq!(best_available_game_hand(throw, 0b11_0011, &hands, &distr, 0), Ok(1));
    assert_eq!(best_available_game_hand(throw, 0b10_0100, &hands, &distr, 0), Ok(2));
    assert_eq!(best_available_game_hand(throw, 1 << 14, &hands, &distr, 0), Ok(14));
    // a bonus of 42 points expects two points more of each face
    let bonus = 42_000_000;
    assert_eq!(best_available_game_hand(throw, 0b11_0011, &hands, &distr, bonus), Ok(0));
    assert_eq!(best_available_game_hand(throw, 0b1_0010, &hands, &distr, bonus), Ok(1));
    assert_eq!(best_available_game_hand(throw, 32767, &hands, &distr, bonus), Ok(7));
}

#[test]
fn best_category_by_gain_fails() {
    let hands = all_hands();
    let throw = base7_to_base10(&vec![2, 2, 5, 5, 6]);
    let mut distr = distributions([1; 15]);
    assert_eq!(best_available_game_hand(throw, 0, &hands, &distr, 0), Err(LookupError::NoBestHand));
    assert_eq!(best_available_game_hand(7, 0, &hands, &distr, 0), Err(LookupError::NoBestHand));
    assert_eq!(best_available_game_hand(7, 1, &hands, &distr, 0), Err(LookupError::BadHold));
    assert_eq!(best_available_game_hand(57, 1, &hands, &distr, 0), Err(LookupError::BadHold));
    assert_eq!(best_available_game_hand(16807, 1, &hands, &distr, 0), Err(LookupError::BadHold));
    distr[3] = Box::new(HandDistribution::new(HandType::Fours));
    assert_eq!(best_available_game_hand(throw, 32767, &hands, &distr, 0), Err(LookupError::NoEntry));
    assert_eq!(best_available_game_hand(throw, 0b111, &hands, &distr, 0), Ok(1));
}

#[test]
fn keys_of_a_throw() {
    let hands = all_hands();
    let throw = base7_to_base10(&vec![2, 2, 5, 5, 6]);
    assert_eq!(
        candidate_keys(throw, 0b101_0000_1100_0010, &hands),
        Ok(vec![(1, 512 + 4), (6, 6 * 512 + 10), (7, 7 * 512 + 14), (12, 12 * 512), (14, 14 * 512)])
    );
    assert_eq!(candidate_keys(throw, 0, &hands), Ok(vec![]));
    assert_eq!(candidate_keys(0, 0, &hands), Err(LookupError::BadHold));
    assert_eq!(candidate_keys(8, 32767, &hands), Err(LookupError::BadHold));
}

#[test]
fn choice_from_the_game_tree() {
    let candidates = vec![(1u8, 516u16), (6, 3082), (7, 3598)];
    let node = |hits, score| Some(NodeTally { hits, score });
    assert_eq!(
        best_available_game_hand_from_tree(&candidates, &vec![node(2, 300), node(4, 800), node(1, 200)]),
        TreeChoice::Hand(6)
    );
    assert_eq!(
        best_available_game_hand_from_tree(&candidates, &vec![node(2, 400), node(4, 800), node(1, 200)]),
        TreeChoice::Hand(1)
    );
    assert_eq!(
        best_available_game_hand_from_tree(&candidates, &vec![node(0, 0), node(0, 7), node(0, 0)]),
        TreeChoice::Hand(1)
    );
    assert_eq!(
        best_available_game_hand_from_tree(&candidates, &vec![node(0, 0), node(0, 7), node(3, 1)]),
        TreeChoice::Hand(7)
    );
    assert_eq!(
        best_available_game_hand_from_tree(&candidates, &vec![node(2, 300), None, node(1, 200)]),
        TreeChoice::Fallback
    );
    assert_eq!(
        best_available_game_hand_from_tree(&candidates, &vec![node(2, 300), node(1, 200), None]),
        TreeChoice::Fallback
    );
    assert_eq!(best_available_game_hand_from_tree(&vec![], &vec![]), TreeChoice::NoBest);
}

#[test]
fn a_simulated_game() {
    let mut game = MCGame::new();
    let mut distr = distributions([3, 6, 9, 12, 15, 18, 8, 10, 9, 5, 3, 3, 6, 21, 50]);
    distr[0].update_scores(4);
    let mut orders = std::collections::HashSet::new();
    for _ in 0..300 {
        let lap = play_lap(&mut game, &mut distr).unwrap();
        assert_eq!(lap.steps.len(), 15);
        let mut seen = [false; 15];
        let mut open: Vec<u32> = distr.iter().map(|d| d.len()).collect();
        let mut sum = 0u16;
        for step in &lap.steps {
            assert!(!seen[step.hand as usize]);
            seen[step.hand as usize] = true;
            assert!(distr[step.hand as usize].hits_of(step.score) > 0);
            assert_eq!(step.key, step.hand as u16 * 512 + step.score as u16);
            open[step.hand as usize] = 0;
            assert_eq!(step.n_scores, open.iter().sum::<u32>());
            sum += step.score as u16;
        }
        // the face-count categories bring 63 or 64, so that the bonus is paid
        assert!(sum == 178 || sum == 179);
        assert_eq!(lap.total, sum + 50);
        orders.insert(lap.steps.iter().map(|s| s.hand).collect::<Vec<u8>>());
    }
    assert!(orders.len() > 250);
    distr[5] = Box::new(HandDistribution::new(HandType::Sixes));
    distr[5].update_scores(12);
    let lap = play_lap(&mut game, &mut distr).unwrap();
    // now the face-count categories bring 57 or 58, and no bonus is paid
    assert!(lap.total == 172 || lap.total == 173);
    distr[9] = Box::new(HandDistribution::new(HandType::FourOfAKind));
    assert_eq!(play_lap(&mut game, &mut distr).err(), Some(LookupError::NoEntry));
}
