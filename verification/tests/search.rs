use yatzy::dices::{Dices, Throw};
use yatzy::score_box::rules::{Hand, HandType, LookupError};
use yatzy::score_box::HoldChoice;
use yatzy::table::{encode_table, TableError};
use yatzy::utils::base7_to_base10;
use yatzy::weight_worker::{
    base10_to_tuning, batch_plan, best_available_game_hand, load_weights, merge_generation,
    play_game, run,
    save_weights, sort_by_score, split_duration, strategy_learn, super_run, trim_weights,
    RunResult, SearchError, WeightRecord,
};

fn hands_holding_everything() -> Vec<Box<Hand>> {
    let mut hands = Vec::new();
    for id in 0..15 {
        let mut hand = Hand::new(HandType::from_id(id).unwrap());
        for a in 1..=6u8 {
            for b in a..=6u8 {
                for c in b..=6u8 {
                    for d in c..=6u8 {
                        for e in d..=6u8 {
                            let dice = vec![a, b, c, d, e];
                            let code = base7_to_base10(&dice);
                            let score = hand.score(&dice) as u64 * 1_000_000 + 1;
                            let choice = HoldChoice { hold_len: 5, hold: code, score };
                            hand.optimal_holds_mut().insert(Throw::First, code, choice);
                            hand.optimal_holds_mut().insert(Throw::Second, code, choice);
                        }
                    }
                }
            }
        }
        hands.push(Box::new(hand));
    }
    hands
}

fn result(total_score: u32, laps: u32, weights: [i32; 15]) -> RunResult {
    RunResult::from(total_score, 0, laps, 50, weights)
}

#[test]
fn results_and_their_means() {
    let fresh = RunResult::new();
    assert_eq!(fresh.weights, [500; 15]);
    assert_eq!((fresh.total_score, fresh.total_bonus, fresh.laps, fresh.used_bonus, fresh.generation), (0, 0, 0, 0, 0));
    assert_eq!(fresh.avg_score(), 0);
    assert_eq!(fresh.true_avg_score(), 0);
    let r = RunResult::from(1500, 300, 10, 100, [7; 15]);
    assert_eq!(r.generation, 0);
    assert_eq!(r.weights, [7; 15]);
    assert_eq!(r.avg_score(), 180_000_000);
    // three bonuses were paid at 100; at 50 they are worth 150
    assert_eq!(r.true_avg_score(), 165_000_000);
    assert_eq!(RunResult::from(1500, 300, 10, 0, [7; 15]).true_avg_score(), 0);
    assert_eq!(RunResult::from(u32::MAX, u32::MAX, 1, 1, [0; 15]).avg_score(), 8589934590_000_000);
    assert_eq!(RunResult::from(1, 0, 3, 50, [0; 15]).avg_score(), 333_333);
}

#[test]
fn perturbations_from_candidate_numbers() {
    let mut into = [0; 15];
    base10_to_tuning(0, &mut into);
    assert_eq!(into, [0; 15]);
    base10_to_tuning(1, &mut into);
    assert_eq!(into, [0, 0, 0, 0, 0, 0, 0, 0, 0, 0, 0, 0, 0, 0, 100]);
    into = [0; 15];
    base10_to_tuning(2, &mut into);
    assert_eq!(into[14], -100);
    into = [0; 15];
    base10_to_tuning(3 + 2, &mut into);
    assert_eq!(&into[12..], &[0, 100, -100]);
    into = [0; 15];
    base10_to_tuning(14348906, &mut into);
    assert_eq!(into, [-100; 15]);
    into = [0; 15];
    base10_to_tuning(4782969, &mut into);
    assert_eq!(into[0], 100);
    assert_eq!(&into[1..], &[0; 14]);
}

#[test]
fn perturbations_keep_what_has_no_digit() {
    let mut into = [1, 2, 3, 4, 5, 6, 7, 8, 9, 10, 11, 12, 13, 14, 15];
    base10_to_tuning(9 + 1, &mut into);
    // three digits are written; the other twelve entries change ends
    assert_eq!(into, [15, 14, 13, 12, 11, 10, 9, 8, 7, 6, 5, 4, 100, 0, 100]);
}

#[test]
fn weights_are_rounded_to_tenths() {
    let mut w = [0i32; 15];
    w[0] = 149;
    w[1] = 150;
    w[2] = 151;
    w[3] = -149;
    w[4] = -150;
    w[5] = -151;
    w[6] = 49;
    w[7] = 50;
    w[8] = -50;
    w[9] = 500;
    w[10] = 2_000_000_000;
    w[11] = -2_000_000_000;
    w[12] = 1_999_999_950;
    w[13] = 99;
    w[14] = -1;
    assert_eq!(
        trim_weights(w),
        [100, 200, 200, -100, -200, -200, 0, 100, -100, 500, 2_000_000_000, -2_000_000_000, 2_000_000_000, 100, 0]
    );
}

#[test]
fn best_category_by_weighted_score() {
    let hands = hands_holding_everything();
    let throw = vec![2, 2, 5, 5, 6];
    // scores of the throw: 0 4 0 0 10 6 | 10 14 0 0 0 0 0 20 0
    let even = [500; 15];
    assert_eq!(best_available_game_hand(&throw, 32767, &hands, &even), Ok((13, 20)));
    assert_eq!(best_available_game_hand(&throw, 32767 & !(1 << 13), &hands, &even), Ok((7, 14)));
    assert_eq!(best_available_game_hand(&throw, 0b101_0000, &hands, &even), Ok((4, 10)));
    assert_eq!(best_available_game_hand(&throw, 0b1101, &hands, &even), Ok((0, 0)));
    assert_eq!(best_available_game_hand(&throw, 0, &hands, &even), Err(LookupError::NoBestHand));
    let mut w = [500; 15];
    w[13] = 300;
    w[1] = 2000;
    assert_eq!(best_available_game_hand(&throw, 32767, &hands, &w), Ok((1, 4)));
    w[7] = -100;
    w[1] = -100;
    w[13] = -100;
    assert_eq!(best_available_game_hand(&throw, 0b010_0000_1000_0010, &hands, &w), Ok((1, 4)));
    assert_eq!(best_available_game_hand(&throw, 0b010_0000_1000_0110, &hands, &w), Ok((2, 0)));
}

#[test]
fn games_by_the_weights() {
    let hands = hands_holding_everything();
    let mut dices = Dices::new();
    let r = run(200, &mut dices, &hands, [500; 15], 50).unwrap();
    assert_eq!(r.laps, 200);
    assert_eq!(r.weights, [500; 15]);
    assert_eq!(r.used_bonus, 50);
    assert_eq!(r.generation, 0);
    assert!(r.total_score > 200 * 50 && r.total_score <= 200 * 374);
    assert_eq!(r.total_bonus % 50, 0);
    assert!(r.total_bonus <= 200 * 50);
    let none = run(0, &mut dices, &hands, [1; 15], 7).unwrap();
    assert_eq!((none.total_score, none.total_bonus, none.laps, none.used_bonus), (0, 0, 0, 7));
    let mut empty = Vec::new();
    for id in 0..15 {
        empty.push(Box::new(Hand::new(HandType::from_id(id).unwrap())));
    }
    assert_eq!(run(1, &mut dices, &empty, [500; 15], 50).err(), Some(LookupError::NoEntry));
    assert!(run(0, &mut dices, &empty, [500; 15], 50).is_ok());
}

#[test]
fn batches_for_the_workers() {
    assert_eq!(batch_plan(15), Ok((27, 531441)));
    assert_eq!(batch_plan(0), Ok((1, 14348907)));
    assert_eq!(batch_plan(1), Ok((1, 14348907)));
    assert_eq!(batch_plan(2), Ok((3, 4782969)));
    assert_eq!(batch_plan(3), Ok((3, 4782969)));
    assert_eq!(batch_plan(4), Ok((9, 1594323)));
    assert_eq!(batch_plan(28), Ok((81, 177147)));
    assert_eq!(batch_plan(4782969), Ok((4782969, 3)));
    assert_eq!(batch_plan(4782970), Ok((14348907, 1)));
    assert_eq!(batch_plan(14348907), Ok((14348907, 1)));
    assert_eq!(batch_plan(14348908), Err(SearchError::NoFactors));
    assert_eq!(batch_plan(u32::MAX), Err(SearchError::NoFactors));
}

#[test]
fn ranking_by_mean_score() {
    let results = vec![
        result(100, 10, [1; 15]),
        result(300, 10, [2; 15]),
        result(0, 0, [3; 15]),
        result(200, 10, [4; 15]),
        result(30, 1, [5; 15]),
        result(1, 3, [6; 15]),
    ];
    let ranked = sort_by_score(&results);
    let order: Vec<i32> = ranked.iter().map(|r| r.weights[0]).collect();
    assert_eq!(order, vec![2, 5, 4, 1, 6, 3]);
    assert_eq!(sort_by_score(&vec![]), vec![]);
}

#[test]
fn a_generation_is_merged() {
    let mut population = vec![result(200, 10, [449; 15]), result(0, 0, [1; 15]), result(100, 10, [451; 15])];
    population[0].generation = 3;
    let winners = vec![result(300, 10, [-250; 15]), result(0, 0, [2; 15]), result(150, 10, [1000; 15])];
    merge_generation(&mut population, &winners, 9);
    let seen: Vec<(u32, i32, u32)> = population.iter().map(|r| (r.total_score, r.weights[7], r.generation)).collect();
    assert_eq!(seen, vec![(300, -300, 9), (200, 400, 3), (150, 1000, 9), (100, 500, 0)]);
    merge_generation(&mut population, &vec![], 10);
    assert_eq!(population.len(), 4);
    assert_eq!(population[0].generation, 9);
}

#[test]
fn the_population_keeps_the_best_thousand() {
    let mut population: Vec<RunResult> = (0..900).map(|i| result(i * 3, 1, [0; 15])).collect();
    let winners: Vec<RunResult> = (0..300).map(|i| RunResult::from(i * 10 + 1, 0, 1, 51, [0; 15])).collect();
    let mut all: Vec<u32> = population.iter().chain(winners.iter()).map(|r| r.total_score).collect();
    all.sort();
    all.reverse();
    all.truncate(1000);
    merge_generation(&mut population, &winners, 1);
    assert_eq!(population.len(), 1000);
    assert_eq!(population.iter().map(|r| r.total_score).collect::<Vec<u32>>(), all);
    assert!(population.iter().all(|r| (r.used_bonus == 51) == (r.generation == 1)));
}

#[test]
fn weight_record_bytes() {
    let mut weight_bits = [0u32; 15];
    weight_bits[0] = 0.5f32.to_bits();
    weight_bits[14] = 0x01020304;
    let r = WeightRecord { total_score: 1, total_bonus: 2, laps: 3, used_bonus: 50, generation: 0x0A0B0C0D, weight_bits };
    let file = save_weights(7, &vec![r]);
    assert_eq!(file.len(), 8 + 4 + 80);
    assert_eq!(&file[..12], &[1, 0, 0, 0, 0, 0, 0, 0, 7, 0, 0, 0]);
    assert_eq!(&file[12..32], &[1, 0, 0, 0, 2, 0, 0, 0, 3, 0, 0, 0, 50, 0, 0, 0, 0x0D, 0x0C, 0x0B, 0x0A]);
    assert_eq!(&file[32..36], &[0, 0, 0, 0x3F]);
    assert_eq!(&file[36..88], &[0; 52]);
    assert_eq!(&file[88..], &[4, 3, 2, 1]);
    assert_eq!(encode_table(&vec![r])[8..], file[12..]);
}

#[test]
fn weight_files_round_trip() {
    let records: Vec<WeightRecord> = (0..50u32)
        .map(|i| {
            let mut weight_bits = [0u32; 15];
            for k in 0..15 {
                weight_bits[k] = ((i * 15 + k as u32) as f32 / 10.0).to_bits();
            }
            WeightRecord { total_score: i, total_bonus: i * 2, laps: i + 1, used_bonus: 50, generation: i / 7, weight_bits }
        })
        .collect();
    let file = save_weights(12, &records);
    assert_eq!(load_weights(Some(&file)), Ok(Some((12, records))));
    assert_eq!(load_weights(Some(&save_weights(0, &vec![]))), Ok(Some((0, vec![]))));
    assert_eq!(load_weights(None), Ok(None));
}

#[test]
fn short_weight_files() {
    let file = save_weights(1, &vec![WeightRecord { total_score: 0, total_bonus: 0, laps: 0, used_bonus: 0, generation: 0, weight_bits: [0; 15] }]);
    for cut in 0..file.len() {
        let want = if cut < 12 { TableError::ShortHeader } else { TableError::ShortRecord };
        assert_eq!(load_weights(Some(&file[..cut].to_vec())), Err(want));
    }
}

#[test]
fn a_batch_is_scanned() {
    let hands = hands_holding_everything();
    let mut dices = Dices::new();
    // candidate 3 moves the last weight but one
    let r = super_run(&hands, &mut dices, 2, 300, 3, 1, [500; 15], 50).unwrap();
    assert_eq!(r.laps, 300);
    assert_eq!(r.used_bonus, 50);
    let mut moved = [500; 15];
    moved[13] = 600;
    assert_eq!(r.weights, moved);
    assert!(r.avg_score() > 50_000_000 && r.avg_score() < 424_000_000);
}

#[test]
fn an_empty_batch_plays_the_start_weights() {
    let hands = hands_holding_everything();
    let mut dices = Dices::new();
    let r = super_run(&hands, &mut dices, 1, 40, 5, 0, [100; 15], 0).unwrap();
    assert_eq!(r.weights, [500; 15]);
    assert_eq!(r.laps, 40);
    assert_eq!(r.total_bonus, 0);
    let some = super_run(&hands, &mut dices, 3, 40, 2, 3, [500; 15], 50).unwrap();
    let moved: Vec<i32> = some.weights[..12].to_vec();
    assert_eq!(moved, vec![500; 12]);
    let tail = [some.weights[12], some.weights[13], some.weights[14]];
    assert!([[500, 400, 500], [500, 400, 600], [500, 400, 400]].contains(&tail));
    let mut empty = Vec::new();
    for id in 0..15 {
        empty.push(Box::new(Hand::new(HandType::from_id(id).unwrap())));
    }
    assert_eq!(super_run(&empty, &mut dices, 1, 1, 0, 1, [500; 15], 50).err(), Some(LookupError::NoEntry));
}

#[test]
fn nothing_to_play_needs_no_tables() {
    let mut empty = Vec::new();
    for id in 0..15 {
        empty.push(Box::new(Hand::new(HandType::from_id(id).unwrap())));
    }
    let mut dices = Dices::new();
    let r = run(0, &mut dices, &empty, [700; 15], 50).unwrap();
    assert_eq!((r.laps, r.total_score, r.total_bonus), (0, 0, 0));
    assert_eq!(r.weights, [700; 15]);
    assert_eq!(run(1, &mut dices, &empty, [700; 15], 50).err(), Some(LookupError::NoEntry));
    let kept = super_run(&empty, &mut dices, 5, 0, 7, 0, [700; 15], 50).unwrap();
    assert_eq!(kept.laps, 0);
    assert_eq!(kept.weights, [500; 15]);
    assert_eq!(
        super_run(&empty, &mut dices, 5, 1, 7, 0, [700; 15], 50).err(),
        Some(LookupError::NoEntry)
    );
    assert_eq!(play_game(&mut dices, &empty, &[700; 15]).err(), Some(LookupError::NoEntry));
}

#[test]
fn a_generation_without_batches() {
    let hands = hands_holding_everything();
    let mut dices = Dices::new();
    let mut population = vec![RunResult::new()];
    assert_eq!(
        strategy_learn(&hands, &mut dices, &mut population, 1, 1, 1, 50, 15_000_000),
        Err(SearchError::NoFactors)
    );
    assert_eq!(population, vec![RunResult::new()]);
}

#[test]
fn time_spans() {
    assert_eq!(split_duration(0), (0, 0, 0, 0));
    assert_eq!(split_duration(59), (0, 0, 0, 59));
    assert_eq!(split_duration(3661), (0, 1, 1, 1));
    assert_eq!(split_duration(86400 * 2 + 3600 * 23 + 59 * 60 + 59), (2, 23, 59, 59));
    assert_eq!(split_duration(u64::MAX), (213503982334601, 7, 0, 15));
}

#[test]
fn one_game_by_the_weights() {
    let hands = hands_holding_everything();
    let mut dices = Dices::new();
    let mut best = 0;
    for _ in 0..300 {
        let (score, upper) = play_game(&mut dices, &hands, &[500; 15]).unwrap();
        assert!(upper <= score);
        assert!(upper <= 105);
        assert!(score <= 374);
        assert!(score >= 5);
        if score > best {
            best = score;
        }
    }
    assert!(best > 100);
    let mut empty = Vec::new();
    for id in 0..15 {
        empty.push(Box::new(Hand::new(HandType::from_id(id).unwrap())));
    }
    assert_eq!(play_game(&mut dices, &empty, &[500; 15]).err(), Some(LookupError::NoEntry));
}
