use yatzy::dices::{Dices, Throw};
use yatzy::game_box::{total_with_bonus, MCScore};
use yatzy::pipeline::{play_episode, FlowControl, Selection, Throttle};
use yatzy::score_box::rules::{Hand, HandType, LookupError};
use yatzy::score_box::HoldChoice;
use yatzy::utils::base7_to_base10;
use yatzy::weight_worker::{strategy_learn, RunResult};

fn hands_holding_everything() -> Vec<Box<Hand>> {
    let mut hands = Vec::new();
    for id in 0..15 {
        let mut hand = Hand::new(HandType::from_id(id).unwrap());
        for a in 1..=6u8 {
            for b in a..=6u8 {
                for c in b..=6u8 {
                    for d in c..=6u8 {
                        for e in d..=6u8 {
                            let dice = vec![a, b, c, d, e];
                            let code = base7_to_base10(&dice);
                            let score = hand.score(&dice) as u64 * 1_000_000 + 1;
                            let choice = HoldChoice { hold_len: 5, hold: code, score };
                            hand.optimal_holds_mut().insert(Throw::First, code, choice);
                            hand.optimal_holds_mut().insert(Throw::Second, code, choice);
                        }
                    }
                }
            }
        }
        hands.push(Box::new(hand));
    }
    hands
}

#[test]
fn producers_are_stalled_between_the_marks() {
    assert_eq!(FlowControl::new(10, 11), None);
    let mut flow = FlowControl::new(10, 3).unwrap();
    assert!(!flow.holding());
    assert_eq!(flow.observe(9, 0), Throttle::Keep);
    assert_eq!(flow.observe(109, 100), Throttle::Keep);
    assert_eq!(flow.observe(0, 100), Throttle::Keep);
    assert!(!flow.holding());
    assert_eq!(flow.observe(110, 100), Throttle::Hold);
    assert!(flow.holding());
    assert_eq!(flow.observe(200, 100), Throttle::Keep);
    assert_eq!(flow.observe(110, 106), Throttle::Keep);
    assert!(flow.holding());
    assert_eq!(flow.observe(110, 107), Throttle::Release);
    assert!(!flow.holding());
    assert_eq!(flow.observe(110, 107), Throttle::Keep);
    assert_eq!(flow.observe(117, 107), Throttle::Hold);
    assert_eq!(flow.observe(117, 200), Throttle::Release);
    let mut tight = FlowControl::new(0, 0).unwrap();
    assert_eq!(tight.observe(5, 5), Throttle::Hold);
    assert_eq!(tight.observe(5, 5), Throttle::Release);
    let mut never = FlowControl::new(u64::MAX, 0).unwrap();
    assert_eq!(never.observe(u64::MAX - 1, 0), Throttle::Keep);
    assert_eq!(never.observe(u64::MAX, 0), Throttle::Hold);
}

#[test]
fn an_episode_scores_each_category_once() {
    let hands = hands_holding_everything();
    let mut dices = Dices::new();
    let mut orders = std::collections::HashSet::new();
    for rule in [Selection::ByChance, Selection::ByWeights([500; 15])] {
        for _ in 0..100 {
            let results = play_episode(&mut dices, &hands, &rule).unwrap();
            assert_eq!(results.len(), 15);
            let mut by_count: Vec<(u32, usize)> = results
                .iter()
                .enumerate()
                .map(|(hand, r)| (r.available_hands.count_ones(), hand))
                .collect();
            by_count.sort();
            by_count.reverse();
            let mut mask: u16 = 32767;
            for (n, (count, hand)) in by_count.iter().enumerate() {
                assert_eq!(*count as usize, 15 - n);
                assert_eq!(results[*hand].available_hands, mask);
                assert!(mask & (1 << hand) != 0);
                assert!(results[*hand].score <= HandType::from_id(*hand).unwrap().max_score() as u64);
                mask &= !(1u16 << hand);
            }
            assert_eq!(mask, 0);
            assert!(total_with_bonus(&results) <= 374 + 50);
            orders.insert(by_count.iter().map(|c| c.1).collect::<Vec<usize>>());
        }
    }
    assert!(orders.len() > 100);
}

#[test]
fn episodes_feed_the_accumulator() {
    let hands = hands_holding_everything();
    let mut dices = Dices::new();
    let mut mc = MCScore::new();
    let mut flow = FlowControl::new(4, 1).unwrap();
    let mut produced = 0u64;
    for _ in 0..50 {
        let results = play_episode(&mut dices, &hands, &Selection::ByChance).unwrap();
        produced += 1;
        let consumed = mc.update_scores(&results);
        assert_eq!(consumed, produced);
        assert_eq!(flow.observe(produced, consumed), Throttle::Keep);
    }
    let stats = mc.statistics().unwrap();
    assert!(stats.records > 15 && stats.records <= 50 * 15);
    assert!(stats.max_hits <= 50);
    let mut table = std::collections::HashMap::new();
    mc.update_optimal_game(&mut table);
    assert_eq!(table.len(), stats.records);
}

#[test]
fn an_episode_fails_where_the_tables_do() {
    let mut dices = Dices::new();
    let mut empty = Vec::new();
    for id in 0..15 {
        empty.push(Box::new(Hand::new(HandType::from_id(id).unwrap())));
    }
    assert_eq!(play_episode(&mut dices, &empty, &Selection::ByChance).err(), Some(LookupError::NoEntry));
}

#[test]
fn a_generation_of_candidates_that_play_no_game() {
    let hands = hands_holding_everything();
    let mut dices = Dices::new();
    let mut population = vec![RunResult::from(100, 50, 1, 50, [449; 15]), RunResult::new()];
    assert_eq!(strategy_learn(&hands, &mut dices, &mut population, 4, 0, 0, 50, 4_000_000), Ok(4782969));
    // no winner played a game, so that only the played result stays
    assert_eq!(population, vec![RunResult::from(100, 50, 1, 50, [400; 15])]);
}
