use std::collections::HashMap;
use yatzy::game_box::rules::{GameEntry, GameRecord, GameRules};
use yatzy::game_box::{
    total_with_bonus, IntermediateResult, MCGame, MCScore, ScoreRecord, Tally,
};
use yatzy::score_box::rules::{DistrRecord, HandDistribution, HandType, LookupError};
use yatzy::table::{decode_table, encode_table, TableError};
use yatzy::utils::base10_to_base2;

fn game(scores: [u64; 15]) -> Vec<IntermediateResult> {
    let mut mask: u16 = 32767;
    let mut results = Vec::new();
    for i in 0..15 {
        results.push(IntermediateResult { available_hands: mask, score: scores[i] });
        mask &= !(1u16 << i);
    }
    results
}

#[test]
fn fresh_result() {
    let r = IntermediateResult::new();
    assert_eq!(r.available_hands, 0);
    assert_eq!(r.score, 0);
}

#[test]
fn bonus_from_sixty_three_on() {
    // upper sum 62: no bonus
    let below = game([2, 4, 6, 12, 15, 23, 0, 0, 0, 0, 0, 0, 0, 0, 0]);
    assert_eq!(total_with_bonus(&below), 62);
    // upper sum 63: bonus of 50
    let at = game([3, 4, 6, 12, 15, 23, 0, 0, 0, 0, 0, 0, 0, 0, 0]);
    assert_eq!(total_with_bonus(&at), 113);
    // lower categories do not count towards the bonus
    let lower = game([0, 0, 0, 0, 0, 0, 12, 22, 18, 24, 15, 20, 28, 30, 50]);
    assert_eq!(total_with_bonus(&lower), 219);
    let all = game([5, 10, 15, 20, 25, 30, 12, 22, 18, 24, 15, 20, 28, 30, 50]);
    assert_eq!(total_with_bonus(&all), 105 + 219 + 50);
    assert_eq!(total_with_bonus(&game([255; 15])), 3875);
    assert_eq!(total_with_bonus(&game([0; 15])), 0);
}

#[test]
fn a_game_is_counted_in_each_of_its_states() {
    let mut mc = MCScore::new();
    assert_eq!(mc.name(), "mcscore");
    let g = game([3, 4, 6, 12, 15, 23, 0, 0, 0, 0, 0, 0, 0, 0, 50]);
    assert_eq!(mc.update_scores(&g), 1);
    assert_eq!(mc.update_scores(&g), 2);
    assert_eq!(mc.get(3, 0, 32767), Some(Tally { hits: 2, value: 326 }));
    assert_eq!(mc.get(4, 1, 32766), Some(Tally { hits: 2, value: 326 }));
    assert_eq!(mc.get(50, 14, 1 << 14), Some(Tally { hits: 2, value: 326 }));
    assert_eq!(mc.get(3, 1, 32767), None);
    assert_eq!(mc.get(0, 0, 32767), None);
    let other = game([0; 15]);
    assert_eq!(mc.update_scores(&other), 3);
    assert_eq!(mc.get(0, 0, 32767), Some(Tally { hits: 1, value: 0 }));
    assert_eq!(mc.get(0, 6, 32767 & !63), Some(Tally { hits: 3, value: 326 }));
}

fn some_games() -> Vec<Vec<IntermediateResult>> {
    let mut games = Vec::new();
    for k in 0..40u64 {
        let mut scores = [0u64; 15];
        for i in 0..15 {
            scores[i] = (k * 7 + i as u64 * 3) % 4 * (i as u64 % 6 + 1);
        }
        games.push(game(scores));
    }
    games
}

fn tallies(mc: &MCScore) -> HashMap<(u8, u8, u16), Tally> {
    let file = mc.save_scores();
    let records = decode_table::<ScoreRecord>(&file).unwrap();
    let mut map = HashMap::new();
    for r in records {
        assert!(map.insert((r.score, r.hand, r.available_hands), Tally { hits: r.hits, value: r.value }).is_none());
    }
    map
}

#[test]
fn merge_order_does_not_matter() {
    let games = some_games();
    let mut forward = MCScore::new();
    for g in games.iter() {
        forward.update_scores(g);
    }
    let mut backward = MCScore::new();
    for g in games.iter().rev() {
        backward.update_scores(g);
    }
    let mut shuffled = MCScore::new();
    for k in 0..games.len() {
        shuffled.update_scores(&games[(k * 17 + 5) % games.len()]);
    }
    let want = tallies(&forward);
    assert!(want.len() > 40);
    assert_eq!(tallies(&backward), want);
    assert_eq!(tallies(&shuffled), want);
    let hits: u64 = want.values().map(|t| t.hits).sum();
    assert_eq!(hits, 40 * 15);
}

#[test]
fn games_are_counted_all_at_once_in_any_order() {
    let games = some_games();
    let mut one_by_one = MCScore::new();
    for g in games.iter() {
        one_by_one.update_scores(g);
    }
    let mut at_once = MCScore::new();
    assert_eq!(at_once.update_all(&games), 40);
    assert_eq!(tallies(&at_once), tallies(&one_by_one));
    let mut turned: Vec<Vec<IntermediateResult>> = games.clone();
    turned.reverse();
    turned.swap(3, 29);
    let mut other = MCScore::new();
    assert_eq!(other.update_all(&turned[..10].to_vec()), 10);
    assert_eq!(other.update_all(&turned[10..].to_vec()), 40);
    assert_eq!(other.update_all(&Vec::new()), 40);
    assert_eq!(tallies(&other), tallies(&one_by_one));
    // a state that two games pass through holds both
    let g = game([3, 4, 6, 12, 15, 23, 0, 0, 0, 0, 0, 0, 0, 0, 50]);
    let h = game([3, 0, 0, 0, 0, 0, 0, 0, 0, 0, 0, 0, 0, 0, 0]);
    let mut two = MCScore::new();
    assert_eq!(two.update_all(&vec![g.clone(), h.clone(), g]), 3);
    assert_eq!(two.get(3, 0, 32767), Some(Tally { hits: 3, value: 163 + 3 + 163 }));
    assert_eq!(two.get(4, 1, 32766), Some(Tally { hits: 2, value: 326 }));
    assert_eq!(two.get(0, 1, 32766), Some(Tally { hits: 1, value: 3 }));
}

#[test]
fn accumulator_file_round_trips() {
    let mut mc = MCScore::new();
    for g in some_games() {
        mc.update_scores(&g);
    }
    let file = mc.save_scores();
    assert_eq!((file.len() - 8) % 20, 0);
    assert_eq!(file.len(), 8 + 20 * tallies(&mc).len());
    let mut loaded = MCScore::new();
    assert_eq!(loaded.load_scores(Some(&file)), Ok(Some(())));
    assert_eq!(tallies(&loaded), tallies(&mc));
    assert_eq!(loaded.save_scores().len(), file.len());
}

#[test]
fn missing_accumulator_file_is_a_cold_start() {
    let mut mc = MCScore::new();
    assert_eq!(mc.load_scores(None), Ok(None));
    assert_eq!(tallies(&mc).len(), 0);
    mc.update_scores(&game([1; 15]));
    assert_eq!(mc.load_scores(None), Ok(None));
    let before = tallies(&mc);
    assert_eq!(before.len(), 15);
    let file = mc.save_scores();
    let mut again = MCScore::new();
    assert_eq!(again.load_scores(Some(&file)), Ok(Some(())));
    assert_eq!(tallies(&again), before);
}

#[test]
fn short_accumulator_file_is_an_error() {
    let mut mc = MCScore::new();
    mc.update_scores(&game([2; 15]));
    let file = mc.save_scores();
    let mut loaded = MCScore::new();
    assert_eq!(loaded.load_scores(Some(&file[..file.len() - 1].to_vec())), Err(TableError::ShortRecord));
    assert_eq!(tallies(&loaded).len(), 0);
    assert_eq!(loaded.load_scores(Some(&vec![1, 2, 3])), Err(TableError::ShortHeader));
    assert_eq!(loaded.load_scores(Some(&vec![])), Err(TableError::ShortHeader));
    assert_eq!(loaded.load_scores(Some(&vec![0; 8])), Ok(Some(())));
    assert_eq!(tallies(&loaded).len(), 0);
}

#[test]
fn score_record_bytes() {
    let r = ScoreRecord { score: 50, hand: 14, available_hands: 0x4000, hits: 3, value: 0x0102 };
    let file = encode_table(&vec![r]);
    assert_eq!(
        &file[8..],
        &[50, 14, 0x00, 0x40, 3, 0, 0, 0, 0, 0, 0, 0, 0x02, 0x01, 0, 0, 0, 0, 0, 0]
    );
    let mut mc = MCScore::new();
    assert_eq!(mc.load_scores(Some(&file)), Ok(Some(())));
    assert_eq!(mc.get(50, 14, 0x4000), Some(Tally { hits: 3, value: 0x0102 }));
}

#[test]
fn mean_totals_of_the_states() {
    let mut mc = MCScore::new();
    mc.update_scores(&game([3, 4, 6, 12, 15, 23, 0, 0, 0, 0, 0, 0, 0, 0, 50]));
    mc.update_scores(&game([3, 0, 0, 0, 0, 0, 0, 0, 0, 0, 0, 0, 0, 0, 0]));
    let mut table: HashMap<u32, u64> = HashMap::new();
    table.insert(7, 7);
    mc.update_optimal_game(&mut table);
    // the two games share the state of the ones and those of the eight
    // categories that scored nothing in both
    assert_eq!(table.len(), 21);
    assert_eq!(table.get(&7), None);
    // state (3, ones, fresh card): totals 163 and 3
    assert_eq!(table.get(&(3 << 24 | 32767)), Some(&83_000_000));
    assert_eq!(table.get(&(4 << 24 | 1 << 16 | 32766)), Some(&163_000_000));
    assert_eq!(table.get(&(1 << 16 | 32766)), Some(&3_000_000));
}

#[test]
fn statistics_of_the_tallies() {
    let mut mc = MCScore::new();
    assert_eq!(mc.statistics().err(), Some(LookupError::NoEntry));
    mc.update_scores(&game([3, 4, 6, 12, 15, 23, 0, 0, 0, 0, 0, 0, 0, 0, 50]));
    mc.update_scores(&game([3, 0, 0, 0, 0, 0, 0, 0, 0, 0, 0, 0, 0, 0, 0]));
    mc.update_scores(&game([3, 0, 0, 0, 0, 0, 0, 0, 0, 0, 0, 0, 0, 0, 0]));
    let s = mc.statistics().unwrap();
    // nine states are shared by all three games, six belong to the first
    // game alone and six to the other two
    assert_eq!(s.records, 21);
    assert_eq!(s.min_hits, 1);
    assert_eq!(s.max_hits, 3);
    assert_eq!(s.min_score_sum, 6);
    assert_eq!(s.max_score_sum, 169);
    assert_eq!(s.min_score, 3_000_000);
    assert_eq!(s.max_score, 163_000_000);
    let mut buckets = [0u64; 20];
    buckets[0] = 1966080 - 21;
    buckets[1] = 6;
    buckets[2] = 6;
    buckets[3] = 9;
    assert_eq!(s.buckets, buckets);
}

#[test]
fn a_game_closes_one_category_at_a_time() {
    let mut game = MCGame::new();
    for round in 0..3 {
        let mut seen = [false; 15];
        let mut mask = game.available_hands().unwrap();
        assert_eq!(mask, 32767);
        for left in (0..15u32).rev() {
            assert_eq!(mask.count_ones(), left + 1);
            let proposed = game.propose_hand().unwrap();
            assert!(mask & (1 << proposed) != 0);
            assert_eq!(game.available_hands(), Some(mask));
            let hand = game.pick_hand().unwrap();
            assert!(hand < 15);
            assert!(!seen[hand]);
            seen[hand] = true;
            let after = game.available_hands().unwrap_or(0);
            assert_eq!(after, mask & !(1u16 << hand));
            assert_eq!(after.count_ones(), left);
            assert_eq!(base10_to_base2(after, false).len() as u32, left);
            mask = after;
        }
        assert_eq!(game.available_hands(), None);
        assert_eq!(game.pick_hand(), None);
        assert_eq!(game.propose_hand(), None);
        assert_eq!(game.reset(), 15);
        assert!(round < 3);
    }
}

#[test]
fn picks_are_made_by_chance() {
    let mut firsts = [0usize; 15];
    let mut game = MCGame::new();
    for _ in 0..3000 {
        game.reset();
        firsts[game.pick_hand().unwrap()] += 1;
    }
    assert!(firsts.iter().all(|n| *n > 0));
}

#[test]
fn game_table_lookups() {
    let mut rules = GameRules::new();
    assert_eq!(rules.name(), "game");
    assert_eq!(rules.expected_total_score(3, 0, 32767), Err(LookupError::NoEntry));
    rules.load_optimal_games(&vec![
        GameEntry { score: 3, hand: 0, available_hands: 32767, expected: 150_000_000 },
        GameEntry { score: 255, hand: 255, available_hands: 65535, expected: 1 },
        GameEntry { score: 3, hand: 0, available_hands: 32767, expected: 160_000_000 },
    ]);
    assert_eq!(rules.expected_total_score(3, 0, 32767), Ok(160_000_000));
    assert_eq!(rules.expected_total_score(255, 255, 65535), Ok(1));
    assert_eq!(rules.expected_total_score(0, 3, 32767), Err(LookupError::NoEntry));
    let mut saved = rules.save_optimal_games();
    saved.sort_by_key(|e| e.score);
    assert_eq!(
        saved,
        vec![
            GameEntry { score: 3, hand: 0, available_hands: 32767, expected: 160_000_000 },
            GameEntry { score: 255, hand: 255, available_hands: 65535, expected: 1 },
        ]
    );
    let mut again = GameRules::new();
    again.load_optimal_games(&saved);
    assert_eq!(again.expected_total_score(3, 0, 32767), Ok(160_000_000));
    rules.optimal_games_mut().clear();
    assert_eq!(rules.save_optimal_games().len(), 0);
}

#[test]
fn game_table_is_filled_from_the_accumulator() {
    let mut mc = MCScore::new();
    mc.update_scores(&game([1; 15]));
    let mut rules = GameRules::new();
    mc.update_optimal_game(rules.optimal_games_mut());
    assert_eq!(rules.expected_total_score(1, 0, 32767), Ok(15_000_000));
    assert_eq!(rules.expected_total_score(1, 14, 1 << 14), Ok(15_000_000));
    assert_eq!(rules.save_optimal_games().len(), 15);
}

#[test]
fn game_record_bytes() {
    let r = GameRecord { score: 1, hand: 2, available_hands: 0x0304, expected_bits: 0x4059000000000000 };
    let file = encode_table(&vec![r]);
    assert_eq!(file.len(), 20);
    assert_eq!(&file[8..], &[1, 2, 4, 3, 0, 0, 0, 0, 0, 0, 0x59, 0x40]);
    assert_eq!(f64::from_bits(r.expected_bits), 100.0);
    assert_eq!(decode_table::<GameRecord>(&file), Ok(vec![r]));
}

#[test]
fn distribution_counts_scores() {
    let mut d = HandDistribution::new(HandType::OnePair);
    assert_eq!(d.name(), "one_pair");
    assert_eq!(d.len(), 0);
    assert_eq!(d.n_hits(), 0);
    assert_eq!(d.mean_score(None), Err(LookupError::NoEntry));
    assert_eq!(d.mean_score(Some(5)), Err(LookupError::NoEntry));
    assert_eq!(d.sample_from_distribution(), None);
    for s in [12u8, 12, 0, 4] {
        d.update_scores(s);
    }
    assert_eq!(d.len(), 3);
    assert_eq!(d.n_hits(), 4);
    assert_eq!(d.hits_of(12), 2);
    assert_eq!(d.hits_of(0), 1);
    assert_eq!(d.hits_of(5), 0);
    assert_eq!(d.mean_score(None), Ok(7_000_000));
    assert_eq!(d.mean_score(Some(2_380_952)), Ok(9_380_952));
    assert_eq!(d.mean_score(Some(u64::MAX)), Ok(u64::MAX));
    assert_eq!(
        d.records(),
        vec![
            DistrRecord { score: 0, hits: 1 },
            DistrRecord { score: 4, hits: 1 },
            DistrRecord { score: 12, hits: 2 },
        ]
    );
}

#[test]
fn samples_are_scores_that_were_hit() {
    let mut d = HandDistribution::new(HandType::Chance);
    assert_eq!(d.load_records(&vec![
        DistrRecord { score: 5, hits: 0 },
        DistrRecord { score: 17, hits: 3 },
        DistrRecord { score: 30, hits: 1 },
        DistrRecord { score: 255, hits: 0 },
    ]), Ok(()));
    let mut seen = [0usize; 256];
    for _ in 0..4000 {
        let s = d.sample_from_distribution().unwrap();
        seen[s as usize] += 1;
    }
    assert_eq!(seen[17] + seen[30], 4000);
    assert!(seen[17] > seen[30]);
    assert!(seen[30] > 0);
    let mut zeros = HandDistribution::new(HandType::Chance);
    assert_eq!(zeros.load_records(&vec![DistrRecord { score: 5, hits: 0 }]), Ok(()));
    assert_eq!(zeros.sample_from_distribution(), None);
    let mut single = HandDistribution::new(HandType::Chance);
    single.update_scores(0);
    assert_eq!(single.sample_from_distribution(), Some(0));
}

#[test]
fn distribution_file_round_trips() {
    let mut d = HandDistribution::new(HandType::Yatzy);
    for _ in 0..7 {
        d.update_scores(0);
    }
    d.update_scores(50);
    let file = d.save_distribution();
    assert_eq!(
        file,
        vec![2, 0, 0, 0, 0, 0, 0, 0, 0, 7, 0, 0, 0, 0, 0, 0, 0, 50, 1, 0, 0, 0, 0, 0, 0, 0]
    );
    let mut loaded = HandDistribution::new(HandType::Yatzy);
    assert_eq!(loaded.load_distribution(Some(&file)), Ok(Some(())));
    assert_eq!(loaded.records(), d.records());
    assert_eq!(loaded.n_hits(), 8);
    assert_eq!(loaded.mean_score(None), Ok(6_250_000));
    assert_eq!(loaded.save_distribution(), file);
    let empty = HandDistribution::new(HandType::Yatzy).save_distribution();
    assert_eq!(empty, vec![0; 8]);
    assert_eq!(loaded.load_distribution(Some(&empty)), Ok(Some(())));
    assert_eq!(loaded.n_hits(), 0);
    assert_eq!(loaded.len(), 2);
}

#[test]
fn a_distribution_without_a_file_stays_as_it_is() {
    let mut d = HandDistribution::new(HandType::Sixes);
    assert_eq!(d.load_distribution(None), Ok(None));
    assert_eq!(d.n_hits(), 0);
    assert_eq!(d.len(), 0);
    d.update_scores(12);
    d.update_scores(12);
    d.update_scores(18);
    assert_eq!(d.load_distribution(None), Ok(None));
    assert_eq!(d.n_hits(), 3);
    assert_eq!(
        d.records(),
        vec![DistrRecord { score: 12, hits: 2 }, DistrRecord { score: 18, hits: 1 }]
    );
    let file = d.save_distribution();
    assert_eq!(file.len(), 8 + 9 * 2);
    let mut again = HandDistribution::new(HandType::Sixes);
    assert_eq!(again.load_distribution(None), Ok(None));
    assert_eq!(again.load_distribution(Some(&file)), Ok(Some(())));
    assert_eq!(again.records(), d.records());
}

#[test]
fn distribution_files_that_cannot_be_loaded() {
    let mut d = HandDistribution::new(HandType::Ones);
    d.update_scores(3);
    let full = encode_table(&vec![
        DistrRecord { score: 1, hits: u64::MAX },
        DistrRecord { score: 2, hits: 1 },
    ]);
    assert_eq!(d.load_distribution(Some(&full)), Err(TableError::TooManyHits));
    assert_eq!(d.records(), vec![DistrRecord { score: 3, hits: 1 }]);
    assert_eq!(d.n_hits(), 1);
    assert_eq!(
        d.load_distribution(Some(&full[..full.len() - 3].to_vec())),
        Err(TableError::ShortRecord)
    );
    assert_eq!(d.load_distribution(Some(&vec![0; 7])), Err(TableError::ShortHeader));
    assert_eq!(d.n_hits(), 1);
    let fits = encode_table(&vec![DistrRecord { score: 1, hits: u64::MAX }]);
    assert_eq!(d.load_distribution(Some(&fits)), Ok(Some(())));
    assert_eq!(d.n_hits(), u64::MAX);
    assert_eq!(d.len(), 2);
    assert_eq!(d.sample_from_distribution(), None);
}
