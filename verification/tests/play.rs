use yatzy::dices::{Dices, Throw};
use yatzy::play_worker::{
    card_totals, check_hold, format_score_string, get_dices_input, get_hand_choice, hold_after,
    parse_u8, throw_hand, CardTotals, DiceInputError, Player, ScoreStyle,
};
use yatzy::score_box::rules::{Hand, HandType, LookupError};
use yatzy::score_box::HoldChoice;
use yatzy::utils::base7_to_base10;

#[test]
fn holds_are_picked_from_left_to_right() {
    assert!(check_hold(&vec![1, 2, 3, 4, 5], &vec![]));
    assert!(check_hold(&vec![], &vec![]));
    assert!(!check_hold(&vec![], &vec![1]));
    assert!(check_hold(&vec![1, 2, 3, 4, 5], &vec![2, 4]));
    assert!(!check_hold(&vec![1, 2, 3, 4, 5], &vec![4, 2]));
    assert!(check_hold(&vec![1, 1, 3, 4, 5], &vec![1, 1]));
    assert!(!check_hold(&vec![1, 2, 3, 4, 5], &vec![1, 1]));
    assert!(check_hold(&vec![6, 6, 6, 6, 6], &vec![6, 6, 6, 6, 6]));
    assert!(!check_hold(&vec![6, 6, 6, 6, 6], &vec![6, 6, 6, 6, 6, 6]));
    assert!(check_hold(&vec![1, 2, 3, 4, 5], &vec![5]));
}

#[test]
fn a_line_of_thrown_dice() {
    assert_eq!(get_dices_input("34126", None, None), Ok(vec![1, 2, 3, 4, 6]));
    assert_eq!(get_dices_input("66", None, Some(&vec![1, 3, 6])), Ok(vec![1, 3, 6, 6, 6]));
    assert_eq!(get_dices_input("", None, Some(&vec![5, 4, 3, 2, 1])), Ok(vec![1, 2, 3, 4, 5]));
    assert_eq!(get_dices_input("21", None, Some(&vec![])), Err(DiceInputError::WrongCount { min: 5, max: 5 }));
    assert_eq!(get_dices_input("654321", None, None), Err(DiceInputError::WrongCount { min: 5, max: 5 }));
    assert_eq!(get_dices_input("1", None, Some(&vec![1, 3, 6])), Err(DiceInputError::WrongCount { min: 2, max: 2 }));
    assert_eq!(get_dices_input("12305", None, None), Err(DiceInputError::IllegalChar('0')));
    assert_eq!(get_dices_input("12x7y", None, None), Err(DiceInputError::IllegalChar('x')));
    assert_eq!(get_dices_input("1237 ", None, None), Err(DiceInputError::IllegalChar('7')));
}

#[test]
fn a_line_that_names_a_hold() {
    let dice = vec![1, 3, 3, 5, 6];
    assert_eq!(get_dices_input("", Some(&dice), None), Ok(vec![]));
    assert_eq!(get_dices_input("336", Some(&dice), None), Ok(vec![3, 3, 6]));
    assert_eq!(get_dices_input("13356", Some(&dice), None), Ok(vec![1, 3, 3, 5, 6]));
    assert_eq!(get_dices_input("63", Some(&dice), None), Err(DiceInputError::NotPartOfDice));
    assert_eq!(get_dices_input("2", Some(&dice), None), Err(DiceInputError::NotPartOfDice));
    assert_eq!(get_dices_input("333", Some(&dice), None), Err(DiceInputError::NotPartOfDice));
    assert_eq!(get_dices_input("133566", Some(&dice), None), Err(DiceInputError::WrongCount { min: 0, max: 5 }));
    assert_eq!(get_dices_input("3a", Some(&dice), None), Err(DiceInputError::IllegalChar('a')));
    // with dice on the table, held dice are still added
    assert_eq!(get_dices_input("3", Some(&dice), Some(&vec![1])), Ok(vec![1, 3]));
    // the count is taken in bytes
    assert_eq!(get_dices_input("ééé", Some(&dice), None), Err(DiceInputError::WrongCount { min: 0, max: 5 }));
    assert_eq!(get_dices_input("éé", Some(&dice), None), Err(DiceInputError::IllegalChar('é')));
}

#[test]
fn numbers_below_256() {
    assert_eq!(parse_u8("0"), Some(0));
    assert_eq!(parse_u8("7"), Some(7));
    assert_eq!(parse_u8("255"), Some(255));
    assert_eq!(parse_u8("256"), None);
    assert_eq!(parse_u8("+15"), Some(15));
    assert_eq!(parse_u8("007"), Some(7));
    assert_eq!(parse_u8("0000000000000000000012"), Some(12));
    assert_eq!(parse_u8(""), None);
    assert_eq!(parse_u8("+"), None);
    assert_eq!(parse_u8("-1"), None);
    assert_eq!(parse_u8("++1"), None);
    assert_eq!(parse_u8("1+"), None);
    assert_eq!(parse_u8(" 1"), None);
    assert_eq!(parse_u8("1a"), None);
    assert_eq!(parse_u8("99999999999999999999999"), None);
    assert_eq!(parse_u8("٣"), None);
    for n in 0..=255u8 {
        assert_eq!(parse_u8(&n.to_string()), Some(n));
        assert_eq!(parse_u8(&n.to_string()), n.to_string().parse::<u8>().ok());
    }
}

#[test]
fn choice_of_a_category() {
    let available = vec![1, 2, 7, 15];
    assert_eq!(get_hand_choice("7", &available), Some(6));
    assert_eq!(get_hand_choice("1", &available), Some(0));
    assert_eq!(get_hand_choice("15", &available), Some(14));
    assert_eq!(get_hand_choice("+2", &available), Some(1));
    assert_eq!(get_hand_choice("3", &available), None);
    assert_eq!(get_hand_choice("0", &available), None);
    assert_eq!(get_hand_choice("seven", &available), None);
    assert_eq!(get_hand_choice("", &available), None);
    assert_eq!(get_hand_choice("7", &vec![]), None);
}

#[test]
fn style_of_a_score() {
    let mut total = 10;
    assert_eq!(format_score_string(Some(2), 0, false, &mut total), ScoreStyle::Low);
    assert_eq!(total, 12);
    assert_eq!(format_score_string(Some(3), 0, false, &mut total), ScoreStyle::Plain);
    assert_eq!(total, 15);
    assert_eq!(format_score_string(Some(17), 5, false, &mut total), ScoreStyle::Low);
    assert_eq!(format_score_string(Some(18), 5, false, &mut total), ScoreStyle::Plain);
    assert_eq!(format_score_string(Some(0), 6, false, &mut total), ScoreStyle::Plain);
    assert_eq!(format_score_string(Some(0), 5, true, &mut total), ScoreStyle::Latest);
    assert_eq!(total, 50);
    assert_eq!(format_score_string(None, 3, false, &mut total), ScoreStyle::Empty);
    assert_eq!(format_score_string(None, 3, true, &mut total), ScoreStyle::Latest);
    assert_eq!(total, 50);
}

#[test]
fn sums_of_a_card() {
    let mut scores: Vec<Option<u16>> = vec![None; 15];
    assert_eq!(card_totals(&scores), CardTotals { upper: 0, bonus: 0, total: 0 });
    for (i, s) in [3u16, 6, 9, 12, 15, 17].into_iter().enumerate() {
        scores[i] = Some(s);
    }
    assert_eq!(card_totals(&scores), CardTotals { upper: 62, bonus: 0, total: 62 });
    scores[5] = Some(18);
    assert_eq!(card_totals(&scores), CardTotals { upper: 63, bonus: 50, total: 113 });
    scores[14] = Some(50);
    scores[12] = Some(28);
    assert_eq!(card_totals(&scores), CardTotals { upper: 63, bonus: 50, total: 191 });
    let full: Vec<Option<u16>> = vec![Some(50); 15];
    assert_eq!(card_totals(&full), CardTotals { upper: 300, bonus: 50, total: 800 });
}

#[test]
fn a_player_scores_each_category_once() {
    let mut player = Player::new();
    assert_eq!(player.available_hands(), 32767);
    assert!(!player.done());
    assert_eq!(player.scores(), &vec![None; 15]);
    let order = [14u8, 0, 7, 3, 1, 2, 4, 5, 6, 8, 9, 10, 11, 12, 13];
    for (n, hand) in order.into_iter().enumerate() {
        let before = player.available_hands();
        player.record(hand, hand as u16 * 2);
        let after = player.available_hands();
        assert_eq!(after, before & !(1u16 << hand));
        assert_eq!(after.count_ones() as usize, 14 - n);
        assert_eq!(player.scores()[hand as usize], Some(hand as u16 * 2));
    }
    assert!(player.done());
    assert_eq!(card_totals(player.scores()).total, 2 * (0..15).sum::<u16>());
}

#[test]
fn the_mask_holds_the_categories_without_a_score() {
    let mut player = Player::new();
    for hand in [3u8, 14, 0, 9, 6] {
        player.record(hand, 1);
        let mask = player.available_hands();
        assert!(mask <= 32767);
        for (i, score) in player.scores().iter().enumerate() {
            assert_eq!((mask >> i) & 1 == 1, score.is_none());
        }
    }
}

#[test]
fn the_hold_of_the_category_that_promises_most() {
    let mut hands = Vec::new();
    for id in 0..15 {
        hands.push(Box::new(Hand::new(HandType::from_id(id).unwrap())));
    }
    let thrown = base7_to_base10(&vec![1, 1, 2, 6, 6]);
    assert_eq!(thrown, 2890);
    let ones = HoldChoice { hold_len: 2, hold: base7_to_base10(&vec![1, 1]), score: 2_100_000 };
    let sixes = HoldChoice { hold_len: 2, hold: base7_to_base10(&vec![6, 6]), score: 14_000_000 };
    hands[0].optimal_holds_mut().insert(Throw::First, thrown, ones);
    hands[5].optimal_holds_mut().insert(Throw::First, thrown, sixes);
    // both categories open: the sixes promise more
    assert_eq!(hold_after(Throw::First, thrown, 0b100001, &hands), Ok(vec![6, 6]));
    assert_eq!(hold_after(Throw::First, thrown, 0b000001, &hands), Ok(vec![1, 1]));
    // an open category without an entry for the throw
    assert_eq!(hold_after(Throw::First, thrown, 0b100011, &hands), Err(LookupError::NoEntry));
    assert_eq!(hold_after(Throw::Second, thrown, 0b100001, &hands), Err(LookupError::NoEntry));
    assert_eq!(hold_after(Throw::Third, thrown, 0b100001, &hands), Err(LookupError::IllegalThrow));
    assert_eq!(hold_after(Throw::First, thrown, 0, &hands), Err(LookupError::NoBestHand));
    // a hold that names a face that no die has
    let bad = HoldChoice { hold_len: 2, hold: 49, score: 20_000_000 };
    hands[1].optimal_holds_mut().insert(Throw::First, thrown, bad);
    assert_eq!(hold_after(Throw::First, thrown, 0b100011, &hands), Err(LookupError::BadHold));
    assert_eq!(hands[1].hold_after(Throw::First, thrown), Err(LookupError::BadHold));
    assert_eq!(hands[5].hold_after(Throw::First, thrown), Ok(vec![6, 6]));
    assert_eq!(hands[5].hold_after(Throw::Second, thrown), Err(LookupError::NoEntry));
    assert_eq!(hands[5].hold_after(Throw::Third, thrown), Err(LookupError::IllegalThrow));
}

fn hands_holding_everything() -> Vec<Box<Hand>> {
    let mut hands = Vec::new();
    for id in 0..15 {
        let mut hand = Hand::new(HandType::from_id(id).unwrap());
        for a in 1..=6u8 {
            for b in a..=6u8 {
                for c in b..=6u8 {
                    for d in c..=6u8 {
                        for e in d..=6u8 {
                            let dice = vec![a, b, c, d, e];
                            let code = base7_to_base10(&dice);
                            let score = hand.score(&dice) as u64 * 1_000_000 + 1;
                            let choice = HoldChoice { hold_len: 5, hold: code, score };
                            hand.optimal_holds_mut().insert(Throw::First, code, choice);
                            hand.optimal_holds_mut().insert(Throw::Second, code, choice);
                        }
                    }
                }
            }
        }
        hands.push(Box::new(hand));
    }
    hands
}

#[test]
fn throws_follow_the_tables() {
    let hands = hands_holding_everything();
    let mut dices = Dices::new();
    for _ in 0..200 {
        let thrown = throw_hand(&mut dices, 32767, &hands).unwrap();
        assert_eq!(thrown.len(), 5);
        assert!(thrown.iter().all(|d| (1..=6).contains(d)));
        assert!(thrown.windows(2).all(|w| w[0] <= w[1]));
    }
    assert_eq!(throw_hand(&mut dices, 0, &hands), Err(LookupError::NoBestHand));
}

#[test]
fn throws_fail_where_the_tables_do() {
    let mut dices = Dices::new();
    let mut empty = Vec::new();
    for id in 0..15 {
        empty.push(Box::new(Hand::new(HandType::from_id(id).unwrap())));
    }
    assert_eq!(throw_hand(&mut dices, 32767, &empty), Err(LookupError::NoEntry));
    let mut bad = hands_holding_everything();
    for hand in bad.iter_mut() {
        let table = hand.optimal_holds(Throw::First).unwrap().clone();
        for (code, choice) in table {
            hand.optimal_holds_mut().insert(Throw::First, code, HoldChoice { hold: 49, ..choice });
        }
    }
    assert_eq!(throw_hand(&mut dices, 32767, &bad), Err(LookupError::BadHold));
}
