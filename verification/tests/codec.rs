use yatzy::table::{decode_table, encode_table, read_records, write_records, TableError};
use yatzy::score_box::rules::{DistrRecord, HoldRecord};
use yatzy::utils::{
    base10_to_base2, base10_to_base7, base3_to_base10, base7_to_base10, clear_hand, factor,
    get_le, initcap, put_le, records_in_file, write_records_header,
};

#[test]
fn dice_code_of_a_throw() {
    assert_eq!(base7_to_base10(&vec![1, 1, 2, 3, 4]), 2867);
    assert_eq!(base10_to_base7(2867), vec![1, 1, 2, 3, 4]);
}

#[test]
fn dice_code_is_positional() {
    assert_eq!(base7_to_base10(&vec![6, 6, 6, 6, 6]), 16806);
    assert_eq!(base7_to_base10(&vec![1, 0, 0]), 49);
    assert_eq!(base7_to_base10(&vec![6]), 6);
    assert_eq!(base10_to_base7(49), vec![1, 0, 0]);
    assert_eq!(base10_to_base7(65535), vec![3, 6, 2, 0, 3, 1]);
}

#[test]
fn every_sorted_throw_round_trips() {
    let mut seen = 0;
    for a in 1..=6u8 {
        for b in a..=6u8 {
            for c in b..=6u8 {
                for d in c..=6u8 {
                    for e in d..=6u8 {
                        let dice = vec![a, b, c, d, e];
                        let code = base7_to_base10(&dice);
                        assert!(code < 16807);
                        assert_eq!(base10_to_base7(code), dice);
                        seen += 1;
                    }
                }
            }
        }
    }
    assert_eq!(seen, 252);
}

#[test]
fn every_hold_round_trips() {
    assert_eq!(base7_to_base10(&vec![]), 0);
    assert_eq!(base10_to_base7(0), Vec::<u8>::new());
    for len in 1..=5usize {
        let mut hold = vec![1u8; len];
        loop {
            let mut sorted = true;
            for i in 1..len {
                if hold[i - 1] > hold[i] {
                    sorted = false;
                }
            }
            if sorted {
                assert_eq!(base10_to_base7(base7_to_base10(&hold)), hold);
            }
            let mut at = len;
            while at > 0 && hold[at - 1] == 6 {
                hold[at - 1] = 1;
                at -= 1;
            }
            if at == 0 {
                break;
            }
            hold[at - 1] += 1;
        }
    }
}

#[test]
fn every_code_spells_itself() {
    for code in 0..=u16::MAX {
        let digits = base10_to_base7(code);
        assert!(digits.iter().all(|d| *d < 7));
        assert!(digits.is_empty() || digits[0] != 0);
        if digits.len() <= 5 {
            assert_eq!(base7_to_base10(&digits), code);
        }
    }
}

#[test]
fn ternary_value() {
    assert_eq!(base3_to_base10(&vec![2; 15]), 14348906);
    assert_eq!(base3_to_base10(&vec![]), 0);
    assert_eq!(base3_to_base10(&vec![1, 0, 2]), 11);
    assert_eq!(base3_to_base10(&vec![2; 20]), 3486784400);
}

#[test]
fn mask_of_a_fresh_card() {
    let all: Vec<u8> = (1..=15).collect();
    assert_eq!(base10_to_base2(32767, true), all);
    let zero_based: Vec<u8> = (0..15).collect();
    assert_eq!(base10_to_base2(32767, false), zero_based);
}

#[test]
fn mask_without_category_seven() {
    let mask = clear_hand(32767, 6);
    assert_eq!(mask, 32703);
    let members = base10_to_base2(mask, true);
    assert!(!members.contains(&7));
    assert_eq!(members.len(), 14);
    assert_eq!(members, vec![1, 2, 3, 4, 5, 6, 8, 9, 10, 11, 12, 13, 14, 15]);
}

#[test]
fn mask_members_of_edge_masks() {
    assert_eq!(base10_to_base2(0, false), Vec::<u8>::new());
    assert_eq!(base10_to_base2(1, false), vec![0]);
    assert_eq!(base10_to_base2(1, true), vec![1]);
    assert_eq!(base10_to_base2(0x8000, false), vec![15]);
    assert_eq!(base10_to_base2(0xFFFF, true).len(), 16);
    assert_eq!(base10_to_base2(0b1010, false), vec![1, 3]);
}

#[test]
fn clearing_takes_one_bit() {
    let mut mask: u16 = 32767;
    for hand in [3u8, 0, 14, 7, 1, 2, 4, 5, 6, 8, 9, 10, 11, 12, 13] {
        let before = mask.count_ones();
        let rest = clear_hand(mask, hand);
        assert_eq!(rest.count_ones() + 1, before);
        assert_eq!(rest, mask & !(1u16 << hand));
        assert_eq!(base10_to_base2(rest, false).len() as u32, rest.count_ones());
        mask = rest;
    }
    assert_eq!(mask, 0);
}

#[test]
fn divisors() {
    assert_eq!(factor(12), vec![2, 3, 4, 6]);
    assert_eq!(factor(7), Vec::<u32>::new());
    assert_eq!(factor(0), Vec::<u32>::new());
    assert_eq!(factor(1), Vec::<u32>::new());
    assert_eq!(factor(2), Vec::<u32>::new());
    assert_eq!(factor(4), vec![2]);
    assert_eq!(factor(81), vec![3, 9, 27]);
}

#[test]
fn divisors_of_the_search_space() {
    let d = factor(14348907);
    assert_eq!(d.len(), 14);
    assert_eq!(d[0], 3);
    assert_eq!(d[13], 4782969);
    assert_eq!(d.iter().copied().find(|v| *v >= 15), Some(27));
}

#[test]
fn capitals() {
    assert_eq!(initcap("one pair:".to_string()), "One Pair:");
    assert_eq!(initcap("".to_string()), "");
    assert_eq!(initcap("x".to_string()), "X");
    assert_eq!(initcap("three of a kind".to_string()), "Three Of A Kind");
    assert_eq!(initcap("two_pairs".to_string()), "Two_pairs");
    assert_eq!(initcap("Already Up".to_string()), "Already Up");
}

#[test]
fn capitals_after_blanks() {
    assert_eq!(initcap(" a".to_string()), " a");
    assert_eq!(initcap("a  b".to_string()), "A  b");
    assert_eq!(initcap("a   b".to_string()), "A   B");
    assert_eq!(initcap("é ö".to_string()), "é ö");
}

#[test]
fn little_endian_numbers() {
    let mut out = vec![9u8];
    put_le(&mut out, 0x0102030405060708, 8);
    assert_eq!(out, vec![9, 8, 7, 6, 5, 4, 3, 2, 1]);
    assert_eq!(get_le(&out, 1, 8), 0x0102030405060708);
    assert_eq!(get_le(&out, 1, 2), 0x0708);
    assert_eq!(get_le(&out, 0, 0), 0);
    let mut short = Vec::new();
    put_le(&mut short, 0x12345678, 2);
    assert_eq!(short, vec![0x78, 0x56]);
    put_le(&mut short, 1, 0);
    assert_eq!(short.len(), 2);
}

#[test]
fn header_of_a_table() {
    let mut file = Vec::new();
    write_records_header(&mut file, &vec![2, 3]);
    assert_eq!(file, vec![5, 0, 0, 0, 0, 0, 0, 0]);
    assert_eq!(records_in_file(&file), Ok(5));
    let mut none = Vec::new();
    write_records_header(&mut none, &vec![]);
    assert_eq!(records_in_file(&none), Ok(0));
    assert_eq!(records_in_file(&vec![1, 2, 3, 4, 5, 6, 7]), Err(TableError::ShortHeader));
    assert_eq!(records_in_file(&vec![]), Err(TableError::ShortHeader));
    assert_eq!(records_in_file(&vec![0, 1, 0, 0, 0, 0, 0, 0, 77]), Ok(256));
}

#[test]
fn hold_record_bytes() {
    let r = HoldRecord { throw: 1, hold_len: 2, thrown: 2867, hold: 0x0102, score_bits: 0x4024000000000000 };
    let file = encode_table(&vec![r]);
    assert_eq!(
        file,
        vec![1, 0, 0, 0, 0, 0, 0, 0, 1, 2, 0x33, 0x0B, 0x02, 0x01, 0, 0, 0, 0, 0, 0, 0x24, 0x40]
    );
    assert_eq!(f64::from_bits(r.score_bits), 10.0);
    assert_eq!(decode_table::<HoldRecord>(&file), Ok(vec![r]));
}

#[test]
fn distribution_record_bytes() {
    let r = DistrRecord { score: 50, hits: 258 };
    let file = encode_table(&vec![r, DistrRecord { score: 0, hits: u64::MAX }]);
    assert_eq!(file.len(), 8 + 2 * 9);
    assert_eq!(&file[8..17], &[50, 2, 1, 0, 0, 0, 0, 0, 0]);
    assert_eq!(&file[17..26], &[0, 255, 255, 255, 255, 255, 255, 255, 255]);
}

#[test]
fn tables_round_trip() {
    let mut records = Vec::new();
    for i in 0..300u32 {
        records.push(HoldRecord {
            throw: (i % 2) as u8,
            hold_len: (i % 6) as u8,
            thrown: (i * 17) as u16,
            hold: (i * 5) as u16,
            score_bits: (i as u64) << 40 | 12345,
        });
    }
    let file = encode_table(&records);
    assert_eq!(file.len(), 8 + 300 * 14);
    assert_eq!(decode_table::<HoldRecord>(&file), Ok(records));
    let empty: Vec<HoldRecord> = Vec::new();
    assert_eq!(decode_table::<HoldRecord>(&encode_table(&empty)), Ok(empty));
}

#[test]
fn short_tables_are_refused_whole() {
    let records = vec![DistrRecord { score: 1, hits: 2 }, DistrRecord { score: 3, hits: 4 }];
    let file = encode_table(&records);
    for cut in 0..file.len() {
        let part = file[..cut].to_vec();
        let want = if cut < 8 { TableError::ShortHeader } else { TableError::ShortRecord };
        assert_eq!(decode_table::<DistrRecord>(&part), Err(want));
    }
    let mut longer = file.clone();
    longer.push(99);
    assert_eq!(decode_table::<DistrRecord>(&longer), Ok(records));
    let huge = vec![255u8; 8];
    assert_eq!(decode_table::<DistrRecord>(&huge), Err(TableError::ShortRecord));
}

#[test]
fn records_at_a_place() {
    let records = vec![DistrRecord { score: 7, hits: 8 }];
    let mut bytes = vec![1, 2, 3];
    write_records(&mut bytes, &records);
    assert_eq!(bytes.len(), 12);
    assert_eq!(read_records::<DistrRecord>(&bytes, 3, 1), Ok(records));
    assert_eq!(read_records::<DistrRecord>(&bytes, 3, 0), Ok(vec![]));
    assert_eq!(read_records::<DistrRecord>(&bytes, 4, 1), Err(TableError::ShortRecord));
    assert_eq!(read_records::<DistrRecord>(&bytes, 12, 0), Ok(vec![]));
}
