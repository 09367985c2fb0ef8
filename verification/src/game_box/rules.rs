use vstd::prelude::*;
use std::collections::HashMap;
use crate::game_box::score_key;
use crate::score_box::{entries_map, entries_of};
use crate::score_box::rules::{lemma_byte_powers, LookupError};
use crate::table::Record;
use crate::utils::{get_le, le_bytes, le_value, lemma_le_round_trip, put_le};

verus! {

broadcast use vstd::std_specs::hash::group_hash_axioms;

/// One record of the game table's file: a state, and the eight bytes of its
/// expected total as the file holds them.
#[derive(Clone, Copy, Debug, PartialEq, Eq, Structural)]
pub struct GameRecord {
    pub score: u8,
    pub hand: u8,
    pub available_hands: u16,
    pub expected_bits: u64,
}

impl Record for GameRecord {
    open spec fn width() -> nat {
        12
    }

    open spec fn to_bytes(&self) -> Seq<u8> {
        le_bytes(self.score as nat, 1) + le_bytes(self.hand as nat, 1) + le_bytes(
            self.available_hands as nat,
            2,
        ) + le_bytes(self.expected_bits as nat, 8)
    }

    open spec fn from_bytes(bytes: Seq<u8>) -> Self {
        GameRecord {
            score: le_value(bytes.subrange(0, 1)) as u8,
            hand: le_value(bytes.subrange(1, 2)) as u8,
            available_hands: le_value(bytes.subrange(2, 4)) as u16,
            expected_bits: le_value(bytes.subrange(4, 12)) as u64,
        }
    }

    proof fn lemma_round_trip(&self) {
        lemma_byte_powers();
        lemma_le_round_trip(self.score as nat, 1);
        lemma_le_round_trip(self.hand as nat, 1);
        lemma_le_round_trip(self.available_hands as nat, 2);
        lemma_le_round_trip(self.expected_bits as nat, 8);
        let all = self.to_bytes();
        assert(all.subrange(0, 1) =~= le_bytes(self.score as nat, 1));
        assert(all.subrange(1, 2) =~= le_bytes(self.hand as nat, 1));
        assert(all.subrange(2, 4) =~= le_bytes(self.available_hands as nat, 2));
        assert(all.subrange(4, 12) =~= le_bytes(self.expected_bits as nat, 8));
    }

    fn stride() -> (w: usize) {
        12
    }

    fn write(&self, out: &mut Vec<u8>) {
        put_le(out, self.score as u64, 1);
        put_le(out, self.hand as u64, 1);
        put_le(out, self.available_hands as u64, 2);
        put_le(out, self.expected_bits, 8);
        assert(out@ =~= old(out)@ + self.to_bytes());
    }

    fn read(bytes: &Vec<u8>, at: usize) -> (record: Self) {
        proof {
            lemma_byte_powers();
            let part = bytes@.subrange(at as int, at + 12);
            assert(part.subrange(0, 1) =~= bytes@.subrange(at as int, at + 1));
            assert(part.subrange(1, 2) =~= bytes@.subrange(at + 1, at + 2));
            assert(part.subrange(2, 4) =~= bytes@.subrange(at + 2, at + 4));
            assert(part.subrange(4, 12) =~= bytes@.subrange(at + 4, at + 12));
        }
        GameRecord {
            score: get_le(bytes, at, 1) as u8,
            hand: get_le(bytes, at + 1, 1) as u8,
            available_hands: get_le(bytes, at + 2, 2) as u16,
            expected_bits: get_le(bytes, at + 4, 8),
        }
    }
}

/// One entry of the game table: a state and its expected total in
/// millionths of a point.
#[derive(Clone, Copy, Debug, PartialEq, Eq, Structural)]
pub struct GameEntry {
    pub score: u8,
    pub hand: u8,
    pub available_hands: u16,
    pub expected: u64,
}

/// The keys and expected totals that the entries hold, in the entries'
/// order.
pub open spec fn entry_pairs(entries: Seq<GameEntry>) -> Seq<(u32, u64)> {
    Seq::new(
        entries.len(),
        |i: int|
            (
                score_key(entries[i].score, entries[i].hand, entries[i].available_hands),
                entries[i].expected,
            ),
    )
}

/// The learned category-selection table: the expected total of a game for
/// every state that the learner saw.
pub struct GameRules {
    rules: HashMap<u32, u64>,
}

impl GameRules {
    /// The expected totals by `score_key`, in millionths of a point.
    pub closed spec fn table(&self) -> Map<u32, u64> {
        self.rules@
    }

    pub fn new() -> (rules: GameRules)
        ensures
            rules.table() == Map::<u32, u64>::empty(),
    {
        GameRules { rules: HashMap::new() }
    }

    /// The name that the table's file goes by.
    pub fn name(&self) -> (name: String)
        ensures
            name@ == "game"@,
    {
        "game".to_owned()
    }

    /// The expected total of the game from a state on, in millionths of a
    /// point; an error where the table does not know the state.
    pub fn expected_total_score(&self, score: u8, hand: u8, available_hands: u16) -> (expected:
        Result<u64, LookupError>)
        ensures
            expected == if self.table().contains_key(score_key(score, hand, available_hands)) {
                Ok::<u64, LookupError>(self.table()[score_key(score, hand, available_hands)])
            } else {
                Err::<u64, LookupError>(LookupError::NoEntry)
            },
    {
        let key: u32 = score as u32 * 0x100_0000 + hand as u32 * 0x1_0000 + available_hands as u32;
        match self.rules.get(&key) {
            Some(h) => Ok(*h),
            None => Err(LookupError::NoEntry),
        }
    }

    /// The table, to be filled by a learner.
    pub fn optimal_games_mut(&mut self) -> (table: &mut HashMap<u32, u64>)
        ensures
            table@ == old(self).table(),
            final(self).table() == final(table)@,
    {
        &mut self.rules
    }

    /// Enters the entries of a game table file; a later entry for a state
    /// replaces an earlier one.
    pub fn load_optimal_games(&mut self, entries: &Vec<GameEntry>)
        ensures
            final(self).table() == entries_map(old(self).table(), entry_pairs(entries@)),
    {
        let ghost pairs = entry_pairs(entries@);
        let mut i: usize = 0;
        assert(pairs.take(0) =~= Seq::<(u32, u64)>::empty());
        while i < entries.len()
            invariant
                i <= entries.len(),
                pairs == entry_pairs(entries@),
                self.rules@ == entries_map(old(self).rules@, pairs.take(i as int)),
            decreases entries.len() - i,
        {
            let e = entries[i];
            let key: u32 = e.score as u32 * 0x100_0000 + e.hand as u32 * 0x1_0000
                + e.available_hands as u32;
            proof {
                assert(pairs.take(i as int + 1).drop_last() =~= pairs.take(i as int));
                assert(pairs.take(i as int + 1).last() == pairs[i as int]);
            }
            self.rules.insert(key, e.expected);
            i += 1;
        }
        assert(pairs.take(i as int) =~= pairs);
    }

    /// The table's entries, each state once, in no stated order. Entered
    /// into an empty table they give the table back.
    pub fn save_optimal_games(&self) -> (entries: Vec<GameEntry>)
        ensures
            entries@.len() == self.table().len(),
            entries_map(Map::empty(), entry_pairs(entries@)) == self.table(),
    {
        let raw = entries_of(&self.rules);
        let mut entries: Vec<GameEntry> = Vec::new();
        let mut i: usize = 0;
        while i < raw.len()
            invariant
                i <= raw.len(),
                entries@.len() == i,
                forall|k: int|
                    0 <= k < i ==> score_key(
                        (#[trigger] entries[k]).score,
                        entries[k].hand,
                        entries[k].available_hands,
                    ) == raw[k].0 && entries[k].expected == raw[k].1,
            decreases raw.len() - i,
        {
            let (key, expected) = raw[i];
            entries.push(
                GameEntry {
                    score: (key / 0x100_0000) as u8,
                    hand: ((key / 0x1_0000) % 0x100) as u8,
                    available_hands: (key % 0x1_0000) as u16,
                    expected,
                },
            );
            i += 1;
        }
        assert(entry_pairs(entries@) =~= raw@);
        entries
    }
}

} // verus!
