use vstd::prelude::*;
use vstd::seq_lib::*;
use std::collections::HashMap;
use crate::score_box::{entries_map, entries_of, lemma_entries_make_table, mean_micro, spec_mean_micro};
use crate::score_box::rules::lemma_byte_powers;
use crate::table::{
    decode_table, encode_table, lemma_table_bytes_len, table_bytes, table_records,
    table_round_trip, Record, TableError,
};
use crate::dices::{choose_index, choose_item, thread_rng};
use crate::score_box::rules::LookupError;
use crate::tally::{
    absorb, absorb_all, lemma_absorb_concat, lemma_absorb_next, lemma_key_is_hit,
    lemma_prefix_fits, merge_order_law, merged_sums_law, sums_fit, Sum,
};
use crate::utils::{get_le, has_bit, le_bytes, le_value, lemma_le_round_trip, put_le};

pub mod rules;

verus! {

broadcast use vstd::std_specs::hash::group_hash_axioms;

/// What one category brought in a finished game: the availability mask
/// when the category was scored, and its score.
#[derive(Clone, Copy, Debug, PartialEq, Eq, Structural)]
pub struct IntermediateResult {
    pub available_hands: u16,
    pub score: u64,
}

impl IntermediateResult {
    pub fn new() -> (r: IntermediateResult)
        ensures
            r.available_hands == 0,
            r.score == 0,
    {
        IntermediateResult { available_hands: 0, score: 0 }
    }
}

/// The sum of the first `n` scores.
pub open spec fn scores_sum(results: Seq<IntermediateResult>, n: nat) -> nat
    decreases n,
{
    if n == 0 || n > results.len() {
        0
    } else {
        scores_sum(results, (n - 1) as nat) + results[n - 1].score as nat
    }
}

/// The bonus that a sum of the six face-count categories earns.
pub open spec fn bonus_for(upper: nat) -> nat {
    if upper >= 63 {
        50
    } else {
        0
    }
}

/// A game's total: the scores of all categories and the bonus that the
/// first six of them earn.
pub open spec fn game_total(results: Seq<IntermediateResult>) -> nat {
    scores_sum(results, results.len()) + bonus_for(scores_sum(results, 6))
}

/// A finished game that can be counted: one result for each of the fifteen
/// categories, each score small enough for a record's score byte.
pub open spec fn valid_game(results: Seq<IntermediateResult>) -> bool {
    &&& results.len() == 15
    &&& forall|i: int| 0 <= i < results.len() ==> (#[trigger] results[i]).score <= 255
}

/// The bonus is 50 from an upper sum of 63 on and nothing below, and a
/// game's total is the sum of its scores and that bonus.
pub proof fn upper_bonus_law(results: Seq<IntermediateResult>)
    requires
        results.len() >= 6,
    ensures
        scores_sum(results, 6) >= 63 ==> game_total(results) == scores_sum(
            results,
            results.len(),
        ) + 50,
        scores_sum(results, 6) < 63 ==> game_total(results) == scores_sum(results, results.len()),
{
}

/// The total of a finished game, bonus included.
pub fn total_with_bonus(results: &Vec<IntermediateResult>) -> (total: u64)
    requires
        valid_game(results@),
    ensures
        total == game_total(results@),
        total <= 3875,
{
    let mut sum: u64 = 0;
    let mut upper: u64 = 0;
    let mut i: usize = 0;
    while i < results.len()
        invariant
            i <= results.len(),
            valid_game(results@),
            sum == scores_sum(results@, i as nat),
            upper == scores_sum(
                results@,
                if i <= 6 {
                    i as nat
                } else {
                    6
                },
            ),
            sum <= 255 * i,
            upper <= sum,
        decreases results.len() - i,
    {
        sum = sum + results[i].score;
        if i < 6 {
            upper = upper + results[i].score;
        }
        i += 1;
    }
    if upper >= 63 {
        sum + 50
    } else {
        sum
    }
}

/// The key of one state of the whole-game accumulator: the score that a
/// category brought, the category and the availability mask of that moment.
pub open spec fn score_key(score: u8, hand: u8, available_hands: u16) -> u32 {
    (score as u32 * 0x100_0000 + hand as u32 * 0x1_0000 + available_hands as u32) as u32
}

/// States of different categories have different keys.
pub proof fn lemma_keys_differ(s1: u8, h1: u8, a1: u16, s2: u8, h2: u8, a2: u16)
    requires
        h1 != h2,
    ensures
        score_key(s1, h1, a1) != score_key(s2, h2, a2),
{
}

/// The updates that a finished game brings: one for each category, at the
/// state in which the category was scored, all with the game's total.
pub open spec fn game_updates(results: Seq<IntermediateResult>) -> Seq<(u32, nat)> {
    Seq::new(
        results.len(),
        |i: int|
            (
                score_key(results[i].score as u8, i as u8, results[i].available_hands),
                game_total(results),
            ),
    )
}

/// Counting a game in a state's tally is the update of the accumulator.
pub proof fn lemma_tally_absorbs(tallies: Map<u32, Tally>, key: u32, total: u64)
    requires
        tallies.contains_key(key) ==> tallies[key].hits < u64::MAX && tallies[key].value + total
            <= u64::MAX,
    ensures
        sums_of(
            tallies.insert(
                key,
                if tallies.contains_key(key) {
                    Tally {
                        hits: (tallies[key].hits + 1) as u64,
                        value: (tallies[key].value + total) as u64,
                    }
                } else {
                    Tally { hits: 1, value: total }
                },
            ),
        ) == absorb(sums_of(tallies), key, total as nat),
{
    let after = tallies.insert(
        key,
        if tallies.contains_key(key) {
            Tally { hits: (tallies[key].hits + 1) as u64, value: (tallies[key].value + total) as u64 }
        } else {
            Tally { hits: 1, value: total }
        },
    );
    assert(sums_of(after) =~= absorb(sums_of(tallies), key, total as nat));
}

/// The games as the results that they hold.
pub open spec fn games_of(games: Seq<Vec<IntermediateResult>>) -> Seq<Seq<IntermediateResult>> {
    Seq::new(games.len(), |i: int| games[i]@)
}

/// Every game is one that can be counted.
pub open spec fn valid_games(games: Seq<Seq<IntermediateResult>>) -> bool {
    forall|i: int| 0 <= i < games.len() ==> valid_game(#[trigger] games[i])
}

/// The updates that finished games bring, game after game.
pub open spec fn games_updates(games: Seq<Seq<IntermediateResult>>) -> Seq<(u32, nat)>
    decreases games.len(),
{
    if games.len() == 0 {
        Seq::empty()
    } else {
        games_updates(games.drop_last()) + game_updates(games.last())
    }
}

/// Counting one game: the step from one accumulator to the next.
pub open spec fn count_game() -> spec_fn(Map<u32, Sum>, Seq<IntermediateResult>) -> Map<u32, Sum> {
    |sums: Map<u32, Sum>, results: Seq<IntermediateResult>| absorb_all(sums, game_updates(results))
}

/// The updates of all games begin with the updates of the first `n`.
proof fn lemma_games_prefix(games: Seq<Seq<IntermediateResult>>, n: int) -> (rest: Seq<(u32, nat)>)
    requires
        0 <= n <= games.len(),
    ensures
        games_updates(games) == games_updates(games.take(n)) + rest,
    decreases games.len(),
{
    if n == games.len() {
        assert(games.take(n) =~= games);
        assert(games_updates(games) + Seq::<(u32, nat)>::empty() =~= games_updates(games));
        Seq::empty()
    } else {
        let before = lemma_games_prefix(games.drop_last(), n);
        assert(games.drop_last().take(n) =~= games.take(n));
        let rest = before + game_updates(games.last());
        assert(games_updates(games.take(n)) + rest =~= (games_updates(games.take(n)) + before)
            + game_updates(games.last()));
        rest
    }
}

/// Counting the games one by one is merging all their updates.
proof fn lemma_games_fold(sums: Map<u32, Sum>, games: Seq<Seq<IntermediateResult>>)
    ensures
        games.fold_left(sums, count_game()) == absorb_all(sums, games_updates(games)),
    decreases games.len(),
{
    if games.len() > 0 {
        lemma_games_fold(sums, games.drop_last());
        lemma_absorb_concat(sums, games_updates(games.drop_last()), game_updates(games.last()));
    }
}

/// Games bring the accumulator to the same hits and sums in whatever order
/// they are counted, however many they are.
pub proof fn games_order_law(
    sums: Map<u32, Sum>,
    one: Seq<Seq<IntermediateResult>>,
    other: Seq<Seq<IntermediateResult>>,
)
    requires
        one.to_multiset() == other.to_multiset(),
    ensures
        absorb_all(sums, games_updates(one)) == absorb_all(sums, games_updates(other)),
{
    let f = count_game();
    assert(commutative_foldl(f)) by {
        assert forall|x: Seq<IntermediateResult>, y: Seq<IntermediateResult>, v: Map<u32, Sum>|
            #[trigger] f(f(v, x), y) == f(f(v, y), x) by {
            let ux = game_updates(x);
            let uy = game_updates(y);
            lemma_absorb_concat(v, ux, uy);
            lemma_absorb_concat(v, uy, ux);
            lemma_multiset_commutative(ux, uy);
            lemma_multiset_commutative(uy, ux);
            assert((ux + uy).to_multiset() =~= (uy + ux).to_multiset());
            merge_order_law(v, ux + uy, uy + ux);
        }
    }
    lemma_fold_left_permutation(one, other, f, sums);
    lemma_games_fold(sums, one);
    lemma_games_fold(sums, other);
}

/// How often a state was seen and what the games that passed through it
/// scored in all, as the accumulator holds them.
#[derive(Clone, Copy, Debug, PartialEq, Eq, Structural)]
pub struct Tally {
    pub hits: u64,
    pub value: u64,
}

/// The sums that the tallies stand for.
pub open spec fn sums_of(tallies: Map<u32, Tally>) -> Map<u32, Sum> {
    Map::new(
        |k: u32| tallies.contains_key(k),
        |k: u32| Sum { hits: tallies[k].hits as nat, value: tallies[k].value as nat },
    )
}

/// One record of the whole-game accumulator's file.
#[derive(Clone, Copy, Debug, PartialEq, Eq, Structural)]
pub struct ScoreRecord {
    pub score: u8,
    pub hand: u8,
    pub available_hands: u16,
    pub hits: u64,
    pub value: u64,
}

impl Record for ScoreRecord {
    open spec fn width() -> nat {
        20
    }

    open spec fn to_bytes(&self) -> Seq<u8> {
        le_bytes(self.score as nat, 1) + le_bytes(self.hand as nat, 1) + le_bytes(
            self.available_hands as nat,
            2,
        ) + le_bytes(self.hits as nat, 8) + le_bytes(self.value as nat, 8)
    }

    open spec fn from_bytes(bytes: Seq<u8>) -> Self {
        ScoreRecord {
            score: le_value(bytes.subrange(0, 1)) as u8,
            hand: le_value(bytes.subrange(1, 2)) as u8,
            available_hands: le_value(bytes.subrange(2, 4)) as u16,
            hits: le_value(bytes.subrange(4, 12)) as u64,
            value: le_value(bytes.subrange(12, 20)) as u64,
        }
    }

    proof fn lemma_round_trip(&self) {
        lemma_byte_powers();
        lemma_le_round_trip(self.score as nat, 1);
        lemma_le_round_trip(self.hand as nat, 1);
        lemma_le_round_trip(self.available_hands as nat, 2);
        lemma_le_round_trip(self.hits as nat, 8);
        lemma_le_round_trip(self.value as nat, 8);
        let all = self.to_bytes();
        assert(all.subrange(0, 1) =~= le_bytes(self.score as nat, 1));
        assert(all.subrange(1, 2) =~= le_bytes(self.hand as nat, 1));
        assert(all.subrange(2, 4) =~= le_bytes(self.available_hands as nat, 2));
        assert(all.subrange(4, 12) =~= le_bytes(self.hits as nat, 8));
        assert(all.subrange(12, 20) =~= le_bytes(self.value as nat, 8));
    }

    fn stride() -> (w: usize) {
        20
    }

    fn write(&self, out: &mut Vec<u8>) {
        put_le(out, self.score as u64, 1);
        put_le(out, self.hand as u64, 1);
        put_le(out, self.available_hands as u64, 2);
        put_le(out, self.hits, 8);
        put_le(out, self.value, 8);
        assert(out@ =~= old(out)@ + self.to_bytes());
    }

    fn read(bytes: &Vec<u8>, at: usize) -> (record: Self) {
        proof {
            lemma_byte_powers();
            let part = bytes@.subrange(at as int, at + 20);
            assert(part.subrange(0, 1) =~= bytes@.subrange(at as int, at + 1));
            assert(part.subrange(1, 2) =~= bytes@.subrange(at + 1, at + 2));
            assert(part.subrange(2, 4) =~= bytes@.subrange(at + 2, at + 4));
            assert(part.subrange(4, 12) =~= bytes@.subrange(at + 4, at + 12));
            assert(part.subrange(12, 20) =~= bytes@.subrange(at + 12, at + 20));
        }
        ScoreRecord {
            score: get_le(bytes, at, 1) as u8,
            hand: get_le(bytes, at + 1, 1) as u8,
            available_hands: get_le(bytes, at + 2, 2) as u16,
            hits: get_le(bytes, at + 4, 8),
            value: get_le(bytes, at + 12, 8),
        }
    }
}

/// The key under which a record's state is counted.
pub open spec fn record_key(r: ScoreRecord) -> u32 {
    score_key(r.score, r.hand, r.available_hands)
}

/// The states and tallies that the records hold, in the records' order.
pub open spec fn record_pairs(records: Seq<ScoreRecord>) -> Seq<(u32, Tally)> {
    Seq::new(
        records.len(),
        |i: int| (record_key(records[i]), Tally { hits: records[i].hits, value: records[i].value }),
    )
}

/// The tallies after the records were entered one after the other; a later
/// record for a state replaces an earlier one.
pub open spec fn tallies_loaded(tallies: Map<u32, Tally>, records: Seq<ScoreRecord>) -> Map<
    u32,
    Tally,
> {
    entries_map(tallies, record_pairs(records))
}

/// What loading a table file does to the tallies: nothing where there is no
/// file or where it cannot be read, else its records are entered.
pub open spec fn tallies_after_load(tallies: Map<u32, Tally>, file: Option<Seq<u8>>) -> Map<
    u32,
    Tally,
> {
    match file {
        None => tallies,
        Some(bytes) => match table_records::<ScoreRecord>(bytes) {
            Ok(records) => tallies_loaded(tallies, records),
            Err(_) => tallies,
        },
    }
}

/// The whole-game Monte-Carlo accumulator: for every state that a game
/// passed through, how many games did and what they scored in all.
pub struct MCScore {
    mc_scores: HashMap<u32, Tally>,
    laps: u64,
}

impl MCScore {
    /// The tallies by `score_key`.
    pub closed spec fn tallies(&self) -> Map<u32, Tally> {
        self.mc_scores@
    }

    /// The number of games counted since the accumulator was made.
    pub closed spec fn spec_laps(&self) -> nat {
        self.laps as nat
    }

    /// Whether one more game fits the counters.
    pub open spec fn can_absorb(&self, results: Seq<IntermediateResult>) -> bool {
        &&& self.spec_laps() < u64::MAX
        &&& forall|i: int|
            0 <= i < results.len() ==> {
                let key = #[trigger] game_updates(results)[i].0;
                self.tallies().contains_key(key) ==> self.tallies()[key].hits < u64::MAX
                    && self.tallies()[key].value + game_total(results) <= u64::MAX
            }
    }

    pub fn new() -> (mc: MCScore)
        ensures
            mc.tallies() == Map::<u32, Tally>::empty(),
            mc.spec_laps() == 0,
    {
        MCScore { mc_scores: HashMap::new(), laps: 0 }
    }

    /// The name that the accumulator's file goes by.
    pub fn name(&self) -> (name: String)
        ensures
            name@ == "mcscore"@,
    {
        "mcscore".to_owned()
    }

    /// What is known of a state.
    pub fn get(&self, score: u8, hand: u8, available_hands: u16) -> (tally: Option<Tally>)
        ensures
            tally == if self.tallies().contains_key(score_key(score, hand, available_hands)) {
                Some(self.tallies()[score_key(score, hand, available_hands)])
            } else {
                None
            },
    {
        let key: u32 = score as u32 * 0x100_0000 + hand as u32 * 0x1_0000 + available_hands as u32;
        match self.mc_scores.get(&key) {
            Some(t) => Some(*t),
            None => None,
        }
    }

    /// Counts a finished game: every state that it passed through gets one
    /// more hit and the game's total, bonus included. Returns the number of
    /// games counted so far.
    pub fn update_scores(&mut self, intermediate_results: &Vec<IntermediateResult>) -> (laps: u64)
        requires
            valid_game(intermediate_results@),
            old(self).can_absorb(intermediate_results@),
        ensures
            laps == old(self).spec_laps() + 1,
            final(self).spec_laps() == laps,
            sums_of(final(self).tallies()) == absorb_all(
                sums_of(old(self).tallies()),
                game_updates(intermediate_results@),
            ),
    {
        let total_score = total_with_bonus(intermediate_results);
        let ghost updates = game_updates(intermediate_results@);
        let ghost start = sums_of(self.mc_scores@);
        let mut i: usize = 0;
        proof {
            assert(updates.take(0) =~= Seq::<(u32, nat)>::empty());
            assert(absorb_all(start, updates.take(0)) == start);
        }
        while i < intermediate_results.len()
            invariant
                i <= intermediate_results.len() == 15,
                updates.len() == 15,
                forall|k: int|
                    0 <= k < 15 ==> (#[trigger] updates[k]) == (
                        score_key(
                            intermediate_results[k].score as u8,
                            k as u8,
                            intermediate_results[k].available_hands,
                        ),
                        total_score as nat,
                    ),
                forall|k: int| 0 <= k < 15 ==> (#[trigger] intermediate_results[k]).score <= 255,
                self.laps == old(self).laps,
                sums_of(self.mc_scores@) == absorb_all(start, updates.take(i as int)),
                forall|k: int|
                    i <= k < 15 ==> {
                        let key = (#[trigger] updates[k]).0;
                        self.mc_scores@.contains_key(key) ==> self.mc_scores@[key].hits < u64::MAX
                            && self.mc_scores@[key].value + total_score <= u64::MAX
                    },
            decreases intermediate_results.len() - i,
        {
            let ir = intermediate_results[i];
            let hand = i as u8;
            let score = ir.score as u8;
            let key: u32 = score as u32 * 0x100_0000 + hand as u32 * 0x1_0000
                + ir.available_hands as u32;
            let ghost before = self.mc_scores@;
            proof {
                assert(updates[i as int].0 == key);
                lemma_tally_absorbs(before, key, total_score);
                lemma_absorb_next(start, updates, i as int);
            }
            let after = match self.mc_scores.get(&key) {
                Some(t) => Tally { hits: t.hits + 1, value: t.value + total_score },
                None => Tally { hits: 1, value: total_score },
            };
            self.mc_scores.insert(key, after);
            proof {
                assert forall|k: int| i + 1 <= k < 15 implies {
                    let other = (#[trigger] updates[k]).0;
                    self.mc_scores@.contains_key(other) ==> self.mc_scores@[other].hits < u64::MAX
                        && self.mc_scores@[other].value + total_score <= u64::MAX
                } by {
                    lemma_keys_differ(score, hand, ir.available_hands, intermediate_results[k].score as u8, k as u8, intermediate_results[k].available_hands);
                }
            }
            i += 1;
        }
        assert(updates.take(i as int) =~= updates);
        self.laps += 1;
        self.laps
    }

    /// Whether all the games fit the counters: the games counted, and every
    /// state's hits and sum after the last of them.
    pub open spec fn can_absorb_all(&self, games: Seq<Seq<IntermediateResult>>) -> bool {
        &&& self.spec_laps() + games.len() <= u64::MAX
        &&& sums_fit(absorb_all(sums_of(self.tallies()), games_updates(games)))
    }

    /// Counts finished games, one after the other. Returns the number of
    /// games counted so far.
    pub fn update_all(&mut self, games: &Vec<Vec<IntermediateResult>>) -> (laps: u64)
        requires
            valid_games(games_of(games@)),
            old(self).can_absorb_all(games_of(games@)),
        ensures
            laps == old(self).spec_laps() + games@.len(),
            final(self).spec_laps() == laps,
            sums_of(final(self).tallies()) == absorb_all(
                sums_of(old(self).tallies()),
                games_updates(games_of(games@)),
            ),
    {
        let ghost all = games_of(games@);
        let ghost start = sums_of(self.tallies());
        let mut i: usize = 0;
        proof {
            assert(all.take(0) =~= Seq::<Seq<IntermediateResult>>::empty());
        }
        while i < games.len()
            invariant
                i <= games.len(),
                all == games_of(games@),
                valid_games(all),
                self.spec_laps() == old(self).spec_laps() + i,
                old(self).spec_laps() + games@.len() <= u64::MAX,
                sums_fit(absorb_all(start, games_updates(all))),
                sums_of(self.tallies()) == absorb_all(start, games_updates(all.take(i as int))),
            decreases games.len() - i,
        {
            let ghost now = sums_of(self.tallies());
            let ghost game = all[i as int];
            proof {
                assert(all.take(i + 1).drop_last() =~= all.take(i as int));
                assert(all.take(i + 1).last() == game);
                let rest = lemma_games_prefix(all, i + 1);
                lemma_prefix_fits(start, games_updates(all.take(i + 1)), rest);
                lemma_absorb_concat(start, games_updates(all.take(i as int)), game_updates(game));
                assert(valid_game(game));
                assert forall|j: int| 0 <= j < game.len() implies {
                    let key = #[trigger] game_updates(game)[j].0;
                    self.tallies().contains_key(key) ==> self.tallies()[key].hits < u64::MAX
                        && self.tallies()[key].value + game_total(game) <= u64::MAX
                } by {
                    let key = game_updates(game)[j].0;
                    merged_sums_law(now, game_updates(game), key);
                    lemma_key_is_hit(game_updates(game), j);
                    if self.tallies().contains_key(key) {
                        assert(now.contains_key(key));
                        assert(absorb_all(now, game_updates(game)).contains_key(key));
                    }
                }
            }
            self.update_scores(&games[i]);
            i += 1;
        }
        assert(all.take(i as int) =~= all);
        self.laps
    }

    /// Fills `optimal_game` with the mean total of every state, in
    /// millionths of a point. What it held before is dropped.
    pub fn update_optimal_game(&self, optimal_game: &mut HashMap<u32, u64>)
        ensures
            final(optimal_game)@ == Map::new(
                |k: u32| self.tallies().contains_key(k),
                |k: u32|
                    spec_mean_micro(
                        self.tallies()[k].value as nat,
                        self.tallies()[k].hits as nat,
                    ) as u64,
            ),
    {
        optimal_game.clear();
        let entries = entries_of(&self.mc_scores);
        let mut i: usize = 0;
        while i < entries.len()
            invariant
                i <= entries.len(),
                forall|k: int|
                    0 <= k < entries.len() ==> self.mc_scores@.contains_key(
                        #[trigger] entries[k].0,
                    ) && self.mc_scores@[entries[k].0] == entries[k].1,
                forall|key: u32| #[trigger]
                    optimal_game@.contains_key(key) ==> self.mc_scores@.contains_key(key)
                        && optimal_game@[key] == spec_mean_micro(
                        self.mc_scores@[key].value as nat,
                        self.mc_scores@[key].hits as nat,
                    ),
                forall|k: int| 0 <= k < i ==> optimal_game@.contains_key(#[trigger] entries[k].0),
            decreases entries.len() - i,
        {
            let (key, tally) = entries[i];
            assert(self.mc_scores@.contains_key(entries[i as int].0));
            optimal_game.insert(key, mean_micro(tally.value, tally.hits));
            i += 1;
        }
        proof {
            let want = Map::new(
                |k: u32| self.tallies().contains_key(k),
                |k: u32|
                    spec_mean_micro(
                        self.tallies()[k].value as nat,
                        self.tallies()[k].hits as nat,
                    ) as u64,
            );
            assert forall|key: u32| want.contains_key(key) implies optimal_game@.contains_key(
                key,
            ) by {
                let k = choose|k: int| 0 <= k < entries.len() && #[trigger] entries[k].0 == key;
                assert(optimal_game@.contains_key(entries[k].0));
            }
            assert(optimal_game@ =~= want);
        }
    }
}

impl MCScore {
    /// The accumulator's table file: the count, then a record for every
    /// state, in no stated order, and nothing after them. Loading the file
    /// into an empty accumulator gives the tallies back.
    pub fn save_scores(&self) -> (file: Vec<u8>)
        ensures
            table_records::<ScoreRecord>(file@) is Ok,
            table_records::<ScoreRecord>(file@)->Ok_0.len() == self.tallies().len(),
            file@ == table_bytes(table_records::<ScoreRecord>(file@)->Ok_0),
            file@.len() == 8 + 20 * self.tallies().len(),
            tallies_after_load(Map::empty(), Some(file@)) == self.tallies(),
    {
        let entries = entries_of(&self.mc_scores);
        let mut records: Vec<ScoreRecord> = Vec::new();
        let mut i: usize = 0;
        while i < entries.len()
            invariant
                i <= entries.len(),
                records@.len() == i,
                forall|k: int|
                    0 <= k < i ==> record_key(#[trigger] records[k]) == entries[k].0 && records[k].hits
                        == entries[k].1.hits && records[k].value == entries[k].1.value,
            decreases entries.len() - i,
        {
            let (key, tally) = entries[i];
            let record = ScoreRecord {
                score: (key / 0x100_0000) as u8,
                hand: ((key / 0x1_0000) % 0x100) as u8,
                available_hands: (key % 0x1_0000) as u16,
                hits: tally.hits,
                value: tally.value,
            };
            records.push(record);
            i += 1;
        }
        let file = encode_table(&records);
        proof {
            table_round_trip(records@);
            lemma_table_bytes_len(records@);
            assert(record_pairs(records@) =~= entries@);
        }
        file
    }

    /// Loads the accumulator's table file. `file` is what the file holds,
    /// or nothing where there is no such file: that is no error but a cold
    /// start, told by `Ok(None)`, and the accumulator stays as it is. A file
    /// that ends early is an error, and nothing of it is entered.
    pub fn load_scores(&mut self, file: Option<&Vec<u8>>) -> (loaded: Result<Option<()>, TableError>)
        ensures
            final(self).spec_laps() == old(self).spec_laps(),
            final(self).tallies() == tallies_after_load(
                old(self).tallies(),
                match file {
                    Some(bytes) => Some(bytes@),
                    None => None,
                },
            ),
            match file {
                None => loaded == Ok::<Option<()>, TableError>(None),
                Some(bytes) => match table_records::<ScoreRecord>(bytes@) {
                    Ok(_) => loaded == Ok::<Option<()>, TableError>(Some(())),
                    Err(e) => loaded == Err::<Option<()>, TableError>(e),
                },
            },
    {
        let bytes = match file {
            None => {
                return Ok(None);
            },
            Some(bytes) => bytes,
        };
        let records = match decode_table::<ScoreRecord>(bytes) {
            Err(e) => {
                return Err(e);
            },
            Ok(records) => records,
        };
        let ghost pairs = record_pairs(records@);
        let mut i: usize = 0;
        assert(pairs.take(0) =~= Seq::<(u32, Tally)>::empty());
        while i < records.len()
            invariant
                i <= records.len(),
                pairs == record_pairs(records@),
                self.laps == old(self).laps,
                self.mc_scores@ == entries_map(old(self).mc_scores@, pairs.take(i as int)),
            decreases records.len() - i,
        {
            let r = records[i];
            let key: u32 = r.score as u32 * 0x100_0000 + r.hand as u32 * 0x1_0000
                + r.available_hands as u32;
            proof {
                assert(pairs.take(i as int + 1).drop_last() =~= pairs.take(i as int));
                assert(pairs.take(i as int + 1).last() == pairs[i as int]);
            }
            self.mc_scores.insert(key, Tally { hits: r.hits, value: r.value });
            i += 1;
        }
        assert(pairs.take(i as int) =~= pairs);
        Ok(Some(()))
    }
}

/// A missing file leaves an accumulator as it is, and what was saved
/// after such a cold start is loaded back as it was saved.
pub proof fn cold_start_law(tallies: Map<u32, Tally>, records: Seq<ScoreRecord>)
    requires
        records.len() <= u64::MAX,
    ensures
        tallies_after_load(tallies, None) == tallies,
        tallies_after_load(Map::empty(), Some(table_bytes(records))) == tallies_loaded(
            Map::empty(),
            records,
        ),
{
    table_round_trip(records);
}

/// The categories that are still open in a game, and the chance by which
/// the next one is picked.
pub struct MCGame {
    rng: rand::rngs::ThreadRng,
    hand_sequence: Vec<usize>,
}

/// The fifteen categories in score-card order.
pub open spec fn all_hands() -> Seq<usize> {
    Seq::new(15, |i: int| i as usize)
}

impl MCGame {
    /// The open categories, in the order in which the game holds them.
    pub closed spec fn open_hands(&self) -> Seq<usize> {
        self.hand_sequence@
    }

    /// Every open category is one of the fifteen, and none is held twice.
    pub open spec fn wf(&self) -> bool {
        &&& self.open_hands().no_duplicates()
        &&& forall|i: int| 0 <= i < self.open_hands().len() ==> #[trigger] self.open_hands()[i] < 15
    }

    fn fresh_sequence() -> (hands: Vec<usize>)
        ensures
            hands@ == all_hands(),
    {
        let mut hands: Vec<usize> = Vec::new();
        let mut i: usize = 0;
        while i < 15
            invariant
                i <= 15,
                hands@ == Seq::new(i as nat, |k: int| k as usize),
            decreases 15 - i,
        {
            hands.push(i);
            assert(hands@ =~= Seq::new((i + 1) as nat, |k: int| k as usize));
            i += 1;
        }
        hands
    }

    pub fn new() -> (game: MCGame)
        ensures
            game.open_hands() == all_hands(),
            game.wf(),
    {
        MCGame { rng: thread_rng(), hand_sequence: MCGame::fresh_sequence() }
    }

    /// Opens all fifteen categories again; returns their number.
    pub fn reset(&mut self) -> (n: usize)
        ensures
            n == 15,
            final(self).open_hands() == all_hands(),
            final(self).wf(),
    {
        self.hand_sequence = MCGame::fresh_sequence();
        self.hand_sequence.len()
    }

    /// The availability mask of the open categories; none where no category
    /// is open.
    pub fn available_hands(&self) -> (mask: Option<u16>)
        requires
            self.wf(),
        ensures
            mask is None <==> self.open_hands().len() == 0,
            mask matches Some(m) ==> forall|pos: u16|
                pos < 16 ==> (#[trigger] has_bit(m, pos) <==> self.open_hands().contains(
                    pos as usize,
                )),
    {
        if self.hand_sequence.len() != 0 {
            Some(self.available_hands_to_code())
        } else {
            None
        }
    }

    /// One of the open categories, picked by chance; it stays open.
    pub fn propose_hand(&mut self) -> (hand: Option<usize>)
        ensures
            final(self).open_hands() == old(self).open_hands(),
            match hand {
                Some(h) => old(self).open_hands().contains(h),
                None => old(self).open_hands().len() == 0,
            },
    {
        choose_item(&mut self.rng, &self.hand_sequence)
    }

    /// Picks one of the open categories by chance and closes it.
    pub fn pick_hand(&mut self) -> (hand: Option<usize>)
        requires
            old(self).wf(),
        ensures
            final(self).wf(),
            match hand {
                Some(h) => {
                    &&& old(self).open_hands().contains(h)
                    &&& !final(self).open_hands().contains(h)
                    &&& final(self).open_hands().len() + 1 == old(self).open_hands().len()
                    &&& forall|x: usize|
                        x != h ==> (final(self).open_hands().contains(x) <==> old(
                            self,
                        ).open_hands().contains(x))
                },
                None => old(self).open_hands().len() == 0 && final(self).open_hands() == old(
                    self,
                ).open_hands(),
            },
    {
        let i = match choose_index(&mut self.rng, self.hand_sequence.len()) {
            Some(i) => i,
            None => {
                return None;
            },
        };
        let ghost before = self.hand_sequence@;
        let hand = self.hand_sequence.swap_remove(i);
        proof {
            let after = self.hand_sequence@;
            let last = before.len() - 1;
            assert forall|a: int, b: int| 0 <= a < after.len() && 0 <= b < after.len() && a
                != b implies after[a] != after[b] by {
                let sa = if a == i {
                    last
                } else {
                    a
                };
                let sb = if b == i {
                    last
                } else {
                    b
                };
                assert(after[a] == before[sa] && after[b] == before[sb]);
            }
            assert forall|k: int| 0 <= k < after.len() implies #[trigger] after[k] < 15 by {
                let sk = if k == i {
                    last
                } else {
                    k
                };
                assert(after[k] == before[sk]);
            }
            assert(before.contains(hand));
            assert(!after.contains(hand)) by {
                if after.contains(hand) {
                    let k = choose|k: int| 0 <= k < after.len() && after[k] == hand;
                    let sk = if k == i {
                        last
                    } else {
                        k
                    };
                    assert(before[sk] == hand && before[i as int] == hand && sk != i);
                }
            }
            assert forall|x: usize| x != hand implies (after.contains(x) <==> before.contains(
                x,
            )) by {
                if after.contains(x) {
                    let k = choose|k: int| 0 <= k < after.len() && after[k] == x;
                    let sk = if k == i {
                        last
                    } else {
                        k
                    };
                    assert(before[sk] == x);
                }
                if before.contains(x) {
                    let k = choose|k: int| 0 <= k < before.len() && before[k] == x;
                    if k == last {
                        assert(after[i as int] == x);
                    } else {
                        assert(after[k] == x);
                    }
                }
            }
        }
        Some(hand)
    }

    fn available_hands_to_code(&self) -> (code: u16)
        requires
            self.wf(),
        ensures
            forall|pos: u16|
                pos < 16 ==> (#[trigger] has_bit(code, pos) <==> self.open_hands().contains(
                    pos as usize,
                )),
    {
        let mut code: u16 = 0;
        let mut i: usize = 0;
        proof {
            crate::utils::lemma_fresh_mask();
        }
        while i < self.hand_sequence.len()
            invariant
                i <= self.hand_sequence.len(),
                self.wf(),
                forall|pos: u16|
                    pos < 16 ==> (#[trigger] has_bit(code, pos) <==> self.hand_sequence@.take(
                        i as int,
                    ).contains(pos as usize)),
            decreases self.hand_sequence.len() - i,
        {
            let s = self.hand_sequence[i] as u16;
            let ghost prefix = self.hand_sequence@.take(i as int);
            let ghost next = self.hand_sequence@.take(i as int + 1);
            proof {
                assert(self.open_hands()[i as int] < 15);
                if prefix.contains(s as usize) {
                    let k = choose|k: int| 0 <= k < prefix.len() && prefix[k] == s as usize;
                    assert(self.open_hands()[k] == self.open_hands()[i as int]);
                }
                assert(!has_bit(code, s));
                assert(code + (1u16 << s) <= 0xFFFF) by (bit_vector)
                    requires
                        s < 16,
                        (code >> s) & 1 != 1,
                ;
            }
            let grown = code + (1u16 << s);
            proof {
                assert forall|pos: u16| pos < 16 implies (#[trigger] has_bit(grown, pos)
                    <==> next.contains(pos as usize)) by {
                    assert((((code + (1u16 << s)) as u16 >> pos) & 1 == 1) <==> (pos == s || (code
                        >> pos) & 1 == 1)) by (bit_vector)
                        requires
                            s < 16,
                            pos < 16,
                            (code >> s) & 1 != 1,
                    ;
                    assert(s as usize == self.hand_sequence@[i as int]);
                    assert(next =~= prefix.push(s as usize));
                    assert(has_bit(code, pos) <==> prefix.contains(pos as usize));
                    assert(has_bit(grown, pos) <==> (pos == s || has_bit(code, pos)));
                    if pos == s {
                        assert(next[i as int] == pos as usize);
                    } else {
                        if prefix.contains(pos as usize) {
                            let k = choose|k: int|
                                0 <= k < prefix.len() && prefix[k] == pos as usize;
                            assert(next[k] == pos as usize);
                        }
                        if next.contains(pos as usize) {
                            let k = choose|k: int| 0 <= k < next.len() && next[k] == pos as usize;
                            assert(k < i);
                            assert(prefix[k] == pos as usize);
                        }
                    }
                }
            }
            code = grown;
            i += 1;
        }
        assert(self.hand_sequence@.take(i as int) =~= self.hand_sequence@);
        code
    }
}

/// What the accumulator's tallies look like as a whole.
#[derive(Clone, Copy, Debug, PartialEq, Eq)]
pub struct ScoreStatistics {
    /// The number of states.
    pub records: usize,
    pub min_hits: u64,
    pub max_hits: u64,
    pub min_score_sum: u64,
    pub max_score_sum: u64,
    /// The lowest mean total of a state, in millionths of a point.
    pub min_score: u64,
    /// The highest mean total of a state, in millionths of a point.
    pub max_score: u64,
    /// Entry `h`, for `h` from 1 to 19, is the number of states with `h`
    /// hits; entry 0 is the number of states that were never seen.
    pub buckets: [u64; 20],
}

/// The number of states that a game can pass through.
pub const N_STATES: u64 = 1966080;

/// The states with exactly `hits` hits.
pub open spec fn states_with_hits(tallies: Map<u32, Tally>, hits: u64) -> Set<u32> {
    Set::new(|k: u32| tallies.contains_key(k) && tallies[k].hits == hits)
}

/// The mean total of a state, in millionths of a point.
pub open spec fn tally_mean(t: Tally) -> nat {
    spec_mean_micro(t.value as nat, t.hits as nat)
}

/// `s` describes the tallies: their number, the least and the largest of
/// their hits, sums and means, and how many states have how few hits.
pub open spec fn describes(s: ScoreStatistics, tallies: Map<u32, Tally>) -> bool {
    &&& s.records == tallies.len()
    &&& forall|k: u32| #[trigger]
        tallies.contains_key(k) ==> {
            &&& s.min_hits <= tallies[k].hits <= s.max_hits
            &&& s.min_score_sum <= tallies[k].value <= s.max_score_sum
            &&& s.min_score <= tally_mean(tallies[k]) <= s.max_score
        }
    &&& exists|k: u32| #[trigger] tallies.contains_key(k) && tallies[k].hits == s.min_hits
    &&& exists|k: u32| #[trigger] tallies.contains_key(k) && tallies[k].hits == s.max_hits
    &&& exists|k: u32| #[trigger] tallies.contains_key(k) && tallies[k].value == s.min_score_sum
    &&& exists|k: u32| #[trigger] tallies.contains_key(k) && tallies[k].value == s.max_score_sum
    &&& exists|k: u32| #[trigger] tallies.contains_key(k) && tally_mean(tallies[k]) == s.min_score
    &&& exists|k: u32| #[trigger] tallies.contains_key(k) && tally_mean(tallies[k]) == s.max_score
    &&& forall|h: u64|
        1 <= h < 20 ==> s.buckets[h as int] == (#[trigger] states_with_hits(tallies, h)).len()
    &&& s.buckets[0] == if s.records <= 1966080 {
        1966080 - s.records
    } else {
        0
    }
}

/// The keys of the first `n` entries that have exactly `hits` hits.
pub open spec fn keys_with_hits(entries: Seq<(u32, Tally)>, n: nat, hits: u64) -> Set<u32>
    decreases n,
{
    if n == 0 || n > entries.len() {
        Set::empty()
    } else {
        let rest = keys_with_hits(entries, (n - 1) as nat, hits);
        if entries[n - 1].1.hits == hits {
            rest.insert(entries[n - 1].0)
        } else {
            rest
        }
    }
}

proof fn lemma_keys_with_hits(entries: Seq<(u32, Tally)>, n: nat, hits: u64)
    requires
        n <= entries.len(),
        forall|i: int, j: int| 0 <= i < j < entries.len() ==> entries[i].0 != entries[j].0,
    ensures
        keys_with_hits(entries, n, hits).finite(),
        keys_with_hits(entries, n, hits).len() <= n,
        forall|k: u32|
            keys_with_hits(entries, n, hits).contains(k) <==> exists|i: int|
                0 <= i < n && (#[trigger] entries[i]).0 == k && entries[i].1.hits == hits,
        n < entries.len() && entries[n as int].1.hits == hits ==> keys_with_hits(
            entries,
            n + 1,
            hits,
        ).len() == keys_with_hits(entries, n, hits).len() + 1,
        n < entries.len() && entries[n as int].1.hits != hits ==> keys_with_hits(
            entries,
            n + 1,
            hits,
        ) == keys_with_hits(entries, n, hits),
    decreases n,
{
    if n > 0 {
        lemma_keys_with_hits(entries, (n - 1) as nat, hits);
        let rest = keys_with_hits(entries, (n - 1) as nat, hits);
        let all = keys_with_hits(entries, n, hits);
        assert forall|k: u32| all.contains(k) <==> exists|i: int|
            0 <= i < n && (#[trigger] entries[i]).0 == k && entries[i].1.hits == hits by {
            if all.contains(k) {
                if rest.contains(k) {
                    let i = choose|i: int|
                        0 <= i < n - 1 && (#[trigger] entries[i]).0 == k && entries[i].1.hits
                            == hits;
                    assert(entries[i].0 == k);
                } else {
                    assert(entries[n - 1].0 == k);
                }
            }
            if exists|i: int|
                0 <= i < n && (#[trigger] entries[i]).0 == k && entries[i].1.hits == hits {
                let i = choose|i: int|
                    0 <= i < n && (#[trigger] entries[i]).0 == k && entries[i].1.hits == hits;
                if i < n - 1 {
                    assert(rest.contains(k));
                }
            }
        }
    }
    if n < entries.len() {
        let cur = keys_with_hits(entries, n, hits);
        let key = entries[n as int].0;
        if cur.contains(key) {
            let i = choose|i: int|
                0 <= i < n && (#[trigger] entries[i]).0 == key && entries[i].1.hits == hits;
            assert(entries[i].0 != entries[n as int].0);
        }
    }
}

impl MCScore {
    /// A summary of the tallies; an error where there are none.
    pub fn statistics(&self) -> (stats: Result<ScoreStatistics, LookupError>)
        ensures
            match stats {
                Ok(s) => self.tallies().len() > 0 && describes(s, self.tallies()),
                Err(e) => e == LookupError::NoEntry && self.tallies().len() == 0,
            },
    {
        let entries = entries_of(&self.mc_scores);
        if entries.len() == 0 {
            return Err(LookupError::NoEntry);
        }
        let ghost tallies = self.mc_scores@;
        let first = entries[0].1;
        let mut s = ScoreStatistics {
            records: entries.len(),
            min_hits: first.hits,
            max_hits: first.hits,
            min_score_sum: first.value,
            max_score_sum: first.value,
            min_score: mean_micro(first.value, first.hits),
            max_score: mean_micro(first.value, first.hits),
            buckets: [0u64;20],
        };
        let mut i: usize = 0;
        proof {
            assert(tallies.contains_key(entries[0].0));
        }
        while i < entries.len()
            invariant
                i <= entries.len(),
                entries.len() > 0,
                s.records == entries.len(),
                forall|a: int, b: int| 0 <= a < b < entries.len() ==> entries[a].0 != entries[b].0,
                forall|k: int|
                    0 <= k < i ==> {
                        let t = (#[trigger] entries[k]).1;
                        &&& s.min_hits <= t.hits <= s.max_hits
                        &&& s.min_score_sum <= t.value <= s.max_score_sum
                        &&& s.min_score <= tally_mean(t) <= s.max_score
                    },
                exists|k: int| 0 <= k < entries.len() && (#[trigger] entries[k]).1.hits == s.min_hits,
                exists|k: int| 0 <= k < entries.len() && (#[trigger] entries[k]).1.hits == s.max_hits,
                exists|k: int|
                    0 <= k < entries.len() && (#[trigger] entries[k]).1.value == s.min_score_sum,
                exists|k: int|
                    0 <= k < entries.len() && (#[trigger] entries[k]).1.value == s.max_score_sum,
                exists|k: int|
                    0 <= k < entries.len() && tally_mean((#[trigger] entries[k]).1) == s.min_score,
                exists|k: int|
                    0 <= k < entries.len() && tally_mean((#[trigger] entries[k]).1) == s.max_score,
                forall|h: u64|
                    1 <= h < 20 ==> s.buckets[h as int] == (#[trigger] keys_with_hits(
                        entries@,
                        i as nat,
                        h,
                    )).len(),
            decreases entries.len() - i,
        {
            let t = entries[i].1;
            let mean = mean_micro(t.value, t.hits);
            if t.hits > s.max_hits {
                s.max_hits = t.hits;
            }
            if t.hits < s.min_hits {
                s.min_hits = t.hits;
            }
            if t.value > s.max_score_sum {
                s.max_score_sum = t.value;
            }
            if t.value < s.min_score_sum {
                s.min_score_sum = t.value;
            }
            if mean > s.max_score {
                s.max_score = mean;
            }
            if mean < s.min_score {
                s.min_score = mean;
            }
            let ghost before = s.buckets;
            if 1 <= t.hits && t.hits < 20 {
                let h = t.hits as usize;
                proof {
                    lemma_keys_with_hits(entries@, i as nat, t.hits);
                    assert(s.buckets[h as int] == keys_with_hits(entries@, i as nat, t.hits).len());
                }
                let bumped = s.buckets[h] + 1;
                s.buckets[h] = bumped;
            }
            let ghost done = i as nat;
            i += 1;
            proof {
                assert forall|h: u64| 1 <= h < 20 implies s.buckets[h as int] == (
                #[trigger] keys_with_hits(entries@, i as nat, h)).len() by {
                    lemma_keys_with_hits(entries@, done, h);
                    assert(done + 1 == i as nat);
                    assert(before[h as int] == keys_with_hits(entries@, done, h).len());
                    if t.hits == h {
                        assert(s.buckets[h as int] == before[h as int] + 1);
                    } else {
                        assert(s.buckets[h as int] == before[h as int]);
                    }
                }
            }
        }
        let unseen = if entries.len() as u64 <= N_STATES {
            N_STATES - entries.len() as u64
        } else {
            0
        };
        s.buckets[0] = unseen;
        proof {
            assert forall|k: u32| #[trigger] tallies.contains_key(k) implies {
                &&& s.min_hits <= tallies[k].hits <= s.max_hits
                &&& s.min_score_sum <= tallies[k].value <= s.max_score_sum
                &&& s.min_score <= tally_mean(tallies[k]) <= s.max_score
            } by {
                let j = choose|j: int| 0 <= j < entries.len() && #[trigger] entries[j].0 == k;
                assert(entries[j].1 == tallies[k]);
            }
            let k1 = choose|k: int| 0 <= k < entries.len() && (#[trigger] entries[k]).1.hits == s.min_hits;
            assert(tallies.contains_key(entries[k1].0));
            let k2 = choose|k: int| 0 <= k < entries.len() && (#[trigger] entries[k]).1.hits == s.max_hits;
            assert(tallies.contains_key(entries[k2].0));
            let k3 = choose|k: int|
                0 <= k < entries.len() && (#[trigger] entries[k]).1.value == s.min_score_sum;
            assert(tallies.contains_key(entries[k3].0));
            let k4 = choose|k: int|
                0 <= k < entries.len() && (#[trigger] entries[k]).1.value == s.max_score_sum;
            assert(tallies.contains_key(entries[k4].0));
            let k5 = choose|k: int|
                0 <= k < entries.len() && tally_mean((#[trigger] entries[k]).1) == s.min_score;
            assert(tallies.contains_key(entries[k5].0));
            let k6 = choose|k: int|
                0 <= k < entries.len() && tally_mean((#[trigger] entries[k]).1) == s.max_score;
            assert(tallies.contains_key(entries[k6].0));
            assert forall|h: u64| 1 <= h < 20 implies s.buckets[h as int] == (
            #[trigger] states_with_hits(tallies, h)).len() by {
                lemma_keys_with_hits(entries@, entries@.len(), h);
                let found = keys_with_hits(entries@, entries@.len(), h);
                let want = states_with_hits(tallies, h);
                assert forall|k: u32| found.contains(k) <==> want.contains(k) by {
                    if found.contains(k) {
                        let j = choose|j: int|
                            0 <= j < entries.len() && (#[trigger] entries[j]).0 == k && entries[j].1.hits
                                == h;
                        assert(tallies.contains_key(entries[j].0));
                    }
                    if want.contains(k) {
                        let j = choose|j: int| 0 <= j < entries.len() && #[trigger] entries[j].0 == k;
                        assert(entries[j].1 == tallies[k]);
                    }
                }
                assert(found =~= want);
            }
        }
        Ok(s)
    }
}

} // verus!
