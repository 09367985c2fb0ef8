use vstd::prelude::*;
use std::collections::HashMap;
use std::hash::Hash;
use vstd::std_specs::hash::obeys_key_model;
use vstd::std_specs::iter::IteratorSpec;
use vstd::seq_lib::*;
use crate::dices::Throw;
use crate::tally::{
    absorb, absorb_all, lemma_absorb_commutes, lemma_prefix_fits, sums_fit, Sum,
};

pub mod rules;

verus! {

broadcast use vstd::std_specs::hash::group_hash_axioms;

/// The mean of `hits` scores that add up to `sum`, in millionths of a point
/// and rounded down; 0 where there are no scores, and the largest `u64`
/// where the mean is larger than that.
pub open spec fn spec_mean_micro(sum: nat, hits: nat) -> nat {
    if hits == 0 {
        0
    } else if sum * 1_000_000 / hits > u64::MAX {
        u64::MAX as nat
    } else {
        sum * 1_000_000 / hits
    }
}

/// The mean of `hits` scores that add up to `sum`, in millionths of a
/// point.
pub fn mean_micro(sum: u64, hits: u64) -> (mean: u64)
    ensures
        mean == spec_mean_micro(sum as nat, hits as nat),
{
    mean_micro_wide(sum as u128, hits)
}

/// The mean of `hits` scores whose sum needs more than 64 bits.
pub fn mean_micro_wide(sum: u128, hits: u64) -> (mean: u64)
    requires
        sum < 0x10_0000_0000_0000_0000_0000_0000,
    ensures
        mean == spec_mean_micro(sum as nat, hits as nat),
{
    if hits == 0 {
        0
    } else {
        let q: u128 = (sum * 1_000_000) / (hits as u128);
        if q > u64::MAX as u128 {
            u64::MAX
        } else {
            q as u64
        }
    }
}

/// The map `base` after the entries were entered one after the other; a
/// later entry for a key replaces an earlier one.
pub open spec fn entries_map<K, V>(base: Map<K, V>, entries: Seq<(K, V)>) -> Map<K, V>
    decreases entries.len(),
{
    if entries.len() == 0 {
        base
    } else {
        entries_map(base, entries.drop_last()).insert(entries.last().0, entries.last().1)
    }
}

/// Entries that are all of a table, and that leave out none of its keys,
/// make up the table when they are entered into an empty map.
pub proof fn lemma_entries_make_table<K, V>(entries: Seq<(K, V)>, table: Map<K, V>)
    requires
        forall|i: int|
            0 <= i < entries.len() ==> table.contains_key((#[trigger] entries[i]).0)
                && table[entries[i].0] == entries[i].1,
        forall|k: K|
            table.contains_key(k) ==> exists|i: int|
                0 <= i < entries.len() && (#[trigger] entries[i]).0 == k,
    ensures
        entries_map(Map::empty(), entries) == table,
{
    lemma_entries_within_table(entries, table, entries.len() as int);
    assert(entries.take(entries.len() as int) =~= entries);
    let made = entries_map(Map::<K, V>::empty(), entries);
    assert forall|k: K| table.contains_key(k) implies made.contains_key(k) by {
        let i = choose|i: int| 0 <= i < entries.len() && (#[trigger] entries[i]).0 == k;
        assert(entries[i].0 == k);
    }
    assert(made =~= table);
}

proof fn lemma_entries_within_table<K, V>(entries: Seq<(K, V)>, table: Map<K, V>, n: int)
    requires
        0 <= n <= entries.len(),
        forall|i: int|
            0 <= i < entries.len() ==> table.contains_key((#[trigger] entries[i]).0)
                && table[entries[i].0] == entries[i].1,
    ensures
        forall|k: K| #[trigger]
            entries_map(Map::empty(), entries.take(n)).contains_key(k) ==> table.contains_key(k)
                && entries_map(Map::empty(), entries.take(n))[k] == table[k],
        forall|i: int|
            0 <= i < n ==> entries_map(Map::empty(), entries.take(n)).contains_key(
                (#[trigger] entries[i]).0,
            ),
    decreases n,
{
    if n > 0 {
        lemma_entries_within_table(entries, table, n - 1);
        let cur = entries.take(n);
        let prev = entries.take(n - 1);
        assert(cur.drop_last() =~= prev);
        assert(cur.last() == entries[n - 1]);
        let before = entries_map(Map::<K, V>::empty(), prev);
        let after = entries_map(Map::<K, V>::empty(), cur);
        assert forall|k: K| #[trigger] after.contains_key(k) implies table.contains_key(k)
            && after[k] == table[k] by {
            if k != entries[n - 1].0 {
                assert(before.contains_key(k));
            }
        }
        assert forall|i: int| 0 <= i < n implies after.contains_key((#[trigger] entries[i]).0) by {
            if i < n - 1 {
                assert(before.contains_key(entries[i].0));
            }
        }
    } else {
        assert(entries.take(0) =~= Seq::<(K, V)>::empty());
    }
}

/// The entries of a map, each key once, in no stated order.
pub fn entries_of<K: Copy + Eq + Hash, V: Copy>(m: &HashMap<K, V>) -> (entries: Vec<(K, V)>)
    requires
        obeys_key_model::<K>(),
    ensures
        entries@.len() == m@.len(),
        entries_map(Map::empty(), entries@) == m@,
        forall|i: int|
            0 <= i < entries.len() ==> m@.contains_key(#[trigger] entries[i].0) && m@[entries[i].0]
                == entries[i].1,
        forall|k: K|
            m@.contains_key(k) ==> exists|i: int|
                0 <= i < entries.len() && #[trigger] entries[i].0 == k,
        forall|i: int, j: int| 0 <= i < j < entries.len() ==> entries[i].0 != entries[j].0,
{
    let mut entries: Vec<(K, V)> = Vec::new();
    let ghost items = m.iter().remaining();
    for kv in it: m.iter()
        invariant
            it.seq() == items,
            items.no_duplicates(),
            entries.len() == it.index(),
            forall|i: int|
                0 <= i < entries.len() ==> (#[trigger] entries[i]).0 == *it.seq()[i].0
                    && entries[i].1 == *it.seq()[i].1,
    {
        let (k, v) = kv;
        entries.push((*k, *v));
    }
    proof {
        assert(entries.len() == items.len());
        assert forall|k: K| m@.contains_key(k) implies exists|i: int|
            0 <= i < entries.len() && #[trigger] entries[i].0 == k by {
            assert(items.contains((&k, &m@[k])));
            let i = choose|i: int| 0 <= i < items.len() && items[i] == (&k, &m@[k]);
            assert(entries[i].0 == k);
        }
        assert forall|i: int, j: int| 0 <= i < j < entries.len() implies entries[i].0
            != entries[j].0 by {
            if entries[i].0 == entries[j].0 {
                assert(m@.contains_key(*items[i].0) && m@[*items[i].0] == *items[i].1);
                assert(m@.contains_key(*items[j].0) && m@[*items[j].0] == *items[j].1);
                assert(items[i] == items[j]);
            }
        }
        lemma_entries_make_table(entries@, m@);
    }
    entries
}

/// The key under which a throw and a hold are counted together.
pub open spec fn pair_key(thrown: u16, hold: u16) -> u32 {
    (thrown as u32 * 65536 + hold as u32) as u32
}

/// What was seen of one hold after one throw: the hold's size, how often it
/// was tried and what those tries scored in all.
#[derive(Clone, Copy, Debug, PartialEq, Eq, Structural)]
pub struct HoldTally {
    pub hold_len: u8,
    pub hits: u64,
    pub value: u64,
}

/// The hold to keep after a throw: its size, its code and the expected
/// final score in millionths of a point.
#[derive(Clone, Copy, Debug, PartialEq, Eq, Structural)]
pub struct HoldChoice {
    pub hold_len: u8,
    pub hold: u16,
    pub score: u64,
}

/// The tally as it stands after one more try of the hold that scored
/// `score`.
pub open spec fn tally_after(before: Option<HoldTally>, hold_len: u8, score: u8) -> HoldTally {
    match before {
        Some(t) => HoldTally {
            hold_len,
            hits: (t.hits + 1) as u64,
            value: (t.value + score) as u64,
        },
        None => HoldTally { hold_len, hits: 1, value: score as u64 },
    }
}

/// `choices` holds, for every throw after which `tallies` knows a hold of at
/// most `min_holds` dice, one such hold whose mean score no other such hold
/// of that throw exceeds; and nothing else.
pub open spec fn is_best_holds(
    tallies: Map<u32, HoldTally>,
    choices: Map<u16, HoldChoice>,
    min_holds: u8,
) -> bool {
    &&& forall|thrown: u16, hold: u16|
        #![trigger tallies.contains_key(pair_key(thrown, hold))]
        tallies.contains_key(pair_key(thrown, hold)) && tallies[pair_key(thrown, hold)].hold_len
            <= min_holds ==> choices.contains_key(thrown) && choices[thrown].score
            >= spec_mean_micro(
            tallies[pair_key(thrown, hold)].value as nat,
            tallies[pair_key(thrown, hold)].hits as nat,
        )
    &&& forall|thrown: u16| #[trigger]
        choices.contains_key(thrown) ==> {
            let choice = choices[thrown];
            let key = pair_key(thrown, choice.hold);
            &&& tallies.contains_key(key)
            &&& tallies[key].hold_len == choice.hold_len
            &&& choice.hold_len <= min_holds
            &&& choice.score == spec_mean_micro(
                tallies[key].value as nat,
                tallies[key].hits as nat,
            )
        }
}

/// The learned hold policy of one category: for each throw stage that is
/// followed by a hold, the best hold after each throw.
pub struct OptimalHolds {
    first: HashMap<u16, HoldChoice>,
    second: HashMap<u16, HoldChoice>,
}

impl OptimalHolds {
    /// The table of a throw stage; the last stage has none.
    pub closed spec fn choices(&self, throw: Throw) -> Map<u16, HoldChoice> {
        match throw {
            Throw::First => self.first@,
            Throw::Second => self.second@,
            Throw::Third => Map::empty(),
        }
    }

    pub fn new() -> (holds: OptimalHolds)
        ensures
            holds.choices(Throw::First) == Map::<u16, HoldChoice>::empty(),
            holds.choices(Throw::Second) == Map::<u16, HoldChoice>::empty(),
    {
        OptimalHolds { first: HashMap::new(), second: HashMap::new() }
    }

    /// The hold to keep at stage `throw` after the throw `thrown`.
    pub fn get(&self, throw: Throw, thrown: u16) -> (choice: Option<HoldChoice>)
        ensures
            choice == if self.choices(throw).contains_key(thrown) {
                Some(self.choices(throw)[thrown])
            } else {
                None
            },
    {
        let found = match throw {
            Throw::First => self.first.get(&thrown),
            Throw::Second => self.second.get(&thrown),
            Throw::Third => None,
        };
        match found {
            Some(c) => Some(*c),
            None => None,
        }
    }

    /// Sets the hold to keep at stage `throw` after the throw `thrown`; the
    /// last stage takes none.
    pub fn insert(&mut self, throw: Throw, thrown: u16, choice: HoldChoice)
        ensures
            throw != Throw::Third ==> final(self).choices(throw) == old(self).choices(throw).insert(
                thrown,
                choice,
            ),
            forall|other: Throw|
                other != throw || throw == Throw::Third ==> final(self).choices(other) == old(
                    self,
                ).choices(other),
    {
        match throw {
            Throw::First => {
                self.first.insert(thrown, choice);
            },
            Throw::Second => {
                self.second.insert(thrown, choice);
            },
            Throw::Third => {},
        }
    }

    /// The last stage has no hold decision and so no table.
    pub proof fn lemma_last_stage(&self)
        ensures
            self.choices(Throw::Third) == Map::<u16, HoldChoice>::empty(),
    {
    }

    /// The table of a throw stage; none for the last stage.
    pub fn table(&self, throw: Throw) -> (table: Option<&HashMap<u16, HoldChoice>>)
        ensures
            match table {
                Some(t) => throw != Throw::Third && t@ == self.choices(throw),
                None => throw == Throw::Third,
            },
    {
        match throw {
            Throw::First => Some(&self.first),
            Throw::Second => Some(&self.second),
            Throw::Third => None,
        }
    }

    /// Empties both tables.
    pub fn clear(&mut self)
        ensures
            final(self).choices(Throw::First) == Map::<u16, HoldChoice>::empty(),
            final(self).choices(Throw::Second) == Map::<u16, HoldChoice>::empty(),
    {
        self.first.clear();
        self.second.clear();
    }

    /// The entries of a stage's table, each throw once, in no stated order.
    pub fn entries(&self, throw: Throw) -> (entries: Vec<(u16, HoldChoice)>)
        ensures
            entries@.len() == self.choices(throw).len(),
            forall|i: int|
                0 <= i < entries.len() ==> self.choices(throw).contains_key(
                    #[trigger] entries[i].0,
                ) && self.choices(throw)[entries[i].0] == entries[i].1,
            forall|k: u16|
                self.choices(throw).contains_key(k) ==> exists|i: int|
                    0 <= i < entries.len() && #[trigger] entries[i].0 == k,
            forall|i: int, j: int| 0 <= i < j < entries.len() ==> entries[i].0 != entries[j].0,
    {
        match throw {
            Throw::First => entries_of(&self.first),
            Throw::Second => entries_of(&self.second),
            Throw::Third => {
                assert(self.choices(throw).len() == 0);
                Vec::new()
            },
        }
    }
}

/// One try of a hold: the stage, the throw, the hold and its size, and what
/// the turn went on to score.
#[derive(Clone, Copy, Debug, PartialEq, Eq, Structural)]
pub struct HoldUpdate {
    pub throw: Throw,
    pub t_code: u16,
    pub s_code: u16,
    pub s_len: u8,
    pub score: u8,
}

/// The hits and sums that the tallies stand for.
pub open spec fn hold_sums(tallies: Map<u32, HoldTally>) -> Map<u32, Sum> {
    Map::new(
        |k: u32| tallies.contains_key(k),
        |k: u32| Sum { hits: tallies[k].hits as nat, value: tallies[k].value as nat },
    )
}

/// Whether a try is counted at stage `throw`: it names that stage, and the
/// stage has a hold decision.
pub open spec fn counts_at(u: HoldUpdate, throw: Throw) -> bool {
    u.throw == throw && throw != Throw::Third
}

/// What the tries bring to stage `throw`: for each try of that stage, the
/// key of throw and hold, and the score. The last stage gets nothing.
pub open spec fn stage_updates(tries: Seq<HoldUpdate>, throw: Throw) -> Seq<(u32, nat)>
    decreases tries.len(),
{
    if tries.len() == 0 {
        Seq::empty()
    } else {
        let before = stage_updates(tries.drop_last(), throw);
        let u = tries.last();
        if counts_at(u, throw) {
            before.push((pair_key(u.t_code, u.s_code), u.score as nat))
        } else {
            before
        }
    }
}

/// The tallies of stage `throw` after the tries were counted one after the
/// other: each try of the stage adds a hit and its score to the tally of
/// its throw and hold, and leaves the size of the hold there.
pub open spec fn tallies_after(
    tallies: Map<u32, HoldTally>,
    tries: Seq<HoldUpdate>,
    throw: Throw,
) -> Map<u32, HoldTally>
    decreases tries.len(),
{
    if tries.len() == 0 {
        tallies
    } else {
        let before = tallies_after(tallies, tries.drop_last(), throw);
        let u = tries.last();
        let key = pair_key(u.t_code, u.s_code);
        if counts_at(u, throw) {
            before.insert(
                key,
                tally_after(
                    if before.contains_key(key) {
                        Some(before[key])
                    } else {
                        None
                    },
                    u.s_len,
                    u.score,
                ),
            )
        } else {
            before
        }
    }
}

/// Counting one try at stage `throw`: the step from one accumulator to the
/// next.
pub open spec fn count_try(throw: Throw) -> spec_fn(Map<u32, Sum>, HoldUpdate) -> Map<u32, Sum> {
    |sums: Map<u32, Sum>, u: HoldUpdate|
        if counts_at(u, throw) {
            absorb(sums, pair_key(u.t_code, u.s_code), u.score as nat)
        } else {
            sums
        }
}

/// Counting one more try of a hold in its tally is the update of the sums.
proof fn lemma_hold_tally_absorbs(tallies: Map<u32, HoldTally>, key: u32, s_len: u8, score: u8)
    requires
        tallies.contains_key(key) ==> tallies[key].hits < u64::MAX && tallies[key].value + score
            <= u64::MAX,
    ensures
        hold_sums(
            tallies.insert(
                key,
                tally_after(
                    if tallies.contains_key(key) {
                        Some(tallies[key])
                    } else {
                        None
                    },
                    s_len,
                    score,
                ),
            ),
        ) == absorb(hold_sums(tallies), key, score as nat),
{
    let after = tallies.insert(
        key,
        tally_after(
            if tallies.contains_key(key) {
                Some(tallies[key])
            } else {
                None
            },
            s_len,
            score,
        ),
    );
    assert(hold_sums(after) =~= absorb(hold_sums(tallies), key, score as nat));
}

/// What all tries bring to a stage begins with what the first `n` bring.
proof fn lemma_stage_prefix(tries: Seq<HoldUpdate>, throw: Throw, n: int) -> (rest: Seq<(u32, nat)>)
    requires
        0 <= n <= tries.len(),
    ensures
        stage_updates(tries, throw) == stage_updates(tries.take(n), throw) + rest,
    decreases tries.len(),
{
    if n == tries.len() {
        assert(tries.take(n) =~= tries);
        assert(stage_updates(tries, throw) + Seq::<(u32, nat)>::empty() =~= stage_updates(
            tries,
            throw,
        ));
        Seq::empty()
    } else {
        let before = lemma_stage_prefix(tries.drop_last(), throw, n);
        assert(tries.drop_last().take(n) =~= tries.take(n));
        let u = tries.last();
        let rest = if counts_at(u, throw) {
            before.push((pair_key(u.t_code, u.s_code), u.score as nat))
        } else {
            before
        };
        assert(stage_updates(tries, throw) =~= stage_updates(tries.take(n), throw) + rest);
        rest
    }
}

/// Counting the tries one by one is merging what they bring to the stage.
proof fn lemma_tries_fold(sums: Map<u32, Sum>, tries: Seq<HoldUpdate>, throw: Throw)
    ensures
        tries.fold_left(sums, count_try(throw)) == absorb_all(sums, stage_updates(tries, throw)),
    decreases tries.len(),
{
    if tries.len() > 0 {
        lemma_tries_fold(sums, tries.drop_last(), throw);
        let before = stage_updates(tries.drop_last(), throw);
        let u = tries.last();
        if counts_at(u, throw) {
            let next = before.push((pair_key(u.t_code, u.s_code), u.score as nat));
            assert(next.drop_last() =~= before);
        }
    }
}

/// Tries of holds bring each stage of the accumulator to the same hits and
/// sums in whatever order they are counted, however many they are; the
/// last stage stays as it is.
pub proof fn holds_order_law(
    sums: Map<u32, Sum>,
    one: Seq<HoldUpdate>,
    other: Seq<HoldUpdate>,
    throw: Throw,
)
    requires
        one.to_multiset() == other.to_multiset(),
    ensures
        absorb_all(sums, stage_updates(one, throw)) == absorb_all(
            sums,
            stage_updates(other, throw),
        ),
        absorb_all(sums, stage_updates(one, Throw::Third)) == sums,
{
    let f = count_try(throw);
    assert(commutative_foldl(f)) by {
        assert forall|x: HoldUpdate, y: HoldUpdate, v: Map<u32, Sum>| #[trigger]
            f(f(v, x), y) == f(f(v, y), x) by {
            lemma_absorb_commutes(
                v,
                (pair_key(x.t_code, x.s_code), x.score as nat),
                (pair_key(y.t_code, y.s_code), y.score as nat),
            );
        }
    }
    lemma_fold_left_permutation(one, other, f, sums);
    lemma_tries_fold(sums, one, throw);
    lemma_tries_fold(sums, other, throw);
    lemma_no_last_stage(one);
}

/// No try changes the tallies of the last stage.
proof fn lemma_last_stage_stays(tallies: Map<u32, HoldTally>, tries: Seq<HoldUpdate>)
    ensures
        tallies_after(tallies, tries, Throw::Third) == tallies,
    decreases tries.len(),
{
    if tries.len() > 0 {
        lemma_last_stage_stays(tallies, tries.drop_last());
    }
}

/// No try brings anything to the last stage.
proof fn lemma_no_last_stage(tries: Seq<HoldUpdate>)
    ensures
        stage_updates(tries, Throw::Third) == Seq::<(u32, nat)>::empty(),
    decreases tries.len(),
{
    if tries.len() > 0 {
        lemma_no_last_stage(tries.drop_last());
    }
}

/// The Monte-Carlo accumulator of one category's hold learner: for each
/// throw stage, what was seen of each hold after each throw.
pub struct MCHands {
    first: HashMap<u32, HoldTally>,
    second: HashMap<u32, HoldTally>,
}

impl MCHands {
    /// The tallies of a throw stage, by `pair_key`; the last stage has none.
    pub closed spec fn tallies(&self, throw: Throw) -> Map<u32, HoldTally> {
        match throw {
            Throw::First => self.first@,
            Throw::Second => self.second@,
            Throw::Third => Map::empty(),
        }
    }

    /// The last stage has no hold and so no tallies.
    pub proof fn lemma_last_stage(&self)
        ensures
            self.tallies(Throw::Third) == Map::<u32, HoldTally>::empty(),
    {
    }

    /// Whether one more try of the hold fits the counters.
    pub open spec fn can_update(&self, throw: Throw, t_code: u16, s_code: u16, score: u8) -> bool {
        let key = pair_key(t_code, s_code);
        self.tallies(throw).contains_key(key) ==> self.tallies(throw)[key].hits < u64::MAX
            && self.tallies(throw)[key].value + score <= u64::MAX
    }

    pub fn new() -> (mc: MCHands)
        ensures
            mc.tallies(Throw::First) == Map::<u32, HoldTally>::empty(),
            mc.tallies(Throw::Second) == Map::<u32, HoldTally>::empty(),
    {
        MCHands { first: HashMap::new(), second: HashMap::new() }
    }

    /// What was seen of the hold `s_code` after the throw `t_code`.
    pub fn get(&self, throw: Throw, t_code: u16, s_code: u16) -> (tally: Option<HoldTally>)
        ensures
            tally == if self.tallies(throw).contains_key(pair_key(t_code, s_code)) {
                Some(self.tallies(throw)[pair_key(t_code, s_code)])
            } else {
                None
            },
    {
        let key: u32 = t_code as u32 * 65536 + s_code as u32;
        let found = match throw {
            Throw::First => self.first.get(&key),
            Throw::Second => self.second.get(&key),
            Throw::Third => None,
        };
        match found {
            Some(t) => Some(*t),
            None => None,
        }
    }

    /// Counts one try of the hold `s_code` of `s_len` dice after the throw
    /// `t_code`, which went on to score `score`. The last stage has no hold
    /// and counts nothing.
    pub fn update_scores(&mut self, throw: Throw, t_code: u16, s_code: u16, s_len: u8, score: u8)
        requires
            old(self).can_update(throw, t_code, s_code, score),
        ensures
            throw != Throw::Third ==> final(self).tallies(throw) == old(self).tallies(throw).insert(
                pair_key(t_code, s_code),
                tally_after(
                    if old(self).tallies(throw).contains_key(pair_key(t_code, s_code)) {
                        Some(old(self).tallies(throw)[pair_key(t_code, s_code)])
                    } else {
                        None
                    },
                    s_len,
                    score,
                ),
            ),
            forall|other: Throw|
                other != throw || throw == Throw::Third ==> final(self).tallies(other) == old(
                    self,
                ).tallies(other),
    {
        let key: u32 = t_code as u32 * 65536 + s_code as u32;
        let before = self.get(throw, t_code, s_code);
        let after = match before {
            Some(t) => HoldTally { hold_len: s_len, hits: t.hits + 1, value: t.value + score as u64 },
            None => HoldTally { hold_len: s_len, hits: 1, value: score as u64 },
        };
        match throw {
            Throw::First => {
                self.first.insert(key, after);
            },
            Throw::Second => {
                self.second.insert(key, after);
            },
            Throw::Third => {},
        }
    }

    /// Whether all the tries fit the counters: every hold's hits and sum
    /// after the last of them.
    pub open spec fn can_update_all(&self, tries: Seq<HoldUpdate>) -> bool {
        forall|throw: Throw|
            sums_fit(
                absorb_all(hold_sums(self.tallies(throw)), #[trigger] stage_updates(tries, throw)),
            )
    }

    /// Counts tries of holds, one after the other, each at its stage. The
    /// hits and sums of a stage are then those that its tries bring, in
    /// whatever order they came.
    pub fn update_all(&mut self, tries: &Vec<HoldUpdate>)
        requires
            old(self).can_update_all(tries@),
        ensures
            forall|throw: Throw|
                final(self).tallies(throw) == #[trigger] tallies_after(
                    old(self).tallies(throw),
                    tries@,
                    throw,
                ),
            forall|throw: Throw|
                hold_sums(final(self).tallies(throw)) == absorb_all(
                    hold_sums(old(self).tallies(throw)),
                    #[trigger] stage_updates(tries@, throw),
                ),
    {
        let ghost first = hold_sums(self.tallies(Throw::First));
        let ghost second = hold_sums(self.tallies(Throw::Second));
        let mut i: usize = 0;
        proof {
            assert(tries@.take(0) =~= Seq::<HoldUpdate>::empty());
        }
        while i < tries.len()
            invariant
                i <= tries.len(),
                first == hold_sums(old(self).tallies(Throw::First)),
                second == hold_sums(old(self).tallies(Throw::Second)),
                sums_fit(absorb_all(first, stage_updates(tries@, Throw::First))),
                sums_fit(absorb_all(second, stage_updates(tries@, Throw::Second))),
                hold_sums(self.tallies(Throw::First)) == absorb_all(
                    first,
                    stage_updates(tries@.take(i as int), Throw::First),
                ),
                hold_sums(self.tallies(Throw::Second)) == absorb_all(
                    second,
                    stage_updates(tries@.take(i as int), Throw::Second),
                ),
                self.tallies(Throw::First) == tallies_after(
                    old(self).tallies(Throw::First),
                    tries@.take(i as int),
                    Throw::First,
                ),
                self.tallies(Throw::Second) == tallies_after(
                    old(self).tallies(Throw::Second),
                    tries@.take(i as int),
                    Throw::Second,
                ),
            decreases tries.len() - i,
        {
            let u = tries[i];
            let ghost key = pair_key(u.t_code, u.s_code);
            let ghost before = *self;
            proof {
                assert(tries@.take(i + 1).drop_last() =~= tries@.take(i as int));
                assert(tries@.take(i + 1).last() == u);
                if u.throw != Throw::Third {
                    let start = if u.throw == Throw::First {
                        first
                    } else {
                        second
                    };
                    let so_far = stage_updates(tries@.take(i as int), u.throw);
                    let next = stage_updates(tries@.take(i + 1), u.throw);
                    assert(next == so_far.push((key, u.score as nat)));
                    assert(next.drop_last() =~= so_far);
                    let rest = lemma_stage_prefix(tries@, u.throw, i + 1);
                    lemma_prefix_fits(start, next, rest);
                    let now = hold_sums(self.tallies(u.throw));
                    assert(absorb_all(start, next) == absorb(now, key, u.score as nat));
                    if self.tallies(u.throw).contains_key(key) {
                        let after = absorb(now, key, u.score as nat);
                        assert(now.contains_key(key));
                        assert(after.contains_key(key));
                        assert(after[key].hits == now[key].hits + 1);
                        assert(after[key].value == now[key].value + u.score);
                    }
                    lemma_hold_tally_absorbs(self.tallies(u.throw), key, u.s_len, u.score);
                } else {
                    self.lemma_last_stage();
                }
            }
            self.update_scores(u.throw, u.t_code, u.s_code, u.s_len, u.score);
            proof {
                assert(self.tallies(Throw::First) == before.tallies(Throw::First) || u.throw
                    == Throw::First);
                assert(self.tallies(Throw::Second) == before.tallies(Throw::Second) || u.throw
                    == Throw::Second);
            }
            i += 1;
        }
        proof {
            assert(tries@.take(i as int) =~= tries@);
            lemma_no_last_stage(tries@);
            self.lemma_last_stage();
            old(self).lemma_last_stage();
            assert forall|throw: Throw|
                self.tallies(throw) == #[trigger] tallies_after(
                    old(self).tallies(throw),
                    tries@,
                    throw,
                ) by {
                if throw == Throw::Third {
                    lemma_last_stage_stays(old(self).tallies(throw), tries@);
                }
            }
            assert forall|throw: Throw|
                hold_sums(self.tallies(throw)) == absorb_all(
                    hold_sums(old(self).tallies(throw)),
                    #[trigger] stage_updates(tries@, throw),
                ) by {
                if throw == Throw::Third {
                    assert(hold_sums(Map::<u32, HoldTally>::empty()) =~= Map::<u32, Sum>::empty());
                }
            }
        }
    }

    /// The tallies of a stage, each pair of throw and hold once, in no
    /// stated order, as throw code, hold code and tally.
    pub fn entries(&self, throw: Throw) -> (entries: Vec<(u16, u16, HoldTally)>)
        ensures
            entries@.len() == self.tallies(throw).len(),
            forall|i: int|
                0 <= i < entries.len() ==> self.tallies(throw).contains_key(
                    #[trigger] pair_key(entries[i].0, entries[i].1),
                ) && self.tallies(throw)[pair_key(entries[i].0, entries[i].1)] == entries[i].2,
            forall|thrown: u16, hold: u16|
                self.tallies(throw).contains_key(#[trigger] pair_key(thrown, hold)) ==> exists|
                    i: int,
                |
                    0 <= i < entries.len() && #[trigger] entries[i].0 == thrown && entries[i].1
                        == hold,
    {
        let raw = match throw {
            Throw::First => entries_of(&self.first),
            Throw::Second => entries_of(&self.second),
            Throw::Third => {
                assert(self.tallies(throw).len() == 0);
                Vec::new()
            },
        };
        let mut entries: Vec<(u16, u16, HoldTally)> = Vec::new();
        let mut i: usize = 0;
        while i < raw.len()
            invariant
                i <= raw.len(),
                entries.len() == i,
                forall|k: int|
                    0 <= k < i ==> pair_key((#[trigger] entries[k]).0, entries[k].1) == raw[k].0
                        && entries[k].2 == raw[k].1,
            decreases raw.len() - i,
        {
            let (key, tally) = raw[i];
            entries.push(((key / 65536) as u16, (key % 65536) as u16, tally));
            i += 1;
        }
        proof {
            assert forall|thrown: u16, hold: u16|
                self.tallies(throw).contains_key(
                    #[trigger] pair_key(thrown, hold),
                ) implies exists|i: int|
                0 <= i < entries.len() && #[trigger] entries[i].0 == thrown && entries[i].1
                    == hold by {
                let key = pair_key(thrown, hold);
                let i = choose|i: int| 0 <= i < raw.len() && #[trigger] raw[i].0 == key;
                assert(pair_key(entries[i].0, entries[i].1) == key);
            }
        }
        entries
    }

    /// Fills `opt_holds` with the best hold after each throw, for both
    /// stages: among the holds of at most `min_holds` dice, one with the
    /// highest mean score. What `opt_holds` held before is dropped.
    pub fn update_optimal_holds(&self, opt_holds: &mut OptimalHolds, min_holds: u8)
        ensures
            is_best_holds(
                self.tallies(Throw::First),
                final(opt_holds).choices(Throw::First),
                min_holds,
            ),
            is_best_holds(
                self.tallies(Throw::Second),
                final(opt_holds).choices(Throw::Second),
                min_holds,
            ),
    {
        opt_holds.clear();
        self.update_stage(opt_holds, Throw::First, min_holds);
        self.update_stage(opt_holds, Throw::Second, min_holds);
    }

    fn update_stage(&self, opt_holds: &mut OptimalHolds, throw: Throw, min_holds: u8)
        requires
            throw != Throw::Third,
            old(opt_holds).choices(throw) == Map::<u16, HoldChoice>::empty(),
        ensures
            is_best_holds(self.tallies(throw), final(opt_holds).choices(throw), min_holds),
            forall|other: Throw|
                other != throw ==> final(opt_holds).choices(other) == old(opt_holds).choices(other),
    {
        let entries = self.entries(throw);
        let ghost tallies = self.tallies(throw);
        let mut i: usize = 0;
        while i < entries.len()
            invariant
                i <= entries.len(),
                throw != Throw::Third,
                tallies == self.tallies(throw),
                forall|k: int|
                    0 <= k < entries.len() ==> tallies.contains_key(
                        #[trigger] pair_key(entries[k].0, entries[k].1),
                    ) && tallies[pair_key(entries[k].0, entries[k].1)] == entries[k].2,
                forall|other: Throw|
                    other != throw ==> opt_holds.choices(other) == old(opt_holds).choices(other),
                forall|k: int|
                    0 <= k < i && (#[trigger] entries[k]).2.hold_len <= min_holds
                        ==> opt_holds.choices(throw).contains_key(entries[k].0)
                        && opt_holds.choices(throw)[entries[k].0].score >= spec_mean_micro(
                        entries[k].2.value as nat,
                        entries[k].2.hits as nat,
                    ),
                forall|thrown: u16| #[trigger]
                    opt_holds.choices(throw).contains_key(thrown) ==> {
                        let choice = opt_holds.choices(throw)[thrown];
                        let key = pair_key(thrown, choice.hold);
                        &&& tallies.contains_key(key)
                        &&& tallies[key].hold_len == choice.hold_len
                        &&& choice.hold_len <= min_holds
                        &&& choice.score == spec_mean_micro(
                            tallies[key].value as nat,
                            tallies[key].hits as nat,
                        )
                    },
            decreases entries.len() - i,
        {
            let (thrown, hold, tally) = entries[i];
            assert(tallies.contains_key(pair_key(entries[i as int].0, entries[i as int].1)));
            if tally.hold_len <= min_holds {
                let mean = mean_micro(tally.value, tally.hits);
                let better = match opt_holds.get(throw, thrown) {
                    Some(choice) => mean > choice.score,
                    None => true,
                };
                if better {
                    opt_holds.insert(
                        throw,
                        thrown,
                        HoldChoice { hold_len: tally.hold_len, hold, score: mean },
                    );
                }
            }
            i += 1;
        }
        proof {
            let choices = opt_holds.choices(throw);
            assert forall|thrown: u16, hold: u16|
                #![trigger tallies.contains_key(pair_key(thrown, hold))]
                tallies.contains_key(pair_key(thrown, hold)) && tallies[pair_key(
                    thrown,
                    hold,
                )].hold_len <= min_holds implies choices.contains_key(thrown)
                && choices[thrown].score >= spec_mean_micro(
                tallies[pair_key(thrown, hold)].value as nat,
                tallies[pair_key(thrown, hold)].hits as nat,
            ) by {
                let k = choose|k: int|
                    0 <= k < entries.len() && #[trigger] entries[k].0 == thrown && entries[k].1
                        == hold;
                assert(entries[k].2 == tallies[pair_key(thrown, hold)]);
            }
        }
    }
}

} // verus!
