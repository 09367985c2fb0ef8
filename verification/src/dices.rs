use vstd::prelude::*;
use vstd::seq_lib::*;
use rand::distributions::Distribution;
use rand::seq::IteratorRandom;
use rand::seq::SliceRandom;
use crate::score_box::rules::LookupError;
use crate::utils::{base10_to_base7, base7_to_base10, digits_of, digits_value};
use crate::N_DICE;

verus! {

broadcast use {to_multiset_build, to_multiset_insert};

/// The stage of a turn: after the first throw, after the second, after the
/// last. Only the first two are followed by a hold.
#[derive(Clone, Copy, Debug, PartialEq, Eq, Structural)]
pub enum Throw {
    First,
    Second,
    Third,
}

/// `rand::rngs::ThreadRng`, a handle to the thread's generator; nothing is
/// known of what it holds.
#[verifier::external_type_specification]
#[verifier::external_body]
pub struct ExThreadRng(rand::rngs::ThreadRng);

/// `rand::thread_rng`: the calling thread's generator, seeded by the system.
#[verifier::external_body]
pub(crate) fn thread_rng() -> (rng: rand::rngs::ThreadRng) {
    rand::thread_rng()
}

/// `Uniform::from(low..high)` and `Distribution::sample` of rand on `u8`:
/// the sample lies in the half-open range. rand panics on an empty range.
#[verifier::external_body]
pub(crate) fn sample_u8(rng: &mut rand::rngs::ThreadRng, low: u8, high: u8) -> (sample: u8)
    requires
        low < high,
    ensures
        low <= sample < high,
{
    rand::distributions::Uniform::from(low..high).sample(rng)
}

/// `Uniform::from(low..high)` and `Distribution::sample` of rand on
/// `usize`: the sample lies in the half-open range. rand panics on an empty
/// range.
#[verifier::external_body]
pub(crate) fn sample_usize(rng: &mut rand::rngs::ThreadRng, low: usize, high: usize) -> (sample:
    usize)
    requires
        low < high,
    ensures
        low <= sample < high,
{
    rand::distributions::Uniform::from(low..high).sample(rng)
}

/// `SliceRandom::choose_multiple` of rand, collected: `amount` items of the
/// slice, or all of them where it has fewer, taken at distinct places and in
/// no stated order.
#[verifier::external_body]
pub(crate) fn choose_multiple(rng: &mut rand::rngs::ThreadRng, dices: &Vec<u8>, amount: usize) -> (chosen:
    Vec<u8>)
    ensures
        chosen@.len() == if amount <= dices@.len() {
            amount as nat
        } else {
            dices@.len()
        },
        chosen@.to_multiset().subset_of(dices@.to_multiset()),
{
    dices.choose_multiple(rng, amount).cloned().collect()
}

/// `IteratorRandom::choose` of rand on the range `0..len`: one of its
/// numbers, or none where the range is empty.
#[verifier::external_body]
pub(crate) fn choose_index(rng: &mut rand::rngs::ThreadRng, len: usize) -> (index: Option<usize>)
    ensures
        match index {
            Some(i) => i < len,
            None => len == 0,
        },
{
    (0..len).choose(rng)
}

/// `SliceRandom::choose` of rand: one of the slice's items, or none where
/// the slice is empty.
#[verifier::external_body]
pub(crate) fn choose_item(rng: &mut rand::rngs::ThreadRng, items: &Vec<usize>) -> (item: Option<
    usize,
>)
    ensures
        match item {
            Some(x) => items@.contains(x),
            None => items@.len() == 0,
        },
{
    items.choose(rng).copied()
}

/// No die shows less than the die before it.
pub open spec fn ascending(dice: Seq<u8>) -> bool {
    forall|i: int, j: int| 0 <= i <= j < dice.len() ==> dice[i] <= dice[j]
}

/// Every die shows one to six.
pub open spec fn all_faces(dice: Seq<u8>) -> bool {
    forall|i: int| 0 <= i < dice.len() ==> 1 <= #[trigger] dice[i] <= 6
}

/// `hold` keeps some of the dice `dice`, each die at most once.
pub open spec fn is_hold_of(hold: Seq<u8>, dice: Seq<u8>) -> bool {
    hold.to_multiset().subset_of(dice.to_multiset())
}

/// `dice` is what a throw can leave on the table when `held` is kept back:
/// the held dice together with freshly thrown ones, five in all; or the held
/// dice alone where they are five or more.
pub open spec fn is_rethrow(dice: Seq<u8>, held: Seq<u8>) -> bool {
    if held.len() >= 5 {
        dice.to_multiset() == held.to_multiset()
    } else {
        exists|thrown: Seq<u8>|
            #![auto]
            thrown.len() == 5 - held.len() && all_faces(thrown) && dice.to_multiset() == (thrown
                + held).to_multiset()
    }
}

/// What is in a sequence is in its multiset, and the other way round.
pub proof fn lemma_multiset_members(s: Seq<u8>)
    ensures
        s.to_multiset().len() == s.len(),
        forall|v: u8| s.contains(v) <==> #[trigger] s.to_multiset().count(v) > 0,
{
    s.to_multiset_ensures();
}

/// Each item of a sequence is an item of every sequence with the same
/// items.
pub proof fn lemma_members_of<A>(one: Seq<A>, other: Seq<A>, at: int)
    requires
        one.to_multiset() == other.to_multiset(),
        0 <= at < one.len(),
    ensures
        other.contains(one[at]),
{
    one.to_multiset_ensures();
    other.to_multiset_ensures();
    assert(one.contains(one[at]));
    assert(one.to_multiset().count(one[at]) > 0);
}

/// A property of every die of `dice` holds of every die of a sequence with
/// the same dice, or fewer.
pub proof fn lemma_faces_of_hold(hold: Seq<u8>, dice: Seq<u8>)
    requires
        is_hold_of(hold, dice),
    ensures
        all_faces(dice) ==> all_faces(hold),
        forall|i: int| 0 <= i < hold.len() ==> dice.contains(#[trigger] hold[i]),
{
    lemma_multiset_members(hold);
    lemma_multiset_members(dice);
    assert forall|i: int| 0 <= i < hold.len() implies dice.contains(#[trigger] hold[i]) by {
        assert(hold.contains(hold[i]));
        assert(hold.to_multiset().count(hold[i]) > 0);
        assert(dice.to_multiset().count(hold[i]) > 0);
    }
    if all_faces(dice) {
        assert forall|i: int| 0 <= i < hold.len() implies 1 <= #[trigger] hold[i] <= 6 by {
            assert(dice.contains(hold[i]));
            let k = choose|k: int| 0 <= k < dice.len() && dice[k] == hold[i];
            assert(1 <= dice[k] <= 6);
        }
    }
}

/// The dice in ascending order.
pub fn sorted_dice(dice: &Vec<u8>) -> (sorted: Vec<u8>)
    ensures
        ascending(sorted@),
        sorted@.to_multiset() == dice@.to_multiset(),
        sorted@.len() == dice@.len(),
{
    let mut sorted: Vec<u8> = Vec::new();
    let mut i: usize = 0;
    assert(dice@.take(0) =~= Seq::<u8>::empty());
    while i < dice.len()
        invariant
            i <= dice.len(),
            ascending(sorted@),
            sorted@.to_multiset() == dice@.take(i as int).to_multiset(),
            sorted@.len() == i,
        decreases dice.len() - i,
    {
        let d = dice[i];
        let mut at: usize = 0;
        while at < sorted.len() && sorted[at] <= d
            invariant
                at <= sorted.len(),
                forall|k: int| 0 <= k < at ==> sorted@[k] <= d,
            decreases sorted.len() - at,
        {
            at += 1;
        }
        let ghost before = sorted@;
        sorted.insert(at, d);
        proof {
            assert(dice@.take(i as int + 1) =~= dice@.take(i as int).push(d));
            assert(sorted@ == before.insert(at as int, d));
            assert forall|a: int, b: int| 0 <= a <= b < sorted@.len() implies sorted@[a]
                <= sorted@[b] by {
                if a < at && b > at {
                    assert(before[a] <= d);
                    assert(before[at as int] <= before[b - 1]);
                } else if a > at {
                    assert(before[a - 1] <= before[b - 1]);
                }
            }
        }
        i += 1;
    }
    assert(dice@.take(i as int) =~= dice@);
    sorted
}

/// The dice that a hold code spells, or an error where the code spells no
/// hold: more than five dice, or a die that shows nothing.
pub fn hold_from_code(code: u16) -> (hold: Result<Vec<u8>, LookupError>)
    ensures
        match hold {
            Ok(h) => h@ == digits_of(code as nat, 7) && h@.len() <= 5 && all_faces(h@),
            Err(e) => e == LookupError::BadHold && !(digits_of(code as nat, 7).len() <= 5
                && all_faces(digits_of(code as nat, 7))),
        },
{
    let hold = base10_to_base7(code);
    proof {
        crate::utils::lemma_value_of_digits(code as nat, 7);
    }
    if hold.len() > 5 {
        return Err(LookupError::BadHold);
    }
    let mut i: usize = 0;
    while i < hold.len()
        invariant
            i <= hold.len(),
            hold@ == digits_of(code as nat, 7),
            crate::utils::digits_below(hold@, 7),
            forall|k: int| 0 <= k < i ==> 1 <= #[trigger] hold@[k] <= 6,
        decreases hold.len() - i,
    {
        if hold[i] == 0 {
            return Err(LookupError::BadHold);
        }
        i += 1;
    }
    Ok(hold)
}

/// The five dice of one player, with their source of chance.
pub struct Dices {
    rng: rand::rngs::ThreadRng,
}

impl Dices {
    pub fn new() -> (dices: Dices) {
        Dices { rng: thread_rng() }
    }

    /// A number below `len`, picked by chance; none where `len` is 0.
    pub fn pick_index(&mut self, len: usize) -> (index: Option<usize>)
        ensures
            match index {
                Some(i) => i < len,
                None => len == 0,
            },
    {
        choose_index(&mut self.rng, len)
    }

    /// Throws `n_dies` dice.
    fn throw(&mut self, n_dies: usize) -> (thrown: Vec<u8>)
        ensures
            thrown@.len() == n_dies,
            all_faces(thrown@),
    {
        let mut thrown: Vec<u8> = Vec::new();
        let mut i: usize = 0;
        while i < n_dies
            invariant
                i <= n_dies,
                thrown@.len() == i,
                all_faces(thrown@),
            decreases n_dies - i,
        {
            let d = sample_u8(&mut self.rng, 1, 7);
            thrown.push(d);
            i += 1;
        }
        thrown
    }

    /// Throws the dice that are not held and hands back all dice in
    /// ascending order. Five or more held dice are handed back as they are,
    /// in ascending order.
    pub fn throw_and_hold(&mut self, hold: Option<Vec<u8>>) -> (dice: Vec<u8>)
        ensures
            ascending(dice@),
            match hold {
                Some(h) => is_rethrow(dice@, h@) && (all_faces(h@) ==> all_faces(dice@)) && (h@.len()
                    <= 5 ==> dice@.len() == 5),
                None => is_rethrow(dice@, Seq::empty()) && valid_throw(dice@),
            },
    {
        let n_dies = N_DICE;
        let res: Vec<u8>;
        let ghost held: Seq<u8>;
        let ghost thrown: Seq<u8>;
        match hold {
            Some(h) => {
                proof {
                    held = h@;
                }
                if h.len() >= n_dies {
                    proof {
                        thrown = Seq::empty();
                    }
                    res = h;
                } else {
                    let mut fresh = self.throw(n_dies - h.len());
                    proof {
                        thrown = fresh@;
                    }
                    let mut h = h;
                    fresh.append(&mut h);
                    res = fresh;
                }
            },
            None => {
                proof {
                    held = Seq::empty();
                }
                let fresh = self.throw(n_dies);
                proof {
                    thrown = fresh@;
                    assert(thrown + held =~= thrown);
                }
                res = fresh;
            },
        }
        assert(res@ == thrown + held);
        let dice = sorted_dice(&res);
        proof {
            lemma_multiset_members(dice@);
            lemma_multiset_members(res@);
            if held.len() >= 5 {
                assert(thrown + held =~= held);
            }
            if all_faces(held) {
                assert(all_faces(res@));
                assert forall|i: int| 0 <= i < dice@.len() implies 1 <= #[trigger] dice@[i]
                    <= 6 by {
                    assert(dice@.contains(dice@[i]));
                    assert(dice@.to_multiset().count(dice@[i]) > 0);
                    assert(res@.to_multiset().count(dice@[i]) > 0);
                    assert(res@.contains(dice@[i]));
                    let k = choose|k: int| 0 <= k < res@.len() && res@[k] == dice@[i];
                    assert(1 <= res@[k] <= 6);
                }
            }
        }
        dice
    }

    /// Picks a hold at random: first its size, none to five dice, then
    /// which of the dice; handed back in ascending order.
    pub fn select(&mut self, dices: Vec<u8>) -> (hold: Vec<u8>)
        ensures
            ascending(hold@),
            is_hold_of(hold@, dices@),
            hold@.len() <= 5,
            hold@.len() <= dices@.len(),
    {
        let n_holds = sample_usize(&mut self.rng, 0, 6);
        let selected = choose_multiple(&mut self.rng, &dices, n_holds);
        sorted_dice(&selected)
    }

    /// Plays one turn with holds chosen at random: the codes of the first
    /// throw and of its hold, the hold's size, the same of the second
    /// throw, and the dice of the third.
    pub fn play_round(&mut self) -> (round: (u16, u16, u8, u16, u16, u8, Vec<u8>))
        ensures
            is_round(round.0, round.1, round.2, round.3, round.4, round.5, round.6@),
    {
        let throw1 = self.throw_and_hold(None);
        let t1_code = base7_to_base10(&throw1);

        let selected1 = self.select(throw1);
        proof {
            lemma_faces_of_hold(selected1@, throw1@);
        }
        let s1_code = base7_to_base10(&selected1);
        let s1_len = selected1.len() as u8;

        let throw2 = self.throw_and_hold(Some(selected1));
        let t2_code = base7_to_base10(&throw2);

        let selected2 = self.select(throw2);
        proof {
            lemma_faces_of_hold(selected2@, throw2@);
        }
        let s2_code = base7_to_base10(&selected2);
        let s2_len = selected2.len() as u8;

        let throw3 = self.throw_and_hold(Some(selected2));
        proof {
            assert(is_turn(throw1@, selected1@, throw2@, selected2@, throw3@));
        }
        (t1_code, s1_code, s1_len, t2_code, s2_code, s2_len, throw3)
    }
}

/// Five dice in ascending order, each showing one to six.
pub open spec fn valid_throw(dice: Seq<u8>) -> bool {
    dice.len() == 5 && all_faces(dice) && ascending(dice)
}

/// A hold of `dice`, in ascending order.
pub open spec fn valid_hold(hold: Seq<u8>, dice: Seq<u8>) -> bool {
    ascending(hold) && is_hold_of(hold, dice)
}

/// The three throws of a turn and the two holds between them.
pub open spec fn is_turn(
    throw1: Seq<u8>,
    hold1: Seq<u8>,
    throw2: Seq<u8>,
    hold2: Seq<u8>,
    throw3: Seq<u8>,
) -> bool {
    &&& valid_throw(throw1)
    &&& valid_hold(hold1, throw1)
    &&& valid_throw(throw2)
    &&& is_rethrow(throw2, hold1)
    &&& valid_hold(hold2, throw2)
    &&& valid_throw(throw3)
    &&& is_rethrow(throw3, hold2)
}

/// What `play_round` hands back, whatever the dice showed: the codes and
/// sizes of a turn's throws and holds, and the dice of its last throw.
pub open spec fn is_round(
    t1_code: u16,
    s1_code: u16,
    s1_len: u8,
    t2_code: u16,
    s2_code: u16,
    s2_len: u8,
    throw3: Seq<u8>,
) -> bool {
    exists|throw1: Seq<u8>, hold1: Seq<u8>, throw2: Seq<u8>, hold2: Seq<u8>|
        #![auto]
        {
            &&& is_turn(throw1, hold1, throw2, hold2, throw3)
            &&& t1_code == digits_value(throw1, 7)
            &&& s1_code == digits_value(hold1, 7)
            &&& s1_len == hold1.len()
            &&& t2_code == digits_value(throw2, 7)
            &&& s2_code == digits_value(hold2, 7)
            &&& s2_len == hold2.len()
        }
}

} // verus!
