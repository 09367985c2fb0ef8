use vstd::prelude::*;
use std::collections::HashMap;
use rand::distributions::Distribution;
use crate::dices::{all_faces, hold_from_code, thread_rng, Throw};
use crate::score_box::{mean_micro_wide, spec_mean_micro, HoldChoice, OptimalHolds};
use crate::table::{
    decode_table, encode_table, lemma_table_bytes_len, table_bytes, table_records,
    table_round_trip, Record, TableError,
};
use crate::utils::{base10_to_base2, digits_of, has_bit, lemma_members_below};
use crate::utils::{base_pow, get_le, le_bytes, le_value, lemma_le_bytes_len, lemma_le_round_trip, put_le};

verus! {

/// How many of the dice show `face`.
pub open spec fn face_count(dice: Seq<u8>, face: u8) -> nat
    decreases dice.len(),
{
    if dice.len() == 0 {
        0
    } else {
        face_count(dice.drop_last(), face) + if dice.last() == face {
            1nat
        } else {
            0nat
        }
    }
}

/// The sum of the faces.
pub open spec fn dice_sum(dice: Seq<u8>) -> nat
    decreases dice.len(),
{
    if dice.len() == 0 {
        0
    } else {
        dice_sum(dice.drop_last()) + dice.last() as nat
    }
}

/// The highest face below `limit` that at least `n` of the dice show, or 0
/// where there is none.
pub open spec fn highest_face(dice: Seq<u8>, n: nat, limit: u8) -> u8
    decreases limit,
{
    if limit <= 1 {
        0
    } else if face_count(dice, (limit - 1) as u8) >= n {
        (limit - 1) as u8
    } else {
        highest_face(dice, n, (limit - 1) as u8)
    }
}

/// The dice show each of the five faces from `low` on once, in whatever
/// order.
pub open spec fn is_straight(dice: Seq<u8>, low: u8) -> bool {
    &&& face_count(dice, low) == 1
    &&& face_count(dice, (low + 1) as u8) == 1
    &&& face_count(dice, (low + 2) as u8) == 1
    &&& face_count(dice, (low + 3) as u8) == 1
    &&& face_count(dice, (low + 4) as u8) == 1
}

/// A throw that can be scored: five dice, each showing one to six.
pub open spec fn valid_dice(dice: Seq<u8>) -> bool {
    &&& dice.len() == 5
    &&& forall|i: int| 0 <= i < dice.len() ==> 1 <= #[trigger] dice[i] <= 6
}

/// The face that pairs with the triple `triple` in a full house: the highest
/// face other than `triple` that at least two dice show, or 0.
pub open spec fn pair_beside(dice: Seq<u8>, triple: u8) -> u8 {
    let top = highest_face(dice, 2, 7);
    if top != triple {
        top
    } else {
        highest_face(dice, 2, triple)
    }
}

/// The six face counts of a throw: entry `f - 1` says how many dice show `f`.
pub open spec fn counts_match(groups: [u8; 6], dice: Seq<u8>) -> bool {
    forall|f: u8| 1 <= f <= 6 ==> groups[f - 1] as nat == #[trigger] face_count(dice, f)
}

/// The faces one to six share the dice among them.
proof fn lemma_counts_total(dice: Seq<u8>)
    requires
        forall|i: int| 0 <= i < dice.len() ==> 1 <= #[trigger] dice[i] <= 6,
    ensures
        face_count(dice, 1) + face_count(dice, 2) + face_count(dice, 3) + face_count(dice, 4)
            + face_count(dice, 5) + face_count(dice, 6) == dice.len(),
    decreases dice.len(),
{
    if dice.len() > 0 {
        lemma_counts_total(dice.drop_last());
    }
}

/// The sum of the dice, taken face by face.
proof fn lemma_sum_by_faces(dice: Seq<u8>)
    requires
        forall|i: int| 0 <= i < dice.len() ==> 1 <= #[trigger] dice[i] <= 6,
    ensures
        dice_sum(dice) == face_count(dice, 1) + face_count(dice, 2) * 2 + face_count(dice, 3) * 3
            + face_count(dice, 4) * 4 + face_count(dice, 5) * 5 + face_count(dice, 6) * 6,
    decreases dice.len(),
{
    if dice.len() > 0 {
        lemma_sum_by_faces(dice.drop_last());
    }
}

fn count_faces(values: &Vec<u8>) -> (groups: [u8; 6])
    requires
        valid_dice(values@),
    ensures
        counts_match(groups, values@),
{
    let mut groups: [u8; 6] = [0; 6];
    let mut i: usize = 0;
    while i < 5
        invariant
            i <= 5,
            valid_dice(values@),
            forall|f: u8|
                1 <= f <= 6 ==> groups[f - 1] as nat == #[trigger] face_count(
                    values@.take(i as int),
                    f,
                ),
            forall|f: u8| 1 <= f <= 6 ==> face_count(values@.take(i as int), f) <= i,
        decreases 5 - i,
    {
        let d = values[i];
        let ghost before = groups;
        assert(values@.take(i as int + 1).drop_last() =~= values@.take(i as int));
        assert(face_count(values@.take(i as int), d) <= i);
        groups[(d - 1) as usize] = groups[(d - 1) as usize] + 1;
        assert forall|f: u8| 1 <= f <= 6 implies groups[f - 1] as nat == #[trigger] face_count(
            values@.take(i as int + 1),
            f,
        ) && face_count(values@.take(i as int + 1), f) <= i + 1 by {
            assert(before[f - 1] as nat == face_count(values@.take(i as int), f));
            assert(face_count(values@.take(i as int), f) <= i);
        }
        i += 1;
    }
    assert(values@.take(5) =~= values@);
    groups
}

fn highest_in(groups: &[u8; 6], n: u8, limit: u8, Ghost(dice): Ghost<Seq<u8>>) -> (face: u8)
    requires
        counts_match(*groups, dice),
        limit <= 7,
    ensures
        face == highest_face(dice, n as nat, limit),
        face <= 6,
        face < limit || face == 0,
        face > 0 ==> face_count(dice, face) >= n,
{
    let mut below: u8 = limit;
    while below > 1
        invariant
            below <= limit <= 7,
            counts_match(*groups, dice),
            highest_face(dice, n as nat, limit) == highest_face(dice, n as nat, below),
        decreases below,
    {
        let face = below - 1;
        assert(groups[face - 1] as nat == face_count(dice, face));
        if groups[(face - 1) as usize] >= n {
            return face;
        }
        below = face;
    }
    0
}

/// The number of dice that show a face is the face's count in the multiset
/// of the dice.
pub proof fn lemma_face_count_multiset(dice: Seq<u8>, face: u8)
    ensures
        face_count(dice, face) == dice.to_multiset().count(face),
    decreases dice.len(),
{
    broadcast use vstd::seq_lib::group_to_multiset_ensures;

    if dice.len() > 0 {
        lemma_face_count_multiset(dice.drop_last(), face);
        assert(dice =~= dice.drop_last().push(dice.last()));
        vstd::seq_lib::to_multiset_build(dice.drop_last(), dice.last());
    }
}

/// The highest face that enough dice show is the same for dice with the
/// same face counts.
proof fn lemma_highest_face_same(one: Seq<u8>, other: Seq<u8>, n: nat, limit: u8)
    requires
        forall|f: u8| face_count(one, f) == face_count(other, f),
    ensures
        highest_face(one, n, limit) == highest_face(other, n, limit),
    decreases limit,
{
    if limit > 1 {
        lemma_highest_face_same(one, other, n, (limit - 1) as u8);
    }
}

/// A category pays the same for the same dice in whatever order: the score
/// is a function of the faces as a multiset.
pub proof fn score_order_law(hand: HandType, one: Seq<u8>, other: Seq<u8>)
    requires
        valid_dice(one),
        valid_dice(other),
        one.to_multiset() == other.to_multiset(),
    ensures
        hand.spec_score(one) == hand.spec_score(other),
{
    assert forall|f: u8| face_count(one, f) == face_count(other, f) by {
        lemma_face_count_multiset(one, f);
        lemma_face_count_multiset(other, f);
    }
    lemma_sum_by_faces(one);
    lemma_sum_by_faces(other);
    lemma_highest_face_same(one, other, 2, 7);
    lemma_highest_face_same(one, other, 3, 7);
    lemma_highest_face_same(one, other, 4, 7);
    lemma_highest_face_same(one, other, 5, 7);
    lemma_highest_face_same(one, other, 2, highest_face(one, 2, 7));
    lemma_highest_face_same(one, other, 2, highest_face(one, 3, 7));
}

/// The fifteen scoring categories, in score-card order.
#[derive(Clone, Copy, Debug, PartialEq, Eq, Structural)]
pub enum HandType {
    Ones,
    Twos,
    Threes,
    Fours,
    Fives,
    Sixes,
    OnePair,
    TwoPairs,
    ThreeOfAKind,
    FourOfAKind,
    SmallStraight,
    LargeStraight,
    FullHouse,
    Chance,
    Yatzy,
}

impl HandType {
    /// The category's place on the score card, 0 to 14.
    pub open spec fn spec_id(self) -> nat {
        match self {
            HandType::Ones => 0,
            HandType::Twos => 1,
            HandType::Threes => 2,
            HandType::Fours => 3,
            HandType::Fives => 4,
            HandType::Sixes => 5,
            HandType::OnePair => 6,
            HandType::TwoPairs => 7,
            HandType::ThreeOfAKind => 8,
            HandType::FourOfAKind => 9,
            HandType::SmallStraight => 10,
            HandType::LargeStraight => 11,
            HandType::FullHouse => 12,
            HandType::Chance => 13,
            HandType::Yatzy => 14,
        }
    }

    /// The most that the category can score.
    pub open spec fn spec_max_score(self) -> nat {
        match self {
            HandType::Ones => 5,
            HandType::Twos => 10,
            HandType::Threes => 15,
            HandType::Fours => 20,
            HandType::Fives => 25,
            HandType::Sixes => 30,
            HandType::OnePair => 12,
            HandType::TwoPairs => 22,
            HandType::ThreeOfAKind => 18,
            HandType::FourOfAKind => 24,
            HandType::SmallStraight => 15,
            HandType::LargeStraight => 20,
            HandType::FullHouse => 28,
            HandType::Chance => 30,
            HandType::Yatzy => 50,
        }
    }

    /// The largest hold that the category's policy may keep.
    pub open spec fn spec_min_holds(self) -> nat {
        match self {
            HandType::OnePair => 2,
            HandType::ThreeOfAKind => 3,
            HandType::TwoPairs => 4,
            HandType::FourOfAKind => 4,
            _ => 5,
        }
    }

    /// The category's name, as it stands in the names of its files.
    pub open spec fn spec_name(self) -> Seq<char> {
        match self {
            HandType::Ones => "ones"@,
            HandType::Twos => "twos"@,
            HandType::Threes => "threes"@,
            HandType::Fours => "fours"@,
            HandType::Fives => "fives"@,
            HandType::Sixes => "sixes"@,
            HandType::OnePair => "one_pair"@,
            HandType::TwoPairs => "two_pairs"@,
            HandType::ThreeOfAKind => "three_of_a_kind"@,
            HandType::FourOfAKind => "four_of_a_kind"@,
            HandType::SmallStraight => "small_straight"@,
            HandType::LargeStraight => "large_straight"@,
            HandType::FullHouse => "full_house"@,
            HandType::Chance => "chance"@,
            HandType::Yatzy => "yatzy"@,
        }
    }

    pub fn name(&self) -> (name: String)
        ensures
            name@ == self.spec_name(),
    {
        match self {
            HandType::Ones => "ones".to_owned(),
            HandType::Twos => "twos".to_owned(),
            HandType::Threes => "threes".to_owned(),
            HandType::Fours => "fours".to_owned(),
            HandType::Fives => "fives".to_owned(),
            HandType::Sixes => "sixes".to_owned(),
            HandType::OnePair => "one_pair".to_owned(),
            HandType::TwoPairs => "two_pairs".to_owned(),
            HandType::ThreeOfAKind => "three_of_a_kind".to_owned(),
            HandType::FourOfAKind => "four_of_a_kind".to_owned(),
            HandType::SmallStraight => "small_straight".to_owned(),
            HandType::LargeStraight => "large_straight".to_owned(),
            HandType::FullHouse => "full_house".to_owned(),
            HandType::Chance => "chance".to_owned(),
            HandType::Yatzy => "yatzy".to_owned(),
        }
    }

    /// What the category pays for a throw.
    pub open spec fn spec_score(self, dice: Seq<u8>) -> nat {
        match self {
            HandType::Ones => face_count(dice, 1) * 1,
            HandType::Twos => face_count(dice, 2) * 2,
            HandType::Threes => face_count(dice, 3) * 3,
            HandType::Fours => face_count(dice, 4) * 4,
            HandType::Fives => face_count(dice, 5) * 5,
            HandType::Sixes => face_count(dice, 6) * 6,
            HandType::OnePair => highest_face(dice, 2, 7) as nat * 2,
            HandType::TwoPairs => {
                let high = highest_face(dice, 2, 7);
                let low = highest_face(dice, 2, high);
                if low == 0 {
                    0
                } else {
                    high as nat * 2 + low as nat * 2
                }
            },
            HandType::ThreeOfAKind => highest_face(dice, 3, 7) as nat * 3,
            HandType::FourOfAKind => highest_face(dice, 4, 7) as nat * 4,
            HandType::SmallStraight => if is_straight(dice, 1) {
                15
            } else {
                0
            },
            HandType::LargeStraight => if is_straight(dice, 2) {
                20
            } else {
                0
            },
            HandType::FullHouse => {
                let triple = highest_face(dice, 3, 7);
                let pair = pair_beside(dice, triple);
                if triple > 0 && pair > 0 {
                    triple as nat * 3 + pair as nat * 2
                } else {
                    0
                }
            },
            HandType::Chance => dice_sum(dice),
            HandType::Yatzy => if highest_face(dice, 5, 7) > 0 {
                50
            } else {
                0
            },
        }
    }

    /// Scores a throw in this category.
    pub fn score(&self, values: &Vec<u8>) -> (points: u8)
        requires
            valid_dice(values@),
        ensures
            points == self.spec_score(values@),
            points <= self.spec_max_score(),
    {
        let groups = count_faces(values);
        proof {
            lemma_counts_total(values@);
            lemma_sum_by_faces(values@);
        }
        match self {
            HandType::Ones => groups[0],
            HandType::Twos => groups[1] * 2,
            HandType::Threes => groups[2] * 3,
            HandType::Fours => groups[3] * 4,
            HandType::Fives => groups[4] * 5,
            HandType::Sixes => groups[5] * 6,
            HandType::OnePair => highest_in(&groups, 2, 7, Ghost(values@)) * 2,
            HandType::TwoPairs => {
                let high = highest_in(&groups, 2, 7, Ghost(values@));
                let low = highest_in(&groups, 2, high, Ghost(values@));
                if low == 0 {
                    0
                } else {
                    high * 2 + low * 2
                }
            },
            HandType::ThreeOfAKind => highest_in(&groups, 3, 7, Ghost(values@)) * 3,
            HandType::FourOfAKind => highest_in(&groups, 4, 7, Ghost(values@)) * 4,
            HandType::SmallStraight => {
                if groups[0] == 1 && groups[1] == 1 && groups[2] == 1 && groups[3] == 1
                    && groups[4] == 1 {
                    15
                } else {
                    0
                }
            },
            HandType::LargeStraight => {
                if groups[1] == 1 && groups[2] == 1 && groups[3] == 1 && groups[4] == 1
                    && groups[5] == 1 {
                    20
                } else {
                    0
                }
            },
            HandType::FullHouse => {
                let triple = highest_in(&groups, 3, 7, Ghost(values@));
                let top = highest_in(&groups, 2, 7, Ghost(values@));
                let pair = if top != triple {
                    top
                } else {
                    highest_in(&groups, 2, triple, Ghost(values@))
                };
                if triple > 0 && pair > 0 {
                    triple * 3 + pair * 2
                } else {
                    0
                }
            },
            HandType::Chance => {
                groups[0] + groups[1] * 2 + groups[2] * 3 + groups[3] * 4 + groups[4] * 5
                    + groups[5] * 6
            },
            HandType::Yatzy => {
                if highest_in(&groups, 5, 7, Ghost(values@)) > 0 {
                    50
                } else {
                    0
                }
            },
        }
    }

    pub fn id(&self) -> (id: usize)
        ensures
            id == self.spec_id(),
            id < 15,
    {
        match self {
            HandType::Ones => 0,
            HandType::Twos => 1,
            HandType::Threes => 2,
            HandType::Fours => 3,
            HandType::Fives => 4,
            HandType::Sixes => 5,
            HandType::OnePair => 6,
            HandType::TwoPairs => 7,
            HandType::ThreeOfAKind => 8,
            HandType::FourOfAKind => 9,
            HandType::SmallStraight => 10,
            HandType::LargeStraight => 11,
            HandType::FullHouse => 12,
            HandType::Chance => 13,
            HandType::Yatzy => 14,
        }
    }

    /// The category at place `id` of the score card.
    pub fn from_id(id: usize) -> (hand: Option<HandType>)
        ensures
            id < 15 <==> hand is Some,
            hand matches Some(h) ==> h.spec_id() == id,
    {
        match id {
            0 => Some(HandType::Ones),
            1 => Some(HandType::Twos),
            2 => Some(HandType::Threes),
            3 => Some(HandType::Fours),
            4 => Some(HandType::Fives),
            5 => Some(HandType::Sixes),
            6 => Some(HandType::OnePair),
            7 => Some(HandType::TwoPairs),
            8 => Some(HandType::ThreeOfAKind),
            9 => Some(HandType::FourOfAKind),
            10 => Some(HandType::SmallStraight),
            11 => Some(HandType::LargeStraight),
            12 => Some(HandType::FullHouse),
            13 => Some(HandType::Chance),
            14 => Some(HandType::Yatzy),
            _ => None,
        }
    }

    pub fn max_score(&self) -> (max: u8)
        ensures
            max == self.spec_max_score(),
            1 <= max <= 50,
    {
        match self {
            HandType::Ones => 5,
            HandType::Twos => 10,
            HandType::Threes => 15,
            HandType::Fours => 20,
            HandType::Fives => 25,
            HandType::Sixes => 30,
            HandType::OnePair => 12,
            HandType::TwoPairs => 22,
            HandType::ThreeOfAKind => 18,
            HandType::FourOfAKind => 24,
            HandType::SmallStraight => 15,
            HandType::LargeStraight => 20,
            HandType::FullHouse => 28,
            HandType::Chance => 30,
            HandType::Yatzy => 50,
        }
    }

    pub fn min_holds(&self) -> (holds: u8)
        ensures
            holds == self.spec_min_holds(),
            2 <= holds <= 5,
    {
        match self {
            HandType::Ones => 5,
            HandType::Twos => 5,
            HandType::Threes => 5,
            HandType::Fours => 5,
            HandType::Fives => 5,
            HandType::Sixes => 5,
            HandType::OnePair => 2,
            HandType::TwoPairs => 4,
            HandType::ThreeOfAKind => 3,
            HandType::FourOfAKind => 4,
            HandType::SmallStraight => 5,
            HandType::LargeStraight => 5,
            HandType::FullHouse => 5,
            HandType::Chance => 5,
            HandType::Yatzy => 5,
        }
    }
}

/// One record of a category's hold table file: the throw stage (0 or 1),
/// the hold's size, the codes of throw and hold, and the eight bytes of the
/// expected score as the file holds them.
#[derive(Clone, Copy, Debug, PartialEq, Eq, Structural)]
pub struct HoldRecord {
    pub throw: u8,
    pub hold_len: u8,
    pub thrown: u16,
    pub hold: u16,
    pub score_bits: u64,
}

/// The powers of 256 that bound one, two, four and eight bytes.
pub proof fn lemma_byte_powers()
    ensures
        base_pow(256, 1) == 0x100,
        base_pow(256, 2) == 0x1_0000,
        base_pow(256, 4) == 0x1_0000_0000,
        base_pow(256, 8) == 0x1_0000_0000_0000_0000,
{
    reveal_with_fuel(base_pow, 9);
}

impl Record for HoldRecord {
    open spec fn width() -> nat {
        14
    }

    open spec fn to_bytes(&self) -> Seq<u8> {
        le_bytes(self.throw as nat, 1) + le_bytes(self.hold_len as nat, 1) + le_bytes(
            self.thrown as nat,
            2,
        ) + le_bytes(self.hold as nat, 2) + le_bytes(self.score_bits as nat, 8)
    }

    open spec fn from_bytes(bytes: Seq<u8>) -> Self {
        HoldRecord {
            throw: le_value(bytes.subrange(0, 1)) as u8,
            hold_len: le_value(bytes.subrange(1, 2)) as u8,
            thrown: le_value(bytes.subrange(2, 4)) as u16,
            hold: le_value(bytes.subrange(4, 6)) as u16,
            score_bits: le_value(bytes.subrange(6, 14)) as u64,
        }
    }

    proof fn lemma_round_trip(&self) {
        lemma_byte_powers();
        let a = le_bytes(self.throw as nat, 1);
        let b = le_bytes(self.hold_len as nat, 1);
        let c = le_bytes(self.thrown as nat, 2);
        let d = le_bytes(self.hold as nat, 2);
        let e = le_bytes(self.score_bits as nat, 8);
        lemma_le_round_trip(self.throw as nat, 1);
        lemma_le_round_trip(self.hold_len as nat, 1);
        lemma_le_round_trip(self.thrown as nat, 2);
        lemma_le_round_trip(self.hold as nat, 2);
        lemma_le_round_trip(self.score_bits as nat, 8);
        let all = self.to_bytes();
        assert(all.subrange(0, 1) =~= a);
        assert(all.subrange(1, 2) =~= b);
        assert(all.subrange(2, 4) =~= c);
        assert(all.subrange(4, 6) =~= d);
        assert(all.subrange(6, 14) =~= e);
    }

    fn stride() -> (w: usize) {
        14
    }

    fn write(&self, out: &mut Vec<u8>) {
        put_le(out, self.throw as u64, 1);
        put_le(out, self.hold_len as u64, 1);
        put_le(out, self.thrown as u64, 2);
        put_le(out, self.hold as u64, 2);
        put_le(out, self.score_bits, 8);
        assert(out@ =~= old(out)@ + self.to_bytes());
    }

    fn read(bytes: &Vec<u8>, at: usize) -> (record: Self) {
        proof {
            lemma_byte_powers();
            let part = bytes@.subrange(at as int, at + 14);
            assert(part.subrange(0, 1) =~= bytes@.subrange(at as int, at + 1));
            assert(part.subrange(1, 2) =~= bytes@.subrange(at + 1, at + 2));
            assert(part.subrange(2, 4) =~= bytes@.subrange(at + 2, at + 4));
            assert(part.subrange(4, 6) =~= bytes@.subrange(at + 4, at + 6));
            assert(part.subrange(6, 14) =~= bytes@.subrange(at + 6, at + 14));
        }
        HoldRecord {
            throw: get_le(bytes, at, 1) as u8,
            hold_len: get_le(bytes, at + 1, 1) as u8,
            thrown: get_le(bytes, at + 2, 2) as u16,
            hold: get_le(bytes, at + 4, 2) as u16,
            score_bits: get_le(bytes, at + 6, 8),
        }
    }
}

/// One record of a category's distribution file: a score and how often it
/// was reached.
#[derive(Clone, Copy, Debug, PartialEq, Eq, Structural)]
pub struct DistrRecord {
    pub score: u8,
    pub hits: u64,
}

impl Record for DistrRecord {
    open spec fn width() -> nat {
        9
    }

    open spec fn to_bytes(&self) -> Seq<u8> {
        le_bytes(self.score as nat, 1) + le_bytes(self.hits as nat, 8)
    }

    open spec fn from_bytes(bytes: Seq<u8>) -> Self {
        DistrRecord {
            score: le_value(bytes.subrange(0, 1)) as u8,
            hits: le_value(bytes.subrange(1, 9)) as u64,
        }
    }

    proof fn lemma_round_trip(&self) {
        lemma_byte_powers();
        lemma_le_round_trip(self.score as nat, 1);
        lemma_le_round_trip(self.hits as nat, 8);
        let all = self.to_bytes();
        assert(all.subrange(0, 1) =~= le_bytes(self.score as nat, 1));
        assert(all.subrange(1, 9) =~= le_bytes(self.hits as nat, 8));
    }

    fn stride() -> (w: usize) {
        9
    }

    fn write(&self, out: &mut Vec<u8>) {
        put_le(out, self.score as u64, 1);
        put_le(out, self.hits, 8);
        assert(out@ =~= old(out)@ + self.to_bytes());
    }

    fn read(bytes: &Vec<u8>, at: usize) -> (record: Self) {
        proof {
            lemma_byte_powers();
            let part = bytes@.subrange(at as int, at + 9);
            assert(part.subrange(0, 1) =~= bytes@.subrange(at as int, at + 1));
            assert(part.subrange(1, 9) =~= bytes@.subrange(at + 1, at + 9));
        }
        DistrRecord { score: get_le(bytes, at, 1) as u8, hits: get_le(bytes, at + 1, 8) }
    }
}

/// Why a decision could not be made from the tables.
#[derive(Clone, Copy, Debug, PartialEq, Eq, Structural)]
pub enum LookupError {
    /// The throw stage has no hold decision.
    IllegalThrow,
    /// A table has no entry for the state that was asked for.
    NoEntry,
    /// No open category was found that is better than none.
    NoBestHand,
    /// A table names a hold that is no hold of up to five dice.
    BadHold,
}

/// One entry of a category's hold tables, with its stage: 0 for the first
/// throw, 1 for the second.
#[derive(Clone, Copy, Debug, PartialEq, Eq, Structural)]
pub struct HoldEntry {
    pub throw: u8,
    pub thrown: u16,
    pub choice: HoldChoice,
}

/// The number that a stage with a hold decision has in the tables' entries;
/// 2 for the last stage, which no entry may name.
pub open spec fn stage_number(throw: Throw) -> u8 {
    match throw {
        Throw::First => 0,
        Throw::Second => 1,
        Throw::Third => 2,
    }
}

/// The table `table` after the entries of stage `stage` were entered one
/// after the other; a later entry for a throw replaces an earlier one.
pub open spec fn holds_loaded(table: Map<u16, HoldChoice>, entries: Seq<HoldEntry>, stage: u8) -> Map<
    u16,
    HoldChoice,
>
    decreases entries.len(),
{
    if entries.len() == 0 {
        table
    } else {
        let before = holds_loaded(table, entries.drop_last(), stage);
        if entries.last().throw == stage {
            before.insert(entries.last().thrown, entries.last().choice)
        } else {
            before
        }
    }
}

/// No entry holds more dice than `min_holds`.
pub open spec fn holds_within(entries: Seq<HoldEntry>, min_holds: nat) -> bool {
    forall|i: int| 0 <= i < entries.len() ==> (#[trigger] entries[i]).choice.hold_len <= min_holds
}

/// Every entry names a stage that has a hold decision.
pub open spec fn stages_valid(entries: Seq<HoldEntry>) -> bool {
    forall|i: int| 0 <= i < entries.len() ==> (#[trigger] entries[i]).throw < 2
}

/// A category with its learned hold policy.
pub struct Hand {
    optimal_holds: OptimalHolds,
    hand: HandType,
}

impl Hand {
    pub closed spec fn hand_type(&self) -> HandType {
        self.hand
    }

    /// The hold table of a throw stage.
    pub closed spec fn choices(&self, throw: Throw) -> Map<u16, HoldChoice> {
        self.optimal_holds.choices(throw)
    }

    /// No hold of the policy is larger than the category allows.
    pub open spec fn feasible(&self) -> bool {
        forall|throw: Throw, thrown: u16| #[trigger]
            self.choices(throw).contains_key(thrown) ==> self.choices(throw)[thrown].hold_len
                <= self.hand_type().spec_min_holds()
    }

    /// The last stage has no hold decision and so no table.
    pub proof fn lemma_last_stage(&self)
        ensures
            self.choices(Throw::Third) == Map::<u16, HoldChoice>::empty(),
    {
        self.optimal_holds.lemma_last_stage();
    }

    pub fn new(hand: HandType) -> (h: Hand)
        ensures
            h.hand_type() == hand,
            forall|throw: Throw| h.choices(throw) == Map::<u16, HoldChoice>::empty(),
            h.feasible(),
    {
        let h = Hand { optimal_holds: OptimalHolds::new(), hand };
        assert forall|throw: Throw| h.choices(throw) == Map::<u16, HoldChoice>::empty() by {
            match throw {
                Throw::First => {},
                Throw::Second => {},
                Throw::Third => {
                    h.optimal_holds.lemma_last_stage();
                },
            }
        }
        h
    }

    pub fn name(&self) -> (name: String)
        ensures
            name@ == self.hand_type().spec_name(),
    {
        self.hand.name()
    }

    pub fn id(&self) -> (id: usize)
        ensures
            id == self.hand_type().spec_id(),
            id < 15,
    {
        self.hand.id()
    }

    pub fn min_holds(&self) -> (holds: u8)
        ensures
            holds == self.hand_type().spec_min_holds(),
    {
        self.hand.min_holds()
    }

    pub fn hand(&self) -> (hand: HandType)
        ensures
            hand == self.hand_type(),
    {
        self.hand
    }

    /// The category's hold tables, to be filled by a learner.
    pub fn optimal_holds_mut(&mut self) -> (holds: &mut OptimalHolds)
        ensures
            forall|throw: Throw| holds.choices(throw) == old(self).choices(throw),
            final(self).hand_type() == old(self).hand_type(),
            forall|throw: Throw| final(self).choices(throw) == final(holds).choices(throw),
    {
        &mut self.optimal_holds
    }

    /// The hold table of a throw stage; an error for the last stage, which
    /// has none.
    pub fn optimal_holds(&self, throw: Throw) -> (table: Result<
        &HashMap<u16, HoldChoice>,
        LookupError,
    >)
        ensures
            match table {
                Ok(t) => throw != Throw::Third && t@ == self.choices(throw),
                Err(e) => throw == Throw::Third && e == LookupError::IllegalThrow,
            },
    {
        match self.optimal_holds.table(throw) {
            Some(t) => Ok(t),
            None => Err(LookupError::IllegalThrow),
        }
    }

    /// The score that is expected after the throw `thrown` at stage `throw`,
    /// in millionths of a point.
    pub open spec fn spec_expected(&self, throw: Throw, thrown: u16) -> Result<u64, LookupError> {
        if throw == Throw::Third {
            Err(LookupError::IllegalThrow)
        } else if !self.choices(throw).contains_key(thrown) {
            Err(LookupError::NoEntry)
        } else {
            Ok(self.choices(throw)[thrown].score)
        }
    }

    /// The score that is expected after the throw `thrown` at stage `throw`,
    /// in millionths of a point.
    pub fn expected_score(&self, throw: Throw, thrown: u16) -> (expected: Result<u64, LookupError>)
        ensures
            expected == self.spec_expected(throw, thrown),
    {
        match self.optimal_holds(throw) {
            Err(e) => Err(e),
            Ok(table) => match table.get(&thrown) {
                Some(choice) => Ok(choice.score),
                None => Err(LookupError::NoEntry),
            },
        }
    }

    /// The dice that the policy keeps after the throw `thrown` at stage
    /// `throw`: the error of a stage or throw that the tables do not know;
    /// else `BadHold` where the table's hold code spells more than five dice
    /// or a die that shows nothing; else the dice that the code spells.
    pub open spec fn spec_hold(&self, throw: Throw, thrown: u16) -> Result<Seq<u8>, LookupError> {
        match self.spec_expected(throw, thrown) {
            Err(e) => Err(e),
            Ok(_) => {
                let hold = digits_of(self.choices(throw)[thrown].hold as nat, 7);
                if hold.len() <= 5 && all_faces(hold) {
                    Ok(hold)
                } else {
                    Err(LookupError::BadHold)
                }
            },
        }
    }

    /// The dice that the policy keeps after the throw `thrown` at stage
    /// `throw`.
    pub fn hold_after(&self, throw: Throw, thrown: u16) -> (hold: Result<Vec<u8>, LookupError>)
        ensures
            match hold {
                Ok(h) => self.spec_hold(throw, thrown) == Ok::<Seq<u8>, LookupError>(h@),
                Err(e) => self.spec_hold(throw, thrown) == Err::<Seq<u8>, LookupError>(e),
            },
    {
        match self.optimal_holds(throw) {
            Err(e) => Err(e),
            Ok(table) => match table.get(&thrown) {
                None => Err(LookupError::NoEntry),
                Some(choice) => hold_from_code(choice.hold),
            },
        }
    }

    /// The share of the category's highest score that is expected after the
    /// throw `thrown` at stage `throw`, in millionths and rounded down.
    pub fn max_score_probability(&self, throw: Throw, thrown: u16) -> (p: Result<u64, LookupError>)
        ensures
            p == self.spec_probability(throw, thrown),
    {
        match self.optimal_holds(throw) {
            Err(e) => Err(e),
            Ok(table) => match table.get(&thrown) {
                Some(choice) => Ok(choice.score / self.hand.max_score() as u64),
                None => Err(LookupError::NoEntry),
            },
        }
    }

    /// The share that `max_score_probability` gives.
    pub open spec fn spec_probability(&self, throw: Throw, thrown: u16) -> Result<
        u64,
        LookupError,
    > {
        if throw == Throw::Third {
            Err(LookupError::IllegalThrow)
        } else if !self.choices(throw).contains_key(thrown) {
            Err(LookupError::NoEntry)
        } else {
            Ok(
                (self.choices(throw)[thrown].score as nat
                    / self.hand_type().spec_max_score()) as u64,
            )
        }
    }

    /// What the category pays for the dice.
    pub fn score(&self, dices: &Vec<u8>) -> (points: u8)
        requires
            valid_dice(dices@),
        ensures
            points == self.hand_type().spec_score(dices@),
            points <= self.hand_type().spec_max_score(),
    {
        self.hand.score(dices)
    }

    /// Enters the entries of a hold table file. `table` holds the file's
    /// entries, or nothing where there is no such file: that is no error
    /// but a cold start, told by `Ok(None)`, and the tables stay as they
    /// are. Where an entry names a stage without a hold decision nothing is
    /// entered at all.
    pub fn load_optimal_holds(&mut self, table: Option<&Vec<HoldEntry>>) -> (done: Result<
        Option<()>,
        TableError,
    >)
        ensures
            final(self).hand_type() == old(self).hand_type(),
            match table {
                None => done == Ok::<Option<()>, TableError>(None) && forall|throw: Throw|
                    final(self).choices(throw) == old(self).choices(throw),
                Some(entries) => {
                    &&& old(self).feasible() && holds_within(
                        entries@,
                        old(self).hand_type().spec_min_holds(),
                    ) ==> final(self).feasible()
                    &&& match done {
                        Ok(told) => told is Some && stages_valid(entries@) && forall|throw: Throw|
                            final(self).choices(throw) == holds_loaded(
                                old(self).choices(throw),
                                entries@,
                                stage_number(throw),
                            ),
                        Err(e) => e == TableError::BadStage && !stages_valid(entries@) && forall|
                            throw: Throw,
                        |
                            final(self).choices(throw) == old(self).choices(throw),
                    }
                },
            },
    {
        let entries = match table {
            None => {
                return Ok(None);
            },
            Some(entries) => entries,
        };
        let mut i: usize = 0;
        while i < entries.len()
            invariant
                i <= entries.len(),
                table == Some(entries),
                forall|k: int| 0 <= k < i ==> (#[trigger] entries[k]).throw < 2,
            decreases entries.len() - i,
        {
            if entries[i].throw >= 2 {
                return Err(TableError::BadStage);
            }
            i += 1;
        }
        proof {
            self.optimal_holds.lemma_last_stage();
        }
        i = 0;
        assert(entries@.take(0) =~= Seq::<HoldEntry>::empty());
        while i < entries.len()
            invariant
                i <= entries.len(),
                table == Some(entries),
                stages_valid(entries@),
                self.hand == old(self).hand,
                forall|throw: Throw|
                    throw != Throw::Third ==> self.optimal_holds.choices(throw) == holds_loaded(
                        old(self).optimal_holds.choices(throw),
                        entries@.take(i as int),
                        stage_number(throw),
                    ),
                self.optimal_holds.choices(Throw::Third) == old(self).optimal_holds.choices(
                    Throw::Third,
                ),
                old(self).feasible() && holds_within(entries@, self.hand.spec_min_holds())
                    ==> self.feasible(),
            decreases entries.len() - i,
        {
            let entry = entries[i];
            let ghost before = *self;
            let throw = if entry.throw == 0 {
                Throw::First
            } else {
                Throw::Second
            };
            proof {
                assert(entries@.take(i as int + 1).drop_last() =~= entries@.take(i as int));
                assert(entries@.take(i as int + 1).last() == entry);
            }
            self.optimal_holds.insert(throw, entry.thrown, entry.choice);
            proof {
                if old(self).feasible() && holds_within(entries@, self.hand.spec_min_holds()) {
                    assert(before.feasible());
                    assert forall|stage: Throw, thrown: u16| #[trigger]
                        self.choices(stage).contains_key(thrown) implies self.choices(
                        stage,
                    )[thrown].hold_len <= self.hand_type().spec_min_holds() by {
                        if stage == throw && thrown == entry.thrown {
                            assert(entries@[i as int].choice.hold_len <= self.hand.spec_min_holds());
                        } else {
                            assert(before.choices(stage).contains_key(thrown));
                        }
                    }
                }
            }
            i += 1;
        }
        proof {
            assert(entries@.take(i as int) =~= entries@);
            lemma_holds_loaded_last_stage(old(self).optimal_holds.choices(Throw::Third), entries@);
        }
        Ok(Some(()))
    }

    /// The entries of both hold tables, as a hold table file holds them:
    /// those of the first stage, then those of the second.
    pub fn save_optimal_holds(&self) -> (entries: Vec<HoldEntry>)
        ensures
            entries@.len() == self.choices(Throw::First).len() + self.choices(Throw::Second).len(),
            stages_valid(entries@),
            holds_loaded(Map::empty(), entries@, 0) == self.choices(Throw::First),
            holds_loaded(Map::empty(), entries@, 1) == self.choices(Throw::Second),
            forall|i: int|
                0 <= i < entries.len() ==> {
                    let e = #[trigger] entries[i];
                    let throw = if e.throw == 0 {
                        Throw::First
                    } else {
                        Throw::Second
                    };
                    self.choices(throw).contains_key(e.thrown) && self.choices(throw)[e.thrown]
                        == e.choice
                },
            self.feasible() ==> forall|i: int|
                0 <= i < entries.len() ==> (#[trigger] entries[i]).choice.hold_len
                    <= self.hand_type().spec_min_holds(),
    {
        let mut entries: Vec<HoldEntry> = Vec::new();
        let first = self.optimal_holds.entries(Throw::First);
        let second = self.optimal_holds.entries(Throw::Second);
        let ghost t0 = self.choices(Throw::First);
        let ghost t1 = self.choices(Throw::Second);
        let mut i: usize = 0;
        while i < first.len()
            invariant
                i <= first.len(),
                entries@.len() == i,
                forall|k: int|
                    0 <= k < i ==> (#[trigger] entries[k]) == (HoldEntry {
                        throw: 0,
                        thrown: first[k].0,
                        choice: first[k].1,
                    }),
            decreases first.len() - i,
        {
            entries.push(HoldEntry { throw: 0, thrown: first[i].0, choice: first[i].1 });
            i += 1;
        }
        let mut j: usize = 0;
        while j < second.len()
            invariant
                j <= second.len(),
                entries@.len() == first.len() + j,
                forall|k: int|
                    0 <= k < first.len() ==> (#[trigger] entries[k]) == (HoldEntry {
                        throw: 0,
                        thrown: first[k].0,
                        choice: first[k].1,
                    }),
                forall|k: int|
                    0 <= k < j ==> (#[trigger] entries[first.len() + k]) == (HoldEntry {
                        throw: 1,
                        thrown: second[k].0,
                        choice: second[k].1,
                    }),
            decreases second.len() - j,
        {
            entries.push(HoldEntry { throw: 1, thrown: second[j].0, choice: second[j].1 });
            j += 1;
        }
        proof {
            let n = first.len() as int;
            assert forall|i: int| 0 <= i < entries.len() implies {
                let e = #[trigger] entries[i];
                let throw = if e.throw == 0 {
                    Throw::First
                } else {
                    Throw::Second
                };
                &&& e.throw < 2
                &&& self.choices(throw).contains_key(e.thrown)
                &&& self.choices(throw)[e.thrown] == e.choice
            } by {
                if i < n {
                    assert(t0.contains_key(first[i].0));
                } else {
                    assert(entries[n + (i - n)] == entries[i]);
                    assert(t1.contains_key(second[i - n].0));
                }
            }
            assert forall|k: u16| t0.contains_key(k) implies exists|i: int|
                0 <= i < entries.len() && (#[trigger] entries[i]).throw == 0 && entries[i].thrown
                    == k by {
                let i = choose|i: int| 0 <= i < first.len() && #[trigger] first[i].0 == k;
                assert(entries[i].throw == 0 && entries[i].thrown == k);
            }
            assert forall|k: u16| t1.contains_key(k) implies exists|i: int|
                0 <= i < entries.len() && (#[trigger] entries[i]).throw == 1 && entries[i].thrown
                    == k by {
                let j = choose|j: int| 0 <= j < second.len() && #[trigger] second[j].0 == k;
                assert(entries[n + j].throw == 1 && entries[n + j].thrown == k);
            }
            lemma_holds_loaded_is_table(entries@, 0, t0);
            lemma_holds_loaded_is_table(entries@, 1, t1);
        }
        entries
    }
}

/// The last stage's table is as it was, whatever is entered.
proof fn lemma_holds_loaded_last_stage(table: Map<u16, HoldChoice>, entries: Seq<HoldEntry>)
    requires
        stages_valid(entries),
    ensures
        holds_loaded(table, entries, 2) == table,
    decreases entries.len(),
{
    if entries.len() > 0 {
        lemma_holds_loaded_last_stage(table, entries.drop_last());
        assert(entries.last() == entries[entries.len() - 1]);
    }
}

/// What the entries of a stage hold, where their keys are the table's keys
/// and each holds the table's value.
proof fn lemma_holds_loaded_is_table(entries: Seq<HoldEntry>, stage: u8, table: Map<u16, HoldChoice>)
    requires
        forall|i: int|
            0 <= i < entries.len() && (#[trigger] entries[i]).throw == stage
                ==> table.contains_key(entries[i].thrown) && table[entries[i].thrown]
                == entries[i].choice,
        forall|k: u16|
            table.contains_key(k) ==> exists|i: int|
                0 <= i < entries.len() && (#[trigger] entries[i]).throw == stage
                    && entries[i].thrown == k,
    ensures
        holds_loaded(Map::empty(), entries, stage) == table,
{
    lemma_holds_loaded_keys(entries, stage, table, entries.len() as int);
    let loaded = holds_loaded(Map::empty(), entries, stage);
    assert(entries.take(entries.len() as int) =~= entries);
    assert forall|k: u16| table.contains_key(k) implies loaded.contains_key(k) by {
        let i = choose|i: int|
            0 <= i < entries.len() && (#[trigger] entries[i]).throw == stage && entries[i].thrown
                == k;
        assert(entries[i].thrown == k);
    }
    assert(loaded =~= table);
}

proof fn lemma_holds_loaded_keys(
    entries: Seq<HoldEntry>,
    stage: u8,
    table: Map<u16, HoldChoice>,
    n: int,
)
    requires
        0 <= n <= entries.len(),
        forall|i: int|
            0 <= i < entries.len() && (#[trigger] entries[i]).throw == stage
                ==> table.contains_key(entries[i].thrown) && table[entries[i].thrown]
                == entries[i].choice,
    ensures
        forall|k: u16| #[trigger]
            holds_loaded(Map::empty(), entries.take(n), stage).contains_key(k)
                ==> table.contains_key(k) && holds_loaded(Map::empty(), entries.take(n), stage)[k]
                == table[k],
        forall|i: int|
            0 <= i < n && (#[trigger] entries[i]).throw == stage ==> holds_loaded(
                Map::empty(),
                entries.take(n),
                stage,
            ).contains_key(entries[i].thrown),
    decreases n,
{
    if n > 0 {
        lemma_holds_loaded_keys(entries, stage, table, n - 1);
        let cur = entries.take(n);
        let prev = entries.take(n - 1);
        assert(cur.drop_last() =~= prev);
        assert(cur.last() == entries[n - 1]);
        let before = holds_loaded(Map::<u16, HoldChoice>::empty(), prev, stage);
        let after = holds_loaded(Map::<u16, HoldChoice>::empty(), cur, stage);
        assert forall|k: u16| #[trigger] after.contains_key(k) implies table.contains_key(k)
            && after[k] == table[k] by {
            if entries[n - 1].throw == stage && k == entries[n - 1].thrown {
            } else {
                assert(before.contains_key(k));
            }
        }
        assert forall|i: int| 0 <= i < n && (#[trigger] entries[i]).throw == stage implies after.contains_key(
            entries[i].thrown,
        ) by {
            if i < n - 1 {
                assert(before.contains_key(entries[i].thrown));
            }
        }
    } else {
        assert(entries.take(0) =~= Seq::<HoldEntry>::empty());
    }
}

/// Whether category `a` promises a larger share of its highest score than
/// category `b` after the throw: the expected scores over the highest
/// scores, compared exactly.
pub open spec fn larger_share(hands: Seq<Box<Hand>>, throw: Throw, thrown: u16, a: int, b: int) -> bool {
    hands[a].spec_expected(throw, thrown)->Ok_0 * hands[b].hand_type().spec_max_score()
        > hands[b].spec_expected(throw, thrown)->Ok_0 * hands[a].hand_type().spec_max_score()
}

/// Category `b` is the open category that promises the largest share of
/// its highest score after the throw: the mask holds it, the tables know
/// the throw for every open category, `b` is expected to score something,
/// no open category promises a larger share, and none before `b` on the
/// score card promises as large a one.
pub open spec fn is_best_hand(
    hands: Seq<Box<Hand>>,
    throw: Throw,
    thrown: u16,
    available_hands: u16,
    b: int,
) -> bool {
    &&& throw != Throw::Third
    &&& 0 <= b < 16 && b < hands.len()
    &&& has_bit(available_hands, b as u16)
    &&& hands[b].spec_expected(throw, thrown) is Ok
    &&& hands[b].spec_expected(throw, thrown)->Ok_0 > 0
    &&& forall|pos: u16|
        pos < 16 && #[trigger] has_bit(available_hands, pos) ==> {
            &&& hands[pos as int].spec_expected(throw, thrown) is Ok
            &&& !larger_share(hands, throw, thrown, pos as int, b)
            &&& pos < b ==> larger_share(hands, throw, thrown, b, pos as int)
        }
}

/// Why no open category can be named after the throw, if that is so: the
/// stage has no hold decision; or the table of an open category does not
/// know the throw; or every open category is expected to score nothing.
pub open spec fn best_hand_error(
    hands: Seq<Box<Hand>>,
    throw: Throw,
    thrown: u16,
    available_hands: u16,
) -> Option<LookupError> {
    if throw == Throw::Third {
        Some(LookupError::IllegalThrow)
    } else if exists|pos: u16|
        pos < 16 && #[trigger] has_bit(available_hands, pos) && hands[pos as int].spec_expected(
            throw,
            thrown,
        ) is Err {
        Some(LookupError::NoEntry)
    } else if forall|pos: u16|
        pos < 16 && #[trigger] has_bit(available_hands, pos) ==> hands[pos as int].spec_expected(
            throw,
            thrown,
        ) == Ok::<u64, LookupError>(0) {
        Some(LookupError::NoBestHand)
    } else {
        None
    }
}

/// The open category that promises most after the throw, or why there is
/// none.
pub open spec fn spec_best_hand(
    hands: Seq<Box<Hand>>,
    throw: Throw,
    thrown: u16,
    available_hands: u16,
) -> Result<int, LookupError> {
    match best_hand_error(hands, throw, thrown, available_hands) {
        Some(e) => Err(e),
        None => Ok(choose|b: int| is_best_hand(hands, throw, thrown, available_hands, b)),
    }
}

/// There is one best category at most.
pub proof fn lemma_best_hand_unique(
    hands: Seq<Box<Hand>>,
    throw: Throw,
    thrown: u16,
    available_hands: u16,
    one: int,
    other: int,
)
    requires
        is_best_hand(hands, throw, thrown, available_hands, one),
        is_best_hand(hands, throw, thrown, available_hands, other),
    ensures
        one == other,
{
    if one < other {
        assert(has_bit(available_hands, one as u16));
        assert(has_bit(available_hands, other as u16));
        assert(larger_share(hands, throw, thrown, other, one as u16 as int));
        assert(!larger_share(hands, throw, thrown, other as u16 as int, one));
    } else if other < one {
        assert(has_bit(available_hands, one as u16));
        assert(has_bit(available_hands, other as u16));
        assert(larger_share(hands, throw, thrown, one, other as u16 as int));
        assert(!larger_share(hands, throw, thrown, one as u16 as int, other));
    }
}

/// The best category is what `spec_best_hand` names.
pub proof fn lemma_best_hand_named(
    hands: Seq<Box<Hand>>,
    throw: Throw,
    thrown: u16,
    available_hands: u16,
    best: int,
)
    requires
        is_best_hand(hands, throw, thrown, available_hands, best),
    ensures
        spec_best_hand(hands, throw, thrown, available_hands) == Ok::<int, LookupError>(best),
{
    assert(has_bit(available_hands, best as u16));
    assert(hands[best as u16 as int].spec_expected(throw, thrown) != Ok::<u64, LookupError>(0));
    assert(best_hand_error(hands, throw, thrown, available_hands) is None);
    let chosen = choose|b: int| is_best_hand(hands, throw, thrown, available_hands, b);
    lemma_best_hand_unique(hands, throw, thrown, available_hands, chosen, best);
}

/// The open category that promises the largest share of its highest score
/// after the throw `thrown` at stage `throw`: of the categories that the
/// mask holds, the first in score-card order whose share no other exceeds.
/// A category that is expected to score nothing is never chosen.
pub fn best_available_hand(
    throw: Throw,
    thrown: u16,
    available_hands: u16,
    hands: &Vec<Box<Hand>>,
) -> (best: Result<usize, LookupError>)
    requires
        forall|pos: u16| pos < 16 && has_bit(available_hands, pos) ==> pos < hands.len(),
    ensures
        match best {
            Ok(b) => spec_best_hand(hands@, throw, thrown, available_hands) == Ok::<
                int,
                LookupError,
            >(b as int),
            Err(e) => spec_best_hand(hands@, throw, thrown, available_hands) == Err::<
                int,
                LookupError,
            >(e),
        },
        match best {
            Ok(b) => is_best_hand(hands@, throw, thrown, available_hands, b as int),
            Err(LookupError::IllegalThrow) => throw == Throw::Third,
            Err(LookupError::NoEntry) => throw != Throw::Third && exists|pos: u16|
                pos < 16 && #[trigger] has_bit(available_hands, pos) && hands[pos as int].spec_expected(
                    throw,
                    thrown,
                ) is Err,
            Err(LookupError::NoBestHand) => throw != Throw::Third && forall|pos: u16|
                pos < 16 && #[trigger] has_bit(available_hands, pos) ==> hands[pos as int].spec_expected(
                    throw,
                    thrown,
                ) == Ok::<u64, LookupError>(0),
            Err(LookupError::BadHold) => false,
        },
{
    if throw == Throw::Third {
        return Err(LookupError::IllegalThrow);
    }
    let members = base10_to_base2(available_hands, false);
    proof {
        lemma_members_below(available_hands, 16, 0);
    }
    let mut best_hand: Option<usize> = None;
    let mut best_score: u64 = 0;
    let mut best_max: u8 = 1;
    let mut i: usize = 0;
    while i < members.len()
        invariant
            i <= members.len(),
            throw != Throw::Third,
            members@ == crate::utils::members_below(available_hands, 16, 0),
            forall|k: int|
                0 <= k < members.len() ==> (#[trigger] members[k]) < 16 && has_bit(
                    available_hands,
                    members[k] as u16,
                ),
            forall|a: int, b: int| 0 <= a < b < members.len() ==> members[a] < members[b],
            forall|pos: u16| pos < 16 && has_bit(available_hands, pos) ==> pos < hands.len(),
            1 <= best_max <= 50,
            forall|k: int|
                0 <= k < i ==> {
                    let e = hands[(#[trigger] members[k]) as int].spec_expected(throw, thrown);
                    &&& e is Ok
                    &&& e->Ok_0 * best_max <= best_score * hands[members[k] as int].hand_type().spec_max_score()
                },
            match best_hand {
                Some(b) => {
                    &&& exists|k: int| 0 <= k < i && members[k] == b
                    &&& best_score > 0
                    &&& hands[b as int].spec_expected(throw, thrown) == Ok::<u64, LookupError>(
                        best_score,
                    )
                    &&& hands[b as int].hand_type().spec_max_score() == best_max
                    &&& forall|k: int|
                        0 <= k < i && (#[trigger] members[k]) < b ==> hands[members[k] as int].spec_expected(
                            throw,
                            thrown,
                        )->Ok_0 * best_max < best_score * hands[members[k] as int].hand_type().spec_max_score()
                },
                None => best_score == 0,
            },
        decreases members.len() - i,
    {
        let hand = members[i] as usize;
        match hands[hand].expected_score(throw, thrown) {
            Err(e) => {
                assert(has_bit(available_hands, members[i as int] as u16));
                return Err(LookupError::NoEntry);
            },
            Ok(score) => {
                let max = hands[hand].hand().max_score();
                let ghost old_score = best_score;
                let ghost old_max = best_max;
                assert(score as u128 * best_max as u128 <= 0xFFFF_FFFF_FFFF_FFFF * 50
                    && best_score as u128 * max as u128 <= 0xFFFF_FFFF_FFFF_FFFF * 50) by (nonlinear_arith)
                    requires
                        score <= 0xFFFF_FFFF_FFFF_FFFF,
                        best_score <= 0xFFFF_FFFF_FFFF_FFFF,
                        best_max <= 50,
                        max <= 50,
                ;
                if score as u128 * best_max as u128 > best_score as u128 * max as u128 {
                    proof {
                        assert(score > 0) by (nonlinear_arith)
                            requires
                                score * best_max > best_score * max,
                                best_score >= 0,
                                max >= 0,
                                score >= 0,
                        ;
                        assert forall|k: int| 0 <= k < i implies {
                            let e = hands[(#[trigger] members[k]) as int].spec_expected(
                                throw,
                                thrown,
                            )->Ok_0;
                            let m = hands[members[k] as int].hand_type().spec_max_score();
                            e * max < score * m
                        } by {
                            let e = hands[members[k] as int].spec_expected(throw, thrown)->Ok_0;
                            let m = hands[members[k] as int].hand_type().spec_max_score();
                            lemma_share_order(e as int, m as int, old_score as int, old_max as int, score as int, max as int);
                        }
                    }
                    best_score = score;
                    best_max = max;
                    best_hand = Some(hand);
                } else {
                    proof {
                        if let Some(b) = best_hand {
                            let kb = choose|k: int| 0 <= k < i && members[k] == b;
                            assert(members[kb] < members[i as int]);
                        }
                    }
                }
            },
        }
        i += 1;
    }
    proof {
        assert forall|pos: u16| pos < 16 && #[trigger] has_bit(available_hands, pos) implies exists|
            k: int,
        |
            0 <= k < members.len() && members[k] == pos by {
            assert(members@.contains((pos + 0u8) as u8));
        }
    }
    match best_hand {
        Some(hand) => {
            proof {
                assert forall|pos: u16|
                    pos < 16 && #[trigger] has_bit(available_hands, pos) implies {
                    &&& hands[pos as int].spec_expected(throw, thrown) is Ok
                    &&& !larger_share(hands@, throw, thrown, pos as int, hand as int)
                    &&& pos < hand ==> larger_share(hands@, throw, thrown, hand as int, pos as int)
                } by {
                    let k = choose|k: int| 0 <= k < members.len() && members[k] == pos;
                    assert(members[k] == pos);
                }
            }
            proof {
                lemma_best_hand_named(hands@, throw, thrown, available_hands, hand as int);
            }
            Ok(hand)
        },
        None => {
            proof {
                assert forall|pos: u16|
                    pos < 16 && #[trigger] has_bit(
                        available_hands,
                        pos,
                    ) implies hands[pos as int].spec_expected(throw, thrown) == Ok::<
                    u64,
                    LookupError,
                >(0) by {
                    let k = choose|k: int| 0 <= k < members.len() && members[k] == pos;
                    assert(members[k] == pos);
                    let e = hands[pos as int].spec_expected(throw, thrown)->Ok_0;
                    let m = hands[pos as int].hand_type().spec_max_score();
                    assert(e * best_max <= 0 * m);
                    assert(e == 0) by (nonlinear_arith)
                        requires
                            e * best_max <= 0 * m,
                            best_max >= 1,
                            e >= 0,
                    ;
                }
            }
            Err(LookupError::NoBestHand)
        },
    }
}

/// Shares are ordered: what is no larger than a share that is smaller than
/// another is smaller than that other.
proof fn lemma_share_order(e: int, m: int, s1: int, m1: int, s2: int, m2: int)
    by (nonlinear_arith)
    requires
        e >= 0,
        s1 >= 0,
        s2 >= 0,
        m >= 1,
        m1 >= 1,
        m2 >= 1,
        e * m1 <= s1 * m,
        s2 * m1 > s1 * m2,
    ensures
        e * m2 < s2 * m,
{
    assert(e * m1 * m2 <= s1 * m * m2);
    assert(s2 * m1 * m > s1 * m2 * m);
    assert(s1 * m * m2 == s1 * m2 * m);
    assert(e * m2 * m1 < s2 * m * m1);
}

/// The sum of the weights.
pub open spec fn weights_total(weights: Seq<u64>) -> nat
    decreases weights.len(),
{
    if weights.len() == 0 {
        0
    } else {
        weights_total(weights.drop_last()) + weights.last() as nat
    }
}

/// `WeightedIndex::new` and `Distribution::sample` of rand on `u64`
/// weights: a place in `weights` whose weight is not zero; none where there
/// are no weights or all are zero. rand adds the weights up in a `u64`.
#[verifier::external_body]
fn sample_weighted(rng: &mut rand::rngs::ThreadRng, weights: &Vec<u64>) -> (index: Option<usize>)
    requires
        weights_total(weights@) <= u64::MAX,
    ensures
        match index {
            Some(i) => i < weights@.len() && weights@[i as int] > 0,
            None => weights_total(weights@) == 0,
        },
{
    match rand::distributions::WeightedIndex::new(weights) {
        Ok(sampler) => Some(sampler.sample(rng)),
        Err(_) => None,
    }
}

/// The hits of all scores below `below`.
pub open spec fn hits_below(histogram: Map<u8, u64>, below: nat) -> nat
    decreases below,
{
    if below == 0 {
        0
    } else {
        let score = (below - 1) as u8;
        hits_below(histogram, (below - 1) as nat) + if histogram.contains_key(score) {
            histogram[score] as nat
        } else {
            0
        }
    }
}

/// The number of scores below `below` that the histogram holds.
pub open spec fn scores_below(histogram: Map<u8, u64>, below: nat) -> nat
    decreases below,
{
    if below == 0 {
        0
    } else {
        scores_below(histogram, (below - 1) as nat) + if histogram.contains_key(
            (below - 1) as u8,
        ) {
            1nat
        } else {
            0nat
        }
    }
}

/// The sum of all scores below `below`, each taken as often as it was hit.
pub open spec fn points_below(histogram: Map<u8, u64>, below: nat) -> nat
    decreases below,
{
    if below == 0 {
        0
    } else {
        let score = (below - 1) as u8;
        points_below(histogram, (below - 1) as nat) + if histogram.contains_key(score) {
            score as nat * histogram[score] as nat
        } else {
            0
        }
    }
}

/// The histogram's entries with a score below `below`, by ascending score.
pub open spec fn records_below(histogram: Map<u8, u64>, below: nat) -> Seq<DistrRecord>
    decreases below,
{
    if below == 0 {
        Seq::empty()
    } else {
        let score = (below - 1) as u8;
        let rest = records_below(histogram, (below - 1) as nat);
        if histogram.contains_key(score) {
            rest.push(DistrRecord { score, hits: histogram[score] })
        } else {
            rest
        }
    }
}

/// The histogram after the records were entered one after the other; a
/// later record for a score replaces an earlier one.
pub open spec fn histogram_loaded(histogram: Map<u8, u64>, records: Seq<DistrRecord>) -> Map<
    u8,
    u64,
>
    decreases records.len(),
{
    if records.len() == 0 {
        histogram
    } else {
        histogram_loaded(histogram, records.drop_last()).insert(
            records.last().score,
            records.last().hits,
        )
    }
}

/// The hits of all records.
pub open spec fn records_hits(records: Seq<DistrRecord>) -> nat
    decreases records.len(),
{
    if records.len() == 0 {
        0
    } else {
        records_hits(records.drop_last()) + records.last().hits as nat
    }
}

/// The hits of the records, in the records' order.
pub open spec fn hits_of_records(records: Seq<DistrRecord>) -> Seq<u64> {
    Seq::new(records.len(), |i: int| records[i].hits)
}

/// The histogram after a distribution file was loaded, or why the file
/// cannot be loaded.
pub open spec fn distribution_after_load(histogram: Map<u8, u64>, file: Seq<u8>) -> Result<
    Map<u8, u64>,
    TableError,
> {
    match table_records::<DistrRecord>(file) {
        Err(e) => Err(e),
        Ok(records) => if records_hits(records) > u64::MAX {
            Err(TableError::TooManyHits)
        } else {
            Ok(histogram_loaded(histogram, records))
        },
    }
}

/// The hits of the records add up to the sum of their weights.
pub proof fn lemma_hits_of_records(records: Seq<DistrRecord>)
    ensures
        records_hits(records) == weights_total(hits_of_records(records)),
    decreases records.len(),
{
    if records.len() > 0 {
        lemma_hits_of_records(records.drop_last());
        assert(hits_of_records(records).drop_last() =~= hits_of_records(records.drop_last()));
    }
}

/// The hits of a histogram's scores fit in 72 bits.
pub proof fn lemma_hits_below_bound(histogram: Map<u8, u64>, below: nat)
    ensures
        hits_below(histogram, below) <= below * 0xFFFF_FFFF_FFFF_FFFF,
    decreases below,
{
    if below > 0 {
        lemma_hits_below_bound(histogram, (below - 1) as nat);
    }
}

/// What `records_below` holds: every score of the histogram below `below`
/// once, with its hits, and nothing else.
pub proof fn lemma_records_below(histogram: Map<u8, u64>, below: nat)
    requires
        below <= 256,
    ensures
        forall|i: int|
            0 <= i < records_below(histogram, below).len() ==> {
                let r = #[trigger] records_below(histogram, below)[i];
                r.score < below && histogram.contains_key(r.score) && histogram[r.score] == r.hits
            },
        forall|s: u8|
            s < below && histogram.contains_key(s) ==> exists|i: int|
                0 <= i < records_below(histogram, below).len() && (#[trigger] records_below(
                    histogram,
                    below,
                )[i]).score == s,
        weights_total(hits_of_records(records_below(histogram, below))) == hits_below(
            histogram,
            below,
        ),
    decreases below,
{
    let all = records_below(histogram, below);
    let hits = hits_of_records(all);
    if below > 0 {
        let score = (below - 1) as u8;
        let rest = records_below(histogram, (below - 1) as nat);
        lemma_records_below(histogram, (below - 1) as nat);
        assert forall|s: u8| s < below && histogram.contains_key(s) implies exists|i: int|
            0 <= i < all.len() && (#[trigger] all[i]).score == s by {
            if s < below - 1 {
                let i = choose|i: int| 0 <= i < rest.len() && (#[trigger] rest[i]).score == s;
                assert(all[i].score == s);
            } else {
                assert(all[all.len() - 1].score == s);
            }
        }
        if histogram.contains_key(score) {
            assert(hits.drop_last() =~= hits_of_records(rest));
        } else {
            assert(hits =~= hits_of_records(rest));
        }
    } else {
        assert(hits =~= Seq::<u64>::empty());
    }
}

/// A histogram is read back from its own records.
pub proof fn histogram_round_trip(histogram: Map<u8, u64>)
    ensures
        histogram_loaded(Map::empty(), records_below(histogram, 256)) == histogram,
{
    lemma_records_below(histogram, 256);
    let records = records_below(histogram, 256);
    lemma_histogram_loaded(records, histogram, records.len() as int);
    assert(records.take(records.len() as int) =~= records);
    let loaded = histogram_loaded(Map::empty(), records);
    assert forall|s: u8| histogram.contains_key(s) implies loaded.contains_key(s) by {
        let i = choose|i: int| 0 <= i < records.len() && (#[trigger] records[i]).score == s;
        assert(records[i].score == s);
    }
    assert(loaded =~= histogram);
}

proof fn lemma_histogram_loaded(records: Seq<DistrRecord>, histogram: Map<u8, u64>, n: int)
    requires
        0 <= n <= records.len(),
        forall|i: int|
            0 <= i < records.len() ==> histogram.contains_key((#[trigger] records[i]).score)
                && histogram[records[i].score] == records[i].hits,
    ensures
        forall|s: u8| #[trigger]
            histogram_loaded(Map::empty(), records.take(n)).contains_key(s)
                ==> histogram.contains_key(s) && histogram_loaded(Map::empty(), records.take(n))[s]
                == histogram[s],
        forall|i: int|
            0 <= i < n ==> histogram_loaded(Map::empty(), records.take(n)).contains_key(
                (#[trigger] records[i]).score,
            ),
    decreases n,
{
    if n > 0 {
        lemma_histogram_loaded(records, histogram, n - 1);
        let cur = records.take(n);
        let prev = records.take(n - 1);
        assert(cur.drop_last() =~= prev);
        assert(cur.last() == records[n - 1]);
        let before = histogram_loaded(Map::<u8, u64>::empty(), prev);
        let after = histogram_loaded(Map::<u8, u64>::empty(), cur);
        assert forall|s: u8| #[trigger] after.contains_key(s) implies histogram.contains_key(s)
            && after[s] == histogram[s] by {
            if s != records[n - 1].score {
                assert(before.contains_key(s));
            }
        }
        assert forall|i: int| 0 <= i < n implies after.contains_key((#[trigger] records[i]).score) by {
            if i < n - 1 {
                assert(before.contains_key(records[i].score));
            }
        }
    } else {
        assert(records.take(0) =~= Seq::<DistrRecord>::empty());
    }
}

/// The final scores that a category reached when its learned policy was
/// played: how often each score was hit, and how many games were counted.
pub struct HandDistribution {
    distr: HashMap<u8, u64>,
    n_hits: u64,
    rng: rand::rngs::ThreadRng,
    hand: HandType,
}

impl HandDistribution {
    pub closed spec fn hand_type(&self) -> HandType {
        self.hand
    }

    /// How often each score was hit.
    pub closed spec fn histogram(&self) -> Map<u8, u64> {
        self.distr@
    }

    /// The number of games counted.
    pub closed spec fn hits(&self) -> nat {
        self.n_hits as nat
    }

    /// Whether one more game with the score `score` fits the counters.
    pub open spec fn can_update(&self, score: u8) -> bool {
        &&& self.hits() < u64::MAX
        &&& self.histogram().contains_key(score) ==> self.histogram()[score] < u64::MAX
    }

    /// The mean score in millionths of a point: the points of all games over
    /// the number of games counted.
    pub open spec fn spec_mean(&self) -> nat {
        spec_mean_micro(points_below(self.histogram(), 256), self.hits())
    }

    pub fn new(hand: HandType) -> (d: HandDistribution)
        ensures
            d.hand_type() == hand,
            d.histogram() == Map::<u8, u64>::empty(),
            d.hits() == 0,
    {
        HandDistribution { distr: HashMap::new(), n_hits: 0, rng: thread_rng(), hand }
    }

    pub fn name(&self) -> (name: String)
        ensures
            name@ == self.hand_type().spec_name(),
    {
        self.hand.name()
    }

    /// The number of different scores that the histogram holds.
    pub fn len(&self) -> (n: u32)
        ensures
            n == scores_below(self.histogram(), 256),
            n <= 256,
    {
        let mut n: u32 = 0;
        let mut below: u16 = 0;
        while below < 256
            invariant
                below <= 256,
                n == scores_below(self.histogram(), below as nat),
                n <= below,
            decreases 256 - below,
        {
            let score = below as u8;
            if self.distr.contains_key(&score) {
                n += 1;
            }
            below += 1;
        }
        n
    }

    /// How often `score` was hit.
    pub fn hits_of(&self, score: u8) -> (hits: u64)
        ensures
            hits == if self.histogram().contains_key(score) {
                self.histogram()[score]
            } else {
                0
            },
    {
        match self.distr.get(&score) {
            Some(h) => *h,
            None => 0,
        }
    }

    /// The number of games counted.
    pub fn n_hits(&self) -> (n: u64)
        ensures
            n == self.hits(),
    {
        self.n_hits
    }

    /// Counts one game that ended with `score`.
    pub fn update_scores(&mut self, score: u8)
        requires
            old(self).can_update(score),
        ensures
            final(self).hand_type() == old(self).hand_type(),
            final(self).hits() == old(self).hits() + 1,
            final(self).histogram() == old(self).histogram().insert(
                score,
                if old(self).histogram().contains_key(score) {
                    (old(self).histogram()[score] + 1) as u64
                } else {
                    1
                },
            ),
    {
        let before = self.hits_of(score);
        let present = self.distr.contains_key(&score);
        if present {
            self.distr.insert(score, before + 1);
        } else {
            self.distr.insert(score, 1);
        }
        self.n_hits += 1;
    }

    /// The histogram's records by ascending score.
    pub fn records(&self) -> (records: Vec<DistrRecord>)
        ensures
            records@ == records_below(self.histogram(), 256),
            histogram_loaded(Map::empty(), records@) == self.histogram(),
    {
        let mut records: Vec<DistrRecord> = Vec::new();
        let mut below: u16 = 0;
        while below < 256
            invariant
                below <= 256,
                records@ == records_below(self.histogram(), below as nat),
            decreases 256 - below,
        {
            let score = below as u8;
            match self.distr.get(&score) {
                Some(h) => {
                    records.push(DistrRecord { score, hits: *h });
                },
                None => {},
            }
            below += 1;
        }
        proof {
            histogram_round_trip(self.histogram());
        }
        records
    }

    /// Enters the records and takes the sum of their hits as the number of
    /// games. Where that sum does not fit the counter nothing is entered at
    /// all.
    pub fn load_records(&mut self, records: &Vec<DistrRecord>) -> (done: Result<
        (),
        TableError,
    >)
        ensures
            final(self).hand_type() == old(self).hand_type(),
            match done {
                Ok(_) => {
                    &&& records_hits(records@) <= u64::MAX
                    &&& final(self).hits() == records_hits(records@)
                    &&& final(self).histogram() == histogram_loaded(
                        old(self).histogram(),
                        records@,
                    )
                },
                Err(e) => {
                    &&& e == TableError::TooManyHits
                    &&& records_hits(records@) > u64::MAX
                    &&& final(self).hits() == old(self).hits()
                    &&& final(self).histogram() == old(self).histogram()
                },
            },
    {
        let mut total: u64 = 0;
        let mut i: usize = 0;
        assert(records@.take(0) =~= Seq::<DistrRecord>::empty());
        while i < records.len()
            invariant
                i <= records.len(),
                total == records_hits(records@.take(i as int)),
            decreases records.len() - i,
        {
            proof {
                assert(records@.take(i as int + 1).drop_last() =~= records@.take(i as int));
                lemma_records_hits_prefix(records@, i as int + 1);
            }
            match total.checked_add(records[i].hits) {
                Some(t) => {
                    total = t;
                },
                None => {
                    return Err(TableError::TooManyHits);
                },
            }
            i += 1;
        }
        assert(records@.take(i as int) =~= records@);
        self.n_hits = total;
        i = 0;
        while i < records.len()
            invariant
                i <= records.len(),
                self.hand == old(self).hand,
                self.n_hits == total,
                self.distr@ == histogram_loaded(old(self).distr@, records@.take(i as int)),
            decreases records.len() - i,
        {
            proof {
                assert(records@.take(i as int + 1).drop_last() =~= records@.take(i as int));
            }
            self.distr.insert(records[i].score, records[i].hits);
            i += 1;
        }
        assert(records@.take(i as int) =~= records@);
        Ok(())
    }

    /// The distribution's table file: the count, then a record for every
    /// score that the histogram holds, by ascending score, and nothing after
    /// them.
    pub fn save_distribution(&self) -> (file: Vec<u8>)
        ensures
            file@ == table_bytes(records_below(self.histogram(), 256)),
            file@.len() == 8 + 9 * records_below(self.histogram(), 256).len(),
            table_records::<DistrRecord>(file@) == Ok::<Seq<DistrRecord>, TableError>(
                records_below(self.histogram(), 256),
            ),
            hits_below(self.histogram(), 256) <= u64::MAX ==> distribution_after_load(
                Map::empty(),
                file@,
            ) == Ok::<Map<u8, u64>, TableError>(self.histogram()),
    {
        let records = self.records();
        let file = encode_table(&records);
        proof {
            assert(records@.len() == records.len());
            table_round_trip(records@);
            lemma_table_bytes_len(records@);
            lemma_records_below(self.histogram(), 256);
            lemma_hits_of_records(records@);
            lemma_hits_below_bound(self.histogram(), 256);
        }
        file
    }

    /// Loads the distribution's table file: its records are entered into
    /// the histogram, and the sum of their hits becomes the number of games.
    /// `file` is what the file holds, or nothing where there is no such
    /// file: that is no error but a cold start, told by `Ok(None)`, and the
    /// distribution stays as it is. Where the file ends early, or the sum
    /// of the hits does not fit the counter, nothing is entered at all.
    pub fn load_distribution(&mut self, file: Option<&Vec<u8>>) -> (done: Result<
        Option<()>,
        TableError,
    >)
        ensures
            final(self).hand_type() == old(self).hand_type(),
            match file {
                None => {
                    &&& done == Ok::<Option<()>, TableError>(None)
                    &&& final(self).hits() == old(self).hits()
                    &&& final(self).histogram() == old(self).histogram()
                },
                Some(bytes) => match done {
                    Ok(told) => {
                        &&& told is Some
                        &&& distribution_after_load(old(self).histogram(), bytes@) == Ok::<
                            Map<u8, u64>,
                            TableError,
                        >(final(self).histogram())
                        &&& table_records::<DistrRecord>(bytes@) is Ok
                        &&& final(self).hits() == records_hits(
                            table_records::<DistrRecord>(bytes@)->Ok_0,
                        )
                    },
                    Err(e) => {
                        &&& distribution_after_load(old(self).histogram(), bytes@) == Err::<
                            Map<u8, u64>,
                            TableError,
                        >(e)
                        &&& final(self).hits() == old(self).hits()
                        &&& final(self).histogram() == old(self).histogram()
                    },
                },
            },
    {
        let bytes = match file {
            None => {
                return Ok(None);
            },
            Some(bytes) => bytes,
        };
        let records = match decode_table::<DistrRecord>(bytes) {
            Err(e) => {
                return Err(e);
            },
            Ok(records) => records,
        };
        match self.load_records(&records) {
            Err(e) => Err(e),
            Ok(_) => Ok(Some(())),
        }
    }

    /// The mean score in millionths of a point, raised by `extras` where
    /// given; an error where no game was counted. A result beyond the
    /// largest `u64` is given as that.
    pub fn mean_score(&self, extras: Option<u64>) -> (mean: Result<u64, LookupError>)
        ensures
            mean == if self.hits() == 0 {
                Err::<u64, LookupError>(LookupError::NoEntry)
            } else {
                let extra = match extras {
                    Some(e) => e as nat,
                    None => 0,
                };
                Ok(
                    if self.spec_mean() + extra > u64::MAX {
                        u64::MAX
                    } else {
                        (self.spec_mean() + extra) as u64
                    },
                )
            },
    {
        if self.n_hits == 0 {
            return Err(LookupError::NoEntry);
        }
        let mut points: u128 = 0;
        let mut below: u16 = 0;
        while below < 256
            invariant
                below <= 256,
                points == points_below(self.histogram(), below as nat),
                points <= below * 0xFF_FFFF_FFFF_FFFF_FFFF,
            decreases 256 - below,
        {
            let score = below as u8;
            let hits = self.hits_of(score);
            assert(score as u128 * hits as u128 <= 0xFF_FFFF_FFFF_FFFF_FFFF && (hits == 0
                ==> score as u128 * hits as u128 == 0)) by (nonlinear_arith)
                requires
                    score <= 255,
                    hits <= 0xFFFF_FFFF_FFFF_FFFF,
            ;
            points = points + score as u128 * hits as u128;
            below += 1;
        }
        let mean = mean_micro_wide(points, self.n_hits);
        let extra = match extras {
            Some(e) => e,
            None => 0,
        };
        match mean.checked_add(extra) {
            Some(m) => Ok(m),
            None => Ok(u64::MAX),
        }
    }

    /// Draws a score as the histogram weighs them: a score that was hit.
    /// None where no score was hit, or where the hits of all scores do not
    /// add up in a `u64`.
    pub fn sample_from_distribution(&mut self) -> (score: Option<u8>)
        ensures
            final(self).hand_type() == old(self).hand_type(),
            final(self).histogram() == old(self).histogram(),
            final(self).hits() == old(self).hits(),
            score is Some <==> 0 < hits_below(old(self).histogram(), 256) <= u64::MAX,
            score matches Some(s) ==> old(self).histogram().contains_key(s) && old(
                self,
            ).histogram()[s] > 0,
    {
        let records = self.records();
        proof {
            lemma_records_below(self.histogram(), 256);
        }
        let mut weights: Vec<u64> = Vec::new();
        let mut total: u64 = 0;
        let mut i: usize = 0;
        let ghost all = hits_of_records(records@);
        let ghost target = hits_below(self.histogram(), 256);
        assert(all.take(0) =~= Seq::<u64>::empty());
        while i < records.len()
            invariant
                i <= records.len(),
                all == hits_of_records(records@),
                weights_total(all) == target,
                target == hits_below(old(self).histogram(), 256),
                self.histogram() == old(self).histogram(),
                self.hits() == old(self).hits(),
                self.hand_type() == old(self).hand_type(),
                weights@ == all.take(i as int),
                total == weights_total(all.take(i as int)),
            decreases records.len() - i,
        {
            proof {
                assert(all.take(i as int + 1).drop_last() =~= all.take(i as int));
                assert(all.take(i as int + 1) =~= all.take(i as int).push(records[i as int].hits));
                lemma_weights_total_prefix(all, i as int + 1);
            }
            match total.checked_add(records[i].hits) {
                Some(t) => {
                    total = t;
                },
                None => {
                    return None;
                },
            }
            weights.push(records[i].hits);
            i += 1;
        }
        assert(all.take(i as int) =~= all);
        match sample_weighted(&mut self.rng, &weights) {
            Some(at) => {
                proof {
                    lemma_weights_total_member(weights@, at as int);
                }
                Some(records[at].score)
            },
            None => None,
        }
    }
}

proof fn lemma_records_hits_prefix(records: Seq<DistrRecord>, n: int)
    requires
        0 <= n <= records.len(),
    ensures
        records_hits(records.take(n)) <= records_hits(records),
    decreases records.len() - n,
{
    if n < records.len() {
        lemma_records_hits_prefix(records, n + 1);
        assert(records.take(n + 1).drop_last() =~= records.take(n));
    } else {
        assert(records.take(n) =~= records);
    }
}

proof fn lemma_weights_total_member(weights: Seq<u64>, at: int)
    requires
        0 <= at < weights.len(),
    ensures
        weights_total(weights) >= weights[at],
    decreases weights.len(),
{
    if at < weights.len() - 1 {
        lemma_weights_total_member(weights.drop_last(), at);
    }
}

proof fn lemma_weights_total_prefix(weights: Seq<u64>, n: int)
    requires
        0 <= n <= weights.len(),
    ensures
        weights_total(weights.take(n)) <= weights_total(weights),
    decreases weights.len() - n,
{
    if n < weights.len() {
        lemma_weights_total_prefix(weights, n + 1);
        assert(weights.take(n + 1).drop_last() =~= weights.take(n));
    } else {
        assert(weights.take(n) =~= weights);
    }
}

} // verus!
