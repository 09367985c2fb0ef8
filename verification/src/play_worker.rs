use vstd::prelude::*;
use vstd::string::StrSliceExecFns;
use vstd::string::StringSliceAdditionalSpecFns;
use crate::dices::{ascending, is_rethrow, sorted_dice, valid_throw, Dices, Throw};
use crate::score_box::rules::{best_available_hand, spec_best_hand, Hand, LookupError};
use crate::utils::{
    base7_to_base10, clear_hand, digits_value, has_bit, is_cleared, lemma_fresh_mask, popcount,
};

verus! {

/// The dice that are kept after the throw with the code `thrown` at stage
/// `throw`, for a player who may still score the categories of the mask:
/// the error for which no open category can be named; else the hold of the
/// policy of the open category that promises most, or the error for which
/// that policy has none.
pub open spec fn hold_for_code(
    hands: Seq<Box<Hand>>,
    throw: Throw,
    available_hands: u16,
    thrown: u16,
) -> Result<Seq<u8>, LookupError> {
    match spec_best_hand(hands, throw, thrown, available_hands) {
        Err(e) => Err(e),
        Ok(best) => hands[best].spec_hold(throw, thrown),
    }
}

/// The dice that are kept after the throw `dice` at stage `throw`.
pub open spec fn hold_lookup(
    hands: Seq<Box<Hand>>,
    throw: Throw,
    available_hands: u16,
    dice: Seq<u8>,
) -> Result<Seq<u8>, LookupError> {
    hold_for_code(hands, throw, available_hands, digits_value(dice, 7) as u16)
}

/// There is a throw of five dice, at a stage with a hold decision, for
/// which the tables give no hold but the error `e`.
pub open spec fn lookup_fails(hands: Seq<Box<Hand>>, available_hands: u16, e: LookupError) -> bool {
    exists|stage: Throw, dice: Seq<u8>|
        stage != Throw::Third && valid_throw(dice) && #[trigger] hold_lookup(
            hands,
            stage,
            available_hands,
            dice,
        ) == Err::<Seq<u8>, LookupError>(e)
}

/// The tables give a hold for every throw of five dice at both stages.
pub open spec fn tables_complete(hands: Seq<Box<Hand>>, available_hands: u16) -> bool {
    forall|stage: Throw, dice: Seq<u8>|
        stage != Throw::Third && valid_throw(dice) ==> (#[trigger] hold_lookup(
            hands,
            stage,
            available_hands,
            dice,
        )) is Ok
}

/// There is a card on which some of the fifteen categories are open, and a
/// throw of five dice for it, for which the tables give no hold but the
/// error `e`.
pub open spec fn game_fails(hands: Seq<Box<Hand>>, e: LookupError) -> bool {
    exists|available_hands: u16|
        0 < available_hands <= 32767 && #[trigger] lookup_fails(hands, available_hands, e)
}

/// The tables give a hold for every throw of five dice at both stages,
/// whichever of the fifteen categories are open.
pub open spec fn games_complete(hands: Seq<Box<Hand>>) -> bool {
    forall|available_hands: u16|
        0 < available_hands <= 32767 ==> #[trigger] tables_complete(hands, available_hands)
}

/// The three throws of a turn in which, after each of the first two, the
/// hold of the open category that promises most was kept.
pub open spec fn is_guided_turn(
    hands: Seq<Box<Hand>>,
    available_hands: u16,
    throw1: Seq<u8>,
    throw2: Seq<u8>,
    throw3: Seq<u8>,
) -> bool {
    &&& valid_throw(throw1)
    &&& hold_lookup(hands, Throw::First, available_hands, throw1) is Ok
    &&& valid_throw(throw2)
    &&& is_rethrow(throw2, hold_lookup(hands, Throw::First, available_hands, throw1)->Ok_0)
    &&& hold_lookup(hands, Throw::Second, available_hands, throw2) is Ok
    &&& valid_throw(throw3)
    &&& is_rethrow(throw3, hold_lookup(hands, Throw::Second, available_hands, throw2)->Ok_0)
}

/// The throws of a turn that ends early with the error `e`: the tables
/// give that error for the first throw; or they give a hold for the first
/// throw, and that error for the second, which keeps that hold.
pub open spec fn is_failed_turn(
    hands: Seq<Box<Hand>>,
    available_hands: u16,
    throw1: Seq<u8>,
    throw2: Seq<u8>,
    e: LookupError,
) -> bool {
    let first = hold_lookup(hands, Throw::First, available_hands, throw1);
    &&& valid_throw(throw1)
    &&& first == Err::<Seq<u8>, LookupError>(e) || {
        &&& first is Ok
        &&& valid_throw(throw2)
        &&& is_rethrow(throw2, first->Ok_0)
        &&& hold_lookup(hands, Throw::Second, available_hands, throw2) == Err::<
            Seq<u8>,
            LookupError,
        >(e)
    }
}

/// A turn that the learned holds guide can end early with the error `e`.
pub open spec fn turn_fails(hands: Seq<Box<Hand>>, available_hands: u16, e: LookupError) -> bool {
    exists|throw1: Seq<u8>, throw2: Seq<u8>| #[trigger]
        is_failed_turn(hands, available_hands, throw1, throw2, e)
}

/// `dice` can be the last throw of a turn that the learned holds guided,
/// for a player who may still score the categories of the mask.
pub open spec fn is_thrown(hands: Seq<Box<Hand>>, available_hands: u16, dice: Seq<u8>) -> bool {
    exists|throw1: Seq<u8>, throw2: Seq<u8>| #[trigger]
        is_guided_turn(hands, available_hands, throw1, throw2, dice)
}

/// The dice to keep after the throw with the code `thrown` at stage
/// `throw`: the hold that the policy of the open category that promises
/// most has for the throw.
pub fn hold_after(throw: Throw, thrown: u16, available_hands: u16, hands: &Vec<Box<Hand>>) -> (hold:
    Result<Vec<u8>, LookupError>)
    requires
        forall|pos: u16| pos < 16 && has_bit(available_hands, pos) ==> pos < hands.len(),
    ensures
        match hold {
            Ok(h) => hold_for_code(hands@, throw, available_hands, thrown) == Ok::<
                Seq<u8>,
                LookupError,
            >(h@),
            Err(e) => hold_for_code(hands@, throw, available_hands, thrown) == Err::<
                Seq<u8>,
                LookupError,
            >(e),
        },
{
    match best_available_hand(throw, thrown, available_hands, hands) {
        Err(e) => Err(e),
        Ok(best) => hands[best].hold_after(throw, thrown),
    }
}

/// Throws the dice for a player who may still score the categories of the
/// mask: after each of the first two throws the open category that
/// promises most is looked up, and its learned hold is kept. Returns the
/// dice of the last throw. It fails only where the tables give no hold for
/// a throw that came, with the error that they give.
pub fn throw_hand(dices: &mut Dices, available_hands: u16, hands: &Vec<Box<Hand>>) -> (thrown:
    Result<Vec<u8>, LookupError>)
    requires
        forall|pos: u16| pos < 16 && has_bit(available_hands, pos) ==> pos < hands.len(),
    ensures
        thrown matches Ok(dice) ==> valid_throw(dice@) && is_thrown(hands@, available_hands, dice@),
        thrown matches Err(e) ==> {
            &&& e != LookupError::IllegalThrow
            &&& turn_fails(hands@, available_hands, e)
            &&& lookup_fails(hands@, available_hands, e)
        },
        tables_complete(hands@, available_hands) ==> thrown is Ok,
{
    let throw1 = dices.throw_and_hold(None);
    let t1_code = base7_to_base10(&throw1);
    let hold1 = match hold_after(Throw::First, t1_code, available_hands, hands) {
        Err(e) => {
            assert(hold_lookup(hands@, Throw::First, available_hands, throw1@) == Err::<
                Seq<u8>,
                LookupError,
            >(e));
            assert(is_failed_turn(hands@, available_hands, throw1@, throw1@, e));
            return Err(e);
        },
        Ok(h) => h,
    };
    let throw2 = dices.throw_and_hold(Some(hold1));
    let t2_code = base7_to_base10(&throw2);
    let hold2 = match hold_after(Throw::Second, t2_code, available_hands, hands) {
        Err(e) => {
            assert(hold_lookup(hands@, Throw::Second, available_hands, throw2@) == Err::<
                Seq<u8>,
                LookupError,
            >(e));
            assert(is_failed_turn(hands@, available_hands, throw1@, throw2@, e));
            return Err(e);
        },
        Ok(h) => h,
    };
    let throw3 = dices.throw_and_hold(Some(hold2));
    proof {
        let (t1, t2) = (throw1@, throw2@);
        assert(is_guided_turn(hands@, available_hands, t1, t2, throw3@));
    }
    Ok(throw3)
}

/// The dice of `hold` can be picked out of `dices` from left to right.
pub open spec fn is_subsequence(hold: Seq<u8>, dices: Seq<u8>) -> bool
    decreases dices.len(),
{
    if hold.len() == 0 {
        true
    } else if dices.len() == 0 {
        false
    } else if hold[0] == dices[0] {
        is_subsequence(hold.drop_first(), dices.drop_first())
    } else {
        is_subsequence(hold, dices.drop_first())
    }
}

/// Whether the dice of `hold` can be picked out of `dices` from left to
/// right.
pub fn check_hold(dices: &Vec<u8>, hold: &Vec<u8>) -> (ok: bool)
    ensures
        ok == is_subsequence(hold@, dices@),
{
    if hold.len() == 0 {
        return true;
    }
    let mut next: usize = 0;
    let mut i: usize = 0;
    assert(hold@.subrange(0, hold@.len() as int) =~= hold@);
    assert(dices@.subrange(0, dices@.len() as int) =~= dices@);
    while i < dices.len()
        invariant
            i <= dices.len(),
            next < hold.len(),
            is_subsequence(hold@, dices@) == is_subsequence(
                hold@.subrange(next as int, hold@.len() as int),
                dices@.subrange(i as int, dices@.len() as int),
            ),
        decreases dices.len() - i,
    {
        let ghost h_rest = hold@.subrange(next as int, hold@.len() as int);
        let ghost d_rest = dices@.subrange(i as int, dices@.len() as int);
        proof {
            assert(d_rest.drop_first() =~= dices@.subrange(i as int + 1, dices@.len() as int));
            assert(h_rest.drop_first() =~= hold@.subrange(next as int + 1, hold@.len() as int));
            assert(h_rest[0] == hold@[next as int]);
            assert(d_rest[0] == dices@[i as int]);
        }
        if dices[i] == hold[next] {
            next += 1;
            if next == hold.len() {
                assert(h_rest.drop_first().len() == 0);
                assert(is_subsequence(h_rest.drop_first(), d_rest.drop_first()));
                assert(is_subsequence(h_rest, d_rest));
                return true;
            }
        }
        i += 1;
    }
    false
}

/// Why a line of dice was not accepted.
#[derive(Clone, Copy, Debug, PartialEq, Eq)]
pub enum DiceInputError {
    /// The line has fewer than `min` or more than `max` bytes.
    WrongCount { min: usize, max: usize },
    /// The line holds a character that is no face of a die.
    IllegalChar(char),
    /// The dice of the line cannot be picked out of the dice on the table.
    NotPartOfDice,
}

/// Whether a character names the face of a die.
pub open spec fn is_face_char(c: char) -> bool {
    '1' <= c <= '6'
}

/// The face that a character names.
pub open spec fn face_of(c: char) -> u8 {
    (c as u8 - 48) as u8
}

/// The faces that the characters name.
pub open spec fn faces_of(chars: Seq<char>) -> Seq<u8> {
    Seq::new(chars.len(), |i: int| face_of(chars[i]))
}

/// The place of the first character from `from` on that names no face, or
/// the number of characters where there is none.
pub open spec fn first_illegal(chars: Seq<char>, from: int) -> int
    decreases chars.len() - from,
{
    if from < 0 || from >= chars.len() {
        chars.len() as int
    } else if !is_face_char(chars[from]) {
        from
    } else {
        first_illegal(chars, from + 1)
    }
}

/// The fewest and the most bytes that a line of dice may have: any hold of
/// the dice on the table has none to five; a throw has as many as are not
/// held.
pub open spec fn input_bounds(dices: Option<Seq<u8>>, hold: Option<Seq<u8>>) -> (int, int) {
    if dices is Some {
        (0, 5)
    } else if hold is Some {
        (5 - hold->Some_0.len(), 5 - hold->Some_0.len())
    } else {
        (5, 5)
    }
}

/// What a line of dice is read as.
pub open spec fn input_accepted(
    input: &str,
    dices: Option<Seq<u8>>,
    hold: Option<Seq<u8>>,
    result: Result<Vec<u8>, DiceInputError>,
) -> bool {
    let (min, max) = input_bounds(dices, hold);
    let n = input.spec_bytes().len() as usize;
    if n < min || n > max {
        result == Err::<Vec<u8>, DiceInputError>(
            DiceInputError::WrongCount { min: min as usize, max: max as usize },
        )
    } else if first_illegal(input@, 0) < input@.len() {
        result == Err::<Vec<u8>, DiceInputError>(
            DiceInputError::IllegalChar(input@[first_illegal(input@, 0)]),
        )
    } else if dices is Some && !is_subsequence(faces_of(input@), dices->Some_0) {
        result == Err::<Vec<u8>, DiceInputError>(DiceInputError::NotPartOfDice)
    } else {
        let held = match hold {
            Some(h) => h,
            None => Seq::empty(),
        };
        &&& result is Ok
        &&& ascending(result->Ok_0@)
        &&& result->Ok_0@.to_multiset() == (faces_of(input@) + held).to_multiset()
    }
}

/// Reads a line of dice, written without separators. With `dices`, the
/// line names a hold of those dice; else it names the dice that were
/// thrown beside the held dice `hold`, which are added to them. The dice
/// are handed back in ascending order.
#[verifier::loop_isolation(false)]
pub fn get_dices_input(input: &str, dices: Option<&Vec<u8>>, hold: Option<&Vec<u8>>) -> (result:
    Result<Vec<u8>, DiceInputError>)
    requires
        dices is None && hold is Some ==> hold->Some_0@.len() <= 5,
    ensures
        input_accepted(
            input,
            match dices {
                Some(d) => Some(d@),
                None => None,
            },
            match hold {
                Some(h) => Some(h@),
                None => None,
            },
            result,
        ),
{
    let (min_dices, max_dices): (usize, usize) = match dices {
        Some(_) => (0, 5),
        None => match hold {
            Some(h) => (5 - h.len(), 5 - h.len()),
            None => (5, 5),
        },
    };
    if input.len() < min_dices || input.len() > max_dices {
        return Err(DiceInputError::WrongCount { min: min_dices, max: max_dices });
    }
    let mut res: Vec<u8> = Vec::new();
    let n = input.unicode_len();
    let mut i: usize = 0;
    let ghost spec_dices: Option<Seq<u8>> = match dices {
        Some(d) => Some(d@),
        None => None,
    };
    let ghost spec_hold: Option<Seq<u8>> = match hold {
        Some(h) => Some(h@),
        None => None,
    };
    while i < n
        invariant
            i <= n,
            n == input@.len(),
            input_bounds(spec_dices, spec_hold).0 <= input.spec_bytes().len() as usize
                <= input_bounds(spec_dices, spec_hold).1,
            res@ == faces_of(input@).take(i as int),
            first_illegal(input@, 0) == first_illegal(input@, i as int),
        decreases n - i,
    {
        let c = input.get_char(i);
        if '1' <= c && c <= '6' {
            res.push((c as u8) - 48);
            assert(res@ =~= faces_of(input@).take(i as int + 1));
        } else {
            assert(!is_face_char(input@[i as int]));
            return Err(DiceInputError::IllegalChar(c));
        }
        i += 1;
    }
    assert(res@ =~= faces_of(input@));
    match dices {
        Some(d) => {
            if !check_hold(d, &res) {
                return Err(DiceInputError::NotPartOfDice);
            }
        },
        None => {},
    }
    let ghost held: Seq<u8> = match hold {
        Some(h) => h@,
        None => Seq::empty(),
    };
    match hold {
        Some(h) => {
            let mut j: usize = 0;
            while j < h.len()
                invariant
                    j <= h.len(),
                    res@ == faces_of(input@) + h@.take(j as int),
                decreases h.len() - j,
            {
                res.push(h[j]);
                assert(res@ =~= faces_of(input@) + h@.take(j as int + 1));
                j += 1;
            }
            assert(h@.take(j as int) =~= h@);
        },
        None => {
            assert(res@ =~= faces_of(input@) + held);
        },
    }
    Ok(sorted_dice(&res))
}

/// The number below 256 that decimal digits spell, with or without a plus
/// sign before them; none where the characters are not of that form.
pub open spec fn spec_parse_u8(chars: Seq<char>) -> Option<u8> {
    if chars.len() > 0 && chars[0] == '+' {
        parse_digits(chars.drop_first())
    } else {
        parse_digits(chars)
    }
}

/// The number below 256 that decimal digits spell; none where there are no
/// characters, where one of them is no digit, or where the number is
/// larger.
pub open spec fn parse_digits(digits: Seq<char>) -> Option<u8> {
    if digits.len() == 0 || exists|i: int| 0 <= i < digits.len() && !is_digit(#[trigger] digits[i]) {
        None
    } else if decimal_value(digits) > 255 {
        None
    } else {
        Some(decimal_value(digits) as u8)
    }
}

/// Whether a character is a decimal digit.
pub open spec fn is_digit(c: char) -> bool {
    '0' <= c <= '9'
}

/// The number that decimal digits spell.
pub open spec fn decimal_value(digits: Seq<char>) -> nat
    decreases digits.len(),
{
    if digits.len() == 0 {
        0
    } else {
        decimal_value(digits.drop_last()) * 10 + (digits.last() as u8 - 48) as nat
    }
}

proof fn lemma_decimal_grows(digits: Seq<char>, n: int)
    requires
        0 <= n <= digits.len(),
        forall|i: int| 0 <= i < digits.len() ==> is_digit(#[trigger] digits[i]),
    ensures
        decimal_value(digits.take(n)) <= decimal_value(digits),
    decreases digits.len() - n,
{
    if n < digits.len() {
        lemma_decimal_grows(digits, n + 1);
        assert(digits.take(n + 1).drop_last() =~= digits.take(n));
    } else {
        assert(digits.take(n) =~= digits);
    }
}

/// Reads a number below 256.
#[verifier::loop_isolation(false)]
pub fn parse_u8(input: &str) -> (value: Option<u8>)
    ensures
        value == spec_parse_u8(input@),
{
    let n = input.unicode_len();
    let start: usize = if n > 0 && input.get_char(0) == '+' {
        1
    } else {
        0
    };
    let ghost digits = if start == 1 {
        input@.drop_first()
    } else {
        input@
    };
    proof {
        if start == 1 {
            assert(input@.drop_first() =~= input@.subrange(1, n as int));
        } else {
            assert(input@ =~= input@.subrange(0, n as int));
        }
    }
    if start == n {
        return None;
    }
    let mut i: usize = start;
    while i < n
        invariant
            start <= i <= n,
            start < n,
            n == input@.len(),
            digits == input@.subrange(start as int, n as int),
            digits == if input@.len() > 0 && input@[0] == '+' {
                input@.drop_first()
            } else {
                input@
            },
            forall|k: int| 0 <= k < i - start ==> is_digit(#[trigger] digits[k]),
        decreases n - i,
    {
        let c = input.get_char(i);
        if !('0' <= c && c <= '9') {
            assert(digits[i - start] == c);
            assert(!is_digit(digits[i - start]));
            return None;
        }
        i += 1;
    }
    let mut value: u32 = 0;
    i = start;
    assert(digits.take(0) =~= Seq::<char>::empty());
    while i < n
        invariant
            start <= i <= n,
            start < n,
            n == input@.len(),
            digits == input@.subrange(start as int, n as int),
            digits == if input@.len() > 0 && input@[0] == '+' {
                input@.drop_first()
            } else {
                input@
            },
            forall|k: int| 0 <= k < digits.len() ==> is_digit(#[trigger] digits[k]),
            value == decimal_value(digits.take(i - start)),
            value <= 255,
        decreases n - i,
    {
        let c = input.get_char(i);
        proof {
            assert(digits[i - start] == c);
            assert(is_digit(digits[i - start]));
            assert(digits.take(i - start + 1).drop_last() =~= digits.take(i - start));
            assert(digits.take(i - start + 1).last() == c);
            lemma_decimal_grows(digits, i - start + 1);
        }
        value = value * 10 + ((c as u8) - 48) as u32;
        if value > 255 {
            assert(!(exists|k: int| 0 <= k < digits.len() && !is_digit(#[trigger] digits[k])));
            return None;
        }
        i += 1;
    }
    assert(digits.take(i - start) =~= digits);
    assert(!(exists|k: int| 0 <= k < digits.len() && !is_digit(#[trigger] digits[k])));
    Some(value as u8)
}

/// Reads a player's choice of a category: a number that is among the
/// categories on offer, which count from one. Returns the category's place
/// on the score card, which counts from zero; none where the line is no
/// such number.
pub fn get_hand_choice(input: &str, available_hands: &Vec<u8>) -> (choice: Option<u8>)
    requires
        forall|i: int| 0 <= i < available_hands@.len() ==> #[trigger] available_hands@[i] >= 1,
    ensures
        choice == match spec_parse_u8(input@) {
            Some(d) => if available_hands@.contains(d) {
                Some((d - 1) as u8)
            } else {
                None
            },
            None => None,
        },
{
    match parse_u8(input) {
        None => None,
        Some(d) => {
            let mut i: usize = 0;
            while i < available_hands.len()
                invariant
                    i <= available_hands.len(),
                    spec_parse_u8(input@) == Some(d),
                    forall|k: int| 0 <= k < i ==> available_hands@[k] != d,
                    forall|k: int|
                        0 <= k < available_hands@.len() ==> #[trigger] available_hands@[k] >= 1,
                decreases available_hands.len() - i,
            {
                if available_hands[i] == d {
                    assert(available_hands@[i as int] == d);
                    return Some(d - 1);
                }
                i += 1;
            }
            None
        },
    }
}

/// How a score is shown on the score card.
#[derive(Clone, Copy, Debug, PartialEq, Eq, Structural)]
pub enum ScoreStyle {
    /// The category is not scored yet.
    Empty,
    /// An ordinary score.
    Plain,
    /// A score of a face-count category that is below three of its face.
    Low,
    /// The score that was entered last.
    Latest,
}

/// The style of the score at place `pos` of the score card.
pub open spec fn style_of(score: Option<u16>, pos: u8, is_latest: bool) -> ScoreStyle {
    if is_latest {
        ScoreStyle::Latest
    } else {
        match score {
            None => ScoreStyle::Empty,
            Some(s) => if pos < 6 && s < (pos + 1) * 3 {
                ScoreStyle::Low
            } else {
                ScoreStyle::Plain
            },
        }
    }
}

/// The style in which the score at place `pos` is shown; the score is
/// added to the running total.
pub fn format_score_string(score: Option<u16>, pos: u8, is_latest: bool, total: &mut u16) -> (style:
    ScoreStyle)
    requires
        score matches Some(s) ==> *old(total) + s <= u16::MAX,
    ensures
        style == style_of(score, pos, is_latest),
        *final(total) == *old(total) + match score {
            Some(s) => s as int,
            None => 0,
        },
{
    let style = match score {
        Some(s) => {
            *total = *total + s;
            if pos < 6 && s < (pos as u16 + 1) * 3 {
                ScoreStyle::Low
            } else {
                ScoreStyle::Plain
            }
        },
        None => ScoreStyle::Empty,
    };
    if is_latest {
        ScoreStyle::Latest
    } else {
        style
    }
}

/// The sums of a score card.
#[derive(Clone, Copy, Debug, PartialEq, Eq, Structural)]
pub struct CardTotals {
    /// The sum of the six face-count categories.
    pub upper: u16,
    /// The bonus that the upper sum earns.
    pub bonus: u16,
    /// The sum of all categories and the bonus.
    pub total: u16,
}

/// The sum of the scores that the first `n` places hold.
pub open spec fn card_sum(scores: Seq<Option<u16>>, n: nat) -> nat
    decreases n,
{
    if n == 0 || n > scores.len() {
        0
    } else {
        card_sum(scores, (n - 1) as nat) + match scores[n - 1] {
            Some(s) => s as nat,
            None => 0,
        }
    }
}

/// The sums of a score card: the bonus is 50 where the six face-count
/// categories reach 63 and nothing where they do not.
pub open spec fn spec_card_totals(scores: Seq<Option<u16>>) -> CardTotals {
    let upper = card_sum(scores, 6);
    let bonus: nat = if upper >= 63 {
        50
    } else {
        0
    };
    CardTotals {
        upper: upper as u16,
        bonus: bonus as u16,
        total: (card_sum(scores, 15) + bonus) as u16,
    }
}

/// A score card whose scores are those of categories: one place for each
/// category, no score above what a category can pay.
pub open spec fn valid_card(scores: Seq<Option<u16>>) -> bool {
    &&& scores.len() == 15
    &&& forall|i: int| 0 <= i < 15 ==> (#[trigger] scores[i]) is Some ==> scores[i]->Some_0 <= 50
}

proof fn lemma_card_sum_bound(scores: Seq<Option<u16>>, n: nat)
    requires
        valid_card(scores),
        n <= 15,
    ensures
        card_sum(scores, n) <= 50 * n,
    decreases n,
{
    if n > 0 {
        lemma_card_sum_bound(scores, (n - 1) as nat);
    }
}

/// The sums of a score card.
pub fn card_totals(scores: &Vec<Option<u16>>) -> (totals: CardTotals)
    requires
        valid_card(scores@),
    ensures
        totals == spec_card_totals(scores@),
        totals.bonus == if totals.upper >= 63 {
            50int
        } else {
            0int
        },
        totals.total == card_sum(scores@, 15) + totals.bonus,
{
    let mut upper: u16 = 0;
    let mut sum: u16 = 0;
    let mut i: usize = 0;
    while i < 15
        invariant
            i <= 15,
            valid_card(scores@),
            sum == card_sum(scores@, i as nat),
            upper == card_sum(
                scores@,
                if i <= 6 {
                    i as nat
                } else {
                    6
                },
            ),
            sum <= 50 * i,
        decreases 15 - i,
    {
        let s = match scores[i] {
            Some(s) => s,
            None => 0,
        };
        sum = sum + s;
        if i < 6 {
            upper = upper + s;
        }
        i += 1;
    }
    proof {
        lemma_card_sum_bound(scores@, 6);
    }
    let bonus: u16 = if upper >= 63 {
        50
    } else {
        0
    };
    CardTotals { upper, bonus, total: sum + bonus }
}

/// One player's score card in a game: the categories that are still open
/// and the scores of those that are not.
pub struct Player {
    available_hands: u16,
    scores: Vec<Option<u16>>,
}

impl Player {
    /// The availability mask.
    pub closed spec fn mask(&self) -> u16 {
        self.available_hands
    }

    /// The scores by category; none where a category is open.
    pub closed spec fn card(&self) -> Seq<Option<u16>> {
        self.scores@
    }

    /// The card has a place for each category, and the mask holds the
    /// categories that have no score yet, and nothing else.
    pub open spec fn wf(&self) -> bool {
        &&& self.card().len() == 15
        &&& self.mask() <= 32767
        &&& forall|pos: u16|
            pos < 15 ==> (#[trigger] has_bit(self.mask(), pos) <==> self.card()[pos as int] is None)
    }

    /// A fresh score card: every category is open.
    pub fn new() -> (player: Player)
        ensures
            player.wf(),
            player.mask() == 32767,
            forall|i: int| 0 <= i < 15 ==> #[trigger] player.card()[i] is None,
    {
        proof {
            lemma_fresh_mask();
        }
        let mut scores: Vec<Option<u16>> = Vec::new();
        let mut i: usize = 0;
        while i < 15
            invariant
                i <= 15,
                scores@.len() == i,
                forall|k: int| 0 <= k < i ==> #[trigger] scores@[k] is None,
            decreases 15 - i,
        {
            scores.push(None);
            i += 1;
        }
        Player { available_hands: 32767, scores }
    }

    pub fn available_hands(&self) -> (mask: u16)
        ensures
            mask == self.mask(),
    {
        self.available_hands
    }

    pub fn scores(&self) -> (scores: &Vec<Option<u16>>)
        ensures
            scores@ == self.card(),
    {
        &self.scores
    }

    /// Whether every category is scored.
    pub fn done(&self) -> (done: bool)
        ensures
            done == (self.mask() == 0),
    {
        self.available_hands == 0
    }

    /// Enters the score of an open category and closes the category: the
    /// mask loses that one bit.
    pub fn record(&mut self, hand: u8, score: u16)
        requires
            old(self).wf(),
            hand < 15,
            has_bit(old(self).mask(), hand as u16),
        ensures
            final(self).wf(),
            final(self).card() == old(self).card().update(hand as int, Some(score)),
            is_cleared(old(self).mask(), final(self).mask(), hand as u16),
            popcount(final(self).mask()) + 1 == popcount(old(self).mask()),
    {
        self.scores[hand as usize] = Some(score);
        self.available_hands = clear_hand(self.available_hands, hand);
        proof {
            assert forall|pos: u16| pos < 15 implies (#[trigger] has_bit(self.mask(), pos)
                <==> self.card()[pos as int] is None) by {
                assert(has_bit(old(self).mask(), pos) <==> old(self).card()[pos as int] is None);
            }
        }
    }
}

} // verus!
