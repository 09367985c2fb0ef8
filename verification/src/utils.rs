use vstd::prelude::*;
use vstd::string::StrSliceExecFns;
use crate::table::TableError;

verus! {

/// `base` to the power `exp`.
pub open spec fn base_pow(base: nat, exp: nat) -> nat
    decreases exp,
{
    if exp == 0 {
        1
    } else {
        base * base_pow(base, (exp - 1) as nat)
    }
}

/// The number that the digits spell in base `base`, most significant digit
/// first.
pub open spec fn digits_value(digits: Seq<u8>, base: nat) -> nat
    decreases digits.len(),
{
    if digits.len() == 0 {
        0
    } else {
        digits_value(digits.drop_last(), base) * base + digits.last() as nat
    }
}

/// The digits of `n` in base `base`, most significant first and without a
/// leading zero; no digits at all for zero.
pub open spec fn digits_of(n: nat, base: nat) -> Seq<u8>
    decreases n,
    via digits_of_terminates
{
    if n == 0 || base < 2 || base > 256 {
        Seq::empty()
    } else {
        digits_of(n / base, base).push((n % base) as u8)
    }
}

#[via_fn]
proof fn digits_of_terminates(n: nat, base: nat) {
    if n != 0 && base >= 2 {
        assert(n / base < n) by (nonlinear_arith)
            requires
                n > 0,
                base >= 2,
        ;
    }
}

/// Every digit is below `base`.
pub open spec fn digits_below(digits: Seq<u8>, base: nat) -> bool {
    forall|i: int| 0 <= i < digits.len() ==> (#[trigger] digits[i] as nat) < base
}

/// A power of a positive base is positive.
pub proof fn lemma_base_pow_positive(base: nat, exp: nat)
    requires
        base >= 1,
    ensures
        base_pow(base, exp) >= 1,
    decreases exp,
{
    if exp > 0 {
        lemma_base_pow_positive(base, (exp - 1) as nat);
        let p = base_pow(base, (exp - 1) as nat);
        assert(base * p >= 1) by (nonlinear_arith)
            requires
                base >= 1,
                p >= 1,
        ;
    }
}

/// A power of a positive base does not shrink as the exponent grows.
pub proof fn lemma_base_pow_monotone(base: nat, low: nat, high: nat)
    requires
        base >= 1,
        low <= high,
    ensures
        base_pow(base, low) <= base_pow(base, high),
    decreases high,
{
    if low < high {
        lemma_base_pow_monotone(base, low, (high - 1) as nat);
        lemma_base_pow_positive(base, (high - 1) as nat);
        let p = base_pow(base, (high - 1) as nat);
        assert(base * p >= p) by (nonlinear_arith)
            requires
                base >= 1,
                p >= 1,
        ;
    }
}

/// Digits below the base spell a number below the base's power of their
/// count.
pub proof fn lemma_digits_value_bound(digits: Seq<u8>, base: nat)
    requires
        base >= 2,
        digits_below(digits, base),
    ensures
        digits_value(digits, base) < base_pow(base, digits.len()),
    decreases digits.len(),
{
    if digits.len() > 0 {
        let front = digits.drop_last();
        lemma_digits_value_bound(front, base);
        let v = digits_value(front, base);
        let p = base_pow(base, front.len());
        let d = digits.last() as nat;
        assert(v * base + d < base * p) by (nonlinear_arith)
            requires
                v < p,
                d < base,
        ;
    }
}

/// Spelling a number and reading the digits back gives the number.
pub proof fn lemma_value_of_digits(n: nat, base: nat)
    requires
        2 <= base <= 256,
    ensures
        digits_value(digits_of(n, base), base) == n,
        digits_below(digits_of(n, base), base),
        n > 0 ==> digits_of(n, base).len() > 0 && digits_of(n, base)[0] != 0,
    decreases n,
{
    if n > 0 {
        let q = n / base;
        let r = n % base;
        assert(q < n && r < base && q * base + r == n && (q == 0 ==> r != 0)) by (nonlinear_arith)
            requires
                base >= 2,
                n > 0,
                q == n / base,
                r == n % base,
        ;
        lemma_value_of_digits(q, base);
        let front = digits_of(q, base);
        let all = front.push(r as u8);
        assert(all.drop_last() =~= front);
        assert(digits_of(n, base) == all);
        if q > 0 {
            assert(all[0] == front[0]);
        }
    }
}

/// Reading digits and spelling the number again gives the digits, where
/// they are below the base and do not start with a zero.
pub proof fn lemma_digits_of_value(digits: Seq<u8>, base: nat)
    requires
        2 <= base <= 256,
        digits_below(digits, base),
        digits.len() > 0 ==> digits[0] != 0,
    ensures
        digits_of(digits_value(digits, base), base) == digits,
    decreases digits.len(),
{
    if digits.len() > 0 {
        let front = digits.drop_last();
        let d = digits.last() as nat;
        let v = digits_value(front, base);
        lemma_digits_of_value(front, base);
        let n = v * base + d;
        assert(n / base == v && n % base == d) by (nonlinear_arith)
            requires
                base >= 2,
                d < base,
                n == v * base + d,
        ;
        if front.len() == 0 {
            assert(v == 0);
            assert(digits.last() == digits[0]);
            assert(v * base == 0) by (nonlinear_arith)
                requires
                    v == 0,
            ;
            assert(n == d && d > 0);
            assert(digits_of(0, base) =~= Seq::<u8>::empty());
            assert(digits_of(n, base) =~= digits);
        } else {
            lemma_front_value_positive(front, base);
            assert(n > 0) by (nonlinear_arith)
                requires
                    v > 0,
                    base >= 2,
                    n == v * base + d,
            ;
            assert(digits_of(n, base) =~= digits);
        }
    } else {
        assert(digits_of(0, base) =~= digits);
    }
}

proof fn lemma_front_value_positive(digits: Seq<u8>, base: nat)
    requires
        base >= 2,
        digits.len() > 0,
        digits[0] != 0,
    ensures
        digits_value(digits, base) > 0,
    decreases digits.len(),
{
    let front = digits.drop_last();
    if front.len() > 0 {
        lemma_front_value_positive(front, base);
        let v = digits_value(front, base);
        assert(v * base > 0) by (nonlinear_arith)
            requires
                v > 0,
                base >= 2,
        ;
    }
}

fn spell(digits: &Vec<u8>, base: u32) -> (value: u32)
    requires
        2 <= base <= 256,
        digits_below(digits@, base as nat),
        base_pow(base as nat, digits.len() as nat) <= 0x1_0000_0000,
    ensures
        value == digits_value(digits@, base as nat),
        value < base_pow(base as nat, digits.len() as nat),
{
    let mut value: u32 = 0;
    let mut i: usize = 0;
    while i < digits.len()
        invariant
            i <= digits.len(),
            2 <= base <= 256,
            digits_below(digits@, base as nat),
            base_pow(base as nat, digits.len() as nat) <= 0x1_0000_0000,
            value == digits_value(digits@.take(i as int), base as nat),
            value < base_pow(base as nat, i as nat),
        decreases digits.len() - i,
    {
        let d = digits[i];
        proof {
            let next = digits@.take(i as int + 1);
            assert(next.drop_last() =~= digits@.take(i as int));
            assert(digits_below(next, base as nat));
            lemma_digits_value_bound(next, base as nat);
            lemma_base_pow_monotone(base as nat, (i + 1) as nat, digits.len() as nat);
        }
        value = value * base + d as u32;
        i += 1;
    }
    assert(digits@.take(i as int) =~= digits@);
    value
}

/// The code of up to five dice faces: the number they spell in base 7.
pub fn base7_to_base10(b7: &Vec<u8>) -> (code: u16)
    requires
        b7.len() <= 5,
        digits_below(b7@, 7),
    ensures
        code == digits_value(b7@, 7),
        code < 16807,
{
    proof {
        reveal_with_fuel(base_pow, 6);
        lemma_base_pow_monotone(7, b7.len() as nat, 5);
    }
    spell(b7, 7) as u16
}

/// The number that up to twenty ternary digits spell.
pub fn base3_to_base10(b3: &Vec<u8>) -> (value: u32)
    requires
        b3.len() <= 20,
        digits_below(b3@, 3),
    ensures
        value == digits_value(b3@, 3),
{
    proof {
        reveal_with_fuel(base_pow, 21);
        assert(base_pow(3, 20) == 3486784401);
        lemma_base_pow_monotone(3, b3.len() as nat, 20);
    }
    spell(b3, 3)
}

/// The faces that a dice code spells in base 7.
pub fn base10_to_base7(b10: u16) -> (digits: Vec<u8>)
    ensures
        digits@ == digits_of(b10 as nat, 7),
{
    let mut rest: u16 = b10;
    let mut digits: Vec<u8> = Vec::new();
    while rest > 0
        invariant
            digits_of(b10 as nat, 7) == digits_of(rest as nat, 7) + digits@,
        decreases rest,
    {
        let d = (rest % 7) as u8;
        assert(digits_of(rest as nat, 7) == digits_of((rest / 7) as nat, 7).push(d));
        assert(digits_of((rest / 7) as nat, 7).push(d) + digits@ =~= digits_of(
            (rest / 7) as nat,
            7,
        ) + (seq![d] + digits@));
        let ghost before = digits@;
        digits.insert(0, d);
        assert(digits@ =~= seq![d] + before);
        rest = rest / 7;
    }
    assert(digits_of(0, 7) =~= Seq::<u8>::empty());
    digits
}

/// A dice code read back gives the five faces that were coded.
pub proof fn dice_code_round_trip(dice: Seq<u8>)
    requires
        dice.len() == 5,
        forall|i: int| 0 <= i < dice.len() ==> 1 <= #[trigger] dice[i] <= 6,
    ensures
        digits_value(dice, 7) < 16807,
        digits_of(digits_value(dice, 7), 7) == dice,
{
    hold_code_round_trip(dice);
}

/// A hold code read back gives the faces that were coded, for every hold of
/// none to five dice; the empty hold has code 0.
pub proof fn hold_code_round_trip(hold: Seq<u8>)
    requires
        hold.len() <= 5,
        forall|i: int| 0 <= i < hold.len() ==> 1 <= #[trigger] hold[i] <= 6,
    ensures
        digits_value(hold, 7) < 16807,
        digits_of(digits_value(hold, 7), 7) == hold,
        hold.len() == 0 ==> digits_value(hold, 7) == 0,
{
    assert(digits_below(hold, 7));
    lemma_digits_value_bound(hold, 7);
    lemma_base_pow_monotone(7, hold.len(), 5);
    assert(base_pow(7, 5) == 16807) by {
        reveal_with_fuel(base_pow, 6);
    }
    lemma_digits_of_value(hold, 7);
}

/// Every code spells digits that read back as the code.
pub proof fn code_digits_round_trip(code: u16)
    ensures
        digits_value(digits_of(code as nat, 7), 7) == code,
        digits_below(digits_of(code as nat, 7), 7),
{
    lemma_value_of_digits(code as nat, 7);
}

/// Whether bit `pos` of the mask is set: category `pos` is not yet scored.
pub open spec fn has_bit(mask: u16, pos: u16) -> bool {
    (mask >> pos) & 1 == 1
}

/// The set bits of `mask` below position `below`, in ascending order, each
/// raised by `first`.
pub open spec fn members_below(mask: u16, below: u16, first: u8) -> Seq<u8>
    decreases below,
{
    if below == 0 || below > 16 {
        Seq::empty()
    } else {
        let rest = members_below(mask, (below - 1) as u16, first);
        if has_bit(mask, (below - 1) as u16) {
            rest.push((below - 1 + first) as u8)
        } else {
            rest
        }
    }
}

/// The categories that a mask holds, in ascending order, counted from one
/// where `one_based` and from zero where not.
pub open spec fn mask_members(mask: u16, one_based: bool) -> Seq<u8> {
    members_below(
        mask,
        16,
        if one_based {
            1
        } else {
            0
        },
    )
}

/// The number of set bits of a mask.
pub open spec fn popcount(mask: u16) -> nat {
    members_below(mask, 16, 0).len()
}

/// What `members_below` holds: exactly the set bits below `below`, each
/// once, in ascending order.
pub proof fn lemma_members_below(mask: u16, below: u16, first: u8)
    requires
        below <= 16,
        first <= 1,
    ensures
        members_below(mask, below, first).len() <= below,
        forall|i: int|
            0 <= i < members_below(mask, below, first).len() ==> {
                let m = #[trigger] members_below(mask, below, first)[i];
                &&& first <= m < below + first
                &&& has_bit(mask, (m - first) as u16)
            },
        forall|i: int, j: int|
            0 <= i < j < members_below(mask, below, first).len() ==> members_below(
                mask,
                below,
                first,
            )[i] < members_below(mask, below, first)[j],
        forall|pos: u16|
            pos < below && has_bit(mask, pos) ==> members_below(mask, below, first).contains(
                #[trigger] ((pos + first) as u8),
            ),
    decreases below,
{
    if below > 0 {
        let prev = (below - 1) as u16;
        lemma_members_below(mask, prev, first);
        let rest = members_below(mask, prev, first);
        let all = members_below(mask, below, first);
        assert forall|pos: u16| pos < below && has_bit(mask, pos) implies all.contains(
            #[trigger] ((pos + first) as u8),
        ) by {
            if pos < prev {
                let k = choose|k: int| 0 <= k < rest.len() && rest[k] == (pos + first) as u8;
                assert(all[k] == (pos + first) as u8);
            } else {
                assert(all[all.len() - 1] == (pos + first) as u8);
            }
        }
    }
}

/// The members of an availability mask.
pub fn base10_to_base2(b10: u16, one_based: bool) -> (members: Vec<u8>)
    ensures
        members@ == mask_members(b10, one_based),
        members@.len() == popcount(b10),
        members@.len() <= 16,
{
    let one: u8 = if one_based {
        1
    } else {
        0
    };
    let mut members: Vec<u8> = Vec::new();
    let mut pos: u16 = 0;
    while pos < 16
        invariant
            pos <= 16,
            one <= 1,
            members@ == members_below(b10, pos, one),
            members@.len() == members_below(b10, pos, 0).len(),
            members@.len() <= pos,
        decreases 16 - pos,
    {
        if (b10 >> pos) & 1 == 1 {
            members.push(pos as u8 + one);
        }
        pos += 1;
    }
    members
}

/// `rest` holds what `mask` holds but for the category `hand`.
pub open spec fn is_cleared(mask: u16, rest: u16, hand: u16) -> bool {
    forall|pos: u16| pos < 16 ==> (#[trigger] has_bit(rest, pos) <==> pos != hand && has_bit(mask, pos))
}

proof fn lemma_cleared_members(mask: u16, rest: u16, hand: u16, below: u16)
    requires
        hand < 16,
        below <= 16,
        has_bit(mask, hand),
        is_cleared(mask, rest, hand),
    ensures
        members_below(rest, below, 0).len() + if hand < below {
            1nat
        } else {
            0nat
        } == members_below(mask, below, 0).len(),
    decreases below,
{
    if below > 0 {
        lemma_cleared_members(mask, rest, hand, (below - 1) as u16);
        assert(has_bit(rest, (below - 1) as u16) <==> (below - 1) as u16 != hand && has_bit(
            mask,
            (below - 1) as u16,
        ));
    }
}

/// A mask that loses one category which it held has one set bit less.
pub proof fn lemma_popcount_cleared(mask: u16, rest: u16, hand: u16)
    requires
        hand < 16,
        has_bit(mask, hand),
        is_cleared(mask, rest, hand),
    ensures
        popcount(rest) + 1 == popcount(mask),
{
    lemma_cleared_members(mask, rest, hand, 16);
}

/// The mask of a fresh score card holds the fifteen categories.
pub proof fn lemma_fresh_mask()
    ensures
        popcount(32767) == 15,
        forall|pos: u16| pos < 16 ==> (#[trigger] has_bit(32767, pos) <==> pos < 15),
        forall|pos: u16| pos < 16 ==> !#[trigger] has_bit(0, pos),
        popcount(0) == 0,
{
    assert forall|pos: u16| pos < 16 implies (#[trigger] has_bit(32767, pos) <==> pos < 15) by {
        assert(((32767u16 >> pos) & 1 == 1) <==> pos < 15) by (bit_vector)
            requires
                pos < 16,
        ;
    }
    assert forall|pos: u16| pos < 16 implies !#[trigger] has_bit(0, pos) by {
        assert((0u16 >> pos) & 1 == 0) by (bit_vector)
            requires
                pos < 16,
        ;
    }
    lemma_popcount_by_bits(32767, 16);
    lemma_popcount_by_bits(32767, 15);
    assert(!has_bit(32767, 15));
    assert(bits_set_below(32767, 16) == bits_set_below(32767, 15));
    lemma_popcount_by_bits(0, 16);
}

/// The number of bits that are set below a position.
pub open spec fn bits_set_below(mask: u16, below: u16) -> nat
    decreases below,
{
    if below == 0 || below > 16 {
        0
    } else {
        bits_set_below(mask, (below - 1) as u16) + if has_bit(mask, (below - 1) as u16) {
            1nat
        } else {
            0nat
        }
    }
}

proof fn lemma_popcount_by_bits(mask: u16, below: u16)
    requires
        below <= 16,
    ensures
        members_below(mask, below, 0).len() == bits_set_below(mask, below),
        (forall|pos: u16| pos < below ==> has_bit(mask, pos)) ==> bits_set_below(mask, below)
            == below,
        (forall|pos: u16| pos < below ==> !has_bit(mask, pos)) ==> bits_set_below(mask, below)
            == 0,
        bits_set_below(mask, below) <= below,
    decreases below,
{
    if below > 0 {
        lemma_popcount_by_bits(mask, (below - 1) as u16);
    }
}

/// Takes a category out of an availability mask that holds it: the mask
/// loses that bit and no other.
pub fn clear_hand(mask: u16, hand: u8) -> (rest: u16)
    requires
        hand < 16,
        has_bit(mask, hand as u16),
    ensures
        is_cleared(mask, rest, hand as u16),
        popcount(rest) + 1 == popcount(mask),
        rest < mask,
{
    let h = hand as u16;
    assert((1u16 << h) <= mask && (1u16 << h) > 0) by (bit_vector)
        requires
            h < 16,
            (mask >> h) & 1 == 1,
    ;
    let rest = mask - (1u16 << h);
    proof {
        assert forall|pos: u16| pos < 16 implies (#[trigger] has_bit(rest, pos) <==> pos != h
            && has_bit(mask, pos)) by {
            assert((((mask - (1u16 << h)) as u16 >> pos) & 1 == 1) <==> (pos != h && (mask >> pos)
                & 1 == 1)) by (bit_vector)
                requires
                    h < 16,
                    pos < 16,
                    (mask >> h) & 1 == 1,
            ;
        }
        lemma_popcount_cleared(mask, rest, h);
    }
    rest
}

/// Over a game the availability mask loses one category with each score:
/// where the first mask is that of a fresh card and each further mask is
/// the one before it without the category that was scored, the mask after
/// `i` scores holds `15 - i` categories, and the mask after fifteen scores
/// holds none.
pub proof fn mask_counts_down_law(masks: Seq<u16>, hands: Seq<u16>)
    requires
        masks.len() == hands.len() + 1,
        masks[0] == 32767,
        forall|i: int|
            0 <= i < hands.len() ==> (#[trigger] hands[i]) < 16 && has_bit(masks[i], hands[i])
                && is_cleared(masks[i], masks[i + 1], hands[i]),
    ensures
        hands.len() <= 15,
        forall|i: int| 0 <= i < masks.len() ==> popcount(#[trigger] masks[i]) == 15 - i,
        forall|i: int| 0 <= i < hands.len() ==> popcount(masks[i + 1]) < popcount(#[trigger] masks[i]),
{
    lemma_fresh_mask();
    lemma_counts_down(masks, hands, hands.len() as int);
    if hands.len() > 15 {
        lemma_counts_down(masks, hands, 15);
        assert(popcount(masks[15]) == 0);
        lemma_popcount_by_bits(masks[15], 16);
        lemma_no_bits(masks[15], 16, hands[15]);
    }
    assert forall|i: int| 0 <= i < hands.len() implies popcount(masks[i + 1]) < popcount(
        #[trigger] masks[i],
    ) by {
        assert(popcount(masks[i + 1]) == 15 - (i + 1));
    }
}

proof fn lemma_no_bits(mask: u16, below: u16, pos: u16)
    requires
        below <= 16,
        pos < below,
        bits_set_below(mask, below) == 0,
    ensures
        !has_bit(mask, pos),
    decreases below,
{
    if pos < below - 1 {
        lemma_popcount_by_bits(mask, (below - 1) as u16);
        lemma_no_bits(mask, (below - 1) as u16, pos);
    }
}

proof fn lemma_counts_down(masks: Seq<u16>, hands: Seq<u16>, n: int)
    requires
        masks.len() == hands.len() + 1,
        0 <= n <= hands.len(),
        popcount(masks[0]) == 15,
        forall|i: int|
            0 <= i < hands.len() ==> (#[trigger] hands[i]) < 16 && has_bit(masks[i], hands[i])
                && is_cleared(masks[i], masks[i + 1], hands[i]),
    ensures
        forall|i: int| 0 <= i <= n ==> popcount(#[trigger] masks[i]) == 15 - i,
    decreases n,
{
    if n > 0 {
        lemma_counts_down(masks, hands, n - 1);
        assert(hands[n - 1] < 16);
        lemma_popcount_cleared(masks[n - 1], masks[n], hands[n - 1]);
    }
}

/// The divisors of `input` from 2 up to, but without, `input` itself, in
/// ascending order.
pub fn factor(input: u32) -> (divisors: Vec<u32>)
    ensures
        forall|i: int, j: int| 0 <= i < j < divisors.len() ==> divisors[i] < divisors[j],
        forall|d: u32|
            divisors@.contains(d) <==> 2 <= d < input && input as int % d as int == 0,
{
    let mut divisors: Vec<u32> = Vec::new();
    let mut count: u32 = 2;
    while count < input
        invariant
            2 <= count,
            count <= input || input < 2,
            forall|i: int, j: int| 0 <= i < j < divisors.len() ==> divisors[i] < divisors[j],
            forall|i: int| 0 <= i < divisors.len() ==> #[trigger] divisors[i] < count,
            forall|d: u32|
                divisors@.contains(d) <==> 2 <= d < count && d < input && input as int % d as int
                    == 0,
        decreases input - count,
    {
        if input % count == 0 {
            let ghost before = divisors@;
            divisors.push(count);
            assert forall|d: u32| divisors@.contains(d) <==> 2 <= d < count + 1 && d < input
                && input as int % d as int == 0 by {
                if divisors@.contains(d) {
                    let k = choose|k: int| 0 <= k < divisors@.len() && divisors@[k] == d;
                    if k < before.len() {
                        assert(before[k] == d);
                        assert(before.contains(d));
                    }
                }
                if 2 <= d < count + 1 && d < input && input as int % d as int == 0 {
                    if d < count {
                        assert(before.contains(d));
                        let k = choose|k: int| 0 <= k < before.len() && before[k] == d;
                        assert(divisors@[k] == d);
                    } else {
                        assert(divisors@[before.len() as int] == d);
                    }
                }
            }
        }
        count += 1;
    }
    divisors
}

/// The upper-case form of an ASCII lower-case letter; every other character
/// as it is.
pub open spec fn upper_of(c: char) -> char {
    if 'a' <= c <= 'z' {
        ((c as u32) - 32) as char
    } else {
        c
    }
}

/// Whether the character at `at` starts a word: it is the first character,
/// or it follows a blank that did not itself start a word.
pub open spec fn starts_word(text: Seq<char>, at: int) -> bool
    decreases at,
{
    if at <= 0 {
        true
    } else {
        text[at - 1] == ' ' && !starts_word(text, at - 1)
    }
}

/// The text with the first character of every word in upper case.
pub open spec fn initcap_of(text: Seq<char>) -> Seq<char> {
    Seq::new(
        text.len(),
        |i: int|
            if starts_word(text, i) {
                upper_of(text[i])
            } else {
                text[i]
            },
    )
}

/// `char::to_ascii_uppercase` of std: an ASCII lower-case letter becomes
/// its upper-case form, every other character is returned unchanged.
#[verifier::external_body]
fn to_upper(c: char) -> (upper: char)
    ensures
        upper == upper_of(c),
{
    c.to_ascii_uppercase()
}

/// `String::push` of std: the character is appended to the string.
#[verifier::external_body]
fn push_char(text: &mut String, c: char)
    ensures
        final(text)@ == old(text)@.push(c),
{
    text.push(c)
}

/// Capitalises the first letter of every word.
pub fn initcap(data: String) -> (result: String)
    ensures
        result@ == initcap_of(data@),
{
    let mut result = String::new();
    let mut first = true;
    let text = data.as_str();
    let len = text.unicode_len();
    let mut i: usize = 0;
    while i < len
        invariant
            i <= len,
            len == text@.len(),
            text@ == data@,
            first == starts_word(text@, i as int),
            result@ == initcap_of(text@).take(i as int),
        decreases len - i,
    {
        let value = text.get_char(i);
        if first {
            push_char(&mut result, to_upper(value));
            first = false;
        } else {
            push_char(&mut result, value);
            if value == ' ' {
                first = true;
            }
        }
        assert(result@ =~= initcap_of(text@).take(i as int + 1));
        i += 1;
    }
    assert(result@ =~= initcap_of(data@));
    result
}

/// The `width` low bytes of `value`, least significant first.
pub open spec fn le_bytes(value: nat, width: nat) -> Seq<u8>
    decreases width,
{
    if width == 0 {
        Seq::empty()
    } else {
        seq![(value % 256) as u8] + le_bytes(value / 256, (width - 1) as nat)
    }
}

/// The number that the bytes hold, least significant byte first.
pub open spec fn le_value(bytes: Seq<u8>) -> nat
    decreases bytes.len(),
{
    if bytes.len() == 0 {
        0
    } else {
        bytes[0] as nat + 256 * le_value(bytes.drop_first())
    }
}

/// A number is written in as many bytes as were asked for.
pub proof fn lemma_le_bytes_len(value: nat, width: nat)
    ensures
        le_bytes(value, width).len() == width,
    decreases width,
{
    if width > 0 {
        lemma_le_bytes_len(value / 256, (width - 1) as nat);
    }
}

/// A number that fits in `width` bytes is read back from them.
pub proof fn lemma_le_round_trip(value: nat, width: nat)
    requires
        value < base_pow(256, width),
    ensures
        le_value(le_bytes(value, width)) == value,
        le_bytes(value, width).len() == width,
    decreases width,
{
    lemma_le_bytes_len(value, width);
    if width > 0 {
        let rest = le_bytes(value / 256, (width - 1) as nat);
        let all = le_bytes(value, width);
        assert(all.drop_first() =~= rest);
        lemma_le_round_trip(value / 256, (width - 1) as nat);
    }
}

/// Bytes hold a number below the power of 256 of their count, and that
/// number written out again gives the bytes.
pub proof fn lemma_le_value_bytes(bytes: Seq<u8>)
    ensures
        le_value(bytes) < base_pow(256, bytes.len()),
        le_bytes(le_value(bytes), bytes.len()) == bytes,
    decreases bytes.len(),
{
    if bytes.len() > 0 {
        lemma_le_value_bytes(bytes.drop_first());
        assert(le_bytes(le_value(bytes), bytes.len()) =~= bytes);
    } else {
        assert(le_bytes(le_value(bytes), bytes.len()) =~= bytes);
    }
}

/// Appends the `width` low bytes of `value`, least significant first.
pub fn put_le(out: &mut Vec<u8>, value: u64, width: usize)
    requires
        width <= 8,
    ensures
        final(out)@ == old(out)@ + le_bytes(value as nat, width as nat),
{
    let mut rest: u64 = value;
    let mut i: usize = 0;
    while i < width
        invariant
            i <= width <= 8,
            old(out)@ + le_bytes(value as nat, width as nat) == out@ + le_bytes(
                rest as nat,
                (width - i) as nat,
            ),
        decreases width - i,
    {
        let b = (rest % 256) as u8;
        let ghost before = out@;
        out.push(b);
        assert(before + le_bytes(rest as nat, (width - i) as nat) =~= out@ + le_bytes(
            (rest / 256) as nat,
            (width - i - 1) as nat,
        ));
        rest = rest / 256;
        i += 1;
    }
    assert(out@ + le_bytes(rest as nat, 0) =~= out@);
}

/// Reads the number held by the `width` bytes at `at`, least significant
/// byte first.
pub fn get_le(bytes: &Vec<u8>, at: usize, width: usize) -> (value: u64)
    requires
        width <= 8,
        at + width <= bytes.len(),
    ensures
        value == le_value(bytes@.subrange(at as int, at + width)),
        value < base_pow(256, width as nat),
{
    let mut value: u64 = 0;
    let mut i: usize = width;
    proof {
        assert(base_pow(256, 8) == 0x1_0000_0000_0000_0000) by {
            reveal_with_fuel(base_pow, 9);
        }
        assert(bytes@.subrange(at + width, at + width) =~= Seq::<u8>::empty());
    }
    while i > 0
        invariant
            i <= width <= 8,
            at + width <= bytes.len(),
            value == le_value(bytes@.subrange(at + i, at + width)),
            value < base_pow(256, (width - i) as nat),
            base_pow(256, 8) == 0x1_0000_0000_0000_0000,
        decreases i,
    {
        let b = bytes[at + i - 1];
        proof {
            let tail = bytes@.subrange(at + i - 1, at + width);
            assert(tail.drop_first() =~= bytes@.subrange(at + i, at + width));
            assert(tail[0] == b);
            lemma_base_pow_monotone(256, (width - i + 1) as nat, 8);
        }
        value = value * 256 + b as u64;
        i -= 1;
    }
    value
}

/// The number of records that a table's header announces: its first eight
/// bytes, least significant first.
pub open spec fn header_count(bytes: Seq<u8>) -> Result<u64, TableError> {
    if bytes.len() < 8 {
        Err(TableError::ShortHeader)
    } else {
        Ok(le_value(bytes.subrange(0, 8)) as u64)
    }
}

/// Reads the record count from the head of a table.
pub fn records_in_file(bytes: &Vec<u8>) -> (count: Result<u64, TableError>)
    ensures
        count == header_count(bytes@),
{
    if bytes.len() < 8 {
        Err(TableError::ShortHeader)
    } else {
        Ok(get_le(bytes, 0, 8))
    }
}

/// The sum of the numbers.
pub open spec fn total_of(lens: Seq<usize>) -> nat
    decreases lens.len(),
{
    if lens.len() == 0 {
        0
    } else {
        total_of(lens.drop_last()) + lens.last() as nat
    }
}

/// Appends a table's header: the total number of records of the maps that
/// the table holds, in eight bytes.
pub fn write_records_header(file: &mut Vec<u8>, lens: &Vec<usize>)
    requires
        total_of(lens@) <= u64::MAX,
    ensures
        final(file)@ == old(file)@ + le_bytes(total_of(lens@), 8),
{
    let mut n_records: u64 = 0;
    let mut i: usize = 0;
    while i < lens.len()
        invariant
            i <= lens.len(),
            n_records == total_of(lens@.take(i as int)),
            total_of(lens@) <= u64::MAX,
        decreases lens.len() - i,
    {
        proof {
            assert(lens@.take(i as int + 1).drop_last() =~= lens@.take(i as int));
            lemma_total_of_prefix(lens@, i as int + 1);
        }
        n_records = n_records + lens[i] as u64;
        i += 1;
    }
    assert(lens@.take(i as int) =~= lens@);
    put_le(file, n_records, 8);
}

proof fn lemma_total_of_prefix(lens: Seq<usize>, n: int)
    requires
        0 <= n <= lens.len(),
    ensures
        total_of(lens.take(n)) <= total_of(lens),
    decreases lens.len() - n,
{
    if n < lens.len() {
        lemma_total_of_prefix(lens, n + 1);
        assert(lens.take(n + 1).drop_last() =~= lens.take(n));
    } else {
        assert(lens.take(n) =~= lens);
    }
}

} // verus!
