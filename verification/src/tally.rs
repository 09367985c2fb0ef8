use vstd::prelude::*;
use vstd::seq_lib::*;

verus! {

/// How often a key was hit and what those hits brought in all.
pub struct Sum {
    pub hits: nat,
    pub value: nat,
}

/// The sums after one more hit of `key` that brings `total`.
pub open spec fn absorb(sums: Map<u32, Sum>, key: u32, total: nat) -> Map<u32, Sum> {
    sums.insert(
        key,
        if sums.contains_key(key) {
            Sum { hits: sums[key].hits + 1, value: sums[key].value + total }
        } else {
            Sum { hits: 1, value: total }
        },
    )
}

/// The sums after the updates, one after the other.
pub open spec fn absorb_all(sums: Map<u32, Sum>, updates: Seq<(u32, nat)>) -> Map<u32, Sum> {
    updates.fold_left(sums, |m: Map<u32, Sum>, u: (u32, nat)| absorb(m, u.0, u.1))
}

/// Two updates may change places.
pub proof fn lemma_absorb_commutes(sums: Map<u32, Sum>, a: (u32, nat), b: (u32, nat))
    ensures
        absorb(absorb(sums, a.0, a.1), b.0, b.1) == absorb(absorb(sums, b.0, b.1), a.0, a.1),
{
    assert(absorb(absorb(sums, a.0, a.1), b.0, b.1) =~= absorb(absorb(sums, b.0, b.1), a.0, a.1));
}

/// One more update leads from the sums after `n` updates to those after
/// `n + 1`.
pub proof fn lemma_absorb_next(sums: Map<u32, Sum>, updates: Seq<(u32, nat)>, n: int)
    requires
        0 <= n < updates.len(),
    ensures
        absorb_all(sums, updates.take(n + 1)) == absorb(
            absorb_all(sums, updates.take(n)),
            updates[n].0,
            updates[n].1,
        ),
{
    let next = updates.take(n + 1);
    assert(next.drop_last() =~= updates.take(n));
    assert(next.last() == updates[n]);
}

/// The sums after two runs of updates are those after the one run and then
/// the other.
pub proof fn lemma_absorb_concat(sums: Map<u32, Sum>, one: Seq<(u32, nat)>, other: Seq<(u32, nat)>)
    ensures
        absorb_all(sums, one + other) == absorb_all(absorb_all(sums, one), other),
    decreases other.len(),
{
    if other.len() == 0 {
        assert(one + other =~= one);
    } else {
        lemma_absorb_concat(sums, one, other.drop_last());
        assert((one + other).drop_last() =~= one + other.drop_last());
        assert((one + other).last() == other.last());
    }
}

/// How many of the updates hit `key`.
pub open spec fn key_hits(updates: Seq<(u32, nat)>, key: u32) -> nat
    decreases updates.len(),
{
    if updates.len() == 0 {
        0
    } else {
        key_hits(updates.drop_last(), key) + if updates.last().0 == key {
            1nat
        } else {
            0nat
        }
    }
}

/// What the updates that hit `key` bring in all.
pub open spec fn key_value(updates: Seq<(u32, nat)>, key: u32) -> nat
    decreases updates.len(),
{
    if updates.len() == 0 {
        0
    } else {
        key_value(updates.drop_last(), key) + if updates.last().0 == key {
            updates.last().1
        } else {
            0nat
        }
    }
}

/// What the sums hold of `key`: nothing where they do not know it.
pub open spec fn sum_at(sums: Map<u32, Sum>, key: u32) -> Sum {
    if sums.contains_key(key) {
        sums[key]
    } else {
        Sum { hits: 0, value: 0 }
    }
}

/// After any number of updates a key is known where it was known before or
/// an update hit it; its hits have grown by the number of updates that hit
/// it, and its value by what those updates brought.
pub proof fn merged_sums_law(sums: Map<u32, Sum>, updates: Seq<(u32, nat)>, key: u32)
    ensures
        absorb_all(sums, updates).contains_key(key) <==> sums.contains_key(key) || key_hits(
            updates,
            key,
        ) > 0,
        sum_at(absorb_all(sums, updates), key).hits == sum_at(sums, key).hits + key_hits(
            updates,
            key,
        ),
        sum_at(absorb_all(sums, updates), key).value == sum_at(sums, key).value + key_value(
            updates,
            key,
        ),
    decreases updates.len(),
{
    if updates.len() > 0 {
        merged_sums_law(sums, updates.drop_last(), key);
    }
}

/// Every count and every sum fits a `u64`.
pub open spec fn sums_fit(sums: Map<u32, Sum>) -> bool {
    forall|key: u32| #[trigger]
        sums.contains_key(key) ==> sums[key].hits <= u64::MAX && sums[key].value <= u64::MAX
}

/// Counts and sums only grow: where they fit after all updates, they fit
/// after the first of them.
pub proof fn lemma_prefix_fits(sums: Map<u32, Sum>, one: Seq<(u32, nat)>, other: Seq<(u32, nat)>)
    requires
        sums_fit(absorb_all(sums, one + other)),
    ensures
        sums_fit(absorb_all(sums, one)),
{
    let first = absorb_all(sums, one);
    lemma_absorb_concat(sums, one, other);
    assert forall|key: u32| #[trigger] first.contains_key(key) implies first[key].hits <= u64::MAX
        && first[key].value <= u64::MAX by {
        merged_sums_law(first, other, key);
        assert(absorb_all(first, other).contains_key(key));
    }
}

/// An update that is among the updates hits its key at least once, and
/// brings at least its own part.
pub proof fn lemma_key_is_hit(updates: Seq<(u32, nat)>, at: int)
    requires
        0 <= at < updates.len(),
    ensures
        key_hits(updates, updates[at].0) >= 1,
        key_value(updates, updates[at].0) >= updates[at].1,
    decreases updates.len(),
{
    if at < updates.len() - 1 {
        lemma_key_is_hit(updates.drop_last(), at);
    }
}

/// Updates bring an accumulator to the same hits and sums in whatever
/// order they are merged.
pub proof fn merge_order_law(sums: Map<u32, Sum>, one: Seq<(u32, nat)>, other: Seq<(u32, nat)>)
    requires
        one.to_multiset() == other.to_multiset(),
    ensures
        absorb_all(sums, one) == absorb_all(sums, other),
{
    let f = |m: Map<u32, Sum>, u: (u32, nat)| absorb(m, u.0, u.1);
    assert(commutative_foldl(f)) by {
        assert forall|x: (u32, nat), y: (u32, nat), v: Map<u32, Sum>| #[trigger]
            f(f(v, x), y) == f(f(v, y), x) by {
            lemma_absorb_commutes(v, x, y);
        }
    }
    lemma_fold_left_permutation(one, other, f, sums);
}

} // verus!
