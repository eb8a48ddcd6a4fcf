//! What holds of every capacity validation.

use crate::binary32::Binary32;
use crate::capacity::{total_weight, Item};
use crate::rounding::{
    lemma_multiples, lemma_round_is_datum, lemma_round_monotone, lemma_round_multiple,
};
use crate::value::{magnitude, mantissa_limit, overflow_threshold, Value};
use vstd::arithmetic::power2::{lemma_pow2_pos, pow2};
use vstd::prelude::*;
use vstd::seq_lib::{to_multiset_contains, to_multiset_len, to_multiset_remove};

verus! {

/// The total of no items is zero, so an empty batch fits exactly under the
/// bounds that are not below zero.
pub proof fn lemma_empty_batch(max_weight: Binary32)
    ensures
        total_weight(Seq::<Item>::empty()) == Value::Finite(0),
        total_weight(Seq::<Item>::empty()).le(max_weight@) <==> Value::Finite(0).le(max_weight@),
{
}

/// A batch that holds a NaN weight has a NaN total, and fits under no bound,
/// not even an infinite one.
pub proof fn lemma_nan_weight_never_fits(items: Seq<Item>, at: int, max_weight: Binary32)
    requires
        0 <= at < items.len(),
        items[at].weight@ is Nan,
    ensures
        total_weight(items) is Nan,
        !total_weight(items).le(max_weight@),
    decreases items.len(),
{
    if at < items.len() - 1 {
        lemma_nan_weight_never_fits(items.drop_last(), at, max_weight);
    }
}

/// A batch that fits under a bound fits under every bound that is not smaller.
pub proof fn lemma_fits_under_larger_bound(items: Seq<Item>, bound: Binary32, larger: Binary32)
    requires
        total_weight(items).le(bound@),
        bound@.le(larger@),
    ensures
        total_weight(items).le(larger@),
{
}

/// The integer that a finite weight denotes, in units of 2^-149.
pub open spec fn units(item: Item) -> int {
    match item.weight@ {
        Value::Finite(n) => n,
        _ => 0,
    }
}

/// What one item adds to a tally: its weight as an integer or, with
/// `absolute` set, the magnitude of that.
pub open spec fn share(item: Item, absolute: bool) -> int {
    if absolute {
        magnitude(units(item)) as int
    } else {
        units(item)
    }
}

/// The sum of the weights as integers, without any rounding; with `absolute`
/// set, the sum of their magnitudes.
pub open spec fn tally(items: Seq<Item>, absolute: bool) -> int
    decreases items.len(),
{
    if items.len() == 0 {
        0
    } else {
        tally(items.drop_last(), absolute) + share(items.last(), absolute)
    }
}

/// Every weight is finite and a multiple of `2^k`, and the magnitudes add up
/// to no more than `2^24 * 2^k` and stay within the finite range. No sum of
/// such weights, in any order, needs more than 24 bits of mantissa.
pub open spec fn sums_exactly(items: Seq<Item>, k: nat) -> bool {
    &&& forall|i: int|
        0 <= i < items.len() ==> (#[trigger] items[i]).weight@ is Finite && units(items[i]) % (
        pow2(k) as int) == 0
    &&& tally(items, true) <= mantissa_limit() * pow2(k)
    &&& tally(items, true) < overflow_threshold()
}

/// The exact sum is a multiple of what every weight is a multiple of, and
/// its magnitude is at most the sum of the magnitudes.
proof fn lemma_tally_bounds(items: Seq<Item>, q: int)
    requires
        q > 0,
        forall|i: int| 0 <= i < items.len() ==> units(#[trigger] items[i]) % q == 0,
    ensures
        tally(items, false) % q == 0,
        magnitude(tally(items, false)) <= tally(items, true),
        items.len() > 0 ==> tally(items.drop_last(), true) <= tally(items, true),
    decreases items.len(),
{
    if items.len() > 0 {
        let front = items.drop_last();
        assert forall|i: int| 0 <= i < front.len() implies units(#[trigger] front[i]) % q
            == 0 by {
            assert(front[i] == items[i]);
        }
        lemma_tally_bounds(front, q);
        lemma_multiples(tally(front, false), units(items.last()), q);
    }
}

/// Where the weights sum exactly, the total is the exact sum.
pub proof fn lemma_exact_total(items: Seq<Item>, k: nat)
    requires
        sums_exactly(items, k),
    ensures
        total_weight(items) == Value::Finite(tally(items, false)),
    decreases items.len(),
{
    lemma_pow2_pos(k);
    let q = pow2(k) as int;
    if items.len() > 0 {
        let front = items.drop_last();
        assert forall|i: int| 0 <= i < front.len() implies (#[trigger] front[i]).weight@ is Finite
            && units(front[i]) % q == 0 by {
            assert(front[i] == items[i]);
        }
        lemma_tally_bounds(items, q);
        lemma_exact_total(front, k);
        lemma_round_multiple(tally(items, false), k);
    }
}

/// Taking one item out lowers the tally by that item's share.
proof fn lemma_tally_remove(items: Seq<Item>, at: int, absolute: bool)
    requires
        0 <= at < items.len(),
    ensures
        tally(items, absolute) == tally(items.remove(at), absolute) + share(items[at], absolute),
    decreases items.len(),
{
    if at == items.len() - 1 {
        assert(items.remove(at) =~= items.drop_last());
    } else {
        lemma_tally_remove(items.drop_last(), at, absolute);
        assert(items.remove(at).drop_last() =~= items.drop_last().remove(at));
        assert(items.remove(at).last() == items.last());
        assert(items.drop_last()[at] == items[at]);
    }
}

/// The tally does not depend on the order of the items.
pub proof fn lemma_tally_any_order(a: Seq<Item>, b: Seq<Item>, absolute: bool)
    requires
        a.to_multiset() == b.to_multiset(),
    ensures
        tally(a, absolute) == tally(b, absolute),
    decreases a.len(),
{
    to_multiset_len(a);
    to_multiset_len(b);
    if a.len() > 0 {
        let last = a.last();
        to_multiset_contains(a, last);
        to_multiset_contains(b, last);
        assert(a.contains(last));
        let at = b.index_of(last);
        to_multiset_remove(a, a.len() - 1);
        to_multiset_remove(b, at);
        assert(a.remove(a.len() - 1) =~= a.drop_last());
        lemma_tally_any_order(a.drop_last(), b.remove(at), absolute);
        lemma_tally_remove(b, at, absolute);
        lemma_tally_remove(a, a.len() - 1, absolute);
    }
}

/// Where the weights sum exactly, the order of the items plays no part: a
/// batch and any rearrangement of it have the same total, and so fit under
/// the same bounds.
pub proof fn lemma_order_plays_no_part(a: Seq<Item>, b: Seq<Item>, k: nat, max_weight: Binary32)
    requires
        a.to_multiset() == b.to_multiset(),
        sums_exactly(a, k),
    ensures
        sums_exactly(b, k),
        total_weight(a) == total_weight(b),
        total_weight(a).le(max_weight@) == total_weight(b).le(max_weight@),
{
    assert forall|i: int| 0 <= i < b.len() implies (#[trigger] b[i]).weight@ is Finite && units(
        b[i],
    ) % (pow2(k) as int) == 0 by {
        to_multiset_contains(a, b[i]);
        to_multiset_contains(b, b[i]);
        assert(b.contains(b[i]));
        let j = a.index_of(b[i]);
        assert(a[j] == b[i]);
    }
    lemma_tally_any_order(a, b, true);
    lemma_tally_any_order(a, b, false);
    lemma_exact_total(a, k);
    lemma_exact_total(b, k);
}

/// Addition does not depend on the order of its operands.
pub proof fn lemma_plus_commutes(a: Value, b: Value)
    ensures
        a.plus(b) == b.plus(a),
{
}

/// The first two items of a batch may change places: the first addition is
/// made to zero and loses nothing, and the second does not depend on the
/// order of its operands.
pub proof fn lemma_first_two_may_swap(items: Seq<Item>, max_weight: Binary32)
    requires
        items.len() >= 2,
    ensures
        total_weight(items.update(0, items[1]).update(1, items[0])) == total_weight(items),
        total_weight(items.update(0, items[1]).update(1, items[0])).le(max_weight@)
            == total_weight(items).le(max_weight@),
    decreases items.len(),
{
    let swapped = items.update(0, items[1]).update(1, items[0]);
    let front = items.drop_last();
    if items.len() == 2 {
        let zero = Value::Finite(0);
        items[0].weight.lemma_view_is_datum();
        items[1].weight.lemma_view_is_datum();
        assert(zero.plus(items[0].weight@) == items[0].weight@);
        assert(zero.plus(items[1].weight@) == items[1].weight@);
        assert(total_weight(front.drop_last()) == zero);
        assert(total_weight(swapped.drop_last().drop_last()) == zero);
        assert(total_weight(front) == zero.plus(front.last().weight@));
        assert(total_weight(swapped.drop_last()) == zero.plus(swapped.drop_last().last().weight@));
    } else {
        lemma_first_two_may_swap(front, max_weight);
        assert(swapped.drop_last() =~= front.update(0, front[1]).update(1, front[0]));
        assert(swapped.last() == items.last());
    }
}

/// The total of a batch is a value of the format.
pub proof fn lemma_total_is_datum(items: Seq<Item>)
    ensures
        total_weight(items).is_datum(),
    decreases items.len(),
{
    if items.len() == 0 {
        lemma_pow2_pos(0);
        lemma_pow2_pos(253);
        lemma_round_multiple(0, 0);
    } else {
        lemma_total_is_datum(items.drop_last());
        if let Value::Finite(x) = total_weight(items.drop_last()) {
            if let Value::Finite(y) = items.last().weight@ {
                lemma_round_is_datum(x + y);
            }
        }
    }
}

/// Addition keeps the order of its first operand, as long as no NaN comes
/// of it.
pub proof fn lemma_plus_monotone(lower: Value, upper: Value, addend: Value)
    requires
        lower.le(upper),
        !(lower.plus(addend) is Nan),
        !(upper.plus(addend) is Nan),
    ensures
        lower.plus(addend).le(upper.plus(addend)),
{
    if let Value::Finite(x) = lower {
        if let Value::Finite(y) = upper {
            if let Value::Finite(z) = addend {
                lemma_round_monotone(x + z, y + z);
            }
        }
    }
}

/// One more item with a weight of zero or less, appended to a batch, does
/// not raise the total. (A NaN total is left out: it comes of a NaN among
/// the weights, or of an infinite total met by the opposite infinity.)
pub proof fn lemma_nonpositive_weight_appended(items: Seq<Item>, item: Item)
    requires
        item.weight@.le(Value::Finite(0)),
        !(total_weight(items.push(item)) is Nan),
    ensures
        total_weight(items.push(item)).le(total_weight(items)),
{
    let before = total_weight(items);
    assert(items.push(item).drop_last() =~= items);
    assert(total_weight(items.push(item)) == before.plus(item.weight@));
    lemma_total_is_datum(items);
    if let Value::Finite(x) = before {
        if let Value::Finite(w) = item.weight@ {
            lemma_round_monotone(x + w, x);
        }
    }
}

/// One more item with a weight of zero or less, wherever it is put into a
/// batch, does not raise the total: where neither total is a NaN, the longer
/// batch fits under every bound that the shorter one fits under.
pub proof fn lemma_nonpositive_weight_inserted(
    items: Seq<Item>,
    at: int,
    item: Item,
    max_weight: Binary32,
)
    requires
        0 <= at <= items.len(),
        item.weight@.le(Value::Finite(0)),
        !(total_weight(items) is Nan),
        !(total_weight(items.insert(at, item)) is Nan),
    ensures
        total_weight(items.insert(at, item)).le(total_weight(items)),
        total_weight(items).le(max_weight@) ==> total_weight(items.insert(at, item)).le(
            max_weight@,
        ),
    decreases items.len() - at,
{
    let longer = items.insert(at, item);
    if at == items.len() {
        assert(longer =~= items.push(item));
        lemma_nonpositive_weight_appended(items, item);
    } else {
        let front = items.drop_last();
        assert(longer.drop_last() =~= front.insert(at, item));
        assert(longer.last() == items.last());
        lemma_nonpositive_weight_inserted(front, at, item, max_weight);
        lemma_plus_monotone(
            total_weight(front.insert(at, item)),
            total_weight(front),
            items.last().weight@,
        );
    }
}

} // verus!
