//! Capacity validation: does the total weight of a batch stay within a bound?

use crate::binary32::{Binary32, Unpacked};
use crate::laws::lemma_nan_weight_never_fits;
use crate::value::Value;
use vstd::arithmetic::power2::lemma2_to64;
use vstd::prelude::*;

verus! {

/// One unit of inventory: an identifier and a weight. Nothing is asked of
/// either: identifiers may repeat, and a weight may be negative, infinite or
/// a NaN.
#[derive(Clone, Copy, Debug)]
pub struct Item {
    pub id: u32,
    pub weight: Binary32,
}

/// The binary32 sum of the weights, accumulated from zero in sequence order
/// and rounded after every addition.
pub open spec fn total_weight(items: Seq<Item>) -> Value
    decreases items.len(),
{
    if items.len() == 0 {
        Value::Finite(0)
    } else {
        total_weight(items.drop_last()).plus(items.last().weight@)
    }
}

/// Whether the total weight of `items` is at most `max_weight`, the bound
/// included. A total or a bound that is a NaN compares false: a batch with a
/// NaN weight never fits, and nothing fits under a NaN bound. The items are
/// only read.
pub fn validate_capacity(items: &[Item], max_weight: Binary32) -> (fits: bool)
    ensures
        fits == total_weight(items@).le(max_weight@),
        items@.len() == 0 ==> fits == Value::Finite(0).le(max_weight@),
        (exists|i: int| 0 <= i < items@.len() && items@[i].weight@ is Nan) ==> !fits,
        max_weight@ is Nan ==> !fits,
{
    let mut total = Unpacked::Finite { negative: false, mantissa: 0, exponent: 0 };
    proof {
        lemma2_to64();
        if exists|i: int| 0 <= i < items@.len() && items@[i].weight@ is Nan {
            let i = choose|i: int| 0 <= i < items@.len() && items@[i].weight@ is Nan;
            lemma_nan_weight_never_fits(items@, i, max_weight);
        }
    }
    let n: usize = items.len();
    let mut i: usize = 0;
    while i < n
        invariant
            n == items@.len(),
            i <= n,
            total.wf(),
            total@ == total_weight(items@.take(i as int)),
        decreases n - i,
    {
        proof {
            assert(items@.take(i + 1).drop_last() =~= items@.take(i as int));
        }
        total = total.plus(items[i].weight.unpack());
        i = i + 1;
    }
    proof {
        assert(items@.take(n as int) =~= items@);
    }
    total.le(max_weight.unpack())
}

} // verus!
