//! Running maxima and the first minimum of a list of binary64 data.

use vstd::prelude::*;
use crate::binary64::{Binary64, ZERO_BITS, INFINITY_BITS};

verus! {

/// The largest of zero and the data of a list, NaNs left aside: what one gets
/// by starting from positive zero and taking the larger, datum after datum.
pub open spec fn largest(values: Seq<Binary64>) -> Binary64
    decreases values.len(),
{
    if values.len() == 0 {
        Binary64::of(ZERO_BITS)
    } else {
        largest(values.drop_last()).max_spec(values.last())
    }
}

/// The absolute values of a list, in order.
pub open spec fn absolutes(values: Seq<Binary64>) -> Seq<Binary64> {
    Seq::new(values.len(), |i: int| values[i].abs_spec())
}

/// The running maximum is a number, it is zero or one of the data, and no
/// datum lies above it.
pub proof fn lemma_largest_is_maximum(values: Seq<Binary64>)
    ensures
        !largest(values).is_nan_spec(),
        largest(values).rank() >= 0,
        largest(values) == Binary64::of(ZERO_BITS) || exists|i: int|
            0 <= i < values.len() && largest(values) == #[trigger] values[i],
        forall|i: int| 0 <= i < values.len() ==> !largest(values).lt_spec(#[trigger] values[i]),
    decreases values.len(),
{
    if values.len() > 0 {
        let head = values.drop_last();
        lemma_largest_is_maximum(head);
        let m = largest(values);
        if m != Binary64::of(ZERO_BITS) {
            if m == largest(head) {
                let i = choose|i: int| 0 <= i < head.len() && largest(head) == #[trigger] head[i];
                assert(values[i] == head[i]);
            } else {
                assert(m == values[values.len() - 1]);
            }
        }
        assert forall|i: int| 0 <= i < values.len() implies !m.lt_spec(#[trigger] values[i]) by {
            if i < head.len() {
                assert(values[i] == head[i]);
            }
        }
    }
}

/// The running maximum lies above a non-negative bound exactly when some
/// datum does.
pub proof fn lemma_largest_exceeds(values: Seq<Binary64>, bound: Binary64)
    requires
        !bound.is_nan_spec(),
        bound.rank() >= 0,
    ensures
        largest(values).gt_spec(bound) <==> exists|i: int|
            0 <= i < values.len() && (#[trigger] values[i]).gt_spec(bound),
    decreases values.len(),
{
    lemma_largest_is_maximum(values);
    let m = largest(values);
    if m.gt_spec(bound) {
        let i = choose|i: int| 0 <= i < values.len() && m == #[trigger] values[i];
        assert(values[i].gt_spec(bound));
    }
    if exists|i: int| 0 <= i < values.len() && (#[trigger] values[i]).gt_spec(bound) {
        let i = choose|i: int| 0 <= i < values.len() && (#[trigger] values[i]).gt_spec(bound);
        assert(!m.lt_spec(values[i]));
    }
}

/// The running maximum of a list, from positive zero.
pub fn largest_in(values: &Vec<Binary64>) -> (r: Binary64)
    ensures
        r == largest(values@),
{
    let mut best = Binary64::from_bits(ZERO_BITS);
    let mut i: usize = 0;
    while i < values.len()
        invariant
            i <= values.len(),
            best == largest(values@.take(i as int)),
        decreases values.len() - i,
    {
        proof {
            assert(values@.take(i + 1).drop_last() == values@.take(i as int));
        }
        best = best.max(values[i]);
        i += 1;
    }
    proof {
        assert(values@.take(i as int) == values@);
    }
    best
}

/// The running maximum of the absolute values of a list, from positive zero.
pub fn largest_abs_in(values: &Vec<Binary64>) -> (r: Binary64)
    ensures
        r == largest(absolutes(values@)),
{
    let mut best = Binary64::from_bits(ZERO_BITS);
    let mut i: usize = 0;
    while i < values.len()
        invariant
            i <= values.len(),
            best == largest(absolutes(values@.take(i as int))),
        decreases values.len() - i,
    {
        proof {
            assert(absolutes(values@.take(i + 1)).drop_last() == absolutes(values@.take(i as int)));
        }
        best = best.max(values[i].abs());
        i += 1;
    }
    proof {
        assert(values@.take(i as int) == values@);
    }
    best
}

/// Whether a datum is a number below positive infinity.
pub open spec fn bounded(value: Binary64) -> bool {
    value.lt_spec(Binary64::of(INFINITY_BITS))
}

/// Whether `index` is where the smallest datum of a list first stands. Only
/// numbers below positive infinity compete; where there is none, the place is 0.
pub open spec fn first_smallest(values: Seq<Binary64>, index: int) -> bool {
    if exists|k: int| 0 <= k < values.len() && bounded(#[trigger] values[k]) {
        &&& 0 <= index < values.len()
        &&& bounded(values[index])
        &&& forall|k: int| 0 <= k < values.len() ==> !(#[trigger] values[k]).lt_spec(values[index])
        &&& forall|k: int|
            0 <= k < index && bounded(#[trigger] values[k]) ==> values[index].lt_spec(values[k])
    } else {
        index == 0
    }
}

/// A list has one such place only.
pub proof fn lemma_first_smallest_unique(values: Seq<Binary64>, i: int, j: int)
    requires
        first_smallest(values, i),
        first_smallest(values, j),
    ensures
        i == j,
{
    if exists|k: int| 0 <= k < values.len() && bounded(#[trigger] values[k]) {
        if i < j {
            assert(values[j].lt_spec(values[i]));
        } else if j < i {
            assert(values[i].lt_spec(values[j]));
        }
    }
}

/// The place where the smallest datum of a list first stands.
pub open spec fn smallest_place(values: Seq<Binary64>) -> int {
    choose|index: int| first_smallest(values, index)
}

/// Where the smallest datum of a list first stands: a scan from the left
/// that starts from positive infinity and moves on each strictly smaller
/// datum.
pub fn first_smallest_in(values: &Vec<Binary64>) -> (r: usize)
    ensures
        first_smallest(values@, r as int),
        r == smallest_place(values@),
        r == 0 || r < values.len(),
{
    let mut index: usize = 0;
    let mut least = Binary64::from_bits(INFINITY_BITS);
    let mut k: usize = 0;
    while k < values.len()
        invariant
            k <= values.len(),
            !least.is_nan_spec(),
            first_smallest(values@.take(k as int), index as int),
            least == if bounded(least) {
                values@[index as int]
            } else {
                Binary64::of(INFINITY_BITS)
            },
            bounded(least) <==> exists|m: int| 0 <= m < k && bounded(#[trigger] values@[m]),
            bounded(least) ==> index < k,
        decreases values.len() - k,
    {
        let ghost before = values@.take(k as int);
        let ghost after = values@.take(k + 1);
        let ghost old_index = index as int;
        let ghost old_least = least;
        let value = values[k];
        if value.lt(least) {
            least = value;
            index = k;
        }
        proof {
            assert(forall|m: int| 0 <= m < k ==> before[m] == values@[m]);
            assert(forall|m: int| 0 <= m <= k ==> after[m] == values@[m]);
            if bounded(old_least) {
                let w = choose|m: int| 0 <= m < k && bounded(#[trigger] values@[m]);
                assert(bounded(before[w]));
                assert(bounded(after[w]));
            } else {
                assert forall|m: int| 0 <= m < k implies !bounded(#[trigger] before[m]) by {
                    assert(before[m] == values@[m]);
                }
            }
            if bounded(least) {
                assert(bounded(values@[index as int]));
                assert(bounded(after[index as int]));
            } else {
                assert forall|m: int| 0 <= m < k + 1 implies !bounded(#[trigger] after[m]) by {
                    assert(after[m] == values@[m]);
                    if m < k {
                        assert(before[m] == values@[m]);
                    }
                }
            }
        }
        k += 1;
    }
    proof {
        assert(values@.take(k as int) == values@);
        lemma_first_smallest_unique(values@, index as int, smallest_place(values@));
    }
    index
}

} // verus!
