//! The nearest of several sampled distances.
//!
//! Of the signed distances from a point to each of several surfaces, the
//! least names the surface that is nearest; where two are level, the one
//! that comes first does.

use crate::scalar::Scalar;
use vstd::prelude::*;

verus! {

/// `k` is the first position of `samples` that holds a least distance: no
/// sample is below it, and every earlier one is above it.
pub open spec fn is_nearest(samples: Seq<Scalar>, k: int) -> bool {
    &&& 0 <= k < samples.len()
    &&& forall|j: int| 0 <= j < samples.len() ==> !(#[trigger] samples[j]).less_than(samples[k])
    &&& forall|j: int| 0 <= j < k ==> samples[k].less_than(#[trigger] samples[j])
}

/// A least distance can be told among `samples`: there is one sample alone,
/// which nothing is compared with, or there are several and none is a NaN.
pub open spec fn comparable(samples: Seq<Scalar>) -> bool {
    samples.len() == 1 || (samples.len() > 1 && forall|j: int|
        0 <= j < samples.len() ==> !(#[trigger] samples[j]).nan())
}

/// At most one position is the nearest.
pub proof fn lemma_nearest_is_unique(samples: Seq<Scalar>, k1: int, k2: int)
    requires
        is_nearest(samples, k1),
        is_nearest(samples, k2),
    ensures
        k1 == k2,
{
    if k1 < k2 {
        assert(samples[k2].less_than(samples[k1]));
        assert(!samples[k2].less_than(samples[k1]));
    } else if k2 < k1 {
        assert(samples[k1].less_than(samples[k2]));
        assert(!samples[k1].less_than(samples[k2]));
    }
}

/// The nearest position of two runs of samples laid end to end is that of the
/// second run where its least distance is below that of the first run, and
/// that of the first run otherwise.
pub proof fn lemma_nearest_of_concatenation(a: Seq<Scalar>, b: Seq<Scalar>, ka: int, kb: int)
    requires
        is_nearest(a, ka),
        is_nearest(b, kb),
        forall|j: int| 0 <= j < a.len() ==> !(#[trigger] a[j]).nan(),
        forall|j: int| 0 <= j < b.len() ==> !(#[trigger] b[j]).nan(),
    ensures
        b[kb].less_than(a[ka]) ==> is_nearest(a + b, a.len() + kb),
        !b[kb].less_than(a[ka]) ==> is_nearest(a + b, ka),
{
    let ab = a + b;
    assert forall|j: int| 0 <= j < ab.len() implies #[trigger] ab[j] == (if j < a.len() {
        a[j]
    } else {
        b[j - a.len()]
    }) by {}
    if b[kb].less_than(a[ka]) {
        let k = a.len() + kb;
        assert(ab[k] == b[kb]);
        assert forall|j: int| 0 <= j < ab.len() implies !(#[trigger] ab[j]).less_than(ab[k]) by {
            if j < a.len() {
                assert(!a[j].less_than(a[ka]));
            } else {
                assert(!b[j - a.len()].less_than(b[kb]));
            }
        }
        assert forall|j: int| 0 <= j < k implies ab[k].less_than(#[trigger] ab[j]) by {
            if j < a.len() {
                assert(!a[j].less_than(a[ka]));
            } else {
                assert(b[kb].less_than(b[j - a.len()]));
            }
        }
    } else {
        assert(ab[ka] == a[ka]);
        assert forall|j: int| 0 <= j < ab.len() implies !(#[trigger] ab[j]).less_than(ab[ka]) by {
            if j < a.len() {
                assert(!a[j].less_than(a[ka]));
            } else {
                assert(!b[j - a.len()].less_than(b[kb]));
            }
        }
        assert forall|j: int| 0 <= j < ka implies ab[ka].less_than(#[trigger] ab[j]) by {
            assert(a[ka].less_than(a[j]));
        }
    }
}

/// The first position of `samples` that holds a least distance.
pub open spec fn nearest_position(samples: Seq<Scalar>) -> int {
    choose|k: int| is_nearest(samples, k)
}

/// The least distance among `samples`.
pub open spec fn least_distance(samples: Seq<Scalar>) -> Scalar {
    samples[nearest_position(samples)]
}

/// Among samples of which there is at least one and none is a NaN, one
/// position is the nearest.
pub proof fn lemma_nearest_exists(samples: Seq<Scalar>)
    requires
        samples.len() > 0,
        forall|j: int| 0 <= j < samples.len() ==> !(#[trigger] samples[j]).nan(),
    ensures
        is_nearest(samples, nearest_position(samples)),
    decreases samples.len(),
{
    let last = samples.len() - 1;
    let tail = seq![samples[last]];
    assert(is_nearest(tail, 0));
    if samples.len() == 1 {
        assert(samples =~= tail);
    } else {
        let front = samples.take(last);
        lemma_nearest_exists(front);
        assert(samples =~= front + tail);
        lemma_nearest_of_concatenation(front, tail, nearest_position(front), 0);
        if tail[0].less_than(front[nearest_position(front)]) {
            assert(is_nearest(samples, front.len() as int));
        } else {
            assert(is_nearest(samples, nearest_position(front)));
        }
    }
}

/// Among samples that can be compared, one position is the nearest.
pub proof fn lemma_comparable_has_a_nearest(samples: Seq<Scalar>)
    requires
        comparable(samples),
    ensures
        is_nearest(samples, nearest_position(samples)),
{
    if samples.len() == 1 {
        assert(is_nearest(samples, 0));
    } else {
        lemma_nearest_exists(samples);
    }
}

} // verus!
