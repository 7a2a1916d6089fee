//! The bounding-box pre-test that accelerates surface intersection.
//!
//! A sphere's axis-aligned bounding box is intersected with a ray by the slab
//! test: each axis contributes one closed interval of hit parameters, and the
//! ray meets the box exactly when the intervals have a common point that is
//! not behind the ray origin. Computing each axis interval divides reals, so
//! that stays with the caller; the narrowing itself is pure order logic and is
//! verified here over interval keys, with the key of zero marking where
//! "behind the origin" begins.

use crate::math::Interval;
use vstd::prelude::*;

verus! {

/// Is `k` inside every slab interval?
pub open spec fn in_all_slabs(slabs: Seq<Interval>, k: u64) -> bool {
    forall|i: int| 0 <= i < slabs.len() ==> (#[trigger] slabs[i]).contains(k)
}

/// The slab test: does the ray meet the box? `slabs` holds one hit-parameter
/// interval per axis and `zero_key` is the key of hit parameter zero; the ray
/// meets the box exactly when some common hit parameter lies at or beyond it.
pub fn slab_test(slabs: &Vec<Interval>, zero_key: u64) -> (hit: bool)
    requires
        forall|i: int| 0 <= i < slabs@.len() ==> (#[trigger] slabs@[i]).wf(),
    ensures
        hit <==> exists|k: u64| k >= zero_key && #[trigger] in_all_slabs(slabs@, k),
{
    let mut common = Interval::new(0, u64::MAX);
    let mut i: usize = 0;
    while i < slabs.len()
        invariant
            i <= slabs@.len(),
            common.wf(),
            forall|i2: int| 0 <= i2 < slabs@.len() ==> (#[trigger] slabs@[i2]).wf(),
            forall|k: u64| #[trigger]
                common.contains(k) <==> (forall|i2: int|
                    0 <= i2 < i ==> (#[trigger] slabs@[i2]).contains(k)),
        decreases slabs@.len() - i,
    {
        match common.intersection(slabs[i]) {
            None => {
                proof {
                    assert forall|k: u64| !(k >= zero_key && in_all_slabs(slabs@, k)) by {
                        if in_all_slabs(slabs@, k) {
                            assert(slabs@[i as int].contains(k));
                            assert(common.contains(k));
                        }
                    }
                }
                return false;
            },
            Some(narrowed) => {
                assert forall|k: u64| #[trigger]
                    narrowed.contains(k) <==> (forall|i2: int|
                        0 <= i2 < i + 1 ==> (#[trigger] slabs@[i2]).contains(k)) by {
                    if narrowed.contains(k) {
                        assert(common.contains(k));
                    }
                    if forall|i2: int| 0 <= i2 < i + 1 ==> (#[trigger] slabs@[i2]).contains(k) {
                        assert(slabs@[i as int].contains(k));
                        assert(common.contains(k));
                    }
                }
                common = narrowed;
            },
        }
        i = i + 1;
    }
    let (lower, upper) = common.get_endpoints();
    proof {
        if lower >= zero_key || upper >= zero_key {
            assert(common.contains(upper));
            assert(in_all_slabs(slabs@, upper));
        }
        if exists|k: u64| k >= zero_key && #[trigger] in_all_slabs(slabs@, k) {
            let k = choose|k: u64| k >= zero_key && #[trigger] in_all_slabs(slabs@, k);
            assert(common.contains(k));
        }
    }
    lower >= zero_key || upper >= zero_key
}

} // verus!
