//! Closed intervals over a totally ordered set of keys.
//!
//! The slab test intersects a ray with three pairs of axis-aligned planes and
//! narrows a hit-parameter interval step by step. The narrowing itself is pure
//! order logic, so the interval stores endpoints as `u64` keys; a caller maps
//! real endpoints to keys through any order-preserving embedding and gets the
//! same intersections back.

use vstd::prelude::*;

verus! {

/// A closed, non-empty-by-construction interval `[lo, hi]` in the key order.
#[derive(Clone, Copy, PartialEq, Eq, Structural, Debug)]
pub struct Interval {
    lo: u64,
    hi: u64,
}

impl Interval {
    /// The lower endpoint.
    pub closed spec fn lo(self) -> u64 {
        self.lo
    }

    /// The upper endpoint.
    pub closed spec fn hi(self) -> u64 {
        self.hi
    }

    /// Endpoints are ordered; every interval built by `new` satisfies this.
    pub open spec fn wf(self) -> bool {
        self.lo() <= self.hi()
    }

    /// The set of keys the interval covers.
    pub open spec fn contains(self, k: u64) -> bool {
        self.lo() <= k <= self.hi()
    }

    /// Build the interval with the two given endpoints, in either order.
    pub fn new(first_endpoint: u64, second_endpoint: u64) -> (r: Self)
        ensures
            r.wf(),
            first_endpoint <= second_endpoint ==> r.lo() == first_endpoint && r.hi()
                == second_endpoint,
            first_endpoint > second_endpoint ==> r.lo() == second_endpoint && r.hi()
                == first_endpoint,
            forall|k: u64| #[trigger] r.contains(k) <==> (first_endpoint <= k <= second_endpoint
                || second_endpoint <= k <= first_endpoint),
    {
        if first_endpoint <= second_endpoint {
            Self { lo: first_endpoint, hi: second_endpoint }
        } else {
            Self { lo: second_endpoint, hi: first_endpoint }
        }
    }

    /// Return the endpoints as a pair, lower first.
    pub fn get_endpoints(self) -> (r: (u64, u64))
        ensures
            r.0 == self.lo(),
            r.1 == self.hi(),
    {
        (self.lo, self.hi)
    }

    /// Compute the intersection of two closed intervals. If the result is the
    /// empty set, then `None` is returned.
    pub fn intersection(self, other: Interval) -> (r: Option<Interval>)
        requires
            self.wf(),
            other.wf(),
        ensures
            match r {
                Some(iv) => {
                    &&& iv.wf()
                    &&& iv.lo() == if self.lo() >= other.lo() {
                        self.lo()
                    } else {
                        other.lo()
                    }
                    &&& iv.hi() == if self.hi() <= other.hi() {
                        self.hi()
                    } else {
                        other.hi()
                    }
                    &&& forall|k: u64| #[trigger]
                        iv.contains(k) <==> self.contains(k) && other.contains(k)
                },
                None => forall|k: u64| !(#[trigger] self.contains(k) && other.contains(k)),
            },
    {
        let lower = if self.lo >= other.lo {
            self.lo
        } else {
            other.lo
        };
        let upper = if self.hi <= other.hi {
            self.hi
        } else {
            other.hi
        };
        if upper < lower {
            None
        } else {
            Some(Interval::new(lower, upper))
        }
    }
}

} // verus!
