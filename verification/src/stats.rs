//! Per-key running statistics.
//!
//! One `Stored` instance exists per distinct key. It is created from the
//! first observed reading and mutated in place by every later one. The
//! minimum and maximum are maintained by the library under the total order
//! of [`crate::order`]; the running sum is numeric work the library does not
//! do on encodings, so each update takes the caller's freshly accumulated
//! sum encoding and records it verbatim. The mean is derived from `sum` and
//! `count` at display time, outside the library, and is never stored.

use vstd::prelude::*;
use crate::order::seq_max;
use crate::order::seq_min;
use crate::order::value_is_lt;
use crate::order::value_lt;

verus! {

/// Running statistics of one key: least and greatest observed encoding,
/// the caller-accumulated sum encoding, and the number of observations.
#[derive(Clone, Copy, Debug)]
pub struct Stored {
    pub min: u32,
    pub max: u32,
    pub sum: u32,
    pub count: usize,
}

impl Stored {
    /// `self` is what observing exactly the readings `vs`, in that order,
    /// leaves behind — apart from `sum`, which tracks the caller's
    /// accumulation and is not pinned by the observation history.
    pub open spec fn tracks(self, vs: Seq<u32>) -> bool {
        &&& vs.len() > 0
        &&& self.count == vs.len()
        &&& self.min == seq_min(vs)
        &&& self.max == seq_max(vs)
    }

    /// Statistics after a first observation: the single value is at once
    /// minimum, maximum and sum, and the count is one.
    pub fn new(v: u32) -> (s: Stored)
        ensures
            s.min == v,
            s.max == v,
            s.sum == v,
            s.count == 1,
            s.tracks(seq![v]),
    {
        Stored { min: v, max: v, sum: v, count: 1 }
    }

    /// Fold one further reading `v` into the statistics. The minimum and
    /// maximum comparisons are evaluated independently of each other, so a
    /// reading strictly below the minimum can never mask one strictly above
    /// the maximum. `new_sum` is the caller's accumulated sum including `v`
    /// and is stored as given.
    pub fn update(&mut self, v: u32, new_sum: u32)
        requires
            old(self).count < usize::MAX,
        ensures
            final(self).count == old(self).count + 1,
            final(self).sum == new_sum,
            final(self).min == (if value_lt(v, old(self).min) { v } else { old(self).min }),
            final(self).max == (if value_lt(old(self).max, v) { v } else { old(self).max }),
            forall|vs: Seq<u32>|
                old(self).tracks(vs) ==> final(self).tracks(vs.push(v)),
    {
        self.count = self.count + 1;
        self.sum = new_sum;
        if value_is_lt(v, self.min) {
            self.min = v;
        }
        if value_is_lt(self.max, v) {
            self.max = v;
        }
        proof {
            assert forall|vs: Seq<u32>| old(self).tracks(vs) implies self.tracks(vs.push(v)) by {
                assert(vs.push(v).drop_last() =~= vs);
                assert(vs.push(v).last() == v);
            }
        }
    }
}

} // verus!
