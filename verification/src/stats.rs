//! Small statistics helpers over scalar vectors.

use vstd::prelude::*;
use crate::sums::{lemma_sum_take_all, lemma_sum_take_step, sum_int};

verus! {

/// A maximum and where it sits.
pub trait MaxIndex<TItem> where Self: Sized {
    /// When the maximum is well-defined.
    spec fn max_ready(&self) -> bool;

    /// Returns `(index_of_max, max)`.
    fn max_index(&self) -> (usize, TItem)
        requires
            self.max_ready(),
    ;

    /// The maximum alone. Named apart from `Ord::max`, which every
    /// reference also offers.
    fn max_value(&self) -> TItem
        requires
            self.max_ready(),
    ;
}

impl MaxIndex<i64> for Vec<i64> {
    open spec fn max_ready(&self) -> bool {
        self@.len() > 0
    }

    /// The position and value of the largest element, the latest of
    /// equals.
    fn max_index(&self) -> (r: (usize, i64))
        ensures
            r.0 < self@.len(),
            r.1 == self@[r.0 as int],
            forall|i: int| 0 <= i < self@.len() ==> self@[i] <= r.1,
            forall|i: int| r.0 < i < self@.len() ==> self@[i] < r.1,
    {
        let mut best: i64 = self[0];
        let mut at: usize = 0;
        let mut i: usize = 1;
        while i < self.len()
            invariant
                1 <= i <= self@.len(),
                at < i,
                best == self@[at as int],
                forall|k: int| 0 <= k < i ==> self@[k] <= best,
                forall|k: int| at < k < i ==> self@[k] < best,
            decreases self@.len() - i,
        {
            if self[i] >= best {
                best = self[i];
                at = i;
            }
            i = i + 1;
        }
        (at, best)
    }

    /// The largest element.
    fn max_value(&self) -> (r: i64)
        ensures
            exists|i: int| 0 <= i < self@.len() && r == self@[i],
            forall|i: int| 0 <= i < self@.len() ==> self@[i] <= r,
    {
        let (_idx, top) = MaxIndex::max_index(self);
        top
    }
}

/// A scalar vector carrying its sum and the position of its maximum.
pub struct StatVec {
    pub vec: Vec<i64>,
    pub sum: i64,
    pub max_index: usize,
}

impl StatVec {
    /// Wraps a non-empty vector of bounded scalars, computing its
    /// statistics once.
    pub fn new(vec: Vec<i64>) -> (r: StatVec)
        requires
            0 < vec@.len() <= 0x10_0000,
            forall|i: int| 0 <= i < vec@.len() ==> -0x40_0000_0000 <= #[trigger] vec@[i]
                <= 0x40_0000_0000,
        ensures
            r.vec@ == vec@,
            r.sum_s() == sum_int(vec@.map_values(|v: i64| v as int)),
            r.max_index_s() < vec@.len(),
            forall|i: int| 0 <= i < vec@.len() ==> #[trigger] vec@[i] <= vec@[r.max_index_s()],
            forall|i: int| r.max_index_s() < i < vec@.len() ==> #[trigger] vec@[i] < vec@[
                r.max_index_s()],
    {
        let ghost m = vec@.map_values(|v: i64| v as int);
        let mut sum: i64 = 0;
        let mut i: usize = 0;
        while i < vec.len()
            invariant
                i <= vec@.len(),
                vec@.len() <= 0x10_0000,
                forall|k: int| 0 <= k < vec@.len() ==> -0x40_0000_0000 <= #[trigger] vec@[k]
                    <= 0x40_0000_0000,
                m == vec@.map_values(|v: i64| v as int),
                sum == sum_int(m.take(i as int)),
                -0x40_0000_0000 * (i as int) <= sum <= 0x40_0000_0000 * (i as int),
            decreases vec@.len() - i,
        {
            proof {
                lemma_sum_take_step(m, i as int);
                assert(0x40_0000_0000 * (i as int + 1) == 0x40_0000_0000 * (i as int)
                    + 0x40_0000_0000);
                assert(-0x40_0000_0000 * (i as int + 1) == -0x40_0000_0000 * (i as int)
                    - 0x40_0000_0000);
            }
            sum = sum + vec[i];
            i = i + 1;
        }
        proof {
            lemma_sum_take_all(m);
        }
        let (max_index, _max_val) = MaxIndex::max_index(&vec);
        StatVec { vec, sum, max_index }
    }

    /// The stored sum.
    pub open spec fn sum_s(&self) -> int {
        self.sum as int
    }

    /// The stored maximum position.
    pub open spec fn max_index_s(&self) -> int {
        self.max_index as int
    }

    pub fn sum(&self) -> (r: i64)
        ensures
            r == self.sum_s(),
    {
        self.sum
    }
}

impl MaxIndex<i64> for StatVec {
    open spec fn max_ready(&self) -> bool {
        self.max_index_s() < self.vec@.len()
    }

    /// The stored position and the value there.
    fn max_index(&self) -> (r: (usize, i64))
        ensures
            r.0 == self.max_index_s(),
            r.1 == self.vec@[r.0 as int],
    {
        (self.max_index, self.vec[self.max_index])
    }

    fn max_value(&self) -> (r: i64)
        ensures
            r == self.vec@[self.max_index_s()],
    {
        self.vec[self.max_index]
    }
}

} // verus!
