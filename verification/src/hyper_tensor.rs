//! A rectangular fixed-point matrix, the CPPN's substrate carrier.

use vstd::prelude::*;
use crate::errors::NeatError;
use crate::fixed::VAL_MAX;

verus! {

pub struct HyperTensor {
    pub values: Vec<Vec<i64>>,
    pub m: usize,
    pub n: usize,
}

/// Rows and columns both at least 2, with every row the same width.
pub open spec fn tensor_shape_ok(values: Seq<Vec<i64>>) -> bool {
    &&& values.len() >= 2
    &&& values[0]@.len() >= 2
    &&& forall|i: int| 0 <= i < values.len() ==> (#[trigger] values[i])@.len() == values[0]@.len()
}

impl HyperTensor {
    /// The recorded dimensions match the payload and meet the 2x2 floor.
    pub open spec fn wf(&self) -> bool {
        &&& tensor_shape_ok(self.values@)
        &&& self.m == self.values@.len()
        &&& self.n == self.values@[0]@.len()
    }

    /// Every cell sits inside the saturated value range.
    pub open spec fn in_range(&self) -> bool {
        forall|i: int, j: int|
            0 <= i < self.values@.len() && 0 <= j < (#[trigger] self.values@[i])@.len()
                ==> -VAL_MAX <= #[trigger] self.values@[i]@[j] <= VAL_MAX
    }

    /// Wrap a matrix, rejecting one with fewer than two rows, ragged rows,
    /// or fewer than two columns.
    pub fn new(values: Vec<Vec<i64>>) -> (r: Result<Self, NeatError>)
        ensures
            match r {
                Ok(t) => tensor_shape_ok(values@) && t.values@ == values@ && t.m == values@.len()
                    && t.n == values@[0]@.len() && t.wf(),
                Err(e) => e == NeatError::TensorShape && !tensor_shape_ok(values@),
            },
    {
        if values.len() < 2 {
            return Err(NeatError::TensorShape);
        }
        let cols = values[0].len();
        let mut i: usize = 0;
        while i < values.len()
            invariant
                0 <= i <= values@.len(),
                cols == values@[0]@.len(),
                forall|k: int| 0 <= k < i ==> (#[trigger] values@[k])@.len() == cols,
            decreases values@.len() - i,
        {
            if values[i].len() != cols {
                return Err(NeatError::TensorShape);
            }
            i = i + 1;
        }
        if cols < 2 {
            return Err(NeatError::TensorShape);
        }
        let m = values.len();
        Ok(HyperTensor { values, m, n: cols })
    }

    /// An all-zero matrix of the given dimensions, rejecting any below the
    /// 2x2 floor.
    pub fn zeros(m: usize, n: usize) -> (r: Result<Self, NeatError>)
        ensures
            match r {
                Ok(t) => m >= 2 && n >= 2 && t.wf() && t.m == m && t.n == n && t.in_range()
                    && forall|i: int, j: int|
                    0 <= i < m && 0 <= j < n ==> #[trigger] t.values@[i]@[j] == 0,
                Err(e) => e == NeatError::TensorShape && (m < 2 || n < 2),
            },
    {
        if n < 2 || m < 2 {
            return Err(NeatError::TensorShape);
        }
        let mut values: Vec<Vec<i64>> = Vec::new();
        let mut i: usize = 0;
        while i < m
            invariant
                0 <= i <= m,
                values@.len() == i,
                forall|k: int| 0 <= k < i ==> (#[trigger] values@[k])@.len() == n,
                forall|k: int, j: int|
                    0 <= k < i && 0 <= j < n ==> #[trigger] values@[k]@[j] == 0,
            decreases m - i,
        {
            let mut row: Vec<i64> = Vec::new();
            let mut j: usize = 0;
            while j < n
                invariant
                    0 <= j <= n,
                    row@.len() == j,
                    forall|q: int| 0 <= q < j ==> #[trigger] row@[q] == 0,
                decreases n - j,
            {
                row.push(0);
                j = j + 1;
            }
            values.push(row);
            i = i + 1;
        }
        Ok(HyperTensor { values, m, n })
    }
}

} // verus!
