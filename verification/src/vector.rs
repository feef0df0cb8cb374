//! Owned numeric sequences and the sequential dot product.
//!
//! A `Vector` is the unit of data a multiplication task carries: an owned
//! copy of one matrix row or column, so it can move to a worker without
//! aliasing the source matrix.

use vstd::prelude::*;

use crate::error::Error;

verus! {

/// Sum of the first `k` elementwise products of `a` and `b`.
pub open spec fn dot_prefix(a: Seq<i64>, b: Seq<i64>, k: int) -> int
    decreases k,
{
    if k <= 0 {
        0
    } else {
        dot_prefix(a, b, k - 1) + a[k - 1] * b[k - 1]
    }
}

/// Mathematical dot product of two equal-length sequences:
/// the sum of `a[k] * b[k]` over all indices, taken in index order.
pub open spec fn dot_spec(a: Seq<i64>, b: Seq<i64>) -> int {
    dot_prefix(a, b, a.len() as int)
}

/// Every elementwise product and every partial sum of the dot product of
/// `a` and `b` stays inside the `i64` range, so the reduction can be
/// computed exactly with machine arithmetic.
pub open spec fn dot_fits(a: Seq<i64>, b: Seq<i64>) -> bool {
    &&& forall|k: int|
        0 <= k < a.len() ==> i64::MIN <= #[trigger] (a[k] * b[k]) <= i64::MAX
    &&& forall|k: int|
        0 <= k <= a.len() ==> i64::MIN <= #[trigger] dot_prefix(a, b, k) <= i64::MAX
}

/// An owned sequence of numeric elements, extracted from a matrix row or
/// column so it can cross into a worker as independent data.
#[derive(Debug)]
pub struct Vector {
    data: Vec<i64>,
}

impl View for Vector {
    type V = Seq<i64>;

    closed spec fn view(&self) -> Seq<i64> {
        self.data@
    }
}

impl Clone for Vector {
    fn clone(&self) -> (r: Self)
        ensures
            r@ == self@,
    {
        Vector { data: self.data.clone() }
    }
}

impl Vector {
    /// Wraps the supplied elements.
    pub fn new(data: Vec<i64>) -> (r: Self)
        ensures
            r@ == data@,
    {
        Vector { data }
    }

    /// The number of elements.
    pub fn len(&self) -> (n: usize)
        ensures
            n == self@.len(),
    {
        self.data.len()
    }

    /// The element at position `i`.
    pub fn get(&self, i: usize) -> (v: i64)
        requires
            i < self@.len(),
        ensures
            v == self@[i as int],
    {
        self.data[i]
    }
}

/// The sequential reduction at the heart of every task: the sum of
/// elementwise products of `a` and `b`, accumulated in index order from
/// the additive identity. Rejects operands of different lengths before
/// touching any element.
pub fn dot_product(a: Vector, b: Vector) -> (r: Result<i64, Error>)
    requires
        a@.len() == b@.len() ==> dot_fits(a@, b@),
    ensures
        match r {
            Ok(v) => a@.len() == b@.len() && v == dot_spec(a@, b@),
            Err(e) => a@.len() != b@.len() && e == Error::DimensionMismatch,
        },
{
    if a.data.len() != b.data.len() {
        return Err(Error::DimensionMismatch);
    }
    let n = a.data.len();
    let mut sum: i64 = 0;
    let mut i: usize = 0;
    while i < n
        invariant
            n == a@.len(),
            n == b@.len(),
            dot_fits(a@, b@),
            i <= n,
            sum == dot_prefix(a@, b@, i as int),
        decreases n - i,
    {
        let p = a.data[i] * b.data[i];
        proof {
            assert(dot_prefix(a@, b@, i + 1) == dot_prefix(a@, b@, i as int) + a@[i as int] * b@[i as int]);
        }
        sum = sum + p;
        i = i + 1;
    }
    Ok(sum)
}

} // verus!
