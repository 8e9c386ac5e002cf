use vstd::prelude::*;
use vstd::arithmetic::mul::{lemma_mul_inequality, lemma_mul_is_distributive_add_other_way};

verus! {

/// An embedding vector: an ordered sequence of fixed-point integer
/// components. Every vector stored in one collection has the same length,
/// the collection's dimension.
pub struct Vector(pub Vec<i32>);

impl View for Vector {
    type V = Seq<i32>;

    open spec fn view(&self) -> Seq<i32> {
        self.0@
    }
}

impl Clone for Vector {
    fn clone(&self) -> (r: Self)
        ensures
            r@ == self@,
    {
        let components = self.0.clone();
        proof {
            assert forall|i: int| 0 <= i < self.0@.len() implies components@[i] == self.0@[i] by {
                assert(vstd::pervasive::cloned::<i32>(self.0[i], components[i]));
            }
            assert(components@ =~= self.0@);
        }
        Vector(components)
    }
}

/// The square of an integer.
pub open spec fn sq(x: int) -> int {
    x * x
}

/// The sum of squared component differences over the first `n` positions.
pub open spec fn dist2_prefix(a: Seq<i32>, b: Seq<i32>, n: int) -> int
    decreases n,
{
    if n <= 0 {
        0
    } else {
        dist2_prefix(a, b, n - 1) + sq(a[n - 1] - b[n - 1])
    }
}

/// The exact squared Euclidean distance between two vectors of equal
/// length. The Euclidean distance is its square root; since the square
/// root is monotonic, ordering by this value orders by Euclidean distance.
pub open spec fn dist2(a: Seq<i32>, b: Seq<i32>) -> int {
    dist2_prefix(a, b, a.len() as int)
}

proof fn lemma_sq_nonneg(x: int)
    ensures
        sq(x) >= 0,
{
    assert(x * x >= 0) by (nonlinear_arith);
}

/// An upper bound on one squared component difference: components are
/// 32-bit, so a difference is below 2^32 in magnitude and its square is
/// at most (2^32 - 1)^2.
proof fn lemma_sq_diff_bound(x: i32, y: i32)
    ensures
        0 <= sq(x - y) <= 0xFFFF_FFFE_0000_0001,
{
    let d = x - y;
    assert(-0xFFFF_FFFF <= d <= 0xFFFF_FFFF);
    assert(d * d <= 0xFFFF_FFFE_0000_0001) by (nonlinear_arith)
        requires
            -0xFFFF_FFFF <= d <= 0xFFFF_FFFF,
    ;
    assert(d * d >= 0) by (nonlinear_arith);
}

proof fn lemma_dist2_prefix_bound(a: Seq<i32>, b: Seq<i32>, n: int)
    requires
        0 <= n <= a.len(),
        n <= b.len(),
    ensures
        0 <= dist2_prefix(a, b, n) <= n * 0xFFFF_FFFE_0000_0001,
    decreases n,
{
    if n > 0 {
        lemma_dist2_prefix_bound(a, b, n - 1);
        lemma_sq_diff_bound(a[n - 1], b[n - 1]);
        lemma_mul_is_distributive_add_other_way(0xFFFF_FFFE_0000_0001, n - 1, 1);
    }
}

/// Squared distances are never negative.
pub proof fn lemma_dist2_nonneg(a: Seq<i32>, b: Seq<i32>)
    requires
        a.len() == b.len(),
    ensures
        dist2(a, b) >= 0,
{
    lemma_dist2_prefix_bound(a, b, a.len() as int);
}

/// A vector is at squared distance zero from itself: a record found by a
/// query equal to its own vector is reported with distance zero.
pub proof fn lemma_dist2_self_zero(a: Seq<i32>)
    ensures
        dist2(a, a) == 0,
{
    lemma_dist2_prefix_self_zero(a, a.len() as int);
}

proof fn lemma_dist2_prefix_self_zero(a: Seq<i32>, n: int)
    requires
        n <= a.len(),
    ensures
        dist2_prefix(a, a, n) == 0,
    decreases n,
{
    if n > 0 {
        lemma_dist2_prefix_self_zero(a, n - 1);
    }
}

/// Compute the exact squared Euclidean distance between two vectors of
/// equal length.
pub fn distance2(a: &Vector, b: &Vector) -> (r: u128)
    requires
        a@.len() == b@.len(),
    ensures
        r as int == dist2(a@, b@),
{
    let n = a.0.len();
    let mut acc: u128 = 0;
    let mut i: usize = 0;
    while i < n
        invariant
            i <= n,
            n == a@.len(),
            a@.len() == b@.len(),
            acc as int == dist2_prefix(a@, b@, i as int),
        decreases n - i,
    {
        let ai = a.0[i] as i64;
        let bi = b.0[i] as i64;
        let d = ai - bi;
        proof {
            lemma_sq_diff_bound(a@[i as int], b@[i as int]);
            lemma_dist2_prefix_bound(a@, b@, i as int);
            lemma_dist2_prefix_bound(a@, b@, i + 1);
            lemma_mul_inequality(i + 1, 0xFFFF_FFFF_FFFF_FFFF, 0xFFFF_FFFE_0000_0001);
            assert(0xFFFF_FFFF_FFFF_FFFF * 0xFFFF_FFFE_0000_0001 < 0x1_0000_0000_0000_0000_0000_0000_0000_0000) by (nonlinear_arith);
        }
        let s = (d as i128) * (d as i128);
        acc = acc + (s as u128);
        i = i + 1;
    }
    acc
}

} // verus!
