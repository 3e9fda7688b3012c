//! The integer part of curve geometry: the binomial weights of a Bernstein-basis curve.
use vstd::prelude::*;

verus! {

/// The binomial coefficient `n` choose `k`, by Pascal's rule.
pub open spec fn binomial(n: nat, k: nat) -> nat
    decreases n,
{
    if k == 0 {
        1
    } else if n == 0 {
        0
    } else {
        binomial((n - 1) as nat, (k - 1) as nat) + binomial((n - 1) as nat, k)
    }
}

/// The weights at both ends of a Bezier curve are 1, so that at parameter 0 and 1 the curve
/// stands at its first and last control point.
pub proof fn lemma_end_weights(n: nat)
    ensures
        binomial(n, 0) == 1,
        binomial(n, n) == 1,
    decreases n,
{
    if n > 0 {
        lemma_end_weights((n - 1) as nat);
        lemma_above_degree((n - 1) as nat, n);
    }
}

/// A weight past the degree is zero.
pub proof fn lemma_above_degree(n: nat, k: nat)
    requires
        k > n,
    ensures
        binomial(n, k) == 0,
    decreases n,
{
    if n > 0 {
        lemma_above_degree((n - 1) as nat, (k - 1) as nat);
        lemma_above_degree((n - 1) as nat, k);
    }
}

/// The largest degree whose weights all fit in 64 bits.
pub const MAX_BEZIER_DEGREE: usize = 67;

/// Relies on `num_integer::binomial`: the binomial coefficient `n` choose `k` (zero when
/// `k > n`); its documentation gives 67 as the largest `n` for which no `u64` result
/// overflows.
#[verifier::external_body]
fn binomial_u64(n: u64, k: u64) -> (r: u64)
    requires
        n <= 67,
    ensures
        r == binomial(n as nat, k as nat),
{
    num_integer::binomial(n, k)
}

/// The weights `degree choose i`, for `i` in `0..=degree`, of a Bezier curve of the given
/// degree; `None` when the degree is above `MAX_BEZIER_DEGREE`.
pub fn bezier_weights(degree: usize) -> (r: Option<Vec<u64>>)
    ensures
        r is Some <==> degree <= MAX_BEZIER_DEGREE,
        r matches Some(w) ==> w@.len() == degree + 1 && forall|i: int|
            0 <= i <= degree ==> #[trigger] w@[i] == binomial(degree as nat, i as nat),
{
    if degree > MAX_BEZIER_DEGREE {
        return None;
    }
    let mut w: Vec<u64> = Vec::new();
    let mut i: usize = 0;
    while i <= degree
        invariant
            degree <= 67,
            i <= degree + 1,
            w@.len() == i,
            forall|k: int| 0 <= k < i ==> #[trigger] w@[k] == binomial(degree as nat, k as nat),
        decreases degree + 1 - i,
    {
        w.push(binomial_u64(degree as u64, i as u64));
        i += 1;
    }
    Some(w)
}

} // verus!
