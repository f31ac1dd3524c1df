//! The mean-squared-error loss: a scalar loss and its per-output gradient,
//! both pinned exactly over the fixed-point representation.

use crate::fixed::{
    all_fit, fits, lemma_tdiv_bounded, lemma_tdiv_denominator, lemma_tdiv_range, sv, tdiv,
    tdiv_i128, MAXV, SCALE,
};
use crate::NetworkError;
use vstd::prelude::*;

verus! {

/// Sum of squared differences over the first `n` entries.
pub open spec fn sq_err_sum(o: Seq<int>, t: Seq<int>, n: int) -> int
    decreases n,
{
    if n <= 0 {
        0
    } else {
        sq_err_sum(o, t, n - 1) + (o[n - 1] - t[n - 1]) * (o[n - 1] - t[n - 1])
    }
}

/// The fixed-point mean squared error: the squared differences carry a
/// factor `SCALE * SCALE`, so dividing by `SCALE * n` averages them and
/// brings the result back to one factor of `SCALE`.
pub open spec fn mse_spec(o: Seq<int>, t: Seq<int>) -> int {
    tdiv(sq_err_sum(o, t, o.len() as int), SCALE as int * o.len() as int)
}

/// Gradient of the averaged loss with respect to each output component:
/// `2 * (o[i] - t[i]) / n`.
pub open spec fn mse_deriv_spec(o: Seq<int>, t: Seq<int>) -> Seq<int> {
    Seq::new(o.len(), |i: int| tdiv(2 * (o[i] - t[i]), o.len() as int))
}

/// The loss stays in the working range exactly when the total squared error
/// is at most `MAXV * SCALE`.
pub open spec fn loss_in_range(o: Seq<int>, t: Seq<int>) -> bool {
    sq_err_sum(o, t, o.len() as int) <= MAXV as int * SCALE as int
}

/// Every gradient entry stays in the working range.
pub open spec fn deriv_in_range(o: Seq<int>, t: Seq<int>) -> bool {
    forall|i: int| 0 <= i < o.len() ==> fits(#[trigger] mse_deriv_spec(o, t)[i])
}

/// The partial sums of squared errors grow monotonically.
proof fn lemma_sq_err_sum_monotone(o: Seq<int>, t: Seq<int>, i: int, n: int)
    requires
        0 <= i <= n,
    ensures
        sq_err_sum(o, t, i) <= sq_err_sum(o, t, n),
    decreases n - i,
{
    if i < n {
        assert((o[n - 1] - t[n - 1]) * (o[n - 1] - t[n - 1]) >= 0) by (nonlinear_arith);
        lemma_sq_err_sum_monotone(o, t, i, n - 1);
    }
}

/// The mean squared error of a vector against itself is zero: the loss of a
/// perfect prediction vanishes.
pub proof fn lemma_mse_self_is_zero(v: Seq<int>)
    requires
        v.len() > 0,
    ensures
        mse_spec(v, v) == 0,
{
    lemma_zero_sq_err(v, v.len() as int);
    assert(SCALE as int * v.len() as int >= 1) by (nonlinear_arith)
        requires v.len() >= 1;
    lemma_tdiv_range(0, SCALE as int * v.len() as int);
}

proof fn lemma_zero_sq_err(v: Seq<int>, n: int)
    ensures
        sq_err_sum(v, v, n) == 0,
    decreases n,
{
    if n > 0 {
        lemma_zero_sq_err(v, n - 1);
    }
}

/// The mean-squared-error loss function.
#[derive(Clone, Copy, Debug, PartialEq, Eq, Structural)]
pub struct MeanSquaredError;

impl MeanSquaredError {
    /// The averaged squared error between `output` and `target`.
    ///
    /// Succeeds exactly on equal-length, non-empty, in-range vectors whose
    /// total squared error keeps the loss in the working range.
    pub fn calculate_loss(&self, output: &Vec<i64>, target: &Vec<i64>) -> (r: Result<
        i64,
        NetworkError,
    >)
        ensures
            r is Ok <==> output@.len() == target@.len() && output@.len() > 0 && all_fit(
                sv(output@),
            ) && all_fit(sv(target@)) && loss_in_range(sv(output@), sv(target@)),
            r matches Ok(v) ==> v as int == mse_spec(sv(output@), sv(target@)) && 0 <= v
                <= MAXV,
            r == Err::<i64, NetworkError>(NetworkError::DimensionMismatch) <==> (
            output@.len() != target@.len() || output@.len() == 0),
            r == Err::<i64, NetworkError>(NetworkError::NumericalError) <==> (
            output@.len() == target@.len() && output@.len() > 0 && !(all_fit(sv(output@))
                && all_fit(sv(target@)) && loss_in_range(sv(output@), sv(target@)))),
    {
        let n = output.len();
        if n != target.len() || n == 0 {
            return Err(NetworkError::DimensionMismatch);
        }
        let ghost so = sv(output@);
        let ghost st = sv(target@);
        let mut acc: i128 = 0;
        let mut i: usize = 0;
        while i < n
            invariant
                0 <= i <= n,
                n == output@.len(),
                n == target@.len(),
                so == sv(output@),
                st == sv(target@),
                acc == sq_err_sum(sv(output@), sv(target@), i as int),
                0 <= acc <= MAXV as int * SCALE as int,
                forall|j: int| 0 <= j < i ==> fits(#[trigger] sv(output@)[j]),
                forall|j: int| 0 <= j < i ==> fits(#[trigger] sv(target@)[j]),
            decreases n - i,
        {
            proof {
                assert(sv(output@)[i as int] == output@[i as int] as int);
                assert(sv(target@)[i as int] == target@[i as int] as int);
            }
            let oi = output[i];
            let ti = target[i];
            if oi < -MAXV || oi > MAXV || ti < -MAXV || ti > MAXV {
                return Err(NetworkError::NumericalError);
            }
            let d: i64 = oi - ti;
            proof {
                assert(0 <= d as int * d as int <= 16_000_000_000_000_000_000_000_000_000_000)
                    by (nonlinear_arith)
                    requires -4_000_000_000_000_000 <= d as int <= 4_000_000_000_000_000;
            }
            let term: i128 = (d as i128) * (d as i128);
            let acc2: i128 = acc + term;
            proof {
                assert(d as int == so[i as int] - st[i as int]);
                assert(term == (so[i as int] - st[i as int]) * (so[i as int]
                    - st[i as int]));
                assert(acc2 == sq_err_sum(so, st, i as int + 1));
            }
            if acc2 > (MAXV as i128) * (SCALE as i128) {
                proof {
                    lemma_sq_err_sum_monotone(so, st, i as int + 1, n as int);
                }
                return Err(NetworkError::NumericalError);
            }
            acc = acc2;
            i = i + 1;
        }
        let q1: i128 = tdiv_i128(acc, SCALE as u64);
        proof {
            lemma_tdiv_bounded(acc as int, SCALE as int, MAXV as int);
            lemma_tdiv_range(tdiv(acc as int, SCALE as int), n as int);
            lemma_tdiv_denominator(acc as int, SCALE as int, n as int);
        }
        let q2: i128 = tdiv_i128(q1, n as u64);
        Ok(q2 as i64)
    }

    /// The gradient of the averaged loss: `2 * (output[i] - target[i]) / n`
    /// for each component.
    ///
    /// Succeeds exactly on equal-length, non-empty, in-range vectors whose
    /// every gradient entry stays in the working range.
    pub fn calculate_loss_derivative(&self, output: &Vec<i64>, target: &Vec<i64>) -> (r:
        Result<Vec<i64>, NetworkError>)
        ensures
            r is Ok <==> output@.len() == target@.len() && output@.len() > 0 && all_fit(
                sv(output@),
            ) && all_fit(sv(target@)) && deriv_in_range(sv(output@), sv(target@)),
            r matches Ok(v) ==> sv(v@) == mse_deriv_spec(sv(output@), sv(target@))
                && all_fit(sv(v@)) && v@.len() == output@.len(),
            r == Err::<Vec<i64>, NetworkError>(NetworkError::DimensionMismatch) <==> (
            output@.len() != target@.len() || output@.len() == 0),
            r == Err::<Vec<i64>, NetworkError>(NetworkError::NumericalError) <==> (
            output@.len() == target@.len() && output@.len() > 0 && !(all_fit(sv(output@))
                && all_fit(sv(target@)) && deriv_in_range(sv(output@), sv(target@)))),
    {
        let n = output.len();
        if n != target.len() || n == 0 {
            return Err(NetworkError::DimensionMismatch);
        }
        let ghost so = sv(output@);
        let ghost st = sv(target@);
        let mut r: Vec<i64> = Vec::new();
        let mut i: usize = 0;
        while i < n
            invariant
                0 <= i <= n,
                n == output@.len(),
                n == target@.len(),
                so == sv(output@),
                st == sv(target@),
                r@.len() == i,
                forall|j: int|
                    0 <= j < i ==> #[trigger] r@[j] as int == mse_deriv_spec(
                        sv(output@),
                        sv(target@),
                    )[j],
                forall|j: int| 0 <= j < i ==> fits(#[trigger] r@[j] as int),
                forall|j: int| 0 <= j < i ==> fits(#[trigger] sv(output@)[j]),
                forall|j: int| 0 <= j < i ==> fits(#[trigger] sv(target@)[j]),
            decreases n - i,
        {
            proof {
                assert(sv(output@)[i as int] == output@[i as int] as int);
                assert(sv(target@)[i as int] == target@[i as int] as int);
            }
            let oi = output[i];
            let ti = target[i];
            if oi < -MAXV || oi > MAXV || ti < -MAXV || ti > MAXV {
                return Err(NetworkError::NumericalError);
            }
            let num: i64 = 2 * (oi - ti);
            let dv: i128 = tdiv_i128(num as i128, n as u64);
            proof {
                lemma_tdiv_range(num as int, n as int);
                assert(mse_deriv_spec(so, st)[i as int] == dv as int);
            }
            if dv < -(MAXV as i128) || dv > (MAXV as i128) {
                return Err(NetworkError::NumericalError);
            }
            r.push(dv as i64);
            proof {
                assert(r@[i as int] == dv as i64);
            }
            i = i + 1;
        }
        proof {
            assert(sv(r@) =~= mse_deriv_spec(so, st));
        }
        Ok(r)
    }
}

} // verus!
