//! Stochastic gradient descent: the rule that turns a gradient into an
//! in-place parameter update, `p[i] -= learning_rate * g[i]`.

use crate::fixed::{all_fit, fits, sv, tdiv, tdiv_i128, MAXV, SCALE};
use crate::NetworkError;
use vstd::prelude::*;

verus! {

/// The parameters after one gradient step at learning rate `lr`.
pub open spec fn sgd_step_spec(lr: int, p: Seq<int>, g: Seq<int>) -> Seq<int> {
    Seq::new(p.len(), |i: int| p[i] - tdiv(lr * g[i], SCALE as int))
}

/// Every updated parameter stays in the working range.
pub open spec fn sgd_step_in_range(lr: int, p: Seq<int>, g: Seq<int>) -> bool {
    forall|i: int| 0 <= i < p.len() ==> fits(#[trigger] sgd_step_spec(lr, p, g)[i])
}

/// Stochastic gradient descent with a fixed positive learning rate.
#[derive(Clone, Copy, Debug, PartialEq, Eq, Structural)]
pub struct SGD {
    pub learning_rate: i64,
}

impl SGD {
    pub open spec fn wf(self) -> bool {
        0 < self.learning_rate
    }

    /// A new optimizer; rejects a non-positive learning rate.
    pub fn new(learning_rate: i64) -> (r: Result<SGD, NetworkError>)
        ensures
            learning_rate > 0 ==> r == Ok::<SGD, NetworkError>(SGD { learning_rate }),
            learning_rate <= 0 ==> r == Err::<SGD, NetworkError>(
                NetworkError::ConfigurationError,
            ),
            r matches Ok(o) ==> o.wf(),
    {
        if learning_rate <= 0 {
            Err(NetworkError::ConfigurationError)
        } else {
            Ok(SGD { learning_rate })
        }
    }

    /// The parameters after one step, computed without touching the inputs;
    /// an empty pair of vectors is a no-op.
    pub fn step_row(&self, parameters: &Vec<i64>, gradients: &Vec<i64>) -> (r: Result<
        Vec<i64>,
        NetworkError,
    >)
        ensures
            r is Ok <==> parameters@.len() == gradients@.len() && sgd_step_in_range(
                self.learning_rate as int,
                sv(parameters@),
                sv(gradients@),
            ),
            r matches Ok(v) ==> sv(v@) == sgd_step_spec(
                self.learning_rate as int,
                sv(parameters@),
                sv(gradients@),
            ) && all_fit(sv(v@)) && v@.len() == parameters@.len(),
            r == Err::<Vec<i64>, NetworkError>(NetworkError::DimensionMismatch) <==>
                parameters@.len() != gradients@.len(),
            r == Err::<Vec<i64>, NetworkError>(NetworkError::NumericalError) <==> (
            parameters@.len() == gradients@.len() && !sgd_step_in_range(
                self.learning_rate as int,
                sv(parameters@),
                sv(gradients@),
            )),
    {
        let n = parameters.len();
        if n != gradients.len() {
            return Err(NetworkError::DimensionMismatch);
        }
        let ghost ps = sv(parameters@);
        let ghost gs = sv(gradients@);
        let mut r: Vec<i64> = Vec::new();
        let mut i: usize = 0;
        while i < n
            invariant
                0 <= i <= n,
                n == parameters@.len(),
                n == gradients@.len(),
                ps == sv(parameters@),
                gs == sv(gradients@),
                r@.len() == i,
                forall|j: int|
                    0 <= j < i ==> #[trigger] r@[j] as int == sgd_step_spec(
                        self.learning_rate as int,
                        ps,
                        gs,
                    )[j],
                forall|j: int| 0 <= j < i ==> fits(#[trigger] r@[j] as int),
            decreases n - i,
        {
            proof {
                assert(ps[i as int] == parameters@[i as int] as int);
                assert(gs[i as int] == gradients@[i as int] as int);
            }
            let pi = parameters[i];
            let gi = gradients[i];
            proof {
                assert(
                    -0x40000000000000000000000000000000
                        <= self.learning_rate as int * gi as int
                        <= 0x40000000000000000000000000000000
                ) by (nonlinear_arith)
                    requires
                        -0x8000000000000000 <= self.learning_rate as int
                            <= 0x7fffffffffffffff,
                        -0x8000000000000000 <= gi as int <= 0x7fffffffffffffff,
                ;
            }
            let scaled: i128 = tdiv_i128(
                (self.learning_rate as i128) * (gi as i128),
                SCALE as u64,
            );
            let updated: i128 = (pi as i128) - scaled;
            proof {
                assert(sgd_step_spec(self.learning_rate as int, ps, gs)[i as int]
                    == updated as int);
            }
            if updated < -(MAXV as i128) || updated > (MAXV as i128) {
                return Err(NetworkError::NumericalError);
            }
            r.push(updated as i64);
            proof {
                assert(r@[i as int] as int == updated as int);
            }
            i = i + 1;
        }
        proof {
            assert(sv(r@) =~= sgd_step_spec(self.learning_rate as int, ps, gs));
        }
        Ok(r)
    }

    /// One in-place gradient step.  Either every parameter is updated, or
    /// none is: on any error the parameter vector is left unchanged.
    pub fn update(&self, parameters: &mut Vec<i64>, gradients: &Vec<i64>) -> (r: Result<
        (),
        NetworkError,
    >)
        ensures
            r is Ok <==> old(parameters)@.len() == gradients@.len() && sgd_step_in_range(
                self.learning_rate as int,
                sv(old(parameters)@),
                sv(gradients@),
            ),
            r is Ok ==> sv(final(parameters)@) == sgd_step_spec(
                self.learning_rate as int,
                sv(old(parameters)@),
                sv(gradients@),
            ) && all_fit(sv(final(parameters)@)),
            r is Err ==> final(parameters)@ == old(parameters)@,
            r == Err::<(), NetworkError>(NetworkError::DimensionMismatch) <==> old(
                parameters,
            )@.len() != gradients@.len(),
            r == Err::<(), NetworkError>(NetworkError::NumericalError) <==> (old(
                parameters,
            )@.len() == gradients@.len() && !sgd_step_in_range(
                self.learning_rate as int,
                sv(old(parameters)@),
                sv(gradients@),
            )),
    {
        match self.step_row(parameters, gradients) {
            Ok(v) => {
                *parameters = v;
                Ok(())
            },
            Err(e) => Err(e),
        }
    }
}

} // verus!
