//! Layers: the shape invariants of one network stage, its forward transform
//! `output = activation(W * input + b)`, and its backward (chain-rule) step,
//! which yields the weight gradient, the bias gradient, and the gradient
//! handed to the preceding layer.

use crate::activation_functions::{
    act_bwd, act_domain, act_forward_spec, activation_backward, activation_forward,
    ActivationFunction,
};
use crate::fixed::{
    all_fit, dot, fits, lemma_tdiv_bounded, lemma_tdiv_range, sm, sv, tdiv, tdiv_i128, MAXV,
    MAX_DIM, SCALE,
};
use crate::NetworkError;
use vstd::prelude::*;

verus! {

/// The kinds of layer the engine enumerates.  Input, FullyConnected and
/// Output are implemented; the others are declared as extension points.
#[derive(Clone, Copy, Debug, PartialEq, Eq, Structural)]
pub enum LayerType {
    FullyConnected,
    Convolutional,
    Pooling,
    Activation,
    Dropout,
    Input,
    Output,
}

/// One stage of a network: a neuron count, a weight matrix of shape
/// `(size, previous size)` with a bias vector (absent on the Input layer),
/// and an optional activation.
#[derive(Debug)]
pub struct Layer {
    pub layer_type: LayerType,
    pub size: usize,
    pub weights: Vec<Vec<i64>>,
    pub biases: Vec<i64>,
    pub activation_function: Option<ActivationFunction>,
}

impl Layer {
    /// A layer as the builder appends it, before any parameter exists.
    pub open spec fn bare(self) -> bool {
        &&& 0 < self.size <= MAX_DIM
        &&& self.weights@.len() == 0
        &&& self.biases@.len() == 0
        &&& (self.layer_type == LayerType::Input ==> self.activation_function is None)
    }

    /// A finalized layer whose predecessor has `prev` neurons: the weight
    /// matrix has shape `(size, prev)`, the bias vector has length `size`,
    /// and every parameter is in the working range.
    pub open spec fn shaped(self, prev: int) -> bool {
        &&& 0 < self.size <= MAX_DIM
        &&& if self.layer_type == LayerType::Input {
            self.weights@.len() == 0 && self.biases@.len() == 0
                && self.activation_function is None
        } else {
            &&& self.weights@.len() == self.size
            &&& forall|i: int|
                0 <= i < self.size ==> (#[trigger] self.weights@[i])@.len() == prev
            &&& forall|i: int|
                0 <= i < self.size ==> all_fit(sv(#[trigger] self.weights@[i]@))
            &&& self.biases@.len() == self.size
            &&& all_fit(sv(self.biases@))
        }
    }
}

/// The pre-activation value of one neuron: the scaled dot product of its
/// weight row with the input, plus its bias.
pub open spec fn row_pre_spec(w: Seq<int>, x: Seq<int>, b: int) -> int {
    tdiv(dot(w, x, x.len() as int), SCALE as int) + b
}

/// All pre-activation values of a non-Input layer.
pub open spec fn layer_pre_spec(l: Layer, x: Seq<int>) -> Seq<int> {
    Seq::new(
        l.size as nat,
        |i: int| row_pre_spec(sv(l.weights@[i]@), x, l.biases@[i] as int),
    )
}

/// A layer's forward pass stays in the working range exactly when every
/// pre-activation value does (the Input layer computes nothing).
pub open spec fn layer_fits(l: Layer, x: Seq<int>) -> bool {
    l.layer_type == LayerType::Input || all_fit(layer_pre_spec(l, x))
}

/// A layer's output: the input itself for the Input layer, otherwise the
/// pre-activation values, activated if an activation is set.
pub open spec fn layer_out_spec(l: Layer, x: Seq<int>) -> Seq<int> {
    if l.layer_type == LayerType::Input {
        x
    } else {
        match l.activation_function {
            Some(k) => act_forward_spec(k, layer_pre_spec(l, x)),
            None => layer_pre_spec(l, x),
        }
    }
}

/// What a layer's outputs are known to satisfy, and what its backward step
/// accepts.
pub open spec fn out_domain(l: Layer, y: int) -> bool {
    match l.activation_function {
        Some(k) => act_domain(k, y),
        None => fits(y),
    }
}

/// The error signal of a layer: the elementwise product of the activation's
/// derivative at the cached outputs with the incoming gradient.
pub open spec fn delta_spec(l: Layer, y: Seq<int>, g: Seq<int>) -> Seq<int> {
    match l.activation_function {
        Some(k) => Seq::new(g.len(), |i: int| tdiv(act_bwd(k, y[i]) * g[i], SCALE as int)),
        None => g,
    }
}

/// The weight gradient: the outer product of the error signal with the
/// cached input.
pub open spec fn wgrad_spec(d: Seq<int>, x: Seq<int>) -> Seq<Seq<int>> {
    Seq::new(d.len(), |i: int| Seq::new(x.len(), |j: int| tdiv(d[i] * x[j], SCALE as int)))
}

/// Dot product of the error signal with column `j` of the weight matrix,
/// over the first `n` rows.
pub open spec fn col_dot(w: Seq<Seq<int>>, d: Seq<int>, j: int, n: int) -> int
    decreases n,
{
    if n <= 0 {
        0
    } else {
        col_dot(w, d, j, n - 1) + d[n - 1] * w[n - 1][j]
    }
}

/// The gradient handed to the preceding layer: for each of its `cols`
/// neurons, the scaled dot product of the error signal with the matching
/// weight column.
pub open spec fn grad_in_spec(l: Layer, d: Seq<int>, cols: int) -> Seq<int> {
    Seq::new(
        cols as nat,
        |j: int| tdiv(col_dot(sm(l.weights@), d, j, l.size as int), SCALE as int),
    )
}

/// Every weight-gradient entry stays in the working range.
pub open spec fn wgrad_in_range(d: Seq<int>, x: Seq<int>) -> bool {
    forall|i: int, j: int|
        0 <= i < d.len() && 0 <= j < x.len() ==> fits(#[trigger] wgrad_spec(d, x)[i][j])
}

/// Every entry of the gradient handed backward stays in the working range.
pub open spec fn grad_in_in_range(l: Layer, d: Seq<int>, cols: int) -> bool {
    forall|j: int| 0 <= j < cols ==> fits(#[trigger] grad_in_spec(l, d, cols)[j])
}

/// A copy of a vector, element by element.
pub(crate) fn copy_vec(x: &Vec<i64>) -> (r: Vec<i64>)
    ensures
        r@ == x@,
{
    let mut r: Vec<i64> = Vec::new();
    let mut i: usize = 0;
    let n = x.len();
    while i < n
        invariant
            0 <= i <= n,
            n == x@.len(),
            r@ == x@.subrange(0, i as int),
        decreases n - i,
    {
        r.push(x[i]);
        proof {
            assert(r@ =~= x@.subrange(0, i as int + 1));
        }
        i = i + 1;
    }
    proof {
        assert(r@ =~= x@);
    }
    r
}

/// One neuron's pre-activation value, or `NumericalError` exactly when it
/// leaves the working range.
fn row_pre(w: &Vec<i64>, x: &Vec<i64>, b: i64) -> (r: Result<i64, NetworkError>)
    requires
        w@.len() == x@.len(),
        x@.len() <= MAX_DIM,
        all_fit(sv(w@)),
        all_fit(sv(x@)),
        fits(b as int),
    ensures
        r is Ok <==> fits(row_pre_spec(sv(w@), sv(x@), b as int)),
        r matches Ok(v) ==> v as int == row_pre_spec(sv(w@), sv(x@), b as int),
        r is Err ==> r == Err::<i64, NetworkError>(NetworkError::NumericalError),
{
    let n = x.len();
    let ghost m2: int = MAXV as int * MAXV as int;
    let mut acc: i128 = 0;
    let mut j: usize = 0;
    while j < n
        invariant
            0 <= j <= n,
            n == x@.len(),
            w@.len() == n,
            n <= MAX_DIM,
            all_fit(sv(w@)),
            all_fit(sv(x@)),
            m2 == MAXV as int * MAXV as int,
            acc == dot(sv(w@), sv(x@), j as int),
            -(j as int * m2) <= acc <= j as int * m2,
        decreases n - j,
    {
        proof {
            assert(sv(w@)[j as int] == w@[j as int] as int);
            assert(sv(x@)[j as int] == x@[j as int] as int);
            assert(
                -(MAXV as int * MAXV as int) <= w@[j as int] as int * x@[j as int] as int
                    <= MAXV as int * MAXV as int
            ) by (nonlinear_arith)
                requires
                    fits(w@[j as int] as int),
                    fits(x@[j as int] as int),
            ;
            assert(
                0 <= j as int * m2 <= 65535 * m2 && (j as int + 1) * m2 == j as int * m2
                    + m2
            ) by (nonlinear_arith)
                requires
                    0 <= j as int <= 65535 && m2 == MAXV as int * MAXV as int,
            ;
        }
        let t: i128 = (w[j] as i128) * (x[j] as i128);
        acc = acc + t;
        j = j + 1;
    }
    proof {
        assert(j as int * m2 <= 0x40000000000000000000000000000000) by (nonlinear_arith)
            requires 0 <= j as int <= 65536 && m2 == MAXV as int * MAXV as int;
        lemma_tdiv_range(acc as int, SCALE as int);
    }
    let q: i128 = tdiv_i128(acc, SCALE as u64);
    let pre: i128 = q + (b as i128);
    if pre < -(MAXV as i128) || pre > (MAXV as i128) {
        Err(NetworkError::NumericalError)
    } else {
        Ok(pre as i64)
    }
}

/// A layer's forward pass: `activation(W * x + b)`, the identity for the
/// Input layer.  Fails with `NumericalError` exactly when some neuron's
/// pre-activation value leaves the working range.
pub fn layer_forward(l: &Layer, x: &Vec<i64>) -> (r: Result<Vec<i64>, NetworkError>)
    requires
        l.shaped(x@.len() as int),
        l.layer_type == LayerType::Input ==> x@.len() == l.size,
        all_fit(sv(x@)),
        x@.len() <= MAX_DIM,
    ensures
        r is Ok <==> layer_fits(*l, sv(x@)),
        r matches Ok(v) ==> sv(v@) == layer_out_spec(*l, sv(x@)) && v@.len() == l.size
            && all_fit(sv(v@)) && forall|i: int|
            0 <= i < v@.len() ==> out_domain(*l, #[trigger] sv(v@)[i]),
        r is Err ==> r == Err::<Vec<i64>, NetworkError>(NetworkError::NumericalError),
{
    if l.layer_type == LayerType::Input {
        let v = copy_vec(x);
        return Ok(v);
    }
    let n = l.size;
    let ghost xs = sv(x@);
    let mut pres: Vec<i64> = Vec::new();
    let mut i: usize = 0;
    while i < n
        invariant
            0 <= i <= n,
            n == l.size,
            l.shaped(x@.len() as int),
            l.layer_type != LayerType::Input,
            xs == sv(x@),
            all_fit(sv(x@)),
            x@.len() <= MAX_DIM,
            pres@.len() == i,
            forall|i2: int|
                0 <= i2 < i ==> #[trigger] pres@[i2] as int == layer_pre_spec(*l, xs)[i2],
            forall|i2: int| 0 <= i2 < i ==> fits(#[trigger] pres@[i2] as int),
        decreases n - i,
    {
        proof {
            assert(all_fit(sv(l.weights@[i as int]@)));
            assert(sv(l.biases@)[i as int] == l.biases@[i as int] as int);
        }
        let row = &l.weights[i];
        let b = l.biases[i];
        let p = row_pre(row, x, b);
        match p {
            Ok(v) => {
                pres.push(v);
                proof {
                    assert(pres@[i as int] == v);
                    assert(layer_pre_spec(*l, xs)[i as int] == row_pre_spec(
                        sv(l.weights@[i as int]@),
                        xs,
                        l.biases@[i as int] as int,
                    ));
                }
            },
            Err(_) => {
                proof {
                    assert(layer_pre_spec(*l, xs)[i as int] == row_pre_spec(
                        sv(l.weights@[i as int]@),
                        xs,
                        l.biases@[i as int] as int,
                    ));
                    assert(!fits(layer_pre_spec(*l, xs)[i as int]));
                }
                return Err(NetworkError::NumericalError);
            },
        }
        i = i + 1;
    }
    proof {
        assert(sv(pres@) =~= layer_pre_spec(*l, xs));
    }
    match l.activation_function {
        Some(k) => {
            let out = activation_forward(k, &pres);
            Ok(out)
        },
        None => Ok(pres),
    }
}

/// The error signal of a layer from its cached outputs and the incoming
/// gradient; total on its inputs.
fn compute_delta(l: &Layer, y: &Vec<i64>, g: &Vec<i64>) -> (d: Vec<i64>)
    requires
        y@.len() == g@.len(),
        forall|i: int| 0 <= i < y@.len() ==> out_domain(*l, #[trigger] sv(y@)[i]),
        all_fit(sv(g@)),
    ensures
        d@.len() == g@.len(),
        sv(d@) == delta_spec(*l, sv(y@), sv(g@)),
        forall|i: int|
            0 <= i < d@.len() ==> -2 * MAXV as int <= #[trigger] d@[i] as int <= 2
                * MAXV as int,
{
    match l.activation_function {
        Some(k) => {
            let bwd = activation_backward(k, y);
            proof {
                assert forall|i2: int| 0 <= i2 < bwd@.len() implies -2 * SCALE as int
                    <= #[trigger] bwd@[i2] as int <= 2 * SCALE as int by {
                    assert(sv(bwd@)[i2] == bwd@[i2] as int);
                }
            }
            let n = g.len();
            let mut d: Vec<i64> = Vec::new();
            let mut i: usize = 0;
            while i < n
                invariant
                    0 <= i <= n,
                    n == g@.len(),
                    n == y@.len(),
                    bwd@.len() == n,
                    l.activation_function == Some(k),
                    all_fit(sv(g@)),
                    forall|i2: int|
                        0 <= i2 < n ==> #[trigger] bwd@[i2] as int == act_bwd(
                            k,
                            sv(y@)[i2],
                        ),
                    forall|i2: int|
                        0 <= i2 < n ==> -2 * SCALE as int <= #[trigger] bwd@[i2] as int
                            <= 2 * SCALE as int,
                    d@.len() == i,
                    forall|i2: int|
                        0 <= i2 < i ==> #[trigger] d@[i2] as int == tdiv(
                            act_bwd(k, sv(y@)[i2]) * sv(g@)[i2],
                            SCALE as int,
                        ),
                    forall|i2: int|
                        0 <= i2 < i ==> -2 * MAXV as int <= #[trigger] d@[i2] as int <= 2
                            * MAXV as int,
                decreases n - i,
            {
                proof {
                    assert(sv(g@)[i as int] == g@[i as int] as int);
                    assert(
                        -(2 * SCALE as int * MAXV as int) <= bwd@[i as int] as int * g@[
                            i as int
                        ] as int <= 2 * SCALE as int * MAXV as int
                    ) by (nonlinear_arith)
                        requires
                            -2 * SCALE as int <= bwd@[i as int] as int <= 2 * SCALE as int,
                            fits(g@[i as int] as int),
                    ;
                    assert(2 * SCALE as int * MAXV as int == 2 * MAXV as int
                        * SCALE as int) by (nonlinear_arith);
                    lemma_tdiv_bounded(
                        bwd@[i as int] as int * g@[i as int] as int,
                        SCALE as int,
                        2 * MAXV as int,
                    );
                }
                let t: i128 = (bwd[i] as i128) * (g[i] as i128);
                let dv: i128 = tdiv_i128(t, SCALE as u64);
                d.push(dv as i64);
                proof {
                    assert(d@[i as int] as int == dv as int);
                }
                i = i + 1;
            }
            proof {
                assert(sv(d@) =~= delta_spec(*l, sv(y@), sv(g@)));
            }
            d
        },
        None => {
            let d = copy_vec(g);
            proof {
                assert(sv(d@) =~= delta_spec(*l, sv(y@), sv(g@)));
                assert forall|i: int| 0 <= i < d@.len() implies -2 * MAXV as int
                    <= #[trigger] d@[i] as int <= 2 * MAXV as int by {
                    assert(fits(sv(g@)[i]));
                }
            }
            d
        },
    }
}

/// A layer's backward step, from the cached input `x`, cached output `y`
/// and the gradient of the loss with respect to `y`.  Returns the gradient
/// with respect to `x`, the weight gradient and the bias gradient; the
/// Input layer owns no parameters, so its gradients are empty and the
/// incoming gradient passes through unchanged.
pub fn layer_backward(l: &Layer, x: &Vec<i64>, y: &Vec<i64>, grad_output: &Vec<i64>) -> (r:
    Result<(Vec<i64>, Vec<Vec<i64>>, Vec<i64>), NetworkError>)
    requires
        l.shaped(x@.len() as int),
        y@.len() == l.size,
        grad_output@.len() == l.size,
        x@.len() <= MAX_DIM,
        all_fit(sv(x@)),
        all_fit(sv(grad_output@)),
        forall|i: int| 0 <= i < y@.len() ==> out_domain(*l, #[trigger] sv(y@)[i]),
    ensures
        l.layer_type == LayerType::Input ==> (r matches Ok(v) && v.0@ == grad_output@
            && v.1@.len() == 0 && v.2@.len() == 0),
        l.layer_type != LayerType::Input ==> {
            let d = delta_spec(*l, sv(y@), sv(grad_output@));
            &&& r is Ok <==> wgrad_in_range(d, sv(x@)) && grad_in_in_range(
                *l,
                d,
                x@.len() as int,
            )
            &&& r matches Ok(v) ==> sv(v.0@) == grad_in_spec(*l, d, x@.len() as int)
                && all_fit(sv(v.0@)) && v.0@.len() == x@.len() && sm(v.1@) == wgrad_spec(
                d,
                sv(x@),
            ) && v.1@.len() == l.size && (forall|i: int|
                0 <= i < v.1@.len() ==> (#[trigger] v.1@[i])@.len() == x@.len()) && (
            forall|i: int| 0 <= i < v.1@.len() ==> all_fit(sv(#[trigger] v.1@[i]@)))
                && sv(v.2@) == d && v.2@.len() == l.size
            &&& r is Err ==> r == Err::<(Vec<i64>, Vec<Vec<i64>>, Vec<i64>), NetworkError>(
                NetworkError::NumericalError,
            )
        },
{
    if l.layer_type == LayerType::Input {
        let gi = copy_vec(grad_output);
        let wg: Vec<Vec<i64>> = Vec::new();
        let bg: Vec<i64> = Vec::new();
        return Ok((gi, wg, bg));
    }
    let delta = compute_delta(l, y, grad_output);
    let ghost ds = sv(delta@);
    let ghost xs = sv(x@);
    let n = l.size;
    let cols = x.len();
    // weight gradient: outer product of delta with x
    let mut wg: Vec<Vec<i64>> = Vec::new();
    let mut i: usize = 0;
    while i < n
        invariant
            0 <= i <= n,
            n == l.size,
            n == delta@.len(),
            cols == x@.len(),
            l.layer_type != LayerType::Input,
            ds == sv(delta@),
            ds == delta_spec(*l, sv(y@), sv(grad_output@)),
            xs == sv(x@),
            all_fit(sv(x@)),
            forall|i2: int|
                0 <= i2 < n ==> -2 * MAXV as int <= #[trigger] delta@[i2] as int <= 2
                    * MAXV as int,
            wg@.len() == i,
            forall|i2: int| 0 <= i2 < i ==> (#[trigger] wg@[i2])@.len() == cols,
            forall|i2: int, j2: int|
                0 <= i2 < i && 0 <= j2 < cols ==> #[trigger] wg@[i2]@[j2] as int
                    == wgrad_spec(ds, xs)[i2][j2],
            forall|i2: int| 0 <= i2 < i ==> all_fit(sv(#[trigger] wg@[i2]@)),
        decreases n - i,
    {
        let di = delta[i];
        let mut row: Vec<i64> = Vec::new();
        let mut j: usize = 0;
        while j < cols
            invariant
                0 <= j <= cols,
                cols == x@.len(),
                0 <= i < delta@.len(),
                di == delta@[i as int],
                -2 * MAXV as int <= di as int <= 2 * MAXV as int,
                l.layer_type != LayerType::Input,
                ds == sv(delta@),
                ds == delta_spec(*l, sv(y@), sv(grad_output@)),
                xs == sv(x@),
                all_fit(sv(x@)),
                row@.len() == j,
                forall|j2: int|
                    0 <= j2 < j ==> #[trigger] row@[j2] as int == tdiv(
                        ds[i as int] * xs[j2],
                        SCALE as int,
                    ),
                forall|j2: int| 0 <= j2 < j ==> fits(#[trigger] row@[j2] as int),
            decreases cols - j,
        {
            proof {
                assert(sv(x@)[j as int] == x@[j as int] as int);
                assert(
                    -0x40000000000000000000000000000000 <= di as int * x@[j as int] as int
                        <= 0x40000000000000000000000000000000
                ) by (nonlinear_arith)
                    requires
                        -2 * MAXV as int <= di as int <= 2 * MAXV as int,
                        fits(x@[j as int] as int),
                ;
            }
            let t: i128 = (di as i128) * (x[j] as i128);
            let v: i128 = tdiv_i128(t, SCALE as u64);
            if v < -(MAXV as i128) || v > (MAXV as i128) {
                proof {
                    assert(wgrad_spec(ds, xs)[i as int][j as int] == v as int);
                }
                return Err(NetworkError::NumericalError);
            }
            row.push(v as i64);
            proof {
                assert(row@[j as int] as int == v as int);
            }
            j = j + 1;
        }
        wg.push(row);
        proof {
            assert(wg@[i as int] == row);
        }
        i = i + 1;
    }
    // gradient with respect to the layer's input
    let mut gi: Vec<i64> = Vec::new();
    let mut j: usize = 0;
    while j < cols
        invariant
            0 <= j <= cols,
            cols == x@.len(),
            cols <= MAX_DIM,
            n == l.size,
            n == delta@.len(),
            l.shaped(cols as int),
            l.layer_type != LayerType::Input,
            ds == sv(delta@),
            ds == delta_spec(*l, sv(y@), sv(grad_output@)),
            xs == sv(x@),
            forall|i2: int|
                0 <= i2 < n ==> -2 * MAXV as int <= #[trigger] delta@[i2] as int <= 2
                    * MAXV as int,
            gi@.len() == j,
            forall|j2: int|
                0 <= j2 < j ==> #[trigger] gi@[j2] as int == grad_in_spec(
                    *l,
                    ds,
                    cols as int,
                )[j2],
            forall|j2: int| 0 <= j2 < j ==> fits(#[trigger] gi@[j2] as int),
        decreases cols - j,
    {
        let c = col_dot_exec(l, &delta, j);
        let v: i128 = tdiv_i128(c, SCALE as u64);
        proof {
            assert(grad_in_spec(*l, ds, cols as int)[j as int] == v as int);
        }
        if v < -(MAXV as i128) || v > (MAXV as i128) {
            return Err(NetworkError::NumericalError);
        }
        gi.push(v as i64);
        proof {
            assert(gi@[j as int] as int == v as int);
        }
        j = j + 1;
    }
    let bg = delta;
    proof {
        assert(sm(wg@) =~~= wgrad_spec(ds, xs));
        assert(sv(gi@) =~= grad_in_spec(*l, ds, cols as int));
    }
    Ok((gi, wg, bg))
}

/// The dot product of the error signal with weight column `j`.
fn col_dot_exec(l: &Layer, delta: &Vec<i64>, j: usize) -> (r: i128)
    requires
        l.layer_type != LayerType::Input,
        l.weights@.len() == l.size,
        delta@.len() == l.size,
        l.size <= MAX_DIM,
        forall|i: int| 0 <= i < l.size ==> (j as int) < (#[trigger] l.weights@[i])@.len(),
        forall|i: int| 0 <= i < l.size ==> all_fit(sv(#[trigger] l.weights@[i]@)),
        forall|i2: int|
            0 <= i2 < delta@.len() ==> -2 * MAXV as int <= #[trigger] delta@[i2] as int
                <= 2 * MAXV as int,
    ensures
        r == col_dot(sm(l.weights@), sv(delta@), j as int, l.size as int),
        -0x40000000000000000000000000000000 <= r <= 0x40000000000000000000000000000000,
{
    let n = l.size;
    let ghost m2: int = 2 * MAXV as int * MAXV as int;
    let mut acc: i128 = 0;
    let mut i: usize = 0;
    while i < n
        invariant
            0 <= i <= n,
            n == l.size,
            n <= MAX_DIM,
            l.weights@.len() == n,
            delta@.len() == n,
            m2 == 2 * MAXV as int * MAXV as int,
            forall|i2: int|
                0 <= i2 < n ==> (j as int) < (#[trigger] l.weights@[i2])@.len(),
            forall|i2: int| 0 <= i2 < n ==> all_fit(sv(#[trigger] l.weights@[i2]@)),
            forall|i2: int|
                0 <= i2 < n ==> -2 * MAXV as int <= #[trigger] delta@[i2] as int <= 2
                    * MAXV as int,
            acc == col_dot(sm(l.weights@), sv(delta@), j as int, i as int),
            -(i as int * m2) <= acc <= i as int * m2,
        decreases n - i,
    {
        proof {
            assert(sv(l.weights@[i as int]@)[j as int] == l.weights@[i as int]@[
                j as int
            ] as int);
            assert(sm(l.weights@)[i as int] == sv(l.weights@[i as int]@));
            assert(sv(delta@)[i as int] == delta@[i as int] as int);
            assert(
                -m2 <= delta@[i as int] as int * l.weights@[i as int]@[j as int] as int
                    <= m2
            ) by (nonlinear_arith)
                requires
                    m2 == 2 * MAXV as int * MAXV as int,
                    -2 * MAXV as int <= delta@[i as int] as int <= 2 * MAXV as int,
                    fits(l.weights@[i as int]@[j as int] as int),
            ;
            assert(
                0 <= i as int * m2 <= 65535 * m2 && (i as int + 1) * m2 == i as int * m2
                    + m2
            ) by (nonlinear_arith)
                requires
                    0 <= i as int <= 65535 && m2 == 2 * MAXV as int * MAXV as int,
            ;
        }
        let wrow = &l.weights[i];
        let t: i128 = (delta[i] as i128) * (wrow[j] as i128);
        proof {
            assert((i as int + 1) * m2 <= 0x40000000000000000000000000000000)
                by (nonlinear_arith)
                requires
                    0 <= i as int <= 65535 && m2 == 2 * MAXV as int * MAXV as int,
            ;
        }
        acc = acc + t;
        i = i + 1;
    }
    proof {
        assert(i as int * m2 <= 0x40000000000000000000000000000000) by (nonlinear_arith)
            requires 0 <= i as int <= 65536 && m2 == 2 * MAXV as int * MAXV as int;
    }
    acc
}

} // verus!
