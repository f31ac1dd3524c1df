//! The network: an owned, ordered sequence of layers with a loss function
//! and an optimizer.  A network is built by appending layers, validated and
//! initialized by `finalize`, and then run with `forward`, `train_step` and
//! `train`.

use crate::activation_functions::ActivationFunction;
use crate::fixed::{all_fit, fits, lemma_tdiv_bounded, sm, sv, tdiv, MAXV, MAX_DIM, SCALE};
use crate::layers::{
    copy_vec, delta_spec, grad_in_in_range, grad_in_spec, layer_backward, layer_fits,
    layer_forward, layer_out_spec, out_domain, wgrad_in_range, wgrad_spec, Layer,
    LayerType,
};
use crate::loss_functions::{
    deriv_in_range, loss_in_range, mse_deriv_spec, mse_spec, MeanSquaredError,
};
use crate::optimizers::{sgd_step_in_range, sgd_step_spec, SGD};
use crate::rng::{lcg, Rng, LCG_MOD};
use vstd::arithmetic::div_mod::{
    lemma_div_is_ordered_by_denominator, lemma_div_nonincreasing, lemma_div_pos_is_pos,
    lemma_fundamental_div_mod_converse,
};
use vstd::arithmetic::mul::{
    lemma_mul_inequality, lemma_mul_is_commutative, lemma_mul_is_distributive_add_other_way,
};
use crate::NetworkError;
use vstd::prelude::*;

verus! {

/// Largest number of layers a network may hold; keeps the closed-form
/// position arithmetic of the initializer inside machine integers.
pub const MAX_LAYERS: usize = 1024;

/// All layers still bare: the building state.
pub open spec fn layers_bare(ls: Seq<Layer>) -> bool {
    forall|i: int| 0 <= i < ls.len() ==> (#[trigger] ls[i]).bare()
}

/// The neuron count feeding layer `i` (zero for the first layer).
pub open spec fn prev_size(ls: Seq<Layer>, i: int) -> int {
    if i == 0 {
        0
    } else {
        ls[i - 1].size as int
    }
}

/// All layers allocated with matching shapes: the ready state.
pub open spec fn layers_shaped(ls: Seq<Layer>) -> bool {
    forall|i: int| 0 <= i < ls.len() ==> (#[trigger] ls[i]).shaped(prev_size(ls, i))
}

/// A valid chain: Input first, Output last, FullyConnected between.
pub open spec fn chain_ok(ls: Seq<Layer>) -> bool {
    &&& 2 <= ls.len() <= MAX_LAYERS
    &&& ls[0].layer_type == LayerType::Input
    &&& ls[ls.len() - 1].layer_type == LayerType::Output
    &&& forall|i: int|
        1 <= i < ls.len() - 1 ==> (#[trigger] ls[i]).layer_type
            == LayerType::FullyConnected
}

/// Whether some layer is an Input layer.
pub open spec fn has_input(ls: Seq<Layer>) -> bool {
    exists|i: int| 0 <= i < ls.len() && (#[trigger] ls[i]).layer_type == LayerType::Input
}

/// Whether some layer is an Output layer.
pub open spec fn has_output(ls: Seq<Layer>) -> bool {
    exists|i: int| 0 <= i < ls.len() && (#[trigger] ls[i]).layer_type == LayerType::Output
}

/// The vector threaded through the first `i` layers.
pub open spec fn outs(ls: Seq<Layer>, x: Seq<int>, i: int) -> Seq<int>
    decreases i,
{
    if i <= 0 {
        x
    } else {
        layer_out_spec(ls[i - 1], outs(ls, x, i - 1))
    }
}

/// The network's output: the input threaded through every layer.
pub open spec fn net_forward_spec(ls: Seq<Layer>, x: Seq<int>) -> Seq<int> {
    outs(ls, x, ls.len() as int)
}

/// Every layer's pre-activation values stay in the working range.
pub open spec fn forward_fits(ls: Seq<Layer>, x: Seq<int>) -> bool {
    forall|i: int| 0 <= i < ls.len() ==> layer_fits(#[trigger] ls[i], outs(ls, x, i))
}

/// The initializer's position code for one parameter.
pub open spec fn init_pos(layer: int, row: int, col: int) -> int {
    layer * 1_000_003 + row * 7_919 + col
}

/// Two generator steps from the seed offset by the position code.
pub open spec fn init_raw(seed: int, pos: int) -> int {
    lcg(lcg(seed + pos))
}

/// A deterministic pseudo-random value in `[-bound, bound]`.
pub open spec fn init_value(seed: int, pos: int, bound: int) -> int {
    init_raw(seed, pos) % (2 * bound + 1) - bound
}

/// The initializer's magnitude bound for a layer fed by `prev` neurons.
pub open spec fn init_bound(prev: int) -> int {
    SCALE as int / prev
}

/// The initial value of weight `(row, col)` of layer `layer`.
pub open spec fn init_weight(seed: int, layer: int, row: int, col: int, prev: int) -> int {
    init_value(seed, init_pos(layer, row, col), init_bound(prev))
}

/// The initial value of bias `row` of layer `layer`.
pub open spec fn init_bias(seed: int, layer: int, row: int, prev: int) -> int {
    init_value(seed, init_pos(layer, row, prev), init_bound(prev))
}

/// One deterministic initial parameter value.
fn init_value_exec(seed: u64, layer: usize, row: usize, col: usize, bound: i64) -> (v: i64)
    requires
        seed < LCG_MOD,
        layer < MAX_LAYERS,
        row <= 65536,
        col <= 65536,
        1 <= bound <= SCALE,
    ensures
        v as int == init_value(
            seed as int,
            init_pos(layer as int, row as int, col as int),
            bound as int,
        ),
        -bound <= v <= bound,
{
    let pos: u64 = (layer as u64) * 1_000_003 + (row as u64) * 7_919 + (col as u64);
    let s1: u64 = ((seed + pos) * 1_664_525 + 1_013_904_223) % LCG_MOD;
    let s2: u64 = (s1 * 1_664_525 + 1_013_904_223) % LCG_MOD;
    let m: u64 = 2 * (bound as u64) + 1;
    let rem: u64 = s2 % m;
    (rem as i64) - bound
}

/// A layer as `finalize` leaves it: same kind, size and activation as
/// before, parameters of the right shape, every value the deterministic
/// initial value for its position, and in `[-init_bound(prev), init_bound(prev)]`.
pub open spec fn layer_initialized(
    lnew: Layer,
    lold: Layer,
    seed: int,
    idx: int,
    prev: int,
) -> bool {
    &&& lnew.layer_type == lold.layer_type
    &&& lnew.size == lold.size
    &&& lnew.activation_function == lold.activation_function
    &&& lnew.weights@.len() == lnew.size
    &&& forall|r: int| 0 <= r < lnew.size ==> (#[trigger] lnew.weights@[r])@.len() == prev
    &&& forall|r: int, c: int|
        0 <= r < lnew.size && 0 <= c < prev ==> #[trigger] lnew.weights@[r]@[c] as int
            == init_weight(seed, idx, r, c, prev)
    &&& forall|r: int| 0 <= r < lnew.size ==> all_fit(sv(#[trigger] lnew.weights@[r]@))
    &&& lnew.biases@.len() == lnew.size
    &&& forall|r: int|
        0 <= r < lnew.size ==> #[trigger] lnew.biases@[r] as int == init_bias(
            seed,
            idx,
            r,
            prev,
        )
    &&& all_fit(sv(lnew.biases@))
}

/// Gradient of the loss with respect to the output of layer `i`, walking
/// the chain rule from the Output layer backward.
pub open spec fn grads(ls: Seq<Layer>, x: Seq<int>, t: Seq<int>, i: int) -> Seq<int>
    decreases ls.len() - i,
{
    if i >= ls.len() - 1 {
        mse_deriv_spec(net_forward_spec(ls, x), t)
    } else {
        grad_in_spec(
            ls[i + 1],
            delta_spec(ls[i + 1], outs(ls, x, i + 2), grads(ls, x, t, i + 1)),
            ls[i].size as int,
        )
    }
}

/// The error signal of layer `i` in one training step.
pub open spec fn layer_delta(ls: Seq<Layer>, x: Seq<int>, t: Seq<int>, i: int) -> Seq<
    int,
> {
    delta_spec(ls[i], outs(ls, x, i + 1), grads(ls, x, t, i))
}

/// The weight gradient of layer `i` in one training step.
pub open spec fn layer_wgrad(ls: Seq<Layer>, x: Seq<int>, t: Seq<int>, i: int) -> Seq<
    Seq<int>,
> {
    wgrad_spec(layer_delta(ls, x, t, i), outs(ls, x, i))
}

/// The weight matrix of layer `i` after one training step.
pub open spec fn stepped_weights(
    ls: Seq<Layer>,
    x: Seq<int>,
    t: Seq<int>,
    lr: int,
    i: int,
) -> Seq<Seq<int>> {
    Seq::new(
        ls[i].size as nat,
        |r: int| sgd_step_spec(lr, sv(ls[i].weights@[r]@), layer_wgrad(ls, x, t, i)[r]),
    )
}

/// The bias vector of layer `i` after one training step.
pub open spec fn stepped_biases(
    ls: Seq<Layer>,
    x: Seq<int>,
    t: Seq<int>,
    lr: int,
    i: int,
) -> Seq<int> {
    sgd_step_spec(lr, sv(ls[i].biases@), layer_delta(ls, x, t, i))
}

/// The range conditions of layer `i` in one training step: its weight
/// gradient, the gradient handed backward, and its updated parameters all
/// stay in the working range.
pub open spec fn step_fits_at(
    ls: Seq<Layer>,
    x: Seq<int>,
    t: Seq<int>,
    lr: int,
    i: int,
) -> bool {
    &&& wgrad_in_range(layer_delta(ls, x, t, i), outs(ls, x, i))
    &&& grad_in_in_range(ls[i], layer_delta(ls, x, t, i), ls[i - 1].size as int)
    &&& forall|r: int|
        0 <= r < ls[i].size ==> sgd_step_in_range(
            lr,
            sv((#[trigger] ls[i].weights@[r])@),
            layer_wgrad(ls, x, t, i)[r],
        )
    &&& sgd_step_in_range(lr, sv(ls[i].biases@), layer_delta(ls, x, t, i))
}

/// Every quantity of one training step stays in the working range.
pub open spec fn step_fits(ls: Seq<Layer>, x: Seq<int>, t: Seq<int>, lr: int) -> bool {
    &&& all_fit(x)
    &&& all_fit(t)
    &&& forward_fits(ls, x)
    &&& loss_in_range(net_forward_spec(ls, x), t)
    &&& deriv_in_range(net_forward_spec(ls, x), t)
    &&& forall|i: int| 1 <= i < ls.len() ==> #[trigger] step_fits_at(ls, x, t, lr, i)
}

/// The integer contents of a vector of sample indices.
pub open spec fn ord_view(s: Seq<usize>) -> Seq<int> {
    s.map_values(|x: usize| x as int)
}

/// One successful training step on sample `(x, t)`: the sample has the
/// network's widths, every quantity stays in range, and the layers after
/// the step carry exactly the pinned gradient-descent values.
pub open spec fn stepped_layers(
    pre: Seq<Layer>,
    post: Seq<Layer>,
    x: Seq<int>,
    t: Seq<int>,
    lr: int,
) -> bool {
    &&& x.len() == pre[0].size
    &&& t.len() == pre[pre.len() - 1].size
    &&& step_fits(pre, x, t, lr)
    &&& post.len() == pre.len()
    &&& post[0] == pre[0]
    &&& forall|i: int|
        1 <= i < pre.len() ==> (#[trigger] post[i]).layer_type == pre[i].layer_type
            && post[i].size == pre[i].size && post[i].activation_function
            == pre[i].activation_function && post[i].weights@.len()
            == pre[i].weights@.len() && sm(post[i].weights@) == stepped_weights(
            pre,
            x,
            t,
            lr,
            i,
        ) && sv(post[i].biases@) == stepped_biases(pre, x, t, lr, i)
}

/// A run of training steps over the samples named by `order`, front first:
/// each step succeeds and produces the pinned next state, and `loss_sum`
/// is the sum of the losses the steps returned.
#[verifier::opaque]
pub open spec fn steps_run(
    pre: Seq<Layer>,
    post: Seq<Layer>,
    data: Seq<(Vec<i64>, Vec<i64>)>,
    order: Seq<int>,
    lr: int,
    loss_sum: int,
) -> bool
    decreases order.len(),
{
    if order.len() == 0 {
        post == pre && loss_sum == 0
    } else {
        &&& 0 <= order[0] < data.len()
        &&& exists|mid: Seq<Layer>|
            #[trigger] stepped_layers(
                pre,
                mid,
                sv(data[order[0]].0@),
                sv(data[order[0]].1@),
                lr,
            ) && steps_run(
                mid,
                post,
                data,
                order.drop_first(),
                lr,
                loss_sum - mse_spec(
                    net_forward_spec(pre, sv(data[order[0]].0@)),
                    sv(data[order[0]].1@),
                ),
            )
    }
}

/// The identity visit order over `m` samples.
pub open spec fn identity_order(m: int) -> Seq<int> {
    Seq::new(m as nat, |i: int| i)
}

/// The Fisher-Yates shuffle the engine performs, pinned over the
/// generator: positions `k` down to `1` each swap with a drawn position.
pub open spec fn fy_shuffle(ord: Seq<int>, st: int, k: int) -> (Seq<int>, int)
    decreases k,
{
    if k < 1 {
        (ord, st)
    } else {
        let st2 = lcg(st);
        let j = st2 % (k + 1);
        fy_shuffle(ord.update(k, ord[j]).update(j, ord[k]), st2, k - 1)
    }
}

/// The visit order of one epoch and the generator state it leaves behind.
pub open spec fn epoch_order(m: int, st: int, shuffle: bool) -> (Seq<int>, int) {
    if shuffle && m > 1 {
        fy_shuffle(identity_order(m), st, m - 1)
    } else {
        (identity_order(m), st)
    }
}

/// A whole training run: `epochs` epochs, each visiting every sample in
/// the order drawn from the generator state it starts with, every step
/// succeeding with its pinned result.  `last_sum` is the loss sum of the
/// final epoch (zero when no epoch runs).
#[verifier::opaque]
pub open spec fn training_run(
    pre: Seq<Layer>,
    post: Seq<Layer>,
    data: Seq<(Vec<i64>, Vec<i64>)>,
    epochs: int,
    shuffle: bool,
    st: int,
    st_post: int,
    lr: int,
    last_sum: int,
) -> bool
    decreases epochs,
{
    if epochs <= 0 {
        post == pre && st_post == st && last_sum == 0
    } else {
        let (ord, st2) = epoch_order(data.len() as int, st, shuffle);
        if epochs == 1 {
            steps_run(pre, post, data, ord, lr, last_sum) && st_post == st2
        } else {
            exists|mid: Seq<Layer>, midsum: int|
                #[trigger] steps_run(pre, mid, data, ord, lr, midsum) && training_run(
                    mid,
                    post,
                    data,
                    epochs - 1,
                    shuffle,
                    st2,
                    st_post,
                    lr,
                    last_sum,
                )
        }
    }
}

/// Appending one more successful step to a run of steps.
proof fn lemma_steps_run_snoc(
    pre: Seq<Layer>,
    mid: Seq<Layer>,
    post: Seq<Layer>,
    data: Seq<(Vec<i64>, Vec<i64>)>,
    order: Seq<int>,
    lr: int,
    loss_sum: int,
    j: int,
)
    requires
        steps_run(pre, mid, data, order, lr, loss_sum),
        0 <= j < data.len(),
        stepped_layers(mid, post, sv(data[j].0@), sv(data[j].1@), lr),
    ensures
        steps_run(
            pre,
            post,
            data,
            order.push(j),
            lr,
            loss_sum + mse_spec(net_forward_spec(mid, sv(data[j].0@)), sv(data[j].1@)),
        ),
    decreases order.len(),
{
    reveal_with_fuel(steps_run, 3);
    let x = sv(data[j].0@);
    let t = sv(data[j].1@);
    let step_loss = mse_spec(net_forward_spec(mid, x), t);
    if order.len() == 0 {
        assert(mid == pre);
        assert(order.push(j).drop_first() =~= Seq::<int>::empty());
        assert(steps_run(post, post, data, order.push(j).drop_first(), lr, 0));
        assert(stepped_layers(pre, post, x, t, lr));
    } else {
        let x0 = sv(data[order[0]].0@);
        let t0 = sv(data[order[0]].1@);
        let mid1 = choose|m1: Seq<Layer>|
            #[trigger] stepped_layers(pre, m1, x0, t0, lr) && steps_run(
                m1,
                mid,
                data,
                order.drop_first(),
                lr,
                loss_sum - mse_spec(net_forward_spec(pre, x0), t0),
            );
        lemma_steps_run_snoc(
            mid1,
            mid,
            post,
            data,
            order.drop_first(),
            lr,
            loss_sum - mse_spec(net_forward_spec(pre, x0), t0),
            j,
        );
        assert(order.push(j).drop_first() =~= order.drop_first().push(j));
        assert(order.push(j)[0] == order[0]);
        assert(stepped_layers(pre, mid1, x0, t0, lr) && steps_run(
            mid1,
            post,
            data,
            order.push(j).drop_first(),
            lr,
            (loss_sum + step_loss) - mse_spec(net_forward_spec(pre, x0), t0),
        ));
    }
}

/// Appending one more completed epoch to a training run.
proof fn lemma_training_run_snoc(
    pre: Seq<Layer>,
    mid: Seq<Layer>,
    post: Seq<Layer>,
    data: Seq<(Vec<i64>, Vec<i64>)>,
    epochs: int,
    shuffle: bool,
    st: int,
    st_mid: int,
    st_post: int,
    lr: int,
    mid_sum: int,
    new_sum: int,
)
    requires
        epochs >= 0,
        training_run(pre, mid, data, epochs, shuffle, st, st_mid, lr, mid_sum),
        ({
            let (ord, st2) = epoch_order(data.len() as int, st_mid, shuffle);
            steps_run(mid, post, data, ord, lr, new_sum) && st_post == st2
        }),
    ensures
        training_run(pre, post, data, epochs + 1, shuffle, st, st_post, lr, new_sum),
    decreases epochs,
{
    reveal_with_fuel(training_run, 3);
    if epochs == 0 {
        assert(mid == pre && st_mid == st);
    } else {
        let (ord0, st20) = epoch_order(data.len() as int, st, shuffle);
        if epochs == 1 {
            assert(steps_run(pre, mid, data, ord0, lr, mid_sum) && st_mid == st20);
            assert(training_run(mid, post, data, 1, shuffle, st20, st_post, lr, new_sum));
        } else {
            let (mid1, midsum1) = choose|m1: Seq<Layer>, s1: int|
                #[trigger] steps_run(pre, m1, data, ord0, lr, s1) && training_run(
                    m1,
                    mid,
                    data,
                    epochs - 1,
                    shuffle,
                    st20,
                    st_mid,
                    lr,
                    mid_sum,
                );
            lemma_training_run_snoc(
                mid1,
                mid,
                post,
                data,
                epochs - 1,
                shuffle,
                st20,
                st_mid,
                st_post,
                lr,
                mid_sum,
                new_sum,
            );
            assert(steps_run(pre, mid1, data, ord0, lr, midsum1) && training_run(
                mid1,
                post,
                data,
                epochs,
                shuffle,
                st20,
                st_post,
                lr,
                new_sum,
            ));
        }
    }
}

/// The summary `train` returns.
#[derive(Clone, Copy, Debug, PartialEq, Eq, Structural)]
pub struct TrainingSummary {
    pub epochs_run: usize,
    pub final_average_loss: i64,
    pub cancelled: bool,
}

/// A feed-forward network in one of two states: building (layers appended,
/// nothing allocated) or ready (finalized, parameters allocated).
#[derive(Debug)]
pub struct NeuralNetwork {
    pub layers: Vec<Layer>,
    pub loss_function: MeanSquaredError,
    pub optimizer: SGD,
    pub ready: bool,
    pub rng: Rng,
}

impl NeuralNetwork {
    /// The network's invariant in both lifecycle states.
    pub open spec fn wf(self) -> bool {
        &&& self.optimizer.wf()
        &&& self.rng.wf()
        &&& self.layers@.len() <= MAX_LAYERS
        &&& if self.ready {
            chain_ok(self.layers@) && layers_shaped(self.layers@)
        } else {
            layers_bare(self.layers@)
        }
    }

    /// Everything but the layer list and readiness is unchanged.
    pub open spec fn same_config(self, other: NeuralNetwork) -> bool {
        &&& self.loss_function == other.loss_function
        &&& self.optimizer == other.optimizer
        &&& self.rng == other.rng
    }

    /// An empty network in building state, with mean-squared-error loss,
    /// gradient descent at rate 1/100, and a fixed default seed.
    pub fn new() -> (r: NeuralNetwork)
        ensures
            r.wf(),
            !r.ready,
            r.layers@.len() == 0,
            r.optimizer == (SGD { learning_rate: 10_000 }),
            r.loss_function == MeanSquaredError,
            r.rng.state == 42,
    {
        NeuralNetwork {
            layers: Vec::new(),
            loss_function: MeanSquaredError,
            optimizer: SGD { learning_rate: 10_000 },
            ready: false,
            rng: Rng::new(42),
        }
    }

    /// Reseeds the deterministic source that `finalize` and `train` draw
    /// from.
    pub fn set_seed(&mut self, seed: u64)
        requires
            old(self).wf(),
        ensures
            final(self).wf(),
            final(self).rng.state == seed % LCG_MOD,
            final(self).layers@ == old(self).layers@,
            final(self).ready == old(self).ready,
            final(self).optimizer == old(self).optimizer,
            final(self).loss_function == old(self).loss_function,
    {
        self.rng = Rng::new(seed);
    }

    /// Replaces the optimizer.
    pub fn set_optimizer(&mut self, optimizer: SGD)
        requires
            old(self).wf(),
            optimizer.wf(),
        ensures
            final(self).wf(),
            final(self).optimizer == optimizer,
            final(self).layers@ == old(self).layers@,
            final(self).ready == old(self).ready,
            final(self).rng == old(self).rng,
            final(self).loss_function == old(self).loss_function,
    {
        self.optimizer = optimizer;
    }

    /// Appends the Input layer.  Fails with `ConfigurationError` exactly
    /// when the network is already finalized, the size is zero or over
    /// `MAX_DIM`, the layer list is full, or an Input layer already exists.
    pub fn add_input_layer(&mut self, size: usize) -> (r: Result<(), NetworkError>)
        requires
            old(self).wf(),
        ensures
            final(self).wf(),
            r is Ok <==> !old(self).ready && 0 < size <= MAX_DIM && old(self).layers@.len() < MAX_LAYERS && !has_input(old(self).layers@),
            r is Err ==> *final(self) == *old(self) && r == Err::<(), NetworkError>(
                NetworkError::ConfigurationError,
            ),
            r is Ok ==> final(self).layers@.len() == old(self).layers@.len() + 1 && final(self).layers@.subrange(0, old(self).layers@.len() as int) == old(self).layers@
                && final(self).layers@.last().layer_type == LayerType::Input && final(self).layers@.last().size == size && final(self).layers@.last().bare() && !final(self).ready && final(self).same_config(*old(self)),
    {
        if self.ready || size == 0 || size > MAX_DIM || self.layers.len() >= MAX_LAYERS
            || self.find_layer(LayerType::Input) {
            return Err(NetworkError::ConfigurationError);
        }
        let l = Layer {
            layer_type: LayerType::Input,
            size,
            weights: Vec::new(),
            biases: Vec::new(),
            activation_function: None,
        };
        self.layers.push(l);
        proof {
            assert(self.layers@.subrange(0, old(self).layers@.len() as int) =~= old(self).layers@);
        }
        Ok(())
    }

    /// Appends a FullyConnected layer.  Fails with `ConfigurationError`
    /// exactly when the network is already finalized, the size is zero or
    /// over `MAX_DIM`, the layer list is full, or no Input layer exists yet.
    pub fn add_fully_connected_layer(&mut self, size: usize) -> (r: Result<
        (),
        NetworkError,
    >)
        requires
            old(self).wf(),
        ensures
            final(self).wf(),
            r is Ok <==> !old(self).ready && 0 < size <= MAX_DIM && old(self).layers@.len() < MAX_LAYERS && has_input(old(self).layers@),
            r is Err ==> *final(self) == *old(self) && r == Err::<(), NetworkError>(
                NetworkError::ConfigurationError,
            ),
            r is Ok ==> final(self).layers@.len() == old(self).layers@.len() + 1 && final(self).layers@.subrange(0, old(self).layers@.len() as int) == old(self).layers@
                && final(self).layers@.last().layer_type == LayerType::FullyConnected
                && final(self).layers@.last().size == size && final(self).layers@.last().bare() && final(self).layers@.last().activation_function is None && !final(self).ready && final(self).same_config(*old(self)),
    {
        if self.ready || size == 0 || size > MAX_DIM || self.layers.len() >= MAX_LAYERS
            || !self.find_layer(LayerType::Input) {
            return Err(NetworkError::ConfigurationError);
        }
        let l = Layer {
            layer_type: LayerType::FullyConnected,
            size,
            weights: Vec::new(),
            biases: Vec::new(),
            activation_function: None,
        };
        self.layers.push(l);
        proof {
            assert(self.layers@.subrange(0, old(self).layers@.len() as int) =~= old(self).layers@);
        }
        Ok(())
    }

    /// Appends the terminal Output layer.  Fails with `ConfigurationError`
    /// exactly when the network is already finalized, the size is zero or
    /// over `MAX_DIM`, the layer list is full, or an Output layer already
    /// exists.
    pub fn add_output_layer(&mut self, size: usize) -> (r: Result<(), NetworkError>)
        requires
            old(self).wf(),
        ensures
            final(self).wf(),
            r is Ok <==> !old(self).ready && 0 < size <= MAX_DIM && old(self).layers@.len() < MAX_LAYERS && !has_output(old(self).layers@),
            r is Err ==> *final(self) == *old(self) && r == Err::<(), NetworkError>(
                NetworkError::ConfigurationError,
            ),
            r is Ok ==> final(self).layers@.len() == old(self).layers@.len() + 1 && final(self).layers@.subrange(0, old(self).layers@.len() as int) == old(self).layers@
                && final(self).layers@.last().layer_type == LayerType::Output && final(self).layers@.last().size == size && final(self).layers@.last().bare() && !final(self).ready && final(self).same_config(*old(self)),
    {
        if self.ready || size == 0 || size > MAX_DIM || self.layers.len() >= MAX_LAYERS
            || self.find_layer(LayerType::Output) {
            return Err(NetworkError::ConfigurationError);
        }
        let l = Layer {
            layer_type: LayerType::Output,
            size,
            weights: Vec::new(),
            biases: Vec::new(),
            activation_function: None,
        };
        self.layers.push(l);
        proof {
            assert(self.layers@.subrange(0, old(self).layers@.len() as int) =~= old(self).layers@);
        }
        Ok(())
    }

    /// Whether a layer of the given kind exists.
    fn find_layer(&self, t: LayerType) -> (r: bool)
        ensures
            r <==> exists|i: int|
                0 <= i < self.layers@.len() && (#[trigger] self.layers@[i]).layer_type
                    == t,
    {
        let n = self.layers.len();
        let mut i: usize = 0;
        while i < n
            invariant
                0 <= i <= n,
                n == self.layers@.len(),
                forall|j: int|
                    0 <= j < i ==> (#[trigger] self.layers@[j]).layer_type != t,
            decreases n - i,
        {
            if self.layers[i].layer_type == t {
                return true;
            }
            i = i + 1;
        }
        false
    }

    /// Sets (or clears) the activation of the layer at `index`; the Input
    /// layer takes none.
    #[verifier::rlimit(60)]
    pub fn set_activation_function(
        &mut self,
        index: usize,
        f: Option<ActivationFunction>,
    ) -> (r: Result<(), NetworkError>)
        requires
            old(self).wf(),
        ensures
            final(self).wf(),
            r is Ok <==> index < old(self).layers@.len() && old(self).layers@[index as int].layer_type != LayerType::Input,
            r is Err ==> *final(self) == *old(self) && r == Err::<(), NetworkError>(
                NetworkError::ConfigurationError,
            ),
            r is Ok ==> final(self).layers@.len() == old(self).layers@.len() && (forall|
                j: int,
            |
                0 <= j < old(self).layers@.len() && j != index ==> final(self).layers@[j]
                    == old(self).layers@[j]) && final(self).layers@[index as int].activation_function == f && final(self).layers@[index as int].layer_type == old(self).layers@[index as int].layer_type && final(self).layers@[index as int].size
                == old(self).layers@[index as int].size && final(self).layers@[index as int].weights@.len() == old(self).layers@[index as int].weights@.len()
                && sm(final(self).layers@[index as int].weights@) == sm(old(self).layers@[index as int].weights@)
                && final(self).layers@[index as int].biases@ == old(self).layers@[index as int].biases@ && final(self).ready == old(self).ready
                && final(self).same_config(*old(self)),
    {
        if index >= self.layers.len() {
            return Err(NetworkError::ConfigurationError);
        }
        if self.layers[index].layer_type == LayerType::Input {
            return Err(NetworkError::ConfigurationError);
        }
        let lt = self.layers[index].layer_type;
        let sz = self.layers[index].size;
        let w = copy_mat(&self.layers[index].weights);
        let b = copy_vec(&self.layers[index].biases);
        proof {
            assert(sm(w@) =~= sm(old(self).layers@[index as int].weights@));
        }
        self.layers[index] = Layer {
            layer_type: lt,
            size: sz,
            weights: w,
            biases: b,
            activation_function: f,
        };
        Ok(())
    }

    /// Validates the chain (Input first, Output last, FullyConnected
    /// between) and allocates every non-Input layer's weight matrix and
    /// bias vector with small deterministic pseudo-random values drawn from
    /// the current seed.  On failure the network is left exactly as it was,
    /// still in building state.
    #[verifier::loop_isolation(false)]
    #[verifier::rlimit(80)]
    pub fn finalize(&mut self) -> (r: Result<(), NetworkError>)
        requires
            old(self).wf(),
        ensures
            final(self).wf(),
            r is Ok <==> !old(self).ready && chain_ok(old(self).layers@),
            r is Err ==> *final(self) == *old(self) && r == Err::<(), NetworkError>(
                NetworkError::ConfigurationError,
            ),
            r is Ok ==> final(self).ready && final(self).layers@.len() == old(self).layers@.len() && final(self).layers@[0].layer_type == LayerType::Input
                && final(self).layers@[0].size == old(self).layers@[0].size && final(self).layers@[0].bare() && (forall|i: int|
                1 <= i < old(self).layers@.len() ==> layer_initialized(
                    #[trigger] final(self).layers@[i],
                    old(self).layers@[i],
                    old(self).rng.state as int,
                    i,
                    old(self).layers@[i - 1].size as int,
                )) && final(self).same_config(*old(self)),
    {
        if self.ready {
            return Err(NetworkError::ConfigurationError);
        }
        let n = self.layers.len();
        if n < 2 {
            return Err(NetworkError::ConfigurationError);
        }
        if self.layers[0].layer_type != LayerType::Input {
            return Err(NetworkError::ConfigurationError);
        }
        if self.layers[n - 1].layer_type != LayerType::Output {
            return Err(NetworkError::ConfigurationError);
        }
        let mut k: usize = 1;
        while k < n - 1
            invariant
                1 <= k <= n - 1,
                2 <= n == self.layers@.len(),
                *self == *old(self),
                forall|j: int|
                    1 <= j < k ==> (#[trigger] self.layers@[j]).layer_type
                        == LayerType::FullyConnected,
            decreases n - k,
        {
            if self.layers[k].layer_type != LayerType::FullyConnected {
                return Err(NetworkError::ConfigurationError);
            }
            k = k + 1;
        }
        let seed = self.rng.state;
        let in_size = self.layers[0].size;
        let mut newls: Vec<Layer> = Vec::new();
        newls.push(
            Layer {
                layer_type: LayerType::Input,
                size: in_size,
                weights: Vec::new(),
                biases: Vec::new(),
                activation_function: None,
            },
        );
        let mut i: usize = 1;
        while i < n
            invariant
                1 <= i <= n,
                2 <= n == self.layers@.len(),
                n <= MAX_LAYERS,
                *self == *old(self),
                !self.ready,
                layers_bare(self.layers@),
                self.rng.wf(),
                seed == self.rng.state,
                in_size == self.layers@[0].size,
                newls@.len() == i,
                newls@[0].layer_type == LayerType::Input,
                newls@[0].size == in_size,
                newls@[0].bare(),
                forall|j: int|
                    1 <= j < i ==> layer_initialized(
                        #[trigger] newls@[j],
                        self.layers@[j],
                        seed as int,
                        j,
                        self.layers@[j - 1].size as int,
                    ),
            decreases n - i,
        {
            let prev = self.layers[i - 1].size;
            let size = self.layers[i].size;
            let lt = self.layers[i].layer_type;
            let act = self.layers[i].activation_function;
            proof {
                assert(self.layers@[i as int - 1].bare());
                assert(self.layers@[i as int].bare());
                lemma_div_pos_is_pos(SCALE as int, prev as int);
                lemma_div_nonincreasing(SCALE as int, prev as int);
                lemma_div_is_ordered_by_denominator(SCALE as int, prev as int, 65536);
                lemma_fundamental_div_mod_converse(SCALE as int, 65536, 15, 16960);
            }
            let bound: i64 = ((SCALE as u64) / (prev as u64)) as i64;
            let mut w: Vec<Vec<i64>> = Vec::new();
            let mut r: usize = 0;
            while r < size
                invariant
                    0 <= r <= size,
                    size <= MAX_DIM,
                    prev <= MAX_DIM,
                    1 <= i < MAX_LAYERS,
                    seed < LCG_MOD,
                    1 <= bound <= SCALE,
                    bound as int == init_bound(prev as int),
                    w@.len() == r,
                    forall|r2: int| 0 <= r2 < r ==> (#[trigger] w@[r2])@.len() == prev,
                    forall|r2: int, c2: int|
                        0 <= r2 < r && 0 <= c2 < prev ==> #[trigger] w@[r2]@[c2] as int
                            == init_weight(seed as int, i as int, r2, c2, prev as int),
                    forall|r2: int| 0 <= r2 < r ==> all_fit(sv(#[trigger] w@[r2]@)),
                decreases size - r,
            {
                let mut row: Vec<i64> = Vec::new();
                let mut c: usize = 0;
                while c < prev
                    invariant
                        0 <= c <= prev,
                        prev <= MAX_DIM,
                        0 <= r < size,
                        size <= MAX_DIM,
                        1 <= i < MAX_LAYERS,
                        seed < LCG_MOD,
                        1 <= bound <= SCALE,
                        row@.len() == c,
                        forall|c2: int|
                            0 <= c2 < c ==> #[trigger] row@[c2] as int == init_value(
                                seed as int,
                                init_pos(i as int, r as int, c2),
                                bound as int,
                            ),
                        forall|c2: int|
                            0 <= c2 < c ==> -bound <= #[trigger] row@[c2] <= bound,
                    decreases prev - c,
                {
                    let v = init_value_exec(seed, i, r, c, bound);
                    row.push(v);
                    proof {
                        assert(row@[c as int] == v);
                    }
                    c = c + 1;
                }
                w.push(row);
                proof {
                    assert(w@[r as int]@.len() == prev);
                    assert forall|c2: int| 0 <= c2 < prev implies fits(
                        #[trigger] sv(w@[r as int]@)[c2],
                    ) by {
                        assert(sv(w@[r as int]@)[c2] == w@[r as int]@[c2] as int);
                    }
                }
                r = r + 1;
            }
            let mut b: Vec<i64> = Vec::new();
            let mut r2: usize = 0;
            while r2 < size
                invariant
                    0 <= r2 <= size,
                    size <= MAX_DIM,
                    prev <= MAX_DIM,
                    1 <= i < MAX_LAYERS,
                    seed < LCG_MOD,
                    1 <= bound <= SCALE,
                    b@.len() == r2,
                    forall|j: int|
                        0 <= j < r2 ==> #[trigger] b@[j] as int == init_value(
                            seed as int,
                            init_pos(i as int, j, prev as int),
                            bound as int,
                        ),
                    forall|j: int| 0 <= j < r2 ==> -bound <= #[trigger] b@[j] <= bound,
                decreases size - r2,
            {
                let v = init_value_exec(seed, i, r2, prev, bound);
                b.push(v);
                proof {
                    assert(b@[r2 as int] == v);
                }
                r2 = r2 + 1;
            }
            proof {
                assert forall|j: int| 0 <= j < size implies fits(
                    #[trigger] sv(b@)[j],
                ) by {
                    assert(sv(b@)[j] == b@[j] as int);
                }
            }
            let l = Layer {
                layer_type: lt,
                size,
                weights: w,
                biases: b,
                activation_function: act,
            };
            newls.push(l);
            proof {
                assert(newls@[i as int] == l);
                assert(layer_initialized(
                    newls@[i as int],
                    self.layers@[i as int],
                    seed as int,
                    i as int,
                    self.layers@[i as int - 1].size as int,
                ));
            }
            i = i + 1;
        }
        self.layers = newls;
        self.ready = true;
        proof {
            assert forall|j: int| 0 <= j < self.layers@.len() implies (
            #[trigger] self.layers@[j]).shaped(prev_size(self.layers@, j)) by {
                if j >= 1 {
                    assert(layer_initialized(
                        self.layers@[j],
                        old(self).layers@[j],
                        seed as int,
                        j,
                        old(self).layers@[j - 1].size as int,
                    ));
                }
            }
        }
        Ok(())
    }

    /// The weight matrix of the layer at `index`, copied out.
    pub fn get_weights(&self, index: usize) -> (r: Result<Vec<Vec<i64>>, NetworkError>)
        ensures
            r is Ok <==> index < self.layers@.len(),
            r matches Ok(v) ==> v@.len() == self.layers@[index as int].weights@.len() && (
            forall|i: int|
                0 <= i < v@.len() ==> (#[trigger] v@[i])@ == self.layers@[
                    index as int
                ].weights@[i]@),
            r is Err ==> r == Err::<Vec<Vec<i64>>, NetworkError>(
                NetworkError::ConfigurationError,
            ),
    {
        if index >= self.layers.len() {
            return Err(NetworkError::ConfigurationError);
        }
        Ok(copy_mat(&self.layers[index].weights))
    }

    /// The bias vector of the layer at `index`, copied out.
    pub fn get_biases(&self, index: usize) -> (r: Result<Vec<i64>, NetworkError>)
        ensures
            r is Ok <==> index < self.layers@.len(),
            r matches Ok(v) ==> v@ == self.layers@[index as int].biases@,
            r is Err ==> r == Err::<Vec<i64>, NetworkError>(
                NetworkError::ConfigurationError,
            ),
    {
        if index >= self.layers.len() {
            return Err(NetworkError::ConfigurationError);
        }
        Ok(copy_vec(&self.layers[index].biases))
    }

    /// Overwrites the weight matrix of the non-Input layer at `index` on a
    /// finalized network; the new matrix must have the layer's shape and
    /// in-range values.
    #[verifier::loop_isolation(false)]
    #[verifier::rlimit(80)]
    pub fn set_weights(&mut self, index: usize, weights: Vec<Vec<i64>>) -> (r: Result<
        (),
        NetworkError,
    >)
        requires
            old(self).wf(),
        ensures
            final(self).wf(),
            r is Ok <==> old(self).ready && 1 <= index < old(self).layers@.len()
                && weights@.len() == old(self).layers@[index as int].size && (forall|
                i: int,
            |
                0 <= i < weights@.len() ==> (#[trigger] weights@[i])@.len() == old(self).layers@[index as int - 1].size) && (forall|i: int|
                0 <= i < weights@.len() ==> all_fit(sv(#[trigger] weights@[i]@))),
            r is Err ==> *final(self) == *old(self),
            r == Err::<(), NetworkError>(NetworkError::NotInitialized) <==> !old(self).ready,
            r == Err::<(), NetworkError>(NetworkError::ConfigurationError) <==> (old(self).ready
                && (index == 0 || index >= old(self).layers@.len())),
            r == Err::<(), NetworkError>(NetworkError::DimensionMismatch) <==> (old(self).ready
                && 1 <= index < old(self).layers@.len() && !(weights@.len() == old(self).layers@[
                index as int
            ].size && (forall|i: int|
                0 <= i < weights@.len() ==> (#[trigger] weights@[i])@.len() == old(self).layers@[
                    index as int - 1
                ].size))),
            r == Err::<(), NetworkError>(NetworkError::NumericalError) <==> (old(self).ready
                && 1 <= index < old(self).layers@.len() && weights@.len() == old(self).layers@[
                index as int
            ].size && (forall|i: int|
                0 <= i < weights@.len() ==> (#[trigger] weights@[i])@.len() == old(self).layers@[
                    index as int - 1
                ].size) && !(forall|i: int|
                0 <= i < weights@.len() ==> all_fit(sv(#[trigger] weights@[i]@)))),
            r is Ok ==> final(self).layers@.len() == old(self).layers@.len() && (forall|
                j: int,
            |
                0 <= j < old(self).layers@.len() && j != index ==> final(self).layers@[j]
                    == old(self).layers@[j]) && sm(
                final(self).layers@[index as int].weights@,
            ) == sm(weights@) && final(self).layers@[index as int].weights@.len()
                == weights@.len() && final(self).layers@[index as int].biases@ == old(self).layers@[index as int].biases@ && final(self).layers@[index as int].size
                == old(self).layers@[index as int].size && final(self).layers@[index as int].layer_type == old(self).layers@[index as int].layer_type && final(self).layers@[index as int].activation_function == old(self).layers@[index as int].activation_function && final(self).ready && final(self).same_config(*old(self)),
    {
        if !self.ready {
            return Err(NetworkError::NotInitialized);
        }
        if index == 0 || index >= self.layers.len() {
            return Err(NetworkError::ConfigurationError);
        }
        if weights.len() != self.layers[index].size {
            return Err(NetworkError::DimensionMismatch);
        }
        let prev = self.layers[index - 1].size;
        let rows = weights.len();
        let mut i: usize = 0;
        while i < rows
            invariant
                0 <= i <= rows,
                rows == weights@.len(),
                prev == self.layers@[index as int - 1].size,
                *self == *old(self),
                forall|j: int|
                    0 <= j < i ==> (#[trigger] weights@[j])@.len() == prev,
            decreases rows - i,
        {
            if weights[i].len() != prev {
                return Err(NetworkError::DimensionMismatch);
            }
            i = i + 1;
        }
        let mut i2: usize = 0;
        while i2 < rows
            invariant
                0 <= i2 <= rows,
                rows == weights@.len(),
                prev == self.layers@[index as int - 1].size,
                *self == *old(self),
                forall|j: int|
                    0 <= j < rows ==> (#[trigger] weights@[j])@.len() == prev,
                forall|j: int| 0 <= j < i2 ==> all_fit(sv(#[trigger] weights@[j]@)),
            decreases rows - i2,
        {
            let row = &weights[i2];
            let m = row.len();
            let mut j: usize = 0;
            while j < m
                invariant
                    0 <= j <= m,
                    m == row@.len(),
                    row@ == weights@[i2 as int]@,
                    0 <= i2 < weights@.len(),
                    forall|j2: int| 0 <= j2 < j ==> fits(#[trigger] sv(row@)[j2]),
                decreases m - j,
            {
                proof {
                    assert(sv(row@)[j as int] == row@[j as int] as int);
                }
                if row[j] < -MAXV || row[j] > MAXV {
                    proof {
                        assert(!fits(sv(weights@[i2 as int]@)[j as int]));
                    }
                    return Err(NetworkError::NumericalError);
                }
                j = j + 1;
            }
            proof {
                assert(all_fit(sv(weights@[i2 as int]@)));
            }
            i2 = i2 + 1;
        }
        let lt = self.layers[index].layer_type;
        let sz = self.layers[index].size;
        let act = self.layers[index].activation_function;
        let b = copy_vec(&self.layers[index].biases);
        proof {
            assert(sm(weights@) =~= sm(weights@));
        }
        self.layers[index] = Layer {
            layer_type: lt,
            size: sz,
            weights,
            biases: b,
            activation_function: act,
        };
        Ok(())
    }

    /// Overwrites the bias vector of the non-Input layer at `index` on a
    /// finalized network; the new vector must have the layer's length and
    /// in-range values.
    #[verifier::loop_isolation(false)]
    #[verifier::rlimit(80)]
    pub fn set_biases(&mut self, index: usize, biases: Vec<i64>) -> (r: Result<
        (),
        NetworkError,
    >)
        requires
            old(self).wf(),
        ensures
            final(self).wf(),
            r is Ok <==> old(self).ready && 1 <= index < old(self).layers@.len()
                && biases@.len() == old(self).layers@[index as int].size && all_fit(
                sv(biases@),
            ),
            r is Err ==> *final(self) == *old(self),
            r == Err::<(), NetworkError>(NetworkError::NotInitialized) <==> !old(self).ready,
            r == Err::<(), NetworkError>(NetworkError::ConfigurationError) <==> (old(self).ready
                && (index == 0 || index >= old(self).layers@.len())),
            r == Err::<(), NetworkError>(NetworkError::DimensionMismatch) <==> (old(self).ready
                && 1 <= index < old(self).layers@.len() && biases@.len() != old(self).layers@[
                index as int
            ].size),
            r == Err::<(), NetworkError>(NetworkError::NumericalError) <==> (old(self).ready
                && 1 <= index < old(self).layers@.len() && biases@.len() == old(self).layers@[
                index as int
            ].size && !all_fit(sv(biases@))),
            r is Ok ==> final(self).layers@.len() == old(self).layers@.len() && (forall|
                j: int,
            |
                0 <= j < old(self).layers@.len() && j != index ==> final(self).layers@[j]
                    == old(self).layers@[j]) && final(self).layers@[index as int].biases@
                == biases@ && sm(final(self).layers@[index as int].weights@) == sm(
                old(self).layers@[index as int].weights@,
            ) && final(self).layers@[index as int].weights@.len() == old(self).layers@[index as int].weights@.len() && final(self).layers@[index as int].size == old(self).layers@[index as int].size && final(self).layers@[index as int].layer_type == old(self).layers@[index as int].layer_type && final(self).layers@[index as int].activation_function == old(self).layers@[index as int].activation_function && final(self).ready && final(self).same_config(*old(self)),
    {
        if !self.ready {
            return Err(NetworkError::NotInitialized);
        }
        if index == 0 || index >= self.layers.len() {
            return Err(NetworkError::ConfigurationError);
        }
        if biases.len() != self.layers[index].size {
            return Err(NetworkError::DimensionMismatch);
        }
        let m = biases.len();
        let mut j: usize = 0;
        while j < m
            invariant
                0 <= j <= m,
                m == biases@.len(),
                *self == *old(self),
                forall|j2: int| 0 <= j2 < j ==> fits(#[trigger] sv(biases@)[j2]),
            decreases m - j,
        {
            proof {
                assert(sv(biases@)[j as int] == biases@[j as int] as int);
            }
            if biases[j] < -MAXV || biases[j] > MAXV {
                return Err(NetworkError::NumericalError);
            }
            j = j + 1;
        }
        let lt = self.layers[index].layer_type;
        let sz = self.layers[index].size;
        let act = self.layers[index].activation_function;
        let w = copy_mat(&self.layers[index].weights);
        proof {
            assert(sm(w@) =~= sm(old(self).layers@[index as int].weights@));
        }
        self.layers[index] = Layer {
            layer_type: lt,
            size: sz,
            weights: w,
            biases,
            activation_function: act,
        };
        Ok(())
    }

    /// Runs the input through every layer in order.  Needs a finalized
    /// network and an input of the Input layer's width; the output has the
    /// Output layer's width.
    #[verifier::loop_isolation(false)]
    #[verifier::rlimit(80)]
    pub fn forward(&self, input: &Vec<i64>) -> (r: Result<Vec<i64>, NetworkError>)
        requires
            self.wf(),
        ensures
            r == Err::<Vec<i64>, NetworkError>(NetworkError::NotInitialized) <==> !self.ready,
            r == Err::<Vec<i64>, NetworkError>(NetworkError::DimensionMismatch) <==> (
            self.ready && input@.len() != self.layers@[0].size),
            r is Ok <==> self.ready && input@.len() == self.layers@[0].size && all_fit(
                sv(input@),
            ) && forward_fits(self.layers@, sv(input@)),
            r matches Ok(v) ==> sv(v@) == net_forward_spec(self.layers@, sv(input@))
                && v@.len() == self.layers@[self.layers@.len() - 1].size && all_fit(
                sv(v@),
            ),
            r == Err::<Vec<i64>, NetworkError>(NetworkError::NumericalError) <==> (
            self.ready && input@.len() == self.layers@[0].size && !(all_fit(sv(input@))
                && forward_fits(self.layers@, sv(input@)))),
    {
        if !self.ready {
            return Err(NetworkError::NotInitialized);
        }
        let n = self.layers.len();
        if input.len() != self.layers[0].size {
            return Err(NetworkError::DimensionMismatch);
        }
        let ghost xs = sv(input@);
        let mut j: usize = 0;
        let m = input.len();
        while j < m
            invariant
                0 <= j <= m,
                m == input@.len(),
                forall|j2: int| 0 <= j2 < j ==> fits(#[trigger] sv(input@)[j2]),
            decreases m - j,
        {
            proof {
                assert(sv(input@)[j as int] == input@[j as int] as int);
            }
            if input[j] < -MAXV || input[j] > MAXV {
                return Err(NetworkError::NumericalError);
            }
            j = j + 1;
        }
        let mut cur = copy_vec(input);
        let mut i: usize = 1;
        proof {
            assert(outs(self.layers@, xs, 0) == xs);
            assert(outs(self.layers@, xs, 1) == layer_out_spec(self.layers@[0], xs));
            assert(self.layers@[0].shaped(prev_size(self.layers@, 0)));
            assert(outs(self.layers@, xs, 1) == xs);
            assert(layer_fits(self.layers@[0], outs(self.layers@, xs, 0)));
        }
        while i < n
            invariant
                1 <= i <= n,
                n == self.layers@.len(),
                self.wf(),
                self.ready,
                xs == sv(input@),
                all_fit(sv(input@)),
                input@.len() == self.layers@[0].size,
                cur@.len() == self.layers@[i - 1].size,
                sv(cur@) == outs(self.layers@, xs, i as int),
                all_fit(sv(cur@)),
                forall|j2: int|
                    0 <= j2 < i ==> layer_fits(
                        #[trigger] self.layers@[j2],
                        outs(self.layers@, xs, j2),
                    ),
            decreases n - i,
        {
            proof {
                assert(self.layers@[i as int].shaped(prev_size(self.layers@, i as int)));
                assert(self.layers@[i as int - 1].shaped(
                    prev_size(self.layers@, i as int - 1),
                ));
            }
            let next = layer_forward(&self.layers[i], &cur);
            match next {
                Ok(v) => {
                    cur = v;
                },
                Err(_) => {
                    proof {
                        assert(!layer_fits(
                            self.layers@[i as int],
                            outs(self.layers@, xs, i as int),
                        ));
                    }
                    return Err(NetworkError::NumericalError);
                },
            }
            i = i + 1;
        }
        Ok(cur)
    }



    /// The forward pass with every layer's output cached: entry `k` of the
    /// result is the vector after the first `k + 1` layers.
    #[verifier::loop_isolation(false)]
    #[verifier::rlimit(100)]
    #[verifier::spinoff_prover]
    fn forward_cached(&self, input: &Vec<i64>) -> (r: Result<Vec<Vec<i64>>, NetworkError>)
        requires
            self.wf(),
            self.ready,
            input@.len() == self.layers@[0].size,
            all_fit(sv(input@)),
        ensures
            r is Ok <==> forward_fits(self.layers@, sv(input@)),
            r is Err ==> r == Err::<Vec<Vec<i64>>, NetworkError>(
                NetworkError::NumericalError,
            ),
            r matches Ok(acts) ==> ({
                let ls = self.layers@;
                let xs = sv(input@);
                &&& acts@.len() == ls.len()
                &&& forall|k: int|
                    0 <= k < ls.len() ==> sv((#[trigger] acts@[k])@) == outs(ls, xs, k + 1)
                &&& forall|k: int|
                    0 <= k < ls.len() ==> (#[trigger] acts@[k])@.len() == ls[k].size
                &&& forall|k: int| 0 <= k < ls.len() ==> all_fit(sv((#[trigger] acts@[k])@))
                &&& forall|k: int, e: int|
                    1 <= k < ls.len() && 0 <= e < acts@[k]@.len() ==> out_domain(
                        ls[k],
                        #[trigger] sv(acts@[k]@)[e],
                    )
            }),
    {
        let n = self.layers.len();
        let ghost ls = self.layers@;
        let ghost xs = sv(input@);
        // forward pass, caching each layer's output
        let mut acts: Vec<Vec<i64>> = Vec::new();
        acts.push(copy_vec(input));
        proof {
            assert(outs(ls, xs, 0) == xs);
            assert(outs(ls, xs, 1) == layer_out_spec(ls[0], xs));
            assert(outs(ls, xs, 1) == xs);
            assert(layer_fits(ls[0], outs(ls, xs, 0)));
            assert(sv(acts@[0]@) == outs(ls, xs, 1));
        }
        let mut i: usize = 1;
        while i < n
            invariant
                1 <= i <= n,
                acts@.len() == i,
                forall|k: int|
                    0 <= k < i ==> sv((#[trigger] acts@[k])@) == outs(ls, xs, k + 1),
                forall|k: int| 0 <= k < i ==> (#[trigger] acts@[k])@.len() == ls[k].size,
                forall|k: int| 0 <= k < i ==> all_fit(sv((#[trigger] acts@[k])@)),
                forall|k: int, e: int|
                    1 <= k < i && 0 <= e < acts@[k]@.len() ==> out_domain(
                        ls[k],
                        #[trigger] sv(acts@[k]@)[e],
                    ),
                forall|k: int| 0 <= k < i ==> layer_fits(#[trigger] ls[k], outs(ls, xs, k)),
            decreases n - i,
        {
            proof {
                assert(ls[i as int].shaped(prev_size(ls, i as int)));
                assert(ls[i as int - 1].shaped(prev_size(ls, i as int - 1)));
            }
            let next = layer_forward(&self.layers[i], &acts[i - 1]);
            match next {
                Ok(v) => {
                    acts.push(v);
                    proof {
                        assert(sv(acts@[i as int]@) == outs(ls, xs, i as int + 1));
                    }
                },
                Err(_) => {
                    proof {
                        assert(!layer_fits(ls[i as int], outs(ls, xs, i as int)));
                    }
                    return Err(NetworkError::NumericalError);
                },
            }
            i = i + 1;
        }
        Ok(acts)
    }

    /// The computation of one training step, without mutation: the cached
    /// forward pass, the loss, and the backward walk collecting every
    /// layer's updated parameters (the deepest layer last).
    #[verifier::loop_isolation(false)]
    #[verifier::rlimit(100)]
    #[verifier::spinoff_prover]
    fn backward_pass(&self, input: &Vec<i64>, target: &Vec<i64>) -> (r: Result<
        (i64, Vec<Vec<Vec<i64>>>, Vec<Vec<i64>>),
        NetworkError,
    >)
        requires
            self.wf(),
            self.ready,
            input@.len() == self.layers@[0].size,
            target@.len() == self.layers@[self.layers@.len() - 1].size,
            all_fit(sv(input@)),
            all_fit(sv(target@)),
        ensures
            r is Ok <==> step_fits(
                self.layers@,
                sv(input@),
                sv(target@),
                self.optimizer.learning_rate as int,
            ),
            r is Err ==> r == Err::<(i64, Vec<Vec<Vec<i64>>>, Vec<Vec<i64>>), NetworkError>(
                NetworkError::NumericalError,
            ),
            r matches Ok(v) ==> ({
                let ls = self.layers@;
                let xs = sv(input@);
                let ts = sv(target@);
                let lr = self.optimizer.learning_rate as int;
                let n = ls.len();
                &&& v.0 as int == mse_spec(net_forward_spec(ls, xs), ts)
                &&& 0 <= v.0 <= MAXV
                &&& v.1@.len() == n - 1
                &&& v.2@.len() == n - 1
                &&& forall|k: int|
                    0 <= k < n - 1 ==> sm((#[trigger] v.1@[k])@) == stepped_weights(
                        ls,
                        xs,
                        ts,
                        lr,
                        n - 1 - k,
                    )
                &&& forall|k: int|
                    0 <= k < n - 1 ==> (#[trigger] v.1@[k])@.len() == ls[n - 1 - k].size
                &&& forall|k: int, r2: int|
                    0 <= k < n - 1 && 0 <= r2 < v.1@[k]@.len() ==> (
                    #[trigger] v.1@[k]@[r2])@.len() == ls[n - 2 - k].size
                &&& forall|k: int, r2: int|
                    0 <= k < n - 1 && 0 <= r2 < v.1@[k]@.len() ==> all_fit(
                        sv((#[trigger] v.1@[k]@[r2])@),
                    )
                &&& forall|k: int|
                    0 <= k < n - 1 ==> sv((#[trigger] v.2@[k])@) == stepped_biases(
                        ls,
                        xs,
                        ts,
                        lr,
                        n - 1 - k,
                    )
                &&& forall|k: int|
                    0 <= k < n - 1 ==> (#[trigger] v.2@[k])@.len() == ls[n - 1 - k].size
                &&& forall|k: int| 0 <= k < n - 1 ==> all_fit(sv((#[trigger] v.2@[k])@))
            }),
    {
        let n = self.layers.len();
        let ghost ls = self.layers@;
        let ghost xs = sv(input@);
        let ghost ts = sv(target@);
        let ghost lr = self.optimizer.learning_rate as int;
        let acts = match self.forward_cached(input) {
            Ok(v) => v,
            Err(_) => {
                return Err(NetworkError::NumericalError);
            },
        };
        proof {
            assert(sv(acts@[n - 1]@) == net_forward_spec(ls, xs));
        }
        // loss and initial gradient, before any mutation
        let loss = match self.loss_function.calculate_loss(&acts[n - 1], target) {
            Ok(v) => v,
            Err(_) => {
                return Err(NetworkError::NumericalError);
            },
        };
        let mut g = match self.loss_function.calculate_loss_derivative(&acts[n - 1], target) {
            Ok(v) => v,
            Err(_) => {
                return Err(NetworkError::NumericalError);
            },
        };
        // backward walk: collect the updated parameters, newest layer first
        let mut neww: Vec<Vec<Vec<i64>>> = Vec::new();
        let mut newb: Vec<Vec<i64>> = Vec::new();
        proof {
            assert(sv(g@) == grads(ls, xs, ts, n - 1));
        }
        let mut li: usize = n - 1;
        while li >= 1
            invariant
                0 <= li <= n - 1,
                li >= 1 ==> g@.len() == ls[li as int].size,
                li >= 1 ==> sv(g@) == grads(ls, xs, ts, li as int),
                li >= 1 ==> all_fit(sv(g@)),
                neww@.len() == n - 1 - li,
                newb@.len() == n - 1 - li,
                forall|k: int|
                    0 <= k < neww@.len() ==> sm((#[trigger] neww@[k])@) == stepped_weights(
                        ls,
                        xs,
                        ts,
                        lr,
                        n - 1 - k,
                    ),
                forall|k: int|
                    0 <= k < neww@.len() ==> (#[trigger] neww@[k])@.len() == ls[n - 1 - k].size,
                forall|k: int, r: int|
                    0 <= k < neww@.len() && 0 <= r < neww@[k]@.len() ==> (#[trigger] neww@[k]@[r])@.len()
                        == ls[n - 2 - k].size,
                forall|k: int, r: int|
                    0 <= k < neww@.len() && 0 <= r < neww@[k]@.len() ==> all_fit(
                        sv((#[trigger] neww@[k]@[r])@),
                    ),
                forall|k: int|
                    0 <= k < newb@.len() ==> sv((#[trigger] newb@[k])@) == stepped_biases(
                        ls,
                        xs,
                        ts,
                        lr,
                        n - 1 - k,
                    ),
                forall|k: int| 0 <= k < newb@.len() ==> (#[trigger] newb@[k])@.len() == ls[n - 1 - k].size,
                forall|k: int| 0 <= k < newb@.len() ==> all_fit(sv((#[trigger] newb@[k])@)),
                forall|k: int|
                    li < k < n ==> #[trigger] step_fits_at(ls, xs, ts, lr, k),
            decreases li,
        {
            proof {
                assert(ls[li as int].shaped(prev_size(ls, li as int)));
                assert(ls[li as int - 1].shaped(prev_size(ls, li as int - 1)));
                assert(sv(acts@[li as int]@) == outs(ls, xs, li as int + 1));
                assert(sv(acts@[li as int - 1]@) == outs(ls, xs, li as int));
            }
            let ghost d = layer_delta(ls, xs, ts, li as int);
            let back = layer_backward(
                &self.layers[li],
                &acts[li - 1],
                &acts[li],
                &g,
            );
            let (gi, wg, bg) = match back {
                Ok(v) => v,
                Err(_) => {
                    proof {
                        assert(!step_fits_at(ls, xs, ts, lr, li as int));
                    }
                    return Err(NetworkError::NumericalError);
                },
            };
            proof {
                assert(sv(bg@) == d);
                assert(sm(wg@) == layer_wgrad(ls, xs, ts, li as int));
                assert(sv(gi@) == grad_in_spec(ls[li as int], d, ls[li as int - 1].size as int));
            }
            let size = self.layers[li].size;
            let mut wrows: Vec<Vec<i64>> = Vec::new();
            let mut r: usize = 0;
            while r < size
                invariant
                    0 <= r <= size,
                    size == ls[li as int].size,
                    1 <= li <= n - 1,
                    sm(wg@) == layer_wgrad(ls, xs, ts, li as int),
                    wg@.len() == size,
                    forall|r2: int|
                        0 <= r2 < wg@.len() ==> (#[trigger] wg@[r2])@.len() == ls[
                            li as int - 1
                        ].size,
                    wrows@.len() == r,
                    forall|r2: int|
                        0 <= r2 < r ==> sv((#[trigger] wrows@[r2])@) == stepped_weights(
                            ls,
                            xs,
                            ts,
                            lr,
                            li as int,
                        )[r2],
                    forall|r2: int|
                        0 <= r2 < r ==> (#[trigger] wrows@[r2])@.len() == ls[
                            li as int - 1
                        ].size,
                    forall|r2: int| 0 <= r2 < r ==> all_fit(sv((#[trigger] wrows@[r2])@)),
                    forall|r2: int|
                        0 <= r2 < r ==> sgd_step_in_range(
                            lr,
                            sv((#[trigger] ls[li as int].weights@[r2])@),
                            layer_wgrad(ls, xs, ts, li as int)[r2],
                        ),
                decreases size - r,
            {
                proof {
                    assert(sv(wg@[r as int]@) == layer_wgrad(ls, xs, ts, li as int)[r as int]);
                    assert((ls[li as int].weights@[r as int])@.len() == ls[
                        li as int - 1
                    ].size);
                }
                let upd = self.optimizer.step_row(&self.layers[li].weights[r], &wg[r]);
                match upd {
                    Ok(v) => {
                        proof {
                            assert(sv(v@) == sgd_step_spec(
                                lr,
                                sv(ls[li as int].weights@[r as int]@),
                                sv(wg@[r as int]@),
                            ));
                            assert(sv(v@) == stepped_weights(ls, xs, ts, lr, li as int)[
                                r as int
                            ]);
                        }
                        wrows.push(v);
                    },
                    Err(_) => {
                        proof {
                            assert(!sgd_step_in_range(
                                lr,
                                sv(ls[li as int].weights@[r as int]@),
                                layer_wgrad(ls, xs, ts, li as int)[r as int],
                            ));
                            assert(!step_fits_at(ls, xs, ts, lr, li as int));
                        }
                        return Err(NetworkError::NumericalError);
                    },
                }
                r = r + 1;
            }
            let updb = self.optimizer.step_row(&self.layers[li].biases, &bg);
            let nb = match updb {
                Ok(v) => v,
                Err(_) => {
                    proof {
                        assert(!sgd_step_in_range(lr, sv(ls[li as int].biases@), d));
                        assert(!step_fits_at(ls, xs, ts, lr, li as int));
                    }
                    return Err(NetworkError::NumericalError);
                },
            };
            proof {
                assert(sv(nb@) == stepped_biases(ls, xs, ts, lr, li as int));
                assert(sm(wrows@) =~= stepped_weights(ls, xs, ts, lr, li as int));
                assert(step_fits_at(ls, xs, ts, lr, li as int));
            }
            neww.push(wrows);
            newb.push(nb);
            if li > 1 {
                proof {
                    assert(sv(gi@) == grads(ls, xs, ts, li as int - 1));
                    assert forall|e: int| 0 <= e < gi@.len() implies fits(
                        #[trigger] sv(gi@)[e],
                    ) by {}
                }
                g = gi;
            }
            li = li - 1;
        }
        proof {
            assert(step_fits(ls, xs, ts, lr)) by {
                assert(forward_fits(ls, xs));
                assert(loss_in_range(net_forward_spec(ls, xs), ts));
                assert(deriv_in_range(net_forward_spec(ls, xs), ts));
                assert(forall|k: int|
                    1 <= k < ls.len() ==> #[trigger] step_fits_at(ls, xs, ts, lr, k));
            }
        }
        Ok((loss, neww, newb))
    }

    /// One training step: a cached forward pass, the loss against `target`
    /// computed before any mutation, a backward walk applying the chain
    /// rule, and one optimizer update per layer.  Either every parameter is
    /// updated, or the network is left exactly as it was.
    #[verifier::loop_isolation(false)]
    #[verifier::rlimit(100)]
    #[verifier::spinoff_prover]
    pub fn train_step(&mut self, input: &Vec<i64>, target: &Vec<i64>) -> (r: Result<
        i64,
        NetworkError,
    >)
        requires
            old(self).wf(),
        ensures
            final(self).wf(),
            r == Err::<i64, NetworkError>(NetworkError::NotInitialized) <==> !old(self).ready,
            r == Err::<i64, NetworkError>(NetworkError::DimensionMismatch) <==> (old(self).ready
                && (input@.len() != old(self).layers@[0].size || target@.len() != old(self).layers@[
                old(self).layers@.len() - 1
            ].size)),
            r is Ok <==> old(self).ready && input@.len() == old(self).layers@[0].size
                && target@.len() == old(self).layers@[old(self).layers@.len() - 1].size
                && step_fits(
                old(self).layers@,
                sv(input@),
                sv(target@),
                old(self).optimizer.learning_rate as int,
            ),
            r is Err ==> *final(self) == *old(self),
            r matches Ok(loss) ==> loss as int == mse_spec(
                net_forward_spec(old(self).layers@, sv(input@)),
                sv(target@),
            ) && 0 <= loss <= MAXV && final(self).ready && final(self).layers@.len() == old(self).layers@.len()
                && final(self).layers@[0] == old(self).layers@[0] && (forall|i: int|
                1 <= i < old(self).layers@.len() ==> (#[trigger] final(self).layers@[i]).layer_type
                    == old(self).layers@[i].layer_type && final(self).layers@[i].size == old(
                    self,
                ).layers@[i].size && final(self).layers@[i].activation_function == old(
                    self,
                ).layers@[i].activation_function && final(self).layers@[i].weights@.len() == old(
                    self,
                ).layers@[i].weights@.len() && sm(final(self).layers@[i].weights@)
                    == stepped_weights(
                    old(self).layers@,
                    sv(input@),
                    sv(target@),
                    old(self).optimizer.learning_rate as int,
                    i,
                ) && sv(final(self).layers@[i].biases@) == stepped_biases(
                    old(self).layers@,
                    sv(input@),
                    sv(target@),
                    old(self).optimizer.learning_rate as int,
                    i,
                )) && final(self).same_config(*old(self)),
            r is Ok ==> stepped_layers(
                old(self).layers@,
                final(self).layers@,
                sv(input@),
                sv(target@),
                old(self).optimizer.learning_rate as int,
            ),
    {
        if !self.ready {
            return Err(NetworkError::NotInitialized);
        }
        let n = self.layers.len();
        if input.len() != self.layers[0].size || target.len() != self.layers[n - 1].size {
            return Err(NetworkError::DimensionMismatch);
        }
        let ghost ls = self.layers@;
        let ghost xs = sv(input@);
        let ghost ts = sv(target@);
        let ghost lr = self.optimizer.learning_rate as int;
        // input and target bounds
        let mut j: usize = 0;
        while j < input.len()
            invariant
                0 <= j <= input@.len(),
                forall|j2: int| 0 <= j2 < j ==> fits(#[trigger] sv(input@)[j2]),
            decreases input@.len() - j,
        {
            proof {
                assert(sv(input@)[j as int] == input@[j as int] as int);
            }
            if input[j] < -MAXV || input[j] > MAXV {
                return Err(NetworkError::NumericalError);
            }
            j = j + 1;
        }
        let mut j2: usize = 0;
        while j2 < target.len()
            invariant
                0 <= j2 <= target@.len(),
                forall|j3: int| 0 <= j3 < j2 ==> fits(#[trigger] sv(target@)[j3]),
            decreases target@.len() - j2,
        {
            proof {
                assert(sv(target@)[j2 as int] == target@[j2 as int] as int);
            }
            if target[j2] < -MAXV || target[j2] > MAXV {
                return Err(NetworkError::NumericalError);
            }
            j2 = j2 + 1;
        }
        let back = self.backward_pass(input, target);
        let (loss, mut neww, mut newb) = match back {
            Ok(v) => v,
            Err(_) => {
                return Err(NetworkError::NumericalError);
            },
        };
        // commit: replace every non-Input layer's parameters, layer 1 first
        let mut ci: usize = 1;
        while ci < n
            invariant
                1 <= ci <= n,
                self.layers@.len() == n,
                self.ready,
                self.loss_function == old(self).loss_function,
                self.optimizer == old(self).optimizer,
                self.rng == old(self).rng,
                neww@.len() == n - ci,
                newb@.len() == n - ci,
                forall|k: int|
                    0 <= k < neww@.len() ==> sm((#[trigger] neww@[k])@) == stepped_weights(
                        ls,
                        xs,
                        ts,
                        lr,
                        n - 1 - k,
                    ),
                forall|k: int|
                    0 <= k < neww@.len() ==> (#[trigger] neww@[k])@.len() == ls[n - 1 - k].size,
                forall|k: int, r: int|
                    0 <= k < neww@.len() && 0 <= r < neww@[k]@.len() ==> (#[trigger] neww@[k]@[r])@.len()
                        == ls[n - 2 - k].size,
                forall|k: int, r: int|
                    0 <= k < neww@.len() && 0 <= r < neww@[k]@.len() ==> all_fit(
                        sv((#[trigger] neww@[k]@[r])@),
                    ),
                forall|k: int|
                    0 <= k < newb@.len() ==> sv((#[trigger] newb@[k])@) == stepped_biases(
                        ls,
                        xs,
                        ts,
                        lr,
                        n - 1 - k,
                    ),
                forall|k: int| 0 <= k < newb@.len() ==> (#[trigger] newb@[k])@.len() == ls[n - 1 - k].size,
                forall|k: int| 0 <= k < newb@.len() ==> all_fit(sv((#[trigger] newb@[k])@)),
                forall|k: int| ci <= k < n ==> #[trigger] self.layers@[k] == ls[k],
                self.layers@[0] == ls[0],
                forall|k: int|
                    1 <= k < ci ==> (#[trigger] self.layers@[k]).layer_type == ls[k].layer_type
                        && self.layers@[k].size == ls[k].size
                        && self.layers@[k].activation_function == ls[k].activation_function
                        && self.layers@[k].weights@.len() == ls[k].weights@.len()
                        && sm(self.layers@[k].weights@) == stepped_weights(ls, xs, ts, lr, k)
                        && sv(self.layers@[k].biases@) == stepped_biases(ls, xs, ts, lr, k)
                        && (forall|r: int|
                        0 <= r < self.layers@[k].weights@.len() ==> (
                        #[trigger] self.layers@[k].weights@[r])@.len() == ls[k - 1].size)
                        && (forall|r: int|
                        0 <= r < self.layers@[k].weights@.len() ==> all_fit(
                            sv((#[trigger] self.layers@[k].weights@[r])@),
                        )) && self.layers@[k].biases@.len() == ls[k].size && all_fit(
                        sv(self.layers@[k].biases@),
                    ),
            decreases n - ci,
        {
            let w = match neww.pop() {
                Some(v) => v,
                None => {
                    proof {
                        assert(false);
                    }
                    return Err(NetworkError::NumericalError);
                },
            };
            let b = match newb.pop() {
                Some(v) => v,
                None => {
                    proof {
                        assert(false);
                    }
                    return Err(NetworkError::NumericalError);
                },
            };
            proof {
                assert(sm(w@) == stepped_weights(ls, xs, ts, lr, ci as int));
                assert(sv(b@) == stepped_biases(ls, xs, ts, lr, ci as int));
            }
            let lt = self.layers[ci].layer_type;
            let sz = self.layers[ci].size;
            let act = self.layers[ci].activation_function;
            self.layers[ci] = Layer {
                layer_type: lt,
                size: sz,
                weights: w,
                biases: b,
                activation_function: act,
            };
            ci = ci + 1;
        }
        proof {
            assert forall|k: int| 0 <= k < self.layers@.len() implies (
            #[trigger] self.layers@[k]).shaped(prev_size(self.layers@, k)) by {
                if k >= 1 {
                    assert(sm(self.layers@[k].weights@) == stepped_weights(ls, xs, ts, lr, k));
                }
                assert(ls[k].shaped(prev_size(ls, k)));
            }
            assert(step_fits(ls, xs, ts, lr)) by {
                assert(all_fit(xs));
                assert(all_fit(ts));
                assert(forward_fits(ls, xs));
                assert(loss_in_range(net_forward_spec(ls, xs), ts));
                assert(deriv_in_range(net_forward_spec(ls, xs), ts));
                assert(forall|k: int|
                    1 <= k < ls.len() ==> #[trigger] step_fits_at(ls, xs, ts, lr, k));
            }
            assert(self.wf());
        }
        Ok(loss)
    }

    /// Repeats `train_step` over the dataset for `epochs` epochs,
    /// optionally reordering the samples each epoch with the network's
    /// deterministic random source.  On success the final parameters are
    /// exactly the composition of the pinned per-step updates along the
    /// pinned visit orders, and the summary reports the truncated mean loss
    /// of the last epoch.  A failing step aborts training at once with that
    /// step's error; the parameters then hold the steps already taken.
    #[verifier::loop_isolation(false)]
    #[verifier::rlimit(100)]
    #[verifier::spinoff_prover]
    pub fn train(
        &mut self,
        dataset: &Vec<(Vec<i64>, Vec<i64>)>,
        epochs: usize,
        shuffle: bool,
    ) -> (r: Result<TrainingSummary, NetworkError>)
        requires
            old(self).wf(),
        ensures
            final(self).wf(),
            r == Err::<TrainingSummary, NetworkError>(NetworkError::NotInitialized) <==> !old(
                self,
            ).ready,
            old(self).ready && (epochs == 0 || dataset@.len() == 0) ==> r == Ok::<
                TrainingSummary,
                NetworkError,
            >(
                TrainingSummary { epochs_run: epochs, final_average_loss: 0, cancelled: false },
            ) && *final(self) == *old(self),
            r matches Ok(s) ==> s.epochs_run == epochs && !s.cancelled,
            r is Ok ==> final(self).ready && final(self).optimizer == old(self).optimizer
                && final(self).loss_function == old(self).loss_function,
            r matches Ok(s) ==> exists|last_sum: int|
                #[trigger] training_run(
                    old(self).layers@,
                    final(self).layers@,
                    dataset@,
                    epochs as int,
                    shuffle,
                    old(self).rng.state as int,
                    final(self).rng.state as int,
                    old(self).optimizer.learning_rate as int,
                    last_sum,
                ) && (epochs > 0 && dataset@.len() > 0 ==> s.final_average_loss as int
                    == tdiv(last_sum, dataset@.len() as int)) && ((epochs == 0
                    || dataset@.len() == 0) ==> s.final_average_loss == 0),
            r is Ok ==> final(self).layers@.len() == old(self).layers@.len() && (forall|
                i: int,
            |
                0 <= i < old(self).layers@.len() ==> (
                #[trigger] final(self).layers@[i]).layer_type == old(
                    self,
                ).layers@[i].layer_type && final(self).layers@[i].size == old(
                    self,
                ).layers@[i].size && final(self).layers@[i].activation_function == old(
                    self,
                ).layers@[i].activation_function),
            r is Err && old(self).ready ==> epochs > 0 && dataset@.len() > 0 && exists|
                ed: int,
                stmid: int,
                esum: int,
                mid: Seq<Layer>,
                k: int,
                psum: int,
            |
                #![trigger training_run(
                    old(self).layers@,
                    mid,
                    dataset@,
                    ed,
                    shuffle,
                    old(self).rng.state as int,
                    stmid,
                    old(self).optimizer.learning_rate as int,
                    esum,
                ), steps_run(
                    mid,
                    final(self).layers@,
                    dataset@,
                    epoch_order(dataset@.len() as int, stmid, shuffle).0.take(k),
                    old(self).optimizer.learning_rate as int,
                    psum,
                )]
                0 <= ed < epochs && training_run(
                    old(self).layers@,
                    mid,
                    dataset@,
                    ed,
                    shuffle,
                    old(self).rng.state as int,
                    stmid,
                    old(self).optimizer.learning_rate as int,
                    esum,
                ) && 0 <= k <= dataset@.len() && steps_run(
                    mid,
                    final(self).layers@,
                    dataset@,
                    epoch_order(dataset@.len() as int, stmid, shuffle).0.take(k),
                    old(self).optimizer.learning_rate as int,
                    psum,
                ),
    {
        if !self.ready {
            return Err(NetworkError::NotInitialized);
        }
        let m = dataset.len();
        let ghost st0: int = self.rng.state as int;
        let ghost lr: int = self.optimizer.learning_rate as int;
        let mut last_avg: i64 = 0;
        let ghost mut lsum: int = 0;
        proof {
            assert(training_run(
                self.layers@,
                self.layers@,
                dataset@,
                0,
                shuffle,
                self.rng.state as int,
                self.rng.state as int,
                lr,
                0,
            )) by {
                reveal_with_fuel(training_run, 1);
            }
        }
        let mut ep: usize = 0;
        while ep < epochs
            invariant
                0 <= ep <= epochs,
                m == dataset@.len(),
                self.wf(),
                self.ready,
                self.optimizer == old(self).optimizer,
                self.loss_function == old(self).loss_function,
                lr == self.optimizer.learning_rate as int,
                self.layers@.len() == old(self).layers@.len(),
                forall|i: int|
                    0 <= i < old(self).layers@.len() ==> (
                    #[trigger] self.layers@[i]).layer_type == old(
                        self,
                    ).layers@[i].layer_type && self.layers@[i].size == old(
                        self,
                    ).layers@[i].size && self.layers@[i].activation_function == old(
                        self,
                    ).layers@[i].activation_function,
                training_run(
                    old(self).layers@,
                    self.layers@,
                    dataset@,
                    ep as int,
                    shuffle,
                    st0,
                    self.rng.state as int,
                    lr,
                    lsum,
                ),
                m > 0 && ep > 0 ==> last_avg as int == tdiv(lsum, m as int),
                m == 0 || ep == 0 ==> last_avg == 0 && lsum == 0,
                ep == 0 ==> *self == *old(self),
                m == 0 ==> *self == *old(self),
            decreases epochs - ep,
        {
            let ghost pre_ep = self.layers@;
            let ghost st_ep: int = self.rng.state as int;
            let ghost prev_lsum: int = lsum;
            // the visiting order for this epoch
            let mut order: Vec<usize> = Vec::new();
            let mut k: usize = 0;
            while k < m
                invariant
                    0 <= k <= m,
                    order@.len() == k,
                    forall|j: int| 0 <= j < k ==> #[trigger] order@[j] < m,
                    ord_view(order@) =~= identity_order(k as int),
                decreases m - k,
            {
                let ghost ov0 = ord_view(order@);
                order.push(k);
                proof {
                    assert(ord_view(order@) =~= ov0.push(k as int));
                    assert(ov0.push(k as int) =~= identity_order(k as int + 1));
                }
                k = k + 1;
            }
            if shuffle && m > 1 {
                let mut k2: usize = m - 1;
                while k2 >= 1
                    invariant
                        0 <= k2 <= m - 1,
                        order@.len() == m,
                        self.wf(),
                        self.ready,
                        self.layers@ == pre_ep,
                        self.optimizer == old(self).optimizer,
                        self.loss_function == old(self).loss_function,
                        forall|j: int| 0 <= j < m ==> #[trigger] order@[j] < m,
                        fy_shuffle(identity_order(m as int), st_ep, m as int - 1)
                            == fy_shuffle(
                            ord_view(order@),
                            self.rng.state as int,
                            k2 as int,
                        ),
                    decreases k2,
                {
                    let ghost ord_pre = ord_view(order@);
                    let ghost st_pre: int = self.rng.state as int;
                    let j = self.rng.next_below((k2 + 1) as u64);
                    let ju = j as usize;
                    let a = order[k2];
                    let b = order[ju];
                    order[k2] = b;
                    order[ju] = a;
                    proof {
                        assert(ord_view(order@) =~= ord_pre.update(
                            k2 as int,
                            ord_pre[j as int],
                        ).update(j as int, ord_pre[k2 as int]));
                        assert(self.rng.state as int == lcg(st_pre));
                        assert(j as int == lcg(st_pre) % (k2 as int + 1));
                        assert(fy_shuffle(ord_pre, st_pre, k2 as int) == fy_shuffle(
                            ord_view(order@),
                            self.rng.state as int,
                            k2 as int - 1,
                        ));
                    }
                    k2 = k2 - 1;
                }
            }
            let ghost epair = epoch_order(m as int, st_ep, shuffle);
            proof {
                assert(ord_view(order@) == epair.0);
                assert(self.rng.state as int == epair.1);
            }
            // one pass over the dataset
            let mut sum: i128 = 0;
            proof {
                assert(ord_view(order@).take(0) =~= Seq::<int>::empty());
                assert(steps_run(
                    pre_ep,
                    self.layers@,
                    dataset@,
                    ord_view(order@).take(0),
                    lr,
                    0,
                )) by {
                    reveal_with_fuel(steps_run, 1);
                }
            }
            let mut si: usize = 0;
            while si < m
                invariant
                    0 <= si <= m,
                    order@.len() == m,
                    m == dataset@.len(),
                    forall|j2: int| 0 <= j2 < m ==> #[trigger] order@[j2] < m,
                    ord_view(order@) == epair.0,
                    self.rng.state as int == epair.1,
                    self.wf(),
                    self.ready,
                    self.optimizer == old(self).optimizer,
                    self.loss_function == old(self).loss_function,
                    self.layers@.len() == old(self).layers@.len(),
                    forall|i: int|
                        0 <= i < old(self).layers@.len() ==> (
                        #[trigger] self.layers@[i]).layer_type == old(
                            self,
                        ).layers@[i].layer_type && self.layers@[i].size == old(
                            self,
                        ).layers@[i].size && self.layers@[i].activation_function == old(
                            self,
                        ).layers@[i].activation_function,
                    0 <= sum <= (si as int) * MAXV as int,
                    steps_run(
                        pre_ep,
                        self.layers@,
                        dataset@,
                        ord_view(order@).take(si as int),
                        lr,
                        sum as int,
                    ),
                    m == 0 ==> *self == *old(self),
                decreases m - si,
            {
                proof {
                    lemma_mul_is_distributive_add_other_way(
                        MAXV as int,
                        si as int,
                        1,
                    );
                    lemma_mul_is_commutative(si as int + 1, MAXV as int);
                    lemma_mul_is_commutative(si as int, MAXV as int);
                    lemma_mul_inequality(
                        si as int + 1,
                        0x10000000000000000,
                        MAXV as int,
                    );
                }
                let idx = order[si];
                let pair = &dataset[idx];
                let ghost before = self.layers@;
                let step = self.train_step(&pair.0, &pair.1);
                match step {
                    Ok(l) => {
                        proof {
                            assert(stepped_layers(
                                before,
                                self.layers@,
                                sv(dataset@[idx as int].0@),
                                sv(dataset@[idx as int].1@),
                                lr,
                            ));
                            lemma_steps_run_snoc(
                                pre_ep,
                                before,
                                self.layers@,
                                dataset@,
                                ord_view(order@).take(si as int),
                                lr,
                                sum as int,
                                idx as int,
                            );
                            assert(ord_view(order@).take(si as int).push(idx as int)
                                =~= ord_view(order@).take(si as int + 1));
                        }
                        sum = sum + (l as i128);
                    },
                    Err(e) => {
                        proof {
                            assert(training_run(
                                old(self).layers@,
                                pre_ep,
                                dataset@,
                                ep as int,
                                shuffle,
                                st0,
                                st_ep,
                                lr,
                                lsum,
                            ) && 0 <= si as int <= dataset@.len() && steps_run(
                                pre_ep,
                                self.layers@,
                                dataset@,
                                epoch_order(
                                    dataset@.len() as int,
                                    st_ep,
                                    shuffle,
                                ).0.take(si as int),
                                lr,
                                sum as int,
                            ));
                        }
                        return Err(e);
                    },
                }
                si = si + 1;
            }
            proof {
                assert(ord_view(order@).take(m as int) =~= ord_view(order@));
            }
            if m > 0 {
                proof {
                    lemma_mul_is_commutative(m as int, MAXV as int);
                    lemma_tdiv_bounded(sum as int, m as int, MAXV as int);
                }
                let avg = crate::fixed::tdiv_i128(sum, m as u64);
                last_avg = avg as i64;
            }
            proof {
                lemma_training_run_snoc(
                    old(self).layers@,
                    pre_ep,
                    self.layers@,
                    dataset@,
                    ep as int,
                    shuffle,
                    st0,
                    st_ep,
                    self.rng.state as int,
                    lr,
                    prev_lsum,
                    sum as int,
                );
                lsum = sum as int;
            }
            ep = ep + 1;
        }
        Ok(TrainingSummary { epochs_run: epochs, final_average_loss: last_avg, cancelled: false })
    }

    /// The number of layers.
    pub fn layer_count(&self) -> (r: usize)
        ensures
            r == self.layers@.len(),
    {
        self.layers.len()
    }

    /// The neuron count of the layer at `index`.
    pub fn layer_size(&self, index: usize) -> (r: Result<usize, NetworkError>)
        ensures
            r is Ok <==> index < self.layers@.len(),
            r matches Ok(v) ==> v == self.layers@[index as int].size,
            r is Err ==> r == Err::<usize, NetworkError>(NetworkError::ConfigurationError),
    {
        if index < self.layers.len() {
            Ok(self.layers[index].size)
        } else {
            Err(NetworkError::ConfigurationError)
        }
    }
}

/// A copy of a matrix, row by row.
pub(crate) fn copy_mat(x: &Vec<Vec<i64>>) -> (r: Vec<Vec<i64>>)
    ensures
        r@.len() == x@.len(),
        forall|i: int| 0 <= i < x@.len() ==> (#[trigger] r@[i])@ == x@[i]@,
{
    let mut r: Vec<Vec<i64>> = Vec::new();
    let mut i: usize = 0;
    let n = x.len();
    while i < n
        invariant
            0 <= i <= n,
            n == x@.len(),
            r@.len() == i,
            forall|j: int| 0 <= j < i ==> (#[trigger] r@[j])@ == x@[j]@,
        decreases n - i,
    {
        let row = copy_vec(&x[i]);
        r.push(row);
        i = i + 1;
    }
    r
}

} // verus!
