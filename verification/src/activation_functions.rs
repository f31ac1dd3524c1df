//! Activation functions over fixed-point vectors.
//!
//! Each kind has an elementwise forward transform and an elementwise
//! derivative evaluated at the already-activated value `y` (so a backward
//! pass never has to re-derive the pre-activation value).  The saturating
//! kinds are built from a fixed-point approximation of `e^(-u)`: a quadratic
//! series head at a small argument followed by repeated squaring.  The
//! specification functions below pin the computed value exactly.

use crate::fixed::{
    all_fit, fits, lemma_tdiv_bounded, lemma_tdiv_range, sv, tdiv, tdiv_i128, MAXV, MAX_DIM,
    SCALE,
};
use vstd::arithmetic::div_mod::{
    lemma_div_is_ordered, lemma_div_is_ordered_by_denominator, lemma_div_multiples_vanish,
    lemma_div_nonincreasing, lemma_div_pos_is_pos, lemma_fundamental_div_mod_converse,
};
use vstd::prelude::*;

verus! {

/// Arguments of the exponential are clipped to this magnitude (20 in real
/// terms); beyond it `e^(-u)` is below one fixed-point quantum anyway.
pub const XCLIP: i64 = 20_000_000;

/// The closed set of activation kinds a layer can carry.
#[derive(Clone, Copy, Debug, PartialEq, Eq, Structural)]
pub enum ActivationFunction {
    Sigmoid,
    ReLU,
    Tanh,
    Softmax,
    Linear,
    LeakyReLU,
}

/// Quadratic head of the series for `e^(-v)` at a small argument `v`.
pub open spec fn exp_series(v: int) -> int {
    SCALE as int - v + (v * v) / (2 * SCALE as int)
}

/// `n` repeated fixed-point squarings.
pub open spec fn square_iter(q: int, n: nat) -> int
    decreases n,
{
    if n == 0 {
        q
    } else {
        square_iter(tdiv(q * q, SCALE as int), (n - 1) as nat)
    }
}

/// Fixed-point `e^(-u)` for `u >= 0`: clip, take the series at `u / 1024`,
/// square ten times, and clamp to at least one quantum so the result stays
/// strictly positive.
pub open spec fn exp_neg_spec(u: int) -> int {
    let uc = if u > XCLIP as int {
        XCLIP as int
    } else {
        u
    };
    let q = square_iter(exp_series(uc / 1024), 10);
    if q < 1 {
        1
    } else {
        q
    }
}

/// Fixed-point sigmoid at a non-negative argument.
pub open spec fn sigmoid_pos_spec(x: int) -> int {
    (SCALE as int * SCALE as int) / (SCALE as int + exp_neg_spec(x))
}

/// Fixed-point sigmoid, using the symmetry `sigmoid(-x) = 1 - sigmoid(x)`.
pub open spec fn sigmoid_spec(x: int) -> int {
    if x < 0 {
        SCALE as int - sigmoid_pos_spec(-x)
    } else {
        sigmoid_pos_spec(x)
    }
}

/// Fixed-point tanh via `tanh(x) = 2 * sigmoid(2x) - 1`.
pub open spec fn tanh_spec(x: int) -> int {
    2 * sigmoid_spec(2 * x) - SCALE as int
}

/// Elementwise forward value of each kind (Softmax is defined on whole
/// vectors; see `act_forward_spec`).
pub open spec fn act_fwd(k: ActivationFunction, x: int) -> int {
    match k {
        ActivationFunction::Sigmoid => sigmoid_spec(x),
        ActivationFunction::ReLU => if x > 0 {
            x
        } else {
            0
        },
        ActivationFunction::Tanh => tanh_spec(x),
        ActivationFunction::Softmax => x,
        ActivationFunction::Linear => x,
        ActivationFunction::LeakyReLU => if x > 0 {
            x
        } else {
            tdiv(x, 100)
        },
    }
}

/// Elementwise derivative of each kind, evaluated at the activated value.
pub open spec fn act_bwd(k: ActivationFunction, y: int) -> int {
    match k {
        ActivationFunction::Sigmoid => tdiv(y * (SCALE as int - y), SCALE as int),
        ActivationFunction::ReLU => if y > 0 {
            SCALE as int
        } else {
            0
        },
        ActivationFunction::Tanh => SCALE as int - tdiv(y * y, SCALE as int),
        ActivationFunction::Softmax => tdiv(y * (SCALE as int - y), SCALE as int),
        ActivationFunction::Linear => SCALE as int,
        ActivationFunction::LeakyReLU => if y > 0 {
            SCALE as int
        } else {
            10_000
        },
    }
}

/// Largest entry among the first `n` of a sequence.
pub open spec fn seq_max(x: Seq<int>, n: int) -> int
    decreases n,
{
    if n <= 1 {
        x[0]
    } else {
        let m = seq_max(x, n - 1);
        if x[n - 1] > m {
            x[n - 1]
        } else {
            m
        }
    }
}

/// Sum of `e^(-(m - x[i]))` over the first `n` entries.
pub open spec fn exp_sum(x: Seq<int>, m: int, n: int) -> int
    decreases n,
{
    if n <= 0 {
        0
    } else {
        exp_sum(x, m, n - 1) + exp_neg_spec(m - x[n - 1])
    }
}

/// Softmax of a whole vector, shifted by the maximum so every exponential
/// argument is non-negative.
pub open spec fn softmax_spec(x: Seq<int>) -> Seq<int> {
    let m = seq_max(x, x.len() as int);
    let s = exp_sum(x, m, x.len() as int);
    Seq::new(x.len(), |i: int| (exp_neg_spec(m - x[i]) * SCALE as int) / s)
}

/// Forward transform of a whole vector.
pub open spec fn act_forward_spec(k: ActivationFunction, x: Seq<int>) -> Seq<int> {
    if k == ActivationFunction::Softmax {
        softmax_spec(x)
    } else {
        Seq::new(x.len(), |i: int| act_fwd(k, x[i]))
    }
}

/// Derivative of a whole vector, elementwise at the activated values.
pub open spec fn act_backward_spec(k: ActivationFunction, y: Seq<int>) -> Seq<int> {
    Seq::new(y.len(), |i: int| act_bwd(k, y[i]))
}

/// The values the derivative form accepts: activation outputs of the
/// saturating kinds lie within one unit, the pass-through kinds accept any
/// in-range value.
pub open spec fn act_domain(k: ActivationFunction, y: int) -> bool {
    match k {
        ActivationFunction::Sigmoid => -(SCALE as int) <= y <= SCALE as int,
        ActivationFunction::Tanh => -(SCALE as int) <= y <= SCALE as int,
        ActivationFunction::Softmax => -(SCALE as int) <= y <= SCALE as int,
        _ => fits(y),
    }
}

proof fn lemma_exp_series_range(v: int)
    requires
        0 <= v <= 19531,
    ensures
        0 <= exp_series(v) <= SCALE as int,
{
    let d = (v * v) / (2 * SCALE as int);
    lemma_div_pos_is_pos(v * v, 2 * SCALE as int);
    assert(v * v <= 2 * SCALE as int * v) by (nonlinear_arith)
        requires 0 <= v <= 19531;
    lemma_div_is_ordered(v * v, 2 * SCALE as int * v, 2 * SCALE as int);
    lemma_div_multiples_vanish(v, 2 * SCALE as int);
    assert(d <= v);
}

proof fn lemma_square_iter_range(q: int, n: nat)
    requires
        0 <= q <= SCALE as int,
    ensures
        0 <= square_iter(q, n) <= SCALE as int,
    decreases n,
{
    if n > 0 {
        let q2 = tdiv(q * q, SCALE as int);
        assert(0 <= q * q <= SCALE as int * SCALE as int) by (nonlinear_arith)
            requires 0 <= q <= SCALE as int;
        lemma_div_pos_is_pos(q * q, SCALE as int);
        lemma_div_is_ordered(q * q, SCALE as int * SCALE as int, SCALE as int);
        lemma_div_multiples_vanish(SCALE as int, SCALE as int);
        assert(0 <= q2 <= SCALE as int);
        lemma_square_iter_range(q2, (n - 1) as nat);
    }
}

/// The exponential approximation stays strictly positive and at most one.
pub proof fn lemma_exp_neg_range(u: int)
    requires
        u >= 0,
    ensures
        1 <= exp_neg_spec(u) <= SCALE as int,
{
    let uc = if u > XCLIP as int {
        XCLIP as int
    } else {
        u
    };
    lemma_div_pos_is_pos(uc, 1024);
    lemma_div_is_ordered(uc, XCLIP as int, 1024);
    lemma_fundamental_div_mod_converse(XCLIP as int, 1024, 19531, 256);
    lemma_exp_series_range(uc / 1024);
    lemma_square_iter_range(exp_series(uc / 1024), 10);
}

/// The sigmoid stays strictly between zero and one.
pub proof fn lemma_sigmoid_range(x: int)
    ensures
        1 <= sigmoid_spec(x) <= SCALE as int - 1,
{
    lemma_sigmoid_pos_range(if x < 0 { -x } else { x });
}

proof fn lemma_sigmoid_pos_range(x: int)
    requires
        x >= 0,
    ensures
        500_000 <= sigmoid_pos_spec(x) <= SCALE as int - 1,
{
    let q = exp_neg_spec(x);
    lemma_exp_neg_range(x);
    lemma_div_is_ordered_by_denominator(1_000_000_000_000, 1_000_001, SCALE as int + q);
    lemma_div_is_ordered_by_denominator(1_000_000_000_000, SCALE as int + q, 2_000_000);
    lemma_fundamental_div_mod_converse(1_000_000_000_000, 1_000_001, 999_999, 1);
    lemma_fundamental_div_mod_converse(1_000_000_000_000, 2_000_000, 500_000, 0);
}

fn exp_neg(u: i64) -> (r: i64)
    requires
        0 <= u,
    ensures
        r == exp_neg_spec(u as int),
        1 <= r <= SCALE,
{
    let uc: i64 = if u > XCLIP {
        XCLIP
    } else {
        u
    };
    proof {
        lemma_div_pos_is_pos(uc as int, 1024);
        lemma_div_is_ordered(uc as int, XCLIP as int, 1024);
        lemma_fundamental_div_mod_converse(XCLIP as int, 1024, 19531, 256);
    }
    let v: i64 = ((uc as u64) / 1024) as i64;
    proof {
        assert(v == uc as int / 1024);
        assert(0 <= v as int * v as int <= 381_459_961) by (nonlinear_arith)
            requires 0 <= v as int <= 19531;
        lemma_div_pos_is_pos(v as int * v as int, 2 * SCALE as int);
        lemma_div_nonincreasing(v as int * v as int, 2 * SCALE as int);
    }
    let dsmall: i64 = (((v * v) as u64) / (2 * SCALE as u64)) as i64;
    let s0: i64 = SCALE - v + dsmall;
    proof {
        lemma_exp_series_range(v as int);
        assert(s0 as int == exp_series(v as int));
    }
    let mut q: i64 = s0;
    let mut i: usize = 0;
    while i < 10
        invariant
            0 <= q <= SCALE,
            i <= 10,
            square_iter(q as int, (10 - i) as nat) == square_iter(s0 as int, 10),
        decreases 10 - i,
    {
        proof {
            assert(0 <= q * q <= 1_000_000_000_000) by (nonlinear_arith)
                requires 0 <= q <= 1_000_000;
            lemma_div_pos_is_pos(q as int * q as int, SCALE as int);
            lemma_div_is_ordered(q as int * q as int, 1_000_000_000_000, SCALE as int);
            lemma_fundamental_div_mod_converse(1_000_000_000_000, 1_000_000, 1_000_000, 0);
        }
        let q2: i64 = (((q * q) as u64) / (SCALE as u64)) as i64;
        proof {
            assert(q2 as int == tdiv(q as int * q as int, SCALE as int));
            assert(square_iter(q as int, (10 - i) as nat) == square_iter(
                q2 as int,
                (10 - (i + 1)) as nat,
            ));
        }
        q = q2;
        i = i + 1;
    }
    proof {
        lemma_exp_neg_range(u as int);
    }
    if q < 1 {
        1
    } else {
        q
    }
}

fn sigmoid_pos_part(x: i64) -> (r: i64)
    requires
        0 <= x,
    ensures
        r == sigmoid_pos_spec(x as int),
        500_000 <= r <= SCALE - 1,
{
    let q = exp_neg(x);
    proof {
        lemma_div_pos_is_pos(1_000_000_000_000, SCALE as int + q as int);
        lemma_div_nonincreasing(1_000_000_000_000, SCALE as int + q as int);
        lemma_sigmoid_pos_range(x as int);
    }
    let y: i64 = (((SCALE as u64) * (SCALE as u64)) / ((SCALE + q) as u64)) as i64;
    proof {
        assert(y as int == sigmoid_pos_spec(x as int));
    }
    y
}

fn sigmoid_one(x: i64) -> (r: i64)
    requires
        -2 * MAXV <= x <= 2 * MAXV,
    ensures
        r == sigmoid_spec(x as int),
        1 <= r <= SCALE - 1,
{
    if x < 0 {
        let y = sigmoid_pos_part(-x);
        SCALE - y
    } else {
        sigmoid_pos_part(x)
    }
}

fn tanh_one(x: i64) -> (r: i64)
    requires
        -MAXV <= x <= MAXV,
    ensures
        r == tanh_spec(x as int),
        -(SCALE as int) < r < SCALE as int,
{
    let s = sigmoid_one(2 * x);
    2 * s - SCALE
}

/// One elementwise forward value; every kind but Softmax.
fn act_fwd_one(k: ActivationFunction, x: i64) -> (r: i64)
    requires
        k != ActivationFunction::Softmax,
        fits(x as int),
    ensures
        r as int == act_fwd(k, x as int),
        fits(r as int),
        act_domain(k, r as int),
{
    match k {
        ActivationFunction::Sigmoid => sigmoid_one(x),
        ActivationFunction::ReLU => if x > 0 {
            x
        } else {
            0
        },
        ActivationFunction::Tanh => tanh_one(x),
        ActivationFunction::Softmax => 0,
        ActivationFunction::Linear => x,
        ActivationFunction::LeakyReLU => {
            if x > 0 {
                x
            } else {
                let m: u64 = ((-x) as u64) / 100;
                proof {
                    lemma_tdiv_range(x as int, 100);
                }
                -(m as i64)
            }
        },
    }
}

/// Entries of a sequence never pass its running maximum, which is itself an
/// entry.
proof fn lemma_seq_max(x: Seq<int>, n: int)
    requires
        1 <= n <= x.len(),
    ensures
        forall|i: int| 0 <= i < n ==> #[trigger] x[i] <= seq_max(x, n),
        exists|i: int| 0 <= i < n && x[i] == seq_max(x, n),
    decreases n,
{
    if n == 1 {
        assert(x[0] == seq_max(x, 1));
    } else {
        lemma_seq_max(x, n - 1);
        let m0 = seq_max(x, n - 1);
        if x[n - 1] > m0 {
            assert(x[n - 1] == seq_max(x, n));
        } else {
            let i0 = choose|i: int| 0 <= i < n - 1 && x[i] == m0;
            assert(x[i0] == seq_max(x, n));
        }
    }
}

/// Each exponential term is positive and no larger than the whole sum.
proof fn lemma_exp_sum_bounds(x: Seq<int>, m: int, n: int)
    requires
        0 <= n <= x.len(),
        forall|i: int| 0 <= i < n ==> #[trigger] x[i] <= m,
    ensures
        n <= exp_sum(x, m, n) <= n * SCALE as int,
        forall|i: int|
            0 <= i < n ==> #[trigger] exp_neg_spec(m - x[i]) <= exp_sum(x, m, n),
    decreases n,
{
    if n > 0 {
        lemma_exp_sum_bounds(x, m, n - 1);
        lemma_exp_neg_range(m - x[n - 1]);
        assert((n - 1) * SCALE as int + SCALE as int == n * SCALE as int) by (nonlinear_arith);
    }
}

fn softmax_forward(x: &Vec<i64>) -> (r: Vec<i64>)
    requires
        all_fit(sv(x@)),
        x@.len() <= MAX_DIM,
    ensures
        r@.len() == x@.len(),
        sv(r@) == softmax_spec(sv(x@)),
        forall|i: int| 0 <= i < r@.len() ==> 0 <= #[trigger] r@[i] <= SCALE,
{
    let n = x.len();
    let ghost xs = sv(x@);
    if n == 0 {
        let r: Vec<i64> = Vec::new();
        proof {
            assert(sv(r@) =~= softmax_spec(xs));
        }
        return r;
    }
    // running maximum
    let mut m: i64 = x[0];
    proof {
        assert(sv(x@)[0] == x@[0] as int);
    }
    let mut i: usize = 1;
    while i < n
        invariant
            1 <= i <= n,
            n == x@.len(),
            all_fit(sv(x@)),
            m as int == seq_max(sv(x@), i as int),
            fits(m as int),
        decreases n - i,
    {
        proof {
            assert(sv(x@)[i as int] == x@[i as int] as int);
        }
        if x[i] > m {
            m = x[i];
        }
        i = i + 1;
    }
    proof {
        lemma_seq_max(xs, n as int);
    }
    // exponential terms and their sum
    let mut e: Vec<i64> = Vec::new();
    let mut se: i64 = 0;
    let mut j: usize = 0;
    while j < n
        invariant
            0 <= j <= n,
            n == x@.len(),
            n <= MAX_DIM,
            all_fit(sv(x@)),
            m as int == seq_max(sv(x@), n as int),
            fits(m as int),
            forall|i2: int| 0 <= i2 < n ==> #[trigger] sv(x@)[i2] <= m as int,
            e@.len() == j,
            forall|i2: int|
                0 <= i2 < j ==> #[trigger] e@[i2] as int == exp_neg_spec(
                    m as int - sv(x@)[i2],
                ),
            forall|i2: int| 0 <= i2 < j ==> 1 <= #[trigger] e@[i2] <= SCALE,
            se as int == exp_sum(sv(x@), m as int, j as int),
            j <= se as int <= j * SCALE as int,
        decreases n - j,
    {
        proof {
            assert(sv(x@)[j as int] == x@[j as int] as int);
            assert(se as int <= 65536 * SCALE as int) by (nonlinear_arith)
                requires
                    se as int <= j as int * SCALE as int,
                    0 <= j as int <= 65536,
            ;
        }
        let xi = x[j];
        let ev = exp_neg(m - xi);
        e.push(ev);
        proof {
            assert((j + 1) * SCALE as int == j * SCALE as int + SCALE as int)
                by (nonlinear_arith);
            assert(e@[j as int] as int == exp_neg_spec(m as int - sv(x@)[j as int]));
        }
        se = se + ev;
        j = j + 1;
    }
    proof {
        lemma_exp_sum_bounds(xs, m as int, n as int);
    }
    // normalized outputs
    let mut r: Vec<i64> = Vec::new();
    let mut k: usize = 0;
    while k < n
        invariant
            0 <= k <= n,
            n == x@.len(),
            e@.len() == n,
            forall|i2: int|
                0 <= i2 < n ==> #[trigger] e@[i2] as int == exp_neg_spec(
                    m as int - sv(x@)[i2],
                ),
            forall|i2: int| 0 <= i2 < n ==> 1 <= #[trigger] e@[i2] <= SCALE,
            forall|i2: int|
                0 <= i2 < n ==> #[trigger] exp_neg_spec(m as int - sv(x@)[i2])
                    <= exp_sum(sv(x@), m as int, n as int),
            m as int == seq_max(sv(x@), n as int),
            se as int == exp_sum(sv(x@), m as int, n as int),
            1 <= se,
            r@.len() == k,
            forall|i2: int|
                0 <= i2 < k ==> #[trigger] r@[i2] as int == (exp_neg_spec(
                    m as int - sv(x@)[i2],
                ) * SCALE as int) / se as int,
            forall|i2: int| 0 <= i2 < k ==> 0 <= #[trigger] r@[i2] <= SCALE,
        decreases n - k,
    {
        proof {
            assert(sv(x@)[k as int] == x@[k as int] as int);
        }
        let ev = e[k];
        let y: i64 = (((ev as u64) * (SCALE as u64)) / (se as u64)) as i64;
        proof {
            lemma_div_pos_is_pos(ev as int * SCALE as int, se as int);
            assert(ev as int * SCALE as int <= se as int * SCALE as int) by (nonlinear_arith)
                requires 1 <= ev as int <= se as int;
            lemma_div_is_ordered(
                ev as int * SCALE as int,
                se as int * SCALE as int,
                se as int,
            );
            lemma_div_multiples_vanish(SCALE as int, se as int);
        }
        r.push(y);
        proof {
            assert(r@[k as int] == y);
        }
        k = k + 1;
    }
    proof {
        assert(sv(r@) =~= softmax_spec(xs));
    }
    r
}

/// Applies the forward transform of `k` to a whole vector.
pub fn activation_forward(k: ActivationFunction, x: &Vec<i64>) -> (r: Vec<i64>)
    requires
        all_fit(sv(x@)),
        x@.len() <= MAX_DIM,
    ensures
        r@.len() == x@.len(),
        sv(r@) == act_forward_spec(k, sv(x@)),
        all_fit(sv(r@)),
        forall|i: int| 0 <= i < r@.len() ==> act_domain(k, #[trigger] sv(r@)[i]),
        k != ActivationFunction::Softmax ==> forall|i: int|
            0 <= i < r@.len() ==> #[trigger] r@[i] as int == act_fwd(k, sv(x@)[i]),
        k == ActivationFunction::Softmax ==> forall|i: int|
            0 <= i < r@.len() ==> 0 <= #[trigger] r@[i] <= SCALE,
{
    if k == ActivationFunction::Softmax {
        let r = softmax_forward(x);
        return r;
    }
    let n = x.len();
    let mut r: Vec<i64> = Vec::new();
    let mut i: usize = 0;
    while i < n
        invariant
            0 <= i <= n,
            n == x@.len(),
            all_fit(sv(x@)),
            k != ActivationFunction::Softmax,
            r@.len() == i,
            forall|i2: int|
                0 <= i2 < i ==> #[trigger] r@[i2] as int == act_fwd(k, sv(x@)[i2]),
            forall|i2: int| 0 <= i2 < i ==> fits(#[trigger] r@[i2] as int),
            forall|i2: int| 0 <= i2 < i ==> act_domain(k, #[trigger] r@[i2] as int),
        decreases n - i,
    {
        proof {
            assert(sv(x@)[i as int] == x@[i as int] as int);
        }
        let y = act_fwd_one(k, x[i]);
        r.push(y);
        proof {
            assert(r@[i as int] == y);
        }
        i = i + 1;
    }
    proof {
        assert(sv(r@) =~= act_forward_spec(k, sv(x@)));
    }
    r
}

/// Applies the derivative of `k`, evaluated at the activated values `y`.
pub fn activation_backward(k: ActivationFunction, y: &Vec<i64>) -> (r: Vec<i64>)
    requires
        forall|i: int| 0 <= i < y@.len() ==> act_domain(k, #[trigger] sv(y@)[i]),
    ensures
        r@.len() == y@.len(),
        sv(r@) == act_backward_spec(k, sv(y@)),
        forall|i: int|
            0 <= i < r@.len() ==> #[trigger] r@[i] as int == act_bwd(k, sv(y@)[i]),
        forall|i: int|
            0 <= i < r@.len() ==> -2 * SCALE as int <= #[trigger] sv(r@)[i] <= 2
                * SCALE as int,
{
    let n = y.len();
    let mut r: Vec<i64> = Vec::new();
    let mut i: usize = 0;
    while i < n
        invariant
            0 <= i <= n,
            n == y@.len(),
            forall|i2: int| 0 <= i2 < n ==> act_domain(k, #[trigger] sv(y@)[i2]),
            r@.len() == i,
            forall|i2: int|
                0 <= i2 < i ==> #[trigger] r@[i2] as int == act_bwd(k, sv(y@)[i2]),
            forall|i2: int|
                0 <= i2 < i ==> -2 * SCALE as int <= #[trigger] r@[i2] as int <= 2
                    * SCALE as int,
        decreases n - i,
    {
        proof {
            assert(sv(y@)[i as int] == y@[i as int] as int);
        }
        let d = act_bwd_one(k, y[i]);
        r.push(d);
        proof {
            assert(r@[i as int] == d);
        }
        i = i + 1;
    }
    proof {
        assert(sv(r@) =~= act_backward_spec(k, sv(y@)));
    }
    r
}

/// One elementwise derivative value.
fn act_bwd_one(k: ActivationFunction, y: i64) -> (r: i64)
    requires
        act_domain(k, y as int),
    ensures
        r as int == act_bwd(k, y as int),
        -2 * SCALE as int <= r as int <= 2 * SCALE as int,
{
    match k {
        ActivationFunction::Sigmoid | ActivationFunction::Softmax => {
            proof {
                assert(-2_000_000_000_000 <= y as int * (SCALE as int - y as int)
                    <= 2_000_000_000_000) by (nonlinear_arith)
                    requires -(SCALE as int) <= y as int <= SCALE as int;
                lemma_tdiv_bounded(
                    y as int * (SCALE as int - y as int),
                    SCALE as int,
                    2_000_000,
                );
            }
            let p: i128 = (y as i128) * ((SCALE - y) as i128);
            let d = tdiv_i128(p, SCALE as u64);
            d as i64
        },
        ActivationFunction::ReLU => if y > 0 {
            SCALE
        } else {
            0
        },
        ActivationFunction::Tanh => {
            proof {
                assert(0 <= y as int * y as int <= 1_000_000_000_000) by (nonlinear_arith)
                    requires -(SCALE as int) <= y as int <= SCALE as int;
                lemma_tdiv_bounded(y as int * y as int, SCALE as int, 1_000_000);
            }
            let p: i128 = (y as i128) * (y as i128);
            let d = tdiv_i128(p, SCALE as u64);
            SCALE - (d as i64)
        },
        ActivationFunction::Linear => SCALE,
        ActivationFunction::LeakyReLU => if y > 0 {
            SCALE
        } else {
            10_000
        },
    }
}

/// Sigmoid activation, `1 / (1 + e^(-x))`.
#[derive(Clone, Copy, Debug, PartialEq, Eq, Structural)]
pub struct Sigmoid;

/// Rectified linear activation, `max(0, x)`.
#[derive(Clone, Copy, Debug, PartialEq, Eq, Structural)]
pub struct ReLU;

/// Hyperbolic tangent activation.
#[derive(Clone, Copy, Debug, PartialEq, Eq, Structural)]
pub struct Tanh;

/// Softmax over a whole vector, with the simplified elementwise derivative
/// `y * (1 - y)`.
#[derive(Clone, Copy, Debug, PartialEq, Eq, Structural)]
pub struct Softmax;

/// Identity activation.
#[derive(Clone, Copy, Debug, PartialEq, Eq, Structural)]
pub struct Linear;

/// Leaky rectified linear activation with slope 1/100 below zero.
#[derive(Clone, Copy, Debug, PartialEq, Eq, Structural)]
pub struct LeakyReLU;

impl Sigmoid {
    /// Elementwise sigmoid; every output lies strictly between zero and one.
    pub fn forward(&self, input: &Vec<i64>) -> (r: Vec<i64>)
        requires
            all_fit(sv(input@)),
            input@.len() <= MAX_DIM,
        ensures
            r@.len() == input@.len(),
            forall|i: int|
                0 <= i < r@.len() ==> #[trigger] r@[i] as int == sigmoid_spec(
                    input@[i] as int,
                ),
            forall|i: int| 0 <= i < r@.len() ==> 1 <= #[trigger] r@[i] <= SCALE - 1,
    {
        let r = activation_forward(ActivationFunction::Sigmoid, input);
        proof {
            assert forall|i: int| 0 <= i < r@.len() implies 1 <= #[trigger] r@[i] <= SCALE
                - 1 by {
                assert(sv(r@)[i] == act_fwd(ActivationFunction::Sigmoid, sv(input@)[i]));
                lemma_sigmoid_range(input@[i] as int);
            }
        }
        r
    }

    /// Elementwise derivative at the activated value: `y * (1 - y)`.
    pub fn backward(&self, input: &Vec<i64>) -> (r: Vec<i64>)
        requires
            forall|i: int|
                0 <= i < input@.len() ==> -(SCALE as int) <= #[trigger] input@[i] as int
                    <= SCALE as int,
        ensures
            r@.len() == input@.len(),
            forall|i: int|
                0 <= i < r@.len() ==> #[trigger] r@[i] as int == tdiv(
                    input@[i] as int * (SCALE as int - input@[i] as int),
                    SCALE as int,
                ),
    {
        activation_backward(ActivationFunction::Sigmoid, input)
    }
}

impl ReLU {
    /// Elementwise `max(0, x)`.
    pub fn forward(&self, input: &Vec<i64>) -> (r: Vec<i64>)
        requires
            all_fit(sv(input@)),
            input@.len() <= MAX_DIM,
        ensures
            r@.len() == input@.len(),
            forall|i: int|
                0 <= i < r@.len() ==> #[trigger] r@[i] == if input@[i] > 0 {
                    input@[i]
                } else {
                    0
                },
    {
        activation_forward(ActivationFunction::ReLU, input)
    }

    /// Elementwise derivative: one above zero, zero otherwise.
    pub fn backward(&self, input: &Vec<i64>) -> (r: Vec<i64>)
        requires
            all_fit(sv(input@)),
        ensures
            r@.len() == input@.len(),
            forall|i: int|
                0 <= i < r@.len() ==> #[trigger] r@[i] == if input@[i] > 0 {
                    SCALE
                } else {
                    0
                },
    {
        activation_backward(ActivationFunction::ReLU, input)
    }
}

impl Tanh {
    /// Elementwise tanh; every output lies strictly between minus one and one.
    pub fn forward(&self, input: &Vec<i64>) -> (r: Vec<i64>)
        requires
            all_fit(sv(input@)),
            input@.len() <= MAX_DIM,
        ensures
            r@.len() == input@.len(),
            forall|i: int|
                0 <= i < r@.len() ==> #[trigger] r@[i] as int == tanh_spec(
                    input@[i] as int,
                ),
            forall|i: int|
                0 <= i < r@.len() ==> -(SCALE as int) < #[trigger] r@[i] as int
                    && r@[i] < SCALE,
    {
        let r = activation_forward(ActivationFunction::Tanh, input);
        proof {
            assert forall|i: int| 0 <= i < r@.len() implies -(SCALE as int)
                < #[trigger] r@[i] as int && r@[i] < SCALE by {
                assert(r@[i] as int == act_fwd(ActivationFunction::Tanh, sv(input@)[i]));
                lemma_sigmoid_range(2 * input@[i] as int);
            }
        }
        r
    }

    /// Elementwise derivative at the activated value: `1 - y * y`.
    pub fn backward(&self, input: &Vec<i64>) -> (r: Vec<i64>)
        requires
            forall|i: int|
                0 <= i < input@.len() ==> -(SCALE as int) <= #[trigger] input@[i] as int
                    <= SCALE as int,
        ensures
            r@.len() == input@.len(),
            forall|i: int|
                0 <= i < r@.len() ==> #[trigger] r@[i] as int == SCALE as int - tdiv(
                    input@[i] as int * input@[i] as int,
                    SCALE as int,
                ),
    {
        activation_backward(ActivationFunction::Tanh, input)
    }
}

impl Softmax {
    /// Softmax of the whole vector; outputs lie between zero and one.
    pub fn forward(&self, input: &Vec<i64>) -> (r: Vec<i64>)
        requires
            all_fit(sv(input@)),
            input@.len() <= MAX_DIM,
        ensures
            r@.len() == input@.len(),
            sv(r@) == softmax_spec(sv(input@)),
            forall|i: int| 0 <= i < r@.len() ==> 0 <= #[trigger] r@[i] <= SCALE,
    {
        activation_forward(ActivationFunction::Softmax, input)
    }

    /// Simplified elementwise derivative at the activated value: `y * (1 - y)`.
    pub fn backward(&self, input: &Vec<i64>) -> (r: Vec<i64>)
        requires
            forall|i: int|
                0 <= i < input@.len() ==> -(SCALE as int) <= #[trigger] input@[i] as int
                    <= SCALE as int,
        ensures
            r@.len() == input@.len(),
            forall|i: int|
                0 <= i < r@.len() ==> #[trigger] r@[i] as int == tdiv(
                    input@[i] as int * (SCALE as int - input@[i] as int),
                    SCALE as int,
                ),
    {
        activation_backward(ActivationFunction::Softmax, input)
    }
}

impl Linear {
    /// The identity: the output is the input, unchanged.
    pub fn forward(&self, input: &Vec<i64>) -> (r: Vec<i64>)
        requires
            all_fit(sv(input@)),
            input@.len() <= MAX_DIM,
        ensures
            r@ == input@,
    {
        let r = activation_forward(ActivationFunction::Linear, input);
        proof {
            assert forall|i: int| 0 <= i < r@.len() implies #[trigger] r@[i]
                == input@[i] by {
                assert(sv(r@)[i] == act_fwd(ActivationFunction::Linear, sv(input@)[i]));
            }
            assert(r@ =~= input@);
        }
        r
    }

    /// Elementwise derivative: one everywhere.
    pub fn backward(&self, input: &Vec<i64>) -> (r: Vec<i64>)
        requires
            all_fit(sv(input@)),
        ensures
            r@.len() == input@.len(),
            forall|i: int| 0 <= i < r@.len() ==> #[trigger] r@[i] == SCALE,
    {
        activation_backward(ActivationFunction::Linear, input)
    }
}

impl LeakyReLU {
    /// Elementwise `max(x, x / 100)`.
    pub fn forward(&self, input: &Vec<i64>) -> (r: Vec<i64>)
        requires
            all_fit(sv(input@)),
            input@.len() <= MAX_DIM,
        ensures
            r@.len() == input@.len(),
            forall|i: int|
                0 <= i < r@.len() ==> #[trigger] r@[i] as int == if input@[i] > 0 {
                    input@[i] as int
                } else {
                    tdiv(input@[i] as int, 100)
                },
    {
        activation_forward(ActivationFunction::LeakyReLU, input)
    }

    /// Elementwise derivative: one above zero, 1/100 otherwise.
    pub fn backward(&self, input: &Vec<i64>) -> (r: Vec<i64>)
        requires
            all_fit(sv(input@)),
        ensures
            r@.len() == input@.len(),
            forall|i: int|
                0 <= i < r@.len() ==> #[trigger] r@[i] == if input@[i] > 0 {
                    SCALE
                } else {
                    10_000
                },
    {
        activation_backward(ActivationFunction::LeakyReLU, input)
    }
}

} // verus!
