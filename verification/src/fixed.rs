//! Fixed-point arithmetic: the number format and the facts about truncated
//! division that the rest of the engine leans on.

use vstd::arithmetic::div_mod::{
    lemma_div_denominator, lemma_div_is_ordered, lemma_div_multiples_vanish,
    lemma_div_nonincreasing, lemma_div_pos_is_pos,
};
use vstd::prelude::*;

verus! {

/// The fixed-point scale: a stored `i64` value `n` stands for `n / SCALE`.
pub const SCALE: i64 = 1_000_000;

/// Largest magnitude a value may take inside the engine.  Operations that
/// would pass it report `NumericalError` instead of returning a wrapped or
/// truncated number.
pub const MAXV: i64 = 2_000_000_000_000_000;

/// Largest neuron count of a single layer; keeps every intermediate sum of
/// the matrix arithmetic inside `i128`.
pub const MAX_DIM: usize = 65536;

/// Division truncated toward zero, the rounding used by the engine's
/// executable arithmetic.
pub open spec fn tdiv(a: int, d: int) -> int {
    if a >= 0 {
        a / d
    } else {
        -((-a) / d)
    }
}

/// A value inside the engine's working range.
pub open spec fn fits(x: int) -> bool {
    -(MAXV as int) <= x && x <= MAXV as int
}

/// The mathematical contents of a vector of fixed-point numbers.
pub open spec fn sv(v: Seq<i64>) -> Seq<int> {
    v.map_values(|x: i64| x as int)
}

/// The mathematical contents of a matrix (a vector of row vectors).
pub open spec fn sm(m: Seq<Vec<i64>>) -> Seq<Seq<int>> {
    m.map_values(|r: Vec<i64>| sv(r@))
}

/// Every entry of the sequence is in the working range.
pub open spec fn all_fit(s: Seq<int>) -> bool {
    forall|i: int| 0 <= i < s.len() ==> fits(#[trigger] s[i])
}

/// Dot product of the first `n` entries of two sequences.
pub open spec fn dot(a: Seq<int>, b: Seq<int>, n: int) -> int
    decreases n,
{
    if n <= 0 {
        0
    } else {
        dot(a, b, n - 1) + a[n - 1] * b[n - 1]
    }
}

/// Truncated division shrinks magnitudes and keeps signs.
pub proof fn lemma_tdiv_range(a: int, d: int)
    requires
        d >= 1,
    ensures
        a >= 0 ==> 0 <= tdiv(a, d) <= a,
        a < 0 ==> a <= tdiv(a, d) <= 0,
{
    if a >= 0 {
        lemma_div_pos_is_pos(a, d);
        lemma_div_nonincreasing(a, d);
    } else {
        lemma_div_pos_is_pos(-a, d);
        lemma_div_nonincreasing(-a, d);
    }
}

/// `|tdiv(a, d)| <= m` whenever `|a| <= m * d`.
pub proof fn lemma_tdiv_bounded(a: int, d: int, m: int)
    requires
        d >= 1,
        m >= 0,
        -(m * d) <= a <= m * d,
    ensures
        -m <= tdiv(a, d) <= m,
{
    lemma_div_multiples_vanish(m, d);
    assert(d * m == m * d) by (nonlinear_arith);
    if a >= 0 {
        lemma_div_pos_is_pos(a, d);
        lemma_div_is_ordered(a, m * d, d);
    } else {
        lemma_div_pos_is_pos(-a, d);
        lemma_div_is_ordered(-a, m * d, d);
    }
}

/// Splitting a truncated division into two stages.
pub proof fn lemma_tdiv_denominator(a: int, b: int, c: int)
    requires
        b >= 1,
        c >= 1,
    ensures
        tdiv(tdiv(a, b), c) == tdiv(a, b * c),
{
    assert(b * c >= 1) by (nonlinear_arith)
        requires b >= 1 && c >= 1;
    if a >= 0 {
        lemma_div_pos_is_pos(a, b);
        lemma_div_denominator(a, b, c);
    } else {
        lemma_div_pos_is_pos(-a, b);
        lemma_div_denominator(-a, b, c);
    }
}

/// Truncated division of an `i128` by a positive divisor, done on
/// magnitudes so that the executable rounding provably matches `tdiv`.
pub(crate) fn tdiv_i128(a: i128, d: u64) -> (r: i128)
    requires
        d > 0,
        -0x40000000000000000000000000000000 <= a
            <= 0x40000000000000000000000000000000,
    ensures
        r == tdiv(a as int, d as int),
{
    if a >= 0 {
        let q: u128 = (a as u128) / (d as u128);
        proof {
            lemma_div_pos_is_pos(a as int, d as int);
            lemma_div_nonincreasing(a as int, d as int);
        }
        q as i128
    } else {
        let m: u128 = (-a) as u128;
        let q: u128 = m / (d as u128);
        proof {
            lemma_div_pos_is_pos(m as int, d as int);
            lemma_div_nonincreasing(m as int, d as int);
        }
        -(q as i128)
    }
}

} // verus!
