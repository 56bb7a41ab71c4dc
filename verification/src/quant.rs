//! Quantization of probabilities into basis points.
//!
//! A probability is scaled to basis points (units of 1/10000) and rounded
//! before it reaches this module; here the scaled value is clamped into
//! `[0, 10000]` and narrowed to `u16`, so that every input maps to a valid
//! basis-point count without a failure path.

use vstd::prelude::*;

verus! {

/// The number of basis points that stands for probability one.
pub const BP_ONE: u16 = 10000;

/// What clamping a scaled value into the basis-point range yields.
pub open spec fn clamp_bp(scaled: int) -> int {
    if scaled < 0 {
        0
    } else if scaled > BP_ONE as int {
        BP_ONE as int
    } else {
        scaled
    }
}

/// Clamp a rounded, scaled probability into `[0, BP_ONE]`.
///
/// Every input maps to a value in range: out-of-range inputs saturate to the
/// nearest bound.
pub fn quantize_scaled(scaled: i64) -> (r: u16)
    ensures
        r as int == clamp_bp(scaled as int),
        0 <= r <= BP_ONE,
{
    if scaled < 0 {
        0
    } else if scaled > BP_ONE as i64 {
        BP_ONE
    } else {
        scaled as u16
    }
}

/// Clamping is monotone: a smaller scaled value never quantizes above a
/// larger one.
pub proof fn lemma_quantize_monotone(a: int, b: int)
    requires
        a <= b,
    ensures
        clamp_bp(a) <= clamp_bp(b),
{
}

/// Clamping keeps the bounds fixed: zero stays zero and full weight stays
/// full weight.
pub proof fn lemma_quantize_fixed_points()
    ensures
        clamp_bp(0) == 0,
        clamp_bp(BP_ONE as int) == BP_ONE as int,
{
}

/// The quantized value of one scaled probability.
pub open spec fn quant_val(x: int) -> u16 {
    clamp_bp(x) as u16
}

/// Element-wise quantization of one row of scaled probabilities.
pub open spec fn quant_row(r: Seq<i64>) -> Seq<u16> {
    r.map_values(|x: i64| quant_val(x as int))
}

/// Element-wise quantization of one decision matrix.
pub open spec fn quant_matrix(m: Seq<Seq<i64>>) -> Seq<Seq<u16>> {
    m.map_values(|r: Seq<i64>| quant_row(r))
}

/// Element-wise quantization of one action tensor, preserving its shape.
pub open spec fn quant_tensor(t: Seq<Seq<Seq<i64>>>) -> Seq<Seq<Seq<u16>>> {
    t.map_values(|m: Seq<Seq<i64>>| quant_matrix(m))
}

fn quantize_row(row: &Vec<i64>) -> (r: Vec<u16>)
    ensures
        r@ == quant_row(row@),
{
    let mut r: Vec<u16> = Vec::new();
    let mut i: usize = 0;
    while i < row.len()
        invariant
            0 <= i <= row@.len(),
            r@ == quant_row(row@.take(i as int)),
        decreases row@.len() - i,
    {
        r.push(quantize_scaled(row[i]));
        proof {
            assert(row@.take(i + 1).drop_last() =~= row@.take(i as int));
            assert(r@ =~= quant_row(row@.take(i + 1)));
        }
        i = i + 1;
    }
    proof {
        assert(row@.take(row@.len() as int) =~= row@);
    }
    r
}

fn quantize_matrix(m: &Vec<Vec<i64>>) -> (r: Vec<Vec<u16>>)
    ensures
        r.deep_view() == quant_matrix(m.deep_view()),
{
    let mut r: Vec<Vec<u16>> = Vec::new();
    let mut i: usize = 0;
    while i < m.len()
        invariant
            0 <= i <= m@.len(),
            r@.len() == i,
            forall|j: int|
                0 <= j < i ==> (#[trigger] r@[j]).deep_view() == quant_matrix(m.deep_view())[j],
        decreases m@.len() - i,
    {
        let row = quantize_row(&m[i]);
        proof {
            assert(row.deep_view() =~= row@);
            assert(m.deep_view()[i as int] == m@[i as int]@);
        }
        r.push(row);
        i = i + 1;
    }
    proof {
        assert(r.deep_view() =~~= quant_matrix(m.deep_view()));
    }
    r
}

/// Quantize a whole action tensor element-wise, preserving its structure.
pub fn quantize_tensor(t: &Vec<Vec<Vec<i64>>>) -> (r: Vec<Vec<Vec<u16>>>)
    ensures
        r.deep_view() == quant_tensor(t.deep_view()),
        r@.len() == t@.len(),
{
    let mut r: Vec<Vec<Vec<u16>>> = Vec::new();
    let mut i: usize = 0;
    while i < t.len()
        invariant
            0 <= i <= t@.len(),
            r@.len() == i,
            forall|j: int|
                0 <= j < i ==> (#[trigger] r@[j]).deep_view() == quant_tensor(t.deep_view())[j],
        decreases t@.len() - i,
    {
        let matrix = quantize_matrix(&t[i]);
        proof {
            assert(t.deep_view()[i as int] == t@[i as int].deep_view());
        }
        r.push(matrix);
        i = i + 1;
    }
    proof {
        assert(r.deep_view() =~~= quant_tensor(t.deep_view()));
    }
    r
}

} // verus!
