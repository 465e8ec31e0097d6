//! Forward and inverse 2D DCT-II over 8x8 blocks in fixed-point integer
//! arithmetic, with JPEG-style quantization.
//!
//! The basis factors `C(u) * cos((2i+1) u pi / 16)` are tabulated scaled by
//! 2^15, so a product of two factors carries a scale of 2^30; every
//! coefficient is divided back by that scale (and the quantization divisor)
//! with the codec's rounding rule before it is stored as a signed 8-bit
//! value, which silently wraps when a coefficient is out of range.

use vstd::prelude::*;
use crate::mat::{mat_idx, Matrix};
use crate::yuv::YUVFrame;

verus! {

/// Side length of a transform block (a tail): the transform's unit of work.
pub const TAIL_SIZE: usize = 8;

/// The fixed-point basis table: entry `u * 8 + i` is
/// `round(C(u) * cos((2i+1) u pi / 16) * 2^15)`, where `C(0) = sqrt(1/8)`
/// and `C(u > 0) = 1/2`.
pub open spec fn cos_seq() -> Seq<i64> {
    seq![
        11585i64, 11585i64, 11585i64, 11585i64, 11585i64, 11585i64, 11585i64, 11585i64,
        16069i64, 13623i64, 9102i64, 3196i64, -3196i64, -9102i64, -13623i64, -16069i64,
        15137i64, 6270i64, -6270i64, -15137i64, -15137i64, -6270i64, 6270i64, 15137i64,
        13623i64, -3196i64, -16069i64, -9102i64, 9102i64, 16069i64, 3196i64, -13623i64,
        11585i64, -11585i64, -11585i64, 11585i64, 11585i64, -11585i64, -11585i64, 11585i64,
        9102i64, -16069i64, 3196i64, 13623i64, -13623i64, -3196i64, 16069i64, -9102i64,
        6270i64, -15137i64, 15137i64, -6270i64, -6270i64, 15137i64, -15137i64, 6270i64,
        3196i64, -9102i64, 13623i64, -16069i64, 16069i64, -13623i64, 9102i64, -3196i64,
    ]
}

/// Basis factor for frequency `u` at sample position `i`.
pub open spec fn cos_t(u: int, i: int) -> int {
    cos_seq()[u * 8 + i] as int
}

/// The standard JPEG luma quantization table, in the matrix's flat layout
/// (entry `j * 8 + i` is row `j`, column `i`).
pub open spec fn q_seq() -> Seq<i64> {
    seq![
        16i64, 11i64, 10i64, 16i64, 24i64, 40i64, 51i64, 61i64,
        12i64, 12i64, 14i64, 19i64, 26i64, 58i64, 60i64, 55i64,
        14i64, 13i64, 16i64, 24i64, 40i64, 57i64, 69i64, 56i64,
        14i64, 17i64, 22i64, 29i64, 51i64, 87i64, 80i64, 62i64,
        18i64, 22i64, 37i64, 56i64, 68i64, 109i64, 103i64, 77i64,
        24i64, 35i64, 55i64, 64i64, 81i64, 104i64, 113i64, 92i64,
        49i64, 64i64, 78i64, 87i64, 103i64, 121i64, 120i64, 101i64,
        72i64, 92i64, 95i64, 98i64, 112i64, 100i64, 103i64, 99i64,
    ]
}

proof fn lemma_cos_bounds(m: int)
    requires
        0 <= m < 64,
    ensures
        -16069 <= cos_seq()[m] <= 16069,
{
}

proof fn lemma_q_bounds(m: int)
    requires
        0 <= m < 64,
    ensures
        10 <= q_seq()[m] <= 121,
{
}

/// Basis factor lookup.
fn cos_tbl(u: usize, i: usize) -> (r: i64)
    requires
        u < 8,
        i < 8,
    ensures
        r == cos_t(u as int, i as int),
        -16069 <= r <= 16069,
{
    let a: [i64; 64] = [
        11585, 11585, 11585, 11585, 11585, 11585, 11585, 11585,
        16069, 13623, 9102, 3196, -3196, -9102, -13623, -16069,
        15137, 6270, -6270, -15137, -15137, -6270, 6270, 15137,
        13623, -3196, -16069, -9102, 9102, 16069, 3196, -13623,
        11585, -11585, -11585, 11585, 11585, -11585, -11585, 11585,
        9102, -16069, 3196, 13623, -13623, -3196, 16069, -9102,
        6270, -15137, 15137, -6270, -6270, 15137, -15137, 6270,
        3196, -9102, 13623, -16069, 16069, -13623, 9102, -3196,
    ];
    proof {
        assert forall|m: int| 0 <= m < 64 implies a@[m] == cos_seq()[m] by {}
        lemma_cos_bounds(u as int * 8 + i as int);
    }
    a[u * 8 + i]
}

/// The quantization table as a matrix.
fn q_mat() -> (q: Matrix<i64>)
    ensures
        q.wf(),
        q.spec_size() == 8,
        q@ == q_seq(),
{
    let a: [i64; 64] = [
        16, 11, 10, 16, 24, 40, 51, 61,
        12, 12, 14, 19, 26, 58, 60, 55,
        14, 13, 16, 24, 40, 57, 69, 56,
        14, 17, 22, 29, 51, 87, 80, 62,
        18, 22, 37, 56, 68, 109, 103, 77,
        24, 35, 55, 64, 81, 104, 113, 92,
        49, 64, 78, 87, 103, 121, 120, 101,
        72, 92, 95, 98, 112, 100, 103, 99,
    ];
    proof {
        assert forall|m: int| 0 <= m < 64 implies a@[m] == q_seq()[m] by {}
        assert(a@ =~= q_seq());
    }
    Matrix::from(a.as_slice(), 8)
}


/// The centered samples of a block: each unsigned sample less 128.
pub open spec fn centered(s: Seq<u8>) -> Seq<int> {
    Seq::new(s.len(), |k: int| s[k] - 128)
}

/// Element-wise product with the quantization table.
pub open spec fn dequant(s: Seq<int>) -> Seq<int> {
    Seq::new(s.len(), |k: int| s[k] * q_seq()[k])
}

/// Partial forward sum: the first `k` terms of
/// `sum over (i, j) of f(i, j) * T(u, i) * T(v, j)` in flat order, where
/// flat index `k` holds element `(i, j) = (k % 8, k / 8)`.
pub open spec fn fwd_sum(s: Seq<int>, u: int, v: int, k: int) -> int
    decreases k,
{
    if k <= 0 {
        0
    } else {
        fwd_sum(s, u, v, k - 1) + s[k - 1] * cos_t(u, (k - 1) % 8) * cos_t(v, (k - 1) / 8)
    }
}

/// Partial inverse sum: the first `k` terms of
/// `sum over (i, j) of F(i, j) * T(i, x) * T(j, y)` in flat order.
pub open spec fn inv_sum(s: Seq<int>, x: int, y: int, k: int) -> int
    decreases k,
{
    if k <= 0 {
        0
    } else {
        inv_sum(s, x, y, k - 1) + s[k - 1] * cos_t((k - 1) % 8, x) * cos_t((k - 1) / 8, y)
    }
}

/// The codec's rounding rule for `n / d` with `d > 0`: truncate toward zero,
/// then add one when the discarded fraction of a non-negative `n` is at
/// least one half. Negative values always truncate toward zero.
pub open spec fn round_div(n: int, d: int) -> int {
    let t = if n >= 0 {
        n / d
    } else {
        -((-n) / d)
    };
    if n >= 0 && 2 * (n - t * d) >= d {
        t + 1
    } else {
        t
    }
}

/// Reduction of any integer to the signed 8-bit value it wraps to.
pub open spec fn wrap_i8(n: int) -> int {
    ((n + 128) % 256) - 128
}

proof fn lemma_sum_bound(s: Seq<int>, u: int, v: int, k: int, b: int)
    requires
        0 <= u < 8,
        0 <= v < 8,
        0 <= k <= 64,
        k <= s.len(),
        0 <= b,
        forall|m: int| 0 <= m < s.len() ==> -b <= #[trigger] s[m] <= b,
    ensures
        -(k * b * 258212761) <= fwd_sum(s, u, v, k) <= k * b * 258212761,
        -(k * b * 258212761) <= inv_sum(s, u, v, k) <= k * b * 258212761,
    decreases k,
{
    if k > 0 {
        lemma_sum_bound(s, u, v, k - 1, b);
        let i = (k - 1) % 8;
        let j = (k - 1) / 8;
        assert(0 <= i < 8 && 0 <= j < 8);
        lemma_cos_bounds(u * 8 + i);
        lemma_cos_bounds(v * 8 + j);
        lemma_cos_bounds(i * 8 + u);
        lemma_cos_bounds(j * 8 + v);
        let e = s[k - 1];
        assert(-b <= e <= b);
        lemma_term_bound(e, cos_t(u, i), cos_t(v, j), b);
        lemma_term_bound(e, cos_t(i, u), cos_t(j, v), b);
        assert((k - 1) * b * 258212761 + b * 258212761 == k * b * 258212761) by (nonlinear_arith);
    }
}

proof fn lemma_term_bound(e: int, c1: int, c2: int, b: int)
    requires
        -b <= e <= b,
        0 <= b,
        -16069 <= c1 <= 16069,
        -16069 <= c2 <= 16069,
    ensures
        -(b * 16069) <= e * c1 <= b * 16069,
        -(b * 258212761) <= e * c1 * c2 <= b * 258212761,
{
    assert((-(b * 16069) <= e * c1 <= b * 16069) && (-(b * 258212761) <= e * c1 * c2 <= b
        * 258212761)) by (nonlinear_arith)
        requires
            -b <= e <= b,
            0 <= b,
            -16069 <= c1 <= 16069,
            -16069 <= c2 <= 16069,
    ;
}

/// The integer values of a signed 8-bit sequence.
pub open spec fn ints_of_i8(s: Seq<i8>) -> Seq<int> {
    Seq::new(s.len(), |k: int| s[k] as int)
}

/// The integer values of a 64-bit sequence.
pub open spec fn ints_of_i64(s: Seq<i64>) -> Seq<int> {
    Seq::new(s.len(), |k: int| s[k] as int)
}

/// One forward coefficient of a block after quantization and wrapping, at
/// flat index `m` of the output (frequency `(m % 8, m / 8)`).
pub open spec fn enc_tail(s: Seq<u8>) -> Seq<u8> {
    Seq::new(
        64,
        |m: int|
            (wrap_i8(
                round_div(fwd_sum(centered(s), m % 8, m / 8, 64), q_seq()[m] * 0x40000000),
            ) + 128) as u8,
    )
}

/// One reconstructed sample of a block after dequantization, the inverse
/// transform, rounding and wrapping, at flat index `m` of the output.
pub open spec fn dec_tail(s: Seq<u8>) -> Seq<u8> {
    Seq::new(
        64,
        |m: int|
            (wrap_i8(round_div(inv_sum(dequant(centered(s)), m % 8, m / 8, 64), 0x40000000))
                + 128) as u8,
    )
}

/// Rounds `n / d` with the codec's rule.
fn round_div_i64(n: i64, d: i64) -> (r: i64)
    requires
        0 < d <= 0x2000000000,
        -0x1000000000000 <= n <= 0x1000000000000,
    ensures
        r == round_div(n as int, d as int),
        -0x1000000000001 <= r <= 0x1000000000001,
{
    if n >= 0 {
        let t = ((n as u64) / (d as u64)) as i64;
        let rem = ((n as u64) % (d as u64)) as i64;
        proof {
            vstd::arithmetic::div_mod::lemma_fundamental_div_mod(n as int, d as int);
            assert(t <= n) by (nonlinear_arith)
                requires
                    0 <= n,
                    0 < d,
                    t == n as int / d as int,
            ;
        }
        if 2 * rem >= d {
            t + 1
        } else {
            t
        }
    } else {
        let a = -n;
        let t = ((a as u64) / (d as u64)) as i64;
        proof {
            assert(t <= a) by (nonlinear_arith)
                requires
                    0 <= a,
                    0 < d,
                    t == a as int / d as int,
            ;
        }
        -t
    }
}

/// Reduces `n` to the signed 8-bit value it wraps to.
fn wrap_to_i8(n: i64) -> (r: i8)
    requires
        -0x1000000000001 <= n <= 0x1000000000001,
    ensures
        r as int == wrap_i8(n as int),
{
    let shifted: i64 = n + 128 + 0x2000000000000;
    let m = ((shifted as u64) % 256) as i64;
    proof {
        vstd::arithmetic::div_mod::lemma_mod_multiples_vanish(
            0x20000000000,
            n as int + 128,
            256,
        );
        assert(shifted as int == 256 * 0x20000000000 + (n as int + 128));
        assert(0 <= m < 256);
    }
    (m - 128) as i8
}

/// Forward basis sum for frequency `(u, v)` over a centered block.
fn dct_point(src: &Matrix<i8>, u: usize, v: usize) -> (r: i64)
    requires
        src.wf(),
        src.spec_size() == 8,
        u < 8,
        v < 8,
    ensures
        r == fwd_sum(ints_of_i8(src@), u as int, v as int, 64),
        -0x1000000000000 <= r <= 0x1000000000000,
{
    let ghost sv = ints_of_i8(src@);
    let mut sum: i64 = 0;
    for k in 0..64usize
        invariant
            src.wf(),
            src.spec_size() == 8,
            u < 8,
            v < 8,
            sv == ints_of_i8(src@),
            sum == fwd_sum(sv, u as int, v as int, k as int),
            -(k * 128 * 258212761) <= sum <= k * 128 * 258212761,
    {
        proof {
            assert(forall|m: int| 0 <= m < 64 ==> -128 <= #[trigger] sv[m] <= 128);
            lemma_sum_bound(sv, u as int, v as int, k as int, 128);
            lemma_sum_bound(sv, u as int, v as int, k as int + 1, 128);
        }
        let i = k % 8;
        let j = k / 8;
        let e = src.get(i, j);
        proof {
            assert(mat_idx(i as int, j as int, 8) == k);
            assert(sv[k as int] == e as int);
        }
        let c1 = cos_tbl(u, i);
        let c2 = cos_tbl(v, j);
        proof {
            lemma_term_bound(e as int, c1 as int, c2 as int, 128);
        }
        sum = sum + (e as i64) * c1 * c2;
    }
    sum
}

/// Inverse basis sum for sample `(x, y)` over a dequantized block.
fn idct_point(src: &Matrix<i64>, x: usize, y: usize) -> (r: i64)
    requires
        src.wf(),
        src.spec_size() == 8,
        x < 8,
        y < 8,
        forall|m: int| 0 <= m < src@.len() ==> -16384 <= #[trigger] src@[m] <= 16384,
    ensures
        r == inv_sum(ints_of_i64(src@), x as int, y as int, 64),
        -0x1000000000000 <= r <= 0x1000000000000,
{
    let ghost sv = ints_of_i64(src@);
    let mut sum: i64 = 0;
    for k in 0..64usize
        invariant
            src.wf(),
            src.spec_size() == 8,
            x < 8,
            y < 8,
            sv == ints_of_i64(src@),
            forall|m: int| 0 <= m < src@.len() ==> -16384 <= #[trigger] src@[m] <= 16384,
            sum == inv_sum(sv, x as int, y as int, k as int),
            -(k * 16384 * 258212761) <= sum <= k * 16384 * 258212761,
    {
        proof {
            assert(forall|m: int| 0 <= m < 64 ==> -16384 <= #[trigger] sv[m] <= 16384);
            lemma_sum_bound(sv, x as int, y as int, k as int, 16384);
            lemma_sum_bound(sv, x as int, y as int, k as int + 1, 16384);
        }
        let i = k % 8;
        let j = k / 8;
        let e = src.get(i, j);
        proof {
            assert(mat_idx(i as int, j as int, 8) == k);
            assert(sv[k as int] == e as int);
        }
        let c1 = cos_tbl(i, x);
        let c2 = cos_tbl(j, y);
        proof {
            lemma_term_bound(e as int, c1 as int, c2 as int, 16384);
        }
        sum = sum + e * c1 * c2;
    }
    sum
}


/// Re-interprets unsigned samples as centered signed values (less 128).
pub fn u8_to_i8(tail: &Matrix<u8>) -> (r: Matrix<i8>)
    requires
        tail.wf(),
        tail.spec_size() == 8,
    ensures
        r.wf(),
        r.spec_size() == 8,
        forall|k: int| 0 <= k < 64 ==> #[trigger] r@[k] as int == tail@[k] - 128,
{
    let mut r: Matrix<i8> = Matrix::new(8);
    for i in 0..8usize
        invariant
            tail.wf(),
            tail.spec_size() == 8,
            r.wf(),
            r.spec_size() == 8,
            forall|m: int|
                0 <= m < 64 && m % 8 < i ==> #[trigger] r@[m] as int == tail@[m] - 128,
    {
        for j in 0..8usize
            invariant
                tail.wf(),
                tail.spec_size() == 8,
                r.wf(),
                r.spec_size() == 8,
                i < 8,
                forall|m: int|
                    0 <= m < 64 && (m % 8 < i || (m % 8 == i && m / 8 < j)) ==> #[trigger] r@[m] as int
                        == tail@[m] - 128,
        {
            proof {
                assert(mat_idx(i as int, j as int, 8) == j * 8 + i);
                assert((j * 8 + i) % 8 == i && (j * 8 + i) / 8 == j);
            }
            let e = tail.get(i, j);
            r.set(i, j, (e as i16 - 128) as i8);
        }
    }
    r
}

/// Re-biases centered signed values by +128 into unsigned samples.
pub fn i8_to_u8(tail: &Matrix<i8>) -> (r: Matrix<u8>)
    requires
        tail.wf(),
        tail.spec_size() == 8,
    ensures
        r.wf(),
        r.spec_size() == 8,
        forall|k: int| 0 <= k < 64 ==> #[trigger] r@[k] as int == tail@[k] + 128,
{
    let mut r: Matrix<u8> = Matrix::new(8);
    for i in 0..8usize
        invariant
            tail.wf(),
            tail.spec_size() == 8,
            r.wf(),
            r.spec_size() == 8,
            forall|m: int|
                0 <= m < 64 && m % 8 < i ==> #[trigger] r@[m] as int == tail@[m] + 128,
    {
        for j in 0..8usize
            invariant
                tail.wf(),
                tail.spec_size() == 8,
                r.wf(),
                r.spec_size() == 8,
                i < 8,
                forall|m: int|
                    0 <= m < 64 && (m % 8 < i || (m % 8 == i && m / 8 < j)) ==> #[trigger] r@[m] as int
                        == tail@[m] + 128,
        {
            proof {
                assert(mat_idx(i as int, j as int, 8) == j * 8 + i);
                assert((j * 8 + i) % 8 == i && (j * 8 + i) / 8 == j);
            }
            let e = tail.get(i, j);
            r.set(i, j, (e as i16 + 128) as u8);
        }
    }
    r
}

/// Forward 2D DCT-II of a centered block: output element `m` holds the
/// scaled coefficient for frequency `(m % 8, m / 8)`.
fn dct(src: &Matrix<i8>) -> (out: Matrix<i64>)
    requires
        src.wf(),
        src.spec_size() == 8,
    ensures
        out.wf(),
        out.spec_size() == 8,
        forall|m: int|
            0 <= m < 64 ==> #[trigger] out@[m] == fwd_sum(ints_of_i8(src@), m % 8, m / 8, 64),
        forall|m: int| 0 <= m < 64 ==> -0x1000000000000 <= #[trigger] out@[m] <= 0x1000000000000,
{
    let mut out: Matrix<i64> = Matrix::new(8);
    for u in 0..8usize
        invariant
            src.wf(),
            src.spec_size() == 8,
            out.wf(),
            out.spec_size() == 8,
            forall|m: int|
                0 <= m < 64 && m % 8 < u ==> #[trigger] out@[m] == fwd_sum(
                    ints_of_i8(src@),
                    m % 8,
                    m / 8,
                    64,
                ) && -0x1000000000000 <= out@[m] <= 0x1000000000000,
    {
        for v in 0..8usize
            invariant
                src.wf(),
                src.spec_size() == 8,
                out.wf(),
                out.spec_size() == 8,
                u < 8,
                forall|m: int|
                    0 <= m < 64 && (m % 8 < u || (m % 8 == u && m / 8 < v)) ==> #[trigger] out@[m]
                        == fwd_sum(ints_of_i8(src@), m % 8, m / 8, 64) && -0x1000000000000
                        <= out@[m] <= 0x1000000000000,
        {
            let c = dct_point(src, u, v);
            out.set(u, v, c);
            proof {
                assert(mat_idx(u as int, v as int, 8) == v * 8 + u);
                assert((v * 8 + u) % 8 == u && (v * 8 + u) / 8 == v);
            }
        }
    }
    out
}

/// Divides each coefficient by its quantization divisor (at the fixed-point
/// scale) and rounds; out-of-range results wrap to signed 8-bit.
fn quantize(src: &Matrix<i64>) -> (out: Matrix<i8>)
    requires
        src.wf(),
        src.spec_size() == 8,
        forall|m: int| 0 <= m < 64 ==> -0x1000000000000 <= #[trigger] src@[m] <= 0x1000000000000,
    ensures
        out.wf(),
        out.spec_size() == 8,
        forall|m: int|
            0 <= m < 64 ==> #[trigger] out@[m] as int == wrap_i8(
                round_div(src@[m] as int, q_seq()[m] * 0x40000000),
            ),
{
    let q = q_mat();
    let mut out: Matrix<i8> = Matrix::new(8);
    for i in 0..8usize
        invariant
            src.wf(),
            src.spec_size() == 8,
            forall|m: int|
                0 <= m < 64 ==> -0x1000000000000 <= #[trigger] src@[m] <= 0x1000000000000,
            q.wf(),
            q.spec_size() == 8,
            q@ == q_seq(),
            out.wf(),
            out.spec_size() == 8,
            forall|m: int|
                0 <= m < 64 && m % 8 < i ==> #[trigger] out@[m] as int == wrap_i8(
                    round_div(src@[m] as int, q_seq()[m] * 0x40000000),
                ),
    {
        for j in 0..8usize
            invariant
                src.wf(),
                src.spec_size() == 8,
                forall|m: int|
                    0 <= m < 64 ==> -0x1000000000000 <= #[trigger] src@[m] <= 0x1000000000000,
                q.wf(),
                q.spec_size() == 8,
                q@ == q_seq(),
                out.wf(),
                out.spec_size() == 8,
                i < 8,
                forall|m: int|
                    0 <= m < 64 && (m % 8 < i || (m % 8 == i && m / 8 < j)) ==> #[trigger] out@[m] as int
                        == wrap_i8(round_div(src@[m] as int, q_seq()[m] * 0x40000000)),
        {
            proof {
                assert(mat_idx(i as int, j as int, 8) == j * 8 + i);
                assert((j * 8 + i) % 8 == i && (j * 8 + i) / 8 == j);
                lemma_q_bounds(j * 8 + i);
            }
            let d = q.get(i, j) * 0x40000000;
            let val = round_div_i64(src.get(i, j), d);
            out.set(i, j, wrap_to_i8(val));
        }
    }
    out
}

/// Multiplies each stored coefficient by its quantization divisor.
fn quantize_inv(src: &Matrix<i8>) -> (out: Matrix<i64>)
    requires
        src.wf(),
        src.spec_size() == 8,
    ensures
        out.wf(),
        out.spec_size() == 8,
        forall|m: int|
            0 <= m < 64 ==> #[trigger] out@[m] as int == (src@[m] as int) * q_seq()[m],
        forall|m: int| 0 <= m < 64 ==> -16384 <= #[trigger] out@[m] <= 16384,
{
    let q = q_mat();
    let mut out: Matrix<i64> = Matrix::new(8);
    for i in 0..8usize
        invariant
            src.wf(),
            src.spec_size() == 8,
            q.wf(),
            q.spec_size() == 8,
            q@ == q_seq(),
            out.wf(),
            out.spec_size() == 8,
            forall|m: int|
                0 <= m < 64 && m % 8 < i ==> #[trigger] out@[m] as int == (src@[m] as int)
                    * q_seq()[m] && -16384 <= out@[m] <= 16384,
    {
        for j in 0..8usize
            invariant
                src.wf(),
                src.spec_size() == 8,
                q.wf(),
                q.spec_size() == 8,
                q@ == q_seq(),
                out.wf(),
                out.spec_size() == 8,
                i < 8,
                forall|m: int|
                    0 <= m < 64 && (m % 8 < i || (m % 8 == i && m / 8 < j)) ==> #[trigger] out@[m] as int
                        == (src@[m] as int) * q_seq()[m] && -16384 <= out@[m] <= 16384,
        {
            proof {
                assert(mat_idx(i as int, j as int, 8) == j * 8 + i);
                assert((j * 8 + i) % 8 == i && (j * 8 + i) / 8 == j);
                lemma_q_bounds(j * 8 + i);
            }
            let e = src.get(i, j);
            let f = q.get(i, j);
            proof {
                assert(-16384 <= e as int * f as int <= 16384) by (nonlinear_arith)
                    requires
                        -128 <= e as int <= 128,
                        10 <= f as int <= 121,
                ;
            }
            out.set(i, j, (e as i64) * f);
        }
    }
    out
}

/// Inverse 2D DCT-III of a dequantized block, at the fixed-point scale.
fn idct(src: &Matrix<i64>) -> (out: Matrix<i64>)
    requires
        src.wf(),
        src.spec_size() == 8,
        forall|m: int| 0 <= m < 64 ==> -16384 <= #[trigger] src@[m] <= 16384,
    ensures
        out.wf(),
        out.spec_size() == 8,
        forall|m: int|
            0 <= m < 64 ==> #[trigger] out@[m] == inv_sum(ints_of_i64(src@), m % 8, m / 8, 64),
        forall|m: int| 0 <= m < 64 ==> -0x1000000000000 <= #[trigger] out@[m] <= 0x1000000000000,
{
    let mut out: Matrix<i64> = Matrix::new(8);
    for u in 0..8usize
        invariant
            src.wf(),
            src.spec_size() == 8,
            forall|m: int| 0 <= m < 64 ==> -16384 <= #[trigger] src@[m] <= 16384,
            out.wf(),
            out.spec_size() == 8,
            forall|m: int|
                0 <= m < 64 && m % 8 < u ==> #[trigger] out@[m] == inv_sum(
                    ints_of_i64(src@),
                    m % 8,
                    m / 8,
                    64,
                ) && -0x1000000000000 <= out@[m] <= 0x1000000000000,
    {
        for v in 0..8usize
            invariant
                src.wf(),
                src.spec_size() == 8,
                forall|m: int| 0 <= m < 64 ==> -16384 <= #[trigger] src@[m] <= 16384,
                out.wf(),
                out.spec_size() == 8,
                u < 8,
                forall|m: int|
                    0 <= m < 64 && (m % 8 < u || (m % 8 == u && m / 8 < v)) ==> #[trigger] out@[m]
                        == inv_sum(ints_of_i64(src@), m % 8, m / 8, 64) && -0x1000000000000
                        <= out@[m] <= 0x1000000000000,
        {
            let c = idct_point(src, u, v);
            out.set(u, v, c);
            proof {
                assert(mat_idx(u as int, v as int, 8) == v * 8 + u);
                assert((v * 8 + u) % 8 == u && (v * 8 + u) / 8 == v);
            }
        }
    }
    out
}

/// Scales inverse-transform sums back to samples: rounds and wraps each.
fn descale(src: &Matrix<i64>) -> (out: Matrix<i8>)
    requires
        src.wf(),
        src.spec_size() == 8,
        forall|m: int| 0 <= m < 64 ==> -0x1000000000000 <= #[trigger] src@[m] <= 0x1000000000000,
    ensures
        out.wf(),
        out.spec_size() == 8,
        forall|m: int|
            0 <= m < 64 ==> #[trigger] out@[m] as int == wrap_i8(
                round_div(src@[m] as int, 0x40000000),
            ),
{
    let mut out: Matrix<i8> = Matrix::new(8);
    for i in 0..8usize
        invariant
            src.wf(),
            src.spec_size() == 8,
            forall|m: int|
                0 <= m < 64 ==> -0x1000000000000 <= #[trigger] src@[m] <= 0x1000000000000,
            out.wf(),
            out.spec_size() == 8,
            forall|m: int|
                0 <= m < 64 && m % 8 < i ==> #[trigger] out@[m] as int == wrap_i8(
                    round_div(src@[m] as int, 0x40000000),
                ),
    {
        for j in 0..8usize
            invariant
                src.wf(),
                src.spec_size() == 8,
                forall|m: int|
                    0 <= m < 64 ==> -0x1000000000000 <= #[trigger] src@[m] <= 0x1000000000000,
                out.wf(),
                out.spec_size() == 8,
                i < 8,
                forall|m: int|
                    0 <= m < 64 && (m % 8 < i || (m % 8 == i && m / 8 < j)) ==> #[trigger] out@[m] as int
                        == wrap_i8(round_div(src@[m] as int, 0x40000000)),
        {
            proof {
                assert(mat_idx(i as int, j as int, 8) == j * 8 + i);
                assert((j * 8 + i) % 8 == i && (j * 8 + i) / 8 == j);
            }
            let val = round_div_i64(src.get(i, j), 0x40000000);
            out.set(i, j, wrap_to_i8(val));
        }
    }
    out
}

/// Forward path for one 8x8 block: center, transform, quantize, round, and
/// re-bias into unsigned bytes.
pub fn encode_tail(tail: &Matrix<u8>) -> (r: Matrix<u8>)
    requires
        tail.wf(),
        tail.spec_size() == 8,
    ensures
        r.wf(),
        r.spec_size() == 8,
        r@ == enc_tail(tail@),
{
    let c = u8_to_i8(tail);
    proof {
        assert(ints_of_i8(c@) =~= centered(tail@));
    }
    let f = dct(&c);
    let z = quantize(&f);
    let r = i8_to_u8(&z);
    proof {
        assert(r@ =~= enc_tail(tail@));
    }
    r
}

/// Inverse path for one 8x8 block: center, dequantize, inverse-transform,
/// round, and re-bias into unsigned bytes.
pub fn decode_tail(tail: &Matrix<u8>) -> (r: Matrix<u8>)
    requires
        tail.wf(),
        tail.spec_size() == 8,
    ensures
        r.wf(),
        r.spec_size() == 8,
        r@ == dec_tail(tail@),
{
    let c = u8_to_i8(tail);
    let dq = quantize_inv(&c);
    proof {
        assert(ints_of_i64(dq@) =~= dequant(centered(tail@)));
    }
    let g = idct(&dq);
    let z = descale(&g);
    let r = i8_to_u8(&z);
    proof {
        assert(r@ =~= dec_tail(tail@));
    }
    r
}

proof fn lemma_sum_of_zeros(s: Seq<int>, u: int, v: int, k: int)
    requires
        0 <= k <= s.len(),
        forall|m: int| 0 <= m < s.len() ==> #[trigger] s[m] == 0,
    ensures
        fwd_sum(s, u, v, k) == 0,
        inv_sum(s, u, v, k) == 0,
    decreases k,
{
    if k > 0 {
        lemma_sum_of_zeros(s, u, v, k - 1);
        assert(s[k - 1] == 0);
        assert(s[k - 1] * cos_t(u, (k - 1) % 8) * cos_t(v, (k - 1) / 8) == 0) by (nonlinear_arith)
            requires
                s[k - 1] == 0,
        ;
        assert(s[k - 1] * cos_t((k - 1) % 8, u) * cos_t((k - 1) / 8, v) == 0) by (nonlinear_arith)
            requires
                s[k - 1] == 0,
        ;
    }
}

/// A mid-gray block (every sample 128, centered value 0) transforms forward
/// to all-zero stored coefficients (bytes of 128), and an all-zero
/// coefficient block transforms back to mid-gray: 128 is a fixed point of
/// both block paths.
pub proof fn lemma_mid_gray(s: Seq<u8>)
    requires
        s.len() == 64,
        forall|k: int| 0 <= k < 64 ==> #[trigger] s[k] == 128,
    ensures
        forall|m: int| 0 <= m < 64 ==> #[trigger] enc_tail(s)[m] == 128,
        forall|m: int| 0 <= m < 64 ==> #[trigger] dec_tail(s)[m] == 128,
{
    assert(forall|k: int| 0 <= k < 64 ==> #[trigger] centered(s)[k] == 0);
    assert(forall|k: int| 0 <= k < 64 ==> #[trigger] dequant(centered(s))[k] == 0);
    assert forall|m: int| 0 <= m < 64 implies #[trigger] enc_tail(s)[m] == 128 by {
        lemma_sum_of_zeros(centered(s), m % 8, m / 8, 64);
        lemma_q_bounds(m);
        assert(round_div(0, q_seq()[m] * 0x40000000) == 0);
        assert(wrap_i8(0) == 0);
    }
    assert forall|m: int| 0 <= m < 64 implies #[trigger] dec_tail(s)[m] == 128 by {
        lemma_sum_of_zeros(dequant(centered(s)), m % 8, m / 8, 64);
        assert(round_div(0, 0x40000000) == 0);
        assert(wrap_i8(0) == 0);
    }
}


/// The 8x8 luma tile of a frame whose top-left corner is at
/// `(8 * ti, 8 * tj)`, in the matrix's flat layout.
pub open spec fn tile_of<T: YUVFrame>(f: T, ti: int, tj: int) -> Seq<u8> {
    Seq::new(64, |k: int| f.spec_y(8 * ti + k % 8, 8 * tj + k / 8))
}

/// Luma value of the forward-transformed frame at pixel `(x, y)`: pixels of
/// a complete 8x8 tile go through the forward block path; pixels of a
/// trailing partial row or column are left unchanged.
pub open spec fn enc_frame_y<T: YUVFrame>(f: T, x: int, y: int) -> u8 {
    if x < 8 * (f.spec_width() / 8) && y < 8 * (f.spec_height() / 8) {
        enc_tail(tile_of(f, x / 8, y / 8))[(y % 8) * 8 + x % 8]
    } else {
        f.spec_y(x, y)
    }
}

/// Luma value of the inverse-transformed frame at pixel `(x, y)`.
pub open spec fn dec_frame_y<T: YUVFrame>(f: T, x: int, y: int) -> u8 {
    if x < 8 * (f.spec_width() / 8) && y < 8 * (f.spec_height() / 8) {
        dec_tail(tile_of(f, x / 8, y / 8))[(y % 8) * 8 + x % 8]
    } else {
        f.spec_y(x, y)
    }
}

/// Copies one luma tile out of a frame.
fn read_tile<T: YUVFrame>(f: &T, ti: usize, tj: usize) -> (m: Matrix<u8>)
    requires
        f.valid(),
        f.spec_width() <= usize::MAX,
        f.spec_height() <= usize::MAX,
        8 * ti + 8 <= f.spec_width(),
        8 * tj + 8 <= f.spec_height(),
    ensures
        m.wf(),
        m.spec_size() == 8,
        m@ == tile_of(*f, ti as int, tj as int),
{
    let mut m: Matrix<u8> = Matrix::new(8);
    for x in 0..8usize
        invariant
            f.valid(),
            f.spec_width() <= usize::MAX,
            f.spec_height() <= usize::MAX,
            8 * ti + 8 <= f.spec_width(),
            8 * tj + 8 <= f.spec_height(),
            m.wf(),
            m.spec_size() == 8,
            forall|k: int|
                0 <= k < 64 && k % 8 < x ==> #[trigger] m@[k] == tile_of(*f, ti as int, tj as int)[k],
    {
        for y in 0..8usize
            invariant
                f.valid(),
                f.spec_width() <= usize::MAX,
                f.spec_height() <= usize::MAX,
                8 * ti + 8 <= f.spec_width(),
                8 * tj + 8 <= f.spec_height(),
                m.wf(),
                m.spec_size() == 8,
                x < 8,
                forall|k: int|
                    0 <= k < 64 && (k % 8 < x || (k % 8 == x && k / 8 < y)) ==> #[trigger] m@[k]
                        == tile_of(*f, ti as int, tj as int)[k],
        {
            let v = f.get_pixel_y(8 * ti + x, 8 * tj + y);
            m.set(x, y, v);
            proof {
                assert(mat_idx(x as int, y as int, 8) == y * 8 + x);
                assert((y * 8 + x) % 8 == x && (y * 8 + x) / 8 == y);
            }
        }
    }
    proof {
        assert(m@ =~= tile_of(*f, ti as int, tj as int));
    }
    m
}

/// Writes one luma tile back into a frame; every pixel outside the tile, and
/// all chroma, is untouched.
fn write_tile<T: YUVFrame>(f: &mut T, ti: usize, tj: usize, m: &Matrix<u8>)
    requires
        old(f).valid(),
        old(f).spec_width() <= usize::MAX,
        old(f).spec_height() <= usize::MAX,
        8 * ti + 8 <= old(f).spec_width(),
        8 * tj + 8 <= old(f).spec_height(),
        m.wf(),
        m.spec_size() == 8,
    ensures
        final(f).valid(),
        final(f).spec_width() == old(f).spec_width(),
        final(f).spec_height() == old(f).spec_height(),
        forall|p: int, q: int|
            8 * ti <= p < 8 * ti + 8 && 8 * tj <= q < 8 * tj + 8 ==> final(f).spec_y(p, q) == m@[(q
                - 8 * tj) * 8 + (p - 8 * ti)],
        forall|p: int, q: int|
            0 <= p < old(f).spec_width() && 0 <= q < old(f).spec_height() && !(8 * ti <= p < 8 * ti
                + 8 && 8 * tj <= q < 8 * tj + 8) ==> final(f).spec_y(p, q) == old(f).spec_y(p, q),
        forall|p: int, q: int|
            0 <= p < old(f).spec_width() && 0 <= q < old(f).spec_height() ==> (final(f).spec_u(p, q)
                == old(f).spec_u(p, q) && final(f).spec_v(p, q) == old(f).spec_v(p, q)),
{
    for x in 0..8usize
        invariant
            f.valid(),
            f.spec_width() == old(f).spec_width(),
            f.spec_height() == old(f).spec_height(),
            f.spec_width() <= usize::MAX,
            f.spec_height() <= usize::MAX,
            8 * ti + 8 <= f.spec_width(),
            8 * tj + 8 <= f.spec_height(),
            m.wf(),
            m.spec_size() == 8,
            forall|p: int, q: int|
                8 * ti <= p < 8 * ti + x && 8 * tj <= q < 8 * tj + 8 ==> f.spec_y(p, q) == m@[(q - 8
                    * tj) * 8 + (p - 8 * ti)],
            forall|p: int, q: int|
                0 <= p < old(f).spec_width() && 0 <= q < old(f).spec_height() && !(8 * ti <= p < 8
                    * ti + x && 8 * tj <= q < 8 * tj + 8) ==> f.spec_y(p, q) == old(f).spec_y(p, q),
            forall|p: int, q: int|
                0 <= p < old(f).spec_width() && 0 <= q < old(f).spec_height() ==> (f.spec_u(p, q)
                    == old(f).spec_u(p, q) && f.spec_v(p, q) == old(f).spec_v(p, q)),
    {
        for y in 0..8usize
            invariant
                f.valid(),
                f.spec_width() == old(f).spec_width(),
                f.spec_height() == old(f).spec_height(),
                f.spec_width() <= usize::MAX,
                f.spec_height() <= usize::MAX,
                8 * ti + 8 <= f.spec_width(),
                8 * tj + 8 <= f.spec_height(),
                m.wf(),
                m.spec_size() == 8,
                x < 8,
                forall|p: int, q: int|
                    8 * ti <= p < 8 * ti + x && 8 * tj <= q < 8 * tj + 8 ==> f.spec_y(p, q) == m@[(q
                        - 8 * tj) * 8 + (p - 8 * ti)],
                forall|q: int|
                    8 * tj <= q < 8 * tj + y ==> #[trigger] f.spec_y(8 * ti + x, q) == m@[(q - 8
                        * tj) * 8 + x],
                forall|p: int, q: int|
                    0 <= p < old(f).spec_width() && 0 <= q < old(f).spec_height() && !(8 * ti <= p
                        < 8 * ti + x + 1 && 8 * tj <= q < 8 * tj + 8) ==> f.spec_y(p, q) == old(
                        f,
                    ).spec_y(p, q),
                forall|p: int, q: int|
                    0 <= p < old(f).spec_width() && 0 <= q < old(f).spec_height() ==> (f.spec_u(
                        p,
                        q,
                    ) == old(f).spec_u(p, q) && f.spec_v(p, q) == old(f).spec_v(p, q)),
        {
            proof {
                assert(mat_idx(x as int, y as int, 8) == y * 8 + x);
            }
            let v = m.get(x, y);
            f.set_pixel_y(8 * ti + x, 8 * tj + y, v);
        }
    }
}


/// Applies the forward block path to every complete 8x8 luma tile of a frame\n/// independently; trailing partial tiles and the chroma planes are left\n/// untouched.
pub fn encode_frame<T: YUVFrame>(src: &T) -> (dst: T)
    requires
        src.valid(),
        src.spec_width() <= usize::MAX,
        src.spec_height() <= usize::MAX,
    ensures
        dst.valid(),
        dst.spec_width() == src.spec_width(),
        dst.spec_height() == src.spec_height(),
        forall|x: int, y: int|
            0 <= x < src.spec_width() && 0 <= y < src.spec_height() ==> dst.spec_y(x, y)
                == enc_frame_y(*src, x, y),
        forall|x: int, y: int|
            0 <= x < src.spec_width() && 0 <= y < src.spec_height() ==> (dst.spec_u(x, y)
                == src.spec_u(x, y) && dst.spec_v(x, y) == src.spec_v(x, y)),
{
    let mut dst = src.duplicate();
    let (width, height) = src.get_resolution();
    let ghost w = src.spec_width();
    let ghost h = src.spec_height();
    let ti_max = width / TAIL_SIZE;
    let tj_max = height / TAIL_SIZE;
    for i in 0..ti_max
        invariant
            src.valid(),
            dst.valid(),
            w == src.spec_width(),
            h == src.spec_height(),
            w <= usize::MAX,
            h <= usize::MAX,
            ti_max == w / 8,
            tj_max == h / 8,
            dst.spec_width() == w,
            dst.spec_height() == h,
            forall|x: int, y: int|
                0 <= x < w && 0 <= y < h ==> dst.spec_y(x, y) == (if x < 8 * (w / 8) && y < 8 * (h
                    / 8) && x / 8 < i {
                    enc_frame_y(*src, x, y)
                } else {
                    src.spec_y(x, y)
                }),
            forall|x: int, y: int|
                0 <= x < w && 0 <= y < h ==> (dst.spec_u(x, y) == src.spec_u(x, y) && dst.spec_v(
                    x,
                    y,
                ) == src.spec_v(x, y)),
    {
        for j in 0..tj_max
            invariant
                src.valid(),
                dst.valid(),
                w == src.spec_width(),
                h == src.spec_height(),
                w <= usize::MAX,
                h <= usize::MAX,
                ti_max == w / 8,
                tj_max == h / 8,
                i < ti_max,
                dst.spec_width() == w,
                dst.spec_height() == h,
                forall|x: int, y: int|
                    0 <= x < w && 0 <= y < h ==> dst.spec_y(x, y) == (if x < 8 * (w / 8) && y < 8
                        * (h / 8) && (x / 8 < i || (x / 8 == i && y / 8 < j)) {
                        enc_frame_y(*src, x, y)
                    } else {
                        src.spec_y(x, y)
                    }),
                forall|x: int, y: int|
                    0 <= x < w && 0 <= y < h ==> (dst.spec_u(x, y) == src.spec_u(x, y)
                        && dst.spec_v(x, y) == src.spec_v(x, y)),
        {
            proof {
                assert(8 * (i as int) + 8 <= 8 * (w / 8) <= w);
                assert(8 * (j as int) + 8 <= 8 * (h / 8) <= h);
            }
            let m = read_tile(&dst, i, j);
            proof {
                assert forall|k: int| 0 <= k < 64 implies m@[k] == tile_of(*src, i as int, j as int)[k] by {
                    let px = 8 * (i as int) + k % 8;
                    let py = 8 * (j as int) + k / 8;
                    assert(px / 8 == i && py / 8 == j);
                    assert(dst.spec_y(px, py) == src.spec_y(px, py));
                }
                assert(m@ =~= tile_of(*src, i as int, j as int));
            }
            let m2 = encode_tail(&m);
            write_tile(&mut dst, i, j, &m2);
            proof {
                assert forall|x: int, y: int|
                    0 <= x < w && 0 <= y < h implies dst.spec_y(x, y) == (if x < 8 * (w / 8) && y
                    < 8 * (h / 8) && (x / 8 < i || (x / 8 == i && y / 8 < j + 1)) {
                    enc_frame_y(*src, x, y)
                } else {
                    src.spec_y(x, y)
                }) by {
                    if 8 * (i as int) <= x < 8 * (i as int) + 8 && 8 * (j as int) <= y < 8 * (
                    j as int) + 8 {
                        assert(x / 8 == i && y / 8 == j);
                        assert(x % 8 == x - 8 * (i as int));
                        assert(y % 8 == y - 8 * (j as int));
                        assert(dst.spec_y(x, y) == m2@[(y - 8 * (j as int)) * 8 + (x - 8 * (
                        i as int))]);
                        assert(x < 8 * (w / 8) && y < 8 * (h / 8));
                    } else {
                        assert(!(x / 8 == i && y / 8 == j));
                    }
                }
            }
        }
    }
    proof {
        assert forall|x: int, y: int| 0 <= x < w && 0 <= y < h implies dst.spec_y(x, y)
            == enc_frame_y(*src, x, y) by {
            if x < 8 * (w / 8) && y < 8 * (h / 8) {
                assert(x / 8 < w / 8);
            }
        }
    }
    dst
}

/// Applies the inverse block path to every complete 8x8 luma tile of a frame\n/// independently; trailing partial tiles and the chroma planes are left\n/// untouched.
pub fn decode_frame<T: YUVFrame>(src: &T) -> (dst: T)
    requires
        src.valid(),
        src.spec_width() <= usize::MAX,
        src.spec_height() <= usize::MAX,
    ensures
        dst.valid(),
        dst.spec_width() == src.spec_width(),
        dst.spec_height() == src.spec_height(),
        forall|x: int, y: int|
            0 <= x < src.spec_width() && 0 <= y < src.spec_height() ==> dst.spec_y(x, y)
                == dec_frame_y(*src, x, y),
        forall|x: int, y: int|
            0 <= x < src.spec_width() && 0 <= y < src.spec_height() ==> (dst.spec_u(x, y)
                == src.spec_u(x, y) && dst.spec_v(x, y) == src.spec_v(x, y)),
{
    let mut dst = src.duplicate();
    let (width, height) = src.get_resolution();
    let ghost w = src.spec_width();
    let ghost h = src.spec_height();
    let ti_max = width / TAIL_SIZE;
    let tj_max = height / TAIL_SIZE;
    for i in 0..ti_max
        invariant
            src.valid(),
            dst.valid(),
            w == src.spec_width(),
            h == src.spec_height(),
            w <= usize::MAX,
            h <= usize::MAX,
            ti_max == w / 8,
            tj_max == h / 8,
            dst.spec_width() == w,
            dst.spec_height() == h,
            forall|x: int, y: int|
                0 <= x < w && 0 <= y < h ==> dst.spec_y(x, y) == (if x < 8 * (w / 8) && y < 8 * (h
                    / 8) && x / 8 < i {
                    dec_frame_y(*src, x, y)
                } else {
                    src.spec_y(x, y)
                }),
            forall|x: int, y: int|
                0 <= x < w && 0 <= y < h ==> (dst.spec_u(x, y) == src.spec_u(x, y) && dst.spec_v(
                    x,
                    y,
                ) == src.spec_v(x, y)),
    {
        for j in 0..tj_max
            invariant
                src.valid(),
                dst.valid(),
                w == src.spec_width(),
                h == src.spec_height(),
                w <= usize::MAX,
                h <= usize::MAX,
                ti_max == w / 8,
                tj_max == h / 8,
                i < ti_max,
                dst.spec_width() == w,
                dst.spec_height() == h,
                forall|x: int, y: int|
                    0 <= x < w && 0 <= y < h ==> dst.spec_y(x, y) == (if x < 8 * (w / 8) && y < 8
                        * (h / 8) && (x / 8 < i || (x / 8 == i && y / 8 < j)) {
                        dec_frame_y(*src, x, y)
                    } else {
                        src.spec_y(x, y)
                    }),
                forall|x: int, y: int|
                    0 <= x < w && 0 <= y < h ==> (dst.spec_u(x, y) == src.spec_u(x, y)
                        && dst.spec_v(x, y) == src.spec_v(x, y)),
        {
            proof {
                assert(8 * (i as int) + 8 <= 8 * (w / 8) <= w);
                assert(8 * (j as int) + 8 <= 8 * (h / 8) <= h);
            }
            let m = read_tile(&dst, i, j);
            proof {
                assert forall|k: int| 0 <= k < 64 implies m@[k] == tile_of(*src, i as int, j as int)[k] by {
                    let px = 8 * (i as int) + k % 8;
                    let py = 8 * (j as int) + k / 8;
                    assert(px / 8 == i && py / 8 == j);
                    assert(dst.spec_y(px, py) == src.spec_y(px, py));
                }
                assert(m@ =~= tile_of(*src, i as int, j as int));
            }
            let m2 = decode_tail(&m);
            write_tile(&mut dst, i, j, &m2);
            proof {
                assert forall|x: int, y: int|
                    0 <= x < w && 0 <= y < h implies dst.spec_y(x, y) == (if x < 8 * (w / 8) && y
                    < 8 * (h / 8) && (x / 8 < i || (x / 8 == i && y / 8 < j + 1)) {
                    dec_frame_y(*src, x, y)
                } else {
                    src.spec_y(x, y)
                }) by {
                    if 8 * (i as int) <= x < 8 * (i as int) + 8 && 8 * (j as int) <= y < 8 * (
                    j as int) + 8 {
                        assert(x / 8 == i && y / 8 == j);
                        assert(x % 8 == x - 8 * (i as int));
                        assert(y % 8 == y - 8 * (j as int));
                        assert(dst.spec_y(x, y) == m2@[(y - 8 * (j as int)) * 8 + (x - 8 * (
                        i as int))]);
                        assert(x < 8 * (w / 8) && y < 8 * (h / 8));
                    } else {
                        assert(!(x / 8 == i && y / 8 == j));
                    }
                }
            }
        }
    }
    proof {
        assert forall|x: int, y: int| 0 <= x < w && 0 <= y < h implies dst.spec_y(x, y)
            == dec_frame_y(*src, x, y) by {
            if x < 8 * (w / 8) && y < 8 * (h / 8) {
                assert(x / 8 < w / 8);
            }
        }
    }
    dst
}

} // verus!
