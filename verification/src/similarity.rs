//! Fixed-point cosine similarity.
//!
//! A vector component `c: i64` stands for the real number `c / SCALE`.
//! `cosine_similarity` returns `dot(a, b) * SCALE / floor(sqrt(|a|^2 * |b|^2))`
//! rounded toward zero, so a score of `SCALE` is a cosine of exactly 1, and
//! the score of a vector with itself is exactly `SCALE`.

use vstd::prelude::*;
use vstd::arithmetic::div_mod::{lemma_div_is_ordered, lemma_div_multiples_vanish};

verus! {

/// One fixed-point unit: the integer `SCALE` stands for the real number 1.
pub const SCALE: i64 = 1048576;

/// Largest magnitude a vector component may have (16 fixed-point units).
pub const COORD_MAX: i64 = 16777216;

/// Largest number of components a vector may have.
pub const MAX_DIM: usize = 32768;

/// All components of `s` lie in `[-c, c]`.
pub open spec fn bounded_by(s: Seq<i64>, c: int) -> bool {
    forall|i: int| 0 <= i < s.len() ==> -c <= #[trigger] s[i] <= c
}

/// Dot product of two integer vectors (of equal length in every use).
pub open spec fn dot(a: Seq<i64>, b: Seq<i64>) -> int
    decreases a.len(),
{
    if a.len() == 0 || b.len() == 0 {
        0
    } else {
        dot(a.drop_last(), b.drop_last()) + a.last() * b.last()
    }
}

/// Squared Euclidean norm of a vector.
pub open spec fn norm_sq(a: Seq<i64>) -> int {
    dot(a, a)
}

/// Floor of the square root: the greatest `r >= 0` with `r * r <= n`
/// (0 for `n <= 0`).
pub open spec fn sqrt_floor(n: int) -> int
    decreases n,
{
    if n <= 0 {
        0
    } else {
        let r = sqrt_floor(n - 1);
        if (r + 1) * (r + 1) <= n {
            r + 1
        } else {
            r
        }
    }
}

/// Quotient rounded toward zero, as Rust's integer division rounds.
pub open spec fn div_toward_zero(a: int, b: int) -> int {
    if a >= 0 {
        a / b
    } else {
        -((-a) / b)
    }
}

/// Fixed-point cosine similarity of `a` and `b`: zero when either vector is
/// zero, else the dot product scaled by `SCALE` and divided by the floor
/// square root of the product of the squared norms, rounded toward zero.
pub open spec fn cosine_sim(a: Seq<i64>, b: Seq<i64>) -> int {
    if norm_sq(a) == 0 || norm_sq(b) == 0 {
        0
    } else {
        div_toward_zero(dot(a, b) * SCALE, sqrt_floor(norm_sq(a) * norm_sq(b)))
    }
}

pub proof fn lemma_sqrt_floor_props(n: int)
    requires
        n >= 0,
    ensures
        0 <= sqrt_floor(n),
        sqrt_floor(n) * sqrt_floor(n) <= n,
        n < (sqrt_floor(n) + 1) * (sqrt_floor(n) + 1),
    decreases n,
{
    if n > 0 {
        lemma_sqrt_floor_props(n - 1);
        let r = sqrt_floor(n - 1);
        if (r + 1) * (r + 1) <= n {
            assert(n == (r + 1) * (r + 1));
            assert((r + 1) * (r + 1) < (r + 2) * (r + 2)) by (nonlinear_arith)
                requires
                    r >= 0,
            ;
        } else {
            assert(n - 1 < (r + 1) * (r + 1));
        }
    }
}

pub proof fn lemma_sqrt_floor_unique(n: int, r: int)
    requires
        0 <= r,
        r * r <= n,
        n < (r + 1) * (r + 1),
    ensures
        sqrt_floor(n) == r,
{
    let s = sqrt_floor(n);
    lemma_sqrt_floor_props(n);
    if s < r {
        assert((s + 1) * (s + 1) <= r * r) by (nonlinear_arith)
            requires
                0 <= s,
                s + 1 <= r,
        ;
    }
    if r < s {
        assert((r + 1) * (r + 1) <= s * s) by (nonlinear_arith)
            requires
                0 <= r,
                r + 1 <= s,
        ;
    }
}

pub proof fn lemma_sqrt_floor_square(k: int)
    requires
        k >= 0,
    ensures
        sqrt_floor(k * k) == k,
{
    assert(k * k < (k + 1) * (k + 1)) by (nonlinear_arith)
        requires
            k >= 0,
    ;
    lemma_sqrt_floor_unique(k * k, k);
}

pub proof fn lemma_dot_take_step(a: Seq<i64>, b: Seq<i64>, i: int)
    requires
        a.len() == b.len(),
        0 <= i < a.len(),
    ensures
        dot(a.take(i + 1), b.take(i + 1)) == dot(a.take(i), b.take(i)) + a[i] * b[i],
{
    assert(a.take(i + 1).drop_last() =~= a.take(i));
    assert(b.take(i + 1).drop_last() =~= b.take(i));
    assert(a.take(i + 1).last() == a[i]);
    assert(b.take(i + 1).last() == b[i]);
}

pub proof fn lemma_dot_bound(a: Seq<i64>, b: Seq<i64>, c: int)
    requires
        a.len() == b.len(),
        c >= 0,
        bounded_by(a, c),
        bounded_by(b, c),
    ensures
        -(a.len() * c * c) <= dot(a, b) <= a.len() * c * c,
    decreases a.len(),
{
    if a.len() == 0 {
    } else {
        let x = a.last();
        let y = b.last();
        assert(bounded_by(a.drop_last(), c)) by {
            assert(forall|i: int|
                0 <= i < a.drop_last().len() ==> a.drop_last()[i] == #[trigger] a[i]);
        }
        assert(bounded_by(b.drop_last(), c)) by {
            assert(forall|i: int|
                0 <= i < b.drop_last().len() ==> b.drop_last()[i] == #[trigger] b[i]);
        }
        lemma_dot_bound(a.drop_last(), b.drop_last(), c);
        assert(-(c * c) <= x * y <= c * c) by (nonlinear_arith)
            requires
                -c <= x <= c,
                -c <= y <= c,
                c >= 0,
        ;
        let m = a.len() as int;
        assert((m - 1) * c * c + c * c == m * c * c) by (nonlinear_arith);
        assert(a.drop_last().len() == m - 1);
    }
}

pub proof fn lemma_norm_sq_nonneg(a: Seq<i64>)
    ensures
        norm_sq(a) >= 0,
    decreases a.len(),
{
    if a.len() > 0 {
        lemma_norm_sq_nonneg(a.drop_last());
        let x = a.last();
        assert(x * x >= 0) by (nonlinear_arith);
    }
}

pub proof fn lemma_norm_sq_zero(a: Seq<i64>)
    requires
        forall|i: int| 0 <= i < a.len() ==> #[trigger] a[i] == 0,
    ensures
        norm_sq(a) == 0,
    decreases a.len(),
{
    if a.len() > 0 {
        assert(forall|i: int| 0 <= i < a.drop_last().len() ==> a.drop_last()[i] == #[trigger] a[i]);
        lemma_norm_sq_zero(a.drop_last());
    }
}

pub proof fn lemma_coord_sq_le_norm_sq(a: Seq<i64>, i: int)
    requires
        0 <= i < a.len(),
    ensures
        a[i] * a[i] <= norm_sq(a),
    decreases a.len(),
{
    lemma_norm_sq_nonneg(a.drop_last());
    let x = a.last();
    assert(x * x >= 0) by (nonlinear_arith);
    if i < a.len() - 1 {
        lemma_coord_sq_le_norm_sq(a.drop_last(), i);
        assert(a.drop_last()[i] == a[i]);
    }
}

pub proof fn lemma_dot_symmetric(a: Seq<i64>, b: Seq<i64>)
    requires
        a.len() == b.len(),
    ensures
        dot(a, b) == dot(b, a),
    decreases a.len(),
{
    if a.len() > 0 {
        lemma_dot_symmetric(a.drop_last(), b.drop_last());
    }
}

/// Exact integer form of the Cauchy-Schwarz inequality.
pub proof fn lemma_cauchy_schwarz(a: Seq<i64>, b: Seq<i64>)
    requires
        a.len() == b.len(),
    ensures
        dot(a, b) * dot(a, b) <= norm_sq(a) * norm_sq(b),
    decreases a.len(),
{
    if a.len() == 0 {
    } else {
        lemma_cauchy_schwarz(a.drop_last(), b.drop_last());
        lemma_norm_sq_nonneg(a.drop_last());
        lemma_norm_sq_nonneg(b.drop_last());
        let aa = norm_sq(a.drop_last());
        let bb = norm_sq(b.drop_last());
        let d = dot(a.drop_last(), b.drop_last());
        let x = a.last();
        let y = b.last();
        lemma_cs_step(aa, bb, d, x as int, y as int);
        assert(dot(a, b) == d + x * y);
        assert(norm_sq(a) == aa + x * x);
        assert(norm_sq(b) == bb + y * y);
    }
}

proof fn lemma_cs_step(aa: int, bb: int, d: int, x: int, y: int)
    requires
        aa >= 0,
        bb >= 0,
        d * d <= aa * bb,
    ensures
        (d + x * y) * (d + x * y) <= (aa + x * x) * (bb + y * y),
{
    assert(aa * (y * y) + bb * (x * x) >= 0) by (nonlinear_arith)
        requires
            aa >= 0,
            bb >= 0,
    ;
    assert(4 * ((d * (x * y)) * (d * (x * y))) <= (aa * (y * y) + bb * (x * x)) * (aa * (y * y)
        + bb * (x * x))) by (nonlinear_arith)
        requires
            aa >= 0,
            bb >= 0,
            d * d <= aa * bb,
    ;
    assert(2 * (d * (x * y)) <= aa * (y * y) + bb * (x * x)) by (nonlinear_arith)
        requires
            aa * (y * y) + bb * (x * x) >= 0,
            4 * ((d * (x * y)) * (d * (x * y))) <= (aa * (y * y) + bb * (x * x)) * (aa * (y * y)
                + bb * (x * x)),
    ;
    assert((d + x * y) * (d + x * y) == d * d + 2 * (d * (x * y)) + (x * x) * (y * y))
        by (nonlinear_arith);
    assert((aa + x * x) * (bb + y * y) == aa * bb + aa * (y * y) + bb * (x * x) + (x * x) * (y
        * y)) by (nonlinear_arith);
}

/// Computes the floor of the square root of `n` by binary search.
pub fn int_sqrt(n: u128) -> (r: u128)
    requires
        n <= 0x4000_0000_0000_0000_0000_0000_0000_0000u128,
    ensures
        r == sqrt_floor(n as int),
{
    let mut lo: u128 = 0;
    let mut hi: u128 = 0x8000_0000_0000_0001u128;
    proof {
        assert((hi * hi) > n) by (nonlinear_arith)
            requires
                hi == 0x8000_0000_0000_0001u128,
                n <= 0x4000_0000_0000_0000_0000_0000_0000_0000u128,
        ;
    }
    while lo + 1 < hi
        invariant
            0 <= lo < hi <= 0x8000_0000_0000_0001u128,
            lo * lo <= n,
            n < hi * hi,
        decreases hi - lo,
    {
        let mid: u128 = lo + (hi - lo) / 2;
        assert(lo < mid < hi);
        proof {
            assert(mid * mid <= 0x8000_0000_0000_0001u128 * 0x8000_0000_0000_0001u128)
                by (nonlinear_arith)
                requires
                    0 <= mid <= 0x8000_0000_0000_0001u128,
            ;
        }
        if mid * mid <= n {
            lo = mid;
        } else {
            hi = mid;
        }
    }
    proof {
        lemma_sqrt_floor_unique(n as int, lo as int);
    }
    lo
}

/// Fixed-point cosine similarity of two vectors of equal dimension:
/// returns exactly `cosine_sim(a@, b@)`, which is 0 when either vector is
/// zero and otherwise lies in `[-SCALE, SCALE]`.
pub fn cosine_similarity(a: &Vec<i64>, b: &Vec<i64>) -> (r: i64)
    requires
        a@.len() == b@.len(),
        a@.len() <= MAX_DIM,
        bounded_by(a@, COORD_MAX as int),
        bounded_by(b@, COORD_MAX as int),
    ensures
        r == cosine_sim(a@, b@),
        -SCALE <= r <= SCALE,
{
    let n = a.len();
    let mut i: usize = 0;
    let mut dp: i128 = 0;
    let mut na: i128 = 0;
    let mut nb: i128 = 0;
    while i < n
        invariant
            0 <= i <= n,
            n == a@.len(),
            n == b@.len(),
            n <= MAX_DIM,
            bounded_by(a@, COORD_MAX as int),
            bounded_by(b@, COORD_MAX as int),
            dp == dot(a@.take(i as int), b@.take(i as int)),
            na == norm_sq(a@.take(i as int)),
            nb == norm_sq(b@.take(i as int)),
        decreases n - i,
    {
        proof {
            lemma_take_bounds(a@, b@, i as int);
            lemma_take_bounds(a@, b@, i + 1);
            lemma_dot_take_step(a@, a@, i as int);
            lemma_dot_take_step(a@, b@, i as int);
            lemma_dot_take_step(b@, b@, i as int);
            assert(-0x1_0000_0000_0000 <= (a@[i as int] as int) * (b@[i as int] as int)
                <= 0x1_0000_0000_0000) by (nonlinear_arith)
                requires
                    -0x100_0000 <= a@[i as int] <= 0x100_0000,
                    -0x100_0000 <= b@[i as int] <= 0x100_0000,
            ;
            assert(-0x1_0000_0000_0000 <= (a@[i as int] as int) * (a@[i as int] as int)
                <= 0x1_0000_0000_0000) by (nonlinear_arith)
                requires
                    -0x100_0000 <= a@[i as int] <= 0x100_0000,
            ;
            assert(-0x1_0000_0000_0000 <= (b@[i as int] as int) * (b@[i as int] as int)
                <= 0x1_0000_0000_0000) by (nonlinear_arith)
                requires
                    -0x100_0000 <= b@[i as int] <= 0x100_0000,
            ;
        }
        dp = dp + (a[i] as i128) * (b[i] as i128);
        na = na + (a[i] as i128) * (a[i] as i128);
        nb = nb + (b[i] as i128) * (b[i] as i128);
        i = i + 1;
    }
    proof {
        assert(a@.take(n as int) =~= a@);
        assert(b@.take(n as int) =~= b@);
    }
    if na == 0 || nb == 0 {
        return 0;
    }
    proof {
        lemma_norm_sq_nonneg(a@);
        lemma_norm_sq_nonneg(b@);
        lemma_take_bounds(a@, b@, n as int);
        assert(na * nb <= 0x4000_0000_0000_0000_0000_0000_0000_0000int) by (nonlinear_arith)
            requires
                0 <= na <= 0x8000_0000_0000_0000int,
                0 <= nb <= 0x8000_0000_0000_0000int,
        ;
        lemma_cauchy_schwarz(a@, b@);
    }
    let prod: u128 = (na as u128) * (nb as u128);
    let d: u128 = int_sqrt(prod);
    proof {
        lemma_sqrt_floor_props(prod as int);
        if d == 0 {
            assert((prod as int) < (sqrt_floor(prod as int) + 1) * (sqrt_floor(prod as int) + 1));
            assert(sqrt_floor(prod as int) == 0);
            assert((prod as int) < (0 + 1) * (0 + 1));
            assert(prod >= 1) by (nonlinear_arith)
                requires
                    1 <= na,
                    1 <= nb,
                    prod == na * nb,
            ;
            assert(false);
        }
        assert(dp * dp <= prod) by (nonlinear_arith)
            requires
                dp == dot(a@, b@),
                prod == norm_sq(a@) * norm_sq(b@),
                dot(a@, b@) * dot(a@, b@) <= norm_sq(a@) * norm_sq(b@),
        ;
        lemma_abs_le_sqrt(dp as int, prod as int, d as int);
    }
    let neg: bool = dp < 0;
    let mag: u128 = if neg {
        (-dp) as u128
    } else {
        dp as u128
    };
    let num: u128 = mag * (SCALE as u128);
    let q: u128 = num / d;
    proof {
        assert(mag * (SCALE as int) <= d * (SCALE as int)) by (nonlinear_arith)
            requires
                0 <= mag <= d,
                SCALE > 0,
        ;
        lemma_div_is_ordered(num as int, d * (SCALE as int), d as int);
        lemma_div_multiples_vanish(SCALE as int, d as int);
        assert(d * (SCALE as int) / (d as int) == SCALE);
        assert(q <= SCALE);
    }
    let qi: i64 = q as i64;
    if neg {
        -qi
    } else {
        qi
    }
}

pub proof fn lemma_take_bounds(a: Seq<i64>, b: Seq<i64>, i: int)
    requires
        a.len() == b.len(),
        a.len() <= MAX_DIM,
        0 <= i <= a.len(),
        bounded_by(a, COORD_MAX as int),
        bounded_by(b, COORD_MAX as int),
    ensures
        -0x8000_0000_0000_0000 <= dot(a.take(i), b.take(i)) <= 0x8000_0000_0000_0000,
        -0x8000_0000_0000_0000 <= norm_sq(a.take(i)) <= 0x8000_0000_0000_0000,
        -0x8000_0000_0000_0000 <= norm_sq(b.take(i)) <= 0x8000_0000_0000_0000,
{
    let c = COORD_MAX as int;
    assert(bounded_by(a.take(i), c)) by {
        assert(forall|j: int| 0 <= j < i ==> a.take(i)[j] == #[trigger] a[j]);
    }
    assert(bounded_by(b.take(i), c)) by {
        assert(forall|j: int| 0 <= j < i ==> b.take(i)[j] == #[trigger] b[j]);
    }
    lemma_dot_bound(a.take(i), b.take(i), c);
    lemma_dot_bound(a.take(i), a.take(i), c);
    lemma_dot_bound(b.take(i), b.take(i), c);
    assert(i * c * c <= 0x8000_0000_0000_0000int) by (nonlinear_arith)
        requires
            0 <= i <= MAX_DIM,
            c == 0x100_0000int,
    ;
}

pub proof fn lemma_abs_le_sqrt(x: int, p: int, s: int)
    requires
        x * x <= p,
        s >= 0,
        p < (s + 1) * (s + 1),
    ensures
        -s <= x <= s,
{
    if x > s {
        assert((s + 1) * (s + 1) <= x * x) by (nonlinear_arith)
            requires
                s + 1 <= x,
                s >= 0,
        ;
    }
    if x < -s {
        assert((s + 1) * (s + 1) <= x * x) by (nonlinear_arith)
            requires
                x <= -(s + 1),
                s >= 0,
        ;
    }
}

/// Dividing a value of magnitude at most `d * c` by `d` (toward zero) gives
/// a value of magnitude at most `c`.
pub proof fn lemma_div_toward_zero_bound(x: int, d: int, c: int)
    requires
        d >= 1,
        c >= 0,
        -(d * c) <= x <= d * c,
    ensures
        -c <= div_toward_zero(x, d) <= c,
{
    lemma_div_multiples_vanish(c, d);
    assert(d * c / d == c);
    if x >= 0 {
        lemma_div_is_ordered(x, d * c, d);
        vstd::arithmetic::div_mod::lemma_div_pos_is_pos(x, d);
    } else {
        lemma_div_is_ordered(-x, d * c, d);
        vstd::arithmetic::div_mod::lemma_div_pos_is_pos(-x, d);
    }
}

/// The similarity of any nonzero vector with itself is exactly `SCALE`,
/// the fixed-point value 1.
pub proof fn lemma_cosine_self(a: Seq<i64>)
    requires
        norm_sq(a) != 0,
    ensures
        cosine_sim(a, a) == SCALE,
{
    lemma_norm_sq_nonneg(a);
    let m = norm_sq(a);
    lemma_sqrt_floor_square(m);
    lemma_div_multiples_vanish(SCALE as int, m);
    assert(m * SCALE == SCALE * m) by (nonlinear_arith);
    assert(m * SCALE >= 0) by (nonlinear_arith)
        requires
            m >= 0,
            SCALE >= 0,
    ;
}

/// Cosine similarity is symmetric in its two arguments.
pub proof fn lemma_cosine_symmetric(a: Seq<i64>, b: Seq<i64>)
    requires
        a.len() == b.len(),
    ensures
        cosine_sim(a, b) == cosine_sim(b, a),
{
    lemma_dot_symmetric(a, b);
    assert(norm_sq(a) * norm_sq(b) == norm_sq(b) * norm_sq(a)) by (nonlinear_arith);
}

/// Cosine similarity always lies in `[-SCALE, SCALE]` (the fixed-point
/// interval [-1, 1]), and is 0 whenever either vector is the zero vector.
pub proof fn lemma_cosine_bounds(a: Seq<i64>, b: Seq<i64>)
    requires
        a.len() == b.len(),
    ensures
        -SCALE <= cosine_sim(a, b) <= SCALE,
        norm_sq(a) == 0 || norm_sq(b) == 0 ==> cosine_sim(a, b) == 0,
{
    if norm_sq(a) != 0 && norm_sq(b) != 0 {
        lemma_norm_sq_nonneg(a);
        lemma_norm_sq_nonneg(b);
        lemma_cauchy_schwarz(a, b);
        let p = norm_sq(a) * norm_sq(b);
        let s = sqrt_floor(p);
        let dp = dot(a, b);
        assert(p > 0) by (nonlinear_arith)
            requires
                norm_sq(a) > 0,
                norm_sq(b) > 0,
                p == norm_sq(a) * norm_sq(b),
        ;
        lemma_sqrt_floor_props(p);
        if s == 0 {
            assert(p < (0 + 1) * (0 + 1));
            assert(false);
        }
        lemma_abs_le_sqrt(dp, p, s);
        assert(dp * SCALE <= s * SCALE) by (nonlinear_arith)
            requires
                dp <= s,
                SCALE > 0,
        ;
        assert(-(s * SCALE) <= dp * SCALE) by (nonlinear_arith)
            requires
                -s <= dp,
                SCALE > 0,
        ;
        lemma_div_multiples_vanish(SCALE as int, s);
        assert(s * SCALE / s == SCALE);
        if dp >= 0 {
            lemma_div_is_ordered(dp * SCALE, s * SCALE, s);
            vstd::arithmetic::div_mod::lemma_div_pos_is_pos(dp * SCALE, s);
        } else {
            lemma_div_is_ordered(-(dp * SCALE), s * SCALE, s);
            vstd::arithmetic::div_mod::lemma_div_pos_is_pos(-(dp * SCALE), s);
        }
    }
}

} // verus!
