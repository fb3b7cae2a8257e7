//! The embedding pipeline's verified stages.
//!
//! Producing an embedding is: tokenize the text, run the encoder model over
//! the token ids, mean-pool the per-token hidden states over the attended
//! positions, and normalize the pooled vector to unit length. Tokenizer and
//! model are the caller's (a tokenizer library's and an inference runtime's)
//! job; this module validates the encoding they hand over
//! (`TokenSequence::new`) and verifies pooling and normalization over
//! fixed-point vectors.

use vstd::prelude::*;
use crate::similarity::{
    COORD_MAX, MAX_DIM, SCALE, bounded_by, div_toward_zero, int_sqrt, lemma_abs_le_sqrt,
    lemma_coord_sq_le_norm_sq, lemma_norm_sq_nonneg, lemma_norm_sq_zero, lemma_take_bounds,
    norm_sq, sqrt_floor,
};
use vstd::arithmetic::div_mod::{
    lemma_div_nonincreasing, lemma_div_pos_is_pos, lemma_remainder_lower,
};

verus! {

/// Why an embedding could not be produced: the tokenizer rejected the text
/// or produced a malformed encoding, or the encoder model failed to run.
#[derive(Clone, Copy, Debug, PartialEq, Eq, Structural)]
pub enum EmbedError {
    Tokenization,
    Inference,
}

/// One tokenized text: the token ids and the matching attention mask
/// (1 marks a real token, 0 padding).
#[derive(Debug)]
pub struct TokenSequence {
    pub ids: Vec<u32>,
    pub mask: Vec<u32>,
}

impl TokenSequence {
    /// Ids and mask have one entry per token, and the mask holds only 0 or 1.
    pub open spec fn wf(&self) -> bool {
        &&& self.ids@.len() == self.mask@.len()
        &&& forall|i: int| 0 <= i < self.mask@.len() ==> #[trigger] self.mask@[i] <= 1
    }

    /// Takes the ids and the attention mask a tokenizer produced and checks
    /// them: they must line up entry for entry and the mask must hold only
    /// 0 or 1. Exactly the encodings that fail this shape are rejected, as
    /// a tokenization error.
    pub fn new(ids: Vec<u32>, mask: Vec<u32>) -> (r: Result<TokenSequence, EmbedError>)
        ensures
            (r is Ok) == (ids@.len() == mask@.len() && forall|i: int|
                0 <= i < mask@.len() ==> #[trigger] mask@[i] <= 1),
            r matches Ok(t) ==> t.wf() && t.ids@ == ids@ && t.mask@ == mask@,
            r matches Err(e) ==> e == EmbedError::Tokenization,
    {
        if ids.len() != mask.len() {
            return Err(EmbedError::Tokenization);
        }
        let mut i: usize = 0;
        while i < mask.len()
            invariant
                0 <= i <= mask@.len(),
                forall|j: int| 0 <= j < i ==> #[trigger] mask@[j] <= 1,
            decreases mask@.len() - i,
        {
            if mask[i] > 1 {
                return Err(EmbedError::Tokenization);
            }
            i = i + 1;
        }
        Ok(TokenSequence { ids, mask })
    }
}

/// How many positions of `mask` are attended (equal to 1).
pub open spec fn mask_total(mask: Seq<u32>) -> int
    decreases mask.len(),
{
    if mask.len() == 0 {
        0
    } else {
        mask_total(mask.drop_last()) + if mask.last() == 1 {
            1int
        } else {
            0int
        }
    }
}

/// Sum of column `j` of `hidden` over the rows whose mask entry is 1.
pub open spec fn masked_col_sum(hidden: Seq<Seq<i64>>, mask: Seq<u32>, j: int) -> int
    decreases hidden.len(),
{
    if hidden.len() == 0 || mask.len() == 0 {
        0
    } else {
        masked_col_sum(hidden.drop_last(), mask.drop_last(), j) + if mask.last() == 1 {
            hidden.last()[j] as int
        } else {
            0int
        }
    }
}

/// Number of columns of a per-token hidden-state matrix.
pub open spec fn hidden_width(hidden: Seq<Seq<i64>>) -> int {
    if hidden.len() == 0 {
        0
    } else {
        hidden[0].len() as int
    }
}

/// All rows have the same width and bounded entries.
pub open spec fn hidden_ok(hidden: Seq<Seq<i64>>) -> bool {
    forall|i: int| 0 <= i < hidden.len() ==> (#[trigger] hidden[i]).len() == hidden_width(hidden)
        && bounded_by(hidden[i], COORD_MAX as int)
}

/// The mean-pooled vector: per column, the masked column sum divided by the
/// number of attended positions (rounded toward zero), or 0 everywhere when
/// nothing is attended.
pub open spec fn pooled_seq(hidden: Seq<Seq<i64>>, mask: Seq<u32>) -> Seq<i64> {
    Seq::new(
        hidden_width(hidden) as nat,
        |j: int|
            if mask_total(mask) == 0 {
                0i64
            } else {
                div_toward_zero(masked_col_sum(hidden, mask, j), mask_total(mask)) as i64
            },
    )
}

/// The normalized vector: each component scaled by `SCALE` and divided by the
/// floor square root of the squared norm; the zero vector stays unchanged.
pub open spec fn normalized_seq(v: Seq<i64>) -> Seq<i64> {
    if norm_sq(v) == 0 {
        v
    } else {
        Seq::new(
            v.len(),
            |j: int| div_toward_zero(v[j] * SCALE, sqrt_floor(norm_sq(v))) as i64,
        )
    }
}

proof fn lemma_mask_total_le_len(mask: Seq<u32>)
    ensures
        0 <= mask_total(mask) <= mask.len(),
    decreases mask.len(),
{
    if mask.len() > 0 {
        lemma_mask_total_le_len(mask.drop_last());
    }
}

proof fn lemma_masked_col_sum_bound(hidden: Seq<Seq<i64>>, mask: Seq<u32>, j: int)
    requires
        hidden.len() == mask.len(),
        hidden_ok(hidden),
        0 <= j < hidden_width(hidden),
    ensures
        -(mask_total(mask) * (COORD_MAX as int)) <= masked_col_sum(hidden, mask, j)
            <= mask_total(mask) * (COORD_MAX as int),
    decreases hidden.len(),
{
    let c = COORD_MAX as int;
    if hidden.len() == 0 {
    } else {
        assert(hidden_ok(hidden.drop_last())) by {
            assert(forall|i: int|
                0 <= i < hidden.len() - 1 ==> hidden.drop_last()[i] == #[trigger] hidden[i]);
        }
        if hidden.len() == 1 {
            assert(masked_col_sum(hidden.drop_last(), mask.drop_last(), j) == 0);
            assert(mask_total(mask.drop_last()) == 0);
        } else {
            assert(hidden.drop_last()[0] == hidden[0]);
            lemma_masked_col_sum_bound(hidden.drop_last(), mask.drop_last(), j);
        }
        lemma_mask_total_le_len(mask.drop_last());
        let t = mask_total(mask.drop_last());
        if mask.last() == 1 {
            assert(-c <= hidden.last()[j] <= c);
            assert((t + 1) * c == t * c + c) by (nonlinear_arith);
        }
    }
}

proof fn lemma_step_mask_total(mask: Seq<u32>, i: int)
    requires
        0 <= i < mask.len(),
    ensures
        mask_total(mask.take(i + 1)) == mask_total(mask.take(i)) + if mask[i] == 1 {
            1int
        } else {
            0int
        },
{
    assert(mask.take(i + 1).drop_last() =~= mask.take(i));
    assert(mask.take(i + 1).last() == mask[i]);
}

proof fn lemma_step_masked_col_sum(hidden: Seq<Seq<i64>>, mask: Seq<u32>, i: int, j: int)
    requires
        hidden.len() == mask.len(),
        0 <= i < hidden.len(),
    ensures
        masked_col_sum(hidden.take(i + 1), mask.take(i + 1), j) == masked_col_sum(
            hidden.take(i),
            mask.take(i),
            j,
        ) + if mask[i] == 1 {
            hidden[i][j] as int
        } else {
            0int
        },
{
    assert(hidden.take(i + 1).drop_last() =~= hidden.take(i));
    assert(mask.take(i + 1).drop_last() =~= mask.take(i));
    assert(hidden.take(i + 1).last() == hidden[i]);
    assert(mask.take(i + 1).last() == mask[i]);
}

proof fn lemma_take_masked_col_sum_bound(hidden: Seq<Seq<i64>>, mask: Seq<u32>, i: int, j: int)
    requires
        hidden.len() == mask.len(),
        hidden.len() <= MAX_DIM,
        hidden_ok(hidden),
        0 <= i <= hidden.len(),
        0 <= j < hidden_width(hidden),
    ensures
        -0x8000_0000_0000 <= masked_col_sum(hidden.take(i), mask.take(i), j)
            <= 0x8000_0000_0000,
        0 <= mask_total(mask.take(i)) <= i,
{
    let c = COORD_MAX as int;
    assert(hidden_ok(hidden.take(i)) && hidden_width(hidden.take(i)) == if i == 0 {
        0int
    } else {
        hidden_width(hidden)
    }) by {
        assert(forall|k: int| 0 <= k < i ==> hidden.take(i)[k] == #[trigger] hidden[k]);
    }
    lemma_mask_total_le_len(mask.take(i));
    if i == 0 {
    } else {
        lemma_masked_col_sum_bound(hidden.take(i), mask.take(i), j);
        assert(mask_total(mask.take(i)) * c <= 0x8000_0000_0000int) by (nonlinear_arith)
            requires
                0 <= mask_total(mask.take(i)) <= MAX_DIM,
                c == 0x100_0000int,
        ;
    }
}

/// Quotient of `s` by `d` rounded toward zero, as the spec
/// `div_toward_zero` describes.
fn div_trunc(s: i64, d: i64) -> (q: i64)
    requires
        d >= 1,
        -0x4000_0000_0000_0000 <= s <= 0x4000_0000_0000_0000,
    ensures
        q == div_toward_zero(s as int, d as int),
{
    if s >= 0 {
        proof {
            lemma_div_nonincreasing(s as int, d as int);
            lemma_div_pos_is_pos(s as int, d as int);
        }
        ((s as u64) / (d as u64)) as i64
    } else {
        proof {
            lemma_div_nonincreasing(-s as int, d as int);
            lemma_div_pos_is_pos(-s as int, d as int);
        }
        -(((-s) as u64 / (d as u64)) as i64)
    }
}

/// Averages the per-token hidden states over the attended positions: per
/// column the masked sum divided by the attended count, rounded toward zero.
/// When no position is attended the result is the zero vector.
pub fn mean_pooling(hidden: &Vec<Vec<i64>>, mask: &Vec<u32>) -> (r: Vec<i64>)
    requires
        hidden@.len() == mask@.len(),
        hidden@.len() <= MAX_DIM,
        hidden_ok(hidden.deep_view()),
    ensures
        r@ == pooled_seq(hidden.deep_view(), mask@),
        r@.len() == hidden_width(hidden.deep_view()),
        bounded_by(r@, COORD_MAX as int),
{
    let ghost h = hidden.deep_view();
    proof {
        assert(h.len() == hidden@.len());
        assert(forall|i: int| 0 <= i < h.len() ==> #[trigger] h[i] == hidden@[i]@);
    }
    let n = hidden.len();
    let width: usize = if n == 0 {
        0
    } else {
        hidden[0].len()
    };
    let mut cnt: i64 = 0;
    let mut i: usize = 0;
    while i < n
        invariant
            0 <= i <= n,
            n == mask@.len(),
            n <= MAX_DIM,
            cnt == mask_total(mask@.take(i as int)),
            0 <= cnt <= i,
        decreases n - i,
    {
        proof {
            lemma_step_mask_total(mask@, i as int);
        }
        if mask[i] == 1 {
            cnt = cnt + 1;
        }
        i = i + 1;
    }
    proof {
        assert(mask@.take(n as int) =~= mask@);
    }
    let mut r: Vec<i64> = Vec::new();
    let mut j: usize = 0;
    while j < width
        invariant
            0 <= j <= width,
            n == hidden@.len() == mask@.len(),
            n <= MAX_DIM,
            h == hidden.deep_view(),
            hidden_ok(h),
            width as int == hidden_width(h),
            cnt == mask_total(mask@),
            0 <= cnt <= n,
            r@.len() == j,
            forall|k: int| 0 <= k < j ==> #[trigger] r@[k] == pooled_seq(h, mask@)[k],
            bounded_by(r@, COORD_MAX as int),
        decreases width - j,
    {
        let mut s: i64 = 0;
        let mut i2: usize = 0;
        while i2 < n
            invariant
                0 <= i2 <= n,
                n == hidden@.len() == mask@.len(),
                n <= MAX_DIM,
                h == hidden.deep_view(),
                hidden_ok(h),
                width as int == hidden_width(h),
                0 <= (j as int) < width as int,
                s == masked_col_sum(h.take(i2 as int), mask@.take(i2 as int), j as int),
            decreases n - i2,
        {
            proof {
                lemma_step_masked_col_sum(h, mask@, i2 as int, j as int);
                lemma_take_masked_col_sum_bound(h, mask@, i2 as int, j as int);
                lemma_take_masked_col_sum_bound(h, mask@, i2 as int + 1, j as int);
                assert(h[i2 as int] == hidden@[i2 as int]@);
                assert(hidden@[i2 as int]@.len() == hidden_width(h));
                assert(-(COORD_MAX as int) <= h[i2 as int][j as int] <= COORD_MAX as int);
            }
            if mask[i2] == 1 {
                s = s + hidden[i2][j];
            }
            i2 = i2 + 1;
        }
        proof {
            assert(h.take(n as int) =~= h);
            assert(mask@.take(n as int) =~= mask@);
            lemma_take_masked_col_sum_bound(h, mask@, n as int, j as int);
        }
        if cnt == 0 {
            r.push(0);
        } else {
            proof {
                lemma_masked_col_sum_bound(h, mask@, j as int);
                crate::similarity::lemma_div_toward_zero_bound(
                    s as int,
                    cnt as int,
                    COORD_MAX as int,
                );
            }
            r.push(div_trunc(s, cnt));
        }
        proof {
            assert(r@[j as int] == pooled_seq(h, mask@)[j as int]);
        }
        j = j + 1;
    }
    proof {
        assert(r@ =~= pooled_seq(h, mask@));
    }
    r
}

/// Scales `v` to (fixed-point) unit length: each component is multiplied by
/// `SCALE` and divided by the floor square root of the squared norm, rounded
/// toward zero. The zero vector is returned unchanged.
pub fn normalize(v: &Vec<i64>) -> (r: Vec<i64>)
    requires
        v@.len() <= MAX_DIM,
        bounded_by(v@, COORD_MAX as int),
    ensures
        r@ == normalized_seq(v@),
        r@.len() == v@.len(),
        bounded_by(r@, SCALE as int),
{
    let n = v.len();
    let mut i: usize = 0;
    let mut nsq: i128 = 0;
    while i < n
        invariant
            0 <= i <= n,
            n == v@.len(),
            n <= MAX_DIM,
            bounded_by(v@, COORD_MAX as int),
            nsq == norm_sq(v@.take(i as int)),
        decreases n - i,
    {
        proof {
            lemma_take_bounds(v@, v@, i as int);
            lemma_take_bounds(v@, v@, i as int + 1);
            crate::similarity::lemma_dot_take_step(v@, v@, i as int);
            assert(-0x1_0000_0000_0000 <= (v@[i as int] as int) * (v@[i as int] as int)
                <= 0x1_0000_0000_0000) by (nonlinear_arith)
                requires
                    -0x100_0000 <= v@[i as int] <= 0x100_0000,
            ;
        }
        nsq = nsq + (v[i] as i128) * (v[i] as i128);
        i = i + 1;
    }
    proof {
        assert(v@.take(n as int) =~= v@);
        lemma_norm_sq_nonneg(v@);
        lemma_take_bounds(v@, v@, n as int);
        assert(norm_sq(v@) <= 0x8000_0000_0000_0000int);
    }
    if nsq == 0 {
        let mut r: Vec<i64> = Vec::new();
        let mut j: usize = 0;
        while j < n
            invariant
                0 <= j <= n,
                n == v@.len(),
                bounded_by(v@, COORD_MAX as int),
                r@.len() == j,
                forall|k: int| 0 <= k < j ==> #[trigger] r@[k] == v@[k],
            decreases n - j,
        {
            r.push(v[j]);
            j = j + 1;
        }
        proof {
            assert(r@ =~= v@);
            assert forall|k: int| 0 <= k < r@.len() implies -SCALE <= #[trigger] r@[k]
                <= SCALE by {
                lemma_coord_sq_le_norm_sq(v@, k);
                assert(v@[k] == 0) by (nonlinear_arith)
                    requires
                        v@[k] * v@[k] <= 0,
                ;
            }
        }
        r
    } else {
        let m: u128 = int_sqrt(nsq as u128);
        proof {
            crate::similarity::lemma_sqrt_floor_props(nsq as int);
            if m == 0 {
                assert(nsq < (0 + 1) * (0 + 1));
                assert(false);
            }
            if m >= 0x1_0000_0000 {
                assert(m * m >= 0x1_0000_0000 * 0x1_0000_0000) by (nonlinear_arith)
                    requires
                        m >= 0x1_0000_0000,
                ;
                assert(false);
            }
        }
        let md: i64 = m as i64;
        let mut r: Vec<i64> = Vec::new();
        let mut j: usize = 0;
        while j < n
            invariant
                0 <= j <= n,
                n == v@.len(),
                n <= MAX_DIM,
                bounded_by(v@, COORD_MAX as int),
                norm_sq(v@) != 0,
                1 <= md < 0x1_0000_0000,
                md == sqrt_floor(norm_sq(v@)),
                (md as int) * (md as int) <= norm_sq(v@),
                norm_sq(v@) < ((md as int) + 1) * ((md as int) + 1),
                r@.len() == j,
                forall|k: int| 0 <= k < j ==> #[trigger] r@[k] == normalized_seq(v@)[k],
                bounded_by(r@, SCALE as int),
            decreases n - j,
        {
            proof {
                lemma_coord_sq_le_norm_sq(v@, j as int);
                lemma_abs_le_sqrt(v@[j as int] as int, norm_sq(v@), md as int);
                crate::similarity::lemma_div_toward_zero_bound(
                    (v@[j as int] as int) * (SCALE as int),
                    md as int,
                    SCALE as int,
                );
            }
            r.push(div_trunc(v[j] * SCALE, md));
            j = j + 1;
        }
        proof {
            assert(r@ =~= normalized_seq(v@));
        }
        r
    }
}

proof fn lemma_tdz_sq_bound(a: int, m: int)
    requires
        m >= 1,
    ensures
        (div_toward_zero(a, m) * div_toward_zero(a, m)) * (m * m) <= a * a,
{
    let q = div_toward_zero(a, m);
    if a >= 0 {
        lemma_remainder_lower(a, m);
        lemma_div_pos_is_pos(a, m);
        assert(q * m <= a);
        assert((q * m) * (q * m) <= a * a) by (nonlinear_arith)
            requires
                0 <= q * m <= a,
        ;
        assert((q * q) * (m * m) == (q * m) * (q * m)) by (nonlinear_arith);
    } else {
        let b = -a;
        lemma_remainder_lower(b, m);
        lemma_div_pos_is_pos(b, m);
        let p = b / m;
        assert(q == -p);
        assert(p * m <= b);
        assert((p * m) * (p * m) <= b * b) by (nonlinear_arith)
            requires
                0 <= p * m <= b,
        ;
        assert((q * q) * (m * m) == (p * m) * (p * m)) by (nonlinear_arith)
            requires
                q == -p,
        ;
        assert(a * a == b * b) by (nonlinear_arith)
            requires
                b == -a,
        ;
    }
}

proof fn lemma_weighted_dot_bound(r: Seq<i64>, v: Seq<i64>, m: int)
    requires
        r.len() == v.len(),
        forall|j: int|
            0 <= j < r.len() ==> ((#[trigger] r[j]) * r[j]) * (m * m) <= (SCALE * SCALE) * ((
            #[trigger] v[j]) * v[j]),
    ensures
        crate::similarity::dot(r, r) * (m * m) <= (SCALE * SCALE) * crate::similarity::dot(v, v),
    decreases r.len(),
{
    if r.len() > 0 {
        assert(forall|j: int| 0 <= j < r.len() - 1 ==> r.drop_last()[j] == #[trigger] r[j]);
        assert(forall|j: int| 0 <= j < v.len() - 1 ==> v.drop_last()[j] == #[trigger] v[j]);
        lemma_weighted_dot_bound(r.drop_last(), v.drop_last(), m);
        let dr = crate::similarity::dot(r.drop_last(), r.drop_last());
        let dv = crate::similarity::dot(v.drop_last(), v.drop_last());
        let x = r[r.len() - 1];
        let y = v[v.len() - 1];
        assert(r.last() == x && v.last() == y);
        assert((dr + x * x) * (m * m) == dr * (m * m) + (x * x) * (m * m)) by (nonlinear_arith);
        assert((SCALE * SCALE) * (dv + y * y) == (SCALE * SCALE) * dv + (SCALE * SCALE) * (y
            * y)) by (nonlinear_arith);
    }
}

/// The magnitude of `x` as a mathematical integer.
pub open spec fn abs_i64(x: i64) -> int {
    if x >= 0 {
        x as int
    } else {
        -(x as int)
    }
}

/// Sum of the magnitudes of the components of `v`.
pub open spec fn abs_sum(v: Seq<i64>) -> int
    decreases v.len(),
{
    if v.len() == 0 {
        0
    } else {
        abs_sum(v.drop_last()) + abs_i64(v.last())
    }
}

proof fn lemma_tdz_sq_lower(a: int, m: int)
    requires
        m >= 1,
    ensures
        (div_toward_zero(a, m) * div_toward_zero(a, m)) * (m * m) >= a * a - 2 * (m * (if a >= 0 {
            a
        } else {
            -a
        })),
{
    let q = div_toward_zero(a, m);
    let b: int = if a >= 0 {
        a
    } else {
        -a
    };
    let p = b / m;
    assert(q * q == p * p) by (nonlinear_arith)
        requires
            q == p || q == -p,
    ;
    assert(a * a == b * b) by (nonlinear_arith)
        requires
            a == b || a == -b,
    ;
    vstd::arithmetic::div_mod::lemma_remainder_upper(b, m);
    lemma_div_pos_is_pos(b, m);
    assert(b - m < p * m);
    if b < m {
        vstd::arithmetic::div_mod::lemma_basic_div(b, m);
        assert(p == 0);
        assert(b * b - 2 * (m * b) <= 0) by (nonlinear_arith)
            requires
                0 <= b < m,
        ;
        assert((p * p) * (m * m) == 0) by (nonlinear_arith)
            requires
                p == 0,
        ;
    } else {
        assert((p * m) * (p * m) >= (b - m) * (b - m)) by (nonlinear_arith)
            requires
                0 <= b - m,
                b - m < p * m,
        ;
        assert((b - m) * (b - m) >= b * b - 2 * (m * b)) by (nonlinear_arith);
        assert((p * p) * (m * m) == (p * m) * (p * m)) by (nonlinear_arith);
    }
}

proof fn lemma_weighted_dot_lower(r: Seq<i64>, v: Seq<i64>, m: int)
    requires
        r.len() == v.len(),
        m >= 1,
        forall|j: int|
            0 <= j < r.len() ==> ((#[trigger] r[j]) * r[j]) * (m * m) >= (SCALE * SCALE) * ((
            #[trigger] v[j]) * v[j]) - 2 * ((m * SCALE) * abs_i64(v[j])),
    ensures
        crate::similarity::dot(r, r) * (m * m) >= (SCALE * SCALE) * crate::similarity::dot(v, v)
            - 2 * ((m * SCALE) * abs_sum(v)),
    decreases r.len(),
{
    if r.len() > 0 {
        assert(forall|j: int| 0 <= j < r.len() - 1 ==> r.drop_last()[j] == #[trigger] r[j]);
        assert(forall|j: int| 0 <= j < v.len() - 1 ==> v.drop_last()[j] == #[trigger] v[j]);
        lemma_weighted_dot_lower(r.drop_last(), v.drop_last(), m);
        let dr = crate::similarity::dot(r.drop_last(), r.drop_last());
        let dv = crate::similarity::dot(v.drop_last(), v.drop_last());
        let aa = abs_sum(v.drop_last());
        let x = r[r.len() - 1];
        let y = v[v.len() - 1];
        assert(r.last() == x && v.last() == y);
        assert((dr + x * x) * (m * m) == dr * (m * m) + (x * x) * (m * m)) by (nonlinear_arith);
        assert((SCALE * SCALE) * (dv + y * y) == (SCALE * SCALE) * dv + (SCALE * SCALE) * (y
            * y)) by (nonlinear_arith);
        assert(2 * ((m * SCALE) * (aa + abs_i64(y))) == 2 * ((m * SCALE) * aa) + 2 * ((m * SCALE)
            * abs_i64(y))) by (nonlinear_arith);
    }
}

/// The other direction of the unit-norm property of `normalize`: the
/// weighted squared norm falls short of `SCALE^2` times the original
/// squared norm by at most twice the floor root times `SCALE` times the sum
/// of the component magnitudes — what component-wise truncation can lose.
/// With `lemma_normalized_norm_sq_upper` this brackets the fixed-point norm
/// around 1, ever tighter as the vector's norm grows.
pub proof fn lemma_normalized_norm_sq_lower(v: Seq<i64>)
    requires
        norm_sq(v) != 0,
    ensures
        norm_sq(normalized_seq(v)) * (sqrt_floor(norm_sq(v)) * sqrt_floor(norm_sq(v))) >= (SCALE
            * SCALE) * norm_sq(v) - 2 * ((sqrt_floor(norm_sq(v)) * SCALE) * abs_sum(v)),
{
    let nsq = norm_sq(v);
    lemma_norm_sq_nonneg(v);
    crate::similarity::lemma_sqrt_floor_props(nsq);
    let m = sqrt_floor(nsq);
    if m == 0 {
        assert(nsq < (0 + 1) * (0 + 1));
        assert(false);
    }
    let r = normalized_seq(v);
    assert forall|j: int| 0 <= j < r.len() implies ((#[trigger] r[j]) * r[j]) * (m * m) >= (SCALE
        * SCALE) * ((#[trigger] v[j]) * v[j]) - 2 * ((m * SCALE) * abs_i64(v[j])) by {
        lemma_coord_sq_le_norm_sq(v, j);
        lemma_abs_le_sqrt(v[j] as int, nsq, m);
        crate::similarity::lemma_div_toward_zero_bound(
            (v[j] as int) * (SCALE as int),
            m,
            SCALE as int,
        );
        let a = (v[j] as int) * (SCALE as int);
        let t = div_toward_zero(a, m);
        assert(-SCALE <= t <= SCALE);
        assert(r[j] == t as i64);
        assert(r[j] == t);
        lemma_tdz_sq_lower(a, m);
        assert(a * a == (SCALE * SCALE) * ((v[j] as int) * (v[j] as int))) by (nonlinear_arith)
            requires
                a == (v[j] as int) * (SCALE as int),
        ;
        assert((if a >= 0 {
            a
        } else {
            -a
        }) == SCALE * abs_i64(v[j])) by (nonlinear_arith)
            requires
                a == (v[j] as int) * (SCALE as int),
                SCALE > 0,
        ;
        assert(2 * (m * (SCALE * abs_i64(v[j]))) == 2 * ((m * SCALE) * abs_i64(v[j])))
            by (nonlinear_arith);
    }
    lemma_weighted_dot_lower(r, v, m);
}

/// One direction of the unit-norm property of `normalize`: the squared norm
/// of the normalized vector, weighted by the squared floor root of the
/// original's squared norm, is at most `SCALE^2` times that squared norm.
/// So the fixed-point norm can exceed 1 only by what the floor root
/// rounds away, a relative margin that shrinks as the vector's norm grows.
/// The matching lower bound is not stated here.
pub proof fn lemma_normalized_norm_sq_upper(v: Seq<i64>)
    requires
        norm_sq(v) != 0,
    ensures
        norm_sq(normalized_seq(v)) * (sqrt_floor(norm_sq(v)) * sqrt_floor(norm_sq(v))) <= (SCALE
            * SCALE) * norm_sq(v),
{
    let nsq = norm_sq(v);
    lemma_norm_sq_nonneg(v);
    crate::similarity::lemma_sqrt_floor_props(nsq);
    let m = sqrt_floor(nsq);
    if m == 0 {
        assert(nsq < (0 + 1) * (0 + 1));
        assert(false);
    }
    let r = normalized_seq(v);
    assert forall|j: int| 0 <= j < r.len() implies ((#[trigger] r[j]) * r[j]) * (m * m) <= (SCALE
        * SCALE) * ((#[trigger] v[j]) * v[j]) by {
        lemma_coord_sq_le_norm_sq(v, j);
        lemma_abs_le_sqrt(v[j] as int, nsq, m);
        crate::similarity::lemma_div_toward_zero_bound(
            (v[j] as int) * (SCALE as int),
            m,
            SCALE as int,
        );
        let t = div_toward_zero((v[j] as int) * (SCALE as int), m);
        assert(-SCALE <= t <= SCALE);
        assert(r[j] == t as i64);
        assert(r[j] == t);
        lemma_tdz_sq_bound((v[j] as int) * (SCALE as int), m);
        assert(((v[j] as int) * (SCALE as int)) * ((v[j] as int) * (SCALE as int)) == (SCALE
            * SCALE) * ((v[j] as int) * (v[j] as int))) by (nonlinear_arith);
    }
    lemma_weighted_dot_bound(r, v, m);
}

/// The verified tail of `embed`: mean pooling followed by normalization.
/// The result is exactly `normalized_seq(pooled_seq(hidden, mask))`, a
/// function of the hidden states and the mask alone, so two calls on the
/// same model output give the same embedding.
pub fn pool_and_normalize(hidden: &Vec<Vec<i64>>, mask: &Vec<u32>) -> (r: Vec<i64>)
    requires
        hidden@.len() == mask@.len(),
        hidden@.len() <= MAX_DIM,
        hidden_width(hidden.deep_view()) <= MAX_DIM,
        hidden_ok(hidden.deep_view()),
    ensures
        r@ == normalized_seq(pooled_seq(hidden.deep_view(), mask@)),
        r@.len() == hidden_width(hidden.deep_view()),
        bounded_by(r@, SCALE as int),
        mask_total(mask@) == 0 ==> forall|j: int| 0 <= j < r@.len() ==> #[trigger] r@[j] == 0,
{
    let pooled = mean_pooling(hidden, mask);
    proof {
        if mask_total(mask@) == 0 {
            assert(forall|j: int| 0 <= j < pooled@.len() ==> #[trigger] pooled@[j] == 0);
            lemma_norm_sq_zero(pooled@);
        }
    }
    normalize(&pooled)
}

} // verus!
