//! Exact cosine-similarity arithmetic over fixed-point vectors.
//!
//! A flattened embedding vector is a sequence of `i64` components, each
//! bounded by [`COMPONENT_LIMIT`] in magnitude; a component value of
//! [`SCALE`] stands for 1.0.  The cosine similarity of two vectors `a`
//! and `b` is `dot(a,b) / sqrt(dot(a,a) * dot(b,b))`; it is represented
//! exactly by the pair `(dot(a,b), dot(a,a) * dot(b,b))` and never
//! evaluated to an inexact number.  Comparing two similarities, or a
//! similarity against a threshold, is decided by cross-multiplication
//! of squares, which agrees with the comparison of the real quotients
//! because squaring is monotone on same-sign values.

use vstd::prelude::*;

verus! {

/// Fixed-point scale: a component of this value stands for 1.0, and a
/// threshold of this value stands for a cosine similarity of 1.0.
pub const SCALE: i64 = 1000;

/// Largest magnitude a single vector component may have.
pub const COMPONENT_LIMIT: i64 = 1024;

/// Largest flattened vector length the index accepts.
pub const DIMENSION_LIMIT: usize = 2048;

/// Largest squared-norm product a well-formed similarity can carry:
/// `(DIMENSION_LIMIT * COMPONENT_LIMIT * COMPONENT_LIMIT)^2 = 2^62`.
pub const NORM_PRODUCT_LIMIT: i128 = 0x4000_0000_0000_0000;

/// Largest threshold magnitude `meets_threshold` accepts (1000.0 in
/// fixed-point form, far beyond any attainable cosine similarity).
pub const THRESHOLD_LIMIT: i64 = 1_000_000;

/// The components of a vector, as mathematical integers.
pub open spec fn ints(s: Seq<i64>) -> Seq<int> {
    s.map_values(|x: i64| x as int)
}

/// Dot product of two integer sequences of equal length.
pub open spec fn dot(a: Seq<int>, b: Seq<int>) -> int
    decreases a.len(),
{
    if a.len() == 0 || b.len() == 0 {
        0
    } else {
        dot(a.drop_last(), b.drop_last()) + a.last() * b.last()
    }
}

/// Every component of `a` is bounded by `c` in magnitude.
pub open spec fn bounded(a: Seq<int>, c: int) -> bool {
    forall|i: int| 0 <= i < a.len() ==> -c <= #[trigger] a[i] <= c
}

/// A flattened vector the similarity arithmetic accepts.
pub open spec fn admissible(a: Seq<int>) -> bool {
    a.len() <= DIMENSION_LIMIT && bounded(a, COMPONENT_LIMIT as int)
}

/// The exact value of a cosine similarity, as the pair of its dot
/// product and the product of the two squared norms: the similarity of
/// `a` and `b` is `similarity_of(a, b).0 / sqrt(similarity_of(a, b).1)`.
pub open spec fn similarity_of(a: Seq<int>, b: Seq<int>) -> (int, int) {
    (dot(a, b), dot(a, a) * dot(b, b))
}

pub proof fn lemma_dot_sym(a: Seq<int>, b: Seq<int>)
    requires
        a.len() == b.len(),
    ensures
        dot(a, b) == dot(b, a),
    decreases a.len(),
{
    if a.len() > 0 {
        lemma_dot_sym(a.drop_last(), b.drop_last());
    }
}

pub proof fn lemma_dot_bound(a: Seq<int>, b: Seq<int>, c: int)
    requires
        a.len() == b.len(),
        c >= 0,
        bounded(a, c),
        bounded(b, c),
    ensures
        -(a.len() * c * c) <= dot(a, b) <= a.len() * c * c,
    decreases a.len(),
{
    if a.len() > 0 {
        let x = a.last();
        let y = b.last();
        assert(bounded(a.drop_last(), c));
        assert(bounded(b.drop_last(), c));
        lemma_dot_bound(a.drop_last(), b.drop_last(), c);
        assert(-(c * c) <= x * y <= c * c) by (nonlinear_arith)
            requires
                -c <= x <= c,
                -c <= y <= c,
                c >= 0,
        ;
        assert((a.len() - 1) * c * c + c * c == a.len() * c * c) by (nonlinear_arith)
            requires
                a.len() >= 1,
        ;
    }
}

pub proof fn lemma_dot_self_nonneg(a: Seq<int>)
    ensures
        dot(a, a) >= 0,
    decreases a.len(),
{
    if a.len() > 0 {
        lemma_dot_self_nonneg(a.drop_last());
        let x = a.last();
        assert(x * x >= 0) by (nonlinear_arith);
    }
}

/// A vector whose squared norm is zero is orthogonal to everything.
pub proof fn lemma_dot_self_zero(a: Seq<int>, b: Seq<int>)
    requires
        a.len() == b.len(),
        dot(a, a) == 0,
    ensures
        dot(a, b) == 0,
    decreases a.len(),
{
    if a.len() > 0 {
        let x = a.last();
        let y = b.last();
        lemma_dot_self_nonneg(a.drop_last());
        assert(x * x >= 0) by (nonlinear_arith);
        assert(dot(a.drop_last(), a.drop_last()) == 0);
        assert(x * x == 0);
        assert(x == 0) by (nonlinear_arith)
            requires
                x * x == 0,
        ;
        lemma_dot_self_zero(a.drop_last(), b.drop_last());
        assert(x * y == 0);
    }
}

/// The Cauchy-Schwarz inequality: the squared dot product never exceeds
/// the product of the squared norms, so a cosine similarity never
/// exceeds 1 in magnitude.
pub proof fn lemma_cauchy_schwarz(a: Seq<int>, b: Seq<int>)
    requires
        a.len() == b.len(),
    ensures
        dot(a, b) * dot(a, b) <= dot(a, a) * dot(b, b),
    decreases a.len(),
{
    if a.len() > 0 {
        let a1 = a.drop_last();
        let b1 = b.drop_last();
        let x = a.last();
        let y = b.last();
        lemma_cauchy_schwarz(a1, b1);
        let d = dot(a1, b1);
        let am = dot(a1, a1);
        let bm = dot(b1, b1);
        lemma_dot_self_nonneg(a1);
        lemma_dot_self_nonneg(b1);
        if am == 0 {
            lemma_dot_self_zero(a1, b1);
            assert((d + x * y) * (d + x * y) <= (am + x * x) * (bm + y * y))
                by (nonlinear_arith)
                requires
                    d == 0,
                    am == 0,
                    bm >= 0,
            ;
        } else {
            assert((am * y - d * x) * (am * y - d * x) >= 0) by (nonlinear_arith);
            assert(2 * am * (d * (x * y)) <= am * am * (y * y) + d * d * (x * x))
                by (nonlinear_arith)
                requires
                    (am * y - d * x) * (am * y - d * x) >= 0,
            ;
            assert(d * d * (x * x) <= am * bm * (x * x)) by (nonlinear_arith)
                requires
                    d * d <= am * bm,
            ;
            assert(2 * (d * (x * y)) <= am * (y * y) + bm * (x * x)) by (nonlinear_arith)
                requires
                    am > 0,
                    2 * am * (d * (x * y)) <= am * am * (y * y) + am * bm * (x * x),
            ;
            assert((d + x * y) * (d + x * y) == d * d + 2 * (d * (x * y)) + (x * x) * (y
                * y)) by (nonlinear_arith);
            assert((am + x * x) * (bm + y * y) == am * bm + am * (y * y) + bm * (x * x) + (x
                * x) * (y * y)) by (nonlinear_arith);
            assert((d + x * y) * (d + x * y) <= (am + x * x) * (bm + y * y));
        }
        assert(dot(a, b) == d + x * y);
        assert(dot(a, a) == am + x * x);
        assert(dot(b, b) == bm + y * y);
    }
}

/// An exactly represented cosine similarity: the similarity value is
/// `dot / sqrt(norm_sq_product)`, never evaluated inexactly.
#[derive(Clone, Copy, Debug)]
pub struct SimilarityValue {
    pub dot: i128,
    pub norm_sq_product: i128,
}

impl SimilarityValue {
    /// A similarity produced from two admissible non-degenerate
    /// vectors: positive bounded norm product, and the square of the
    /// dot product bounded by it (Cauchy-Schwarz).
    pub open spec fn wf(self) -> bool {
        0 < self.norm_sq_product <= NORM_PRODUCT_LIMIT
            && self.dot * self.dot <= self.norm_sq_product
    }
}

/// `a` is at least as similar as `b`: `a.dot / sqrt(a.norm_sq_product)
/// >= b.dot / sqrt(b.norm_sq_product)`, decided by comparing the
/// squares on same-sign dot products.
pub open spec fn spec_similarity_ge(a: SimilarityValue, b: SimilarityValue) -> bool {
    if a.dot >= 0 && b.dot < 0 {
        true
    } else if a.dot < 0 && b.dot >= 0 {
        false
    } else if a.dot >= 0 {
        a.dot * a.dot * b.norm_sq_product >= b.dot * b.dot * a.norm_sq_product
    } else {
        a.dot * a.dot * b.norm_sq_product <= b.dot * b.dot * a.norm_sq_product
    }
}

/// The similarity `s` is at least the fixed-point threshold `t` (which
/// stands for `t / SCALE`): `s.dot / sqrt(s.norm_sq_product) >= t / SCALE`.
pub open spec fn spec_meets_threshold(s: SimilarityValue, t: int) -> bool {
    if s.dot >= 0 {
        t <= 0 || (s.dot * SCALE) * (s.dot * SCALE) >= t * t * s.norm_sq_product
    } else {
        t <= 0 && (s.dot * SCALE) * (s.dot * SCALE) <= t * t * s.norm_sq_product
    }
}

proof fn lemma_product_bounds(a: SimilarityValue, b: SimilarityValue)
    requires
        a.wf(),
        b.wf(),
    ensures
        0 <= a.dot * a.dot <= NORM_PRODUCT_LIMIT,
        0 <= b.dot * b.dot <= NORM_PRODUCT_LIMIT,
        0 <= a.dot * a.dot * b.norm_sq_product <= NORM_PRODUCT_LIMIT * NORM_PRODUCT_LIMIT,
        0 <= b.dot * b.dot * a.norm_sq_product <= NORM_PRODUCT_LIMIT * NORM_PRODUCT_LIMIT,
{
    assert(0 <= a.dot * a.dot && 0 <= b.dot * b.dot) by (nonlinear_arith);
    assert(0 <= a.dot * a.dot * b.norm_sq_product
        <= NORM_PRODUCT_LIMIT * NORM_PRODUCT_LIMIT) by (nonlinear_arith)
        requires
            0 <= a.dot * a.dot <= NORM_PRODUCT_LIMIT,
            0 < b.norm_sq_product <= NORM_PRODUCT_LIMIT,
    ;
    assert(0 <= b.dot * b.dot * a.norm_sq_product
        <= NORM_PRODUCT_LIMIT * NORM_PRODUCT_LIMIT) by (nonlinear_arith)
        requires
            0 <= b.dot * b.dot <= NORM_PRODUCT_LIMIT,
            0 < a.norm_sq_product <= NORM_PRODUCT_LIMIT,
    ;
}

/// Decides whether `a` is at least as similar as `b`.
pub fn similarity_ge(a: &SimilarityValue, b: &SimilarityValue) -> (r: bool)
    requires
        a.wf(),
        b.wf(),
    ensures
        r == spec_similarity_ge(*a, *b),
{
    if a.dot >= 0 && b.dot < 0 {
        true
    } else if a.dot < 0 && b.dot >= 0 {
        false
    } else {
        proof {
            lemma_product_bounds(*a, *b);
        }
        let left = a.dot * a.dot * b.norm_sq_product;
        let right = b.dot * b.dot * a.norm_sq_product;
        if a.dot >= 0 {
            left >= right
        } else {
            left <= right
        }
    }
}

/// Decides whether the similarity `s` reaches the fixed-point
/// threshold `t` (entries strictly below the threshold are dropped).
pub fn meets_threshold(s: &SimilarityValue, t: i64) -> (r: bool)
    requires
        s.wf(),
        -THRESHOLD_LIMIT <= t <= THRESHOLD_LIMIT,
    ensures
        r == spec_meets_threshold(*s, t as int),
{
    proof {
        assert(0 <= s.dot * s.dot) by (nonlinear_arith);
        assert(-0x1_0000_0000 <= s.dot <= 0x1_0000_0000) by (nonlinear_arith)
            requires
                s.dot * s.dot <= NORM_PRODUCT_LIMIT,
                NORM_PRODUCT_LIMIT == 0x4000_0000_0000_0000,
        ;
        assert(0 <= (s.dot * (SCALE as i128)) * (s.dot * (SCALE as i128))
            <= (NORM_PRODUCT_LIMIT * (SCALE as i128)) * (SCALE as i128)) by (nonlinear_arith)
            requires
                0 <= s.dot * s.dot <= NORM_PRODUCT_LIMIT,
                SCALE == 1000,
        ;
        assert(0 <= (t as i128) * (t as i128)
            <= (THRESHOLD_LIMIT as i128) * (THRESHOLD_LIMIT as i128)) by (nonlinear_arith)
            requires
                -(THRESHOLD_LIMIT as i128) <= t as i128 <= THRESHOLD_LIMIT as i128,
        ;
        assert(0 <= (t as i128) * (t as i128) * s.norm_sq_product
            <= ((THRESHOLD_LIMIT as i128) * (THRESHOLD_LIMIT as i128)) * NORM_PRODUCT_LIMIT)
            by (nonlinear_arith)
            requires
                0 <= (t as i128) * (t as i128) <= (THRESHOLD_LIMIT as i128) * (THRESHOLD_LIMIT
                    as i128),
                0 < s.norm_sq_product <= NORM_PRODUCT_LIMIT,
        ;
        assert(-0x3E8_0000_0000 <= s.dot * (SCALE as i128) <= 0x3E8_0000_0000)
            by (nonlinear_arith)
            requires
                -0x1_0000_0000 <= s.dot <= 0x1_0000_0000,
                SCALE == 1000,
        ;
        assert(0 <= (s.dot * (SCALE as i128)) * (s.dot * (SCALE as i128)) <= 0x3E8_0000_0000
            * 0x3E8_0000_0000) by (nonlinear_arith)
            requires
                -0x3E8_0000_0000 <= s.dot * (SCALE as i128) <= 0x3E8_0000_0000,
        ;
    }
    let scaled = s.dot * (SCALE as i128);
    let left = scaled * scaled;
    let right = (t as i128) * (t as i128) * s.norm_sq_product;
    if s.dot >= 0 {
        t <= 0 || left >= right
    } else {
        t <= 0 && left <= right
    }
}

/// No similarity of well-formed vectors reaches a threshold above 1.0:
/// by Cauchy-Schwarz the dot product squared never exceeds the norm
/// product, so the cosine value is at most 1.
pub proof fn lemma_threshold_above_one_rejects_all(s: SimilarityValue, t: int)
    requires
        s.wf(),
        t > SCALE,
    ensures
        !spec_meets_threshold(s, t),
{
    if s.dot >= 0 {
        assert((s.dot * SCALE) * (s.dot * SCALE) < t * t * s.norm_sq_product)
            by (nonlinear_arith)
            requires
                s.dot >= 0,
                s.dot * s.dot <= s.norm_sq_product,
                s.norm_sq_product > 0,
                t > SCALE,
                SCALE > 0,
        ;
    }
}

/// A threshold at or below -1.0 (at or below the least attainable
/// cosine similarity) accepts every similarity of well-formed vectors.
pub proof fn lemma_floor_threshold_accepts_all(s: SimilarityValue, t: int)
    requires
        s.wf(),
        t <= -SCALE,
    ensures
        spec_meets_threshold(s, t),
{
    if s.dot < 0 {
        assert(t * t >= (SCALE as int) * (SCALE as int)) by (nonlinear_arith)
            requires
                t <= -SCALE,
                SCALE == 1000,
        ;
        assert((s.dot * SCALE) * (s.dot * SCALE) <= t * t * s.norm_sq_product)
            by (nonlinear_arith)
            requires
                s.dot * s.dot <= s.norm_sq_product,
                s.norm_sq_product > 0,
                t * t >= (SCALE as int) * (SCALE as int),
                SCALE == 1000,
        ;
    }
}

/// Any two similarities are comparable.
pub proof fn lemma_similarity_ge_total(a: SimilarityValue, b: SimilarityValue)
    requires
        a.wf(),
        b.wf(),
    ensures
        spec_similarity_ge(a, b) || spec_similarity_ge(b, a),
{
}

/// The similarity ordering is transitive.
pub proof fn lemma_similarity_ge_trans(a: SimilarityValue, b: SimilarityValue, c: SimilarityValue)
    requires
        a.wf(),
        b.wf(),
        c.wf(),
    ensures
        spec_similarity_ge(a, b) && spec_similarity_ge(b, c) ==> spec_similarity_ge(a, c),
{
    if spec_similarity_ge(a, b) && spec_similarity_ge(b, c) {
        let pa = a.norm_sq_product;
        let pb = b.norm_sq_product;
        let pc = c.norm_sq_product;
        if a.dot >= 0 && b.dot >= 0 && c.dot >= 0 {
            assert(a.dot * a.dot * pc >= c.dot * c.dot * pa) by (nonlinear_arith)
                requires
                    a.dot * a.dot * pb >= b.dot * b.dot * pa,
                    b.dot * b.dot * pc >= c.dot * c.dot * pb,
                    pa > 0,
                    pb > 0,
                    pc > 0,
            ;
        } else if a.dot < 0 && b.dot < 0 && c.dot < 0 {
            assert(a.dot * a.dot * pc <= c.dot * c.dot * pa) by (nonlinear_arith)
                requires
                    a.dot * a.dot * pb <= b.dot * b.dot * pa,
                    b.dot * b.dot * pc <= c.dot * c.dot * pb,
                    pa > 0,
                    pb > 0,
                    pc > 0,
            ;
        }
    }
}

/// Computes the dot product of two bounded fixed-point vectors.
pub fn dot_product(a: &Vec<i64>, b: &Vec<i64>) -> (r: i128)
    requires
        a@.len() == b@.len(),
        admissible(ints(a@)),
        admissible(ints(b@)),
    ensures
        r == dot(ints(a@), ints(b@)),
        -(DIMENSION_LIMIT as int) * (COMPONENT_LIMIT as int) * (COMPONENT_LIMIT as int) <= r
            as int <= (DIMENSION_LIMIT as int) * (COMPONENT_LIMIT as int) * (COMPONENT_LIMIT
            as int),
{
    let ghost sa = ints(a@);
    let ghost sb = ints(b@);
    let mut acc: i128 = 0;
    let mut i: usize = 0;
    proof {
        assert(sa.take(0) =~= Seq::<int>::empty());
        assert(sb.take(0) =~= Seq::<int>::empty());
    }
    while i < a.len()
        invariant
            0 <= i <= a@.len(),
            a@.len() == b@.len(),
            sa == ints(a@),
            sb == ints(b@),
            admissible(sa),
            admissible(sb),
            acc == dot(sa.take(i as int), sb.take(i as int)),
            -(i as int) * (COMPONENT_LIMIT as int) * (COMPONENT_LIMIT as int) <= acc as int <= (
            i as int) * (COMPONENT_LIMIT as int) * (COMPONENT_LIMIT as int),
        decreases a@.len() - i,
    {
        let x = a[i];
        let y = b[i];
        proof {
            assert(sa[i as int] == a@[i as int] as int);
            assert(sb[i as int] == b@[i as int] as int);
            assert(x as int == sa[i as int]);
            assert(y as int == sb[i as int]);
            assert(-0x10_0000 <= (x as int) * (y as int) <= 0x10_0000) by (nonlinear_arith)
                requires
                    -1024 <= x as int <= 1024,
                    -1024 <= y as int <= 1024,
            ;
            assert(sa.take(i + 1).drop_last() =~= sa.take(i as int));
            assert(sb.take(i + 1).drop_last() =~= sb.take(i as int));
            assert(sa.take(i + 1).last() == x as int);
            assert(sb.take(i + 1).last() == y as int);
            let n = i as int;
            assert((n + 1) * (COMPONENT_LIMIT as int) * (COMPONENT_LIMIT as int) == n * (
            COMPONENT_LIMIT as int) * (COMPONENT_LIMIT as int) + 0x10_0000) by (nonlinear_arith)
                requires
                    COMPONENT_LIMIT == 1024,
            ;
            assert((n + 1) * (COMPONENT_LIMIT as int) * (COMPONENT_LIMIT as int) <= (
            DIMENSION_LIMIT as int) * (COMPONENT_LIMIT as int) * (COMPONENT_LIMIT as int))
                by (nonlinear_arith)
                requires
                    n + 1 <= DIMENSION_LIMIT as int,
                    COMPONENT_LIMIT == 1024,
            ;
        }
        let prod: i128 = (x as i128) * (y as i128);
        acc = acc + prod;
        i = i + 1;
    }
    proof {
        assert(sa.take(a@.len() as int) =~= sa);
        assert(sb.take(b@.len() as int) =~= sb);
        assert((a@.len() as int) * (COMPONENT_LIMIT as int) * (COMPONENT_LIMIT as int) <= (
        DIMENSION_LIMIT as int) * (COMPONENT_LIMIT as int) * (COMPONENT_LIMIT as int))
            by (nonlinear_arith)
            requires
                a@.len() <= DIMENSION_LIMIT as int,
                COMPONENT_LIMIT == 1024,
        ;
    }
    acc
}

} // verus!
