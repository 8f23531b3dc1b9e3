//! Cosine similarity of quantized embedding vectors, in fixed point.
use vstd::prelude::*;

verus! {

/// Fixed-point unit of scores and similarities: `SCALE` stands for 1.0.
pub const SCALE: u64 = 1_000_000;

/// The largest embedding dimension whose arithmetic fits the fixed-width
/// integers used here.
pub const MAX_DIMENSIONS: usize = 8192;

/// Sum of `a[i] * b[i]` over `i < n`.
pub open spec fn dot_upto(a: Seq<i16>, b: Seq<i16>, n: int) -> int
    decreases n,
{
    if n <= 0 {
        0
    } else {
        dot_upto(a, b, n - 1) + a[n - 1] * b[n - 1]
    }
}

pub open spec fn min_len(a: Seq<i16>, b: Seq<i16>) -> int {
    if a.len() <= b.len() {
        a.len() as int
    } else {
        b.len() as int
    }
}

/// The dot product over the positions that both vectors have.
pub open spec fn dot(a: Seq<i16>, b: Seq<i16>) -> int {
    dot_upto(a, b, min_len(a, b))
}

/// The squared Euclidean norm.
pub open spec fn norm_sq(a: Seq<i16>) -> int {
    dot_upto(a, a, a.len() as int)
}

pub open spec fn is_floor_sqrt(n: int, r: int) -> bool {
    0 <= r && r * r <= n < (r + 1) * (r + 1)
}

/// The integer square root: the largest `r` with `r * r <= n`.
pub open spec fn floor_sqrt(n: int) -> int {
    choose|r: int| is_floor_sqrt(n, r)
}

/// The cosine of the angle between two vectors in units of `1 / SCALE`,
/// rounded toward zero; 0 where either vector is all zero.
pub open spec fn cosine(a: Seq<i16>, b: Seq<i16>) -> int {
    let d = dot(a, b);
    let na = norm_sq(a);
    let nb = norm_sq(b);
    if na == 0 || nb == 0 {
        0
    } else {
        let r = floor_sqrt((SCALE * SCALE * d * d) / (na * nb));
        if d < 0 {
            -r
        } else {
            r
        }
    }
}

proof fn lemma_floor_sqrt_unique(n: int, r: int)
    requires
        is_floor_sqrt(n, r),
    ensures
        floor_sqrt(n) == r,
{
    let s = floor_sqrt(n);
    assert(is_floor_sqrt(n, s));
    if s < r {
        assert((s + 1) * (s + 1) <= r * r) by (nonlinear_arith)
            requires
                0 <= s < r,
        ;
    } else if s > r {
        assert((r + 1) * (r + 1) <= s * s) by (nonlinear_arith)
            requires
                0 <= r < s,
        ;
    }
}

proof fn lemma_product_bound(x: i16, y: i16)
    ensures
        -0x4000_0000 <= x * y <= 0x4000_0000,
        0 <= x * x <= 0x4000_0000,
{
    assert(-0x4000_0000 <= x * y <= 0x4000_0000) by (nonlinear_arith)
        requires
            -0x8000 <= x <= 0x7fff,
            -0x8000 <= y <= 0x7fff,
    ;
    assert(0 <= x * x <= 0x4000_0000) by (nonlinear_arith)
        requires
            -0x8000 <= x <= 0x7fff,
    ;
}

proof fn lemma_norm_nonneg(a: Seq<i16>, m: int)
    requires
        0 <= m <= a.len(),
    ensures
        0 <= dot_upto(a, a, m),
    decreases m,
{
    if m > 0 {
        lemma_norm_nonneg(a, m - 1);
        lemma_product_bound(a[m - 1], a[m - 1]);
    }
}

proof fn lemma_norm_monotone(a: Seq<i16>, m: int, n: int)
    requires
        0 <= m <= n <= a.len(),
    ensures
        0 <= dot_upto(a, a, m) <= dot_upto(a, a, n),
    decreases n - m,
{
    lemma_norm_nonneg(a, m);
    if m < n {
        lemma_norm_monotone(a, m, n - 1);
        lemma_product_bound(a[n - 1], a[n - 1]);
    }
}

/// One step of Cauchy–Schwarz: extending both sums by one term keeps the
/// square of the cross sum under the product of the square sums.
proof fn lemma_cauchy_step(d: int, na: int, nb: int, x: int, y: int)
    requires
        0 <= na,
        0 <= nb,
        d * d <= na * nb,
    ensures
        (d + x * y) * (d + x * y) <= (na + x * x) * (nb + y * y),
{
    let u = x * x;
    let v = y * y;
    let w = x * y;
    assert(u >= 0 && v >= 0) by (nonlinear_arith)
        requires
            u == x * x,
            v == y * y,
    ;
    assert(w * w == u * v) by (nonlinear_arith)
        requires
            u == x * x,
            v == y * y,
            w == x * y,
    ;
    let e = na * v;
    let f = nb * u;
    let p = e + f;
    let q = 2 * d * w;
    assert(e >= 0 && f >= 0) by (nonlinear_arith)
        requires
            0 <= na,
            0 <= nb,
            u >= 0,
            v >= 0,
            e == na * v,
            f == nb * u,
    ;
    assert(p * p == (e - f) * (e - f) + 4 * e * f) by (nonlinear_arith)
        requires
            p == e + f,
    ;
    assert(e * f == (na * nb) * (u * v)) by (nonlinear_arith)
        requires
            e == na * v,
            f == nb * u,
    ;
    assert(q * q == 4 * (d * d) * (w * w)) by (nonlinear_arith)
        requires
            q == 2 * d * w,
    ;
    let g = na * nb - d * d;
    assert(g * (u * v) >= 0) by (nonlinear_arith)
        requires
            g >= 0,
            u >= 0,
            v >= 0,
    ;
    assert((e - f) * (e - f) >= 0) by (nonlinear_arith);
    assert(p * p - q * q == (e - f) * (e - f) + 4 * (g * (u * v))) by (nonlinear_arith)
        requires
            p * p == (e - f) * (e - f) + 4 * e * f,
            e * f == (na * nb) * (u * v),
            q * q == 4 * (d * d) * (w * w),
            w * w == u * v,
            g == na * nb - d * d,
    ;
    assert(q <= p) by (nonlinear_arith)
        requires
            p >= 0,
            p * p >= q * q,
    ;
    assert((d + w) * (d + w) == d * d + q + w * w) by (nonlinear_arith)
        requires
            q == 2 * d * w,
    ;
    assert((na + u) * (nb + v) == na * nb + p + u * v) by (nonlinear_arith)
        requires
            p == na * v + nb * u,
            e == na * v,
            f == nb * u,
    ;
}

proof fn lemma_cauchy_upto(a: Seq<i16>, b: Seq<i16>, n: int)
    requires
        0 <= n <= a.len(),
        n <= b.len(),
    ensures
        dot_upto(a, b, n) * dot_upto(a, b, n) <= dot_upto(a, a, n) * dot_upto(b, b, n),
    decreases n,
{
    if n > 0 {
        lemma_cauchy_upto(a, b, n - 1);
        lemma_norm_monotone(a, n - 1, n - 1);
        lemma_norm_monotone(b, n - 1, n - 1);
        lemma_cauchy_step(
            dot_upto(a, b, n - 1),
            dot_upto(a, a, n - 1),
            dot_upto(b, b, n - 1),
            a[n - 1] as int,
            b[n - 1] as int,
        );
    }
}

/// The square of the dot product is at most the product of the squared norms.
pub proof fn lemma_cauchy_schwarz(a: Seq<i16>, b: Seq<i16>)
    ensures
        dot(a, b) * dot(a, b) <= norm_sq(a) * norm_sq(b),
        0 <= norm_sq(a),
        0 <= norm_sq(b),
{
    let n = min_len(a, b);
    lemma_cauchy_upto(a, b, n);
    lemma_norm_monotone(a, n, a.len() as int);
    lemma_norm_monotone(b, n, b.len() as int);
    let d = dot(a, b);
    let x = dot_upto(a, a, n);
    let y = dot_upto(b, b, n);
    assert(x * y <= norm_sq(a) * norm_sq(b)) by (nonlinear_arith)
        requires
            0 <= x <= norm_sq(a),
            0 <= y <= norm_sq(b),
    ;
}

/// The cosine of a vector with itself is exactly one, where the vector is
/// not all zero; with an all-zero vector it is zero.
pub proof fn lemma_cosine_self_and_zero(v: Seq<i16>, z: Seq<i16>)
    requires
        forall|i: int| 0 <= i < z.len() ==> z[i] == 0,
    ensures
        norm_sq(v) != 0 ==> cosine(v, v) == SCALE,
        cosine(v, z) == 0,
        cosine(z, v) == 0,
{
    lemma_norm_zero(z, z.len() as int);
    if norm_sq(v) != 0 {
        let n = norm_sq(v);
        assert(dot(v, v) == n);
        lemma_norm_monotone(v, 0, v.len() as int);
        assert((SCALE * SCALE * n * n) / (n * n) == SCALE * SCALE) by (nonlinear_arith)
            requires
                n > 0,
        ;
        assert(is_floor_sqrt(SCALE * SCALE, SCALE as int)) by (nonlinear_arith);
        lemma_floor_sqrt_unique(SCALE * SCALE, SCALE as int);
    }
}

proof fn lemma_norm_zero(z: Seq<i16>, n: int)
    requires
        0 <= n <= z.len(),
        forall|i: int| 0 <= i < z.len() ==> z[i] == 0,
    ensures
        dot_upto(z, z, n) == 0,
    decreases n,
{
    if n > 0 {
        lemma_norm_zero(z, n - 1);
    }
}

/// The integer square root of `n`, for `n` below 2^126.
fn floor_sqrt_u128(n: u128) -> (r: u64)
    requires
        n < 0x4000_0000_0000_0000_0000_0000_0000_0000,
    ensures
        is_floor_sqrt(n as int, r as int),
{
    let mut lo: u128 = 0;
    let mut hi: u128 = 0x8000_0000_0000_0000;
    assert(n < hi * hi) by (nonlinear_arith)
        requires
            n < 0x4000_0000_0000_0000_0000_0000_0000_0000,
            hi == 0x8000_0000_0000_0000u128,
    ;
    while hi - lo > 1
        invariant
            lo < hi <= 0x8000_0000_0000_0000,
            lo * lo <= n < hi * hi,
        decreases hi - lo,
    {
        let mid = lo + (hi - lo) / 2;
        assert(mid * mid <= 0x4000_0000_0000_0000_0000_0000_0000_0000) by (nonlinear_arith)
            requires
                mid <= 0x8000_0000_0000_0000,
        ;
        if mid * mid <= n {
            lo = mid;
        } else {
            hi = mid;
        }
    }
    assert(hi == lo + 1);
    lo as u64
}

/// The cosine similarity of two vectors in units of `1 / SCALE`, rounded
/// toward zero. Positions past the end of the shorter vector count in the
/// norms only; a vector that is all zero gives 0.
pub fn cosine_similarity(a: &[i16], b: &[i16]) -> (r: i64)
    requires
        a@.len() <= MAX_DIMENSIONS,
        b@.len() <= MAX_DIMENSIONS,
    ensures
        r == cosine(a@, b@),
        -(SCALE as int) <= r <= SCALE,
{
    let n = if a.len() <= b.len() {
        a.len()
    } else {
        b.len()
    };
    let mut d: i64 = 0;
    let mut i: usize = 0;
    while i < n
        invariant
            n == min_len(a@, b@),
            n <= MAX_DIMENSIONS,
            i <= n,
            d == dot_upto(a@, b@, i as int),
            -(i * 0x4000_0000) <= d <= i * 0x4000_0000,
        decreases n - i,
    {
        proof {
            lemma_product_bound(a@[i as int], b@[i as int]);
        }
        d = d + (a[i] as i64) * (b[i] as i64);
        i = i + 1;
    }
    let na = norm_sq_of(a);
    let nb = norm_sq_of(b);
    if na == 0 || nb == 0 {
        return 0;
    }
    proof {
        lemma_cauchy_schwarz(a@, b@);
    }
    assert(n * 0x4000_0000 <= 0x800_0000_0000) by (nonlinear_arith)
        requires
            n <= MAX_DIMENSIONS,
    ;
    let ad: u128 = if d < 0 {
        (-d) as u128
    } else {
        d as u128
    };
    assert(ad * ad <= 0x40_0000_0000_0000_0000_0000) by (nonlinear_arith)
        requires
            ad <= 0x800_0000_0000,
    ;
    assert(na * nb <= 0x40_0000_0000_0000_0000_0000) by (nonlinear_arith)
        requires
            na <= 0x800_0000_0000,
            nb <= 0x800_0000_0000,
    ;
    let dd: u128 = ad * ad;
    let den: u128 = (na as u128) * (nb as u128);
    assert(den > 0) by (nonlinear_arith)
        requires
            na > 0,
            nb > 0,
            den == na * nb,
    ;
    assert(d * d == dd) by (nonlinear_arith)
        requires
            ad == d || ad == -d,
            dd == ad * ad,
    ;
    let num: u128 = (SCALE as u128) * (SCALE as u128) * dd;
    let q = num / den;
    proof {
        assert(q <= SCALE * SCALE) by (nonlinear_arith)
            requires
                dd <= den,
                den > 0,
                num == SCALE * SCALE * dd,
                q == num / den,
        ;
    }
    let s = floor_sqrt_u128(q);
    proof {
        lemma_floor_sqrt_unique(q as int, s as int);
        if s > SCALE {
            assert((SCALE + 1) * (SCALE + 1) <= s * s) by (nonlinear_arith)
                requires
                    s > SCALE,
            ;
        }
        assert(SCALE * SCALE * d * d == num) by (nonlinear_arith)
            requires
                d * d == dd,
                num == SCALE * SCALE * dd,
        ;
    }
    if d < 0 {
        -(s as i64)
    } else {
        s as i64
    }
}

fn norm_sq_of(a: &[i16]) -> (r: u64)
    requires
        a@.len() <= MAX_DIMENSIONS,
    ensures
        r == norm_sq(a@),
        r <= 0x800_0000_0000,
{
    let mut s: u64 = 0;
    let mut i: usize = 0;
    while i < a.len()
        invariant
            a@.len() <= MAX_DIMENSIONS,
            i <= a@.len(),
            s == dot_upto(a@, a@, i as int),
            s <= i * 0x4000_0000,
            i * 0x4000_0000 <= 0x800_0000_0000,
        decreases a@.len() - i,
    {
        proof {
            lemma_product_bound(a@[i as int], a@[i as int]);
        }
        s = s + ((a[i] as i64) * (a[i] as i64)) as u64;
        i = i + 1;
    }
    s
}

} // verus!
