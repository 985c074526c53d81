//! Whole-number arithmetic for the two formulas of the vocabulary: the weight
//! of a word in the negative table, and the level up to which a word is kept
//! when frequent words are thinned out.
//!
//! Both are fixed-point numbers. A weight has 8 bits after the point, a keep
//! level 32.

use vstd::prelude::*;

verus! {

/// `root` is the square root of `n`, rounded down.
pub open spec fn is_sqrt(n: int, root: int) -> bool {
    0 <= root && root * root <= n < (root + 1) * (root + 1)
}

/// The square root of `n`, rounded down.
pub open spec fn int_sqrt(n: int) -> int {
    choose|root: int| is_sqrt(n, root)
}

/// A number has one rounded square root only.
pub proof fn lemma_sqrt_unique(n: int, a: int, b: int)
    requires
        is_sqrt(n, a),
        is_sqrt(n, b),
    ensures
        a == b,
{
    if a < b {
        assert((a + 1) * (a + 1) <= b * b) by (nonlinear_arith)
            requires
                0 <= a,
                a + 1 <= b,
        ;
    } else if b < a {
        assert((b + 1) * (b + 1) <= a * a) by (nonlinear_arith)
            requires
                0 <= b,
                b + 1 <= a,
        ;
    }
}

/// Every number from 0 on has a rounded square root, and `int_sqrt` is it.
pub proof fn lemma_int_sqrt(n: int)
    requires
        0 <= n,
    ensures
        is_sqrt(n, int_sqrt(n)),
    decreases n,
{
    if n == 0 {
        assert(is_sqrt(0, 0));
    } else {
        lemma_int_sqrt(n - 1);
        let r = int_sqrt(n - 1);
        if (r + 1) * (r + 1) <= n {
            assert((r + 1) * (r + 1) == n);
            assert(n < (r + 2) * (r + 2)) by (nonlinear_arith)
                requires
                    (r + 1) * (r + 1) == n,
                    0 <= r,
            ;
            assert(is_sqrt(n, r + 1));
        } else {
            assert(is_sqrt(n, r));
        }
    }
}

/// Computes the square root of `n`, rounded down.
pub fn isqrt(n: u128) -> (root: u64)
    ensures
        is_sqrt(n as int, root as int),
        root == int_sqrt(n as int),
{
    let mut low: u128 = 0;
    let mut high: u128 = 0x1_0000_0000_0000_0000;
    assert(n < high * high) by (nonlinear_arith)
        requires
            high == 0x1_0000_0000_0000_0000,
            n <= u128::MAX,
    ;
    while high - low > 1
        invariant
            low < high <= 0x1_0000_0000_0000_0000,
            low * low <= n < high * high,
        decreases high - low,
    {
        let mid: u128 = low + (high - low) / 2;
        assert(mid * mid <= u128::MAX) by (nonlinear_arith)
            requires
                mid < 0x1_0000_0000_0000_0000,
        ;
        if mid * mid <= n {
            low = mid;
        } else {
            high = mid;
        }
    }
    proof {
        assert(is_sqrt(n as int, low as int));
        lemma_int_sqrt(n as int);
        lemma_sqrt_unique(n as int, low as int, int_sqrt(n as int));
    }
    low as u64
}

/// The weight of a word that occurs `count` times: `count` to the power of
/// three quarters, as a fixed-point number with 8 bits after the point. The
/// power is taken as the root of `count` times its root, the inner root with
/// 24 bits after the point, and each root rounded down.
pub open spec fn weight(count: int) -> int {
    int_sqrt((count * int_sqrt(count * 0x1_0000_0000_0000)) / 256)
}

/// The parts that a weight is made of: the inner root, the number under the
/// outer root, and what the roots and the division say of them.
proof fn lemma_weight_parts(count: int) -> (parts: (int, int, int))
    requires
        0 <= count,
    ensures
        ({
            let (inner, under, outer) = parts;
            &&& inner == int_sqrt(count * 0x1_0000_0000_0000)
            &&& under == (count * inner) / 256
            &&& outer == weight(count)
            &&& is_sqrt(count * 0x1_0000_0000_0000, inner)
            &&& is_sqrt(under, outer)
            &&& 0 <= under
            &&& 256 * under <= count * inner < 256 * under + 256
        }),
{
    lemma_int_sqrt(count * 0x1_0000_0000_0000);
    let inner = int_sqrt(count * 0x1_0000_0000_0000);
    assert(0 <= count * inner) by (nonlinear_arith)
        requires
            0 <= count,
            0 <= inner,
    ;
    let under = (count * inner) / 256;
    lemma_int_sqrt(under);
    (inner, under, weight(count))
}

/// No weight is negative, and a word that occurs has a weight.
pub proof fn lemma_weight_bounds(count: int)
    requires
        0 <= count,
    ensures
        0 <= weight(count),
        count >= 1 ==> weight(count) >= 1,
{
    let (inner, under, outer) = lemma_weight_parts(count);
    if count >= 1 {
        if inner < 0x100_0000 {
            assert((inner + 1) * (inner + 1) <= 0x1_0000_0000_0000) by (nonlinear_arith)
                requires
                    0 <= inner < 0x100_0000,
            ;
        }
        assert(count * inner >= 256) by (nonlinear_arith)
            requires
                count >= 1,
                inner >= 0x100_0000,
        ;
        if outer < 1 {
            assert((outer + 1) * (outer + 1) == 1) by (nonlinear_arith)
                requires
                    outer == 0,
            ;
        }
    }
}

/// The weight is the power of three quarters of the count in 256ths, rounded
/// down, or one less: its fourth power lies at or below the cube of the count
/// times 2^32, and the fourth power of the weight plus 2 lies above.
pub proof fn lemma_weight_power(count: int)
    requires
        0 <= count <= u64::MAX,
    ensures
        ({
            let w = weight(count);
            &&& (w * w) * (w * w) <= (count * count * count) * 0x1_0000_0000
            &&& (count * count * count) * 0x1_0000_0000 < ((w + 2) * (w + 2)) * ((w + 2) * (w + 2))
        }),
{
    let (s, x, w) = lemma_weight_parts(count);
    let c = count;
    let k: int = 0x1_0000_0000_0000;
    let cube = (c * c * c) * 0x1_0000_0000;
    assert(c * c * (c * k) == 65536 * cube) by (nonlinear_arith)
        requires
            k == 0x1_0000_0000_0000,
            cube == (c * c * c) * 0x1_0000_0000,
    ;
    // from below
    let a = 256 * (w * w);
    let b = c * s;
    assert(0 <= a <= b) by (nonlinear_arith)
        requires
            a == 256 * (w * w),
            w * w <= x,
            256 * x <= b,
    ;
    assert(a * a <= b * b) by (nonlinear_arith)
        requires
            0 <= a <= b,
    ;
    assert(a * a == 65536 * ((w * w) * (w * w))) by (nonlinear_arith)
        requires
            a == 256 * (w * w),
    ;
    assert(b * b == (c * c) * (s * s)) by (nonlinear_arith)
        requires
            b == c * s,
    ;
    assert((c * c) * (s * s) <= c * c * (c * k)) by (nonlinear_arith)
        requires
            s * s <= c * k,
            0 <= c,
    ;
    // from above
    let up = (w + 2) * (w + 2);
    if c == 0 {
        assert(cube == 0);
        assert(up * up > 0) by (nonlinear_arith)
            requires
                up == (w + 2) * (w + 2),
                0 <= w,
        ;
    } else {
        assert(b < 256 * ((w + 1) * (w + 1))) by (nonlinear_arith)
            requires
                b < 256 * x + 256,
                x < (w + 1) * (w + 1),
        ;
        if c >= 256 {
            assert(c * c <= 65536 * (c * k)) by (nonlinear_arith)
                requires
                    0 <= c <= u64::MAX,
                    k == 0x1_0000_0000_0000,
            ;
            let t = 256 * (s + 1);
            assert(t * t == 65536 * ((s + 1) * (s + 1))) by (nonlinear_arith)
                requires
                    t == 256 * (s + 1),
            ;
            assert(c < t) by (nonlinear_arith)
                requires
                    c * c < t * t,
                    0 <= c,
                    0 <= t,
            ;
            assert(256 * b >= c * (c - 255)) by (nonlinear_arith)
                requires
                    b == c * s,
                    256 * s >= c - 255,
                    0 <= c,
            ;
            let v = 512 * (w + 1);
            if v <= c - 257 {
                assert(v * v <= (c - 257) * (c - 257)) by (nonlinear_arith)
                    requires
                        0 <= v <= c - 257,
                ;
                assert(v * v == 262144 * ((w + 1) * (w + 1))) by (nonlinear_arith)
                    requires
                        v == 512 * (w + 1),
                ;
                assert(false) by (nonlinear_arith)
                    requires
                        262144 * ((w + 1) * (w + 1)) <= (c - 257) * (c - 257),
                        256 * b < 65536 * ((w + 1) * (w + 1)),
                        256 * b >= c * (c - 255),
                        c >= 256,
                ;
            }
        }
        assert(c <= 512 * w + 768);
        let d = c * (s + 1);
        assert(d == b + c) by (nonlinear_arith)
            requires
                d == c * (s + 1),
                b == c * s,
        ;
        assert(256 * up == 256 * ((w + 1) * (w + 1)) + 512 * w + 768) by (nonlinear_arith)
            requires
                up == (w + 2) * (w + 2),
        ;
        let e = 256 * up;
        assert(0 <= d < e);
        assert(d * d < e * e) by (nonlinear_arith)
            requires
                0 <= d < e,
        ;
        assert(d * d == (c * c) * ((s + 1) * (s + 1))) by (nonlinear_arith)
            requires
                d == c * (s + 1),
        ;
        assert(c * c * (c * k) < (c * c) * ((s + 1) * (s + 1))) by (nonlinear_arith)
            requires
                c * k < (s + 1) * (s + 1),
                c >= 1,
        ;
        assert(e * e == 65536 * (up * up)) by (nonlinear_arith)
            requires
                e == 256 * up,
        ;
    }
}

/// Computes the weight of a word that occurs `count` times.
pub fn word_weight(count: u64) -> (w: u64)
    ensures
        w == weight(count as int),
        count >= 1 ==> w >= 1,
{
    proof {
        lemma_weight_bounds(count as int);
        lemma_int_sqrt(count * 0x1_0000_0000_0000);
    }
    let inner: u64 = isqrt(count as u128 * 0x1_0000_0000_0000);
    assert(inner < 0x100_0000_0000_0000) by (nonlinear_arith)
        requires
            inner * inner <= count * 0x1_0000_0000_0000,
            count <= u64::MAX,
    ;
    assert(count as u128 * inner as u128 <= u128::MAX) by (nonlinear_arith)
        requires
            inner < 0x100_0000_0000_0000,
            count <= u64::MAX,
    ;
    isqrt((count as u128 * inner as u128) / 256)
}

/// The level that stands for certainty: a word with this keep level is never
/// dropped.
pub const ALWAYS: u64 = 0x1_0000_0000;

/// Parts of the threshold that make one whole.
pub const THRESHOLD_UNIT: u64 = 1_000_000_000;

/// The ratio of the threshold to the frequency of a word, as a fixed-point
/// number with 32 bits after the point. The threshold is given in billionths
/// and the frequency is `count / total`.
pub open spec fn threshold_ratio(count: int, total: int, threshold: int) -> int {
    (threshold * total * 0x1_0000_0000) / (1_000_000_000 * count)
}

/// The keep level of a word: the chance with which an occurrence of it is
/// kept, as a fixed-point number with 32 bits after the point. With `r` the
/// ratio of the threshold to the frequency of the word, the chance is the
/// root of `r` plus `r`, and certainty where that is 1 or more.
pub open spec fn keep_level(count: int, total: int, threshold: int) -> int {
    let ratio = threshold_ratio(count, total, threshold);
    if ratio >= 0x1_0000_0000 {
        0x1_0000_0000
    } else {
        let level = int_sqrt(ratio * 0x1_0000_0000) + ratio;
        if level >= 0x1_0000_0000 {
            0x1_0000_0000
        } else {
            level
        }
    }
}

/// An occurrence is kept where the number drawn for it lies below the keep
/// level of its word.
pub open spec fn keeps(level: int, draw: u32) -> bool {
    (draw as int) < level
}

/// Computes the keep level of a word that occurs `count` times among `total`
/// words, for a threshold given in billionths.
pub fn word_keep_level(count: u64, total: u64, threshold: u32) -> (level: u64)
    requires
        count >= 1,
    ensures
        level == keep_level(count as int, total as int, threshold as int),
        level <= ALWAYS,
{
    assert(threshold as u128 * total as u128 * 0x1_0000_0000 <= u128::MAX
        && threshold as u128 * total as u128 <= u128::MAX) by (nonlinear_arith)
        requires
            threshold <= u32::MAX,
            total <= u64::MAX,
    ;
    assert(0 < 1_000_000_000 * count as u128 <= u128::MAX) by (nonlinear_arith)
        requires
            1 <= count <= u64::MAX,
    ;
    let above: u128 = threshold as u128 * total as u128 * 0x1_0000_0000;
    let below: u128 = 1_000_000_000 * count as u128;
    let ratio: u128 = above / below;
    if ratio >= 0x1_0000_0000 {
        return ALWAYS;
    }
    let root: u64 = isqrt(ratio * 0x1_0000_0000);
    let level: u128 = root as u128 + ratio;
    if level >= 0x1_0000_0000 {
        ALWAYS
    } else {
        level as u64
    }
}

/// Decides whether an occurrence is kept.
pub fn keeps_draw(level: u64, draw: u32) -> (kept: bool)
    ensures
        kept == keeps(level as int, draw),
{
    (draw as u64) < level
}

} // verus!
