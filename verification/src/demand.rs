//! The demand arithmetic of the forecast, exact on integers: the reorder
//! point `ceil(d * (l + sqrt(l)))` for an average daily usage `d` and a lead
//! time `l`, decided without irrational numbers.

use vstd::prelude::*;
use vstd::arithmetic::div_mod::{lemma_fundamental_div_mod, lemma_mod_pos_bound};

verus! {

/// The sign of `x`.
pub open spec fn sign(x: int) -> int {
    if x > 0 {
        1
    } else if x < 0 {
        -1
    } else {
        0
    }
}

/// `a >= t * sqrt(l)`, for `l >= 0`.
pub open spec fn covers(a: int, t: int, l: int) -> bool {
    if t >= 0 {
        a >= 0 && a * a >= t * t * l
    } else {
        a >= 0 || a * a <= t * t * l
    }
}

/// `r` whole units reach the lead-time demand plus safety stock of a usage of
/// `t` thousandths over `s` days with a lead time of `l` days:
/// `r >= (t / (1000 s)) * (l + sqrt(l))`.
pub open spec fn reorder_point_covers(r: int, t: int, s: int, l: int) -> bool {
    covers(1000 * s * r - t * l, t, l)
}

/// `r` is the least whole number of units that covers the demand.
pub open spec fn is_reorder_point(r: int, t: int, s: int, l: int) -> bool {
    reorder_point_covers(r, t, s, l) && !reorder_point_covers(r - 1, t, s, l)
}

/// The reorder point in whole units: `ceil((t / (1000 s)) * (l + sqrt(l)))`.
pub open spec fn reorder_point(t: int, s: int, l: int) -> int {
    choose|r: int| is_reorder_point(r, t, s, l)
}

/// Covering is monotone: a larger margin covers what a smaller one does.
pub proof fn lemma_covers_monotone(a: int, b: int, t: int, l: int)
    requires
        l >= 0,
        a <= b,
        covers(a, t, l),
    ensures
        covers(b, t, l),
{
    if t >= 0 {
        assert(b * b >= a * a) by (nonlinear_arith)
            requires
                0 <= a <= b,
        ;
    } else if b < 0 {
        assert(b * b <= a * a) by (nonlinear_arith)
            requires
                a <= b < 0,
        ;
    }
}

/// There is at most one reorder point.
pub proof fn lemma_reorder_point_unique(r1: int, r2: int, t: int, s: int, l: int)
    requires
        s >= 1,
        l >= 0,
        is_reorder_point(r1, t, s, l),
        is_reorder_point(r2, t, s, l),
    ensures
        r1 == r2,
{
    if r1 < r2 {
        assert(1000 * s * r1 - t * l <= 1000 * s * (r2 - 1) - t * l) by (nonlinear_arith)
            requires
                r1 <= r2 - 1,
                s >= 1,
        ;
        lemma_covers_monotone(1000 * s * r1 - t * l, 1000 * s * (r2 - 1) - t * l, t, l);
    } else if r2 < r1 {
        assert(1000 * s * r2 - t * l <= 1000 * s * (r1 - 1) - t * l) by (nonlinear_arith)
            requires
                r2 <= r1 - 1,
                s >= 1,
        ;
        lemma_covers_monotone(1000 * s * r2 - t * l, 1000 * s * (r1 - 1) - t * l, t, l);
    }
}

/// The sign of `b * b - u * u * l`.
fn square_sign(b: i128, u: i128, l: u32) -> (c: i8)
    requires
        0 <= b <= 0x10_0000_0000_0000_0000_0000_0000,
        1 <= u <= 0x8000_0000_0000_0000,
    ensures
        c as int == sign(b * b - u * u * l),
{
    let m = b / u;
    let r = b % u;
    proof {
        lemma_fundamental_div_mod(b as int, u as int);
        lemma_mod_pos_bound(b as int, u as int);
        assert(m >= 0) by (nonlinear_arith)
            requires
                b >= 0,
                u >= 1,
                b == u * m + r,
                0 <= r < u,
        ;
    }
    let l128 = l as i128;
    if m >= 65536 {
        assert(b * b - u * u * l > 0) by (nonlinear_arith)
            requires
                b == u * m + r,
                0 <= r,
                m >= 65536,
                u >= 1,
                0 <= l < 0x1_0000_0000,
        {
            assert(b >= 65536 * u);
            assert(b * b >= (65536 * u) * (65536 * u));
            assert((65536 * u) * (65536 * u) == 0x1_0000_0000 * (u * u));
            assert(u * u * l < 0x1_0000_0000 * (u * u));
        }
        return 1;
    }
    assert(0 <= m * m < 65536 * 65536) by (nonlinear_arith)
        requires
            0 <= m < 65536,
    ;
    let mm = m * m;
    if mm > l128 {
        assert(b * b - u * u * l > 0) by (nonlinear_arith)
            requires
                b == u * m + r,
                0 <= r,
                0 <= m,
                u >= 1,
                m * m > l,
                l >= 0,
        {
            assert(b >= u * m);
            assert(b * b >= (u * m) * (u * m));
            assert((u * m) * (u * m) == (u * u) * (m * m));
            assert((u * u) * (m * m) > (u * u) * l);
        }
        return 1;
    }
    if mm == l128 {
        assert(b * b - u * u * l == 2 * m * u * r + r * r) by (nonlinear_arith)
            requires
                b == u * m + r,
                m * m == l,
        ;
        if r > 0 {
            assert(2 * m * u * r + r * r > 0) by (nonlinear_arith)
                requires
                    m >= 0,
                    u >= 1,
                    r >= 1,
            ;
            return 1;
        }
        assert(2 * m * u * r + r * r == 0) by (nonlinear_arith)
            requires
                r == 0,
        ;
        return 0;
    }
    let m1 = m + 1;
    assert(0 <= m1 * m1 <= 65536 * 65536) by (nonlinear_arith)
        requires
            1 <= m1 <= 65536,
    ;
    if m1 * m1 <= l128 {
        assert(b * b - u * u * l < 0) by (nonlinear_arith)
            requires
                b == u * m + r,
                0 <= r < u,
                0 <= m,
                u >= 1,
                (m + 1) * (m + 1) <= l,
        {
            assert(b < u * (m + 1));
            assert(b * b < (u * (m + 1)) * (u * (m + 1))) by {
                assert(0 <= b);
            }
            assert((u * (m + 1)) * (u * (m + 1)) == (u * u) * ((m + 1) * (m + 1)));
            assert((u * u) * ((m + 1) * (m + 1)) <= (u * u) * l);
        }
        return -1;
    }
    // m * m < l < (m + 1) * (m + 1): compare r * r with u * x.
    let e = l128 - mm;
    assert(0 <= m < 65536);
    assert(1 <= e <= 2 * m) by (nonlinear_arith)
        requires
            e == l - m * m,
            m * m < l,
            l < (m + 1) * (m + 1),
    ;
    assert(0 <= u * e <= 0x8000_0000_0000_0000 * 0x2_0000) by (nonlinear_arith)
        requires
            1 <= u <= 0x8000_0000_0000_0000,
            1 <= e <= 0x2_0000,
    ;
    assert(0 <= 2 * m * r <= 0x2_0000 * 0x8000_0000_0000_0000) by (nonlinear_arith)
        requires
            0 <= m < 65536,
            0 <= r < u,
            u <= 0x8000_0000_0000_0000,
    ;
    let x = u * e - 2 * m * r;
    assert(b * b - u * u * l == r * r - u * x) by (nonlinear_arith)
        requires
            b == u * m + r,
            e == l - m * m,
            x == u * e - 2 * m * r,
    ;
    assert(0 <= r * r < u * u) by (nonlinear_arith)
        requires
            0 <= r < u,
    ;
    assert(u * u <= 0x4000_0000_0000_0000_0000_0000_0000_0000) by (nonlinear_arith)
        requires
            1 <= u <= 0x8000_0000_0000_0000,
    ;
    if x < 0 {
        assert(r * r - u * x > 0) by (nonlinear_arith)
            requires
                x < 0,
                u >= 1,
                r * r >= 0,
        ;
        return 1;
    }
    if x == 0 {
        assert(u * x == 0) by (nonlinear_arith)
            requires
                x == 0,
        ;
        if r > 0 {
            assert(r * r > 0) by (nonlinear_arith)
                requires
                    r > 0,
            ;
            return 1;
        }
        assert(r * r == 0) by (nonlinear_arith)
            requires
                r == 0,
        ;
        return 0;
    }
    if x >= u {
        assert(r * r - u * x < 0) by (nonlinear_arith)
            requires
                x >= u,
                u >= 1,
                r * r < u * u,
        ;
        return -1;
    }
    assert(0 < u * x < u * u) by (nonlinear_arith)
        requires
            0 < x < u,
            u >= 1,
    ;
    let rr = r * r;
    let ux = u * x;
    if rr > ux {
        1
    } else if rr == ux {
        0
    } else {
        -1
    }
}


/// Decides `a >= t * sqrt(l)`.
fn covers_exactly(a: i128, t: i128, l: u32) -> (r: bool)
    requires
        -0x10_0000_0000_0000_0000_0000_0000 <= a <= 0x10_0000_0000_0000_0000_0000_0000,
        -0x8000_0000_0000_0000 <= t <= 0x8000_0000_0000_0000,
    ensures
        r == covers(a as int, t as int, l as int),
{
    if t == 0 {
        assert(a * a >= t * t * l) by (nonlinear_arith)
            requires
                t == 0,
        ;
        a >= 0
    } else if t > 0 {
        if a < 0 {
            return false;
        }
        square_sign(a, t, l) >= 0
    } else {
        if a >= 0 {
            return true;
        }
        assert((-a) * (-a) - (-t) * (-t) * l == a * a - t * t * l) by (nonlinear_arith);
        square_sign(-a, -t, l) <= 0
    }
}

/// The integer square root: `q * q <= l < (q + 1) * (q + 1)`.
fn isqrt(l: u32) -> (q: i128)
    ensures
        0 <= q < 65536,
        q * q <= l < (q + 1) * (q + 1),
{
    let mut lo: i128 = 0;
    let mut hi: i128 = 65536;
    while hi - lo > 1
        invariant
            0 <= lo < hi <= 65536,
            lo * lo <= l < hi * hi,
        decreases hi - lo,
    {
        let mid = lo + (hi - lo) / 2;
        assert(0 <= mid * mid <= 65536 * 65536) by (nonlinear_arith)
            requires
                0 <= mid <= 65536,
        ;
        if mid * mid <= l as i128 {
            lo = mid;
        } else {
            hi = mid;
        }
    }
    lo
}

/// The reorder point in whole units for a usage of `t` thousandths over `s`
/// days and a lead time of `l` days: the least `r` with
/// `r >= (t / (1000 s)) * (l + sqrt(l))`, the ceiling of lead-time demand
/// plus a safety stock of `sqrt(l)` days of usage.
pub fn reorder_point_units(t: i64, s: i64, l: u32) -> (r: i128)
    requires
        1 <= s <= 0x1_0000_0000,
    ensures
        r == reorder_point(t as int, s as int, l as int),
        -0x1_0000_0000_0000_0000_0000_0000 <= r <= 0x1_0000_0000_0000_0000_0000_0000,
{
    let q = isqrt(l);
    let d: i128 = 1000 * s as i128;
    let tt = t as i128;
    let at: i128 = if tt < 0 { -tt } else { tt };
    assert(-0x8000_0000_0000_0000_0000_0000 <= tt * (l as i128) <= 0x8000_0000_0000_0000_0000_0000) by (nonlinear_arith)
        requires
            -0x8000_0000_0000_0000 <= tt <= 0x8000_0000_0000_0000,
            0 <= l <= 0xffff_ffff,
    ;
    assert(0 <= at * (q + 1) <= 0x8000_0000_0000_0000 * 65536) by (nonlinear_arith)
        requires
            0 <= at <= 0x8000_0000_0000_0000,
            0 <= q < 65536,
    ;
    let tl = tt * l as i128;
    let atl: i128 = if tl < 0 { -tl } else { tl };
    let n = atl + at * (q + 1);
    proof {
        lemma_fundamental_div_mod(n as int, d as int);
        lemma_mod_pos_bound(n as int, d as int);
    }
    let k = n / d;
    assert(0 <= k <= n) by (nonlinear_arith)
        requires
            n >= 0,
            d >= 1000,
            n == d * k + n % d,
            0 <= n % d < d,
    ;
    let mut hi = k + 1;
    let mut lo = -k - 2;
    let ghost hi0 = hi;
    let ghost lo0 = lo;
    // hi covers: d * hi - t * l > n - t * l >= |t| * (q + 1) >= |t| * sqrt(l).
    proof {
        let a = d * hi - tl;
        assert(d * hi > n) by (nonlinear_arith)
            requires
                hi == k + 1,
                n == d * k + n % d,
                n % d < d,
        ;
        assert(a >= at * (q + 1));
        if tt > 0 {
            assert(a * a >= tt * tt * l) by (nonlinear_arith)
                requires
                    a >= tt * (q + 1),
                    tt >= 1,
                    (q + 1) * (q + 1) > l,
                    q >= 0,
            {
                assert(a * a >= (tt * (q + 1)) * (tt * (q + 1)));
                assert((tt * (q + 1)) * (tt * (q + 1)) == (tt * tt) * ((q + 1) * (q + 1)));
                assert((tt * tt) * ((q + 1) * (q + 1)) >= (tt * tt) * l);
            }
        } else if tt == 0 {
            assert(a * a >= tt * tt * l) by (nonlinear_arith)
                requires
                    tt == 0,
            ;
        }
        assert(covers(a as int, tt as int, l as int));
        assert(reorder_point_covers(hi as int, t as int, s as int, l as int));
    }
    // lo does not cover: d * lo - t * l <= -(|t| * (q + 1)) - d - 1 < -|t| * sqrt(l).
    proof {
        let a = d * lo - tl;
        assert(d * lo <= -n - d - 1) by (nonlinear_arith)
            requires
                lo == -k - 2,
                n == d * k + n % d,
                0 <= n % d,
                d >= 1,
        ;
        assert(a <= -(at * (q + 1)) - d - 1);
        if tt < 0 {
            assert(!(a * a <= tt * tt * l)) by (nonlinear_arith)
                requires
                    a <= -(at * (q + 1)) - 1,
                    at == -tt,
                    at >= 1,
                    (q + 1) * (q + 1) > l,
                    q >= 0,
            {
                assert(-a > at * (q + 1));
                assert(a * a > (at * (q + 1)) * (at * (q + 1)));
                assert((at * (q + 1)) * (at * (q + 1)) == (at * at) * ((q + 1) * (q + 1)));
                assert((at * at) * ((q + 1) * (q + 1)) > (at * at) * l);
                assert(at * at == tt * tt);
            }
        }
        assert(!covers(a as int, tt as int, l as int));
        assert(!reorder_point_covers(lo as int, t as int, s as int, l as int));
    }
    assert(0 < d <= 1000 * 0x1_0000_0000);
    assert(d * k <= n) by (nonlinear_arith)
        requires
            n == d * k + n % d,
            0 <= n % d,
    ;
    assert(0 <= n <= 0x8000_0000_0000_0000_0000_0000 + 0x8000_0000_0000_0000 * 65536);
    while hi - lo > 1
        invariant
            lo0 <= lo < hi <= hi0,
            lo0 == -k - 2,
            hi0 == k + 1,
            0 <= k <= n,
            d * k <= n,
            0 <= n <= 0x8000_0000_0000_0000_0000_0000 + 0x8000_0000_0000_0000 * 65536,
            0 < d <= 1000 * 0x1_0000_0000,
            d == 1000 * s,
            tl == tt * l,
            tt == t,
            -0x8000_0000_0000_0000_0000_0000 <= tl <= 0x8000_0000_0000_0000_0000_0000,
            reorder_point_covers(hi as int, t as int, s as int, l as int),
            !reorder_point_covers(lo as int, t as int, s as int, l as int),
        decreases hi - lo,
    {
        let mid = lo + (hi - lo) / 2;
        assert(-0x4_0000_0000_0000_0000_0000_0000 <= d * mid <= 0x4_0000_0000_0000_0000_0000_0000) by (nonlinear_arith)
            requires
                -k - 2 <= mid <= k + 1,
                0 <= k <= n,
                0 <= n <= 0x8000_0000_0000_0000_0000_0000 + 0x8000_0000_0000_0000 * 65536,
                d * k <= n,
                0 < d <= 1000 * 0x1_0000_0000,
        {
            assert(d * mid <= d * (k + 1));
            assert(d * mid >= d * (-k - 2));
        }
        let a = d * mid - tl;
        if covers_exactly(a, tt, l) {
            hi = mid;
        } else {
            lo = mid;
        }
    }
    assert(hi - 1 == lo);
    proof {
        assert(is_reorder_point(hi as int, t as int, s as int, l as int));
        let c = reorder_point(t as int, s as int, l as int);
        lemma_reorder_point_unique(hi as int, c, t as int, s as int, l as int);
    }
    hi
}

} // verus!
