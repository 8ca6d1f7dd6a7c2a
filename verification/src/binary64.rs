//! Weights as binary64 numbers, held by their bit patterns: what a pattern is
//! worth, which pattern lies nearest to a ratio of two natural numbers, and
//! how patterns are ordered.

use crate::natural::Natural;
use vstd::arithmetic::power2::{
    lemma2_to64_rest,
    lemma_pow2_adds,
    lemma_pow2_pos,
    lemma_pow2_unfold,
    pow2,
};
use vstd::prelude::*;

verus! {

/// The pattern of positive infinity: the largest magnitude.
pub const INFINITY: u64 = 0x7FF0_0000_0000_0000;

/// The bit that makes a pattern negative.
pub const SIGN: u64 = 0x8000_0000_0000_0000;

/// The pattern of the number one.
pub const ONE: u64 = 0x3FF0_0000_0000_0000;

/// Two to the power of 52: the number of patterns that share one exponent.
pub const SPAN: u64 = 0x10_0000_0000_0000;

/// What the magnitude pattern `k` is worth, in units of 2^-1074. Patterns
/// below `SPAN` count the units themselves; from there on the low 52 bits,
/// with a one put before them, are doubled once for each further exponent.
/// Infinity is given the worth that the next exponent would start with.
pub open spec fn magnitude(k: nat) -> nat {
    if k < SPAN {
        k
    } else {
        ((SPAN as nat) + k % (SPAN as nat)) * pow2((k / (SPAN as nat) - 1) as nat)
    }
}

/// Twice the point halfway between the patterns `k` and `k + 1`.
pub open spec fn midpoint(k: nat) -> nat {
    magnitude(k) + magnitude(k + 1)
}

/// Whether `k` is the magnitude pattern nearest to `num / den`: the ratio
/// lies between the midpoints on either side of `k`, and lies on a midpoint
/// only where `k` is even. A ratio beyond every finite pattern has infinity
/// nearest.
pub open spec fn is_nearest(num: nat, den: nat, k: nat) -> bool {
    let twice = 2 * num * pow2(1074);
    &&& k <= INFINITY
    &&& k > 0 ==> if k % 2 == 0 {
        den * midpoint((k - 1) as nat) <= twice
    } else {
        den * midpoint((k - 1) as nat) < twice
    }
    &&& k < INFINITY ==> if k % 2 == 0 {
        twice <= den * midpoint(k)
    } else {
        twice < den * midpoint(k)
    }
}

/// Where a pattern stands among all patterns by the number it holds: a
/// pattern of a larger number has a larger rank. Zero with either sign has
/// rank zero, and so has a pattern beyond infinity, which holds no number.
pub open spec fn rank(bits: u64) -> int {
    let k = if bits >= SIGN { bits - SIGN } else { bits as int };
    if k > INFINITY {
        0
    } else if bits >= SIGN {
        -k
    } else {
        k
    }
}

/// The magnitude pattern nearest to `num / den`.
pub open spec fn nearest(num: nat, den: nat) -> nat {
    choose|k: nat| is_nearest(num, den, k)
}

/// What `magnitude` is of a pattern put together from 53 bits `m` and a
/// count `e` of doublings.
pub proof fn lemma_magnitude_of(m: nat, e: nat)
    requires
        m <= 2 * SPAN,
        e > 0 ==> m >= SPAN,
    ensures
        magnitude(m + e * (SPAN as nat)) == m * pow2(e),
{
    lemma2_to64_rest();
    vstd::arithmetic::power2::lemma2_to64();
    let span = SPAN as nat;
    let k = m + e * span;
    if m < SPAN {
        assert(e == 0);
        assert(m * 1 == m);
    } else if m < 2 * SPAN {
        assert(k == (e + 1) * span + (m - span)) by (nonlinear_arith)
            requires
                k == m + e * span,
        ;
        vstd::arithmetic::div_mod::lemma_fundamental_div_mod_converse(
            k as int,
            span as int,
            (e + 1) as int,
            (m - span) as int,
        );
    } else {
        assert(k == (e + 2) * span + 0) by (nonlinear_arith)
            requires
                k == m + e * span,
                m == 2 * span,
        ;
        vstd::arithmetic::div_mod::lemma_fundamental_div_mod_converse(
            k as int,
            span as int,
            (e + 2) as int,
            0,
        );
        lemma_pow2_unfold(e + 1);
        assert(span * (2 * pow2(e)) == (2 * span) * pow2(e)) by (nonlinear_arith);
    }
}

/// Each pattern is worth more than the one before it.
pub proof fn lemma_magnitude_step(k: nat)
    ensures
        magnitude(k) < magnitude(k + 1),
{
    let span = SPAN as nat;
    if k + 1 < span {
    } else {
        let e = (k / span) as nat;
        let f = (k % span) as nat;
        vstd::arithmetic::div_mod::lemma_fundamental_div_mod(k as int, span as int);
        assert(k == span * e + f);
        if e == 0 {
            // k == SPAN - 1
            lemma_magnitude_of(span, 0);
            assert(span + 0 * span == span);
            assert(span * pow2(0) == span) by {
                vstd::arithmetic::power2::lemma2_to64();
            }
        } else {
            let m = span + f;
            let d = (e - 1) as nat;
            assert(k == m + d * span) by (nonlinear_arith)
                requires
                    k == span * e + f,
                    m == span + f,
                    d == e - 1,
            ;
            lemma_magnitude_of(m, d);
            lemma_magnitude_of(m + 1, d);
            lemma_pow2_pos(d);
            assert(m * pow2(d) < (m + 1) * pow2(d)) by (nonlinear_arith)
                requires
                    pow2(d) > 0,
            ;
        }
    }
}

/// A larger pattern is worth more.
pub proof fn lemma_magnitude_increases(a: nat, b: nat)
    requires
        a < b,
    ensures
        magnitude(a) < magnitude(b),
    decreases b - a,
{
    lemma_magnitude_step(a);
    if a + 1 < b {
        lemma_magnitude_increases(a + 1, b);
    }
}

/// No ratio has two nearest patterns.
pub proof fn lemma_nearest_unique(num: nat, den: nat, a: nat, b: nat)
    requires
        den > 0,
        is_nearest(num, den, a),
        is_nearest(num, den, b),
    ensures
        a == b,
{
    if a < b {
        lemma_between(num, den, a, b);
    } else if b < a {
        lemma_between(num, den, b, a);
    }
}

/// Where a pattern is nearest to a ratio, no larger pattern is.
proof fn lemma_between(num: nat, den: nat, a: nat, b: nat)
    requires
        den > 0,
        is_nearest(num, den, a),
        a < b,
    ensures
        !is_nearest(num, den, b),
{
    let low = midpoint(a);
    let high = midpoint((b - 1) as nat);
    if a + 1 < b {
        lemma_magnitude_increases(a, (b - 1) as nat);
        lemma_magnitude_increases(a + 1, b);
        assert(den * low < den * high) by (nonlinear_arith)
            requires
                low < high,
                den > 0,
        ;
    }
}

/// The nearest pattern is the one that `is_nearest` holds of.
pub proof fn lemma_nearest_is(num: nat, den: nat, k: nat)
    requires
        den > 0,
        is_nearest(num, den, k),
    ensures
        nearest(num, den) == k,
{
    lemma_nearest_unique(num, den, nearest(num, den), k);
}

/// The lower half of `is_nearest`: the ratio does not lie below the
/// midpoint under `k`, nor on it where `k` is odd.
spec fn reaches(num: nat, den: nat, k: nat) -> bool {
    k > 0 ==> if k % 2 == 0 {
        den * midpoint((k - 1) as nat) <= 2 * num * pow2(1074)
    } else {
        den * midpoint((k - 1) as nat) < 2 * num * pow2(1074)
    }
}

/// The largest pattern up to `k` that the ratio reaches is nearest to it,
/// where the ratio does not reach the pattern above `k`.
proof fn lemma_search(num: nat, den: nat, k: nat) -> (found: nat)
    requires
        k <= INFINITY,
        k < INFINITY ==> !reaches(num, den, k + 1),
    ensures
        is_nearest(num, den, found),
    decreases k,
{
    if reaches(num, den, k) {
        k
    } else {
        lemma_search(num, den, (k - 1) as nat)
    }
}

/// Every ratio has a nearest pattern, and `nearest` is it.
pub proof fn lemma_nearest_exists(num: nat, den: nat)
    ensures
        is_nearest(num, den, nearest(num, den)),
{
    let found = lemma_search(num, den, INFINITY as nat);
    assert(is_nearest(num, den, found));
}

/// A number that a pattern holds has that pattern nearest.
pub proof fn lemma_nearest_exact(num: nat, den: nat, k: nat)
    requires
        den > 0,
        k <= INFINITY,
        num * pow2(1074) == den * magnitude(k),
    ensures
        nearest(num, den) == k,
{
    let here = magnitude(k);
    let twice = 2 * num * pow2(1074);
    assert(twice == 2 * (den * here)) by (nonlinear_arith)
        requires
            twice == 2 * num * pow2(1074),
            num * pow2(1074) == den * here,
    ;
    if k > 0 {
        let below = magnitude((k - 1) as nat);
        lemma_magnitude_step((k - 1) as nat);
        assert(den * (below + here) < 2 * (den * here)) by (nonlinear_arith)
            requires
                below < here,
                den > 0,
        ;
    }
    if k < INFINITY {
        let above = magnitude(k + 1);
        lemma_magnitude_step(k);
        assert(2 * (den * here) < den * (here + above)) by (nonlinear_arith)
            requires
                here < above,
                den > 0,
        ;
    }
    lemma_nearest_is(num, den, k);
}

/// The pattern `ONE` holds the number one, and is nearest to it.
pub proof fn lemma_one()
    ensures
        magnitude(ONE as nat) == pow2(1074),
        nearest(1, 1) == ONE,
{
    let span = SPAN as nat;
    lemma2_to64_rest();
    assert(ONE == span + 1022 * span);
    lemma_magnitude_of(span, 1022);
    lemma_pow2_adds(52, 1022);
    lemma_nearest_exact(1, 1, ONE as nat);
}

/// Of two ratios, the larger one never has the smaller pattern nearest.
pub proof fn lemma_nearest_increases(num: nat, den: nat, more: nat, over: nat)
    requires
        den > 0,
        over > 0,
        num * over <= more * den,
    ensures
        nearest(num, den) <= nearest(more, over),
{
    let a = nearest(num, den);
    let b = nearest(more, over);
    lemma_nearest_exists(num, den);
    lemma_nearest_exists(more, over);
    if b < a {
        let unit = pow2(1074);
        let low = midpoint((a - 1) as nat);
        let high = midpoint(b);
        let x = 2 * num * unit;
        let y = 2 * more * unit;
        if b + 1 < a {
            lemma_magnitude_increases(b, (a - 1) as nat);
            lemma_magnitude_increases(b + 1, a);
        }
        assert(high <= low);
        assert(b + 1 < a ==> high < low);
        lemma_pow2_pos(1074);
        assert(x * over <= y * den) by (nonlinear_arith)
            requires
                x == 2 * num * unit,
                y == 2 * more * unit,
                num * over <= more * den,
                unit > 0,
        ;
        // den * low <= x and y <= over * high, one of them strictly
        assert(den * low * over <= x * over) by (nonlinear_arith)
            requires
                den * low <= x,
                over > 0,
        ;
        assert(y * den <= over * high * den) by (nonlinear_arith)
            requires
                y <= over * high,
                den > 0,
        ;
        assert(over * high * den <= den * low * over) by (nonlinear_arith)
            requires
                high <= low,
                den > 0,
                over > 0,
        ;
        if b + 1 < a {
            assert(over * high * den < den * low * over) by (nonlinear_arith)
                requires
                    high < low,
                    den > 0,
                    over > 0,
            ;
        } else if a % 2 == 1 {
            assert(den * low * over < x * over) by (nonlinear_arith)
                requires
                    den * low < x,
                    over > 0,
            ;
        } else {
            assert(y * den < over * high * den) by (nonlinear_arith)
                requires
                    y < over * high,
                    den > 0,
            ;
        }
    }
}

/// A ratio of at least 2^1024 has infinity nearest.
pub proof fn lemma_overflow(num: nat, den: nat)
    requires
        den > 0,
        num * pow2(1074) >= den * pow2(2098),
    ensures
        is_nearest(num, den, INFINITY as nat),
{
    let top = INFINITY as nat;
    let span = SPAN as nat;
    lemma2_to64_rest();
    assert(top == span + 2046 * span);
    lemma_magnitude_of(span, 2046);
    lemma_pow2_adds(52, 2046);
    assert(magnitude(top) == pow2(2098));
    lemma_magnitude_step((top - 1) as nat);
    let a = num * pow2(1074);
    let h = pow2(2098);
    let mid = midpoint((top - 1) as nat);
    assert(2 * num * pow2(1074) == 2 * a) by (nonlinear_arith)
        requires
            a == num * pow2(1074),
    ;
    assert(den * mid <= 2 * a) by (nonlinear_arith)
        requires
            mid <= 2 * h,
            a >= den * h,
            den > 0,
    ;
}

/// The outcome of dividing and rounding. With `t = den * 2^(53 + e)`, the
/// numerator `num * 2^1074` has been divided by `den * 2^e`, which gave the
/// quotient `m` and left `r / 2^53`; `up` says whether the remainder is more
/// than half, or is half with `m` odd.
pub proof fn lemma_rounded(num: nat, den: nat, e: nat, m: nat, r: nat, up: bool)
    requires
        den > 0,
        e <= 2045,
        m < 2 * SPAN,
        r < den * pow2(53 + e),
        r + m * (den * pow2(53 + e)) == pow2(53) * (num * pow2(1074)),
        e > 0 ==> num * pow2(1074) >= den * pow2(52 + e),
        up <==> (2 * r > den * pow2(53 + e) || (2 * r == den * pow2(53 + e) && m % 2 == 1)),
    ensures
        is_nearest(num, den, m + e * (SPAN as nat) + (if up { 1nat } else { 0nat })),
        m + e * (SPAN as nat) + (if up { 1nat } else { 0nat }) <= INFINITY,
{
    lemma2_to64_rest();
    let span = SPAN as nat;
    let p = pow2(53);
    let a = num * pow2(1074);
    let w = pow2(e);
    let d = den * w;
    let t = den * pow2(53 + e);
    let x = m * d;
    let k0 = m + e * span;
    lemma_pow2_adds(53, e);
    lemma_pow2_adds(52, e);
    lemma_pow2_pos(e);
    assert(p == 2 * span);
    assert(d > 0) by (nonlinear_arith)
        requires
            den > 0,
            w > 0,
            d == den * w,
    ;
    assert(t == d * p) by (nonlinear_arith)
        requires
            t == den * (p * w),
            d == den * w,
    ;
    assert(m * t == x * p) by (nonlinear_arith)
        requires
            t == d * p,
            x == m * d,
    ;
    // the quotient: x <= a < x + d
    assert(x <= a && a < x + d) by (nonlinear_arith)
        requires
            r + x * p == p * a,
            0 <= r < d * p,
            p > 0,
    ;
    // the remainder against one half
    assert(2 * r - t == p * (2 * a - (2 * x + d))) by (nonlinear_arith)
        requires
            r + x * p == p * a,
            t == d * p,
    ;
    let diff = 2 * a - (2 * x + d);
    assert((2 * r > t <==> diff > 0) && (2 * r == t <==> diff == 0)) by (nonlinear_arith)
        requires
            2 * r - t == p * diff,
            p > 0,
    ;
    // a quotient that was doubled at least once has its top bit set
    if e > 0 {
        assert(den * pow2(52 + e) == span * d) by (nonlinear_arith)
            requires
                pow2(52 + e) == span * w,
                d == den * w,
        ;
        assert(m + 1 > span) by (nonlinear_arith)
            requires
                span * d <= a,
                a < x + d,
                x == m * d,
                d > 0,
        ;
    }
    lemma_magnitude_of(m, e);
    lemma_magnitude_of(m + 1, e);
    assert(k0 + 1 == (m + 1) + e * span);
    assert(den * magnitude(k0) == x) by (nonlinear_arith)
        requires
            magnitude(k0) == m * w,
            x == m * d,
            d == den * w,
    ;
    assert(den * magnitude(k0 + 1) == x + d) by (nonlinear_arith)
        requires
            magnitude(k0 + 1) == (m + 1) * w,
            x == m * d,
            d == den * w,
    ;
    assert(den * midpoint(k0) == 2 * x + d) by (nonlinear_arith)
        requires
            den * magnitude(k0) == x,
            den * magnitude(k0 + 1) == x + d,
            midpoint(k0) == magnitude(k0) + magnitude(k0 + 1),
    ;
    let twice = 2 * num * pow2(1074);
    assert(twice == 2 * a) by (nonlinear_arith)
        requires
            twice == 2 * num * pow2(1074),
            a == num * pow2(1074),
    ;
    assert(e * span <= 2045 * span) by (nonlinear_arith)
        requires
            e <= 2045,
    ;
    if up {
        let k = k0 + 1;
        assert(k % 2 == (m + 1) % 2) by {
            assert(e * span == 2 * (e * (span / 2))) by (nonlinear_arith)
                requires
                    span == 0x10_0000_0000_0000,
            ;
        }
        if k < INFINITY {
            lemma_magnitude_step(k);
            assert(twice < den * midpoint(k)) by (nonlinear_arith)
                requires
                    twice == 2 * a,
                    a < x + d,
                    den * magnitude(k) == x + d,
                    magnitude(k) < magnitude(k + 1),
                    midpoint(k) == magnitude(k) + magnitude(k + 1),
                    den > 0,
            ;
        }
    } else {
        let k = k0;
        assert(k % 2 == m % 2) by {
            assert(e * span == 2 * (e * (span / 2))) by (nonlinear_arith)
                requires
                    span == 0x10_0000_0000_0000,
            ;
        }
        if k > 0 {
            let j = (k - 1) as nat;
            lemma_magnitude_step(j);
            assert(den * midpoint(j) < twice) by (nonlinear_arith)
                requires
                    twice == 2 * a,
                    x <= a,
                    den * magnitude(k) == x,
                    magnitude(j) < magnitude(k),
                    midpoint(j) == magnitude(j) + magnitude(k),
                    den > 0,
            ;
        }
    }
}

/// `n * 2^times`.
fn shifted(n: Natural, times: u32) -> (r: Natural)
    requires
        n.wf(),
    ensures
        r.wf(),
        r@ == n@ * pow2(times as nat),
{
    let mut r = n;
    let mut j: u32 = 0;
    proof {
        vstd::arithmetic::power2::lemma2_to64();
        assert(n@ * 1 == n@);
    }
    while j < times
        invariant
            j <= times,
            r.wf(),
            r@ == n@ * pow2(j as nat),
        decreases times - j,
    {
        r.scale_add(2, 0);
        j += 1;
        proof {
            lemma_pow2_unfold(j as nat);
            let h = pow2((j - 1) as nat);
            assert(n@ * h * 2 == n@ * (2 * h)) by (nonlinear_arith);
        }
    }
    r
}

/// The magnitude pattern nearest to `num / den`.
pub fn nearest_magnitude(num: Natural, den: Natural) -> (k: u64)
    requires
        num.wf(),
        den.wf(),
        den@ > 0,
    ensures
        k == nearest(num@, den@),
        k <= INFINITY,
{
    let ghost n0 = num@;
    let ghost d0 = den@;
    let a = shifted(num, 1074);
    let mut t = shifted(den, 53);
    let mut e: u64 = 0;
    while a.at_least(&t)
        invariant
            a.wf(),
            t.wf(),
            e <= 2045,
            d0 > 0,
            n0 == num@,
            d0 == den@,
            a@ == n0 * pow2(1074),
            t@ == d0 * pow2((53 + e) as nat),
            e > 0 ==> a@ >= d0 * pow2((52 + e) as nat),
        decreases 2045 - e,
    {
        if e == 2045 {
            proof {
                lemma_overflow(n0, d0);
                lemma_nearest_is(n0, d0, INFINITY as nat);
            }
            return INFINITY;
        }
        t.scale_add(2, 0);
        e += 1;
        proof {
            lemma_pow2_unfold((53 + e) as nat);
            let h = pow2((52 + e) as nat);
            assert(d0 * h * 2 == d0 * (2 * h)) by (nonlinear_arith);
        }
    }
    let ghost a0 = a@;
    let mut r = a;
    let mut m: u64 = 0;
    let mut i: u32 = 0;
    proof {
        vstd::arithmetic::power2::lemma2_to64();
        assert(0 * t@ == 0);
        assert(1 * a0 == a0);
    }
    while i < 53
        invariant
            i <= 53,
            r.wf(),
            t.wf(),
            r@ < t@,
            m < pow2(i as nat),
            r@ + m * t@ == pow2(i as nat) * a0,
        decreases 53 - i,
    {
        let ghost r_before = r@;
        let ghost m_before = m;
        proof {
            lemma2_to64_rest();
            lemma_pow2_unfold((i + 1) as nat);
            if i < 52 {
                vstd::arithmetic::power2::lemma_pow2_strictly_increases((i + 1) as nat, 53);
            }
        }
        r.scale_add(2, 0);
        m = 2 * m;
        if r.at_least(&t) {
            r.subtract(&t);
            m = m + 1;
        }
        i += 1;
        proof {
            let h = pow2((i - 1) as nat);
            let tt = t@;
            assert(2 * r_before + (2 * m_before) * tt == (2 * h) * a0) by (nonlinear_arith)
                requires
                    r_before + m_before * tt == h * a0,
            ;
            assert((2 * m_before + 1) * tt == (2 * m_before) * tt + tt) by (nonlinear_arith);
        }
    }
    let ghost r53 = r@;
    r.scale_add(2, 0);
    let ge = r.at_least(&t);
    let le = t.at_least(&r);
    let up = ge && (!le || m % 2 == 1);
    proof {
        lemma2_to64_rest();
        lemma_rounded(n0, d0, e as nat, m as nat, r53, up);
        assert(e * SPAN <= 2045 * SPAN) by (nonlinear_arith)
            requires
                e <= 2045,
        ;
    }
    let k0 = m + e * SPAN;
    let k = if up {
        k0 + 1
    } else {
        k0
    };
    proof {
        lemma_nearest_is(n0, d0, k as nat);
    }
    k
}

/// Among the patterns of numbers that are not negative, rank goes by what
/// the patterns are worth; among those of negative numbers, against it.
pub proof fn lemma_rank_by_magnitude(a: u64, b: u64)
    requires
        a <= INFINITY,
        b <= INFINITY,
    ensures
        rank(a) < rank(b) <==> magnitude(a as nat) < magnitude(b as nat),
        rank((SIGN + a) as u64) < rank((SIGN + b) as u64) <==> magnitude(a as nat) > magnitude(
            b as nat,
        ),
{
    if a < b {
        lemma_magnitude_increases(a as nat, b as nat);
    } else if b < a {
        lemma_magnitude_increases(b as nat, a as nat);
    }
}

/// The rank of `bits`.
pub fn rank_of(bits: u64) -> (r: i64)
    ensures
        r == rank(bits),
{
    if bits >= SIGN {
        let k = bits - SIGN;
        if k > INFINITY {
            0
        } else {
            -(k as i64)
        }
    } else if bits > INFINITY {
        0
    } else {
        bits as i64
    }
}

} // verus!
