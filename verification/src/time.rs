//! Spans of time in whole nanoseconds.
use crate::decimal;
use crate::double;
use crate::double::{Double, SIGN};
use vstd::arithmetic::div_mod::*;
use vstd::arithmetic::power2::*;
use vstd::prelude::*;

verus! {

pub const NANOS_PER_SEC: u128 = 1_000_000_000;

/// A span of time.
#[derive(Clone, Copy, Debug, PartialEq, Eq, PartialOrd, Ord, Structural)]
pub struct Duration {
    pub nanos: u128,
}

/// A number of seconds in nanoseconds, to the nearest, ties to even.
pub open spec fn nanos_of(secs: Double) -> nat {
    decimal::half_even(secs.abs_value() * 1_000_000_000, pow2(1074))
}

/// Whether a number of seconds is one that a span can have: not negative, and
/// less than 2^64.
pub open spec fn is_span(secs: Double) -> bool {
    &&& secs.finite()
    &&& secs.value() >= 0
    &&& secs.abs_value() < pow2(64) * pow2(1074)
}

impl Duration {
    /// The span in seconds: the whole seconds plus the quotient of the rest,
    /// each rounded.
    pub open spec fn secs(self) -> Double {
        double::sum(
            double::of_int((self.nanos / NANOS_PER_SEC) as nat),
            double::quotient(
                double::of_int((self.nanos % NANOS_PER_SEC) as nat),
                double::of_int(NANOS_PER_SEC as nat),
            ),
        )
    }

    /// The span in milliseconds.
    pub open spec fn millis(self) -> Double {
        double::product(self.secs(), double::of_int(1000))
    }

    pub fn from_secs(s: u64) -> (d: Duration)
        ensures
            d.nanos == s * NANOS_PER_SEC,
    {
        Duration { nanos: s as u128 * NANOS_PER_SEC }
    }

    pub fn from_millis(ms: u64) -> (d: Duration)
        ensures
            d.nanos == ms * 1_000_000,
    {
        Duration { nanos: ms as u128 * 1_000_000 }
    }

    pub fn from_micros(us: u64) -> (d: Duration)
        ensures
            d.nanos == us * 1_000,
    {
        Duration { nanos: us as u128 * 1_000 }
    }

    pub fn as_secs_f64(self) -> (r: Double)
        ensures
            r == self.secs(),
    {
        let whole = Double::from_u128(self.nanos / NANOS_PER_SEC);
        let rest = Double::from_u64((self.nanos % NANOS_PER_SEC) as u64);
        whole.plus(rest.over(Double::from_u64(1_000_000_000)))
    }

    pub fn as_millis_f64(self) -> (r: Double)
        ensures
            r == self.millis(),
    {
        self.as_secs_f64().times(Double::from_u64(1000))
    }

    /// The span that a number of seconds names, to the nearest nanosecond;
    /// none where it is negative, not a number or 2^64 or more.
    pub fn try_from_secs_f64(secs: Double) -> (r: Option<Duration>)
        ensures
            r is Some <==> is_span(secs),
            r matches Some(d) ==> d.nanos == nanos_of(secs),
    {
        if !secs.is_finite() {
            return None;
        }
        let (q, e) = secs.parts();
        proof {
            lemma_span_exponent(secs);
            double::lemma_parts(secs.abs_bits());
        }
        if q == 0 {
            proof {
                assert(0 * pow2(e as nat) == 0);
                lemma_pow2_pos(64);
                lemma_pow2_pos(1074);
                assert(pow2(64) * pow2(1074) > 0) by (nonlinear_arith)
                    requires
                        pow2(64) > 0,
                        pow2(1074) > 0,
                ;
                lemma_small_mod(0, pow2(1074));
                lemma_basic_div(0, pow2(1074) as int);
            }
            return Some(Duration { nanos: 0 });
        }
        proof {
            lemma_pow2_pos(e as nat);
            assert(q * pow2(e as nat) > 0) by (nonlinear_arith)
                requires
                    q > 0,
                    pow2(e as nat) > 0,
            ;
        }
        if secs.bits >= SIGN || e >= 1086 {
            return None;
        }
        let n = decimal::rounded_multiple(secs, 1_000_000_000);
        Some(Duration { nanos: n })
    }
}

/// Below 2^64 means a small exponent.
proof fn lemma_span_exponent(x: Double)
    requires
        x.finite(),
    ensures
        x.abs_value() < pow2(64) * pow2(1074) <==> double::exponent(x.abs_bits()) < 1086,
{
    let m = x.abs_bits();
    double::lemma_parts(m);
    let q = double::significand(m);
    let e = double::exponent(m);
    lemma2_to64();
    lemma2_to64_rest();
    lemma_pow2_adds(64, 1074);
    lemma_pow2_adds(52, 1086);
    lemma_pow2_adds(53, 1085);
    lemma_pow2_pos(e);
    if e < 1086 {
        if e < 1085 {
            lemma_pow2_strictly_increases(e, 1085);
        }
        assert(q * pow2(e) < pow2(53) * pow2(1085)) by (nonlinear_arith)
            requires
                q < pow2(53),
                pow2(e) <= pow2(1085),
                pow2(e) > 0,
        ;
    } else {
        if e > 1086 {
            lemma_pow2_strictly_increases(1086, e);
        }
        assert(q * pow2(e) >= pow2(52) * pow2(1086)) by (nonlinear_arith)
            requires
                q >= pow2(52),
                pow2(e) >= pow2(1086),
        ;
    }
}

/// Something within half of `d` of a multiple of `d` is nearest to it.
proof fn lemma_half_even_near(n: nat, d: nat, q: nat)
    requires
        d > 0,
        -(d as int) < 2 * (n - q * d) < d,
    ensures
        decimal::half_even(n, d) == q,
{
    if n >= q * d {
        let r = (n - q * d) as nat;
        lemma_fundamental_div_mod_converse(n as int, d as int, q as int, r as int);
    } else {
        let r = (n - q * d + d) as nat;
        assert(q > 0) by (nonlinear_arith)
            requires
                n < q * d,
                n >= 0,
                d > 0,
                q >= 0,
        ;
        assert(n == (q - 1) * d + r) by (nonlinear_arith)
            requires
                r == n - q * d + d,
        ;
        lemma_fundamental_div_mod_converse(n as int, d as int, q - 1, r as int);
    }
}

/// The fraction of a second, as a double.
proof fn lemma_fraction(n: nat) -> (q: nat)
    requires
        n < NANOS_PER_SEC,
    ensures
        ({
            let x = double::quotient(double::of_int(n), double::of_int(NANOS_PER_SEC as nat));
            &&& x.finite()
            &&& !x.negative()
            &&& x.abs_value() == q
            &&& q <= pow2(1074)
            &&& -(pow2(1021) * 1_000_000_000) <= 2 * (n * pow2(1074) - q * 1_000_000_000)
                <= pow2(1021) * 1_000_000_000
        }),
{
    let p = pow2(1074);
    let g = 1_000_000_000nat;
    let a = double::of_int(n);
    let b = double::of_int(g);
    lemma2_to64();
    lemma2_to64_rest();
    lemma_pow2_pos(1074);
    lemma_pow2_pos(1021);
    double::lemma_of_int(n);
    double::lemma_of_int(g);
    lemma_pow2_adds(53, 1021);
    let u = pow2(1021);
    let h = 0x20_0000_0000_0000nat;
    assert(pow2(53) == h) by {
        lemma_pow2_unfold(53);
    }
    let num = (n * p) * p;
    let den = g * p;
    assert(den > 0) by (nonlinear_arith)
        requires
            den == g * p,
            g > 0,
            p > 0,
    ;
    assert(num <= h * (u * den)) by (nonlinear_arith)
        requires
            num == (n * p) * p,
            den == g * p,
            p == h * u,
            n <= g,
            p > 0,
    ;
    double::lemma_rounding_error(num, den, 1021);
    let m = double::rounded(num, den);
    let q = double::magnitude(m);
    assert(num - q * den == (n * p - q * g) * p) by (nonlinear_arith)
        requires
            num == (n * p) * p,
            den == g * p,
    ;
    assert(u * den == (u * g) * p) by (nonlinear_arith)
        requires
            den == g * p,
    ;
    let gap = n * p - q * g;
    assert(-(u * g) <= 2 * gap <= u * g) by (nonlinear_arith)
        requires
            2 * (gap * p) <= (u * g) * p,
            -(2 * (gap * p)) <= (u * g) * p,
            p > 0,
    ;
    assert(q <= p) by (nonlinear_arith)
        requires
            2 * (n * p - q * g) >= -(u * g),
            n + 1 <= g,
            p == h * u,
            h == 0x20_0000_0000_0000nat,
            g == 1_000_000_000nat,
            u > 0,
    ;
    double::lemma_one();
    double::lemma_ordered(m, double::ONE_BITS as nat);
    q
}

/// A span of less than 2^20 seconds is not changed by going through seconds
/// in doubles.
pub proof fn seconds_keep_nanoseconds(d: Duration)
    requires
        d.nanos / NANOS_PER_SEC < 0x10_0000,
    ensures
        is_span(d.secs()),
        nanos_of(d.secs()) == d.nanos,
{
    let p = pow2(1074);
    let g = 1_000_000_000nat;
    let s = (d.nanos / NANOS_PER_SEC) as nat;
    let n = (d.nanos % NANOS_PER_SEC) as nat;
    lemma_fundamental_div_mod(d.nanos as int, NANOS_PER_SEC as int);
    lemma2_to64();
    lemma2_to64_rest();
    lemma_pow2_pos(1074);
    lemma_pow2_pos(1021);
    lemma_pow2_pos(1041);
    double::lemma_of_int(s);
    let q = lemma_fraction(n);
    let a = double::of_int(s);
    let b = double::quotient(double::of_int(n), double::of_int(NANOS_PER_SEC as nat));
    let x = s * p + q;
    assert(a.value() + b.value() == x);
    lemma_pow2_adds(33, 1041);
    lemma_pow2_adds(20, 1021);
    let w = pow2(1041);
    let u = pow2(1021);
    assert(x <= 0x20_0000_0000_0000 * (w * 1)) by (nonlinear_arith)
        requires
            x == s * p + q,
            q <= p,
            s + 1 <= 0x10_0000,
            p == 0x2_0000_0000 * w,
            w > 0,
    ;
    double::lemma_rounding_error(x, 1, 1041);
    let m = double::rounded(x, 1);
    let v = double::magnitude(m);
    assert(v * 1 == v && w * 1 == w);
    assert(-(w as int) <= 2 * (x - v) <= w);
    let sum = double::sum(a, b);
    assert(v < 0x20_0000 * p) by (nonlinear_arith)
        requires
            2 * (x - v) >= -(w as int),
            x == s * p + q,
            q <= p,
            s + 1 <= 0x10_0000,
            p == 0x2_0000_0000 * w,
            w > 0,
    ;
    double::lemma_of_int(0x20_0000);
    double::lemma_ordered(m, double::of_int(0x20_0000).abs_bits());
    assert(x == 0 ==> sum.abs_value() == 0) by {
        double::lemma_zero();
    }
    double::lemma_zero();
    assert(sum.finite() && !sum.negative() && sum.abs_value() == v) by {
        if x == 0 {
            double::lemma_rounded_exact(0, 1);
            assert(double::magnitude(0) * 1 == 0);
        }
    }
    let nanos = d.nanos as nat;
    assert(nanos == g * s + n);
    let off = v * g - nanos * p;
    assert(off == (v - x) * g + (q * g - n * p)) by (nonlinear_arith)
        requires
            off == v * g - nanos * p,
            nanos == g * s + n,
            x == s * p + q,
    ;
    assert(-(p as int) < 2 * off < p) by (nonlinear_arith)
        requires
            off == (v - x) * g + (q * g - n * p),
            -(w as int) <= 2 * (x - v) <= w,
            -(u * g) <= 2 * (n * p - q * g) <= u * g,
            g == 1_000_000_000nat,
            p == 0x2_0000_0000 * w,
            w == 0x10_0000 * u,
            u > 0,
    ;
    lemma_half_even_near(v * g, p, nanos);
    assert(v < pow2(64) * p) by (nonlinear_arith)
        requires
            v < 0x20_0000 * p,
            pow2(64) == 0x1_0000_0000_0000_0000,
            p > 0,
    ;
}

/// A span in seconds is its nanoseconds over a thousand million, to less than
/// half a nanosecond.
pub proof fn seconds_are_a_thousand_million_nanoseconds(d: Duration)
    requires
        d.nanos / 1_000_000_000 < 0x10_0000,
    ensures
        d.secs().finite(),
        d.secs().value() >= 0,
        2 * (d.secs().value() * 1_000_000_000) <= 2 * (d.nanos * pow2(1074)) + pow2(1074),
        2 * (d.nanos * pow2(1074)) <= 2 * (d.secs().value() * 1_000_000_000) + pow2(1074),
{
    lemma_pow2_pos(1074);
    seconds_keep_nanoseconds(d);
    let v = d.secs().abs_value() * 1_000_000_000;
    decimal::rounding_goes_to_the_nearest(v, pow2(1074));
}

/// Milliseconds are a thousand to the second.
pub proof fn milliseconds_are_a_thousandth(d: Duration)
    ensures
        d.millis() == double::product(d.secs(), double::of_int(1000)),
{
}

} // verus!
