//! IEEE 754 binary64 numbers, held by their bit pattern and computed with
//! integers, so that what is stored and compared is the same on every machine.
//!
//! A finite number is an integer multiple of 2^-1074, the smallest positive
//! double. `Double::value` is that multiple; infinity takes the place of the
//! next number after the largest finite one.
use vstd::arithmetic::div_mod::*;
use vstd::arithmetic::mul::*;
use vstd::arithmetic::power2::*;
use vstd::prelude::*;

verus! {

/// A binary64 number. Two of them are `==` when their bits are: use `num_eq`
/// for numeric equality, which holds of the two zeros and of no NaN.
#[derive(Clone, Copy, Debug, PartialEq, Eq, Structural)]
pub struct Double {
    pub bits: u64,
}

pub const SIGN: u64 = 0x8000_0000_0000_0000;

pub const INF_BITS: u64 = 0x7ff0_0000_0000_0000;

/// 2^52, the implicit leading digit of a normal number.
pub const HIDDEN: u64 = 0x10_0000_0000_0000;

/// The quiet NaN that every undefined operation gives.
pub const NAN_BITS: u64 = 0x7ff8_0000_0000_0000;

pub const ONE_BITS: u64 = 0x3ff0_0000_0000_0000;

pub const NEG_INF_BITS: u64 = 0xfff0_0000_0000_0000;

/// The power of two that a magnitude's significand is multiplied by.
pub open spec fn exponent(m: nat) -> nat {
    if m < HIDDEN {
        0
    } else {
        (m / (HIDDEN as nat) - 1) as nat
    }
}

/// The integer significand of a magnitude, the leading digit included.
pub open spec fn significand(m: nat) -> nat {
    (m - exponent(m) * HIDDEN) as nat
}

/// The magnitude with bits `m`, in units of 2^-1074.
pub open spec fn magnitude(m: nat) -> nat {
    significand(m) * pow2(exponent(m))
}

/// How far the magnitude with bits `m` is from `n / d`, times `d`.
pub open spec fn distance(n: nat, d: nat, m: nat) -> nat {
    let gap = n - magnitude(m) * d;
    if gap < 0 {
        (-gap) as nat
    } else {
        gap as nat
    }
}

/// `m` is the magnitude nearest to `n / d` (in units of 2^-1074), the even one
/// of two that are equally near.
pub open spec fn nearest(n: nat, d: nat, m: nat) -> bool {
    &&& m <= INF_BITS
    &&& forall|k: nat|
        #![trigger distance(n, d, k)]
        k <= INF_BITS ==> distance(n, d, m) <= distance(n, d, k)
    &&& forall|k: nat|
        #![trigger distance(n, d, k)]
        k <= INF_BITS && k != m && distance(n, d, k) == distance(n, d, m) ==> m % 2 == 0
}

/// The bits of the magnitude that `n / d` rounds to.
pub open spec fn rounded(n: nat, d: nat) -> nat {
    choose|m: nat| nearest(n, d, m)
}

/// A number from its sign and magnitude bits.
pub open spec fn signed(negative: bool, m: nat) -> Double {
    Double {
        bits: if negative {
            (SIGN + m) as u64
        } else {
            m as u64
        },
    }
}

impl Double {
    pub open spec fn negative(self) -> bool {
        self.bits >= SIGN
    }

    /// The bits without the sign.
    pub open spec fn abs_bits(self) -> nat {
        if self.bits >= SIGN {
            (self.bits - SIGN) as nat
        } else {
            self.bits as nat
        }
    }

    pub open spec fn nan(self) -> bool {
        self.abs_bits() > INF_BITS
    }

    pub open spec fn infinite(self) -> bool {
        self.abs_bits() == INF_BITS
    }

    pub open spec fn finite(self) -> bool {
        self.abs_bits() < INF_BITS
    }

    /// The magnitude in units of 2^-1074.
    pub open spec fn abs_value(self) -> nat {
        magnitude(self.abs_bits())
    }

    /// The number in units of 2^-1074.
    pub open spec fn value(self) -> int {
        if self.negative() {
            -(self.abs_value() as int)
        } else {
            self.abs_value() as int
        }
    }

    /// `self < other` as numbers; a NaN is in no relation.
    pub open spec fn less(self, other: Double) -> bool {
        !self.nan() && !other.nan() && self.value() < other.value()
    }

    /// `self == other` as numbers.
    pub open spec fn equals(self, other: Double) -> bool {
        !self.nan() && !other.nan() && self.value() == other.value()
    }
}

/// The significand and exponent of a magnitude.
pub proof fn lemma_parts(m: nat)
    ensures
        significand(m) < 2 * HIDDEN,
        m == exponent(m) * HIDDEN + significand(m),
        exponent(m) > 0 ==> significand(m) >= HIDDEN,
        m >= HIDDEN ==> significand(m) >= HIDDEN,
{
    if m >= HIDDEN {
        lemma_fundamental_div_mod(m as int, HIDDEN as int);
        lemma_mod_bound(m as int, HIDDEN as int);
        let q = m / (HIDDEN as nat);
        assert(q >= 1) by (nonlinear_arith)
            requires
                m >= HIDDEN,
                m == HIDDEN * q + m % (HIDDEN as nat),
                m % (HIDDEN as nat) < HIDDEN,
        ;
        assert(HIDDEN * q == (q - 1) * HIDDEN + HIDDEN) by (nonlinear_arith);
    }
}

/// What a significand and an exponent make together.
pub proof fn lemma_compose(e: nat, q: nat)
    requires
        q <= 2 * HIDDEN,
        e == 0 || q >= HIDDEN,
    ensures
        magnitude(e * (HIDDEN as nat) + q) == q * pow2(e),
{
    let m = e * (HIDDEN as nat) + q;
    lemma_parts(m);
    if q == 2 * HIDDEN {
        assert(m == (e + 2) * (HIDDEN as nat) + 0) by (nonlinear_arith)
            requires
                m == e * (HIDDEN as nat) + 2 * HIDDEN,
        ;
        lemma_fundamental_div_mod_converse(m as int, HIDDEN as int, (e + 2) as int, 0);
        assert(m >= HIDDEN) by (nonlinear_arith)
            requires
                m == (e + 2) * (HIDDEN as nat) + 0,
        ;
        assert(exponent(m) == e + 1);
        assert(m - (e + 1) * HIDDEN == HIDDEN) by (nonlinear_arith)
            requires
                m == (e + 2) * (HIDDEN as nat) + 0,
        ;
        lemma_pow2_unfold(e + 1);
        assert(HIDDEN * (2 * pow2(e)) == (2 * HIDDEN) * pow2(e)) by (nonlinear_arith);
    } else if q >= HIDDEN {
        assert(m == (e + 1) * (HIDDEN as nat) + (q - HIDDEN)) by (nonlinear_arith)
            requires
                m == e * (HIDDEN as nat) + q,
        ;
        lemma_fundamental_div_mod_converse(m as int, HIDDEN as int, (e + 1) as int, q - HIDDEN);
        assert(m >= HIDDEN) by (nonlinear_arith)
            requires
                m == e * (HIDDEN as nat) + q,
                q >= HIDDEN,
        ;
    }
}

/// Magnitudes are ordered as their bits are.
pub proof fn lemma_monotone(a: nat, b: nat)
    requires
        a < b,
    ensures
        magnitude(a) < magnitude(b),
{
    lemma_parts(a);
    lemma_parts(b);
    let ea = exponent(a);
    let eb = exponent(b);
    let qa = significand(a);
    let qb = significand(b);
    lemma_pow2_pos(ea);
    lemma_pow2_pos(eb);
    if ea > eb {
        assert(a >= b) by (nonlinear_arith)
            requires
                a == ea * HIDDEN + qa,
                b == eb * HIDDEN + qb,
                ea >= eb + 1,
                qb < 2 * HIDDEN,
                qa >= HIDDEN,
        ;
    } else if ea == eb {
        assert(qa * pow2(ea) < qb * pow2(ea)) by (nonlinear_arith)
            requires
                qa < qb,
                pow2(ea) > 0,
        ;
    } else {
        if ea + 1 < eb {
            lemma_pow2_strictly_increases(ea + 1, eb);
        }
        lemma_pow2_unfold(ea + 1);
        assert(qa * pow2(ea) < qb * pow2(eb)) by (nonlinear_arith)
            requires
                qa < 2 * HIDDEN,
                qb >= HIDDEN,
                pow2(eb) >= 2 * pow2(ea),
                pow2(ea) > 0,
        ;
    }
}

/// Magnitudes are ordered as their bits are, in both directions.
pub proof fn lemma_ordered(a: nat, b: nat)
    ensures
        magnitude(a) < magnitude(b) <==> a < b,
        magnitude(a) == magnitude(b) <==> a == b,
{
    if a < b {
        lemma_monotone(a, b);
    } else if b < a {
        lemma_monotone(b, a);
    }
}

proof fn lemma_distance_between(n: nat, d: nat, lo: nat, k: nat)
    requires
        d > 0,
        magnitude(lo) * d <= n <= magnitude(lo + 1) * d,
    ensures
        k <= lo ==> distance(n, d, lo) <= distance(n, d, k),
        k < lo ==> distance(n, d, lo) < distance(n, d, k),
        k >= lo + 1 ==> distance(n, d, lo + 1) <= distance(n, d, k),
        k > lo + 1 ==> distance(n, d, lo + 1) < distance(n, d, k),
{
    lemma_ordered(k, lo);
    lemma_ordered(k, lo + 1);
    let mk = magnitude(k);
    let ml = magnitude(lo);
    let mh = magnitude(lo + 1);
    if k < lo {
        assert(mk * d < ml * d) by (nonlinear_arith)
            requires
                mk < ml,
                d > 0,
        ;
    }
    if k > lo + 1 {
        assert(mk * d > mh * d) by (nonlinear_arith)
            requires
                mk > mh,
                d > 0,
        ;
    }
}

/// Rounding between two neighbours is decided by the midpoint.
pub proof fn lemma_midpoint(n: nat, d: nat, lo: nat, m: nat)
    requires
        d > 0,
        lo < INF_BITS,
        magnitude(lo) * d <= n <= magnitude(lo + 1) * d,
        ({
            let mid = (magnitude(lo) + magnitude(lo + 1)) * d;
            ||| 2 * n < mid && m == lo
            ||| 2 * n > mid && m == lo + 1
            ||| 2 * n == mid && lo <= m <= lo + 1 && m % 2 == 0
        }),
    ensures
        nearest(n, d, m),
{
    let ml = magnitude(lo);
    let mh = magnitude(lo + 1);
    assert((ml + mh) * d == ml * d + mh * d) by (nonlinear_arith);
    lemma_ordered(lo, lo + 1);
    assert(ml * d < mh * d) by (nonlinear_arith)
        requires
            ml < mh,
            d > 0,
    ;
    assert forall|k: nat| #![trigger distance(n, d, k)] k <= INF_BITS implies distance(n, d, m)
        <= distance(n, d, k) && (k != m && distance(n, d, k) == distance(n, d, m) ==> m % 2
        == 0) by {
        lemma_distance_between(n, d, lo, k);
        lemma_distance_between(n, d, lo, lo);
        lemma_distance_between(n, d, lo, lo + 1);
    }
}

/// A number at or above infinity's place rounds to infinity.
pub proof fn lemma_overflow(n: nat, d: nat)
    requires
        d > 0,
        n >= magnitude(INF_BITS as nat) * d,
    ensures
        nearest(n, d, INF_BITS as nat),
{
    assert forall|k: nat| #![trigger distance(n, d, k)] k <= INF_BITS implies distance(
        n,
        d,
        INF_BITS as nat,
    ) <= distance(n, d, k) && (k != INF_BITS ==> distance(n, d, k) != distance(
        n,
        d,
        INF_BITS as nat,
    )) by {
        lemma_ordered(k, INF_BITS as nat);
        let mk = magnitude(k);
        let mi = magnitude(INF_BITS as nat);
        if k < INF_BITS {
            assert(mk * d < mi * d) by (nonlinear_arith)
                requires
                    mk < mi,
                    d > 0,
            ;
        }
    }
}

/// There is one nearest magnitude.
pub proof fn lemma_nearest_unique(n: nat, d: nat, a: nat, b: nat)
    requires
        d > 0,
        nearest(n, d, a),
        nearest(n, d, b),
    ensures
        a == b,
{
    if a != b {
        let lo = if a < b { a } else { b };
        let hi = if a < b { b } else { a };
        assert(distance(n, d, lo) == distance(n, d, hi));
        let mid = lo + 1;
        lemma_ordered(lo, hi);
        lemma_ordered(lo, mid);
        lemma_ordered(mid, hi);
        let ml = magnitude(lo);
        let mm = magnitude(mid);
        let mh = magnitude(hi);
        assert(ml * d < mh * d) by (nonlinear_arith)
            requires
                ml < mh,
                d > 0,
        ;
        if mid == hi {
            assert(lo % 2 == 0 && hi % 2 == 0);
            assert(false);
        } else {
            assert(ml * d < mm * d && mm * d < mh * d) by (nonlinear_arith)
                requires
                    ml < mm < mh,
                    d > 0,
            ;
            assert(distance(n, d, mid) < distance(n, d, lo));
            assert(false);
        }
    }
}

pub proof fn lemma_rounded(n: nat, d: nat, m: nat)
    requires
        d > 0,
        nearest(n, d, m),
    ensures
        rounded(n, d) == m,
{
    lemma_nearest_unique(n, d, rounded(n, d), m);
}

/// A number that is a double rounds to itself.
pub proof fn lemma_rounded_exact(m: nat, d: nat)
    requires
        d > 0,
        m <= INF_BITS,
    ensures
        rounded(magnitude(m) * d, d) == m,
{
    let n = magnitude(m) * d;
    assert forall|k: nat| #![trigger distance(n, d, k)] k <= INF_BITS && k != m implies distance(
        n,
        d,
        k,
    ) > 0 by {
        lemma_ordered(k, m);
        let mk = magnitude(k);
        let mm = magnitude(m);
        assert(mk * d != mm * d) by (nonlinear_arith)
            requires
                mk != mm,
                d > 0,
        ;
    }
    assert(distance(n, d, m) == 0);
    lemma_rounded(n, d, m);
}

/// A magnitude that some double is nearest to.
proof fn lemma_nearest_exists(n: nat, d: nat)
    requires
        d > 0,
    ensures
        nearest(n, d, rounded(n, d)),
{
    let top = INF_BITS as nat;
    if n >= magnitude(top) * d {
        lemma_overflow(n, d);
    } else {
        lemma_compose(0, 0);
        assert(0 * (HIDDEN as nat) + 0 == 0 && 0 * pow2(0) == 0);
        assert(magnitude(0) * d == 0) by (nonlinear_arith)
            requires
                magnitude(0) == 0,
        ;
        let lo = lemma_bracket(n, d, 0, top);
        let mid = (magnitude(lo) + magnitude(lo + 1)) * d;
        let m = if 2 * n < mid || (2 * n == mid && lo % 2 == 0) {
            lo
        } else {
            lo + 1
        };
        lemma_midpoint(n, d, lo, m);
    }
}

/// The neighbours that a number lies between.
proof fn lemma_bracket(n: nat, d: nat, a: nat, b: nat) -> (lo: nat)
    requires
        a < b,
        magnitude(a) * d <= n < magnitude(b) * d,
    ensures
        a <= lo < b,
        magnitude(lo) * d <= n < magnitude(lo + 1) * d,
    decreases b - a,
{
    if b == a + 1 {
        a
    } else if n < magnitude(a + 1) * d {
        a
    } else {
        lemma_bracket(n, d, a + 1, b)
    }
}

/// Rounding keeps the order of numbers.
pub proof fn lemma_rounded_monotone(a: nat, b: nat, d: nat)
    requires
        d > 0,
        a <= b,
    ensures
        rounded(a, d) <= rounded(b, d) <= INF_BITS,
{
    lemma_nearest_exists(a, d);
    lemma_nearest_exists(b, d);
    let x = rounded(a, d);
    let y = rounded(b, d);
    if y < x {
        lemma_ordered(y, x);
        let my = magnitude(y);
        let mx = magnitude(x);
        assert(my * d < mx * d) by (nonlinear_arith)
            requires
                my < mx,
                d > 0,
        ;
        assert(distance(a, d, x) <= distance(a, d, y));
        assert(distance(b, d, y) <= distance(b, d, x));
        assert(a == b);
        lemma_nearest_unique(a, d, x, y);
    }
}

/// 2^k as a machine integer.
pub fn power_of_two(k: u32) -> (r: u128)
    requires
        k < 128,
    ensures
        r == pow2(k as nat),
{
    let mut r: u128 = 1;
    let mut i: u32 = 0;
    proof {
        lemma2_to64();
    }
    while i < k
        invariant
            i <= k < 128,
            r == pow2(i as nat),
        decreases k - i,
    {
        proof {
            lemma_pow2_unfold((i + 1) as nat);
            lemma_power_127();
            if i + 1 < 127 {
                lemma_pow2_strictly_increases((i + 1) as nat, 127);
            }
        }
        r = r * 2;
        i = i + 1;
    }
    r
}

proof fn lemma_power_127()
    ensures
        pow2(127) == 0x8000_0000_0000_0000_0000_0000_0000_0000,
{
    lemma2_to64();
    lemma2_to64_rest();
    lemma_pow2_adds(63, 64);
    assert(0x8000_0000_0000_0000 * 0x1_0000_0000_0000_0000
        == 0x8000_0000_0000_0000_0000_0000_0000_0000) by (nonlinear_arith);
}

/// The number of binary digits of `m`.
pub fn bit_length(m: u128) -> (len: u32)
    ensures
        len <= 128,
        m < pow2(len as nat),
        len > 0 ==> m >= pow2((len - 1) as nat),
{
    let mut len: u32 = 0;
    let mut rest: u128 = m;
    proof {
        lemma2_to64();
        assert(m == rest * pow2(0));
    }
    while rest > 0
        invariant
            rest * pow2(len as nat) <= m < (rest + 1) * pow2(len as nat),
            len > 0 ==> m >= pow2((len - 1) as nat),
            len <= 128,
        decreases rest,
    {
        proof {
            lemma_pow2_unfold((len + 1) as nat);
            lemma_pow2_pos(len as nat);
            let p = pow2(len as nat);
            let half = rest / 2;
            assert(m >= p) by (nonlinear_arith)
                requires
                    rest * p <= m,
                    rest >= 1,
            ;
            assert(half * (2 * p) <= m) by (nonlinear_arith)
                requires
                    2 * half <= rest,
                    rest * p <= m,
                    p > 0,
            ;
            assert(m < (half + 1) * (2 * p)) by (nonlinear_arith)
                requires
                    rest + 1 <= 2 * (half + 1),
                    m < (rest + 1) * p,
                    p > 0,
            ;
            if len == 128 {
                lemma_power_127();
                lemma_pow2_unfold(128);
            }
        }
        rest = rest / 2;
        len = len + 1;
    }
    assert((rest + 1) * pow2(len as nat) == pow2(len as nat)) by (nonlinear_arith)
        requires
            rest == 0,
    ;
    len
}

/// `n / d` lies in `[m, m + 1)` times 2^e, strictly inside when `sticky`.
pub open spec fn brackets(n: nat, d: nat, m: nat, e: int, sticky: bool) -> bool {
    let up = if e >= 0 { pow2(e as nat) } else { 1nat };
    let down = if e < 0 { pow2((-e) as nat) } else { 1nat };
    &&& d > 0
    &&& m * (up * d) <= n * down < (m + 1) * (up * d)
    &&& sticky <==> m * (up * d) < n * down
}

proof fn lemma_shift_left(m: nat, len: nat, shift: nat, e: nat)
    requires
        0 < m < pow2(len),
        len > 0,
        m >= pow2((len - 1) as nat),
        len + shift <= 53,
        shift <= e,
    ensures
        m * pow2(shift) < 2 * HIDDEN,
        len + shift == 53 ==> m * pow2(shift) >= HIDDEN,
        (m * pow2(shift)) * pow2((e - shift) as nat) == m * pow2(e),
{
    lemma2_to64();
    lemma2_to64_rest();
    lemma_pow2_pos(shift);
    lemma_pow2_adds(len, shift);
    lemma_pow2_adds((len - 1) as nat, shift);
    lemma_pow2_adds(shift, (e - shift) as nat);
    let p = pow2(shift);
    if len + shift < 53 {
        lemma_pow2_strictly_increases(len + shift, 53);
    }
    assert(m * p < pow2(len) * p) by (nonlinear_arith)
        requires
            m < pow2(len),
            p > 0,
    ;
    assert(m * p >= pow2((len - 1) as nat) * p) by (nonlinear_arith)
        requires
            m >= pow2((len - 1) as nat),
    ;
    let r = pow2((e - shift) as nat);
    assert((m * p) * r == m * (p * r)) by (nonlinear_arith);
}

proof fn lemma_below_half(n: nat, d: nat, m: nat, len: nat, s: nat)
    requires
        d > 0,
        m < pow2(len),
        s > len,
        n * pow2(s) < (m + 1) * (1 * d),
    ensures
        rounded(n, d) == 0,
{
    lemma2_to64();
    let h = pow2((s - 1) as nat);
    lemma_pow2_unfold(s);
    lemma_pow2_pos((s - 1) as nat);
    if len < s - 1 {
        lemma_pow2_strictly_increases(len, (s - 1) as nat);
    }
    assert(2 * n < d) by (nonlinear_arith)
        requires
            n * (2 * h) < (m + 1) * (1 * d),
            m + 1 <= h,
            h > 0,
            d > 0,
    ;
    lemma_compose(0, 0);
    lemma_compose(0, 1);
    assert(0 * (HIDDEN as nat) == 0);
    assert(magnitude(0) == 0 && magnitude(1) == 1);
    lemma_midpoint(n, d, 0, 0);
    lemma_rounded(n, d, 0);
}

proof fn lemma_quotient_size(m: nat, len: nat, s: nat, q: nat)
    requires
        m < pow2(len),
        0 < s <= len <= s + 53,
        m >= pow2((len - 1) as nat),
        q == m / pow2(s),
    ensures
        q < 2 * HIDDEN,
        len == s + 53 ==> q >= HIDDEN,
{
    lemma2_to64();
    lemma2_to64_rest();
    let p = pow2(s);
    lemma_pow2_pos(s);
    let k = (len - s) as nat;
    lemma_pow2_adds(k, s);
    lemma_fundamental_div_mod(m as int, p as int);
    lemma_mod_bound(m as int, p as int);
    assert(q < pow2(k)) by (nonlinear_arith)
        requires
            m < pow2(k) * p,
            m >= p * q,
            p > 0,
    ;
    if k < 53 {
        lemma_pow2_strictly_increases(k, 53);
    }
    if len == s + 53 {
        lemma_pow2_adds(52, s);
        assert(q >= HIDDEN) by (nonlinear_arith)
            requires
                m >= HIDDEN * p,
                m < p * q + p,
                p > 0,
        ;
    }
}

/// Where the exact number lies between a double and the next one.
proof fn lemma_split(n: nat, d: nat, m: nat, e: int, sticky: bool, s: nat, q: nat, rem: nat)
    requires
        brackets(n, d, m, e, sticky),
        s >= 1,
        e + s >= 0,
        m == pow2(s) * q + rem,
        rem < pow2(s),
        q < 2 * HIDDEN,
        e + s == 0 || q >= HIDDEN,
    ensures
        ({
            let lo = (e + s) as nat * (HIDDEN as nat) + q;
            let half = pow2((s - 1) as nat);
            let mid = (magnitude(lo) + magnitude(lo + 1)) * d;
            &&& magnitude(lo) * d <= n <= magnitude(lo + 1) * d
            &&& rem < half ==> 2 * n < mid
            &&& rem == half && !sticky ==> 2 * n == mid
            &&& rem == half && sticky ==> 2 * n > mid
            &&& rem > half ==> 2 * n > mid
        }),
{
    let up = if e >= 0 { pow2(e as nat) } else { 1nat };
    let down = if e < 0 { pow2((-e) as nat) } else { 1nat };
    let big = (e + s) as nat;
    let t = pow2(big);
    let p = pow2(s);
    let h = pow2((s - 1) as nat);
    let u = up * d;
    let nd = n * down;
    let lo = big * (HIDDEN as nat) + q;
    lemma_pow2_pos(e as nat);
    lemma_pow2_pos((-e) as nat);
    lemma_pow2_pos(big);
    lemma_pow2_pos(s);
    lemma_pow2_unfold(s);
    assert(t * down == up * p) by {
        if e >= 0 {
            lemma_pow2_adds(e as nat, s);
        } else {
            lemma_pow2_adds(big, (-e) as nat);
        }
    }
    lemma_compose(big, q);
    lemma_compose(big, q + 1);
    assert(u > 0) by (nonlinear_arith)
        requires
            u == up * d,
            up > 0,
            d > 0,
    ;
    let ml = magnitude(lo);
    let mh = magnitude(lo + 1);
    assert(ml == q * t && mh == (q + 1) * t);
    assert((ml * d) * down == (q * p) * u) by (nonlinear_arith)
        requires
            ml == q * t,
            t * down == up * p,
            u == up * d,
    ;
    assert((mh * d) * down == ((q + 1) * p) * u) by (nonlinear_arith)
        requires
            mh == (q + 1) * t,
            t * down == up * p,
            u == up * d,
    ;
    assert((q * p) * u <= m * u) by (nonlinear_arith)
        requires
            m == p * q + rem,
            u > 0,
    ;
    assert((m + 1) * u <= ((q + 1) * p) * u) by (nonlinear_arith)
        requires
            m == p * q + rem,
            rem + 1 <= p,
            u > 0,
    ;
    assert(ml * d <= n) by (nonlinear_arith)
        requires
            (ml * d) * down <= n * down,
            down > 0,
    ;
    assert(n <= mh * d) by (nonlinear_arith)
        requires
            n * down <= (mh * d) * down,
            down > 0,
    ;
    let mid = (ml + mh) * d;
    let delta = nd - m * u;
    assert(mid * down == (2 * q * p) * u + 2 * (h * u)) by (nonlinear_arith)
        requires
            mid == (ml + mh) * d,
            (ml * d) * down == (q * p) * u,
            (mh * d) * down == ((q + 1) * p) * u,
            p == 2 * h,
    ;
    assert(2 * nd == (2 * q * p) * u + 2 * (rem * u) + 2 * delta) by (nonlinear_arith)
        requires
            delta == nd - m * u,
            m == p * q + rem,
    ;
    assert((m + 1) * u == m * u + u) by (nonlinear_arith);
    assert(0 <= delta < u);
    if rem < h {
        assert(rem * u + u <= h * u) by (nonlinear_arith)
            requires
                rem + 1 <= h,
                u > 0,
        ;
    }
    if rem > h {
        assert(rem * u >= h * u + u) by (nonlinear_arith)
            requires
                rem >= h + 1,
                u > 0,
        ;
    }
    let n2 = 2 * n;
    assert(n2 * down == 2 * nd) by (nonlinear_arith)
        requires
            n2 == 2 * n,
            nd == n * down,
    ;
    assert((n2 * down < mid * down ==> n2 < mid) && (n2 * down > mid * down ==> n2 > mid) && (n2
        * down == mid * down ==> n2 == mid)) by (nonlinear_arith)
        requires
            down > 0,
    ;
}

proof fn lemma_past_infinity(n: nat, d: nat, lo: nat)
    requires
        d > 0,
        lo >= INF_BITS,
        magnitude(lo) * d <= n,
    ensures
        rounded(n, d) == INF_BITS,
{
    lemma_ordered(INF_BITS as nat, lo);
    let mi = magnitude(INF_BITS as nat);
    let ml = magnitude(lo);
    assert(ml * d >= mi * d) by (nonlinear_arith)
        requires
            ml >= mi,
    ;
    lemma_overflow(n, d);
    lemma_rounded(n, d, INF_BITS as nat);
}

/// Rounds a number known to its leading digits: `m` times 2^e, and a fraction
/// of 2^e more when `sticky`.
fn round_magnitude(
    m: u128,
    e: i32,
    sticky: bool,
    Ghost(n): Ghost<nat>,
    Ghost(d): Ghost<nat>,
) -> (r: u64)
    requires
        m < 0x8000_0000_0000_0000_0000_0000_0000_0000,
        brackets(n, d, m as nat, e as int, sticky),
        sticky ==> e < 0 || m >= 0x20_0000_0000_0000,
        -5000 < e < 5000,
    ensures
        r == rounded(n, d),
        r <= INF_BITS,
{
    let ghost up = if e >= 0 { pow2(e as nat) } else { 1nat };
    let ghost down = if e < 0 { pow2((-e) as nat) } else { 1nat };
    proof {
        lemma2_to64();
        lemma2_to64_rest();
        lemma_power_127();
        lemma_pow2_pos(e as nat);
        lemma_pow2_pos((-e) as nat);
    }
    if m == 0 && !sticky {
        proof {
            lemma_compose(0, 0);
            lemma_mul_basics((HIDDEN as nat) as int);
            lemma_mul_basics(pow2(0) as int);
            lemma_mul_basics((up * d) as int);
            lemma_mul_basics(d as int);
            assert(0 * (HIDDEN as nat) == 0 && 0 * pow2(0) == 0 && 0 * (up * d) == 0 && 0 * d == 0);
            assert(n == 0) by (nonlinear_arith)
                requires
                    n * down == 0,
                    down > 0,
            ;
            lemma_rounded_exact(0, d);
        }
        return 0;
    }
    let len: u32 = bit_length(m);
    proof {
        if len == 128 {
            assert(false);
        }
    }
    let a: i32 = len as i32 - 53;
    let b: i32 = -e;
    let s: i32 = if a > b { a } else { b };
    let big_e: i32 = e + s;
    if s <= 0 {
        let shift: u32 = (-s) as u32;
        proof {
            if sticky {
                if len < 53 {
                    lemma_pow2_strictly_increases(len as nat, 53);
                }
                assert(false);
            }
            lemma_shift_left(m as nat, len as nat, shift as nat, e as nat);
        }
        let p: u128 = power_of_two(shift);
        let q: u128 = m * p;
        let ghost lo_bits = big_e as nat * (HIDDEN as nat) + q as nat;
        proof {
            lemma_compose(big_e as nat, q as nat);
            assert(m * (up * d) == (m * up) * d) by (nonlinear_arith);
            assert(n == magnitude(lo_bits) * d);
        }
        if big_e >= 2047 {
            proof {
                assert(lo_bits >= INF_BITS) by (nonlinear_arith)
                    requires
                        lo_bits == big_e as nat * (HIDDEN as nat) + q as nat,
                        big_e >= 2047,
                ;
                lemma_past_infinity(n, d, lo_bits);
            }
            return INF_BITS;
        }
        let lo: u64 = big_e as u64 * HIDDEN + q as u64;
        if lo >= INF_BITS {
            proof {
                lemma_past_infinity(n, d, lo_bits);
            }
            return INF_BITS;
        }
        proof {
            lemma_rounded_exact(lo as nat, d);
        }
        return lo;
    }
    if s > len as i32 {
        // every digit falls below half of the smallest double
        proof {
            lemma_below_half(n, d, m as nat, len as nat, s as nat);
        }
        return 0;
    }
    let p: u128 = power_of_two(s as u32);
    let half: u128 = power_of_two((s - 1) as u32);
    proof {
        lemma_pow2_pos(s as nat);
    }
    let q: u128 = m / p;
    let rem: u128 = m % p;
    let go_up: bool = rem > half || (rem == half && (sticky || q % 2 == 1));
    proof {
        lemma_fundamental_div_mod(m as int, p as int);
        lemma_mod_bound(m as int, p as int);
        lemma_quotient_size(m as nat, len as nat, s as nat, q as nat);
        lemma_split(n, d, m as nat, e as int, sticky, s as nat, q as nat, rem as nat);
    }
    let ghost lo_bits = big_e as nat * (HIDDEN as nat) + q as nat;
    if big_e >= 2047 {
        proof {
            assert(lo_bits >= INF_BITS) by (nonlinear_arith)
                requires
                    lo_bits == big_e as nat * (HIDDEN as nat) + q as nat,
                    big_e >= 2047,
            ;
            lemma_past_infinity(n, d, lo_bits);
        }
        return INF_BITS;
    }
    let lo: u64 = big_e as u64 * HIDDEN + q as u64;
    if lo >= INF_BITS {
        proof {
            lemma_past_infinity(n, d, lo_bits);
        }
        return INF_BITS;
    }
    let r: u64 = if go_up { lo + 1 } else { lo };
    proof {
        assert(lo % 2 == q % 2);
        lemma_midpoint(n, d, lo as nat, r as nat);
        lemma_rounded(n, d, r as nat);
    }
    r
}

/// The sum of two numbers, rounded once.
pub open spec fn sum(a: Double, b: Double) -> Double {
    if a.nan() || b.nan() {
        Double { bits: NAN_BITS }
    } else if a.infinite() {
        if b.infinite() && a.negative() != b.negative() {
            Double { bits: NAN_BITS }
        } else {
            a
        }
    } else if b.infinite() {
        b
    } else {
        let s = a.value() + b.value();
        if s == 0 {
            signed(a.negative() && b.negative(), 0)
        } else if s > 0 {
            signed(false, rounded(s as nat, 1))
        } else {
            signed(true, rounded((-s) as nat, 1))
        }
    }
}

/// The number with the other sign.
pub open spec fn negated(a: Double) -> Double {
    signed(!a.negative(), a.abs_bits())
}

/// The product of two numbers, rounded once.
pub open spec fn product(a: Double, b: Double) -> Double {
    let negative = a.negative() != b.negative();
    if a.nan() || b.nan() || (a.infinite() && b.abs_bits() == 0) || (b.infinite() && a.abs_bits()
        == 0) {
        Double { bits: NAN_BITS }
    } else if a.infinite() || b.infinite() {
        signed(negative, INF_BITS as nat)
    } else {
        signed(negative, rounded(a.abs_value() * b.abs_value(), pow2(1074)))
    }
}

/// The quotient of two numbers, rounded once.
pub open spec fn quotient(a: Double, b: Double) -> Double {
    let negative = a.negative() != b.negative();
    if a.nan() || b.nan() || (a.infinite() && b.infinite()) || (a.abs_bits() == 0 && b.abs_bits()
        == 0) {
        Double { bits: NAN_BITS }
    } else if a.infinite() || b.abs_bits() == 0 {
        signed(negative, INF_BITS as nat)
    } else if b.infinite() {
        signed(negative, 0)
    } else {
        signed(negative, rounded(a.abs_value() * pow2(1074), b.abs_value()))
    }
}

/// The double nearest to an integer.
pub open spec fn of_int(n: nat) -> Double {
    signed(false, rounded(n * pow2(1074), 1))
}

fn pack(negative: bool, m: u64) -> (r: Double)
    requires
        m <= INF_BITS,
    ensures
        r == signed(negative, m as nat),
{
    Double {
        bits: if negative {
            SIGN + m
        } else {
            m
        },
    }
}

impl Double {
    fn abs(self) -> (m: u64)
        ensures
            m == self.abs_bits(),
            m < SIGN,
    {
        if self.bits >= SIGN {
            self.bits - SIGN
        } else {
            self.bits
        }
    }

    /// The significand and exponent.
    pub fn parts(self) -> (r: (u64, u32))
        ensures
            r.0 == significand(self.abs_bits()),
            r.1 == exponent(self.abs_bits()),
            r.0 < 2 * HIDDEN,
            r.1 > 0 ==> r.0 >= HIDDEN,
            self.abs_bits() <= INF_BITS ==> r.1 <= 2046,
            self.abs_bits() == 0 <==> r.0 == 0,
    {
        let m: u64 = self.abs();
        proof {
            lemma_parts(m as nat);
        }
        if m < HIDDEN {
            (m, 0)
        } else {
            let e: u64 = m / HIDDEN - 1;
            (m - e * HIDDEN, e as u32)
        }
    }

    pub fn is_nan(self) -> (r: bool)
        ensures
            r == self.nan(),
    {
        self.abs() > INF_BITS
    }

    pub fn is_finite(self) -> (r: bool)
        ensures
            r == self.finite(),
    {
        self.abs() < INF_BITS
    }

    /// A key that orders numbers: the bits, negated for negative numbers.
    fn key(self) -> (k: i64)
        ensures
            k == if self.negative() {
                -(self.abs_bits() as int)
            } else {
                self.abs_bits() as int
            },
    {
        let m: u64 = self.abs();
        if self.bits >= SIGN {
            -(m as i64)
        } else {
            m as i64
        }
    }

    /// `self < other` as numbers.
    pub fn num_lt(self, other: Double) -> (r: bool)
        ensures
            r == self.less(other),
    {
        proof {
            lemma_ordered(self.abs_bits(), other.abs_bits());
            lemma_ordered(other.abs_bits(), self.abs_bits());
            lemma_ordered(0, self.abs_bits());
            lemma_ordered(0, other.abs_bits());
            lemma_compose(0, 0);
        }
        !self.is_nan() && !other.is_nan() && self.key() < other.key()
    }

    /// `self == other` as numbers.
    pub fn num_eq(self, other: Double) -> (r: bool)
        ensures
            r == self.equals(other),
    {
        proof {
            lemma_ordered(self.abs_bits(), other.abs_bits());
            lemma_ordered(0, self.abs_bits());
            lemma_ordered(0, other.abs_bits());
            lemma_compose(0, 0);
        }
        !self.is_nan() && !other.is_nan() && self.key() == other.key()
    }

    pub fn neg(self) -> (r: Double)
        ensures
            r == negated(self),
    {
        let m: u64 = self.abs();
        Double {
            bits: if self.bits >= SIGN {
                m
            } else {
                SIGN + m
            },
        }
    }

    pub fn from_u64(n: u64) -> (r: Double)
        ensures
            r == of_int(n as nat),
    {
        Double::from_u128(n as u128)
    }

    pub fn from_u128(n: u128) -> (r: Double)
        requires
            n < 0x8000_0000_0000_0000_0000_0000_0000_0000,
        ensures
            r == of_int(n as nat),
    {
        let ghost big = n as nat * pow2(1074);
        proof {
            lemma_pow2_pos(1074);
            assert(n as nat * (pow2(1074) * 1) == big * 1);
            assert((n as nat + 1) * pow2(1074) > big) by (nonlinear_arith)
                requires
                    big == n as nat * pow2(1074),
                    pow2(1074) > 0,
            ;
        }
        let m: u64 = round_magnitude(n, 1074, false, Ghost(big), Ghost(1));
        pack(false, m)
    }

    /// The correctly rounded sum.
    pub fn plus(self, other: Double) -> (r: Double)
        ensures
            r == sum(self, other),
    {
        if self.is_nan() || other.is_nan() {
            return Double { bits: NAN_BITS };
        }
        let ma: u64 = self.abs();
        let mb: u64 = other.abs();
        let na: bool = self.bits >= SIGN;
        let nb: bool = other.bits >= SIGN;
        if ma == INF_BITS {
            if mb == INF_BITS && na != nb {
                return Double { bits: NAN_BITS };
            }
            return self;
        }
        if mb == INF_BITS {
            return other;
        }
        proof {
            lemma_ordered(ma as nat, mb as nat);
            lemma_ordered(0, ma as nat);
            lemma_ordered(0, mb as nat);
            lemma_compose(0, 0);
        }
        if ma == mb && na != nb {
            return Double { bits: 0 };
        }
        if ma == 0 && mb == 0 {
            return pack(na && nb, 0);
        }
        if ma >= mb {
            let m: u64 = add_magnitudes(self, other, na == nb);
            pack(na, m)
        } else {
            let m: u64 = add_magnitudes(other, self, na == nb);
            pack(nb, m)
        }
    }

    /// The correctly rounded difference.
    pub fn minus(self, other: Double) -> (r: Double)
        ensures
            r == sum(self, negated(other)),
    {
        self.plus(other.neg())
    }

    /// The correctly rounded product.
    pub fn times(self, other: Double) -> (r: Double)
        ensures
            r == product(self, other),
    {
        if self.is_nan() || other.is_nan() {
            return Double { bits: NAN_BITS };
        }
        let ma: u64 = self.abs();
        let mb: u64 = other.abs();
        let negative: bool = (self.bits >= SIGN) != (other.bits >= SIGN);
        if (ma == INF_BITS && mb == 0) || (mb == INF_BITS && ma == 0) {
            return Double { bits: NAN_BITS };
        }
        if ma == INF_BITS || mb == INF_BITS {
            return pack(negative, INF_BITS);
        }
        let (qa, ea) = self.parts();
        let (qb, eb) = other.parts();
        let ghost n = self.abs_value() * other.abs_value();
        proof {
            assert(qa as nat * qb as nat <= 0x1f_ffff_ffff_ffff * 0x1f_ffff_ffff_ffff)
                by (nonlinear_arith)
                requires
                    qa <= 0x1f_ffff_ffff_ffff,
                    qb <= 0x1f_ffff_ffff_ffff,
            ;
        }
        let m: u128 = qa as u128 * qb as u128;
        let e: i32 = ea as i32 + eb as i32 - 1074;
        proof {
            lemma_product_brackets(qa as nat, ea as nat, qb as nat, eb as nat);
        }
        let r: u64 = round_magnitude(m, e, false, Ghost(n), Ghost(pow2(1074)));
        pack(negative, r)
    }

    /// The correctly rounded quotient.
    pub fn over(self, other: Double) -> (r: Double)
        ensures
            r == quotient(self, other),
    {
        if self.is_nan() || other.is_nan() {
            return Double { bits: NAN_BITS };
        }
        let ma: u64 = self.abs();
        let mb: u64 = other.abs();
        let negative: bool = (self.bits >= SIGN) != (other.bits >= SIGN);
        if (ma == INF_BITS && mb == INF_BITS) || (ma == 0 && mb == 0) {
            return Double { bits: NAN_BITS };
        }
        if ma == INF_BITS || mb == 0 {
            return pack(negative, INF_BITS);
        }
        if mb == INF_BITS {
            return pack(negative, 0);
        }
        let (qb, eb) = other.parts();
        let ghost n = self.abs_value() * pow2(1074);
        let ghost d = other.abs_value();
        proof {
            lemma_ordered(0, mb as nat);
            lemma_compose(0, 0);
        }
        if ma == 0 {
            proof {
                assert(self.abs_value() == 0);
                assert(0 * pow2(1074) == 0);
                lemma_rounded_exact(0, d);
                assert(0 * d == 0);
            }
            return pack(negative, 0);
        }
        let (q0, ea) = self.parts();
        let mut qa: u64 = q0;
        let mut k: i32 = 0;
        proof {
            lemma2_to64();
            lemma2_to64_rest();
            assert(q0 * pow2(0) == q0) by (nonlinear_arith)
                requires
                    pow2(0) == 1,
            ;
        }
        while qa < HIDDEN
            invariant
                0 < q0,
                0 <= k <= 53,
                qa == q0 * pow2(k as nat),
                qa < 2 * HIDDEN,
                pow2(0) == 1,
                q0 < 2 * HIDDEN,
                pow2(53) == 2 * HIDDEN,
            decreases 2 * HIDDEN - qa,
        {
            proof {
                lemma_pow2_unfold((k + 1) as nat);
                let p = pow2(k as nat);
                assert(q0 * (2 * p) == 2 * (q0 * p)) by (nonlinear_arith);
                assert(q0 * p >= p) by (nonlinear_arith)
                    requires
                        q0 > 0,
                ;
                lemma2_to64();
                lemma2_to64_rest();
                if k >= 53 {
                    assert(false);
                }
            }
            qa = qa * 2;
            k = k + 1;
        }
        let wide: u128 = qa as u128 * 0x400_0000_0000_0000_0000;
        proof {
            lemma2_to64_rest();
            lemma_pow2_adds(64, 10);
        }
        let m: u128 = wide / qb as u128;
        let rem: u128 = wide % qb as u128;
        let e: i32 = ea as i32 - k - eb as i32 + 1000;
        proof {
            lemma_fundamental_div_mod(wide as int, qb as int);
            assert(m * qb == qb * m) by (nonlinear_arith);
            lemma_quotient_brackets(
                q0 as nat,
                ea as nat,
                k as nat,
                qb as nat,
                eb as nat,
                m as nat,
                rem as nat,
            );
            assert(m >= 0x20_0000_0000_0000) by (nonlinear_arith)
                requires
                    wide == m * qb + rem,
                    rem < qb,
                    qb < 0x20_0000_0000_0000,
                    wide >= 0x10_0000_0000_0000 * 0x400_0000_0000_0000_0000,
            ;
            assert(m <= wide) by (nonlinear_arith)
                requires
                    wide == m * qb + rem,
                    qb >= 1,
            ;
        }
        let r: u64 = round_magnitude(m, e, rem != 0, Ghost(n), Ghost(d));
        pack(negative, r)
    }
}

proof fn lemma_product_brackets(qa: nat, ea: nat, qb: nat, eb: nat)
    ensures
        brackets(
            (qa * pow2(ea)) * (qb * pow2(eb)),
            pow2(1074),
            qa * qb,
            ea + eb - 1074,
            false,
        ),
{
    let e = ea + eb - 1074;
    let up = if e >= 0 { pow2(e as nat) } else { 1nat };
    let down = if e < 0 { pow2((-e) as nat) } else { 1nat };
    let big = pow2(1074);
    let pa = pow2(ea);
    let pb = pow2(eb);
    let n = (qa * pa) * (qb * pb);
    lemma_pow2_pos(e as nat);
    lemma_pow2_pos((-e) as nat);
    lemma_pow2_pos(1074);
    lemma_pow2_adds(ea, eb);
    assert(up * big == (pa * pb) * down) by {
        if e >= 0 {
            lemma_pow2_adds(e as nat, 1074);
        } else {
            lemma_pow2_adds(ea + eb, (-e) as nat);
        }
    }
    assert((qa * qb) * (up * big) == n * down) by (nonlinear_arith)
        requires
            up * big == (pa * pb) * down,
            n == (qa * pa) * (qb * pb),
    ;
    let u = up * big;
    assert(u > 0) by (nonlinear_arith)
        requires
            u == up * big,
            up > 0,
            big > 0,
    ;
    assert((qa * qb + 1) * u == (qa * qb) * u + u) by (nonlinear_arith);
}

proof fn lemma_quotient_brackets(q0: nat, ea: nat, k: nat, qb: nat, eb: nat, m: nat, rem: nat)
    requires
        qb > 0,
        rem < qb,
        (q0 * pow2(k)) * pow2(74) == m * qb + rem,
    ensures
        brackets(
            (q0 * pow2(ea)) * pow2(1074),
            qb * pow2(eb),
            m,
            ea - k - eb + 1000,
            rem != 0,
        ),
{
    let e = ea - k - eb + 1000;
    let up = if e >= 0 { pow2(e as nat) } else { 1nat };
    let down = if e < 0 { pow2((-e) as nat) } else { 1nat };
    let n = (q0 * pow2(ea)) * pow2(1074);
    let d = qb * pow2(eb);
    lemma_pow2_pos(e as nat);
    lemma_pow2_pos((-e) as nat);
    lemma_pow2_pos(eb);
    let pk = pow2(k);
    let p74 = pow2(74);
    let pb = pow2(eb);
    let pa = pow2(ea);
    let pbig = pow2(1074);
    // both sides are the same power of two
    assert(((pk * p74) * pb) * up == (pa * pbig) * down) by {
        lemma_pow2_adds(k, 74);
        lemma_pow2_adds(k + 74, eb);
        lemma_pow2_adds(ea, 1074);
        if e >= 0 {
            lemma_pow2_adds(k + 74 + eb, e as nat);
        } else {
            lemma_pow2_adds(ea + 1074, (-e) as nat);
        }
    }
    let g = up * pb;
    assert(g > 0) by (nonlinear_arith)
        requires
            g == up * pb,
            up > 0,
            pb > 0,
    ;
    assert(d > 0) by (nonlinear_arith)
        requires
            d == qb * pb,
            qb > 0,
            pb > 0,
    ;
    assert(((q0 * pk) * p74) * (up * pb) == q0 * (((pk * p74) * pb) * up)) by (nonlinear_arith);
    assert(q0 * ((pa * pbig) * down) == ((q0 * pa) * pbig) * down) by (nonlinear_arith);
    assert(m * (up * d) == (m * qb) * g) by (nonlinear_arith)
        requires
            d == qb * pb,
            g == up * pb,
    ;
    assert((m + 1) * (up * d) == (m * qb + qb) * g) by (nonlinear_arith)
        requires
            d == qb * pb,
            g == up * pb,
    ;
    let w = m * qb;
    assert((w + rem) * g == w * g + rem * g) by (nonlinear_arith);
    assert((w + qb) * g == w * g + qb * g) by (nonlinear_arith);
    assert(rem * g < qb * g) by (nonlinear_arith)
        requires
            rem < qb,
            g > 0,
    ;
    assert(rem * g > 0 <==> rem > 0) by (nonlinear_arith)
        requires
            g > 0,
    ;
}

/// The sum, or the difference, of two magnitudes, the first one not the
/// smaller, rounded.
fn add_magnitudes(big: Double, small: Double, add: bool) -> (r: u64)
    requires
        big.finite(),
        small.finite(),
        big.abs_bits() >= small.abs_bits(),
        big.abs_value() >= small.abs_value(),
        big.abs_bits() > 0,
    ensures
        r <= INF_BITS,
        add ==> r == rounded(big.abs_value() + small.abs_value(), 1),
        !add ==> r == rounded((big.abs_value() - small.abs_value()) as nat, 1),
{
    let (qb, eb) = big.parts();
    let (qs, es) = small.parts();
    let ghost n = if add {
        big.abs_value() + small.abs_value()
    } else {
        (big.abs_value() - small.abs_value()) as nat
    };
    proof {
        lemma_parts(big.abs_bits());
        lemma_parts(small.abs_bits());
        if es > eb {
            assert(big.abs_bits() < small.abs_bits()) by (nonlinear_arith)
                requires
                    big.abs_bits() == eb * HIDDEN + qb,
                    small.abs_bits() == es * HIDDEN + qs,
                    es >= eb + 1,
                    qb < 2 * HIDDEN,
                    qs >= HIDDEN,
            ;
        }
        lemma2_to64();
        lemma2_to64_rest();
        lemma_pow2_adds(64, 9);
        lemma_pow2_pos(es as nat);
        lemma_pow2_pos(eb as nat);
    }
    let gap: u32 = eb - es;
    if gap <= 73 {
        let p: u128 = power_of_two(gap);
        proof {
            if gap < 73 {
                lemma_pow2_strictly_increases(gap as nat, 73);
            }
            assert(qb as nat * p as nat <= 0x1f_ffff_ffff_ffff * 0x200_0000_0000_0000_0000)
                by (nonlinear_arith)
                requires
                    qb <= 0x1f_ffff_ffff_ffff,
                    p <= 0x200_0000_0000_0000_0000,
            ;
            lemma_pow2_adds(gap as nat, es as nat);
            let t = pow2(es as nat);
            assert((qb * p) * t == qb * (p * t)) by (nonlinear_arith);
            assert((qb * p + qs) * t == (qb * p) * t + qs * t) by (nonlinear_arith);
            assert((qb * p - qs) * t == (qb * p) * t - qs * t) by (nonlinear_arith);
            assert(qb * p >= qs) by (nonlinear_arith)
                requires
                    (qb * p) * t >= qs * t,
                    t > 0,
            ;
        }
        let m: u128 = if add {
            qb as u128 * p + qs as u128
        } else {
            qb as u128 * p - qs as u128
        };
        proof {
            let t = pow2(es as nat);
            assert(n == m * t);
            assert(m * (t * 1) == n * 1);
            assert((m + 1) * t == m * t + t) by (nonlinear_arith);
        }
        return round_magnitude(m, es as i32, false, Ghost(n), Ghost(1));
    }
    let wide: u128 = qb as u128 * 0x20_0000;
    let ghost e = eb - 21;
    let ghost t = pow2(e as nat);
    let ghost low = qs * pow2(es as nat);
    proof {
        lemma_pow2_pos(e as nat);
        lemma_pow2_adds(21, e as nat);
        assert(qb * (0x20_0000 * t) == wide * t) by (nonlinear_arith)
            requires
                wide == qb * 0x20_0000,
        ;
        lemma_pow2_adds(53, es as nat);
        if 53 + es < e {
            lemma_pow2_strictly_increases((53 + es) as nat, e as nat);
        }
        assert(low < t) by (nonlinear_arith)
            requires
                low == qs * pow2(es as nat),
                qs < pow2(53),
                pow2(53) * pow2(es as nat) <= t,
                pow2(es as nat) > 0,
        ;
        assert(low > 0 <==> qs > 0) by (nonlinear_arith)
            requires
                low == qs * pow2(es as nat),
                pow2(es as nat) > 0,
        ;
    }
    let m: u128 = if add || qs == 0 {
        wide
    } else {
        wide - 1
    };
    proof {
        assert((wide + 1) * t == wide * t + t) by (nonlinear_arith);
        assert((wide - 1) * t == wide * t - t) by (nonlinear_arith);
    }
    round_magnitude(m, eb as i32 - 21, qs != 0, Ghost(n), Ghost(1))
}

/// One in units of 2^-1074.
pub proof fn lemma_one()
    ensures
        magnitude(ONE_BITS as nat) == pow2(1074),
        of_int(1) == (Double { bits: ONE_BITS }),
        of_int(0) == (Double { bits: 0 }),
{
    lemma2_to64();
    lemma2_to64_rest();
    lemma_pow2_adds(52, 1022);
    lemma_compose(1022, HIDDEN as nat);
    assert(1022 * (HIDDEN as nat) + HIDDEN == ONE_BITS);
    lemma_rounded_exact(ONE_BITS as nat, 1);
    assert(1 * pow2(1074) == pow2(1074));
    assert(magnitude(ONE_BITS as nat) * 1 == pow2(1074));
    lemma_compose(0, 0);
    assert(0 * (HIDDEN as nat) + 0 == 0 && 0 * pow2(0) == 0);
    lemma_rounded_exact(0, 1);
    assert(0 * pow2(1074) == 0);
    assert(magnitude(0) * 1 == 0);
}

/// The bits 0 are the number zero.
pub proof fn lemma_zero()
    ensures
        magnitude(0) == 0,
        (Double { bits: 0 }).value() == 0,
        (Double { bits: 0 }).finite(),
{
    lemma_compose(0, 0);
    assert(0 * (HIDDEN as nat) + 0 == 0 && 0 * pow2(0) == 0);
}

/// Adding a number to zero gives the number.
pub proof fn lemma_add_to_zero(v: Double)
    requires
        !v.nan(),
    ensures
        sum(Double { bits: 0 }, v).equals(v),
        !sum(Double { bits: 0 }, v).nan(),
        v.abs_bits() != 0 ==> sum(Double { bits: 0 }, v) == v,
{
    let zero = Double { bits: 0 };
    lemma_compose(0, 0);
    assert(0 * (HIDDEN as nat) + 0 == 0 && 0 * pow2(0) == 0);
    assert(zero.value() == 0);
    if !v.infinite() {
        lemma_rounded_exact(v.abs_bits(), 1);
        assert(magnitude(v.abs_bits()) * 1 == magnitude(v.abs_bits()));
        lemma_ordered(0, v.abs_bits());
    }
}

/// Dividing a number by one gives the number.
pub proof fn lemma_over_one(v: Double)
    requires
        !v.nan(),
    ensures
        quotient(v, Double { bits: ONE_BITS }) == v,
{
    lemma_one();
    lemma_pow2_pos(1074);
    lemma_rounded_exact(v.abs_bits(), pow2(1074));
}

/// Multiplying a number by one gives the number.
pub proof fn lemma_times_one(v: Double)
    requires
        !v.nan(),
    ensures
        product(v, Double { bits: ONE_BITS }) == v,
{
    lemma_one();
    lemma_pow2_pos(1074);
    lemma_rounded_exact(v.abs_bits(), pow2(1074));
}

/// One less something that is not negative is at most one.
pub proof fn lemma_one_less(x: Double)
    requires
        x.finite(),
        0 <= x.value() <= pow2(1074),
    ensures
        ({
            let r = sum(Double { bits: ONE_BITS }, negated(x));
            r.finite() && 0 <= r.value() <= pow2(1074)
        }),
{
    let one = Double { bits: ONE_BITS };
    lemma_one();
    lemma_pow2_pos(1074);
    let n = negated(x);
    assert(n.value() == -x.value());
    let s = one.value() + n.value();
    lemma_compose(0, 0);
    assert(0 * (HIDDEN as nat) + 0 == 0 && 0 * pow2(0) == 0);
    if s > 0 {
        lemma_rounded_monotone(s as nat, pow2(1074), 1);
        lemma_rounded_exact(ONE_BITS as nat, 1);
        assert(magnitude(ONE_BITS as nat) * 1 == pow2(1074));
        let r = rounded(s as nat, 1);
        assert(r <= ONE_BITS);
        lemma_ordered(r, ONE_BITS as nat);
    }
}

/// Small multiples of a power of two are magnitudes.
proof fn lemma_multiple(j: nat, e: nat, steps: nat) -> (m: nat)
    requires
        0 < j <= 2 * HIDDEN,
        steps <= e <= 2045,
        j * pow2(steps) >= HIDDEN,
    ensures
        m <= INF_BITS,
        magnitude(m) == j * pow2(e),
    decreases steps,
{
    lemma2_to64();
    if j >= HIDDEN {
        lemma_compose(e, j);
        assert(e * (HIDDEN as nat) + j <= INF_BITS) by (nonlinear_arith)
            requires
                e <= 2045,
                j <= 2 * HIDDEN,
                HIDDEN == 0x10_0000_0000_0000u64,
                INF_BITS == 0x7ff0_0000_0000_0000u64,
        ;
        e * (HIDDEN as nat) + j
    } else {
        assert(steps > 0) by {
            if steps == 0 {
                assert(j * 1 == j);
            }
        }
        lemma_pow2_unfold(steps);
        lemma_pow2_unfold(e);
        let a = pow2((steps - 1) as nat);
        let b = pow2((e - 1) as nat);
        assert((2 * j) * a == j * (2 * a)) by (nonlinear_arith);
        assert((2 * j) * b == j * (2 * b)) by (nonlinear_arith);
        lemma_multiple(2 * j, (e - 1) as nat, (steps - 1) as nat)
    }
}

/// Rounding is off by half of 2^e at most, for a number up to 2^(e + 53).
pub proof fn lemma_rounding_error(n: nat, d: nat, e: nat)
    requires
        d > 0,
        52 <= e <= 2045,
        n <= 2 * HIDDEN * (pow2(e) * d),
    ensures
        2 * distance(n, d, rounded(n, d)) <= pow2(e) * d,
        rounded(n, d) <= INF_BITS,
{
    lemma2_to64();
    lemma2_to64_rest();
    lemma_nearest_exists(n, d);
    lemma_pow2_pos(e);
    let p = pow2(e);
    let u = p * d;
    assert(u > 0) by (nonlinear_arith)
        requires
            u == p * d,
            p > 0,
            d > 0,
    ;
    let j = (2 * n + u) / (2 * u);
    lemma_fundamental_div_mod((2 * n + u) as int, (2 * u) as int);
    lemma_mod_bound((2 * n + u) as int, (2 * u) as int);
    let r = (2 * n + u) % (2 * u);
    assert(2 * n - 2 * (j * u) == r - u) by (nonlinear_arith)
        requires
            2 * n + u == (2 * u) * j + r,
    ;
    assert(j <= 2 * HIDDEN) by (nonlinear_arith)
        requires
            2 * n - 2 * (j * u) >= -(u as int),
            n <= 2 * HIDDEN * u,
            u > 0,
            j >= 0,
    ;
    let m = if j == 0 {
        lemma_zero();
        assert(0 * p == 0);
        0
    } else {
        assert(j * pow2(52) >= HIDDEN) by (nonlinear_arith)
            requires
                j >= 1,
                pow2(52) == HIDDEN,
        ;
        lemma_multiple(j, e, 52)
    };
    assert(magnitude(m) == j * p);
    assert((j * p) * d == j * u) by (nonlinear_arith)
        requires
            u == p * d,
    ;
    assert(distance(n, d, rounded(n, d)) <= distance(n, d, m));
}

/// Whole numbers up to 2^53 are doubles.
pub proof fn lemma_of_int(n: nat)
    requires
        n <= 2 * HIDDEN,
    ensures
        of_int(n).finite(),
        !of_int(n).negative(),
        of_int(n).abs_value() == n * pow2(1074),
        of_int(n).abs_bits() == 0 <==> n == 0,
{
    lemma2_to64();
    lemma2_to64_rest();
    lemma_zero();
    let p = pow2(1074);
    lemma_pow2_pos(1074);
    if n == 0 {
        lemma_rounded_exact(0, 1);
        assert(0 * p == 0);
        assert(magnitude(0) * 1 == 0);
    } else {
        assert(n * pow2(52) >= HIDDEN) by (nonlinear_arith)
            requires
                n >= 1,
                pow2(52) == HIDDEN,
        ;
        let m = lemma_multiple(n, 1074, 52);
        lemma_rounded_exact(m, 1);
        assert(magnitude(m) * 1 == magnitude(m));
        lemma_compose(2046, HIDDEN as nat);
        assert(2046 * (HIDDEN as nat) + HIDDEN == INF_BITS);
        lemma_pow2_adds(972, 1074);
        lemma_pow2_strictly_increases(52, 972);
        let q = pow2(972);
        assert(n * p < HIDDEN * (q * p)) by (nonlinear_arith)
            requires
                n <= 2 * HIDDEN,
                q > HIDDEN,
                HIDDEN == 0x10_0000_0000_0000u64,
                p > 0,
        ;
        lemma_ordered(m, INF_BITS as nat);
        assert(n * p > 0) by (nonlinear_arith)
            requires
                n > 0,
                p > 0,
        ;
        lemma_ordered(0, m);
    }
}

/// A fraction rounds to a magnitude.
pub proof fn lemma_nearest_of(n: nat, d: nat)
    requires
        d > 0,
    ensures
        nearest(n, d, rounded(n, d)),
        rounded(n, d) <= INF_BITS,
{
    lemma_nearest_exists(n, d);
}

/// Both sides of a fraction can be multiplied by one number.
pub proof fn lemma_nearest_scaled(n: nat, d: nat, c: nat, m: nat)
    requires
        c > 0,
        nearest(n * c, d * c, m),
    ensures
        nearest(n, d, m),
{
    assert forall|k: nat| #[trigger] distance(n, d, k) * c == distance(n * c, d * c, k) by {
        let g = magnitude(k);
        assert(n * c - g * (d * c) == (n - g * d) * c) by (nonlinear_arith);
        let gap = n - g * d;
        assert(gap < 0 <==> gap * c < 0) by (nonlinear_arith)
            requires
                c > 0,
        ;
        assert((-gap) * c == -(gap * c)) by (nonlinear_arith);
    }
    assert forall|k: nat| #![trigger distance(n, d, k)] k <= INF_BITS implies distance(n, d, m)
        <= distance(n, d, k) by {
        let (x, y) = (distance(n, d, m), distance(n, d, k));
        assert(x * c == distance(n * c, d * c, m));
        assert(distance(n * c, d * c, m) <= distance(n * c, d * c, k));
        assert(x <= y) by (nonlinear_arith)
            requires
                x * c <= y * c,
                c > 0,
        ;
    }
    assert forall|k: nat|
        #![trigger distance(n, d, k)]
        k <= INF_BITS && k != m && distance(n, d, k) == distance(n, d, m) implies m % 2 == 0 by {
        assert(distance(n * c, d * c, k) == distance(n * c, d * c, m));
    }
}

/// The quotient of two whole numbers is the double nearest to it.
pub proof fn lemma_ratio(a: nat, b: nat)
    requires
        a <= 2 * HIDDEN,
        0 < b <= 2 * HIDDEN,
    ensures
        ({
            let q = quotient(of_int(a), of_int(b));
            &&& !q.nan()
            &&& !q.negative()
            &&& nearest(a * pow2(1074), b, q.abs_bits())
        }),
{
    let p = pow2(1074);
    lemma_pow2_pos(1074);
    lemma_of_int(a);
    lemma_of_int(b);
    let n = (a * p) * p;
    let d = b * p;
    assert(d > 0) by (nonlinear_arith)
        requires
            d == b * p,
            b > 0,
            p > 0,
    ;
    lemma_nearest_exists(n, d);
    lemma_nearest_scaled(a * p, b, p, rounded(n, d));
}

/// The product of two whole numbers is exact while it is small.
pub proof fn lemma_times_int(a: nat, b: nat)
    requires
        a <= 2 * HIDDEN,
        b <= 2 * HIDDEN,
        a * b <= 2 * HIDDEN,
    ensures
        product(of_int(a), of_int(b)) == of_int(a * b),
{
    let p = pow2(1074);
    lemma_pow2_pos(1074);
    lemma_of_int(a);
    lemma_of_int(b);
    let n = (a * p) * (b * p);
    lemma_nearest_exists(n, p);
    assert(n == ((a * b) * p) * p && 1 * p == p) by (nonlinear_arith)
        requires
            n == (a * p) * (b * p),
    ;
    lemma_nearest_scaled((a * b) * p, 1, p, rounded(n, p));
    lemma_rounded((a * b) * p, 1, rounded(n, p));
}

/// Counting up by one is exact.
pub proof fn lemma_count_up(k: nat)
    requires
        k < 2 * HIDDEN,
    ensures
        sum(of_int(k), Double { bits: ONE_BITS }) == of_int(k + 1),
{
    let p = pow2(1074);
    lemma_pow2_pos(1074);
    lemma_one();
    lemma_of_int(k);
    assert(k * p + p == (k + 1) * p) by (nonlinear_arith);
    assert((k + 1) * p > 0) by (nonlinear_arith)
        requires
            p > 0,
    ;
}

/// A fraction is nearest to a magnitude that is less than half a step away.
pub proof fn lemma_nearest_by(n: nat, d: nat, m: nat, s: nat)
    requires
        d > 0,
        0 < m < INF_BITS,
        exponent((m - 1) as nat) == exponent(m) == exponent(m + 1),
        exponent(m) + s == 1074,
        -(d as int) < 2 * (n * pow2(s) - d * significand(m)) < d,
    ensures
        nearest(n * pow2(1074), d, m),
{
    let (e, q) = (exponent(m), significand(m));
    let p = pow2(e);
    lemma_pow2_pos(e);
    lemma_pow2_adds(s, e);
    lemma_parts(m);
    lemma_parts((m - 1) as nat);
    let x = n * pow2(s);
    let w = n * pow2(1074);
    assert(w == x * p) by (nonlinear_arith)
        requires
            w == n * pow2(1074),
            x == n * pow2(s),
            pow2(s) * p == pow2(1074),
    ;
    assert(significand(m + 1) == q + 1);
    assert(significand((m - 1) as nat) == q - 1);
    let y = d * q;
    assert((q * p) * d == y * p) by (nonlinear_arith)
        requires
            y == d * q,
    ;
    assert(((q + 1) * p) * d == y * p + d * p) by (nonlinear_arith)
        requires
            y == d * q,
    ;
    assert(((q - 1) * p) * d == y * p - d * p) by (nonlinear_arith)
        requires
            y == d * q,
    ;
    let (mh, ml) = (magnitude(m + 1), magnitude((m - 1) as nat));
    let mm = magnitude(m);
    if x >= y {
        assert(y * p <= x * p && 2 * (x * p) < 2 * (y * p) + d * p) by (nonlinear_arith)
            requires
                y <= x,
                2 * (x - y) < d,
                p > 0,
        ;
        assert((mm + mh) * d == mm * d + mh * d) by (nonlinear_arith);
        lemma_midpoint(w, d, m, m);
    } else {
        assert(x * p <= y * p && 2 * (x * p) > 2 * (y * p) - d * p) by (nonlinear_arith)
            requires
                x <= y,
                2 * (x - y) > -(d as int),
                p > 0,
        ;
        assert((ml + mm) * d == ml * d + mm * d) by (nonlinear_arith);
        lemma_midpoint(w, d, (m - 1) as nat, m);
    }
}

/// A number over a whole number is the double nearest to that.
pub proof fn lemma_over_int(a: Double, b: nat)
    requires
        a.finite(),
        !a.negative(),
        0 < b <= 2 * HIDDEN,
    ensures
        !quotient(a, of_int(b)).nan(),
        !quotient(a, of_int(b)).negative(),
        nearest(a.abs_value(), b, quotient(a, of_int(b)).abs_bits()),
{
    let p = pow2(1074);
    lemma_pow2_pos(1074);
    lemma_of_int(b);
    let n = a.abs_value() * p;
    let d = b * p;
    assert(d > 0) by (nonlinear_arith)
        requires
            d == b * p,
            b > 0,
            p > 0,
    ;
    lemma_nearest_exists(n, d);
    lemma_nearest_scaled(a.abs_value(), b, p, rounded(n, d));
}

} // verus!
