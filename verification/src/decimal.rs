//! Decimal notation of doubles: reading one, correctly rounded, and writing
//! one with a fixed number of places.
use crate::double;
use crate::double::{Double, HIDDEN, INF_BITS, NAN_BITS, SIGN, power_of_two};
use crate::natural::Natural;
use crate::text;
use crate::text::{chars_of, find_char, decimal_u64, same, slice_string, to_lower};
use vstd::arithmetic::div_mod::*;
use vstd::arithmetic::power2::*;
use vstd::prelude::*;
use vstd::string::*;

verus! {

/// 10^k
pub open spec fn pow10(k: nat) -> nat
    decreases k,
{
    if k == 0 {
        1
    } else {
        10 * pow10((k - 1) as nat)
    }
}

/// The bits of the magnitude that `m * 10^e` rounds to.
pub open spec fn decimal_rounded(m: nat, e: int) -> nat {
    if e >= 0 {
        double::rounded(m * pow10(e as nat) * pow2(1074), 1)
    } else {
        double::rounded(m * pow2(1074), pow10((-e) as nat))
    }
}

/// What an optional sign and digits stand for.
pub open spec fn signed_digits(s: Seq<char>) -> Option<int> {
    let digits = if s.len() > 0 && (s[0] == '+' || s[0] == '-') {
        s.drop_first()
    } else {
        s
    };
    if digits.len() > 0 && text::all_digits(digits) {
        if s[0] == '-' {
            Some(-(text::digits_value(digits) as int))
        } else {
            Some(text::digits_value(digits) as int)
        }
    } else {
        None
    }
}

/// The digits before an exponent and those behind its `e`.
pub open spec fn mantissa(s: Seq<char>) -> Seq<char> {
    s.take(text::find(s, 'e'))
}

/// The digits before the point.
pub open spec fn whole(m: Seq<char>) -> Seq<char> {
    m.take(text::find(m, '.'))
}

/// The digits behind the point.
pub open spec fn fraction(m: Seq<char>) -> Seq<char> {
    if text::find(m, '.') < m.len() {
        m.skip(text::find(m, '.') + 1)
    } else {
        Seq::empty()
    }
}

/// A number in lower case as `(m, e)` for `m * 10^e`: digits with at most one
/// point among them, then `e` and a signed exponent if there is one.
pub open spec fn number(s: Seq<char>) -> Option<(nat, int)> {
    let m = mantissa(s);
    let digits = whole(m) + fraction(m);
    let exp = if text::find(s, 'e') < s.len() {
        signed_digits(s.skip(text::find(s, 'e') + 1))
    } else {
        Some(0int)
    };
    if digits.len() > 0 && text::all_digits(digits) && exp is Some {
        Some((text::digits_value(digits), exp->0 - fraction(m).len()))
    } else {
        None
    }
}

/// What a text reads as: a number, `inf`, `infinity` or `nan` in any case,
/// after a sign if there is one.
pub open spec fn read(s: Seq<char>) -> Option<Double> {
    let neg = s.len() > 0 && s[0] == '-';
    let body = text::lowercased(
        if s.len() > 0 && (s[0] == '+' || s[0] == '-') {
            s.drop_first()
        } else {
            s
        },
    );
    if body == "inf"@ || body == "infinity"@ {
        Some(double::signed(neg, INF_BITS as nat))
    } else if body == "nan"@ {
        Some(double::signed(neg, NAN_BITS as nat))
    } else {
        match number(body) {
            Some((m, e)) => Some(double::signed(neg, decimal_rounded(m, e))),
            None => None,
        }
    }
}

/// `n / d` to the nearest integer, the even one of two that are equally near.
pub open spec fn half_even(n: nat, d: nat) -> nat {
    if 2 * (n % d) < d {
        n / d
    } else if 2 * (n % d) > d {
        n / d + 1
    } else if (n / d) % 2 == 0 {
        n / d
    } else {
        n / d + 1
    }
}

/// The last `k` digits of `n`, with zeros in front.
pub open spec fn padded(n: nat, k: nat) -> Seq<char>
    decreases k,
{
    if k == 0 {
        Seq::empty()
    } else {
        padded(n / 10, (k - 1) as nat).push(text::digit_char(n % 10))
    }
}

/// `q * 10^-k` with `k` digits behind the point.
pub open spec fn point_text(q: nat, k: nat) -> Seq<char> {
    if k == 0 {
        text::decimal(q)
    } else {
        text::decimal(q / pow10(k)) + seq!['.'] + padded(q % pow10(k), k)
    }
}

/// A number with `k` places behind the point, rounded half to even.
pub open spec fn fixed(x: Double, k: nat) -> Seq<char> {
    if x.nan() {
        "NaN"@
    } else {
        (if x.negative() {
            seq!['-']
        } else {
            Seq::empty()
        }) + (if x.infinite() {
            "inf"@
        } else {
            point_text(half_even(x.abs_value() * pow10(k), pow2(1074)), k)
        })
    }
}

pub proof fn lemma_pow10(k: nat)
    ensures
        pow10(k) >= pow2(3 * k),
        pow10(k) > 0,
    decreases k,
{
    lemma2_to64();
    if k > 0 {
        lemma_pow10((k - 1) as nat);
        lemma_pow2_adds(3, (3 * (k - 1)) as nat);
    }
}

pub proof fn lemma_pow10_adds(a: nat, b: nat)
    ensures
        pow10(a + b) == pow10(a) * pow10(b),
    decreases a,
{
    if a > 0 {
        lemma_pow10_adds((a - 1) as nat, b);
        let x = pow10((a - 1) as nat);
        let y = pow10(b);
        assert(10 * (x * y) == (10 * x) * y) by (nonlinear_arith);
    } else {
        assert(1 * pow10(b) == pow10(b));
    }
}

/// The bits of the magnitude that `n / d` rounds to.
fn round_fraction(n: &Natural, d: &Natural) -> (r: u64)
    requires
        d@ > 0,
    ensures
        r == double::rounded(n@, d@),
        r <= INF_BITS,
{
    let top = times_magnitude(d, INF_BITS);
    if n.order(&top) >= 0 {
        proof {
            double::lemma_overflow(n@, d@);
            double::lemma_rounded(n@, d@, INF_BITS as nat);
        }
        return INF_BITS;
    }
    let mut lo: u64 = 0;
    let mut hi: u64 = INF_BITS;
    proof {
        double::lemma_compose(0, 0);
        assert(double::magnitude(0) == 0) by {
            assert(0 * (HIDDEN as nat) + 0 == 0);
            assert(0 * pow2(0) == 0);
        }
        assert(0 * d@ == 0);
    }
    while hi - lo > 1
        invariant
            lo < hi <= INF_BITS,
            double::magnitude(lo as nat) * d@ <= n@ < double::magnitude(hi as nat) * d@,
        decreases hi - lo,
    {
        let mid: u64 = lo + (hi - lo) / 2;
        let bound = times_magnitude(d, mid);
        if n.order(&bound) >= 0 {
            lo = mid;
        } else {
            hi = mid;
        }
    }
    let (q, e) = Double { bits: lo }.parts();
    let middle = d.scaled(2 * q + 1, 0).shifted(e);
    let twice = n.scaled(2, 0);
    let side: i8 = twice.order(&middle);
    let r: u64 = if side < 0 || (side == 0 && lo % 2 == 0) {
        lo
    } else {
        hi
    };
    proof {
        assert(lo < SIGN);
        double::lemma_parts(lo as nat);
        double::lemma_compose(e as nat, q as nat);
        double::lemma_compose(e as nat, (q + 1) as nat);
        assert(e * (HIDDEN as nat) + (q + 1) == lo + 1);
        let p = pow2(e as nat);
        let dd = d@;
        assert((dd * (2 * q + 1)) * p == (q * p + (q + 1) * p) * dd) by (nonlinear_arith);
        double::lemma_midpoint(n@, d@, lo as nat, r as nat);
        double::lemma_rounded(n@, d@, r as nat);
    }
    r
}

fn times_magnitude(d: &Natural, m: u64) -> (r: Natural)
    requires
        m <= INF_BITS,
    ensures
        r@ == double::magnitude(m as nat) * d@,
{
    let (q, e) = Double { bits: m }.parts();
    let r = d.scaled(q, 0).shifted(e);
    proof {
        let p = pow2(e as nat);
        let dd = d@;
        assert((dd * q) * p == (q * p) * dd) by (nonlinear_arith);
    }
    r
}

/// `n * 10^k`
fn times_power(n: &Natural, k: u64) -> (r: Natural)
    ensures
        r@ == n@ * pow10(k as nat),
{
    let mut r = n.scaled(1, 0);
    let mut i: u64 = 0;
    while i < k
        invariant
            i <= k,
            r@ == n@ * pow10(i as nat),
        decreases k - i,
    {
        proof {
            let x = n@;
            let p = pow10(i as nat);
            assert((x * p) * 10 == x * (10 * p)) by (nonlinear_arith);
        }
        r = r.scaled(10, 0);
        i = i + 1;
    }
    r
}

proof fn lemma_too_large(m: nat, e: int)
    requires
        m > 0,
        e >= 400,
    ensures
        decimal_rounded(m, e) == INF_BITS,
{
    let k = e as nat;
    lemma_pow10(k);
    lemma2_to64();
    lemma2_to64_rest();
    double::lemma_compose(2046, HIDDEN as nat);
    assert(2046 * (HIDDEN as nat) + HIDDEN == INF_BITS);
    lemma_pow2_adds(52, 2046);
    lemma_pow2_adds(1024, 1074);
    if 3 * k > 1024 {
        lemma_pow2_strictly_increases(1024, 3 * k);
    }
    let n = m * pow10(k) * pow2(1074);
    assert(n >= pow2(1024) * pow2(1074)) by (nonlinear_arith)
        requires
            m >= 1,
            pow10(k) >= pow2(1024),
            n == m * pow10(k) * pow2(1074),
    ;
    assert(double::magnitude(INF_BITS as nat) * 1 <= n);
    double::lemma_overflow(n, 1);
    double::lemma_rounded(n, 1, INF_BITS as nat);
}

proof fn lemma_too_small(m: nat, len: nat, e: int)
    requires
        m < pow10(len),
        e <= -(len + 400),
    ensures
        decimal_rounded(m, e) == 0,
{
    let k = (-e) as nat;
    let rest = (k - len) as nat;
    lemma_pow10_adds(len, rest);
    lemma_pow10(rest);
    lemma_pow10(len);
    lemma_pow10(k);
    lemma_pow2_pos(1074);
    lemma_pow2_unfold(1075);
    if 3 * rest > 1075 {
        lemma_pow2_strictly_increases(1075, 3 * rest);
    }
    let n = m * pow2(1074);
    let d = pow10(k);
    assert(2 * n < d) by (nonlinear_arith)
        requires
            n == m * pow2(1074),
            d == pow10(len) * pow10(rest),
            m < pow10(len),
            pow10(rest) >= 2 * pow2(1074),
            pow2(1074) > 0,
    ;
    lemma2_to64();
    double::lemma_compose(0, 0);
    double::lemma_compose(0, 1);
    assert(0 * (HIDDEN as nat) + 0 == 0 && 0 * (HIDDEN as nat) + 1 == 1);
    assert(0 * pow2(0) == 0 && 1 * pow2(0) == 1);
    assert(double::magnitude(0) == 0 && double::magnitude(1) == 1);
    assert(0 * d == 0 && 1 * d == d && (0 + 1) * d == d);
    double::lemma_midpoint(n, d, 0, 0);
    double::lemma_rounded(n, d, 0);
}

/// The bits of the magnitude that `m * 10^e` rounds to, for an `m` of at most
/// `len` digits.
fn round_decimal(m: &Natural, len: usize, e: i128) -> (r: u64)
    requires
        m@ < pow10(len as nat),
    ensures
        r == decimal_rounded(m@, e as int),
        r <= INF_BITS,
{
    if m.is_zero() {
        proof {
            let d = if e >= 0 { 1nat } else { pow10((-e) as nat) };
            lemma_pow10((-e) as nat);
            lemma2_to64();
            double::lemma_compose(0, 0);
            assert(0 * (HIDDEN as nat) + 0 == 0 && 0 * pow2(0) == 0);
            double::lemma_rounded_exact(0, d);
            assert(double::magnitude(0) * d == 0);
            assert(0 * pow2(1074) == 0);
            assert(0 * pow10(e as nat) == 0);
        }
        return 0;
    }
    if e >= 400 {
        proof {
            lemma_too_large(m@, e as int);
        }
        return INF_BITS;
    }
    if e >= 0 {
        let n = times_power(m, e as u64).shifted(1074);
        round_fraction(&n, &Natural::new(1))
    } else if e <= -(len as i128 + 400) {
        proof {
            lemma_too_small(m@, len as nat, e as int);
        }
        0
    } else if e > -(u64::MAX as i128) {
        let n = m.shifted(1074);
        let d = times_power(&Natural::new(1), (-e) as u64);
        proof {
            lemma_pow10((-e) as nat);
        }
        round_fraction(&n, &d)
    } else {
        let half: i128 = -(u64::MAX as i128 - 1);
        let n = m.shifted(1074);
        let d0 = times_power(&Natural::new(1), u64::MAX - 1);
        let d = times_power(&d0, (half - e) as u64);
        proof {
            lemma_pow10_adds((u64::MAX - 1) as nat, (half - e) as nat);
            lemma_pow10((-e) as nat);
        }
        round_fraction(&n, &d)
    }
}

fn slice_chars(v: &Vec<char>, from: usize, to: usize) -> (r: Vec<char>)
    requires
        from <= to <= v@.len(),
    ensures
        r@ == v@.subrange(from as int, to as int),
{
    let mut r: Vec<char> = Vec::new();
    let mut i: usize = from;
    while i < to
        invariant
            from <= i <= to <= v@.len(),
            r@ == v@.subrange(from as int, i as int),
        decreases to - i,
    {
        r.push(v[i]);
        i = i + 1;
    }
    r
}

/// The number that the digits stand for, where all are digits.
fn read_digits(v: &Vec<char>) -> (r: Option<Natural>)
    ensures
        r is Some <==> text::all_digits(v@),
        r matches Some(n) ==> n@ == text::digits_value(v@) && n@ < pow10(v@.len()),
{
    let mut n = Natural::new(0);
    let mut i: usize = 0;
    assert(v@.take(0) == Seq::<char>::empty());
    while i < v.len()
        invariant
            i <= v@.len(),
            forall|k: int| 0 <= k < i ==> text::is_digit(#[trigger] v@[k]),
            n@ == text::digits_value(v@.take(i as int)),
            n@ < pow10(i as nat),
        decreases v@.len() - i,
    {
        let c = v[i];
        if !('0' <= c && c <= '9') {
            return None;
        }
        assert(v@.take(i + 1).drop_last() == v@.take(i as int));
        n = n.scaled(10, (c as u32 - '0' as u32) as u64);
        i = i + 1;
    }
    assert(v@.take(i as int) == v@);
    Some(n)
}

/// Where an exponent stops growing: far beyond what can make a difference.
const CAP: i128 = 1_000_000_000_000_000_000_000_000_000_000;

/// A signed exponent, held at the cap where it is beyond it.
fn read_exponent(v: &Vec<char>) -> (r: Option<i128>)
    ensures
        r is Some <==> signed_digits(v@) is Some,
        r matches Some(e) ==> {
            let x = signed_digits(v@)->0;
            &&& -10 * CAP <= e <= 10 * CAP
            &&& e == x || (e >= CAP && x >= CAP) || (e <= -CAP && x <= -CAP)
        },
{
    let neg = v.len() > 0 && v[0] == '-';
    let from: usize = if v.len() > 0 && (v[0] == '+' || v[0] == '-') {
        1
    } else {
        0
    };
    let digits = slice_chars(v, from, v.len());
    proof {
        if from == 1 {
            assert(digits@ == v@.drop_first());
        } else {
            assert(digits@ == v@);
        }
    }
    if digits.len() == 0 {
        return None;
    }
    let mut x: i128 = 0;
    let mut i: usize = 0;
    let ghost d = digits@;
    assert(d.take(0) == Seq::<char>::empty());
    while i < digits.len()
        invariant
            d == digits@,
            d == if v@.len() > 0 && (v@[0] == '+' || v@[0] == '-') {
                v@.drop_first()
            } else {
                v@
            },
            i <= d.len(),
            forall|k: int| 0 <= k < i ==> text::is_digit(#[trigger] d[k]),
            0 <= x <= 10 * CAP,
            x == text::digits_value(d.take(i as int)) || (x >= CAP && text::digits_value(d.take(i as int))
                >= CAP),
        decreases d.len() - i,
    {
        let c = digits[i];
        if !('0' <= c && c <= '9') {
            return None;
        }
        assert(d.take(i + 1).drop_last() == d.take(i as int));
        if x < CAP {
            x = x * 10 + (c as u32 - '0' as u32) as i128;
        }
        i = i + 1;
    }
    assert(d.take(i as int) == d);
    Some(
        if neg {
            -x
        } else {
            x
        },
    )
}

/// The magnitude that a number in lower case reads as.
fn read_number(v: &Vec<char>) -> (r: Option<u64>)
    ensures
        r is Some <==> number(v@) is Some,
        r matches Some(b) ==> (number(v@) matches Some((m, e)) && b == decimal_rounded(m, e) && b
            <= INF_BITS),
{
    let cut: usize = find_char(v, 'e');
    let m = slice_chars(v, 0, cut);
    assert(m@ == mantissa(v@));
    let dot: usize = find_char(&m, '.');
    let mut digits = slice_chars(&m, 0, dot);
    assert(digits@ == whole(m@));
    let places: usize = if dot < m.len() {
        m.len() - dot - 1
    } else {
        0
    };
    if dot < m.len() {
        let f = slice_chars(&m, dot + 1, m.len());
        assert(f@ == fraction(m@));
        let mut i: usize = 0;
        while i < f.len()
            invariant
                i <= f@.len(),
                digits@ == whole(m@) + f@.take(i as int),
            decreases f@.len() - i,
        {
            digits.push(f[i]);
            assert(digits@ == whole(m@) + f@.take(i + 1));
            i = i + 1;
        }
        assert(f@.take(i as int) == f@);
    }
    assert(digits@ == whole(m@) + fraction(m@));
    let exp: Option<i128> = if cut < v.len() {
        let e = slice_chars(v, cut + 1, v.len());
        assert(e@ == v@.skip(cut + 1));
        read_exponent(&e)
    } else {
        Some(0)
    };
    if digits.len() == 0 {
        return None;
    }
    match (read_digits(&digits), exp) {
        (Some(n), Some(x)) => {
            let e: i128 = x - places as i128;
            let r: u64 = round_decimal(&n, digits.len(), e);
            proof {
                let (_, exact) = number(v@)->0;
                assert(digits@.len() <= usize::MAX);
                if e != exact {
                    lemma_held(n@, digits@.len(), e as int, exact);
                }
            }
            Some(r)
        },
        _ => None,
    }
}

proof fn lemma_held(m: nat, len: nat, a: int, b: int)
    requires
        m < pow10(len),
        len <= usize::MAX,
        (a >= CAP - usize::MAX && b >= CAP - usize::MAX) || (a <= -CAP && b <= -CAP),
    ensures
        decimal_rounded(m, a) == decimal_rounded(m, b),
{
    if m == 0 {
        lemma_zero(a);
        lemma_zero(b);
    } else if a > 0 {
        lemma_too_large(m, a);
        lemma_too_large(m, b);
    } else {
        lemma_too_small(m, len, a);
        lemma_too_small(m, len, b);
    }
}

proof fn lemma_zero(e: int)
    ensures
        decimal_rounded(0, e) == 0,
{
    let d = if e >= 0 { 1nat } else { pow10((-e) as nat) };
    lemma_pow10((-e) as nat);
    lemma2_to64();
    double::lemma_compose(0, 0);
    assert(0 * (HIDDEN as nat) + 0 == 0 && 0 * pow2(0) == 0);
    double::lemma_rounded_exact(0, d);
    assert(double::magnitude(0) * d == 0);
    assert(0 * pow2(1074) == 0);
    assert(0 * pow10(e as nat) == 0);
}

/// Reads a number.
pub fn read_double(s: &str) -> (r: Option<Double>)
    ensures
        r == read(s@),
{
    let all = chars_of(s);
    let neg = all.len() > 0 && all[0] == '-';
    let from: usize = if all.len() > 0 && (all[0] == '+' || all[0] == '-') {
        1
    } else {
        0
    };
    let plain = slice_string(&all, from, all.len());
    proof {
        if from == 1 {
            assert(plain@ == s@.drop_first());
        } else {
            assert(plain@ == s@);
        }
    }
    let body = to_lower(plain.as_str());
    let sign: u64 = if neg {
        SIGN
    } else {
        0
    };
    if same(body.as_str(), "inf") || same(body.as_str(), "infinity") {
        return Some(Double { bits: sign + INF_BITS });
    }
    if same(body.as_str(), "nan") {
        return Some(Double { bits: sign + NAN_BITS });
    }
    let v = chars_of(body.as_str());
    match read_number(&v) {
        Some(b) => Some(Double { bits: sign + b }),
        None => None,
    }
}

/// The decimal numeral of a number of any size.
fn natural_text(n: &Natural) -> (r: String)
    ensures
        r@ == text::decimal(n@),
    decreases n@,
{
    let (q, d) = n.divided(10);
    if q.is_zero() {
        proof {
            lemma_fundamental_div_mod(n@ as int, 10);
        }
        decimal_u64(d as u64)
    } else {
        proof {
            lemma_fundamental_div_mod(n@ as int, 10);
        }
        let mut s = natural_text(&q);
        s.push((('0' as u8) + d as u8) as char);
        s
    }
}

/// The last `k` digits of `n`.
fn padded_text(n: u32, k: u32) -> (r: String)
    ensures
        r@ == padded(n as nat, k as nat),
    decreases k,
{
    if k == 0 {
        String::new()
    } else {
        let mut s = padded_text(n / 10, k - 1);
        s.push((('0' as u8) + (n % 10) as u8) as char);
        s
    }
}

fn power_of_ten(k: u32) -> (r: u32)
    requires
        k <= 6,
    ensures
        r == pow10(k as nat),
        1 <= r <= 1_000_000,
{
    reveal_with_fuel(pow10, 7);
    if k == 0 {
        1
    } else if k == 1 {
        10
    } else if k == 2 {
        100
    } else if k == 3 {
        1_000
    } else if k == 4 {
        10_000
    } else if k == 5 {
        100_000
    } else {
        1_000_000
    }
}

proof fn lemma_half_even_scale(n: nat, d: nat, c: nat)
    requires
        d > 0,
        c > 0,
    ensures
        half_even(n * c, d * c) == half_even(n, d),
{
    let q = n / d;
    let r = n % d;
    lemma_fundamental_div_mod(n as int, d as int);
    lemma_mod_bound(n as int, d as int);
    assert(n * c == q * (d * c) + r * c) by (nonlinear_arith)
        requires
            n == d * q + r,
    ;
    assert(r * c < d * c) by (nonlinear_arith)
        requires
            r < d,
            c > 0,
    ;
    assert(0 <= r * c) by (nonlinear_arith);
    assert(d * c > 0) by (nonlinear_arith)
        requires
            d > 0,
            c > 0,
    ;
    lemma_fundamental_div_mod_converse(
        (n * c) as int,
        (d * c) as int,
        q as int,
        (r * c) as int,
    );
    assert((2 * r < d <==> 2 * (r * c) < d * c) && (2 * r > d <==> 2 * (r * c) > d * c))
        by (nonlinear_arith)
        requires
            c > 0,
    ;
}

/// The magnitude times `k`, to the nearest integer, for a magnitude below 2^64.
pub fn rounded_multiple(x: Double, k: u32) -> (r: u128)
    requires
        x.finite(),
        double::exponent(x.abs_bits()) < 1086,
        k <= 1_000_000_000,
    ensures
        r == half_even(x.abs_value() * (k as nat), pow2(1074)),
{
    let (q, e) = x.parts();
    assert(q * k < 0x20_0000_0000_0000 * 0x4000_0000) by (nonlinear_arith)
        requires
            q < 0x20_0000_0000_0000,
            k < 0x4000_0000,
    ;
    let n: u128 = q as u128 * k as u128;
    proof {
        let p = pow2(e as nat);
        assert((q * p) * k == n * p) by (nonlinear_arith)
            requires
                n == q * k,
        ;
    }
    if e >= 1074 {
        let s: u32 = e - 1074;
        let p: u128 = power_of_two(s);
        proof {
            lemma_pow2_adds(s as nat, 1074);
            lemma_pow2_pos(1074);
            lemma2_to64();
            if s < 11 {
                lemma_pow2_strictly_increases(s as nat, 11);
            }
            assert(n * p <= 0x20_0000_0000_0000 * 0x4000_0000 * 2048) by (nonlinear_arith)
                requires
                    n < 0x20_0000_0000_0000 * 0x4000_0000,
                    p <= 2048,
            ;
            let big = pow2(1074);
            assert(n * (p * big) == (n * p) * big + 0) by (nonlinear_arith);
            lemma_fundamental_div_mod_converse(
                (n * pow2(e as nat)) as int,
                big as int,
                (n * p) as int,
                0,
            );
        }
        return n * p;
    }
    let s: u32 = 1074 - e;
    proof {
        lemma_pow2_adds(s as nat, e as nat);
        lemma_pow2_pos(s as nat);
        lemma_pow2_pos(e as nat);
        lemma_half_even_scale(n as nat, pow2(s as nat), pow2(e as nat));
        lemma2_to64();
        lemma2_to64_rest();
    }
    if s > 100 {
        proof {
            lemma_pow2_strictly_increases(100, s as nat);
            lemma_pow2_adds(50, 50);
            assert(pow2(50) * pow2(50) == 0x4_0000_0000_0000 * 0x4_0000_0000_0000);
            lemma_small_mod(n as nat, pow2(s as nat));
            lemma_basic_div(n as int, pow2(s as nat) as int);
        }
        return 0;
    }
    let p: u128 = power_of_two(s);
    let whole: u128 = n / p;
    let rem: u128 = n % p;
    proof {
        lemma_fundamental_div_mod(n as int, p as int);
        assert(p * (n as int / p as int) >= 0) by (nonlinear_arith)
            requires
                p >= 1,
                n >= 0,
        ;
        assert(whole <= n) by (nonlinear_arith)
            requires
                p >= 1,
                whole == n / p,
        ;
    }
    if 2 * rem > p || (2 * rem == p && whole % 2 == 1) {
        whole + 1
    } else {
        whole
    }
}

/// The magnitude times 10^k, to the nearest integer.
fn scaled_magnitude(x: Double, k: u32) -> (r: Natural)
    requires
        x.finite(),
        k <= 6,
    ensures
        r@ == half_even(x.abs_value() * pow10(k as nat), pow2(1074)),
{
    let (q, e) = x.parts();
    let ten: u32 = power_of_ten(k);
    if e >= 1074 {
        let r = Natural::new(q).scaled(ten as u64, 0).shifted(e - 1074);
        proof {
            let s = (e - 1074) as nat;
            lemma_pow2_adds(s, 1074);
            lemma_pow2_pos(1074);
            let big = pow2(1074);
            let ps = pow2(s);
            let tn = pow10(k as nat);
            assert((q * (ps * big)) * tn == ((q * tn) * ps) * big + 0) by (nonlinear_arith);
            lemma_fundamental_div_mod_converse(
                ((q * pow2(e as nat)) * tn) as int,
                big as int,
                ((q * tn) * ps) as int,
                0,
            );
        }
        r
    } else {
        let t: u128 = rounded_multiple(x, ten);
        let hi: u64 = (t / 0x1_0000_0000_0000_0000) as u64;
        let lo: u64 = (t % 0x1_0000_0000_0000_0000) as u64;
        let r = Natural::new(hi).shifted(64).plus(lo);
        proof {
            lemma2_to64();
            lemma_fundamental_div_mod(t as int, 0x1_0000_0000_0000_0000);
        }
        r
    }
}

/// Writes a number with `k` places behind the point.
pub fn fixed_text(x: Double, k: u32) -> (r: String)
    requires
        k <= 6,
    ensures
        r@ == fixed(x, k as nat),
{
    if x.is_nan() {
        return "NaN".to_owned();
    }
    let mut s = String::new();
    if x.bits >= SIGN {
        s.push('-');
    }
    if !x.is_finite() {
        s.append("inf");
        assert(x.negative() ==> s@ == seq!['-'] + "inf"@);
        proof {
            what_is_written_is_read_back(x, 0, 0);
        }
        return s;
    }
    let q = scaled_magnitude(x, k);
    if k == 0 {
        let t = natural_text(&q);
        s.append(t.as_str());
    } else {
        let ten: u32 = power_of_ten(k);
        let (a, b) = q.divided(ten);
        let t = natural_text(&a);
        s.append(t.as_str());
        s.push('.');
        let f = padded_text(b, k);
        s.append(f.as_str());
    }
    assert(s@ == fixed(x, k as nat));
    s
}

/// `d * 10^k` over `denominator(k)`, in units of 2^-1074.
pub open spec fn numerator(d: nat, k: int) -> nat {
    if k >= 0 {
        d * pow10(k as nat) * pow2(1074)
    } else {
        d * pow2(1074)
    }
}

pub open spec fn denominator(k: int) -> nat {
    if k >= 0 {
        1
    } else {
        pow10((-k) as nat)
    }
}

/// How far `d * 10^k` is from the magnitude with bits `m`.
pub open spec fn gap(m: nat, d: nat, k: int) -> nat {
    double::distance(numerator(d, k), denominator(k), m)
}

/// `d * 10^k` is the shortest decimal that reads back as the magnitude with
/// bits `m`: none with a larger exponent does, and of those with the same
/// exponent it is the nearest, the larger one of two that are equally near.
pub open spec fn shortest(m: nat, d: nat, k: int) -> bool {
    &&& decimal_rounded(d, k) == m
    &&& forall|d2: nat, k2: int| k2 > k ==> #[trigger] decimal_rounded(d2, k2) != m
    &&& forall|d2: nat| #[trigger]
        decimal_rounded(d2, k) == m ==> gap(m, d, k) < gap(m, d2, k) || (gap(m, d, k) == gap(
            m,
            d2,
            k,
        ) && d2 <= d)
}

/// `d * 10^k` in full.
pub open spec fn plain_text(d: nat, k: int) -> Seq<char> {
    if k >= 0 {
        text::decimal(d * pow10(k as nat))
    } else {
        point_text(d, (-k) as nat)
    }
}

/// A positive magnitude, written by its shortest decimal.
pub open spec fn shortest_text(m: nat) -> Seq<char> {
    let (d, k) = choose|d: nat, k: int| shortest(m, d, k);
    plain_text(d, k)
}

/// A number with as many digits as it takes to read it back.
pub open spec fn display(x: Double) -> Seq<char> {
    if x.nan() {
        "NaN"@
    } else {
        (if x.negative() {
            seq!['-']
        } else {
            Seq::empty()
        }) + (if x.infinite() {
            "inf"@
        } else if x.abs_bits() == 0 {
            "0"@
        } else {
            shortest_text(x.abs_bits())
        })
    }
}

proof fn lemma_shortest_unique(m: nat, d: nat, k: int, d2: nat, k2: int)
    requires
        shortest(m, d, k),
        shortest(m, d2, k2),
    ensures
        d == d2,
        k == k2,
{
    assert(decimal_rounded(d, k) == m && decimal_rounded(d2, k2) == m);
}

proof fn lemma_decimal_rounded(d: nat, k: int)
    ensures
        decimal_rounded(d, k) == double::rounded(numerator(d, k), denominator(k)),
        denominator(k) > 0,
{
    if k < 0 {
        lemma_pow10((-k) as nat);
    }
}

proof fn lemma_numerator(a: nat, b: nat, k: int)
    requires
        a < b,
    ensures
        numerator(a, k) < numerator(b, k),
{
    lemma_pow2_pos(1074);
    let p = pow2(1074);
    if k >= 0 {
        lemma_pow10(k as nat);
        let t = pow10(k as nat);
        assert(a * t * p < b * t * p) by (nonlinear_arith)
            requires
                a < b,
                t > 0,
                p > 0,
        ;
    } else {
        assert(a * p < b * p) by (nonlinear_arith)
            requires
                a < b,
                p > 0,
        ;
    }
}

/// The magnitude with bits `m` lies from `d * 10^k` up to the next.
spec fn floored(m: nat, d: nat, k: int) -> bool {
    numerator(d, k) <= double::magnitude(m) * denominator(k) < numerator(d + 1, k)
}

/// Where some multiple of 10^k reads back, one of the two next to the
/// magnitude does.
proof fn lemma_neighbours(m: nat, f: nat, k: int, d: nat)
    requires
        m <= INF_BITS,
        floored(m, f, k),
        decimal_rounded(d, k) == m,
    ensures
        d <= f ==> decimal_rounded(f, k) == m,
        d > f ==> decimal_rounded(f + 1, k) == m,
        gap(m, f, k) == double::magnitude(m) * denominator(k) - numerator(f, k),
        gap(m, f + 1, k) == numerator(f + 1, k) - double::magnitude(m) * denominator(k),
        d < f ==> gap(m, d, k) > gap(m, f, k),
        d > f + 1 ==> gap(m, d, k) > gap(m, f + 1, k),
{
    let c = denominator(k);
    lemma_decimal_rounded(d, k);
    lemma_decimal_rounded(f, k);
    lemma_decimal_rounded(f + 1, k);
    double::lemma_rounded_exact(m, c);
    let x = double::magnitude(m) * c;
    if d <= f {
        if d < f {
            lemma_numerator(d, f, k);
        }
        double::lemma_rounded_monotone(numerator(d, k), numerator(f, k), c);
        double::lemma_rounded_monotone(numerator(f, k), x, c);
    } else {
        if d > f + 1 {
            lemma_numerator(f + 1, d, k);
        }
        double::lemma_rounded_monotone(numerator(f + 1, k), numerator(d, k), c);
        double::lemma_rounded_monotone(x, numerator(f + 1, k), c);
    }
}

/// From a large enough power of ten on, no multiple reads back.
proof fn lemma_none_above(m: nat, k0: nat, d: nat, k: int)
    requires
        0 < m < INF_BITS,
        double::magnitude(m + 1) <= pow10(k0) * pow2(1074),
        k >= k0,
    ensures
        decimal_rounded(d, k) != m,
{
    let p = pow2(1074);
    if d == 0 {
        lemma2_to64();
        double::lemma_compose(0, 0);
        assert(0 * (HIDDEN as nat) + 0 == 0 && 0 * pow2(0) == 0);
        double::lemma_rounded_exact(0, 1);
        assert(double::magnitude(0) * 1 == 0);
        assert(0 * pow10(k as nat) == 0 && 0 * p == 0);
    } else {
        let rest = (k - k0) as nat;
        lemma_pow10_adds(k0, rest);
        lemma_pow10(rest);
        lemma_pow10(k0);
        let a = pow10(k0);
        let b = pow10(rest);
        assert(d * (a * b) * p >= a * p) by (nonlinear_arith)
            requires
                d >= 1,
                b >= 1,
                a >= 0,
                p >= 0,
        ;
        double::lemma_rounded_exact(m + 1, 1);
        assert(double::magnitude(m + 1) * 1 == double::magnitude(m + 1));
        double::lemma_rounded_monotone(double::magnitude(m + 1), numerator(d, k), 1);
    }
}

/// 10^k is 2^k times another number.
proof fn lemma_pow10_even(k: nat) -> (odd: nat)
    ensures
        pow10(k) == odd * pow2(k),
    decreases k,
{
    lemma2_to64();
    if k == 0 {
        1
    } else {
        let o = lemma_pow10_even((k - 1) as nat);
        lemma_pow2_unfold(k);
        let p = pow2((k - 1) as nat);
        assert(10 * (o * p) == (5 * o) * (2 * p)) by (nonlinear_arith);
        5 * o
    }
}

/// With 1074 places a magnitude is written exactly.
proof fn lemma_exact_at_the_end(m: nat) -> (d: nat)
    requires
        m <= INF_BITS,
    ensures
        decimal_rounded(d, -1074) == m,
{
    let o = lemma_pow10_even(1074);
    let x = double::magnitude(m);
    let d = x * o;
    lemma_decimal_rounded(d, -1074);
    let p = pow2(1074);
    assert((x * o) * p == x * (o * p)) by (nonlinear_arith);
    double::lemma_rounded_exact(m, pow10(1074));
    d
}

/// The magnitudes end below 10^400.
proof fn lemma_below_the_top(m: nat)
    requires
        m <= INF_BITS,
    ensures
        double::magnitude(m) <= pow10(400) * pow2(1074),
{
    lemma_pow10(400);
    lemma2_to64();
    lemma2_to64_rest();
    double::lemma_compose(2046, HIDDEN as nat);
    assert(2046 * (HIDDEN as nat) + HIDDEN == INF_BITS);
    lemma_pow2_adds(52, 2046);
    lemma_pow2_adds(1024, 1074);
    lemma_pow2_strictly_increases(1024, 1200);
    double::lemma_ordered(m, INF_BITS as nat);
    let a = pow10(400);
    let b = pow2(1024);
    let p = pow2(1074);
    assert(a * p >= b * p) by (nonlinear_arith)
        requires
            a >= b,
            p >= 0,
    ;
}

/// The first power of ten that the next magnitude does not exceed.
fn top_exponent(m: u64) -> (k: u32)
    requires
        0 < m < INF_BITS,
    ensures
        k <= 400,
        double::magnitude((m + 1) as nat) <= pow10(k as nat) * pow2(1074),
{
    let one = Natural::new(1);
    let bound = times_magnitude(&one, m + 1);
    proof {
        let x = double::magnitude((m + 1) as nat);
        assert(x * 1 == x);
    }
    let mut p = one.shifted(1074);
    let mut k: u32 = 0;
    assert(1 * pow2(1074) == pow2(1074));
    while p.order(&bound) < 0
        invariant
            0 < m < INF_BITS,
            bound@ == double::magnitude((m + 1) as nat),
            k <= 400,
            p@ == pow10(k as nat) * pow2(1074),
        decreases 400 - k,
    {
        proof {
            lemma_below_the_top((m + 1) as nat);
            let t = pow10(k as nat);
            let b = pow2(1074);
            assert((t * b) * 10 == (10 * t) * b) by (nonlinear_arith);
        }
        p = p.scaled(10, 0);
        k = k + 1;
    }
    k
}

fn numerator_of(d: &Natural, k: i32) -> (r: Natural)
    requires
        -2000 <= k <= 2000,
    ensures
        r@ == numerator(d@, k as int),
{
    if k >= 0 {
        times_power(d, k as u64).shifted(1074)
    } else {
        d.shifted(1074)
    }
}

fn denominator_of(k: i32) -> (r: Natural)
    requires
        -2000 <= k <= 2000,
    ensures
        r@ == denominator(k as int),
{
    let one = Natural::new(1);
    if k >= 0 {
        one
    } else {
        let n: u64 = (-k) as u64;
        let r = times_power(&one, n);
        assert(1 * pow10(n as nat) == pow10(n as nat));
        r
    }
}

/// The next digit behind a floor.
fn next_digit(m: u64, d: &Natural, k: i32) -> (r: Natural)
    requires
        m <= INF_BITS,
        -1074 < k <= 400,
        floored(m as nat, d@, k as int),
    ensures
        floored(m as nat, r@, k - 1),
{
    let x = times_magnitude(&denominator_of(k - 1), m);
    let mut r = d.scaled(10, 0);
    let mut c: u32 = 0;
    proof {
        let p = pow2(1074);
        let dd = d@;
        if k > 0 {
            let t = pow10((k - 1) as nat);
            assert((10 * dd) * t * p == dd * (10 * t) * p) by (nonlinear_arith);
            assert((10 * dd + 10) * t * p == (dd + 1) * (10 * t) * p) by (nonlinear_arith);
        } else {
            let mg = double::magnitude(m as nat);
            let t = denominator(k as int);
            assert(denominator(k - 1) == 10 * t) by {
                if k == 0 {
                    assert(pow10(1) == 10 * pow10(0));
                }
            }
            assert((10 * dd) * p == 10 * (dd * p)) by (nonlinear_arith);
            assert((10 * dd + 10) * p == 10 * ((dd + 1) * p)) by (nonlinear_arith);
            assert(mg * (10 * t) == 10 * (mg * t)) by (nonlinear_arith);
            if k == 0 {
                assert(pow10(0) == 1);
                assert(dd * 1 * p == dd * p && (dd + 1) * 1 * p == (dd + 1) * p);
            }
        }
        assert(10 * dd == dd * 10);
        assert(numerator(10 * dd, k - 1) <= x@ < numerator(10 * dd + 10, k - 1));
    }
    while c < 9
        invariant
            m <= INF_BITS,
            -1074 < k <= 400,
            c <= 9,
            r@ == 10 * d@ + c,
            x@ == double::magnitude(m as nat) * denominator(k - 1),
            numerator(r@, k - 1) <= x@ < numerator(10 * d@ + 10, k - 1),
        ensures
            floored(m as nat, r@, k - 1),
        decreases 9 - c,
    {
        let up = r.plus(1);
        let n = numerator_of(&up, k - 1);
        if n.order(&x) > 0 {
            break;
        }
        r = up;
        c = c + 1;
    }
    r
}

/// Twice the middle between a magnitude and the next, over `c`.
fn twice_middle(m: u64, c: &Natural) -> (r: Natural)
    requires
        m < INF_BITS,
    ensures
        r@ == (double::magnitude(m as nat) + double::magnitude((m + 1) as nat)) * c@,
{
    let (q, e) = Double { bits: m }.parts();
    let r = c.scaled(2 * q + 1, 0).shifted(e);
    proof {
        assert(m < SIGN);
        double::lemma_parts(m as nat);
        double::lemma_compose(e as nat, q as nat);
        double::lemma_compose(e as nat, (q + 1) as nat);
        assert(e * (HIDDEN as nat) + (q + 1) == m + 1);
        let p = pow2(e as nat);
        let cc = c@;
        assert((cc * (2 * q + 1)) * p == (q * p + (q + 1) * p) * cc) by (nonlinear_arith);
    }
    r
}

/// What rounds to the magnitude with bits `m`: what lies between the middles
/// to its neighbours, and the middles themselves for an even `m`.
proof fn lemma_reads(n: nat, c: nat, m: nat)
    requires
        c > 0,
        0 < m < INF_BITS,
    ensures
        double::rounded(n, c) == m <==> ({
            let low = (double::magnitude((m - 1) as nat) + double::magnitude(m)) * c;
            let high = (double::magnitude(m) + double::magnitude(m + 1)) * c;
            &&& low < 2 * n || (low == 2 * n && m % 2 == 0)
            &&& 2 * n < high || (2 * n == high && m % 2 == 0)
        }),
{
    let a = double::magnitude((m - 1) as nat);
    let b = double::magnitude(m);
    let d = double::magnitude(m + 1);
    double::lemma_ordered((m - 1) as nat, m);
    double::lemma_ordered(m, m + 1);
    assert((a + b) * c == a * c + b * c) by (nonlinear_arith);
    assert((b + d) * c == b * c + d * c) by (nonlinear_arith);
    assert(a * c < b * c && b * c < d * c) by (nonlinear_arith)
        requires
            a < b < d,
            c > 0,
    ;
    if n < a * c {
        double::lemma_rounded_exact((m - 1) as nat, c);
        double::lemma_rounded_monotone(n, a * c, c);
    } else if n <= b * c {
        let low = (a + b) * c;
        let r = if 2 * n < low {
            (m - 1) as nat
        } else if 2 * n > low {
            m
        } else if m % 2 == 0 {
            m
        } else {
            (m - 1) as nat
        };
        double::lemma_midpoint(n, c, (m - 1) as nat, r);
        double::lemma_rounded(n, c, r);
    } else if n <= d * c {
        let high = (b + d) * c;
        let r = if 2 * n < high {
            m
        } else if 2 * n > high {
            m + 1
        } else if m % 2 == 0 {
            m
        } else {
            m + 1
        };
        double::lemma_midpoint(n, c, m, r);
        double::lemma_rounded(n, c, r);
    } else {
        double::lemma_rounded_exact(m + 1, c);
        double::lemma_rounded_monotone(d * c, n, c);
    }
}

/// Whether `d * 10^k` reads back as the magnitude with bits `m`.
fn reads_back(d: &Natural, k: i32, m: u64) -> (r: bool)
    requires
        -2000 <= k <= 2000,
        0 < m < INF_BITS,
    ensures
        r == (decimal_rounded(d@, k as int) == m),
{
    let c = denominator_of(k);
    let twice = numerator_of(d, k).scaled(2, 0);
    proof {
        lemma_decimal_rounded(d@, k as int);
        lemma_reads(numerator(d@, k as int), c@, m as nat);
    }
    let even = m % 2 == 0;
    let low: i8 = twice.order(&twice_middle(m - 1, &c));
    let high: i8 = twice.order(&twice_middle(m, &c));
    (low > 0 || (low == 0 && even)) && (high < 0 || (high == 0 && even))
}

/// The shortest decimal of a positive magnitude.
fn find_shortest(m: u64) -> (r: (Natural, i32))
    requires
        0 < m < INF_BITS,
    ensures
        shortest(m as nat, r.0@, r.1 as int),
        -1074 <= r.1 <= 400,
{
    let k0: u32 = top_exponent(m);
    let mut k: i32 = k0 as i32;
    let mut d = Natural::new(0);
    proof {
        assert forall|d2: nat, k2: int| k2 >= k implies #[trigger] decimal_rounded(d2, k2) != m by {
            lemma_none_above(m as nat, k0 as nat, d2, k2);
        }
        double::lemma_ordered(m as nat, (m + 1) as nat);
        let t = pow10(k as nat);
        let p = pow2(1074);
        assert(0 * t * p == 0) by (nonlinear_arith);
        assert((0 + 1) * t * p == t * p) by (nonlinear_arith);
        let x = double::magnitude(m as nat);
        assert(x * 1 == x);
        assert(floored(m as nat, 0, k as int));
    }
    loop
        invariant
            0 < m < INF_BITS,
            -1074 <= k <= 400,
            floored(m as nat, d@, k as int),
            forall|d2: nat, k2: int| k2 >= k ==> #[trigger] decimal_rounded(d2, k2) != m,
        decreases k + 1074,
    {
        proof {
            if k == -1074 {
                let e = lemma_exact_at_the_end(m as nat);
                assert(decimal_rounded(e, -1074) == m);
            }
        }
        let f = next_digit(m, &d, k);
        let g = f.plus(1);
        let j: i32 = k - 1;
        let low = reads_back(&f, j, m);
        let high = reads_back(&g, j, m);
        if low || high {
            let x = times_magnitude(&denominator_of(j), m);
            let middle = numerator_of(&f.scaled(2, 1), j);
            let up = high && (!low || middle.order(&x.scaled(2, 0)) <= 0);
            proof {
                let mm = m as nat;
                let best = if up { g@ } else { f@ };
                assert(g@ == f@ + 1);
                assert(decimal_rounded(best, j as int) == mm);
                let p = pow2(1074);
                let ff = f@;
                if j >= 0 {
                    let t = pow10(j as nat);
                    assert((ff * 2 + 1) * t * p == ff * t * p + (ff + 1) * t * p)
                        by (nonlinear_arith);
                } else {
                    assert((ff * 2 + 1) * p == ff * p + (ff + 1) * p) by (nonlinear_arith);
                }
                assert(middle@ == numerator(ff, j as int) + numerator(ff + 1, j as int));
                lemma_neighbours(mm, ff, j as int, best);
                assert forall|d2: nat| #[trigger] decimal_rounded(d2, j as int) == mm implies gap(
                    mm,
                    best,
                    j as int,
                ) < gap(mm, d2, j as int) || (gap(mm, best, j as int) == gap(mm, d2, j as int)
                    && d2 <= best) by {
                    lemma_neighbours(mm, ff, j as int, d2);
                }
                assert forall|d2: nat, k2: int| k2 > j implies #[trigger] decimal_rounded(d2, k2)
                    != mm by {
                    assert(k2 >= k);
                }
            }
            if up {
                return (g, j);
            } else {
                return (f, j);
            }
        }
        proof {
            assert forall|d2: nat, k2: int| k2 >= j implies #[trigger] decimal_rounded(d2, k2)
                != m by {
                if k2 == j && decimal_rounded(d2, k2) == m {
                    lemma_neighbours(m as nat, f@, j as int, d2);
                }
            }
        }
        d = f;
        k = j;
    }
}

/// The last `k` digits of a number of any size, and the rest of it.
fn split_digits(n: &Natural, k: u32) -> (r: (Natural, String))
    ensures
        r.0@ == n@ / pow10(k as nat),
        r.1@ == padded(n@ % pow10(k as nat), k as nat),
    decreases k,
{
    if k == 0 {
        assert(n@ / 1 == n@);
        (n.scaled(1, 0), String::new())
    } else {
        let (q, c) = n.divided(10);
        let (rest, s) = split_digits(&q, k - 1);
        let mut out = s;
        out.push((('0' as u8) + c as u8) as char);
        proof {
            let p = pow10((k - 1) as nat);
            lemma_pow10((k - 1) as nat);
            let x = n@;
            lemma_fundamental_div_mod(x as int, 10);
            lemma_div_denominator(x as int, 10, p as int);
            lemma_breakdown(x as int, 10, p as int);
            let y = x % (10 * p);
            assert(y == 10 * ((x / 10) % p) + x % 10);
            lemma_fundamental_div_mod_converse(
                y as int,
                10,
                ((x / 10) % p) as int,
                (x % 10) as int,
            );
        }
        (rest, out)
    }
}

/// Writes a number with as many digits as it takes to read it back.
pub fn display_text(x: Double) -> (r: String)
    ensures
        r@ == display(x),
        !x.nan() ==> read(r@) == Some(x),
{
    if x.is_nan() {
        return "NaN".to_owned();
    }
    let mut s = String::new();
    let mut m: u64 = x.bits;
    if x.bits >= SIGN {
        s.push('-');
        m = x.bits - SIGN;
    }
    if !x.is_finite() {
        s.append("inf");
        assert(x.negative() ==> s@ == seq!['-'] + "inf"@);
        proof {
            what_is_written_is_read_back(x, 0, 0);
        }
        return s;
    }
    if m == 0 {
        s.append("0");
        assert(x.negative() ==> s@ == seq!['-'] + "0"@);
        proof {
            what_is_written_is_read_back(x, 0, 0);
        }
        return s;
    }
    let (d, k) = find_shortest(m);
    proof {
        let (d2, k2) = choose|d: nat, k: int| shortest(m as nat, d, k);
        lemma_shortest_unique(m as nat, d@, k as int, d2, k2);
        what_is_written_is_read_back(x, d@, k as int);
    }
    if k >= 0 {
        let t = natural_text(&times_power(&d, k as u64));
        s.append(t.as_str());
    } else {
        let (whole, places) = split_digits(&d, (-k) as u32);
        let t = natural_text(&whole);
        s.append(t.as_str());
        s.push('.');
        s.append(places.as_str());
    }
    assert(s@ =~= display(x));
    s
}

// ---- laws ----

/// Rounding goes to the nearest whole number and, from halfway, to the even one.
pub proof fn rounding_goes_to_the_nearest(n: nat, d: nat)
    requires
        d > 0,
    ensures
        2 * n <= 2 * (half_even(n, d) * d) + d,
        2 * (half_even(n, d) * d) <= 2 * n + d,
        2 * n == 2 * (half_even(n, d) * d) + d || 2 * (half_even(n, d) * d) == 2 * n + d
            ==> half_even(n, d) % 2 == 0,
{
    lemma_fundamental_div_mod(n as int, d as int);
    let q = n / d;
    let r = n % d;
    assert(q * d == d * q) by (nonlinear_arith);
    assert((q + 1) * d == q * d + d) by (nonlinear_arith);
}

/// Digits with `k` of them behind a point stand for the number with its point
/// there.
pub proof fn a_pointed_number_reads_so(q: nat, k: nat)
    ensures
        number(point_text(q, k)) == Some((q, -(k as int))),
{
    if k == 0 {
        text::a_numeral_stands_for_its_number(q);
        lemma_digits_only(text::decimal(q));
    } else {
        let p = pow10(k);
        lemma_pow10(k);
        let a = text::decimal(q / p);
        let b = padded(q % p, k);
        text::a_numeral_stands_for_its_number(q / p);
        lemma_padded(q % p, k);
        let s = point_text(q, k);
        assert(s == a + seq!['.'] + b);
        assert forall|i: int| 0 <= i < s.len() implies (#[trigger] s[i]) != 'e' by {
            if i < a.len() {
                assert(text::is_digit(a[i]));
            } else if i > a.len() {
                assert(text::is_digit(b[i - a.len() - 1]));
            }
        }
        text::the_first_one_is_found(s, 'e');
        if s.contains('e') {
            let i = choose|i: int| 0 <= i < s.len() && s[i] == 'e';
            assert(s[i] != 'e');
        }
        assert(mantissa(s) =~= s);
        assert(s[a.len() as int] == '.');
        assert forall|i: int| 0 <= i < a.len() implies (#[trigger] s[i]) != '.' by {
            assert(text::is_digit(a[i]));
        }
        text::the_first_one_is_found(s, '.');
        assert(s.contains('.'));
        assert(text::find(s, '.') == a.len());
        assert(whole(s) =~= a);
        assert(fraction(s) =~= b);
        lemma_digits_of_both(a, b);
        lemma_fundamental_div_mod(q as int, p as int);
        lemma_mod_bound(q as int, p as int);
        assert((q / p) * p == p * (q / p)) by (nonlinear_arith);
    }
}

/// Digits alone are a number without a point or an exponent.
proof fn lemma_digits_only(s: Seq<char>)
    requires
        text::all_digits(s),
        s.len() > 0,
    ensures
        number(s) == Some((text::digits_value(s), 0int)),
{
    text::the_first_one_is_found(s, 'e');
    text::the_first_one_is_found(s, '.');
    if s.contains('e') {
        let i = choose|i: int| 0 <= i < s.len() && s[i] == 'e';
        assert(text::is_digit(s[i]));
    }
    if s.contains('.') {
        let i = choose|i: int| 0 <= i < s.len() && s[i] == '.';
        assert(text::is_digit(s[i]));
    }
    assert(mantissa(s) =~= s);
    assert(whole(s) =~= s);
    assert(s + fraction(s) =~= s);
}

proof fn lemma_padded(n: nat, k: nat)
    requires
        n < pow10(k),
    ensures
        padded(n, k).len() == k,
        text::all_digits(padded(n, k)),
        text::digits_value(padded(n, k)) == n,
    decreases k,
{
    if k > 0 {
        assert(n / 10 < pow10((k - 1) as nat));
        lemma_padded(n / 10, (k - 1) as nat);
        let head = padded(n / 10, (k - 1) as nat);
        let d = text::digit_char(n % 10);
        assert(head.push(d).drop_last() =~= head);
        assert forall|i: int| 0 <= i < padded(n, k).len() implies text::is_digit(
            #[trigger] padded(n, k)[i],
        ) by {
            if i < head.len() {
                assert(padded(n, k)[i] == head[i]);
            }
        }
    }
}

/// The digits of two runs one after the other.
proof fn lemma_digits_of_both(a: Seq<char>, b: Seq<char>)
    requires
        text::all_digits(a),
        text::all_digits(b),
    ensures
        text::all_digits(a + b),
        text::digits_value(a + b) == text::digits_value(a) * pow10(b.len()) + text::digits_value(b),
    decreases b.len(),
{
    assert forall|i: int| 0 <= i < (a + b).len() implies text::is_digit(#[trigger] (a + b)[i]) by {
        if i < a.len() {
            assert((a + b)[i] == a[i]);
        } else {
            assert((a + b)[i] == b[i - a.len()]);
        }
    }
    if b.len() == 0 {
        assert(a + b =~= a);
        assert(text::digits_value(a) * 1 == text::digits_value(a));
    } else {
        let rest = b.drop_last();
        assert((a + b).last() == b.last());
        assert(pow10(b.len()) == 10 * pow10(rest.len()));
        assert forall|i: int| 0 <= i < rest.len() implies text::is_digit(#[trigger] rest[i]) by {
            assert(rest[i] == b[i]);
        }
        lemma_digits_of_both(a, rest);
        assert((a + b).drop_last() =~= a + rest);
        let (x, p) = (text::digits_value(a), pow10(rest.len()));
        assert((x * p) * 10 == x * (10 * p)) by (nonlinear_arith);
    }
}

/// Whole numbers are read as the doubles nearest to them.
pub proof fn whole_numbers_are_read(n: nat)
    ensures
        read(text::decimal(n)) == Some(double::of_int(n)),
        number(text::decimal(n)) == Some((n, 0int)),
{
    let s = text::decimal(n);
    text::a_numeral_stands_for_its_number(n);
    lemma_digits_only(s);
    lemma_unsigned_digits(s);
    assert(pow10(0) == 1);
    assert(n * 1 * pow2(1074) == n * pow2(1074));
}

/// What starts with a digit, has digits and a point only, is read as a number
/// without a sign.
proof fn lemma_unsigned_digits(s: Seq<char>)
    requires
        s.len() > 0,
        forall|i: int| 0 <= i < s.len() ==> text::is_digit(#[trigger] s[i]) || s[i] == '.',
        text::is_digit(s[0]),
        number(s) is Some,
    ensures
        number(s) matches Some((v, e)) && read(s) == Some(
            double::signed(false, decimal_rounded(v, e)),
        ),
{
    reveal_strlit("inf");
    reveal_strlit("infinity");
    reveal_strlit("nan");
    assert(text::lowercased(s) =~= s) by {
        assert forall|i: int| 0 <= i < s.len() implies text::lower(#[trigger] s[i]) == s[i] by {}
    }
    assert("inf"@[0] == 'i' && "infinity"@[0] == 'i' && "nan"@[0] == 'n');
}

/// A number is written so that it is read back as itself: the shortest decimal
/// of its magnitude does.
pub proof fn what_is_written_is_read_back(x: Double, d: nat, k: int)
    requires
        !x.nan(),
        x.infinite() || x.abs_bits() == 0 || shortest(x.abs_bits(), d, k),
    ensures
        read(display(x)) == Some(x),
{
    reveal_strlit("inf");
    reveal_strlit("infinity");
    reveal_strlit("nan");
    reveal_strlit("0");
    let m = x.abs_bits();
    let body = if x.infinite() {
        "inf"@
    } else if m == 0 {
        "0"@
    } else {
        shortest_text(m)
    };
    let sign = if x.negative() {
        seq!['-']
    } else {
        Seq::empty()
    };
    let s = sign + body;
    assert(display(x) == s);
    if x.infinite() {
        assert(text::lowercased("inf"@) =~= "inf"@);
        if x.negative() {
            assert(s.drop_first() =~= body);
        } else {
            assert(s =~= body);
            assert("inf"@[0] == 'i');
        }
    } else {
        if m == 0 {
            assert("0"@ =~= text::decimal(0));
            whole_numbers_are_read(0);
            text::a_numeral_stands_for_its_number(0);
            double::lemma_one();
            assert(decimal_rounded(0, 0) == 0) by {
                assert(pow10(0) == 1);
                assert(0 * 1 * pow2(1074) == 0);
                double::lemma_zero();
                double::lemma_rounded_exact(0, 1);
                assert(double::magnitude(0) * 1 == 0);
            }
        } else {
            let (d2, k2) = choose|d: nat, k: int| shortest(m, d, k);
            lemma_plain_text(d2, k2);
        }
        assert(forall|i: int|
            0 <= i < body.len() ==> text::is_digit(#[trigger] body[i]) || body[i] == '.');
        assert(text::is_digit(body[0]));
        lemma_unsigned_digits(body);
        assert(number(body) matches Some((v, e)) && decimal_rounded(v, e) == m);
        assert(text::lowercased(body) =~= body) by {
            assert forall|i: int| 0 <= i < body.len() implies text::lower(#[trigger] body[i])
                == body[i] by {}
        }
        assert("inf"@[0] == 'i' && "infinity"@[0] == 'i' && "nan"@[0] == 'n');
        if x.negative() {
            assert(s.drop_first() =~= body);
            assert(s[0] == '-');
        } else {
            assert(s =~= body);
        }
    }
}

proof fn lemma_plain_text(d: nat, k: int)
    ensures
        ({
            let s = plain_text(d, k);
            &&& s.len() > 0
            &&& text::is_digit(s[0])
            &&& forall|i: int| 0 <= i < s.len() ==> text::is_digit(#[trigger] s[i]) || s[i] == '.'
            &&& number(s) matches Some((v, e)) && decimal_rounded(v, e) == decimal_rounded(d, k)
        }),
{
    let s = plain_text(d, k);
    if k >= 0 {
        let n = d * pow10(k as nat);
        whole_numbers_are_read(n);
        text::a_numeral_stands_for_its_number(n);
        assert(pow10(0) == 1);
        assert(n * 1 == n);
        assert(text::is_digit(s[0]));
    } else {
        let j = (-k) as nat;
        a_pointed_number_reads_so(d, j);
        lemma_pow10(j);
        let a = text::decimal(d / pow10(j));
        let b = padded(d % pow10(j), j);
        text::a_numeral_stands_for_its_number(d / pow10(j));
        lemma_mod_bound(d as int, pow10(j) as int);
        lemma_padded(d % pow10(j), j);
        assert(s == a + seq!['.'] + b);
        assert(s[0] == a[0] && text::is_digit(a[0]));
        assert forall|i: int| 0 <= i < s.len() implies text::is_digit(#[trigger] s[i]) || s[i]
            == '.' by {
            if i < a.len() {
                assert(text::is_digit(a[i]));
            } else if i > a.len() {
                assert(text::is_digit(b[i - a.len() - 1]));
            }
        }
    }
}

/// A number written with `k` places is off by half of the last place at most.
pub proof fn fixed_places_are_near(x: Double, k: nat)
    requires
        x.finite(),
    ensures
        ({
            let sign = if x.negative() {
                seq!['-']
            } else {
                Seq::empty()
            };
            exists|q: nat|
                {
                    &&& fixed(x, k) == sign + #[trigger] point_text(q, k)
                    &&& number(point_text(q, k)) == Some((q, -(k as int)))
                    &&& 2 * (x.abs_value() * pow10(k)) <= 2 * (q * pow2(1074)) + pow2(1074)
                    &&& 2 * (q * pow2(1074)) <= 2 * (x.abs_value() * pow10(k)) + pow2(1074)
                }
        }),
{
    lemma_pow2_pos(1074);
    let q = half_even(x.abs_value() * pow10(k), pow2(1074));
    rounding_goes_to_the_nearest(x.abs_value() * pow10(k), pow2(1074));
    a_pointed_number_reads_so(q, k);
}

} // verus!
