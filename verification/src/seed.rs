//! Synthetic demo history: a slow swell, a latency step, a couple of loss
//! events, one outage. Deterministic.
use crate::double;
use crate::double::Double;
use crate::probe::{IpAddr, RoundResult};
use crate::time;
use crate::time::Duration;
use vstd::arithmetic::div_mod::*;
use vstd::arithmetic::power2::*;
use vstd::prelude::*;
use vstd::string::*;

verus! {

pub const STIR: u64 = 0x9e37_79b9_7f4a_7c15;

/// 0.15
pub const SHARE_LOST: u64 = 0x3fc3_3333_3333_3333;

/// 0.38
pub const LOSS_FROM: u64 = 0x3fd8_51eb_851e_b852;

/// 0.4
pub const JITTER: u64 = 0x3fd9_9999_9999_999a;

/// 0.45
pub const LOSS_TO: u64 = 0x3fdc_cccc_cccc_cccd;

/// 0.60
pub const OUTAGE_FROM: u64 = 0x3fe3_3333_3333_3333;

/// 0.62
pub const OUTAGE_TO: u64 = 0x3fe3_d70a_3d70_a3d7;

/// 0.75
pub const STEP_AFTER: u64 = 0x3fe8_0000_0000_0000;

/// A time and a salt, stirred by shifts.
pub open spec fn stirred(t: u64, salt: u64) -> u64 {
    let a = t ^ salt.wrapping_mul(STIR);
    let b = a ^ (a << 13);
    let c = b ^ (b >> 7);
    c ^ (c << 17)
}

/// Noise between 0 and 1, the same for the same time and salt.
pub open spec fn noise_of(t: u64, salt: u64) -> Double {
    double::quotient(
        double::of_int((stirred(t, salt) % 1000) as nat),
        double::of_int(1000),
    )
}

pub fn noise(t: u64, salt: u64) -> (r: Double)
    ensures
        r == noise_of(t, salt),
{
    let a: u64 = t ^ salt.wrapping_mul(STIR);
    let b: u64 = a ^ (a << 13);
    let c: u64 = b ^ (b >> 7);
    let x: u64 = c ^ (c << 17);
    Double::from_u64(x % 1000).over(Double::from_u64(1000))
}

/// How far a time is through the history, from 0 to 1.
pub open spec fn phase_of(t: int, from: int, now: int) -> Double {
    double::quotient(double::of_int((t - from) as nat), double::of_int((now - from) as nat))
}

pub fn phase(t: i64, from: i64, now: i64) -> (r: Double)
    requires
        0 <= from <= t <= now,
    ensures
        r == phase_of(t as int, from as int, now as int),
{
    Double::from_u64((t - from) as u64).over(Double::from_u64((now - from) as u64))
}

/// Whether a number is in a range, its end left out.
pub open spec fn within(x: Double, from: Double, to: Double) -> bool {
    (from.less(x) || from.equals(x)) && x.less(to)
}

fn is_within(x: Double, from: Double, to: Double) -> (r: bool)
    ensures
        r == within(x, from, to),
{
    (from.num_lt(x) || from.num_eq(x)) && x.num_lt(to)
}

/// The whole part of a number, as far as it is one of 32 bits.
pub open spec fn whole_of(x: Double) -> int {
    if x.nan() || x.negative() {
        0
    } else if x.value() / (pow2(1074) as int) > u32::MAX {
        u32::MAX as int
    } else {
        x.value() / (pow2(1074) as int)
    }
}

fn whole(x: Double) -> (r: u32)
    ensures
        r == whole_of(x),
{
    if x.is_nan() || x.bits >= double::SIGN {
        return 0;
    }
    let (q, e): (u64, u32) = x.parts();
    proof {
        lemma_pow2_pos(1074);
        lemma_pow2_pos(e as nat);
    }
    let ghost v = x.value();
    assert(v == q * pow2(e as nat));
    if e >= 1074 {
        proof {
            let s = (e - 1074) as nat;
            lemma_pow2_adds(s, 1074);
            lemma_pow2_pos(s);
            let p = pow2(s);
            let unit = pow2(1074);
            assert(v == unit * (q * p)) by (nonlinear_arith)
                requires
                    v == q * (p * unit),
            ;
            lemma_div_multiples_vanish(q * p, unit as int);
            assert(q * p >= q) by (nonlinear_arith)
                requires
                    q >= 0,
                    p >= 1,
            ;
        }
        return u32::MAX;
    }
    let s: u32 = 1074 - e;
    proof {
        lemma_pow2_adds(e as nat, s as nat);
        lemma_pow2_pos(s as nat);
        let p = pow2(e as nat) as int;
        assert(v == p * q) by (nonlinear_arith)
            requires
                v == q * p,
        ;
        lemma_div_denominator(v, p, pow2(s as nat) as int);
        lemma_div_multiples_vanish(q as int, p);
        assert(v / (pow2(1074) as int) == q as int / (pow2(s as nat) as int));
    }
    if s >= 54 {
        proof {
            lemma2_to64();
            lemma2_to64_rest();
            if s > 54 {
                lemma_pow2_strictly_increases(54, s as nat);
            }
            lemma_basic_div(q as int, pow2(s as nat) as int);
        }
        return 0;
    }
    let w: u128 = q as u128 / double::power_of_two(s);
    if w > u32::MAX as u128 {
        u32::MAX
    } else {
        w as u32
    }
}

/// The reply time that others vary from, in milliseconds: 12ms, swelling to
/// 25ms with `swell`, and 8ms more in the last quarter.
pub open spec fn base_of(phase: Double, swell: Double) -> Double {
    let b = double::sum(double::of_int(12), double::product(double::of_int(13), swell));
    if (Double { bits: STEP_AFTER }).less(phase) {
        double::sum(b, double::of_int(8))
    } else {
        b
    }
}

fn base(phase: Double, swell: Double) -> (r: Double)
    ensures
        r == base_of(phase, swell),
{
    let b = Double::from_u64(12).plus(Double::from_u64(13).times(swell));
    let after = Double { bits: STEP_AFTER };
    if after.num_lt(phase) {
        b.plus(Double::from_u64(8))
    } else {
        b
    }
}

/// How many pings of a round are lost: all in a short band, a few in another.
pub open spec fn lost_of(phase: Double, t: u64, pings: u32) -> int {
    if within(phase, Double { bits: OUTAGE_FROM }, Double { bits: OUTAGE_TO }) {
        pings as int
    } else if within(phase, Double { bits: LOSS_FROM }, Double { bits: LOSS_TO }) {
        1 + whole_of(
            double::product(
                double::product(noise_of(t, 7), Double { bits: SHARE_LOST }),
                double::of_int(pings as nat),
            ),
        )
    } else {
        0
    }
}

fn lost(phase: Double, t: u64, pings: u32) -> (r: u64)
    ensures
        r == lost_of(phase, t, pings),
{
    if is_within(phase, Double { bits: OUTAGE_FROM }, Double { bits: OUTAGE_TO }) {
        pings as u64
    } else if is_within(phase, Double { bits: LOSS_FROM }, Double { bits: LOSS_TO }) {
        let share = Double { bits: SHARE_LOST };
        1 + whole(noise(t, 7).times(share).times(Double::from_u64(pings as u64))) as u64
    } else {
        0
    }
}

/// How many pings of a round are answered.
pub open spec fn answered_of(phase: Double, t: u64, pings: u32) -> int {
    let gone = lost_of(phase, t, pings);
    if gone >= pings {
        0
    } else {
        pings - gone
    }
}

fn answered(phase: Double, t: u64, pings: u32) -> (r: u32)
    ensures
        r == answered_of(phase, t, pings),
        r <= pings,
{
    let gone: u64 = lost(phase, t, pings);
    if gone >= pings as u64 {
        0
    } else {
        (pings as u64 - gone) as u32
    }
}

/// The time of the `i`-th reply in seconds: the base, and up to 40% of it.
pub open spec fn reply_of(base: Double, t: u64, i: u64) -> Double {
    double::quotient(
        double::sum(
            base,
            double::product(double::product(noise_of(t, i), base), Double { bits: JITTER }),
        ),
        double::of_int(1000),
    )
}

fn reply(base: Double, t: u64, i: u64) -> (r: Double)
    ensures
        r == reply_of(base, t, i),
{
    let jitter = noise(t, i).times(base).times(Double { bits: JITTER });
    base.plus(jitter).over(Double::from_u64(1000))
}

/// Every reply time of the round of time `t` is one that a span can have.
pub open spec fn tellable(t: i64, from: i64, now: i64, pings: u32, swell: Double) -> bool {
    let phase = phase_of(t as int, from as int, now as int);
    let n = answered_of(phase, t as u64, pings);
    forall|i: int|
        0 <= i < n ==> time::is_span(
            #[trigger] reply_of(base_of(phase, swell), t as u64, i as u64),
        )
}

/// The fabricated round of time `t`.
pub open spec fn fabricated(
    r: RoundResult,
    target: Seq<char>,
    t: i64,
    from: i64,
    now: i64,
    pings: u32,
    swell: Double,
) -> bool {
    let phase = phase_of(t as int, from as int, now as int);
    &&& r.target@ == target
    &&& r.host@ == "seeded"@
    &&& r.addr == IpAddr::V4(0xc000_0201)
    &&& r.started == Some(Duration { nanos: (t * time::NANOS_PER_SEC) as u128 })
    &&& r.sent == pings
    &&& r.rtts@ == Seq::new(
        answered_of(phase, t as u64, pings) as nat,
        |i: int|
            Duration {
                nanos: time::nanos_of(
                    reply_of(base_of(phase, swell), t as u64, i as u64),
                ) as u128,
            },
    )
}

/// Whether the reply times of a round can be told.
pub fn is_tellable(t: i64, from: i64, now: i64, pings: u32, swell: Double) -> (r: bool)
    requires
        0 <= from <= t <= now,
    ensures
        r == tellable(t, from, now, pings, swell),
{
    let p = phase(t, from, now);
    let b = base(p, swell);
    let n: u32 = answered(p, t as u64, pings);
    let mut i: u32 = 0;
    while i < n
        invariant
            i <= n,
            t >= 0,
            p == phase_of(t as int, from as int, now as int),
            b == base_of(p, swell),
            n == answered_of(p, t as u64, pings),
            forall|j: int|
                0 <= j < i ==> time::is_span(#[trigger] reply_of(b, t as u64, j as u64)),
        decreases n - i,
    {
        if Duration::try_from_secs_f64(reply(b, t as u64, i as u64)).is_none() {
            assert(!time::is_span(reply_of(b, t as u64, i as int as u64)));
            assert(0 <= (i as int) < n);
            return false;
        }
        i = i + 1;
    }
    true
}

/// Fabricates the round of time `t` in a history from `from` to `now`. `swell`
/// is the sine of the phase's half turn.
pub fn seeded_round(
    target: &str,
    t: i64,
    from: i64,
    now: i64,
    pings: u32,
    swell: Double,
) -> (r: RoundResult)
    requires
        0 <= from <= t <= now,
        tellable(t, from, now, pings, swell),
    ensures
        fabricated(r, target@, t, from, now, pings, swell),
        r.wf(),
{
    let p = phase(t, from, now);
    let b = base(p, swell);
    let n: u32 = answered(p, t as u64, pings);
    let ghost want = Seq::new(
        n as nat,
        |i: int| Duration { nanos: time::nanos_of(reply_of(b, t as u64, i as u64)) as u128 },
    );
    let mut rtts: Vec<Duration> = Vec::new();
    let mut i: u32 = 0;
    while i < n
        invariant
            i <= n,
            t >= 0,
            n == want.len(),
            rtts@.len() == i,
            forall|j: int| 0 <= j < n ==> time::is_span(#[trigger] reply_of(b, t as u64, j as u64)),
            forall|j: int|
                0 <= j < n ==> (#[trigger] want[j]) == (Duration {
                    nanos: time::nanos_of(reply_of(b, t as u64, j as u64)) as u128,
                }),
            forall|j: int| 0 <= j < i ==> (#[trigger] rtts@[j]) == want[j],
        decreases n - i,
    {
        assert(time::is_span(reply_of(b, t as u64, i as int as u64)));
        match Duration::try_from_secs_f64(reply(b, t as u64, i as u64)) {
            Some(d) => {
                assert(want[i as int].nanos == d.nanos);
                rtts.push(d);
            },
            None => {},
        }
        i = i + 1;
    }
    assert(rtts@ =~= want);
    let started = Duration::from_secs(t as u64);
    assert(started.nanos / time::NANOS_PER_SEC == t as u128) by (nonlinear_arith)
        requires
            started.nanos == t * time::NANOS_PER_SEC,
            time::NANOS_PER_SEC == 1_000_000_000,
            t >= 0,
    ;
    RoundResult {
        target: target.to_owned(),
        host: "seeded".to_owned(),
        addr: IpAddr::V4(0xc000_0201),
        started: Some(started),
        sent: pings,
        rtts,
    }
}


/// The time of the round after that of time `t`, if there is one.
pub fn next_time(t: i64, now: i64, step: u64) -> (r: Option<i64>)
    requires
        t <= now,
    ensures
        r == (if t + step <= now {
            Some((t + step) as i64)
        } else {
            None
        }),
{
    let next: i128 = t as i128 + step as i128;
    if next <= now as i128 {
        Some(next as i64)
    } else {
        None
    }
}

pub fn seeded_text(rounds: u64, target: &str, history: &str) -> (r: String)
    ensures
        r@ == "seeded "@ + crate::text::decimal(rounds as nat) + " rounds for "@ + target@
            + " over "@ + history@,
{
    let mut s = "seeded ".to_owned();
    s.append(crate::text::decimal_u64(rounds).as_str());
    s.append(" rounds for ");
    s.append(target);
    s.append(" over ");
    s.append(history);
    s
}

/// The bands of the history and the shares are these: pings are lost from 38%
/// to 45% of the way, all of them from 60% to 62%, and replies are slower after
/// 75%; up to 15% of the pings are lost besides the one, and replies vary by up
/// to 40%. Each is the number nearest to its percentage.
pub proof fn the_bands_are_where_they_are_said()
    ensures
        double::nearest(38 * pow2(1074), 100, LOSS_FROM as nat),
        double::nearest(45 * pow2(1074), 100, LOSS_TO as nat),
        double::nearest(60 * pow2(1074), 100, OUTAGE_FROM as nat),
        double::nearest(62 * pow2(1074), 100, OUTAGE_TO as nat),
        double::nearest(75 * pow2(1074), 100, STEP_AFTER as nat),
        double::nearest(15 * pow2(1074), 100, SHARE_LOST as nat),
        double::nearest(40 * pow2(1074), 100, JITTER as nat),
{
    lemma2_to64();
    lemma_powers_of_the_bands();
    double::lemma_nearest_by(38, 100, LOSS_FROM as nat, 54);
    double::lemma_nearest_by(45, 100, LOSS_TO as nat, 54);
    double::lemma_nearest_by(60, 100, OUTAGE_FROM as nat, 53);
    double::lemma_nearest_by(62, 100, OUTAGE_TO as nat, 53);
    double::lemma_nearest_by(75, 100, STEP_AFTER as nat, 53);
    double::lemma_nearest_by(15, 100, SHARE_LOST as nat, 55);
    double::lemma_nearest_by(40, 100, JITTER as nat, 54);
}

/// In the outage all pings are lost, in the band of loss at least one is, and
/// everywhere else every ping is answered.
pub proof fn rounds_lose_what_their_band_loses(phase: Double, t: u64, pings: u32)
    ensures
        ({
            let after = |x: u64| !phase.nan() && (Double { bits: x }).value() <= phase.value();
            let out = after(OUTAGE_FROM) && !after(OUTAGE_TO);
            let lossy = after(LOSS_FROM) && !after(LOSS_TO);
            let n = answered_of(phase, t, pings);
            &&& 0 <= n <= pings
            &&& out ==> n == 0
            &&& lossy && pings > 0 ==> n < pings
            &&& !out && !lossy ==> n == pings
        }),
{
    let x = double::product(
        double::product(noise_of(t, 7), Double { bits: SHARE_LOST }),
        double::of_int(pings as nat),
    );
    lemma_whole(x);
    assert(!(Double { bits: OUTAGE_FROM }).nan());
    assert(!(Double { bits: OUTAGE_TO }).nan());
    assert(!(Double { bits: LOSS_FROM }).nan());
    assert(!(Double { bits: LOSS_TO }).nan());
}

/// A whole part is the greatest whole number that is not above it.
proof fn lemma_whole(x: Double)
    ensures
        0 <= whole_of(x) <= u32::MAX,
{
    lemma_pow2_pos(1074);
    if !x.nan() && !x.negative() {
        let (v, p) = (x.value(), pow2(1074) as int);
        assert(v / p >= 0) by (nonlinear_arith)
            requires
                v >= 0,
                p > 0,
        ;
    }
}

proof fn lemma_powers_of_the_bands()
    ensures
        pow2(53) == 0x20000000000000,
        pow2(54) == 0x40000000000000,
        pow2(55) == 0x80000000000000,
{
    lemma2_to64();
    lemma2_to64_rest();
}

} // verus!
