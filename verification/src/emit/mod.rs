//! What becomes of completed rounds: the log line, and the formats of the
//! time-series databases.
pub mod graphite;
pub mod influx;
pub mod prometheus;

use crate::decimal;
use crate::decimal::fixed_text;
use crate::double;
use crate::double::Double;
use crate::probe;
use crate::probe::RoundResult;
use crate::time::Duration;
use vstd::prelude::*;
use vstd::string::*;

verus! {

/// "12.34ms"
pub open spec fn rtt_text(d: Duration) -> Seq<char> {
    decimal::fixed(d.millis(), 2) + "ms"@
}

/// "12.34ms", or "-" where there is nothing to show.
pub open spec fn opt_text(d: Option<Duration>) -> Seq<char> {
    match d {
        Some(d) => rtt_text(d),
        None => "-"@,
    }
}

pub fn fmt_opt(d: Option<Duration>) -> (r: String)
    ensures
        r@ == opt_text(d),
{
    match d {
        Some(d) => fmt_rtt(d),
        None => "-".to_owned(),
    }
}

pub fn fmt_rtt(d: Duration) -> (r: String)
    ensures
        r@ == rtt_text(d),
{
    let mut s = fixed_text(d.as_millis_f64(), 2);
    s.append("ms");
    s
}

/// Seconds as milliseconds, "-" where they are unknown.
pub fn fmt_ms(secs: Double) -> (r: String)
    ensures
        r@ == (if secs.nan() {
            "-"@
        } else {
            decimal::fixed(double::product(secs, double::of_int(1000)), 2) + "ms"@
        }),
{
    if secs.is_nan() {
        return "-".to_owned();
    }
    let mut s = fixed_text(secs.times(Double::from_u64(1000)), 2);
    s.append("ms");
    s
}

/// A percentage with one place, "-" where it is unknown.
pub fn fmt_pct(v: Double) -> (r: String)
    ensures
        r@ == (if v.nan() {
            "-"@
        } else {
            decimal::fixed(v, 1)
        }),
{
    if v.is_nan() {
        "-".to_owned()
    } else {
        fixed_text(v, 1)
    }
}

/// A round in the words of the log.
#[derive(Debug)]
pub struct Summary {
    pub sent: u32,
    pub recv: u32,
    pub loss: String,
    pub min: String,
    pub med: String,
    pub avg: String,
    pub max: String,
}

/// The mean of the spans, rounded down.
pub open spec fn mean(rtts: Seq<Duration>) -> Option<Duration> {
    if rtts.len() == 0 {
        None
    } else {
        Some(Duration { nanos: (probe::total(rtts) / rtts.len()) as u128 })
    }
}

/// Tells the log of every round.
#[derive(Debug)]
pub struct LogEmitter;

impl LogEmitter {
    pub fn summarize(&self, r: &RoundResult) -> (s: Summary)
        requires
            r.wf(),
            probe::total(r.rtts@) <= u128::MAX,
        ensures
            s.sent == r.sent,
            s.recv == r.rtts@.len(),
            s.loss@ == decimal::fixed(r.loss(), 1) + "%"@,
            s.min@ == opt_text(probe::least(r.rtts@)),
            s.med@ == opt_text(r.middle()),
            s.avg@ == opt_text(mean(r.rtts@)),
            s.max@ == opt_text(probe::greatest(r.rtts@)),
    {
        let mut loss = fixed_text(r.loss_pct(), 1);
        loss.append("%");
        let avg = r.avg();
        assert(avg == mean(r.rtts@));
        Summary {
            sent: r.sent,
            recv: r.received(),
            loss,
            min: fmt_opt(r.min()),
            med: fmt_opt(r.median()),
            avg: fmt_opt(avg),
            max: fmt_opt(r.max()),
        }
    }
}

/// The mean is that of all spans together, less than a nanosecond off, and
/// there is one wherever there is a span.
pub proof fn a_mean_is_the_total_shared_out(rtts: Seq<Duration>)
    requires
        probe::total(rtts) <= u128::MAX,
    ensures
        match mean(rtts) {
            Some(d) => rtts.len() > 0 && d.nanos * rtts.len() <= probe::total(rtts) < (d.nanos + 1)
                * rtts.len(),
            None => rtts.len() == 0,
        },
{
    if rtts.len() > 0 {
        let (t, n) = (probe::total(rtts) as int, rtts.len() as int);
        let q = t / n;
        assert(0 <= q <= t && q * n <= t < (q + 1) * n) by (nonlinear_arith)
            requires
                q == t / n,
                n > 0,
                t >= 0,
        ;
    }
}

} // verus!
