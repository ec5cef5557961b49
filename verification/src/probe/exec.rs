//! Exec probe: run an external command once per round and parse RTTs (ms)
//! from its output.
//!
//! The command gets %host% and %pings% substituted, and must print one
//! token per ping: a number (RTT in ms) or `-` for a lost ping — exactly
//! fping's `-C` format, so `command = "fping -C %pings% -q %host%"` works
//! out of the box (fping prints to stderr; both streams are parsed).
use crate::config::ExecConfig;
use crate::decimal;
use crate::decimal::read_double;
use crate::double;
use crate::double::{Double, HIDDEN};
use crate::probe::{IpAddr, RoundResult};
use crate::text;
use crate::text::{decimal_u64, replace, split_words};
use crate::time;
use crate::time::Duration;
use vstd::prelude::*;
use vstd::string::*;

verus! {

#[derive(Debug)]
pub struct ExecProbe {
    pub command: String,
    pub round_timeout: Duration,
}

/// A token is an RTT: a number that is finite and not negative.
pub open spec fn reading(tok: Seq<char>) -> Option<Double> {
    match decimal::read(tok) {
        Some(x) => if x.finite() && x.value() >= 0 {
            Some(x)
        } else {
            None
        },
        None => None,
    }
}

/// The RTTs among the tokens, in milliseconds.
pub open spec fn readings(toks: Seq<Seq<char>>) -> Seq<Double>
    decreases toks.len(),
{
    if toks.len() == 0 {
        Seq::empty()
    } else {
        match reading(toks.last()) {
            Some(x) => readings(toks.drop_last()).push(x),
            None => readings(toks.drop_last()),
        }
    }
}

/// The first `max` of some values.
pub open spec fn at_most(s: Seq<Double>, max: nat) -> Seq<Double> {
    if s.len() <= max {
        s
    } else {
        s.take(max as int)
    }
}

/// The seconds of a number of milliseconds.
pub open spec fn secs_of(ms: Double) -> Double {
    double::quotient(ms, double::of_int(1000))
}

/// Every RTT that the output gives is a span that can be held.
pub open spec fn measurable(text: Seq<char>, max: nat) -> bool {
    let ms = at_most(readings(text::words(text)), max);
    forall|i: int| 0 <= i < ms.len() ==> time::is_span(secs_of(#[trigger] ms[i]))
}

impl ExecProbe {
    /// The probe was made from these parameters.
    pub open spec fn of(self, cfg: ExecConfig) -> bool {
        &&& self.command@ == cfg.command@
        &&& self.round_timeout.nanos == cfg.round_timeout_ms * 1_000_000
    }

    pub fn new(cfg: &ExecConfig) -> (p: ExecProbe)
        ensures
            p.of(*cfg),
    {
        ExecProbe {
            command: cfg.command.clone(),
            round_timeout: Duration::from_millis(cfg.round_timeout_ms),
        }
    }

    /// The command to run for a round.
    pub fn command_for(&self, host: &str, pings: u32) -> (r: String)
        ensures
            r@ == text::replaced(
                text::replaced(self.command@, "%host%"@, host@),
                "%pings%"@,
                text::decimal(pings as nat),
            ),
    {
        proof {
            reveal_strlit("%host%");
            reveal_strlit("%pings%");
        }
        let with_host = replace(self.command.as_str(), "%host%", host);
        replace(with_host.as_str(), "%pings%", decimal_u64(pings as u64).as_str())
    }
}

/// What is parsed of a command's output: both streams, one after the other.
pub fn output_text(stdout: &str, stderr: &str) -> (r: String)
    ensures
        r@ == stdout@ + seq![' '] + stderr@,
{
    let mut text = stdout.to_owned();
    text.push(' ');
    text.append(stderr);
    assert(text@ == stdout@ + seq![' '] + stderr@);
    text
}

fn read_rtts(text: &str, max: usize) -> (r: Vec<Double>)
    ensures
        r@ == at_most(readings(text::words(text@)), max as nat),
{
    let toks = split_words(text);
    let ghost all = text::texts(toks@);
    let mut out: Vec<Double> = Vec::new();
    let mut i: usize = 0;
    assert(all.take(0) == Seq::<Seq<char>>::empty());
    while i < toks.len()
        invariant
            all == text::texts(toks@),
            i <= toks@.len(),
            out@ == at_most(readings(all.take(i as int)), max as nat),
        decreases toks@.len() - i,
    {
        assert(all.take(i + 1).drop_last() == all.take(i as int));
        assert(all.take(i + 1).last() == toks@[i as int]@);
        let ghost before = readings(all.take(i as int));
        match read_double(toks[i].as_str()) {
            Some(x) => {
                let negative = x.num_lt(Double { bits: 0 });
                proof {
                    lemma_zero_value();
                }
                if x.is_finite() && !negative {
                    assert(reading(toks@[i as int]@) == Some(x));
                    if out.len() < max {
                        out.push(x);
                        assert(before.len() < max);
                    } else {
                        assert(before.push(x).take(max as int) == at_most(before, max as nat));
                    }
                }
            },
            None => {},
        }
        i = i + 1;
    }
    assert(all.take(i as int) == all);
    out
}

proof fn lemma_zero_value()
    ensures
        (Double { bits: 0 }).value() == 0,
        !(Double { bits: 0 }).nan(),
{
    double::lemma_one();
    double::lemma_compose(0, 0);
    assert(0 * (HIDDEN as nat) + 0 == 0 && 0 * vstd::arithmetic::power2::pow2(0) == 0);
}

/// Whether every RTT that the output gives is a span that can be held.
pub fn is_measurable(text: &str, max: usize) -> (r: bool)
    ensures
        r == measurable(text@, max as nat),
{
    let ms = read_rtts(text, max);
    let mut i: usize = 0;
    while i < ms.len()
        invariant
            ms@ == at_most(readings(text::words(text@)), max as nat),
            i <= ms@.len(),
            forall|j: int| 0 <= j < i ==> time::is_span(secs_of(#[trigger] ms@[j])),
        decreases ms@.len() - i,
    {
        if Duration::try_from_secs_f64(ms[i].over(Double::from_u64(1000))).is_none() {
            assert(!time::is_span(secs_of(ms@[i as int])));
            return false;
        }
        i = i + 1;
    }
    true
}

/// Pulls up to `max` RTT tokens (ms) out of the command output. Tokens that
/// aren't numbers (hostnames, colons, `-`) are ignored.
pub fn parse_rtts(text: &str, max: usize) -> (r: Vec<Duration>)
    requires
        measurable(text@, max as nat),
    ensures
        ({
            let ms = at_most(readings(text::words(text@)), max as nat);
            r@ == Seq::new(
                ms.len(),
                |i: int| Duration { nanos: time::nanos_of(secs_of(ms[i])) as u128 },
            )
        }),
{
    let ms = read_rtts(text, max);
    let mut out: Vec<Duration> = Vec::new();
    let mut i: usize = 0;
    while i < ms.len()
        invariant
            measurable(text@, max as nat),
            ms@ == at_most(readings(text::words(text@)), max as nat),
            i <= ms@.len(),
            out@.len() == i,
            forall|j: int|
                0 <= j < i ==> #[trigger] out@[j] == (Duration {
                    nanos: time::nanos_of(secs_of(ms@[j])) as u128,
                }),
        decreases ms@.len() - i,
    {
        assert(time::is_span(secs_of(ms@[i as int])));
        let d = Duration::try_from_secs_f64(ms[i].over(Double::from_u64(1000)));
        out.push(d.unwrap());
        i = i + 1;
    }
    out
}

/// The round that a command's output makes: as many pings as were asked for
/// count as sent, whatever was printed. Without a single RTT a command that
/// did not succeed is worth a warning.
pub fn conclude(
    output: &str,
    succeeded: bool,
    target: &str,
    host: &str,
    addr: IpAddr,
    started: Option<Duration>,
    pings: u32,
) -> (r: (RoundResult, bool))
    requires
        measurable(output@, pings as nat),
    ensures
        ({
            let ms = at_most(readings(text::words(output@)), pings as nat);
            &&& r.0.target@ == target@
            &&& r.0.host@ == host@
            &&& r.0.addr == addr
            &&& r.0.started == started
            &&& r.0.sent == pings
            &&& r.0.rtts@ == Seq::new(
                ms.len(),
                |i: int| Duration { nanos: time::nanos_of(secs_of(ms[i])) as u128 },
            )
            &&& r.0.rtts@.len() <= pings
            &&& r.1 == (ms.len() == 0 && !succeeded)
        }),
{
    let rtts = parse_rtts(output, pings as usize);
    let warn = rtts.len() == 0 && !succeeded;
    let r = RoundResult {
        target: target.to_owned(),
        host: host.to_owned(),
        addr,
        started,
        sent: pings,
        rtts,
    };
    (r, warn)
}

/// The replies among the tokens are found token by token, in their order: a
/// token is one where it reads as a number that is finite and not negative.
pub proof fn tokens_are_read_one_by_one(a: Seq<Seq<char>>, b: Seq<Seq<char>>, tok: Seq<char>)
    ensures
        readings(a + b) == readings(a) + readings(b),
        readings(seq![tok]) == (match decimal::read(tok) {
            Some(x) => if x.finite() && x.value() >= 0 {
                seq![x]
            } else {
                Seq::empty()
            },
            None => Seq::empty(),
        }),
{
    lemma_readings_of_both(a, b);
    let s = seq![tok];
    assert(s.last() == tok);
    assert(s.drop_last() =~= Seq::empty());
    reveal_with_fuel(readings, 2);
    assert(readings(s.drop_last()) =~= Seq::<Double>::empty());
}

proof fn lemma_readings_of_both(a: Seq<Seq<char>>, b: Seq<Seq<char>>)
    ensures
        readings(a + b) == readings(a) + readings(b),
    decreases b.len(),
{
    if b.len() == 0 {
        assert(a + b =~= a);
        assert(readings(a) + readings(b) =~= readings(a));
    } else {
        lemma_readings_of_both(a, b.drop_last());
        assert((a + b).drop_last() =~= a + b.drop_last());
        assert((a + b).last() == b.last());
        assert(readings(a + b) =~= readings(a) + readings(b));
    }
}

/// Of more values than there were pings the first ones count, and of fewer all.
pub proof fn the_first_values_count(s: Seq<Double>, max: nat)
    ensures
        at_most(s, max).len() <= max,
        at_most(s, max).is_prefix_of(s),
        at_most(s, max).len() < max ==> at_most(s, max) == s,
{
}

} // verus!
