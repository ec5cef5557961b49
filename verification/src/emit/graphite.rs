//! Graphite plaintext: `prefix.path.metric value ts\n` over TCP. One
//! connection is kept and renewed lazily; a payload that cannot be written is
//! dropped — measurement must never block on export.
use crate::decimal;
use crate::decimal::fixed_text;
use crate::probe;
use crate::probe::RoundResult;
use crate::text;
use crate::text::{chars_of, decimal_u64, is_alphanumeric_char};
use crate::time::Duration;
use vstd::prelude::*;
use vstd::string::*;

verus! {

/// A character of a target path in a metric's path: sections become dots,
/// hostile characters are flattened.
pub open spec fn metric_char(c: char) -> char {
    if c == '/' {
        '.'
    } else if text::is_alphanumeric(c) || c == '_' || c == '-' {
        c
    } else {
        '_'
    }
}

/// `target/path` → `prefix.target.path`.
pub open spec fn metric(prefix: Seq<char>, target: Seq<char>) -> Seq<char> {
    prefix + "."@ + target.map_values(|c: char| metric_char(c))
}

pub fn metric_path(prefix: &str, target: &str) -> (r: String)
    ensures
        r@ == metric(prefix@, target@),
{
    let mut out = prefix.to_owned();
    out.append(".");
    let chars = chars_of(target);
    let ghost want = target@.map_values(|c: char| metric_char(c));
    let ghost head = out@;
    let mut i: usize = 0;
    assert(want.take(0) =~= Seq::empty());
    while i < chars.len()
        invariant
            chars@ == target@,
            want == target@.map_values(|c: char| metric_char(c)),
            i <= chars@.len(),
            out@ == head + want.take(i as int),
        decreases chars@.len() - i,
    {
        let c = chars[i];
        let ghost had = out@;
        if c == '/' {
            out.push('.');
        } else if is_alphanumeric_char(c) || c == '_' || c == '-' {
            out.push(c);
        } else {
            out.push('_');
        }
        assert(want.take(i + 1) =~= want.take(i as int).push(want[i as int]));
        assert(out@ == had.push(want[i as int]));
        assert(out@ =~= head + want.take(i + 1));
        i = i + 1;
    }
    assert(want.take(i as int) == want);
    out
}

/// The second that a round started in.
pub open spec fn stamp(r: RoundResult) -> nat {
    match r.start_secs() {
        Some(s) => s,
        None => 0,
    }
}

/// "base.name value ts\n"
pub open spec fn line(
    base: Seq<char>,
    name: Seq<char>,
    value: Seq<char>,
    ts: nat,
) -> Seq<char> {
    base + "."@ + name + " "@ + value + " "@ + text::decimal(ts) + "\n"@
}

/// A line for a span in seconds, nothing where there is none.
pub open spec fn span_line(
    base: Seq<char>,
    name: Seq<char>,
    v: Option<Duration>,
    ts: nat,
) -> Seq<char> {
    match v {
        Some(d) => line(base, name, decimal::fixed(d.secs(), 6), ts),
        None => Seq::empty(),
    }
}

/// The lines of a round: loss as percent; rtts in seconds (the rrd
/// convention).
pub open spec fn lines_of(prefix: Seq<char>, r: RoundResult) -> Seq<char> {
    let base = metric(prefix, r.target@);
    let ts = stamp(r);
    line(base, "loss"@, decimal::fixed(r.loss(), 3), ts) + span_line(
        base,
        "median"@,
        r.middle(),
        ts,
    ) + span_line(base, "min"@, probe::least(r.rtts@), ts) + span_line(
        base,
        "max"@,
        probe::greatest(r.rtts@),
        ts,
    )
}

fn push_line(out: &mut String, base: &str, name: &str, value: &str, ts: u64)
    ensures
        final(out)@ == old(out)@ + line(base@, name@, value@, ts as nat),
{
    let ghost start = out@;
    out.append(base);
    out.append(".");
    out.append(name);
    out.append(" ");
    out.append(value);
    out.append(" ");
    out.append(decimal_u64(ts).as_str());
    out.append("\n");
    assert(out@ =~= start + line(base@, name@, value@, ts as nat));
}

fn push_span(out: &mut String, base: &str, name: &str, v: Option<Duration>, ts: u64)
    ensures
        final(out)@ == old(out)@ + span_line(base@, name@, v, ts as nat),
{
    match v {
        Some(d) => {
            push_line(out, base, name, fixed_text(d.as_secs_f64(), 6).as_str(), ts);
        },
        None => {
            assert(old(out)@ =~= old(out)@ + Seq::<char>::empty());
        },
    }
}

pub fn format_lines(prefix: &str, r: &RoundResult) -> (s: String)
    requires
        r.wf(),
    ensures
        s@ == lines_of(prefix@, *r),
{
    let ts: u64 = r.started_secs() as u64;
    let base = metric_path(prefix, r.target.as_str());
    let mut out = String::new();
    push_line(&mut out, base.as_str(), "loss", fixed_text(r.loss_pct(), 3).as_str(), ts);
    push_span(&mut out, base.as_str(), "median", r.median(), ts);
    push_span(&mut out, base.as_str(), "min", r.min(), ts);
    push_span(&mut out, base.as_str(), "max", r.max(), ts);
    assert(out@ =~= lines_of(prefix@, *r));
    out
}

/// What to do next about a payload.
#[derive(Clone, Copy, Debug, PartialEq, Eq, Structural)]
pub enum Step {
    Connect,
    Write,
    /// It was written.
    Done,
    /// It is given up.
    Drop,
}

/// How the last step went.
#[derive(Clone, Copy, Debug, PartialEq, Eq, Structural)]
pub enum Report {
    Connected,
    Unreachable,
    Written,
    WriteFailed,
}

/// The way of one payload over a connection that may have to be renewed.
#[derive(Clone, Copy, Debug, PartialEq, Eq, Structural)]
pub struct Delivery {
    pub connected: bool,
    /// Writes that failed.
    pub failures: u32,
    pub step: Step,
}

/// How often a payload is written at most.
pub const MAX_TRIES: u32 = 2;

impl Delivery {
    pub open spec fn wf(self) -> bool {
        &&& self.failures <= MAX_TRIES
        &&& self.step == Step::Connect ==> !self.connected && self.failures < MAX_TRIES
        &&& self.step == Step::Write ==> self.connected && self.failures < MAX_TRIES
        &&& self.step == Step::Done ==> self.connected
        &&& self.step == Step::Drop ==> !self.connected
    }

    /// The steps that can still come.
    pub open spec fn steps_left(self) -> int {
        match self.step {
            Step::Connect => 2 * (MAX_TRIES - self.failures),
            Step::Write => 2 * (MAX_TRIES - self.failures) - 1,
            Step::Done => 0,
            Step::Drop => 0,
        }
    }

    /// A new payload, over the connection that there is.
    pub fn begin(connected: bool) -> (d: Delivery)
        ensures
            d == (Delivery {
                connected,
                failures: 0,
                step: if connected {
                    Step::Write
                } else {
                    Step::Connect
                },
            }),
            d.wf(),
    {
        Delivery {
            connected,
            failures: 0,
            step: if connected {
                Step::Write
            } else {
                Step::Connect
            },
        }
    }

    /// One reconnect attempt per payload; failures drop the payload.
    pub open spec fn after(self, report: Report) -> Delivery {
        match (self.step, report) {
            (Step::Connect, Report::Connected) => Delivery {
                connected: true,
                step: Step::Write,
                ..self
            },
            (Step::Connect, _) => Delivery { step: Step::Drop, ..self },
            (Step::Write, Report::Written) => Delivery { step: Step::Done, ..self },
            (Step::Write, _) => Delivery {
                connected: false,
                failures: (self.failures + 1) as u32,
                step: if self.failures + 1 < MAX_TRIES {
                    Step::Connect
                } else {
                    Step::Drop
                },
            },
            _ => self,
        }
    }

    pub fn react(&mut self, report: Report)
        requires
            old(self).wf(),
        ensures
            *final(self) == old(self).after(report),
            final(self).wf(),
    {
        match self.step {
            Step::Connect => {
                if report == Report::Connected {
                    self.connected = true;
                    self.step = Step::Write;
                } else {
                    self.step = Step::Drop;
                }
            },
            Step::Write => {
                if report == Report::Written {
                    self.step = Step::Done;
                } else {
                    self.connected = false;
                    self.failures = self.failures + 1;
                    self.step = if self.failures < MAX_TRIES {
                        Step::Connect
                    } else {
                        Step::Drop
                    };
                }
            },
            _ => {},
        }
    }
}

/// Whatever happens, a payload is done with after a few steps: each step
/// leaves fewer to come.
pub proof fn a_payload_never_blocks(d: Delivery, report: Report)
    requires
        d.wf(),
        d.step == Step::Connect || d.step == Step::Write,
    ensures
        0 <= d.after(report).steps_left() < d.steps_left() <= 2 * MAX_TRIES,
{
}

/// A metric is named by its prefix and its target, with a dot between them.
/// The sections of the target's path are parted by dots too; letters, digits,
/// underscores and hyphens stay, and nothing but an underscore comes instead of
/// anything else.
pub proof fn metrics_are_named_by_their_path(prefix: Seq<char>, target: Seq<char>)
    ensures
        ({
            let m = metric(prefix, target);
            let n = prefix.len() as int + 1;
            &&& m.len() == n + target.len()
            &&& m.take(n) == prefix.push('.')
            &&& forall|i: int|
                0 <= i < target.len() ==> {
                    let c = #[trigger] target[i];
                    &&& m[n + i] == '.' <==> c == '/'
                    &&& (text::is_alphanumeric(c) || c == '_' || c == '-') && c != '/' ==> m[n + i]
                        == c
                    &&& m[n + i] != c ==> m[n + i] == '.' || m[n + i] == '_'
                    &&& !text::is_alphanumeric(c) && c != '-' && c != '/' ==> m[n + i] == '_'
                }
        }),
{
    reveal_strlit(".");
    let n = prefix.len() as int + 1;
    let m = metric(prefix, target);
    assert(m.take(n) =~= prefix.push('.'));
    assert forall|i: int| 0 <= i < target.len() implies m[n + i] == metric_char(
        #[trigger] target[i],
    ) by {}
}

/// A payload is done with where it was written, and only there. It is given up
/// where there is no connection to be had, or where writing failed for the
/// second time; after the first time the connection is made anew.
pub proof fn a_payload_is_written_or_given_up(d: Delivery, report: Report)
    requires
        d.wf(),
        d.step == Step::Connect || d.step == Step::Write,
    ensures
        d.after(report).wf(),
        d.after(report).step == Step::Done <==> d.step == Step::Write && report
            == Report::Written,
        d.step == Step::Connect ==> (d.after(report).step == Step::Drop <==> report
            != Report::Connected),
        d.step == Step::Connect && report == Report::Connected ==> d.after(report).step
            == Step::Write && d.after(report).failures == d.failures,
        d.step == Step::Write && report != Report::Written ==> !d.after(report).connected,
        d.step == Step::Write && report != Report::Written && d.failures == 0 ==> d.after(
            report,
        ).step == Step::Connect,
        d.step == Step::Write && report != Report::Written && d.failures > 0 ==> d.after(
            report,
        ).step == Step::Drop,
{
}

/// A round without a reply tells of its loss alone; one with replies tells of
/// all four, each on a line of its own.
pub proof fn a_silent_round_tells_of_its_loss_alone(prefix: Seq<char>, r: RoundResult)
    ensures
        r.rtts@.len() == 0 ==> lines_of(prefix, r) == line(
            metric(prefix, r.target@),
            "loss"@,
            decimal::fixed(r.loss(), 3),
            stamp(r),
        ),
        r.rtts@.len() > 0 ==> r.middle() is Some && probe::least(r.rtts@) is Some
            && probe::greatest(r.rtts@) is Some,
{
    if r.rtts@.len() == 0 {
        probe::lemma_sorted_len(r.rtts@);
        assert(lines_of(prefix, r) =~= line(
            metric(prefix, r.target@),
            "loss"@,
            decimal::fixed(r.loss(), 3),
            stamp(r),
        ));
    } else {
        probe::lemma_sorted_len(r.rtts@);
    }
}

/// A round with replies tells of its loss, its median, its fastest and its
/// slowest reply, in this order and in seconds.
pub proof fn an_answered_round_tells_of_its_replies(
    prefix: Seq<char>,
    r: RoundResult,
    lo: Duration,
    mid: Duration,
    hi: Duration,
)
    requires
        r.rtts@.contains(lo),
        r.rtts@.contains(hi),
        forall|i: int|
            0 <= i < r.rtts@.len() ==> lo.nanos <= (#[trigger] r.rtts@[i]).nanos <= hi.nanos,
        r.middle() == Some(mid),
    ensures
        ({
            let base = metric(prefix, r.target@);
            let ts = stamp(r);
            lines_of(prefix, r) == line(base, "loss"@, decimal::fixed(r.loss(), 3), ts) + line(
                base,
                "median"@,
                decimal::fixed(mid.secs(), 6),
                ts,
            ) + line(base, "min"@, decimal::fixed(lo.secs(), 6), ts) + line(
                base,
                "max"@,
                decimal::fixed(hi.secs(), 6),
                ts,
            )
        }),
{
    probe::the_fastest_and_the_slowest(r.rtts@, lo, hi);
}

} // verus!
