//! Distributed mode. An agent pulls its assignment from the master, probes,
//! and pushes results back in batches, buffering while the master is
//! unreachable. The wire types live here, and both sides' decisions.
use crate::config;
use crate::config::{FlatTarget, Leaf, ProbeConfig};
use crate::double;
use crate::double::Double;
use crate::names::NameMap;
use crate::probe::{IpAddr, RoundResult};
use crate::text;
use crate::text::trim_trailing;
use crate::time;
use crate::time::Duration;
use vstd::prelude::*;
use vstd::string::*;

verus! {

/// What the master hands an agent: GET /api/agent/config.
#[derive(Debug)]
pub struct Assignment {
    pub step: u64,
    pub pings: u32,
    pub probes: NameMap<ProbeConfig>,
    pub targets: Vec<WireTarget>,
}

#[derive(Debug)]
pub struct WireTarget {
    pub path: String,
    pub host: String,
    pub probe: String,
    pub port: Option<u16>,
    pub lookup: Option<String>,
}

impl View for WireTarget {
    type V = Leaf;

    /// The target as an agent sees it: alerting stays on the master.
    open spec fn view(&self) -> Leaf {
        Leaf {
            path: self.path@,
            host: self.host@,
            probe: self.probe@,
            port: self.port,
            lookup: config::text_of(self.lookup),
            alerts: Seq::empty(),
            agents: Seq::empty(),
            nomasterpoll: false,
        }
    }
}

/// What an agent is told of a target.
pub open spec fn assigned(l: Leaf) -> Leaf {
    Leaf { alerts: Seq::empty(), agents: Seq::empty(), nomasterpoll: false, ..l }
}

fn copy_text(s: &Option<String>) -> (r: Option<String>)
    ensures
        config::text_of(r) == config::text_of(*s),
{
    match s {
        Some(t) => Some(t.clone()),
        None => None,
    }
}

impl WireTarget {
    pub fn from_flat(t: &FlatTarget) -> (w: WireTarget)
        ensures
            w@ == assigned(t@),
    {
        WireTarget {
            path: t.path.clone(),
            host: t.host.clone(),
            probe: t.probe.clone(),
            port: t.port,
            lookup: copy_text(&t.lookup),
        }
    }

    pub fn into_flat(self) -> (t: FlatTarget)
        ensures
            t@ == self@,
    {
        let t = FlatTarget {
            path: self.path,
            host: self.host,
            probe: self.probe,
            port: self.port,
            lookup: self.lookup,
            alerts: Vec::new(),
            agents: Vec::new(),
            nomasterpoll: false,
        };
        assert(t@.alerts =~= Seq::empty());
        assert(t@.agents =~= Seq::empty());
        t
    }
}

/// One round on the wire: POST /api/agent/results carries a list of these.
#[derive(Debug)]
pub struct WireRound {
    pub target: String,
    pub host: String,
    pub addr: String,
    /// Unix seconds the round started.
    pub ts: u64,
    pub sent: u32,
    /// RTTs in seconds, send order.
    pub rtts: Vec<Double>,
}

/// The spans in seconds.
pub open spec fn seconds_of(rtts: Seq<Duration>) -> Seq<Double> {
    rtts.map_values(|d: Duration| d.secs())
}

/// A reply time that can be meant.
pub open spec fn plausible(secs: Double) -> bool {
    secs.finite() && secs.value() >= 0
}

/// The reply times that can be meant, as spans.
pub open spec fn spans_of(rtts: Seq<Double>) -> Seq<Duration>
    decreases rtts.len(),
{
    if rtts.len() == 0 {
        Seq::empty()
    } else {
        let before = spans_of(rtts.drop_last());
        if plausible(rtts.last()) {
            before.push(Duration { nanos: time::nanos_of(rtts.last()) as u128 })
        } else {
            before
        }
    }
}

/// What the rounds of a target that an agent measured are stored under.
pub open spec fn series_key(target: Seq<char>, agent: Seq<char>) -> Seq<char> {
    target + "@"@ + agent
}

impl WireRound {
    /// The round on the wire is this one.
    pub open spec fn carries(self, r: RoundResult) -> bool {
        &&& self.target@ == r.target@
        &&& self.host@ == r.host@
        &&& self.ts == (match r.start_secs() {
            Some(s) => s,
            None => 0,
        })
        &&& self.sent == r.sent
        &&& self.rtts@ == seconds_of(r.rtts@)
    }

    /// The round that the master makes of it, under the agent's series key;
    /// `addr` is what the address in writing reads as, if it reads.
    pub open spec fn rebuilt(
        self,
        agent: Seq<char>,
        addr: Option<IpAddr>,
        r: RoundResult,
    ) -> bool {
        &&& r.target@ == series_key(self.target@, agent)
        &&& r.host == self.host
        &&& r.addr == (match addr {
            Some(a) => a,
            None => IpAddr::V4(0),
        })
        &&& r.started == Some(Duration { nanos: (self.ts * time::NANOS_PER_SEC) as u128 })
        &&& r.sent == self.sent
        &&& r.rtts@ == spans_of(self.rtts@)
    }

    /// The plausible reply times fit into spans.
    pub open spec fn measurable(self) -> bool {
        forall|i: int|
            0 <= i < self.rtts@.len() && plausible(#[trigger] self.rtts@[i]) ==> time::is_span(
                self.rtts@[i],
            )
    }

    /// A round for the wire; `addr` is its address in writing.
    pub fn from_round(r: &RoundResult, addr: String) -> (w: WireRound)
        requires
            r.wf(),
        ensures
            w.carries(*r),
            w.addr == addr,
    {
        let mut rtts: Vec<Double> = Vec::new();
        let ghost want = seconds_of(r.rtts@);
        let mut i: usize = 0;
        while i < r.rtts.len()
            invariant
                want == seconds_of(r.rtts@),
                i <= r.rtts@.len(),
                rtts@ == want.take(i as int),
            decreases r.rtts@.len() - i,
        {
            rtts.push(r.rtts[i].as_secs_f64());
            assert(want.take(i + 1) =~= want.take(i as int).push(want[i as int]));
            i = i + 1;
        }
        assert(want.take(i as int) == want);
        WireRound {
            target: r.target.clone(),
            host: r.host.clone(),
            addr,
            ts: r.started_secs() as u64,
            sent: r.sent,
            rtts,
        }
    }

    /// Whether the plausible reply times fit into spans.
    pub fn is_measurable(&self) -> (ok: bool)
        ensures
            ok == self.measurable(),
    {
        let zero = Double { bits: 0 };
        let mut i: usize = 0;
        while i < self.rtts.len()
            invariant
                zero == (Double { bits: 0 }),
                i <= self.rtts@.len(),
                forall|j: int|
                    0 <= j < i && plausible(#[trigger] self.rtts@[j]) ==> time::is_span(
                        self.rtts@[j],
                    ),
            decreases self.rtts@.len() - i,
        {
            let s = self.rtts[i];
            if is_plausible(s) && Duration::try_from_secs_f64(s).is_none() {
                assert(plausible(self.rtts@[i as int]));
                return false;
            }
            i = i + 1;
        }
        true
    }

    /// Master side: rebuilds the round under its per-agent series key.
    /// `addr` is what the address in writing reads as, if it reads.
    pub fn into_round(self, agent: &str, addr: Option<IpAddr>) -> (r: RoundResult)
        requires
            self.measurable(),
        ensures
            self.rebuilt(agent@, addr, r),
    {
        let mut rtts: Vec<Duration> = Vec::new();
        let ghost all = self.rtts@;
        let mut i: usize = 0;
        assert(all.take(0) =~= Seq::empty());
        while i < self.rtts.len()
            invariant
                self.measurable(),
                all == self.rtts@,
                i <= all.len(),
                rtts@ == spans_of(all.take(i as int)),
            decreases all.len() - i,
        {
            assert(all.take(i + 1).drop_last() == all.take(i as int));
            assert(all.take(i + 1).last() == all[i as int]);
            let s = self.rtts[i];
            if is_plausible(s) {
                assert(plausible(self.rtts@[i as int]));
                match Duration::try_from_secs_f64(s) {
                    Some(d) => {
                        rtts.push(d);
                    },
                    None => {},
                }
            }
            i = i + 1;
        }
        assert(all.take(i as int) == all);
        let mut target = self.target;
        target.append("@");
        target.append(agent);
        RoundResult {
            target,
            host: self.host,
            addr: match addr {
                Some(a) => a,
                None => IpAddr::V4(0),
            },
            started: Some(Duration::from_secs(self.ts)),
            sent: self.sent,
            rtts,
        }
    }
}

fn is_plausible(s: Double) -> (r: bool)
    ensures
        r == plausible(s),
{
    let zero = Double { bits: 0 };
    proof {
        double::lemma_zero();
    }
    s.is_finite() && !s.num_lt(zero)
}

#[derive(Debug)]
pub struct AgentOpts {
    pub master: String,
    pub name: String,
    pub secret: String,
}

/// An endpoint of the master.
pub fn endpoint(master: &str, path: &str) -> (r: String)
    ensures
        r@ == text::without_trailing(master@, '/') + "/api/agent/"@ + path@,
{
    let mut s = trim_trailing(master, '/');
    s.append("/api/agent/");
    s.append(path);
    s
}

/// What the master answered to the request for an assignment.
#[derive(Clone, Copy, Debug, PartialEq, Eq, Structural)]
pub enum Reply {
    /// An answer with this status, and whether its body was an assignment.
    Status { code: u16, parsed: bool },
    Unreachable,
}

/// What an agent does about it.
#[derive(Clone, Copy, Debug, PartialEq, Eq, Structural)]
pub enum Next {
    Start,
    /// The credentials are rejected.
    GiveUp,
    RetryBadAssignment,
    RetryNotReady,
    RetryUnreachable,
}

/// Whether a status says that a request succeeded.
pub open spec fn success(code: u16) -> bool {
    200 <= code < 300
}

/// What to do after a reply to the request for an assignment.
pub open spec fn step_after(reply: Reply) -> Next {
    match reply {
        Reply::Unreachable => Next::RetryUnreachable,
        Reply::Status { code, parsed } => if success(code) {
            if parsed {
                Next::Start
            } else {
                Next::RetryBadAssignment
            }
        } else if code == 401 {
            Next::GiveUp
        } else {
            Next::RetryNotReady
        },
    }
}

pub fn next_step(reply: Reply) -> (n: Next)
    ensures
        n == step_after(reply),
{
    match reply {
        Reply::Unreachable => Next::RetryUnreachable,
        Reply::Status { code, parsed } => {
            if 200 <= code && code < 300 {
                if parsed {
                    Next::Start
                } else {
                    Next::RetryBadAssignment
                }
            } else if code == 401 {
                Next::GiveUp
            } else {
                Next::RetryNotReady
            }
        },
    }
}

impl Assignment {
    /// The targets to probe.
    pub fn into_targets(targets: Vec<WireTarget>) -> (r: Vec<FlatTarget>)
        ensures
            config::leaves_of(r@) == targets@.map_values(|w: WireTarget| w@),
    {
        let ghost want = targets@.map_values(|w: WireTarget| w@);
        let ghost given = targets@;
        let mut rest = targets;
        let mut back: Vec<FlatTarget> = Vec::new();
        while rest.len() > 0
            invariant
                given.len() == want.len(),
                want == given.map_values(|w: WireTarget| w@),
                rest@ == given.take(rest@.len() as int),
                rest@.len() + back@.len() == given.len(),
                forall|j: int|
                    0 <= j < back@.len() ==> (#[trigger] back@[j])@ == want[want.len() - 1 - j],
            decreases rest@.len(),
        {
            let ghost n = rest@.len();
            assert(rest@[n - 1] == given[n - 1]);
            match rest.pop() {
                Some(w) => {
                    back.push(w.into_flat());
                },
                None => {},
            }
        }
        let mut out: Vec<FlatTarget> = Vec::new();
        while back.len() > 0
            invariant
                out@.len() + back@.len() == want.len(),
                forall|j: int|
                    0 <= j < back@.len() ==> (#[trigger] back@[j])@ == want[want.len() - 1 - j],
                forall|j: int| 0 <= j < out@.len() ==> (#[trigger] out@[j])@ == want[j],
            decreases back@.len(),
        {
            match back.pop() {
                Some(t) => {
                    out.push(t);
                },
                None => {},
            }
        }
        assert(config::leaves_of(out@) =~= want);
        out
    }
}

pub const MAX_BUFFER: usize = 10_000;

/// Rounds on their way to the master. Unreachable master ⇒ rounds accumulate
/// (bounded); oldest drop first.
#[derive(Debug)]
pub struct PushBuffer {
    pub rounds: Vec<WireRound>,
}

/// The newest entries of a sequence.
pub open spec fn newest<T>(s: Seq<T>, n: nat) -> Seq<T> {
    if s.len() > n {
        s.skip(s.len() - n)
    } else {
        s
    }
}

impl PushBuffer {
    pub open spec fn wf(self) -> bool {
        self.rounds@.len() <= MAX_BUFFER
    }

    pub fn new() -> (b: PushBuffer)
        ensures
            b.wf(),
            b.rounds@.len() == 0,
    {
        PushBuffer { rounds: Vec::new() }
    }

    pub fn push(&mut self, r: WireRound)
        requires
            old(self).wf(),
        ensures
            final(self).wf(),
            final(self).rounds@ == newest(old(self).rounds@.push(r), MAX_BUFFER as nat),
    {
        self.rounds.push(r);
        if self.rounds.len() > MAX_BUFFER {
            let ghost all = self.rounds@;
            self.rounds.remove(0);
            assert(self.rounds@ =~= all.skip(1));
        }
    }

    /// There is something to push.
    pub fn is_due(&self) -> (r: bool)
        ensures
            r == (self.rounds@.len() > 0),
    {
        self.rounds.len() > 0
    }

    /// A push of the whole buffer was answered; `code` is the status, None
    /// where the master was not reached. What was not taken stays.
    pub fn pushed(&mut self, code: Option<u16>) -> (delivered: bool)
        requires
            old(self).wf(),
        ensures
            final(self).wf(),
            delivered == (code matches Some(c) && success(c)),
            final(self).rounds@ == (if delivered {
                Seq::empty()
            } else {
                old(self).rounds@
            }),
    {
        match code {
            Some(c) => {
                if 200 <= c && c < 300 {
                    self.rounds.clear();
                    return true;
                }
            },
            None => {},
        }
        false
    }
}

/// Pushes one round after the other, without an answer in between.
pub open spec fn buffered<T>(held: Seq<T>, more: Seq<T>, n: nat) -> Seq<T>
    decreases more.len(),
{
    if more.len() == 0 {
        held
    } else {
        newest(buffered(held, more.drop_last(), n).push(more.last()), n)
    }
}

/// While the master is unreachable the newest rounds are kept, up to the
/// bound, in their order; the oldest drop first.
pub proof fn the_newest_rounds_survive<T>(held: Seq<T>, more: Seq<T>, n: nat)
    requires
        held.len() <= n,
        n > 0,
    ensures
        buffered(held, more, n) == newest(held + more, n),
    decreases more.len(),
{
    if more.len() == 0 {
        assert(held + more =~= held);
    } else {
        let rest = more.drop_last();
        the_newest_rounds_survive(held, rest, n);
        let all = held + rest;
        assert(held + more =~= all.push(more.last()));
        let kept = newest(all, n);
        assert(newest(kept.push(more.last()), n) =~= newest(all.push(more.last()), n));
    }
}

/// The reply times of a round arrive at the master as they were measured, if
/// none is of 2^20 seconds or more.
pub proof fn reply_times_cross_the_wire(rtts: Seq<Duration>)
    requires
        forall|i: int|
            0 <= i < rtts.len() ==> (#[trigger] rtts[i]).nanos / time::NANOS_PER_SEC < 0x10_0000,
    ensures
        spans_of(seconds_of(rtts)) == rtts,
        forall|i: int|
            0 <= i < rtts.len() ==> time::is_span(#[trigger] seconds_of(rtts)[i]),
    decreases rtts.len(),
{
    let s = seconds_of(rtts);
    assert forall|i: int| 0 <= i < rtts.len() implies time::is_span(#[trigger] s[i]) by {
        time::seconds_keep_nanoseconds(rtts[i]);
    }
    if rtts.len() > 0 {
        let rest = rtts.drop_last();
        assert forall|i: int| 0 <= i < rest.len() implies (#[trigger] rest[i]).nanos
            / time::NANOS_PER_SEC < 0x10_0000 by {
            assert(rest[i] == rtts[i]);
        }
        reply_times_cross_the_wire(rest);
        assert(s.drop_last() =~= seconds_of(rest));
        let last = rtts[rtts.len() - 1];
        assert(s.last() == last.secs());
        time::seconds_keep_nanoseconds(last);
        assert(spans_of(s) =~= rest.push(last));
    }
    assert(spans_of(s) =~= rtts);
}

/// A round arrives at the master as the agent measured it, under the agent's
/// series key and to the second of its start, if no reply took 2^20 seconds or
/// more.
pub proof fn a_round_crosses_the_wire(
    measured: RoundResult,
    w: WireRound,
    agent: Seq<char>,
    addr: Option<IpAddr>,
    got: RoundResult,
)
    requires
        measured.wf(),
        forall|i: int|
            0 <= i < measured.rtts@.len() ==> (#[trigger] measured.rtts@[i]).nanos
                / time::NANOS_PER_SEC < 0x10_0000,
        w.carries(measured),
        w.rebuilt(agent, addr, got),
    ensures
        w.measurable(),
        got.wf(),
        got.target@ == series_key(measured.target@, agent),
        got.host@ == measured.host@,
        got.sent == measured.sent,
        got.rtts@ == measured.rtts@,
        measured.started is Some ==> got.start_secs() == measured.start_secs(),
{
    reply_times_cross_the_wire(measured.rtts@);
    let n = time::NANOS_PER_SEC as int;
    let ts = w.ts as int;
    assert(0 <= ts * n <= u128::MAX && (ts * n) / n == ts) by (nonlinear_arith)
        requires
            0 <= ts <= u64::MAX,
            n == 1_000_000_000,
    ;
}

/// Agent series stand apart: rounds of different targets or agents never share
/// a key, and no key is the path of a target.
pub proof fn agent_series_are_apart(
    cfg: config::Config,
    i: int,
    a: Seq<char>,
    j: int,
    b: Seq<char>,
)
    requires
        cfg.flattened() is Ok,
        0 <= i < cfg.flattened()->Ok_0.len(),
        0 <= j < cfg.flattened()->Ok_0.len(),
    ensures
        ({
            let p = cfg.flattened()->Ok_0[i].path;
            let q = cfg.flattened()->Ok_0[j].path;
            &&& series_key(p, a) != q
            &&& series_key(p, a) == series_key(q, b) ==> p == q && a == b
        }),
{
    config::every_leaf_can_be_measured(cfg, i);
    config::every_leaf_can_be_measured(cfg, j);
    let p = cfg.flattened()->Ok_0[i].path;
    let q = cfg.flattened()->Ok_0[j].path;
    reveal_strlit("@");
    let k = series_key(p, a);
    let l = series_key(q, b);
    assert(k[p.len() as int] == '@');
    assert(l[q.len() as int] == '@');
    if k == l {
        if p.len() < q.len() {
            assert(q[p.len() as int] == l[p.len() as int]);
            assert(q.contains('@'));
        }
        if q.len() < p.len() {
            assert(p[q.len() as int] == k[q.len() as int]);
            assert(p.contains('@'));
        }
        assert(p =~= k.take(p.len() as int));
        assert(q =~= l.take(q.len() as int));
        assert(a =~= k.skip(p.len() as int + 1));
        assert(b =~= l.skip(q.len() as int + 1));
    }
    if k == q {
        assert(q[p.len() as int] == '@');
    }
}

/// Reply times come in one by one, in their order: one that is finite and not
/// negative becomes a span, and anything else is left out.
pub proof fn implausible_times_are_left_out(a: Seq<Double>, b: Seq<Double>, x: Double)
    ensures
        spans_of(a + b) == spans_of(a) + spans_of(b),
        spans_of(seq![x]) == (if !x.nan() && x.finite() && x.value() >= 0 {
            seq![Duration { nanos: time::nanos_of(x) as u128 }]
        } else {
            Seq::empty()
        }),
{
    lemma_spans_of_both(a, b);
    let s = seq![x];
    assert(s.last() == x);
    assert(s.drop_last() =~= Seq::empty());
    reveal_with_fuel(spans_of, 2);
    assert(spans_of(s.drop_last()) =~= Seq::<Duration>::empty());
}

proof fn lemma_spans_of_both(a: Seq<Double>, b: Seq<Double>)
    ensures
        spans_of(a + b) == spans_of(a) + spans_of(b),
    decreases b.len(),
{
    if b.len() == 0 {
        assert(a + b =~= a);
        assert(spans_of(a) + spans_of(b) =~= spans_of(a));
    } else {
        lemma_spans_of_both(a, b.drop_last());
        assert((a + b).drop_last() =~= a + b.drop_last());
        assert((a + b).last() == b.last());
        assert(spans_of(a + b) =~= spans_of(a) + spans_of(b));
    }
}

/// An agent is told where a target is and how to measure it, and nothing of
/// who else measures it or is alerted.
pub proof fn agents_learn_how_to_measure(l: Leaf)
    ensures
        assigned(l).path == l.path,
        assigned(l).host == l.host,
        assigned(l).probe == l.probe,
        assigned(l).port == l.port,
        assigned(l).lookup == l.lookup,
        assigned(l).alerts.len() == 0,
        assigned(l).agents.len() == 0,
        !assigned(l).nomasterpoll,
{
}

/// An agent starts with an assignment that it was given and could read. It
/// gives up only where it is told that it is not known; whatever else happens,
/// it asks again.
pub proof fn an_agent_asks_until_it_is_answered(reply: Reply)
    ensures
        step_after(reply) == Next::Start <==> (reply matches Reply::Status { code, parsed } && code
            / 100 == 2 && parsed),
        step_after(reply) == Next::GiveUp <==> (reply matches Reply::Status { code, parsed } && code
            == 401),
        step_after(reply) == Next::RetryBadAssignment <==> (reply matches Reply::Status {
            code,
            parsed,
        } && code / 100 == 2 && !parsed),
        step_after(reply) == Next::RetryUnreachable <==> reply is Unreachable,
{
}

} // verus!
