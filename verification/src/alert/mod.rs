//! Alert engine: pattern matching over recent rounds, edge-triggered
//! notifications with optional repeat.
use crate::alert::notify::NotifySpec;
use crate::alert::pattern::{Pattern, PatternError};
use crate::config::{AlertConfig, AlertKind, Config, FlatTarget, Leaf, Refusal, SmtpConfig, TargetError};
use crate::decimal;
use crate::double;
use crate::decimal::fixed_text;
use crate::double::Double;
use crate::names::NameMap;
use crate::probe::RoundResult;
use crate::text;
use crate::text::{alone, atop, copy_list, join, quoted, said};
use crate::time::Duration;
use crate::util;
use crate::util::{RangeError, parse_range};
use vstd::prelude::*;
use vstd::string::*;

pub mod notify;
pub mod pattern;

verus! {

#[derive(Clone, Copy, Debug, PartialEq, Eq, Structural)]
pub enum AlertEvent {
    Raised,
    Repeat,
    Cleared,
}

impl AlertEvent {
    pub open spec fn name(self) -> Seq<char> {
        match self {
            AlertEvent::Raised => "raised"@,
            AlertEvent::Repeat => "still-raised"@,
            AlertEvent::Cleared => "cleared"@,
        }
    }

    pub fn as_str(self) -> (r: &'static str)
        ensures
            r@ == self.name(),
    {
        match self {
            AlertEvent::Raised => "raised",
            AlertEvent::Repeat => "still-raised",
            AlertEvent::Cleared => "cleared",
        }
    }
}

#[derive(Debug)]
pub struct Notification {
    pub alert: String,
    pub target: String,
    pub host: String,
    pub state: AlertEvent,
    pub comment: String,
    /// Recent sample values, oldest→newest, for context.
    pub detail: String,
}

/// One parsed alert definition.
#[derive(Debug)]
pub struct Alert {
    pub kind: AlertKind,
    pub pattern: Pattern,
    pub comment: String,
    pub to: Vec<NotifySpec>,
    pub repeat: Option<Duration>,
    pub notify_clear: bool,
}

/// What is wrong with an alert definition.
#[derive(Clone, Copy, Debug, PartialEq, Eq, Structural)]
pub enum AlertFault {
    Pattern(PatternError),
    /// `to` must list at least one notification target.
    NoRecipients,
    /// The first bad notification target, by its place in the list.
    Recipient(usize),
    /// repeat_every is no range.
    Repeat(RangeError),
}

/// The place of the first text that names no destination, or the length.
pub open spec fn first_bad_route(to: Seq<Seq<char>>) -> int
    decreases to.len(),
{
    if to.len() == 0 || notify::route_of(to[0]) is None {
        0
    } else {
        1 + first_bad_route(to.drop_first())
    }
}

/// What is wrong with an alert definition, if anything.
pub open spec fn alert_fault(cfg: AlertConfig) -> Option<AlertFault> {
    let to = text::texts(cfg.to@);
    match pattern::pattern_of(cfg.pattern@) {
        Err(e) => Some(AlertFault::Pattern(e)),
        Ok(_) => if to.len() == 0 {
            Some(AlertFault::NoRecipients)
        } else if first_bad_route(to) < to.len() {
            Some(AlertFault::Recipient(first_bad_route(to) as usize))
        } else {
            match cfg.repeat_every {
                None => None,
                Some(s) => match util::range_of(s@) {
                    Ok(_) => None,
                    Err(e) => Some(AlertFault::Repeat(e)),
                },
            }
        },
    }
}

proof fn lemma_first_bad_route(to: Seq<Seq<char>>, i: int)
    requires
        0 <= i <= to.len(),
        forall|j: int| 0 <= j < i ==> notify::route_of(#[trigger] to[j]) is Some,
        i < to.len() ==> notify::route_of(to[i]) is None,
    ensures
        first_bad_route(to) == i,
    decreases i,
{
    if i > 0 {
        let rest = to.drop_first();
        assert forall|j: int| 0 <= j < i - 1 implies notify::route_of(#[trigger] rest[j])
            is Some by {
            assert(rest[j] == to[j + 1]);
        }
        lemma_first_bad_route(rest, i - 1);
    }
}

impl Alert {
    /// The alert was made from this definition.
    pub open spec fn of(self, cfg: AlertConfig) -> bool {
        &&& self.kind == cfg.kind
        &&& pattern::pattern_of(cfg.pattern@) == Ok::<Seq<pattern::Elem>, PatternError>(
            self.pattern.elems@,
        )
        &&& self.comment@ == cfg.comment@
        &&& self.to@.len() == cfg.to@.len()
        &&& forall|i: int|
            0 <= i < self.to@.len() ==> Some((#[trigger] self.to@[i])@) == notify::route_of(
                cfg.to@[i]@,
            )
        &&& match cfg.repeat_every {
            None => self.repeat is None,
            Some(s) => util::range_of(s@) matches Ok(n) && self.repeat == Some(
                Duration { nanos: (n * 1_000_000_000) as u128 },
            ),
        }
        &&& self.notify_clear == cfg.notify_clear
    }

    pub fn parse(cfg: &AlertConfig) -> (r: Result<Alert, AlertFault>)
        ensures
            match r {
                Ok(a) => alert_fault(*cfg) is None && a.of(*cfg),
                Err(e) => alert_fault(*cfg) == Some(e),
            },
    {
        let pattern = match Pattern::parse(cfg.pattern.as_str()) {
            Err(e) => {
                return Err(AlertFault::Pattern(e));
            },
            Ok(p) => p,
        };
        let ghost all = text::texts(cfg.to@);
        if cfg.to.len() == 0 {
            return Err(AlertFault::NoRecipients);
        }
        let mut to: Vec<NotifySpec> = Vec::new();
        let mut i: usize = 0;
        while i < cfg.to.len()
            invariant
                all == text::texts(cfg.to@),
                cfg.to@.len() > 0,
                pattern::pattern_of(cfg.pattern@) is Ok,
                i <= cfg.to@.len(),
                to@.len() == i,
                forall|j: int|
                    0 <= j < i ==> Some((#[trigger] to@[j])@) == notify::route_of(cfg.to@[j]@),
            decreases cfg.to@.len() - i,
        {
            match NotifySpec::parse(cfg.to[i].as_str()) {
                Some(n) => {
                    to.push(n);
                },
                None => {
                    proof {
                        assert forall|j: int| 0 <= j < i implies notify::route_of(
                            #[trigger] all[j],
                        ) is Some by {
                            assert(Some(to@[j]@) == notify::route_of(cfg.to@[j]@));
                        }
                        lemma_first_bad_route(all, i as int);
                    }
                    return Err(AlertFault::Recipient(i));
                },
            }
            i = i + 1;
        }
        proof {
            assert forall|j: int| 0 <= j < all.len() implies notify::route_of(#[trigger] all[j])
                is Some by {
                assert(Some(to@[j]@) == notify::route_of(cfg.to@[j]@));
            }
            lemma_first_bad_route(all, all.len() as int);
        }
        let repeat: Option<Duration> = match &cfg.repeat_every {
            None => None,
            Some(s) => match parse_range(s.as_str()) {
                Ok(n) => Some(Duration::from_secs(n)),
                Err(e) => {
                    return Err(AlertFault::Repeat(e));
                },
            },
        };
        Ok(
            Alert {
                kind: cfg.kind,
                pattern,
                comment: cfg.comment.clone(),
                to,
                repeat,
                notify_clear: cfg.notify_clear,
            },
        )
    }
}

/// What is remembered of a round.
#[derive(Clone, Copy, Debug, PartialEq, Eq, Structural)]
pub struct Sample {
    pub loss: Double,
    pub median_ms: Option<Double>,
}

/// What is remembered of a round.
pub open spec fn sample_of(r: RoundResult) -> Sample {
    Sample {
        loss: r.loss(),
        median_ms: match r.middle() {
            Some(d) => Some(d.millis()),
            None => None,
        },
    }
}

pub fn sample(r: &RoundResult) -> (s: Sample)
    requires
        r.wf(),
    ensures
        s == sample_of(*r),
{
    Sample {
        loss: r.loss_pct(),
        median_ms: match r.median() {
            Some(d) => Some(d.as_millis_f64()),
            None => None,
        },
    }
}

/// The newest `keep` of a history with one more sample.
pub open spec fn remembered(history: Seq<Sample>, s: Sample, keep: nat) -> Seq<Sample> {
    let all = history.push(s);
    if all.len() > keep {
        all.skip(all.len() - keep)
    } else {
        all
    }
}

/// A history with one more sample, cut to its newest `keep`.
pub fn remember(history: &Vec<Sample>, s: Sample, keep: usize) -> (r: Vec<Sample>)
    ensures
        r@ == remembered(history@, s, keep as nat),
{
    let mut all: Vec<Sample> = history.clone();
    assert(all@ =~= history@);
    all.push(s);
    let n: usize = all.len();
    if n > keep {
        let mut r: Vec<Sample> = Vec::new();
        let mut i: usize = n - keep;
        while i < n
            invariant
                n == all@.len(),
                keep < n,
                n - keep <= i <= n,
                r@ == all@.subrange(n - keep, i as int),
            decreases n - i,
        {
            r.push(all[i]);
            i = i + 1;
        }
        assert(r@ == all@.skip(n - keep));
        r
    } else {
        all
    }
}

/// The values that an alert's pattern is held against.
pub open spec fn series_of(kind: AlertKind, samples: Seq<Sample>) -> Seq<Option<Double>> {
    samples.map_values(
        |s: Sample|
            match kind {
                AlertKind::Loss => Some(s.loss),
                AlertKind::Rtt => s.median_ms,
            },
    )
}

pub fn series(kind: AlertKind, samples: &Vec<Sample>) -> (r: Vec<Option<Double>>)
    ensures
        r@ == series_of(kind, samples@),
{
    let mut out: Vec<Option<Double>> = Vec::new();
    let mut i: usize = 0;
    while i < samples.len()
        invariant
            i <= samples@.len(),
            out@ == series_of(kind, samples@).take(i as int),
        decreases samples@.len() - i,
    {
        let s = samples[i];
        out.push(
            match kind {
                AlertKind::Loss => Some(s.loss),
                AlertKind::Rtt => s.median_ms,
            },
        );
        assert(out@ =~= series_of(kind, samples@).take(i + 1));
        i = i + 1;
    }
    assert(series_of(kind, samples@).take(i as int) =~= series_of(kind, samples@));
    out
}

/// Where an alert stands with a target.
#[derive(Clone, Copy, Debug, PartialEq, Eq, Structural)]
pub struct AlertState {
    pub raised: bool,
    /// When the last notification was sent.
    pub last_notify: Option<Duration>,
}

/// An alert that was never evaluated.
pub open spec fn quiet() -> AlertState {
    AlertState { raised: false, last_notify: None }
}

/// At least `every` has passed since the last notification, or there was none.
pub open spec fn due(last: Option<Duration>, every: Duration, now: Duration) -> bool {
    match last {
        None => true,
        Some(t) => (if now.nanos > t.nanos {
            now.nanos - t.nanos
        } else {
            0
        }) >= every.nanos,
    }
}

/// The event that an evaluation gives: the edges, and repeats while raised.
pub open spec fn event_of(
    st: AlertState,
    matched: bool,
    repeat: Option<Duration>,
    notify_clear: bool,
    now: Duration,
) -> Option<AlertEvent> {
    if !st.raised && matched {
        Some(AlertEvent::Raised)
    } else if st.raised && matched {
        match repeat {
            Some(every) => if due(st.last_notify, every, now) {
                Some(AlertEvent::Repeat)
            } else {
                None
            },
            None => None,
        }
    } else if st.raised && notify_clear {
        Some(AlertEvent::Cleared)
    } else {
        None
    }
}

/// Where the alert stands after an evaluation.
pub open spec fn state_after(
    st: AlertState,
    matched: bool,
    repeat: Option<Duration>,
    notify_clear: bool,
    now: Duration,
) -> AlertState {
    AlertState {
        raised: matched,
        last_notify: if event_of(st, matched, repeat, notify_clear, now) is Some {
            Some(now)
        } else {
            st.last_notify
        },
    }
}

/// Evaluates an alert once.
pub fn evaluate(
    st: AlertState,
    matched: bool,
    repeat: Option<Duration>,
    notify_clear: bool,
    now: Duration,
) -> (r: (AlertState, Option<AlertEvent>))
    ensures
        r.0 == state_after(st, matched, repeat, notify_clear, now),
        r.1 == event_of(st, matched, repeat, notify_clear, now),
{
    let event = if !st.raised && matched {
        Some(AlertEvent::Raised)
    } else if st.raised && matched {
        match repeat {
            Some(every) => {
                let is_due = match st.last_notify {
                    None => true,
                    Some(t) => {
                        let passed: u128 = if now.nanos > t.nanos {
                            now.nanos - t.nanos
                        } else {
                            0
                        };
                        passed >= every.nanos
                    },
                };
                if is_due {
                    Some(AlertEvent::Repeat)
                } else {
                    None
                }
            },
            None => None,
        }
    } else if st.raised && notify_clear {
        Some(AlertEvent::Cleared)
    } else {
        None
    };
    let last_notify = if event.is_some() {
        Some(now)
    } else {
        st.last_notify
    };
    (AlertState { raised: matched, last_notify }, event)
}

/// An alert notifies on the edges only: while it stays raised it is silent
/// unless a repeat is due, and while it stays quiet it is silent.
pub proof fn alerts_are_edge_triggered(
    st: AlertState,
    matched: bool,
    repeat: Option<Duration>,
    notify_clear: bool,
    now: Duration,
)
    ensures
        ({
            let e = event_of(st, matched, repeat, notify_clear, now);
            let after = state_after(st, matched, repeat, notify_clear, now);
            &&& after.raised == matched
            &&& e == Some(AlertEvent::Raised) <==> !st.raised && matched
            &&& e == Some(AlertEvent::Cleared) <==> st.raised && !matched && notify_clear
            &&& e == Some(AlertEvent::Repeat) ==> st.raised && matched && repeat is Some
            &&& st.raised == matched && repeat is None ==> e is None
            &&& !matched && !notify_clear ==> e is None
        }),
{
}

/// An alert that raised at `now` raises again only after it was cleared, with
/// or without a notification.
pub proof fn a_raised_alert_raises_again_only_after_a_clear(
    st: AlertState,
    repeat: Option<Duration>,
    notify_clear: bool,
    t1: Duration,
    m2: bool,
    t2: Duration,
    t3: Duration,
)
    ensures
        ({
            let s1 = state_after(st, true, repeat, notify_clear, t1);
            let s2 = state_after(s1, m2, repeat, notify_clear, t2);
            event_of(s2, true, repeat, notify_clear, t3) == Some(AlertEvent::Raised) <==> !m2
        }),
{
}

/// A repeat does not come before `every` has passed since the last
/// notification.
pub proof fn repeats_keep_their_distance(
    st: AlertState,
    every: Duration,
    notify_clear: bool,
    t1: Duration,
    t2: Duration,
)
    requires
        !st.raised,
        t2.nanos >= t1.nanos,
    ensures
        ({
            let s1 = state_after(st, true, Some(every), notify_clear, t1);
            event_of(s1, true, Some(every), notify_clear, t2) == Some(AlertEvent::Repeat) <==> t2.nanos
                - t1.nanos >= every.nanos
        }),
{
}

/// A sample as it is shown.
pub open spec fn shown(kind: AlertKind, s: Sample) -> Seq<char> {
    match kind {
        AlertKind::Loss => decimal::fixed(s.loss, 0),
        AlertKind::Rtt => match s.median_ms {
            Some(m) => decimal::fixed(m, 1),
            None => "U"@,
        },
    }
}

pub open spec fn label(kind: AlertKind) -> Seq<char> {
    match kind {
        AlertKind::Loss => "loss%"@,
        AlertKind::Rtt => "median ms"@,
    }
}

/// The recent samples as text.
pub open spec fn detail_of(kind: AlertKind, samples: Seq<Sample>) -> Seq<char> {
    label(kind) + " (oldest→newest): "@ + text::joined(
        samples.map_values(|s: Sample| shown(kind, s)),
        " "@,
    )
}

fn detail(kind: AlertKind, samples: &Vec<Sample>) -> (r: String)
    ensures
        r@ == detail_of(kind, samples@),
{
    let ghost want = samples@.map_values(|s: Sample| shown(kind, s));
    let mut vals: Vec<String> = Vec::new();
    let mut i: usize = 0;
    while i < samples.len()
        invariant
            want == samples@.map_values(|s: Sample| shown(kind, s)),
            i <= samples@.len(),
            vals@.len() == i,
            forall|j: int| 0 <= j < i ==> (#[trigger] vals@[j])@ == want[j],
        decreases samples@.len() - i,
    {
        let s = samples[i];
        let t = match kind {
            AlertKind::Loss => fixed_text(s.loss, 0),
            AlertKind::Rtt => match s.median_ms {
                Some(m) => fixed_text(m, 1),
                None => "U".to_owned(),
            },
        };
        vals.push(t);
        i = i + 1;
    }
    assert(text::texts(vals@) =~= want);
    let mut out = match kind {
        AlertKind::Loss => "loss%".to_owned(),
        AlertKind::Rtt => "median ms".to_owned(),
    };
    out.append(" (oldest→newest): ");
    let list = join(&vals, " ");
    out.append(list.as_str());
    out
}

/// Evaluates alerts over a stream of rounds.
#[derive(Debug)]
pub struct Alerter {
    pub alerts: NameMap<Alert>,
    /// target path → alert names that watch it
    pub watches: NameMap<Vec<String>>,
    pub history_depth: usize,
    pub smtp: Option<SmtpConfig>,
    pub history: NameMap<Vec<Sample>>,
    /// target path → alert name → where the alert stands
    pub state: NameMap<NameMap<AlertState>>,
}

/// The events of one target's alerts, in order.
pub struct Outcome {
    pub states: Map<Seq<char>, AlertState>,
    pub events: Seq<(Seq<char>, AlertEvent)>,
}

impl Alerter {
    pub open spec fn wf(self) -> bool {
        &&& self.alerts.wf()
        &&& self.watches.wf()
        &&& self.history.wf()
        &&& self.state.wf()
        &&& forall|i: int|
            0 <= i < self.alerts.entries@.len() ==> ((
            #[trigger] self.alerts.entries@[i]).1.repeat matches Some(every) ==> every.nanos > 0)
        &&& forall|i: int|
            0 <= i < self.state.entries@.len() ==> (#[trigger] self.state.entries@[i]).1.wf()
        &&& forall|i: int, j: int|
            0 <= i < self.watches.entries@.len() && 0 <= j < self.watches.entries@[i].1@.len()
                ==> self.alerts.has((#[trigger] self.watches.entries@[i].1@[j])@)
    }

    /// The samples remembered of a target.
    pub open spec fn samples(self, target: Seq<char>) -> Seq<Sample> {
        match self.history.lookup(target) {
            Some(v) => v@,
            None => Seq::empty(),
        }
    }

    /// Where an alert stands with a target.
    pub open spec fn standing(self, target: Seq<char>, alert: Seq<char>) -> AlertState {
        match self.state.lookup(target) {
            Some(m) => match m.lookup(alert) {
                Some(st) => st,
                None => quiet(),
            },
            None => quiet(),
        }
    }

    /// Whether an alert's pattern matches the samples.
    pub open spec fn matches(self, alert: Seq<char>, samples: Seq<Sample>) -> bool {
        let a = self.alerts.at(alert);
        pattern::matched(a.pattern.elems@, series_of(a.kind, samples))
    }

    /// The first `n` alerts of a target evaluated one after the other.
    pub open spec fn run(
        self,
        target: Seq<char>,
        names: Seq<Seq<char>>,
        samples: Seq<Sample>,
        now: Duration,
    ) -> Outcome
        decreases names.len(),
    {
        if names.len() == 0 {
            Outcome {
                states: Map::new(|a: Seq<char>| true, |a: Seq<char>| self.standing(target, a)),
                events: Seq::empty(),
            }
        } else {
            let before = self.run(target, names.drop_last(), samples, now);
            let name = names.last();
            let a = self.alerts.at(name);
            let matched = self.matches(name, samples);
            let st = before.states[name];
            let event = event_of(st, matched, a.repeat, a.notify_clear, now);
            Outcome {
                states: before.states.insert(
                    name,
                    state_after(st, matched, a.repeat, a.notify_clear, now),
                ),
                events: match event {
                    Some(e) => before.events.push((name, e)),
                    None => before.events,
                },
            }
        }
    }

    /// The notification of an event.
    pub open spec fn announces(
        self,
        n: Notification,
        event: (Seq<char>, AlertEvent),
        r: RoundResult,
        samples: Seq<Sample>,
    ) -> bool {
        let a = self.alerts.at(event.0);
        &&& n.alert@ == event.0
        &&& n.target@ == r.target@
        &&& n.host@ == r.host@
        &&& n.state == event.1
        &&& n.comment@ == a.comment@
        &&& n.detail@ == detail_of(a.kind, samples)
    }

    /// The alerter after a round at `now`, and what it gives out.
    pub open spec fn processed(
        self,
        r: RoundResult,
        now: Duration,
        after: Alerter,
        out: Seq<Notification>,
    ) -> bool {
        &&& after.wf()
        &&& after.alerts == self.alerts
        &&& after.watches == self.watches
        &&& after.history_depth == self.history_depth
        &&& after.smtp == self.smtp
        &&& if !self.watches.has(r.target@) {
            out.len() == 0 && after == self
        } else {
            let names = text::texts(self.watches.at(r.target@)@);
            let samples = remembered(
                self.samples(r.target@),
                sample_of(r),
                self.history_depth as nat,
            );
            let done = self.run(r.target@, names, samples, now);
            &&& after.samples(r.target@) == samples
            &&& forall|t: Seq<char>|
                t != r.target@ ==> #[trigger] after.samples(t) == self.samples(t)
            &&& forall|a: Seq<char>| #[trigger] after.standing(r.target@, a) == done.states[a]
            &&& forall|t: Seq<char>, a: Seq<char>|
                t != r.target@ ==> #[trigger] after.standing(t, a) == self.standing(t, a)
            &&& out.len() == done.events.len()
            &&& forall|i: int|
                0 <= i < out.len() ==> self.announces(
                    #[trigger] out[i],
                    done.events[i],
                    r,
                    samples,
                )
        }
    }

    /// Records the round, evaluates the target's alerts, and returns the
    /// notifications to send.
    pub fn process_round(&mut self, r: &RoundResult, now: Duration) -> (out: Vec<Notification>)
        requires
            old(self).wf(),
            r.wf(),
        ensures
            old(self).processed(*r, now, *final(self), out@),
    {
        let ghost start = *self;
        let wi: usize = match self.watches.index_of(r.target.as_str()) {
            None => {
                return Vec::new();
            },
            Some(i) => i,
        };
        let ghost names = text::texts(start.watches.at(r.target@)@);
        let s = sample(r);
        let samples: Vec<Sample> = match self.history.get(r.target.as_str()) {
            Some(h) => remember(h, s, self.history_depth),
            None => {
                let none: Vec<Sample> = Vec::new();
                assert(none@ =~= Seq::empty());
                remember(&none, s, self.history_depth)
            },
        };
        let ghost ss = samples@;
        let mut states: NameMap<AlertState> = match self.state.get(r.target.as_str()) {
            Some(m) => copy_states(m),
            None => NameMap::new(),
        };
        proof {
            assert(forall|a: Seq<char>| #[trigger]
                state_in(states, a) == start.standing(r.target@, a));
        }
        let mut out: Vec<Notification> = Vec::new();
        let n: usize = self.watches.entries[wi].1.len();
        let mut i: usize = 0;
        assert(names.take(0) =~= Seq::empty());
        while i < n
            invariant
                start.wf(),
                *self == start,
                r.wf(),
                wi < start.watches.entries@.len(),
                wi == start.watches.place(r.target@),
                names == text::texts(start.watches.entries@[wi as int].1@),
                n == names.len(),
                i <= n,
                samples@ == ss,
                states.wf(),
                forall|a: Seq<char>| #[trigger]
                    state_in(states, a) == start.run(
                        r.target@,
                        names.take(i as int),
                        ss,
                        now,
                    ).states[a],
                out@.len() == start.run(r.target@, names.take(i as int), ss, now).events.len(),
                forall|k: int|
                    0 <= k < out@.len() ==> start.announces(
                        #[trigger] out@[k],
                        start.run(r.target@, names.take(i as int), ss, now).events[k],
                        *r,
                        ss,
                    ),
            decreases n - i,
        {
            let ghost before = start.run(r.target@, names.take(i as int), ss, now);
            assert(names.take(i + 1).drop_last() == names.take(i as int));
            let name = &self.watches.entries[wi].1[i];
            assert(names.take(i + 1).last() == name@);
            assert(self.alerts.has(start.watches.entries@[wi as int].1@[i as int]@));
            let alert = match self.alerts.get(name.as_str()) {
                Some(a) => a,
                None => {
                    return Vec::new();
                },
            };
            let values = series(alert.kind, &samples);
            let matched = alert.pattern.matches(values.as_slice());
            let st = match states.get(name.as_str()) {
                Some(st) => *st,
                None => AlertState { raised: false, last_notify: None },
            };
            assert(st == state_in(states, name@));
            let (next, event) = evaluate(st, matched, alert.repeat, alert.notify_clear, now);
            let ghost old_states = states;
            states.insert(name.clone(), next);
            proof {
                let after = start.run(r.target@, names.take(i + 1), ss, now);
                assert forall|a: Seq<char>| #[trigger] state_in(states, a) == after.states[a] by {
                    if a != name@ {
                        assert(states.lookup(a) == old_states.lookup(a));
                        assert(state_in(old_states, a) == before.states[a]);
                    } else {
                        assert(states.lookup(a) == Some(next));
                    }
                }
            }
            if let Some(e) = event {
                let note = Notification {
                    alert: name.clone(),
                    target: r.target.clone(),
                    host: r.host.clone(),
                    state: e,
                    comment: alert.comment.clone(),
                    detail: detail(alert.kind, &samples),
                };
                let ghost prior = out@;
                out.push(note);
                proof {
                    let after = start.run(r.target@, names.take(i + 1), ss, now);
                    assert(after.events == before.events.push((name@, e)));
                    assert forall|k: int| 0 <= k < out@.len() implies start.announces(
                        #[trigger] out@[k],
                        after.events[k],
                        *r,
                        ss,
                    ) by {
                        if k < prior.len() {
                            assert(start.announces(prior[k], before.events[k], *r, ss));
                        }
                    }
                }
            }
            i = i + 1;
        }
        assert(names.take(i as int) == names);
        let ghost final_states = states;
        self.history.insert(r.target.clone(), samples);
        self.state.insert(r.target.clone(), states);
        proof {
            let t0 = r.target@;
            assert forall|i: int| 0 <= i < self.state.entries@.len() implies (
            #[trigger] self.state.entries@[i]).1.wf() by {
                self.state.lemma_place(i);
                let t = self.state.entries@[i].0@;
                if t != t0 {
                    assert(self.state.lookup(t) == start.state.lookup(t));
                    let p = start.state.place(t);
                    assert(start.state.entries@[p].1.wf());
                }
            }
            assert(self.history.lookup(t0) == Some(self.history.at(t0)));
            assert forall|t: Seq<char>| t != t0 implies #[trigger] self.samples(t)
                == start.samples(t) by {
                assert(self.history.lookup(t) == start.history.lookup(t));
            }
            assert forall|a: Seq<char>| #[trigger] self.standing(t0, a) == start.run(
                t0,
                names,
                ss,
                now,
            ).states[a] by {
                assert(self.state.lookup(t0) == Some(final_states));
                assert(state_in(final_states, a) == self.standing(t0, a));
            }
            assert forall|t: Seq<char>, a: Seq<char>| t != t0 implies #[trigger] self.standing(t, a)
                == start.standing(t, a) by {
                assert(self.state.lookup(t) == start.state.lookup(t));
            }
        }
        out
    }
}

/// Where an alert stands in a table.
spec fn state_in(m: NameMap<AlertState>, alert: Seq<char>) -> AlertState {
    match m.lookup(alert) {
        Some(st) => st,
        None => quiet(),
    }
}

fn copy_states(m: &NameMap<AlertState>) -> (r: NameMap<AlertState>)
    requires
        m.wf(),
    ensures
        r.wf(),
        forall|a: Seq<char>| #[trigger] r.lookup(a) == m.lookup(a),
{
    let mut entries: Vec<(String, AlertState)> = Vec::new();
    let mut i: usize = 0;
    while i < m.entries.len()
        invariant
            i <= m.entries@.len(),
            entries@ == m.entries@.take(i as int),
        decreases m.entries@.len() - i,
    {
        entries.push((m.entries[i].0.clone(), m.entries[i].1));
        assert(entries@ =~= m.entries@.take(i + 1));
        i = i + 1;
    }
    assert(m.entries@.take(i as int) =~= m.entries@);
    let r = NameMap { entries };
    proof {
        assert forall|a: Seq<char>| #[trigger] r.lookup(a) == m.lookup(a) by {
            if m.has(a) {
                let p = m.place(a);
                assert(r.entries@[p].0@ == a);
                r.lemma_place(p);
            }
            if r.has(a) {
                let p = r.place(a);
                assert(m.entries@[p].0@ == a);
                m.lemma_place(p);
            }
        }
    }
    r
}

/// Why the alerts of a configuration are refused.
#[derive(Debug)]
pub enum AlerterError {
    /// A bad definition.
    Alert { name: String, fault: AlertFault },
    /// The target tree is refused.
    Target(TargetError),
    /// A target names an alert that is not defined.
    UnknownAlert { target: String, alert: String },
    /// An alert uses email: but there is no [smtp] section.
    NoSmtp,
}

/// Why the alerts of a configuration are refused.
#[verifier::ext_equal]
pub enum AlerterRefusal {
    Alert(Seq<char>, AlertFault),
    Target(Refusal),
    UnknownAlert(Seq<char>, Seq<char>),
    NoSmtp,
}

impl View for AlerterError {
    type V = AlerterRefusal;

    open spec fn view(&self) -> AlerterRefusal {
        match self {
            AlerterError::Alert { name, fault } => AlerterRefusal::Alert(name@, *fault),
            AlerterError::Target(e) => AlerterRefusal::Target(e@),
            AlerterError::UnknownAlert { target, alert } => AlerterRefusal::UnknownAlert(
                target@,
                alert@,
            ),
            AlerterError::NoSmtp => AlerterRefusal::NoSmtp,
        }
    }
}

/// A text that may be left out.
pub open spec fn given(s: Option<String>) -> Seq<char> {
    match s {
        Some(t) => t@,
        None => Seq::empty(),
    }
}

/// What is said of an alert definition, the causes last.
pub open spec fn alert_texts(name: Seq<char>, fault: AlertFault, def: AlertConfig) -> Seq<
    Seq<char>,
> {
    let head = "alert "@ + text::debug_form(name);
    match fault {
        AlertFault::Pattern(p) => seq![head] + pattern::pattern_texts(p, def.pattern@),
        AlertFault::NoRecipients => seq![
            head + ": `to` must list at least one notification target"@,
        ],
        AlertFault::Recipient(i) => seq![
            head,
            "bad notification target "@ + text::debug_form(
                if i < def.to@.len() {
                    def.to@[i as int]@
                } else {
                    Seq::empty()
                },
            ) + " (log: | email:addr | exec:cmd | webhook:url)"@,
        ],
        AlertFault::Repeat(e) => seq![
            head + ": repeat_every"@,
            util::range_text(e, given(def.repeat_every)),
        ],
    }
}

/// What is said of a configuration's alerts, the causes last.
pub open spec fn alerter_texts(e: AlerterRefusal, cfg: Config) -> Seq<Seq<char>> {
    match e {
        AlerterRefusal::Alert(name, fault) => match cfg.alerts.lookup(name) {
            Some(def) => alert_texts(name, fault, def),
            None => seq!["alert "@ + text::debug_form(name)],
        },
        AlerterRefusal::Target(t) => seq![t.text()],
        AlerterRefusal::UnknownAlert(target, alert) => seq![
            "target "@ + target + ": unknown alert "@ + text::debug_form(alert),
        ],
        AlerterRefusal::NoSmtp => seq!["an alert uses email: but there is no [smtp] section"@],
    }
}

impl AlertFault {
    /// What to say of the definition that it was found in.
    pub fn messages(&self, name: &str, def: &AlertConfig) -> (r: Vec<String>)
        ensures
            text::texts(r@) == alert_texts(name@, *self, *def),
    {
        let mut head = "alert ".to_owned();
        head.append(quoted(name).as_str());
        match self {
            AlertFault::Pattern(p) => atop(head, p.messages(def.pattern.as_str())),
            AlertFault::NoRecipients => {
                head.append(": `to` must list at least one notification target");
                alone(head)
            },
            AlertFault::Recipient(i) => {
                let to = if *i < def.to.len() {
                    def.to[*i].clone()
                } else {
                    String::new()
                };
                let m = said(
                    "bad notification target ",
                    quoted(to.as_str()).as_str(),
                    " (log: | email:addr | exec:cmd | webhook:url)",
                );
                let r = atop(head, alone(m));
                assert(text::texts(r@) =~= alert_texts(name@, *self, *def));
                r
            },
            AlertFault::Repeat(e) => {
                head.append(": repeat_every");
                let range = match &def.repeat_every {
                    Some(t) => t.clone(),
                    None => String::new(),
                };
                let r = atop(head, alone(e.message(range.as_str())));
                assert(text::texts(r@) =~= alert_texts(name@, *self, *def));
                r
            },
        }
    }
}

impl AlerterError {
    /// What to say of the configuration that it was found in, the causes last.
    pub fn messages(&self, cfg: &Config) -> (r: Vec<String>)
        requires
            cfg.wf(),
        ensures
            text::texts(r@) == alerter_texts(self@, *cfg),
    {
        match self {
            AlerterError::Alert { name, fault } => match cfg.alerts.get(name.as_str()) {
                Some(def) => fault.messages(name.as_str(), def),
                None => {
                    let mut m = "alert ".to_owned();
                    m.append(quoted(name.as_str()).as_str());
                    alone(m)
                },
            },
            AlerterError::Target(t) => alone(t.message()),
            AlerterError::UnknownAlert { target, alert } => {
                let mut m = said("target ", target.as_str(), ": unknown alert ");
                m.append(quoted(alert.as_str()).as_str());
                alone(m)
            },
            AlerterError::NoSmtp => {
                alone("an alert uses email: but there is no [smtp] section".to_owned())
            },
        }
    }
}

/// The first bad definition.
pub open spec fn bad_alert(defs: Seq<(String, AlertConfig)>) -> Option<AlerterRefusal>
    decreases defs.len(),
{
    if defs.len() == 0 {
        None
    } else if bad_alert(defs.drop_last()) is Some {
        bad_alert(defs.drop_last())
    } else {
        match alert_fault(defs.last().1) {
            Some(f) => Some(AlerterRefusal::Alert(defs.last().0@, f)),
            None => None,
        }
    }
}

/// The first of a target's alerts that is not defined.
pub open spec fn undefined(cfg: Config, target: Seq<char>, names: Seq<Seq<char>>) -> Option<
    AlerterRefusal,
>
    decreases names.len(),
{
    if names.len() == 0 {
        None
    } else if undefined(cfg, target, names.drop_last()) is Some {
        undefined(cfg, target, names.drop_last())
    } else if !cfg.alerts.has(names.last()) {
        Some(AlerterRefusal::UnknownAlert(target, names.last()))
    } else {
        None
    }
}

/// The first alert of any target that is not defined.
pub open spec fn any_undefined(cfg: Config, leaves: Seq<Leaf>) -> Option<AlerterRefusal>
    decreases leaves.len(),
{
    if leaves.len() == 0 {
        None
    } else if any_undefined(cfg, leaves.drop_last()) is Some {
        any_undefined(cfg, leaves.drop_last())
    } else {
        undefined(cfg, leaves.last().path, leaves.last().alerts)
    }
}

/// The alerts that watch a target.
pub open spec fn watchers(leaves: Seq<Leaf>, target: Seq<char>) -> Seq<Seq<char>>
    decreases leaves.len(),
{
    if leaves.len() == 0 {
        Seq::empty()
    } else if leaves.last().path == target {
        watchers(leaves.drop_last(), target) + leaves.last().alerts
    } else {
        watchers(leaves.drop_last(), target)
    }
}

/// Some target is watched.
pub open spec fn any_watched(leaves: Seq<Leaf>) -> bool {
    exists|i: int| 0 <= i < leaves.len() && (#[trigger] leaves[i]).alerts.len() > 0
}

/// Some definition sends mail.
pub open spec fn any_mail(defs: Seq<(String, AlertConfig)>) -> bool {
    exists|i: int, j: int|
        0 <= i < defs.len() && 0 <= j < defs[i].1.to@.len() && notify::route_of(
            (#[trigger] defs[i].1.to@[j])@,
        ) matches Some(notify::Route::Email(_))
}

/// Why the alerts of a configuration are refused, if they are.
pub open spec fn alerter_refusal(cfg: Config) -> Option<AlerterRefusal> {
    if bad_alert(cfg.alerts.entries@) is Some {
        bad_alert(cfg.alerts.entries@)
    } else {
        match cfg.flattened() {
            Err(e) => Some(AlerterRefusal::Target(e)),
            Ok(leaves) => if any_undefined(cfg, leaves) is Some {
                any_undefined(cfg, leaves)
            } else if any_watched(leaves) && any_mail(cfg.alerts.entries@) && cfg.smtp is None {
                Some(AlerterRefusal::NoSmtp)
            } else {
                None
            },
        }
    }
}

/// How many rounds must be remembered for these alerts: as many as any
/// pattern can inspect, and 8 at least.
pub open spec fn depth_needed(alerts: Seq<(String, Alert)>) -> nat
    decreases alerts.len(),
{
    if alerts.len() == 0 {
        8
    } else {
        let before = depth_needed(alerts.drop_last());
        let own = pattern::depth_of(alerts.last().1.pattern.elems@);
        if own > before {
            own
        } else {
            before
        }
    }
}

pub open spec fn countable(n: nat) -> nat {
    if n > usize::MAX {
        usize::MAX as nat
    } else {
        n
    }
}

impl Alerter {
    /// The alerter was made from this configuration and has seen nothing yet.
    pub open spec fn of(self, cfg: Config, leaves: Seq<Leaf>) -> bool {
        &&& self.wf()
        &&& self.alerts.entries@.len() == cfg.alerts.entries@.len()
        &&& forall|i: int|
            0 <= i < cfg.alerts.entries@.len() ==> {
                &&& (#[trigger] self.alerts.entries@[i]).0@ == cfg.alerts.entries@[i].0@
                &&& self.alerts.entries@[i].1.of(cfg.alerts.entries@[i].1)
            }
        &&& forall|t: Seq<char>|
            match #[trigger] self.watches.lookup(t) {
                Some(v) => text::texts(v@) == watchers(leaves, t) && v@.len() > 0,
                None => watchers(leaves, t).len() == 0,
            }
        &&& self.history_depth == countable(depth_needed(self.alerts.entries@))
        &&& self.smtp == cfg.smtp
        &&& self.fresh()
    }

    /// No round was seen yet.
    pub open spec fn fresh(self) -> bool {
        &&& self.history.entries@.len() == 0
        &&& self.state.entries@.len() == 0
    }

    /// Returns None when no target references an alert.
    pub fn new(cfg: &Config) -> (r: Result<Option<Alerter>, AlerterError>)
        requires
            cfg.wf(),
        ensures
            match r {
                Err(e) => alerter_refusal(*cfg) == Some(e@),
                Ok(a) => {
                    &&& alerter_refusal(*cfg) is None
                    &&& cfg.flattened() matches Ok(leaves)
                    &&& match a {
                        None => !any_watched(leaves),
                        Some(a) => any_watched(leaves) && a.of(*cfg, leaves),
                    }
                },
            },
    {
        let alerts = match parse_alerts(cfg) {
            Err(e) => {
                return Err(e);
            },
            Ok(a) => a,
        };
        let flat = match cfg.flatten_targets() {
            Err(e) => {
                return Err(AlerterError::Target(e));
            },
            Ok(v) => v,
        };
        let ghost leaves = crate::config::leaves_of(flat@);
        match find_undefined(cfg, &flat) {
            Some(e) => {
                return Err(e);
            },
            None => {},
        }
        let watches = collect_watches(&flat);
        if watches.len() == 0 {
            proof {
                if any_watched(leaves) {
                    let i = choose|i: int|
                        0 <= i < leaves.len() && (#[trigger] leaves[i]).alerts.len() > 0;
                    lemma_watched(leaves, i);
                    assert(watches.lookup(leaves[i].path) is None);
                }
            }
            return Ok(None);
        }
        proof {
            watches.lemma_place(0);
            let t = watches.entries@[0].0@;
            assert(watches.lookup(t) is Some);
            lemma_watchers(leaves, t);
        }
        if sends_mail(cfg, &alerts) && cfg.smtp.is_none() {
            return Err(AlerterError::NoSmtp);
        }
        let history_depth: usize = needed(&alerts);
        let a = Alerter {
            alerts,
            watches,
            history_depth,
            smtp: match &cfg.smtp {
                Some(s) => Some(s.clone()),
                None => None,
            },
            history: NameMap::new(),
            state: NameMap::new(),
        };
        proof {
            assert forall|i: int, j: int|
                0 <= i < a.watches.entries@.len() && 0 <= j < a.watches.entries@[i].1@.len()
                implies a.alerts.has((#[trigger] a.watches.entries@[i].1@[j])@) by {
                a.watches.lemma_place(i);
                let t = a.watches.entries@[i].0@;
                assert(a.watches.lookup(t) == Some(a.watches.entries@[i].1));
                let list = watchers(leaves, t);
                assert(text::texts(a.watches.entries@[i].1@)[j] == list[j]);
                lemma_defined(*cfg, leaves, t, j);
                let p = cfg.alerts.place(list[j]);
                assert(a.alerts.entries@[p].0@ == list[j]);
            }
            assert forall|i: int| 0 <= i < a.alerts.entries@.len() implies ((
            #[trigger] a.alerts.entries@[i]).1.repeat matches Some(every) ==> every.nanos > 0) by {
                let def = cfg.alerts.entries@[i].1;
                assert(a.alerts.entries@[i].1.of(def));
                if let Some(every) = def.repeat_every {
                    util::lemma_range(every@);
                }
            }
        }
        Ok(Some(a))
    }
}

fn parse_alerts(cfg: &Config) -> (r: Result<NameMap<Alert>, AlerterError>)
    requires
        cfg.wf(),
    ensures
        match r {
            Err(e) => bad_alert(cfg.alerts.entries@) == Some(e@),
            Ok(m) => {
                &&& bad_alert(cfg.alerts.entries@) is None
                &&& m.wf()
                &&& m.entries@.len() == cfg.alerts.entries@.len()
                &&& forall|i: int|
                    0 <= i < cfg.alerts.entries@.len() ==> {
                        &&& (#[trigger] m.entries@[i]).0@ == cfg.alerts.entries@[i].0@
                        &&& m.entries@[i].1.of(cfg.alerts.entries@[i].1)
                    }
            },
        },
{
    let ghost defs = cfg.alerts.entries@;
    let mut entries: Vec<(String, Alert)> = Vec::new();
    let mut i: usize = 0;
    assert(defs.take(0) =~= Seq::empty());
    while i < cfg.alerts.entries.len()
        invariant
            defs == cfg.alerts.entries@,
            i <= defs.len(),
            bad_alert(defs.take(i as int)) is None,
            entries@.len() == i,
            forall|j: int|
                0 <= j < i ==> (#[trigger] entries@[j]).0@ == defs[j].0@ && entries@[j].1.of(
                    defs[j].1,
                ),
        decreases defs.len() - i,
    {
        assert(defs.take(i + 1).drop_last() == defs.take(i as int));
        assert(defs.take(i + 1).last() == defs[i as int]);
        let def = &cfg.alerts.entries[i];
        match Alert::parse(&def.1) {
            Err(fault) => {
                proof {
                    lemma_bad_alert(defs, i + 1);
                }
                return Err(AlerterError::Alert { name: def.0.clone(), fault });
            },
            Ok(a) => {
                entries.push((def.0.clone(), a));
            },
        }
        i = i + 1;
    }
    assert(defs.take(i as int) == defs);
    Ok(NameMap { entries })
}

proof fn lemma_bad_alert(defs: Seq<(String, AlertConfig)>, k: int)
    requires
        0 <= k <= defs.len(),
        bad_alert(defs.take(k)) is Some,
    ensures
        bad_alert(defs) == bad_alert(defs.take(k)),
    decreases defs.len() - k,
{
    if k < defs.len() {
        assert(defs.drop_last().take(k) == defs.take(k));
        lemma_bad_alert(defs.drop_last(), k);
    } else {
        assert(defs.take(k) == defs);
    }
}

proof fn lemma_undefined(cfg: Config, target: Seq<char>, names: Seq<Seq<char>>, k: int)
    requires
        0 <= k <= names.len(),
        undefined(cfg, target, names.take(k)) is Some,
    ensures
        undefined(cfg, target, names) == undefined(cfg, target, names.take(k)),
    decreases names.len() - k,
{
    if k < names.len() {
        assert(names.drop_last().take(k) == names.take(k));
        lemma_undefined(cfg, target, names.drop_last(), k);
    } else {
        assert(names.take(k) == names);
    }
}

proof fn lemma_any_undefined(cfg: Config, leaves: Seq<Leaf>, k: int)
    requires
        0 <= k <= leaves.len(),
        any_undefined(cfg, leaves.take(k)) is Some,
    ensures
        any_undefined(cfg, leaves) == any_undefined(cfg, leaves.take(k)),
    decreases leaves.len() - k,
{
    if k < leaves.len() {
        assert(leaves.drop_last().take(k) == leaves.take(k));
        lemma_any_undefined(cfg, leaves.drop_last(), k);
    } else {
        assert(leaves.take(k) == leaves);
    }
}

fn find_undefined(cfg: &Config, flat: &Vec<FlatTarget>) -> (r: Option<AlerterError>)
    requires
        cfg.wf(),
    ensures
        match r {
            None => any_undefined(*cfg, crate::config::leaves_of(flat@)) is None,
            Some(e) => any_undefined(*cfg, crate::config::leaves_of(flat@)) == Some(e@),
        },
{
    let ghost leaves = crate::config::leaves_of(flat@);
    let mut i: usize = 0;
    assert(leaves.take(0) =~= Seq::empty());
    while i < flat.len()
        invariant
            cfg.wf(),
            leaves == crate::config::leaves_of(flat@),
            i <= flat@.len(),
            any_undefined(*cfg, leaves.take(i as int)) is None,
        decreases flat@.len() - i,
    {
        let t = &flat[i];
        assert(leaves.take(i + 1).drop_last() == leaves.take(i as int));
        assert(leaves.take(i + 1).last() == t@);
        let ghost names = text::texts(t.alerts@);
        let mut j: usize = 0;
        assert(names.take(0) =~= Seq::empty());
        while j < t.alerts.len()
            invariant
                cfg.wf(),
                names == text::texts(t.alerts@),
                leaves == crate::config::leaves_of(flat@),
                0 <= i < flat@.len(),
                leaves.take(i + 1).drop_last() == leaves.take(i as int),
                leaves.take(i + 1).last() == t@,
                any_undefined(*cfg, leaves.take(i as int)) is None,
                j <= t.alerts@.len(),
                undefined(*cfg, t.path@, names.take(j as int)) is None,
            decreases t.alerts@.len() - j,
        {
            assert(names.take(j + 1).drop_last() == names.take(j as int));
            assert(names.take(j + 1).last() == t.alerts@[j as int]@);
            if !cfg.alerts.contains(t.alerts[j].as_str()) {
                proof {
                    lemma_undefined(*cfg, t.path@, names, j + 1);
                    lemma_any_undefined(*cfg, leaves, i + 1);
                }
                return Some(
                    AlerterError::UnknownAlert {
                        target: t.path.clone(),
                        alert: t.alerts[j].clone(),
                    },
                );
            }
            j = j + 1;
        }
        assert(names.take(j as int) == names);
        i = i + 1;
    }
    assert(leaves.take(i as int) == leaves);
    None
}

fn collect_watches(flat: &Vec<FlatTarget>) -> (m: NameMap<Vec<String>>)
    ensures
        m.wf(),
        forall|t: Seq<char>|
            match #[trigger] m.lookup(t) {
                Some(v) => text::texts(v@) == watchers(crate::config::leaves_of(flat@), t) && v@.len()
                    > 0,
                None => watchers(crate::config::leaves_of(flat@), t).len() == 0,
            },
{
    let ghost leaves = crate::config::leaves_of(flat@);
    let mut m: NameMap<Vec<String>> = NameMap::new();
    let mut i: usize = 0;
    assert(leaves.take(0) =~= Seq::empty());
    while i < flat.len()
        invariant
            leaves == crate::config::leaves_of(flat@),
            i <= flat@.len(),
            m.wf(),
            forall|t: Seq<char>|
                match #[trigger] m.lookup(t) {
                    Some(v) => text::texts(v@) == watchers(leaves.take(i as int), t) && v@.len() > 0,
                    None => watchers(leaves.take(i as int), t).len() == 0,
                },
        decreases flat@.len() - i,
    {
        let t = &flat[i];
        assert(leaves.take(i + 1).drop_last() == leaves.take(i as int));
        assert(leaves.take(i + 1).last() == t@);
        let ghost before = m;
        if t.alerts.len() > 0 {
            let mut list: Vec<String> = match m.get(t.path.as_str()) {
                Some(v) => copy_list(v),
                None => Vec::new(),
            };
            let ghost had = text::texts(list@);
            assert(had =~= watchers(leaves.take(i as int), t.path@)) by {
                assert(m.lookup(t.path@) is Some || m.lookup(t.path@) is None);
            }
            let mut j: usize = 0;
            assert(text::texts(list@) =~= had + text::texts(t.alerts@).take(0));
            while j < t.alerts.len()
                invariant
                    j <= t.alerts@.len(),
                    text::texts(list@) == had + text::texts(t.alerts@).take(j as int),
                decreases t.alerts@.len() - j,
            {
                let ghost prior = list@;
                list.push(t.alerts[j].clone());
                assert(text::texts(list@) =~= text::texts(prior).push(t.alerts@[j as int]@));
                assert(text::texts(list@) =~= had + text::texts(t.alerts@).take(j + 1));
                j = j + 1;
            }
            assert(text::texts(t.alerts@).take(j as int) =~= text::texts(t.alerts@));
            let ghost listed = list;
            m.insert(t.path.clone(), list);
            proof {
                assert(text::texts(listed@).len() == listed@.len());
                assert forall|p: Seq<char>|
                    match #[trigger] m.lookup(p) {
                        Some(v) => text::texts(v@) == watchers(leaves.take(i + 1), p) && v@.len() > 0,
                        None => watchers(leaves.take(i + 1), p).len() == 0,
                    } by {
                    if p != t.path@ {
                        assert(m.lookup(p) == before.lookup(p));
                    }
                }
            }
        } else {
            proof {
                assert forall|p: Seq<char>|
                    match #[trigger] m.lookup(p) {
                        Some(v) => text::texts(v@) == watchers(leaves.take(i + 1), p) && v@.len() > 0,
                        None => watchers(leaves.take(i + 1), p).len() == 0,
                    } by {
                    assert(watchers(leaves.take(i as int), p) + text::texts(t.alerts@) =~= watchers(
                        leaves.take(i as int),
                        p,
                    ));
                }
            }
        }
        i = i + 1;
    }
    assert(leaves.take(i as int) == leaves);
    m
}

/// A watched target is among those of some leaf.
proof fn lemma_watchers(leaves: Seq<Leaf>, t: Seq<char>)
    requires
        watchers(leaves, t).len() > 0,
    ensures
        any_watched(leaves),
    decreases leaves.len(),
{
    if leaves.last().path == t && leaves.last().alerts.len() > 0 {
        assert(leaves[leaves.len() - 1].alerts.len() > 0);
    } else {
        lemma_watchers(leaves.drop_last(), t);
        let rest = leaves.drop_last();
        let i = choose|i: int| 0 <= i < rest.len() && (#[trigger] rest[i]).alerts.len() > 0;
        assert(leaves[i].alerts.len() > 0);
    }
}

/// The target of a leaf with alerts is watched.
proof fn lemma_watched(leaves: Seq<Leaf>, i: int)
    requires
        0 <= i < leaves.len(),
        leaves[i].alerts.len() > 0,
    ensures
        watchers(leaves, leaves[i].path).len() > 0,
    decreases leaves.len(),
{
    if i < leaves.len() - 1 {
        assert(leaves.drop_last()[i] == leaves[i]);
        lemma_watched(leaves.drop_last(), i);
    }
}

proof fn lemma_all_defined(cfg: Config, target: Seq<char>, names: Seq<Seq<char>>, j: int)
    requires
        undefined(cfg, target, names) is None,
        0 <= j < names.len(),
    ensures
        cfg.alerts.has(names[j]),
    decreases names.len(),
{
    if j < names.len() - 1 {
        assert(names.drop_last()[j] == names[j]);
        lemma_all_defined(cfg, target, names.drop_last(), j);
    }
}

/// Every watcher is defined.
proof fn lemma_defined(cfg: Config, leaves: Seq<Leaf>, t: Seq<char>, j: int)
    requires
        any_undefined(cfg, leaves) is None,
        0 <= j < watchers(leaves, t).len(),
    ensures
        cfg.alerts.has(watchers(leaves, t)[j]),
    decreases leaves.len(),
{
    let rest = watchers(leaves.drop_last(), t);
    if j < rest.len() {
        lemma_defined(cfg, leaves.drop_last(), t, j);
    } else {
        lemma_all_defined(cfg, leaves.last().path, leaves.last().alerts, j - rest.len());
    }
}

fn sends_mail(cfg: &Config, alerts: &NameMap<Alert>) -> (r: bool)
    requires
        alerts.entries@.len() == cfg.alerts.entries@.len(),
        forall|i: int|
            0 <= i < cfg.alerts.entries@.len() ==> (#[trigger] alerts.entries@[i]).1.of(
                cfg.alerts.entries@[i].1,
            ),
    ensures
        r == any_mail(cfg.alerts.entries@),
{
    let ghost defs = cfg.alerts.entries@;
    let mut i: usize = 0;
    while i < alerts.entries.len()
        invariant
            defs == cfg.alerts.entries@,
            alerts.entries@.len() == defs.len(),
            forall|k: int|
                0 <= k < defs.len() ==> (#[trigger] alerts.entries@[k]).1.of(defs[k].1),
            i <= defs.len(),
            forall|k: int, j: int|
                0 <= k < i && 0 <= j < defs[k].1.to@.len() ==> !(notify::route_of(
                    (#[trigger] defs[k].1.to@[j])@,
                ) matches Some(notify::Route::Email(_))),
        decreases defs.len() - i,
    {
        let a = &alerts.entries[i].1;
        assert(alerts.entries@[i as int].1.of(defs[i as int].1));
        let mut j: usize = 0;
        while j < a.to.len()
            invariant
                defs == cfg.alerts.entries@,
                0 <= i < defs.len(),
                a.of(defs[i as int].1),
                j <= a.to@.len(),
                forall|m: int|
                    0 <= m < j ==> !(notify::route_of((#[trigger] defs[i as int].1.to@[m])@)
                        matches Some(notify::Route::Email(_))),
            decreases a.to@.len() - j,
        {
            assert(Some(a.to@[j as int]@) == notify::route_of(defs[i as int].1.to@[j as int]@));
            if let NotifySpec::Email(_) = &a.to[j] {
                return true;
            }
            j = j + 1;
        }
        i = i + 1;
    }
    false
}

fn needed(alerts: &NameMap<Alert>) -> (r: usize)
    ensures
        r == countable(depth_needed(alerts.entries@)),
{
    let ghost all = alerts.entries@;
    let mut best: usize = 8;
    let mut i: usize = 0;
    assert(all.take(0) =~= Seq::empty());
    while i < alerts.entries.len()
        invariant
            all == alerts.entries@,
            i <= all.len(),
            best == countable(depth_needed(all.take(i as int))),
        decreases all.len() - i,
    {
        assert(all.take(i + 1).drop_last() == all.take(i as int));
        assert(all.take(i + 1).last() == all[i as int]);
        let d: usize = alerts.entries[i].1.pattern.depth();
        if d > best {
            best = d;
        }
        i = i + 1;
    }
    assert(all.take(i as int) == all);
    best
}

proof fn lemma_depth_needed(alerts: Seq<(String, Alert)>, i: int)
    requires
        0 <= i < alerts.len(),
    ensures
        pattern::depth_of(alerts[i].1.pattern.elems@) <= depth_needed(alerts),
    decreases alerts.len(),
{
    if i < alerts.len() - 1 {
        assert(alerts.drop_last()[i] == alerts[i]);
        lemma_depth_needed(alerts.drop_last(), i);
    }
}

/// An alerter forgets nothing that its alerts look at: a pattern matches what
/// it remembers exactly where it matches the whole history.
pub proof fn what_is_forgotten_makes_no_difference(
    a: Alerter,
    i: int,
    whole: Seq<Sample>,
)
    requires
        0 <= i < a.alerts.entries@.len(),
        a.history_depth == depth_needed(a.alerts.entries@),
        whole.len() >= a.history_depth,
    ensures
        ({
            let alert = a.alerts.entries@[i].1;
            let kept = whole.skip(whole.len() - a.history_depth);
            pattern::matched(alert.pattern.elems@, series_of(alert.kind, kept))
                == pattern::matched(alert.pattern.elems@, series_of(alert.kind, whole))
        }),
{
    let alert = a.alerts.entries@[i].1;
    lemma_depth_needed(a.alerts.entries@, i);
    let keep = a.history_depth as nat;
    let all = series_of(alert.kind, whole);
    let kept = whole.skip(whole.len() - keep);
    assert(series_of(alert.kind, kept) =~= all.skip(all.len() - keep));
    pattern::a_bounded_history_is_enough(alert.pattern.elems@, all, keep);
}

/// The events of some alerts, in their order; one that is listed again adds
/// nothing.
pub open spec fn each_once(
    names: Seq<Seq<char>>,
    event: spec_fn(Seq<char>) -> Option<AlertEvent>,
) -> Seq<(Seq<char>, AlertEvent)>
    decreases names.len(),
{
    if names.len() == 0 {
        Seq::empty()
    } else {
        let before = each_once(names.drop_last(), event);
        match event(names.last()) {
            Some(e) if !names.drop_last().contains(names.last()) => before.push((names.last(), e)),
            _ => before,
        }
    }
}

/// The alerter after each round of a stream, and what it gives out for it.
pub open spec fn streamed(
    alerters: Seq<Alerter>,
    rounds: Seq<(RoundResult, Duration)>,
    outs: Seq<Seq<Notification>>,
) -> bool {
    &&& alerters.len() == rounds.len() + 1
    &&& outs.len() == rounds.len()
    &&& forall|k: int|
        0 <= k < rounds.len() ==> alerters[k].processed(
            (#[trigger] rounds[k]).0,
            rounds[k].1,
            alerters[k + 1],
            outs[k],
        )
}

/// The samples of a target in the first `n` rounds.
pub open spec fn seen(rounds: Seq<(RoundResult, Duration)>, n: int, target: Seq<char>) -> Seq<
    Sample,
>
    decreases n,
{
    if n <= 0 {
        Seq::empty()
    } else if rounds[n - 1].0.target@ == target {
        seen(rounds, n - 1, target).push(sample_of(rounds[n - 1].0))
    } else {
        seen(rounds, n - 1, target)
    }
}

/// Some notification is of this alert.
pub open spec fn tells_of(out: Seq<Notification>, alert: Seq<char>) -> bool {
    exists|i: int| 0 <= i < out.len() && (#[trigger] out[i]).alert@ == alert
}

/// When, in the first `n` rounds, the alert last gave a notification of the
/// target.
pub open spec fn last_told(
    rounds: Seq<(RoundResult, Duration)>,
    outs: Seq<Seq<Notification>>,
    n: int,
    target: Seq<char>,
    alert: Seq<char>,
) -> Option<Duration>
    decreases n,
{
    if n <= 0 {
        None
    } else if rounds[n - 1].0.target@ == target && tells_of(outs[n - 1], alert) {
        Some(rounds[n - 1].1)
    } else {
        last_told(rounds, outs, n - 1, target, alert)
    }
}

impl Alerter {
    /// The alert's pattern matches all samples of the first `n` rounds; before
    /// the target's first round it does not.
    pub open spec fn matched_at(
        self,
        rounds: Seq<(RoundResult, Duration)>,
        n: int,
        target: Seq<char>,
        alert: Seq<char>,
    ) -> bool {
        let all = seen(rounds, n, target);
        all.len() > 0 && self.matches(alert, all)
    }

    /// What round `k` makes of an alert of its target: a raise where the
    /// pattern begins to match; a clear where it ceases to, if that is to be
    /// told; a repeat where it goes on matching and the last notification is
    /// old enough.
    pub open spec fn owed(
        self,
        rounds: Seq<(RoundResult, Duration)>,
        outs: Seq<Seq<Notification>>,
        k: int,
        alert: Seq<char>,
    ) -> Option<AlertEvent> {
        let target = rounds[k].0.target@;
        let def = self.alerts.at(alert);
        let was = self.matched_at(rounds, k, target, alert);
        let now = self.matched_at(rounds, k + 1, target, alert);
        if !was && now {
            Some(AlertEvent::Raised)
        } else if was && !now && def.notify_clear {
            Some(AlertEvent::Cleared)
        } else if was && now && (def.repeat matches Some(every) && due(
            last_told(rounds, outs, k, target, alert),
            every,
            rounds[k].1,
        )) {
            Some(AlertEvent::Repeat)
        } else {
            None
        }
    }

    /// What an evaluation makes of an alert that stands where it stands.
    spec fn event_for(
        self,
        target: Seq<char>,
        alert: Seq<char>,
        samples: Seq<Sample>,
        now: Duration,
    ) -> Option<AlertEvent> {
        let def = self.alerts.at(alert);
        event_of(
            self.standing(target, alert),
            self.matches(alert, samples),
            def.repeat,
            def.notify_clear,
            now,
        )
    }

    spec fn state_for(
        self,
        target: Seq<char>,
        alert: Seq<char>,
        samples: Seq<Sample>,
        now: Duration,
    ) -> AlertState {
        let def = self.alerts.at(alert);
        state_after(
            self.standing(target, alert),
            self.matches(alert, samples),
            def.repeat,
            def.notify_clear,
            now,
        )
    }
}

/// Over any stream of rounds from the start, each round gives the alerts of its
/// target one notification at most, in the order of the target's list: what is
/// owed by all the target's samples up to it. A round of a target that no alert
/// watches gives none and changes nothing.
pub proof fn alerts_follow_the_rounds(
    alerters: Seq<Alerter>,
    rounds: Seq<(RoundResult, Duration)>,
    outs: Seq<Seq<Notification>>,
    k: int,
)
    requires
        alerters[0].wf(),
        alerters[0].fresh(),
        alerters[0].history_depth == depth_needed(alerters[0].alerts.entries@),
        streamed(alerters, rounds, outs),
        0 <= k < rounds.len(),
    ensures
        ({
            let a = alerters[0];
            let target = rounds[k].0.target@;
            if !a.watches.has(target) {
                outs[k].len() == 0 && alerters[k + 1] == alerters[k]
            } else {
                let want = each_once(
                    text::texts(a.watches.at(target)@),
                    |alert: Seq<char>| a.owed(rounds, outs, k, alert),
                );
                &&& outs[k].len() == want.len()
                &&& forall|i: int|
                    0 <= i < outs[k].len() ==> {
                        let n = #[trigger] outs[k][i];
                        &&& n.target@ == target
                        &&& n.host@ == rounds[k].0.host@
                        &&& n.alert@ == want[i].0
                        &&& n.state == want[i].1
                        &&& n.comment@ == a.alerts.at(want[i].0).comment@
                    }
            }
        }),
{
    let a = alerters[0];
    let b = alerters[k];
    let (r, now) = rounds[k];
    let target = r.target@;
    lemma_unchanged(alerters, rounds, outs, k);
    if a.watches.has(target) {
        let names = text::texts(a.watches.at(target)@);
        let samples = remembered(b.samples(target), sample_of(r), b.history_depth as nat);
        lemma_repeats(b, target);
        lemma_run_once(b, target, names, samples, now);
        let by_state = |alert: Seq<char>| b.event_for(target, alert, samples, now);
        let by_rounds = |alert: Seq<char>| a.owed(rounds, outs, k, alert);
        assert forall|i: int| 0 <= i < names.len() implies by_state(#[trigger] names[i])
            == by_rounds(names[i]) by {
            lemma_where_it_stands(alerters, rounds, outs, k, target, i);
            lemma_where_it_stands(alerters, rounds, outs, k + 1, target, i);
            lemma_remembered(seen(rounds, k, target), sample_of(r), b.history_depth as nat);
            lemma_matches_all(a, target, i, seen(rounds, k + 1, target));
        }
        lemma_same_events(names, by_state, by_rounds);
    }
}

/// An alert gives one notification a round at most, and only where it is listed
/// and something is owed.
pub proof fn an_alert_tells_one_thing_a_round(
    names: Seq<Seq<char>>,
    event: spec_fn(Seq<char>) -> Option<AlertEvent>,
)
    ensures
        ({
            let all = each_once(names, event);
            &&& forall|i: int|
                0 <= i < all.len() ==> names.contains((#[trigger] all[i]).0) && event(all[i].0)
                    == Some(all[i].1)
            &&& forall|i: int, j: int|
                0 <= i < j < all.len() ==> (#[trigger] all[i]).0 != (#[trigger] all[j]).0
            &&& forall|n: int|
                0 <= n < names.len() ==> (event(#[trigger] names[n]) matches Some(e)
                    ==> all.contains((names[n], e)))
        }),
    decreases names.len(),
{
    if names.len() > 0 {
        let rest = names.drop_last();
        let name = names.last();
        an_alert_tells_one_thing_a_round(rest, event);
        let before = each_once(rest, event);
        let all = each_once(names, event);
        assert(names[names.len() - 1] == name);
        assert forall|i: int| 0 <= i < all.len() implies names.contains((#[trigger] all[i]).0)
            && event(all[i].0) == Some(all[i].1) by {
            if i < before.len() {
                assert(all[i] == before[i]);
                let j = choose|j: int| 0 <= j < rest.len() && rest[j] == before[i].0;
                assert(names[j] == before[i].0);
            }
        }
        assert forall|i: int, j: int| 0 <= i < j < all.len() implies (#[trigger] all[i]).0 != (
        #[trigger] all[j]).0 by {
            assert(all[i] == before[i]);
            if j < before.len() {
                assert(all[j] == before[j]);
            }
        }
        assert forall|n: int| 0 <= n < names.len() implies (event(#[trigger] names[n]) matches Some(
            e,
        ) ==> all.contains((names[n], e))) by {
            if let Some(e) = event(names[n]) {
                if rest.contains(names[n]) {
                    let m = choose|m: int| 0 <= m < rest.len() && rest[m] == names[n];
                    assert(event(rest[m]) == Some(e));
                    let i = choose|i: int| 0 <= i < before.len() && before[i] == (names[n], e);
                    assert(all[i] == (names[n], e));
                } else {
                    if n < rest.len() {
                        assert(rest[n] == names[n]);
                    }
                    assert(all[all.len() - 1] == (name, e));
                }
            }
        }
    }
}

proof fn lemma_same_events(
    names: Seq<Seq<char>>,
    f: spec_fn(Seq<char>) -> Option<AlertEvent>,
    g: spec_fn(Seq<char>) -> Option<AlertEvent>,
)
    requires
        forall|i: int| 0 <= i < names.len() ==> f(#[trigger] names[i]) == g(names[i]),
    ensures
        each_once(names, f) == each_once(names, g),
    decreases names.len(),
{
    if names.len() > 0 {
        let rest = names.drop_last();
        assert forall|i: int| 0 <= i < rest.len() implies f(#[trigger] rest[i]) == g(rest[i]) by {
            assert(rest[i] == names[i]);
        }
        lemma_same_events(rest, f, g);
        assert(names[names.len() - 1] == names.last());
    }
}

/// An alert listed twice is evaluated twice, and the second time changes
/// nothing.
proof fn lemma_run_once(
    a: Alerter,
    target: Seq<char>,
    names: Seq<Seq<char>>,
    samples: Seq<Sample>,
    now: Duration,
)
    requires
        forall|i: int|
            0 <= i < names.len() ==> (a.alerts.at(#[trigger] names[i]).repeat matches Some(every)
                ==> every.nanos > 0),
    ensures
        ({
            let done = a.run(target, names, samples, now);
            &&& done.events == each_once(
                names,
                |alert: Seq<char>| a.event_for(target, alert, samples, now),
            )
            &&& forall|x: Seq<char>| #[trigger]
                done.states[x] == (if names.contains(x) {
                    a.state_for(target, x, samples, now)
                } else {
                    a.standing(target, x)
                })
        }),
    decreases names.len(),
{
    let f = |alert: Seq<char>| a.event_for(target, alert, samples, now);
    if names.len() > 0 {
        let rest = names.drop_last();
        let name = names.last();
        assert forall|i: int| 0 <= i < rest.len() implies (a.alerts.at(
            #[trigger] rest[i],
        ).repeat matches Some(every) ==> every.nanos > 0) by {
            assert(rest[i] == names[i]);
        }
        lemma_run_once(a, target, rest, samples, now);
        let before = a.run(target, rest, samples, now);
        let done = a.run(target, names, samples, now);
        assert(names[names.len() - 1] == name);
        assert(f(name) == a.event_for(target, name, samples, now));
        assert(before.states[name] == (if rest.contains(name) {
            a.state_for(target, name, samples, now)
        } else {
            a.standing(target, name)
        }));
        assert forall|x: Seq<char>| #[trigger]
            done.states[x] == (if names.contains(x) {
                a.state_for(target, x, samples, now)
            } else {
                a.standing(target, x)
            }) by {
            assert(before.states[x] == before.states[x]);
            if rest.contains(x) {
                let j = choose|j: int| 0 <= j < rest.len() && rest[j] == x;
                assert(names[j] == x);
            }
            if names.contains(x) && x != name {
                let j = choose|j: int| 0 <= j < names.len() && names[j] == x;
                assert(rest[j] == x);
            }
        }
    }
}

/// The alerts of a target repeat no faster than time goes.
proof fn lemma_repeats(a: Alerter, target: Seq<char>)
    requires
        a.wf(),
        a.watches.has(target),
    ensures
        ({
            let names = text::texts(a.watches.at(target)@);
            forall|i: int|
                0 <= i < names.len() ==> {
                    &&& a.alerts.has(#[trigger] names[i])
                    &&& a.alerts.at(names[i]).repeat matches Some(every) ==> every.nanos > 0
                }
        }),
{
    let names = text::texts(a.watches.at(target)@);
    assert forall|i: int| 0 <= i < names.len() implies {
        &&& a.alerts.has(#[trigger] names[i])
        &&& a.alerts.at(names[i]).repeat matches Some(every) ==> every.nanos > 0
    } by {
        let p = a.watches.place(target);
        assert(a.alerts.has(a.watches.entries@[p].1@[i]@));
        let q = a.alerts.place(names[i]);
        assert(a.alerts.entries@[q].0@ == names[i]);
    }
}

proof fn lemma_unchanged(
    alerters: Seq<Alerter>,
    rounds: Seq<(RoundResult, Duration)>,
    outs: Seq<Seq<Notification>>,
    k: int,
)
    requires
        alerters[0].wf(),
        streamed(alerters, rounds, outs),
        0 <= k <= rounds.len(),
    ensures
        alerters[k].wf(),
        alerters[k].alerts == alerters[0].alerts,
        alerters[k].watches == alerters[0].watches,
        alerters[k].history_depth == alerters[0].history_depth,
    decreases k,
{
    if k > 0 {
        lemma_unchanged(alerters, rounds, outs, k - 1);
        let r = rounds[k - 1];
    }
}

/// A history cut to its newest samples.
spec fn newest(history: Seq<Sample>, keep: nat) -> Seq<Sample> {
    if history.len() > keep {
        history.skip(history.len() - keep)
    } else {
        history
    }
}

proof fn lemma_remembered(history: Seq<Sample>, s: Sample, keep: nat)
    ensures
        remembered(newest(history, keep), s, keep) == newest(history.push(s), keep),
{
    assert(remembered(newest(history, keep), s, keep) =~= newest(history.push(s), keep));
}

/// What is remembered is matched as the whole is.
proof fn lemma_matches_all(a: Alerter, target: Seq<char>, i: int, all: Seq<Sample>)
    requires
        a.wf(),
        a.history_depth == depth_needed(a.alerts.entries@),
        a.watches.has(target),
        0 <= i < a.watches.at(target)@.len(),
    ensures
        ({
            let name = text::texts(a.watches.at(target)@)[i];
            a.matches(name, newest(all, a.history_depth as nat)) == a.matches(name, all)
        }),
{
    let name = text::texts(a.watches.at(target)@)[i];
    lemma_repeats(a, target);
    let q = a.alerts.place(name);
    assert(a.alerts.entries@[q].0@ == name);
    if all.len() > a.history_depth {
        what_is_forgotten_makes_no_difference(a, q, all);
    }
}

/// Where an alert stands after some rounds: it is raised where its pattern
/// matches, and it last notified when it last told something.
proof fn lemma_where_it_stands(
    alerters: Seq<Alerter>,
    rounds: Seq<(RoundResult, Duration)>,
    outs: Seq<Seq<Notification>>,
    k: int,
    target: Seq<char>,
    i: int,
)
    requires
        alerters[0].wf(),
        alerters[0].fresh(),
        alerters[0].history_depth == depth_needed(alerters[0].alerts.entries@),
        streamed(alerters, rounds, outs),
        0 <= k <= rounds.len(),
        alerters[0].watches.has(target),
        0 <= i < alerters[0].watches.at(target)@.len(),
    ensures
        ({
            let a = alerters[0];
            let name = text::texts(a.watches.at(target)@)[i];
            &&& alerters[k].samples(target) == newest(
                seen(rounds, k, target),
                a.history_depth as nat,
            )
            &&& alerters[k].standing(target, name) == (AlertState {
                raised: a.matched_at(rounds, k, target, name),
                last_notify: last_told(rounds, outs, k, target, name),
            })
        }),
    decreases k,
{
    let a = alerters[0];
    let names = text::texts(a.watches.at(target)@);
    let name = names[i];
    if k > 0 {
        lemma_where_it_stands(alerters, rounds, outs, k - 1, target, i);
        lemma_unchanged(alerters, rounds, outs, k - 1);
        let b = alerters[k - 1];
        let (r, now) = rounds[k - 1];
        let out = outs[k - 1];
        assert(b.processed(r, now, alerters[k], out));
        if r.target@ == target {
            let depth = a.history_depth as nat;
            let samples = remembered(b.samples(target), sample_of(r), depth);
            let f = |alert: Seq<char>| b.event_for(target, alert, samples, now);
            lemma_repeats(b, target);
            lemma_run_once(b, target, names, samples, now);
            an_alert_tells_one_thing_a_round(names, f);
            lemma_remembered(seen(rounds, k - 1, target), sample_of(r), depth);
            lemma_matches_all(a, target, i, seen(rounds, k, target));
            let events = each_once(names, f);
            assert(names.contains(name));
            assert(b.run(target, names, samples, now).states[name] == b.state_for(
                target,
                name,
                samples,
                now,
            ));
            assert(tells_of(out, name) <==> f(name) is Some) by {
                if f(name) is Some {
                    let e = f(names[i])->0;
                    assert(events.contains((name, e)));
                    let j = choose|j: int| 0 <= j < events.len() && events[j] == (name, e);
                    assert(out[j].alert@ == name);
                }
                if tells_of(out, name) {
                    let j = choose|j: int| 0 <= j < out.len() && (#[trigger] out[j]).alert@ == name;
                    assert(events[j].0 == name);
                }
            }
        }
    }
}

/// What is remembered of a round is its loss and, where there was a reply, its
/// median in milliseconds.
pub proof fn a_sample_is_the_loss_and_the_median(r: RoundResult)
    ensures
        sample_of(r).loss == r.loss(),
        sample_of(r).median_ms is None <==> r.rtts@.len() == 0,
        r.middle() matches Some(m) ==> sample_of(r).median_ms == Some(
            double::product(m.secs(), double::of_int(1000)),
        ),
{
    crate::probe::the_median_is_in_the_middle(r);
}

/// An alert on loss looks at the losses, one on round trips at the medians,
/// which a round without a reply leaves unknown.
pub proof fn alerts_look_at_what_they_are_for(samples: Seq<Sample>, i: int)
    requires
        0 <= i < samples.len(),
    ensures
        series_of(AlertKind::Loss, samples).len() == samples.len(),
        series_of(AlertKind::Rtt, samples).len() == samples.len(),
        series_of(AlertKind::Loss, samples)[i] == Some(samples[i].loss),
        series_of(AlertKind::Rtt, samples)[i] == samples[i].median_ms,
{
}

/// What is remembered are the newest samples, the new one last, as many as are
/// to be kept.
pub proof fn the_newest_samples_are_remembered(history: Seq<Sample>, s: Sample, keep: nat)
    ensures
        ({
            let kept = remembered(history, s, keep);
            let all = history.push(s);
            &&& kept.len() == (if all.len() < keep {
                all.len()
            } else {
                keep
            })
            &&& forall|i: int|
                0 <= i < kept.len() ==> (#[trigger] kept[i]) == all[all.len() - kept.len() + i]
        }),
{
}

/// A repeat is due when as much time as asked for has passed since the last
/// notification, and where there was none.
pub proof fn repeats_are_due_after_their_time(last: Duration, every: Duration, now: Duration)
    requires
        last.nanos <= now.nanos,
    ensures
        due(Some(last), every, now) <==> now.nanos >= last.nanos + every.nanos,
        due(None, every, now),
{
}

/// A target is watched by the alerts that its leaf lists.
pub proof fn a_target_is_watched_by_the_alerts_it_lists(leaves: Seq<Leaf>, i: int)
    requires
        0 <= i < leaves.len(),
        forall|a: int, b: int|
            0 <= a < b < leaves.len() ==> (#[trigger] leaves[a]).path != (
            #[trigger] leaves[b]).path,
    ensures
        watchers(leaves, leaves[i].path) == leaves[i].alerts,
    decreases leaves.len(),
{
    let n = leaves.len() - 1;
    let rest = leaves.drop_last();
    let path = leaves[i].path;
    assert(leaves.last() == leaves[n]);
    assert forall|a: int, b: int| 0 <= a < b < rest.len() implies (#[trigger] rest[a]).path != (
    #[trigger] rest[b]).path by {
        assert(leaves[a].path != leaves[b].path);
    }
    if i < n {
        a_target_is_watched_by_the_alerts_it_lists(rest, i);
        assert(leaves[i].path != leaves[n].path);
        assert(rest[i] == leaves[i]);
    } else {
        assert forall|a: int| 0 <= a < rest.len() implies (#[trigger] rest[a]).path != path by {
            assert(leaves[a].path != leaves[n].path);
        }
        lemma_unwatched(rest, path);
        assert(Seq::empty() + leaves[n].alerts =~= leaves[n].alerts);
    }
}

proof fn lemma_unwatched(leaves: Seq<Leaf>, target: Seq<char>)
    requires
        forall|a: int| 0 <= a < leaves.len() ==> (#[trigger] leaves[a]).path != target,
    ensures
        watchers(leaves, target) == Seq::<Seq<char>>::empty(),
    decreases leaves.len(),
{
    if leaves.len() > 0 {
        let rest = leaves.drop_last();
        assert(leaves[leaves.len() - 1] == leaves.last());
        assert forall|a: int| 0 <= a < rest.len() implies (#[trigger] rest[a]).path != target by {
            assert(rest[a] == leaves[a]);
        }
        lemma_unwatched(rest, target);
    }
}

/// The parts of a detail: what is measured, then each sample from the oldest to
/// the newest. A loss is shown in whole percents, a median with one place, and
/// what is unknown as `U`.
pub proof fn a_detail_shows_every_sample(kind: AlertKind, samples: Seq<Sample>, i: int)
    requires
        0 <= i < samples.len(),
    ensures
        shown(AlertKind::Loss, samples[i]) == decimal::fixed(samples[i].loss, 0),
        samples[i].median_ms is None ==> shown(AlertKind::Rtt, samples[i]) == seq!['U'],
        samples[i].median_ms matches Some(m) ==> shown(AlertKind::Rtt, samples[i])
            == decimal::fixed(m, 1),
        label(AlertKind::Loss) != label(AlertKind::Rtt),
{
    reveal_strlit("U");
    reveal_strlit("loss%");
    reveal_strlit("median ms");
    assert("U"@ =~= seq!['U']);
    assert("loss%"@.len() == 5 && "median ms"@.len() == 9);
}

/// An alert's definition is accepted where its pattern can be read, somebody is
/// told, every destination can be read, and so can the time after which it is
/// repeated, if there is one. Otherwise it is refused for one of these, a
/// destination for the first that cannot be read.
pub proof fn definitions_are_refused_for_what_is_wrong(cfg: AlertConfig)
    ensures
        ({
            let routes_read = |n: int|
                forall|i: int|
                    0 <= i < n ==> notify::route_of((#[trigger] cfg.to@[i])@) is Some;
            let repeats = match cfg.repeat_every {
                None => true,
                Some(s) => util::range_of(s@) is Ok,
            };
            match alert_fault(cfg) {
                None => {
                    &&& pattern::pattern_of(cfg.pattern@) is Ok
                    &&& cfg.to@.len() > 0
                    &&& routes_read(cfg.to@.len() as int)
                    &&& repeats
                },
                Some(AlertFault::Pattern(e)) => pattern::pattern_of(cfg.pattern@) == Err::<
                    Seq<pattern::Elem>,
                    PatternError,
                >(e),
                Some(AlertFault::NoRecipients) => cfg.to@.len() == 0,
                Some(AlertFault::Recipient(k)) => cfg.to@.len() <= usize::MAX ==> {
                    &&& k < cfg.to@.len()
                    &&& notify::route_of(cfg.to@[k as int]@) is None
                    &&& routes_read(k as int)
                },
                Some(AlertFault::Repeat(e)) => cfg.repeat_every matches Some(s)
                    && util::range_of(s@) == Err::<nat, RangeError>(e),
            }
        }),
{
    let to = text::texts(cfg.to@);
    lemma_bad_route_found(to);
    let k = first_bad_route(to);
    assert forall|i: int| 0 <= i < k implies notify::route_of((#[trigger] cfg.to@[i])@) is Some by {
        assert(to[i] == cfg.to@[i]@);
    }
    if k < to.len() {
        assert(to[k] == cfg.to@[k]@);
    }
}

proof fn lemma_bad_route_found(to: Seq<Seq<char>>)
    ensures
        0 <= first_bad_route(to) <= to.len(),
        forall|j: int|
            0 <= j < first_bad_route(to) ==> notify::route_of(#[trigger] to[j]) is Some,
        first_bad_route(to) < to.len() ==> notify::route_of(to[first_bad_route(to)]) is None,
    decreases to.len(),
{
    if to.len() > 0 && notify::route_of(to[0]) is Some {
        let rest = to.drop_first();
        lemma_bad_route_found(rest);
        assert forall|j: int| 0 <= j < first_bad_route(to) implies notify::route_of(
            #[trigger] to[j],
        ) is Some by {
            if j > 0 {
                assert(to[j] == rest[j - 1]);
            }
        }
    }
}

/// An alert that was made from a definition looks at what it says, tells those
/// that it lists in their order, and repeats after that many seconds.
pub proof fn an_alert_is_as_it_is_defined(a: Alert, cfg: AlertConfig)
    requires
        a.of(cfg),
    ensures
        a.kind == cfg.kind,
        a.notify_clear == cfg.notify_clear,
        pattern::pattern_of(cfg.pattern@) matches Ok(p) && p == a.pattern.elems@,
        a.to@.len() == cfg.to@.len(),
        forall|i: int|
            0 <= i < cfg.to@.len() ==> notify::route_of((#[trigger] cfg.to@[i])@) == Some(
                a.to@[i]@,
            ),
        match (cfg.repeat_every, a.repeat) {
            (None, None) => true,
            (Some(s), Some(d)) => util::range_of(s@) matches Ok(n) && d.nanos == n * 1_000_000_000,
            _ => false,
        },
{
    match cfg.repeat_every {
        Some(s) => {
            util::lemma_range_bounded(s@);
        },
        None => {},
    }
    assert forall|i: int| 0 <= i < cfg.to@.len() implies notify::route_of(
        (#[trigger] cfg.to@[i])@,
    ) == Some(a.to@[i]@) by {
        assert(Some(a.to@[i]@) == notify::route_of(cfg.to@[i]@));
    }
}

/// Every alert that a leaf lists is defined.
pub open spec fn all_defined(cfg: Config, l: Leaf) -> bool {
    forall|i: int| 0 <= i < l.alerts.len() ==> cfg.alerts.has(#[trigger] l.alerts[i])
}

/// The alerts of a configuration are accepted where every definition is, where
/// the tree is and lists only alerts that are defined, and where mail can be
/// sent if any is to be; and nowhere else.
pub proof fn alerts_are_accepted_by_all_their_parts(cfg: Config)
    ensures
        alerter_refusal(cfg) is None <==> {
            &&& forall|i: int|
                0 <= i < cfg.alerts.entries@.len() ==> alert_fault(
                    (#[trigger] cfg.alerts.entries@[i]).1,
                ) is None
            &&& cfg.flattened() matches Ok(leaves)
            &&& forall|i: int| 0 <= i < leaves.len() ==> all_defined(cfg, #[trigger] leaves[i])
            &&& any_watched(leaves) && any_mail(cfg.alerts.entries@) ==> cfg.smtp is Some
        },
{
    lemma_bad_alert_found(cfg.alerts.entries@);
    match cfg.flattened() {
        Ok(leaves) => {
            lemma_undefined_found(cfg, leaves);
        },
        Err(_) => {},
    }
}

proof fn lemma_bad_alert_found(defs: Seq<(String, AlertConfig)>)
    ensures
        bad_alert(defs) is None <==> forall|i: int|
            0 <= i < defs.len() ==> alert_fault((#[trigger] defs[i]).1) is None,
    decreases defs.len(),
{
    if defs.len() > 0 {
        let n = defs.len() - 1;
        let rest = defs.drop_last();
        lemma_bad_alert_found(rest);
        assert(forall|i: int| 0 <= i < n ==> #[trigger] defs[i] == rest[i]);
        assert(forall|i: int| 0 <= i < n ==> #[trigger] rest[i] == defs[i]);
        assert(defs[n] == defs.last());
    }
}

proof fn lemma_defined_or_named(cfg: Config, target: Seq<char>, names: Seq<Seq<char>>)
    ensures
        undefined(cfg, target, names) is None <==> forall|i: int|
            0 <= i < names.len() ==> cfg.alerts.has(#[trigger] names[i]),
    decreases names.len(),
{
    if names.len() > 0 {
        let n = names.len() - 1;
        let rest = names.drop_last();
        lemma_defined_or_named(cfg, target, rest);
        assert(forall|i: int| 0 <= i < n ==> #[trigger] names[i] == rest[i]);
        assert(forall|i: int| 0 <= i < n ==> #[trigger] rest[i] == names[i]);
        assert(names[n] == names.last());
    }
}

proof fn lemma_undefined_found(cfg: Config, leaves: Seq<Leaf>)
    ensures
        any_undefined(cfg, leaves) is None <==> forall|i: int|
            0 <= i < leaves.len() ==> all_defined(cfg, #[trigger] leaves[i]),
    decreases leaves.len(),
{
    if leaves.len() > 0 {
        let n = leaves.len() - 1;
        let rest = leaves.drop_last();
        lemma_undefined_found(cfg, rest);
        lemma_defined_or_named(cfg, leaves.last().path, leaves.last().alerts);
        assert(forall|i: int| 0 <= i < n ==> #[trigger] leaves[i] == rest[i]);
        assert(forall|i: int| 0 <= i < n ==> #[trigger] rest[i] == leaves[i]);
        assert(leaves[n] == leaves.last());
        assert(all_defined(cfg, leaves[n]) <==> undefined(
            cfg,
            leaves.last().path,
            leaves.last().alerts,
        ) is None);
    }
}

/// As many rounds are remembered as the pattern that looks back the farthest
/// inspects, and eight where none looks back as far.
pub proof fn enough_rounds_are_remembered(alerts: Seq<(String, Alert)>)
    ensures
        depth_needed(alerts) >= 8,
        forall|i: int|
            0 <= i < alerts.len() ==> depth_needed(alerts) >= pattern::depth_of(
                (#[trigger] alerts[i]).1.pattern.elems@,
            ),
        depth_needed(alerts) == 8 || exists|i: int|
            0 <= i < alerts.len() && depth_needed(alerts) == pattern::depth_of(
                (#[trigger] alerts[i]).1.pattern.elems@,
            ),
    decreases alerts.len(),
{
    if alerts.len() > 0 {
        let n = alerts.len() - 1;
        let rest = alerts.drop_last();
        enough_rounds_are_remembered(rest);
        assert(forall|i: int| 0 <= i < n ==> #[trigger] alerts[i] == rest[i]);
        assert(forall|i: int| 0 <= i < n ==> #[trigger] rest[i] == alerts[i]);
        assert(alerts[n] == alerts.last());
    }
}

/// A notification tells of the round that gave it: of its target and host, of
/// an alert that watches the target, with that alert's comment, and with what
/// was remembered up to this round.
pub proof fn notifications_tell_of_their_round(
    al: Alerter,
    r: RoundResult,
    now: Duration,
    after: Alerter,
    out: Seq<Notification>,
    i: int,
)
    requires
        al.processed(r, now, after, out),
        0 <= i < out.len(),
    ensures
        al.watches.has(r.target@),
        text::texts(al.watches.at(r.target@)@).contains(out[i].alert@),
        out[i].target@ == r.target@,
        out[i].host@ == r.host@,
        out[i].comment@ == al.alerts.at(out[i].alert@).comment@,
        out[i].detail@ == detail_of(al.alerts.at(out[i].alert@).kind, after.samples(r.target@)),
{
    let names = text::texts(al.watches.at(r.target@)@);
    let samples = remembered(al.samples(r.target@), sample_of(r), al.history_depth as nat);
    lemma_events_of_the_named(al, r.target@, names, samples, now);
    let done = al.run(r.target@, names, samples, now);
    assert(al.announces(out[i], done.events[i], r, samples));
    assert(names.contains(done.events[i].0));
}

proof fn lemma_events_of_the_named(
    al: Alerter,
    target: Seq<char>,
    names: Seq<Seq<char>>,
    samples: Seq<Sample>,
    now: Duration,
)
    ensures
        forall|i: int|
            0 <= i < al.run(target, names, samples, now).events.len() ==> names.contains(
                (#[trigger] al.run(target, names, samples, now).events[i]).0,
            ),
    decreases names.len(),
{
    if names.len() > 0 {
        let rest = names.drop_last();
        lemma_events_of_the_named(al, target, rest, samples, now);
        let before = al.run(target, rest, samples, now).events;
        let all = al.run(target, names, samples, now).events;
        assert forall|i: int| 0 <= i < all.len() implies names.contains((#[trigger] all[i]).0) by {
            if i < before.len() {
                assert(all[i] == before[i]);
                let k = rest.index_of(before[i].0);
                assert(rest.contains(before[i].0));
                assert(names[k] == all[i].0);
            } else {
                assert(names[names.len() - 1] == all[i].0);
            }
        }
    }
}

} // verus!
