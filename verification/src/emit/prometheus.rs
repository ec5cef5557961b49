//! Prometheus exposition: a registry of each target's latest round plus
//! cumulative counters, rendered as text 0.0.4 at GET /metrics.
use crate::decimal;
use crate::decimal::display_text;
use crate::double;
use crate::double::Double;
use crate::names::NameMap;
use crate::probe;
use crate::probe::RoundResult;
use crate::text;
use crate::text::{chars_of, decimal_i64, decimal_u64};
use crate::time::Duration;
use vstd::prelude::*;
use vstd::string::*;

verus! {

/// A target's latest round, and its counters.
#[derive(Debug)]
pub struct Entry {
    pub host: String,
    pub ts: i64,
    pub loss_ratio: Double,
    pub median: Option<Double>,
    pub min: Option<Double>,
    pub max: Option<Double>,
    pub sent_total: u64,
    pub recv_total: u64,
}

#[derive(Debug)]
pub struct PromState {
    pub targets: NameMap<Entry>,
}

/// A span in seconds.
pub open spec fn seconds(d: Option<Duration>) -> Option<Double> {
    match d {
        Some(d) => Some(d.secs()),
        None => None,
    }
}

fn to_seconds(d: Option<Duration>) -> (r: Option<Double>)
    ensures
        r == seconds(d),
{
    match d {
        Some(d) => Some(d.as_secs_f64()),
        None => None,
    }
}

impl Entry {
    /// The entry after a round.
    pub open spec fn shows(self, r: RoundResult, before: Option<Entry>) -> bool {
        &&& self.host@ == r.host@
        &&& self.ts == (match r.start_secs() {
            Some(s) => s as int,
            None => 0,
        })
        &&& self.loss_ratio == double::quotient(r.loss(), double::of_int(100))
        &&& self.median == seconds(r.middle())
        &&& self.min == seconds(probe::least(r.rtts@))
        &&& self.max == seconds(probe::greatest(r.rtts@))
        &&& self.sent_total == r.sent + (match before {
            Some(e) => e.sent_total as int,
            None => 0,
        })
        &&& self.recv_total == r.rtts@.len() + (match before {
            Some(e) => e.recv_total as int,
            None => 0,
        })
    }
}

impl Default for PromState {
    fn default() -> (s: PromState)
        ensures
            s.wf(),
            s.targets.entries@.len() == 0,
    {
        PromState { targets: NameMap::new() }
    }
}

impl PromState {
    pub open spec fn wf(self) -> bool {
        self.targets.wf()
    }

    /// The counters can take in the round.
    pub open spec fn has_room(self, r: RoundResult) -> bool {
        self.targets.lookup(r.target@) matches Some(e) ==> {
            &&& e.sent_total + r.sent <= u64::MAX
            &&& e.recv_total + r.rtts@.len() <= u64::MAX
        }
    }

    /// The state after a round.
    pub open spec fn observed(self, r: RoundResult, after: PromState) -> bool {
        &&& after.targets.lookup(r.target@) matches Some(e)
        &&& e.shows(r, self.targets.lookup(r.target@))
        &&& forall|t: Seq<char>|
            t != r.target@ ==> #[trigger] after.targets.lookup(t) == self.targets.lookup(t)
    }

    /// Whether the counters can take in a round.
    pub fn can_observe(&self, r: &RoundResult) -> (ok: bool)
        requires
            self.wf(),
            r.wf(),
        ensures
            ok == self.has_room(*r),
    {
        match self.targets.get(r.target.as_str()) {
            Some(e) => e.sent_total <= u64::MAX - r.sent as u64 && e.recv_total <= u64::MAX
                - r.received() as u64,
            None => true,
        }
    }

    pub fn observe(&mut self, r: &RoundResult)
        requires
            old(self).wf(),
            r.wf(),
            old(self).has_room(*r),
        ensures
            final(self).wf(),
            old(self).observed(*r, *final(self)),
    {
        let (sent, recv): (u64, u64) = match self.targets.get(r.target.as_str()) {
            Some(e) => (e.sent_total, e.recv_total),
            None => (0, 0),
        };
        let entry = Entry {
            host: r.host.clone(),
            ts: r.started_secs(),
            loss_ratio: r.loss_pct().over(Double::from_u64(100)),
            median: to_seconds(r.median()),
            min: to_seconds(r.min()),
            max: to_seconds(r.max()),
            sent_total: sent + r.sent as u64,
            recv_total: recv + r.received() as u64,
        };
        self.targets.insert(r.target.clone(), entry);
    }
}

/// A label's value: backslashes, quotes and line feeds are escaped.
pub open spec fn escaped(s: Seq<char>) -> Seq<char>
    decreases s.len(),
{
    if s.len() == 0 {
        Seq::empty()
    } else {
        let c = s.last();
        let before = escaped(s.drop_last());
        if c == '\\' || c == '"' {
            before.push('\\').push(c)
        } else if c == '\n' {
            before.push('\\').push('n')
        } else {
            before.push(c)
        }
    }
}

fn esc(s: &str) -> (r: String)
    ensures
        r@ == escaped(s@),
{
    let chars = chars_of(s);
    let ghost all = s@;
    let mut out = String::new();
    let mut i: usize = 0;
    assert(all.take(0) =~= Seq::empty());
    while i < chars.len()
        invariant
            chars@ == all,
            i <= all.len(),
            out@ == escaped(all.take(i as int)),
        decreases all.len() - i,
    {
        assert(all.take(i + 1).drop_last() == all.take(i as int));
        assert(all.take(i + 1).last() == all[i as int]);
        let c = chars[i];
        if c == '\\' || c == '"' {
            out.push('\\');
            out.push(c);
        } else if c == '\n' {
            out.push('\\');
            out.push('n');
        } else {
            out.push(c);
        }
        i = i + 1;
    }
    assert(all.take(i as int) == all);
    out
}

/// What is exposed of every target.
#[derive(Clone, Copy, Debug, PartialEq, Eq, Structural)]
pub enum Metric {
    LossRatio,
    Median,
    Min,
    Max,
    Sent,
    Received,
    LastRound,
}

impl Metric {
    pub open spec fn title(self) -> Seq<char> {
        match self {
            Metric::LossRatio => "dabping_loss_ratio"@,
            Metric::Median => "dabping_median_seconds"@,
            Metric::Min => "dabping_min_seconds"@,
            Metric::Max => "dabping_max_seconds"@,
            Metric::Sent => "dabping_pings_sent_total"@,
            Metric::Received => "dabping_pings_received_total"@,
            Metric::LastRound => "dabping_last_round_timestamp_seconds"@,
        }
    }

    pub open spec fn meaning(self) -> Seq<char> {
        match self {
            Metric::LossRatio => "Packet loss of the last round (0-1)."@,
            Metric::Median => "Median RTT of the last round."@,
            Metric::Min => "Fastest RTT of the last round."@,
            Metric::Max => "Slowest RTT of the last round."@,
            Metric::Sent => "Pings sent."@,
            Metric::Received => "Replies received."@,
            Metric::LastRound => "When the last round started."@,
        }
    }

    pub open spec fn sort(self) -> Seq<char> {
        match self {
            Metric::Sent => "counter"@,
            Metric::Received => "counter"@,
            _ => "gauge"@,
        }
    }

    /// The value of a target, where it has one.
    pub open spec fn value(self, e: Entry) -> Option<Seq<char>> {
        match self {
            Metric::LossRatio => Some(decimal::display(e.loss_ratio)),
            Metric::Median => shown(e.median),
            Metric::Min => shown(e.min),
            Metric::Max => shown(e.max),
            Metric::Sent => Some(text::decimal(e.sent_total as nat)),
            Metric::Received => Some(text::decimal(e.recv_total as nat)),
            Metric::LastRound => Some(text::signed_decimal(e.ts as int)),
        }
    }

    /// "# HELP name help\n# TYPE name sort\n"
    pub open spec fn head(self) -> Seq<char> {
        "# HELP "@ + self.title() + " "@ + self.meaning() + "\n# TYPE "@ + self.title() + " "@
            + self.sort() + "\n"@
    }

    /// A target's line, nothing where it has no value.
    pub open spec fn line(self, target: Seq<char>, e: Entry) -> Seq<char> {
        match self.value(e) {
            Some(v) => self.title() + "{target=\""@ + escaped(target) + "\",host=\""@ + escaped(
                e.host@,
            ) + "\"} "@ + v + "\n"@,
            None => Seq::empty(),
        }
    }

    /// The lines of all targets, in the order of their paths.
    pub open spec fn lines(self, entries: Seq<(String, Entry)>) -> Seq<char>
        decreases entries.len(),
    {
        if entries.len() == 0 {
            Seq::empty()
        } else {
            self.lines(entries.drop_last()) + self.line(entries.last().0@, entries.last().1)
        }
    }

    fn name(self) -> (r: &'static str)
        ensures
            r@ == self.title(),
    {
        match self {
            Metric::LossRatio => "dabping_loss_ratio",
            Metric::Median => "dabping_median_seconds",
            Metric::Min => "dabping_min_seconds",
            Metric::Max => "dabping_max_seconds",
            Metric::Sent => "dabping_pings_sent_total",
            Metric::Received => "dabping_pings_received_total",
            Metric::LastRound => "dabping_last_round_timestamp_seconds",
        }
    }

    fn help(self) -> (r: &'static str)
        ensures
            r@ == self.meaning(),
    {
        match self {
            Metric::LossRatio => "Packet loss of the last round (0-1).",
            Metric::Median => "Median RTT of the last round.",
            Metric::Min => "Fastest RTT of the last round.",
            Metric::Max => "Slowest RTT of the last round.",
            Metric::Sent => "Pings sent.",
            Metric::Received => "Replies received.",
            Metric::LastRound => "When the last round started.",
        }
    }

    fn kind(self) -> (r: &'static str)
        ensures
            r@ == self.sort(),
    {
        match self {
            Metric::Sent => "counter",
            Metric::Received => "counter",
            _ => "gauge",
        }
    }

    fn value_text(self, e: &Entry) -> (r: Option<String>)
        ensures
            match r {
                Some(s) => self.value(*e) == Some(s@),
                None => self.value(*e) is None,
            },
    {
        match self {
            Metric::LossRatio => Some(display_text(e.loss_ratio)),
            Metric::Median => shown_text(e.median),
            Metric::Min => shown_text(e.min),
            Metric::Max => shown_text(e.max),
            Metric::Sent => Some(decimal_u64(e.sent_total)),
            Metric::Received => Some(decimal_u64(e.recv_total)),
            Metric::LastRound => Some(decimal_i64(e.ts)),
        }
    }

    fn push_head(self, out: &mut String)
        ensures
            final(out)@ == old(out)@ + self.head(),
    {
        let ghost start = out@;
        out.append("# HELP ");
        out.append(self.name());
        out.append(" ");
        out.append(self.help());
        out.append("\n# TYPE ");
        out.append(self.name());
        out.append(" ");
        out.append(self.kind());
        out.append("\n");
        assert(out@ =~= start + self.head());
    }

    fn push_line(self, out: &mut String, target: &str, e: &Entry)
        ensures
            final(out)@ == old(out)@ + self.line(target@, *e),
    {
        let ghost start = out@;
        match self.value_text(e) {
            Some(v) => {
                out.append(self.name());
                out.append("{target=\"");
                out.append(esc(target).as_str());
                out.append("\",host=\"");
                out.append(esc(e.host.as_str()).as_str());
                out.append("\"} ");
                out.append(v.as_str());
                out.append("\n");
            },
            None => {},
        }
        assert(out@ =~= start + self.line(target@, *e));
    }
}

pub open spec fn shown(v: Option<Double>) -> Option<Seq<char>> {
    match v {
        Some(v) => Some(decimal::display(v)),
        None => None,
    }
}

fn shown_text(v: Option<Double>) -> (r: Option<String>)
    ensures
        match r {
            Some(s) => shown(v) == Some(s@),
            None => shown(v) is None,
        },
{
    match v {
        Some(v) => Some(display_text(v)),
        None => None,
    }
}

impl PromState {
    pub open spec fn section(self, m: Metric) -> Seq<char> {
        m.head() + m.lines(self.targets.entries@)
    }

    /// The whole exposition.
    pub open spec fn exposition(self) -> Seq<char> {
        self.section(Metric::LossRatio) + self.section(Metric::Median) + self.section(Metric::Min)
            + self.section(Metric::Max) + self.section(Metric::Sent) + self.section(
            Metric::Received,
        ) + self.section(Metric::LastRound)
    }

    fn push_section(&self, out: &mut String, m: Metric)
        ensures
            final(out)@ == old(out)@ + self.section(m),
    {
        let ghost start = out@;
        let ghost entries = self.targets.entries@;
        m.push_head(out);
        let ghost head = out@;
        let mut i: usize = 0;
        assert(entries.take(0) =~= Seq::empty());
        assert(head =~= head + Seq::<char>::empty());
        while i < self.targets.entries.len()
            invariant
                entries == self.targets.entries@,
                i <= entries.len(),
                out@ == head + m.lines(entries.take(i as int)),
            decreases entries.len() - i,
        {
            assert(entries.take(i + 1).drop_last() == entries.take(i as int));
            assert(entries.take(i + 1).last() == entries[i as int]);
            let (target, e) = &self.targets.entries[i];
            m.push_line(out, target.as_str(), e);
            i = i + 1;
            assert(out@ =~= head + m.lines(entries.take(i as int)));
        }
        assert(entries.take(i as int) == entries);
        assert(out@ =~= start + self.section(m));
    }

    pub fn render(&self) -> (r: String)
        ensures
            r@ == self.exposition(),
    {
        let mut out = String::new();
        self.push_section(&mut out, Metric::LossRatio);
        self.push_section(&mut out, Metric::Median);
        self.push_section(&mut out, Metric::Min);
        self.push_section(&mut out, Metric::Max);
        self.push_section(&mut out, Metric::Sent);
        self.push_section(&mut out, Metric::Received);
        self.push_section(&mut out, Metric::LastRound);
        assert(out@ =~= self.exposition());
        out
    }
}

/// How many pings of a target were sent, and answered, in some rounds.
pub open spec fn tallied(rounds: Seq<RoundResult>, target: Seq<char>) -> (int, int)
    decreases rounds.len(),
{
    if rounds.len() == 0 {
        (0, 0)
    } else {
        let (sent, received) = tallied(rounds.drop_last(), target);
        let r = rounds.last();
        if r.target@ == target {
            (sent + r.sent, received + r.rtts@.len())
        } else {
            (sent, received)
        }
    }
}

/// The `i`-th round led to the next state.
pub open spec fn took(states: Seq<PromState>, rounds: Seq<RoundResult>, i: int) -> bool {
    states[i].observed(rounds[i], states[i + 1])
}

/// The counters are cumulative: from an empty registry on, a target's are the
/// sums over its rounds, and a target without rounds has none.
pub proof fn counters_add_up(
    states: Seq<PromState>,
    rounds: Seq<RoundResult>,
    target: Seq<char>,
)
    requires
        states.len() == rounds.len() + 1,
        states[0].targets.lookup(target) is None,
        forall|i: int|
            0 <= i < rounds.len() ==> #[trigger] took(states, rounds, i),
    ensures
        match states.last().targets.lookup(target) {
            Some(e) => (e.sent_total as int, e.recv_total as int) == tallied(rounds, target),
            None => tallied(rounds, target) == (0int, 0int) && forall|i: int|
                0 <= i < rounds.len() ==> (#[trigger] rounds[i]).target@ != target,
        },
    decreases rounds.len(),
{
    if rounds.len() > 0 {
        let n = rounds.len() - 1;
        let fewer = states.drop_last();
        let rest = rounds.drop_last();
        assert forall|i: int| 0 <= i < rest.len() implies #[trigger] took(fewer, rest, i) by {
            assert(took(states, rounds, i));
        }
        counters_add_up(fewer, rest, target);
        assert(took(states, rounds, n as int));
        assert(fewer.last() == states[n]);
        assert(states.last() == states[n + 1]);
        assert forall|i: int|
            0 <= i < rounds.len() && states.last().targets.lookup(target) is None implies (
        #[trigger] rounds[i]).target@ != target by {
            if i < n {
                assert(rest[i] == rounds[i]);
            }
        }
    }
}

/// A label is escaped character by character: quotes and backslashes get a
/// backslash before them, a line feed is written as `\n`, and nothing else is
/// changed.
pub proof fn labels_are_escaped_character_by_character(a: Seq<char>, b: Seq<char>, c: char)
    ensures
        escaped(a + b) == escaped(a) + escaped(b),
        escaped(seq![c]) == (if c == '\n' {
            seq!['\\', 'n']
        } else if seq!['"', '\\'].contains(c) {
            seq!['\\', c]
        } else {
            seq![c]
        }),
{
    lemma_escaped_of_both(a, b);
    let special = seq!['"', '\\'];
    assert(special[0] == '"' && special[1] == '\\');
    let s = seq![c];
    assert(s.last() == c);
    assert(s.drop_last() =~= Seq::empty());
    reveal_with_fuel(escaped, 2);
    assert(escaped(s.drop_last()) =~= Seq::empty());
}

proof fn lemma_escaped_of_both(a: Seq<char>, b: Seq<char>)
    ensures
        escaped(a + b) == escaped(a) + escaped(b),
    decreases b.len(),
{
    if b.len() == 0 {
        assert(a + b =~= a);
        assert(escaped(a) + escaped(b) =~= escaped(a));
    } else {
        lemma_escaped_of_both(a, b.drop_last());
        assert((a + b).drop_last() =~= a + b.drop_last());
        assert((a + b).last() == b.last());
        assert(escaped(a + b) =~= escaped(a) + escaped(b));
    }
}

/// An entry shows the median, the fastest and the slowest reply of its round in
/// seconds, and the loss as a share: the number nearest to a hundredth of the
/// percentage.
pub proof fn an_entry_shows_its_round(
    e: Entry,
    r: RoundResult,
    before: Option<Entry>,
    lo: Duration,
    mid: Duration,
    hi: Duration,
)
    requires
        e.shows(r, before),
        r.rtts@.contains(lo),
        r.rtts@.contains(hi),
        forall|i: int|
            0 <= i < r.rtts@.len() ==> lo.nanos <= (#[trigger] r.rtts@[i]).nanos <= hi.nanos,
        r.middle() == Some(mid),
    ensures
        e.min == Some(lo.secs()),
        e.median == Some(mid.secs()),
        e.max == Some(hi.secs()),
        r.loss().finite() && !r.loss().negative() ==> !e.loss_ratio.nan()
            && !e.loss_ratio.negative() && double::nearest(
            r.loss().abs_value(),
            100,
            e.loss_ratio.abs_bits(),
        ),
{
    probe::the_fastest_and_the_slowest(r.rtts@, lo, hi);
    if r.loss().finite() && !r.loss().negative() {
        double::lemma_over_int(r.loss(), 100);
    }
}

/// An entry of a round without replies has no reply times, and is of the time
/// and host of its round.
pub proof fn a_silent_entry_shows_no_times(e: Entry, r: RoundResult, before: Option<Entry>)
    requires
        e.shows(r, before),
    ensures
        r.rtts@.len() == 0 ==> e.min is None && e.median is None && e.max is None,
        e.host@ == r.host@,
        r.started matches Some(d) ==> e.ts == d.nanos / crate::time::NANOS_PER_SEC,
{
    if r.rtts@.len() == 0 {
        probe::lemma_sorted_len(r.rtts@);
    }
}

} // verus!
