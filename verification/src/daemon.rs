//! The daemon's parts, and what the command line prints.
use crate::alert;
use crate::alert::{Alerter, AlerterError};
use crate::config;
use crate::config::{Config, EmitterConfig, FlatTarget, Leaf, TargetError};
use crate::decimal;
use crate::decimal::fixed_text;
use crate::double;
use crate::double::Double;
use crate::emit;
use crate::emit::{fmt_ms, fmt_opt, fmt_pct, fmt_rtt};
use crate::names::NameMap;
use crate::probe;
use crate::probe::RoundResult;
use crate::status;
use crate::status::{Event, StatusEngine, StatusError};
use crate::store;
use crate::store::{Cf, Fetched, Point};
use crate::text;
use crate::text::{alone, decimal_u64, join};
use crate::time::Duration;
use crate::web;
use crate::web::{AgentEntry, TreeNode, build_agents, build_tree};
use vstd::prelude::*;
use vstd::string::*;

verus! {

/// Where completed rounds go.
#[derive(Clone, Copy, Debug, PartialEq, Eq, Structural)]
pub enum Sink {
    Log,
    Store,
    /// The live feed of the web UI.
    Live,
    Alerts,
    Status,
    /// The emitter at this place of the table.
    Prometheus(usize),
    Graphite(usize),
    Influx(usize),
}

/// The sink of an emitter.
pub open spec fn sink_of(e: EmitterConfig, place: usize) -> Sink {
    match e {
        EmitterConfig::Prometheus => Sink::Prometheus(place),
        EmitterConfig::Graphite(_) => Sink::Graphite(place),
        EmitterConfig::Influx(_) => Sink::Influx(place),
    }
}

/// The sinks of the configured emitters.
pub open spec fn emitter_sinks(emitters: Seq<(String, EmitterConfig)>) -> Seq<Sink> {
    emitters.map(|i: int, e: (String, EmitterConfig)| sink_of(e.1, i as usize))
}

/// All sinks, in the order in which they get a round. Without the web server
/// there is no live feed.
pub open spec fn all_sinks(cfg: Config, alerts: bool, status: bool) -> Seq<Sink> {
    let first = if cfg.web.enabled {
        seq![Sink::Log, Sink::Store, Sink::Live]
    } else {
        seq![Sink::Log, Sink::Store]
    };
    let second = if alerts {
        first.push(Sink::Alerts)
    } else {
        first
    };
    let third = if status {
        second.push(Sink::Status)
    } else {
        second
    };
    third + emitter_sinks(cfg.emitters.entries@)
}

/// The place of the last Prometheus emitter, whose registry is served.
pub open spec fn last_registry(emitters: Seq<(String, EmitterConfig)>) -> Option<usize>
    decreases emitters.len(),
{
    if emitters.len() == 0 {
        None
    } else if emitters.last().1 is Prometheus {
        Some((emitters.len() - 1) as usize)
    } else {
        last_registry(emitters.drop_last())
    }
}

fn list_sinks(cfg: &Config, alerts: bool, status: bool) -> (r: (Vec<Sink>, Option<usize>))
    ensures
        r.0@ == all_sinks(*cfg, alerts, status),
        r.1 == last_registry(cfg.emitters.entries@),
{
    let mut out: Vec<Sink> = Vec::new();
    out.push(Sink::Log);
    out.push(Sink::Store);
    if cfg.web.enabled {
        out.push(Sink::Live);
    }
    if alerts {
        out.push(Sink::Alerts);
    }
    if status {
        out.push(Sink::Status);
    }
    let ghost head = out@;
    let ghost es = cfg.emitters.entries@;
    let ghost more = emitter_sinks(es);
    let mut registry: Option<usize> = None;
    let mut i: usize = 0;
    assert(es.take(0) =~= Seq::empty());
    assert(more.take(0) =~= Seq::empty());
    while i < cfg.emitters.entries.len()
        invariant
            es == cfg.emitters.entries@,
            more == emitter_sinks(es),
            i <= es.len(),
            out@ == head + more.take(i as int),
            registry == last_registry(es.take(i as int)),
        decreases es.len() - i,
    {
        assert(es.take(i + 1).drop_last() == es.take(i as int));
        assert(es.take(i + 1).last() == es[i as int]);
        let ghost had = out@;
        match &cfg.emitters.entries[i].1 {
            EmitterConfig::Prometheus => {
                out.push(Sink::Prometheus(i));
                registry = Some(i);
            },
            EmitterConfig::Graphite(_) => {
                out.push(Sink::Graphite(i));
            },
            EmitterConfig::Influx(_) => {
                out.push(Sink::Influx(i));
            },
        }
        assert(more.take(i + 1) =~= more.take(i as int).push(more[i as int]));
        assert(out@ == had.push(more[i as int]));
        assert(out@ =~= head + more.take(i + 1));
        i = i + 1;
    }
    assert(es.take(i as int) == es);
    assert(more.take(i as int) == more);
    assert(out@ =~= all_sinks(*cfg, alerts, status));
    (out, registry)
}

/// What the daemon is made of.
#[derive(Debug)]
pub struct Setup {
    pub alerter: Option<Alerter>,
    pub engine: Option<StatusEngine>,
    pub sinks: Vec<Sink>,
    /// The Prometheus emitter whose registry is served.
    pub registry: Option<usize>,
    pub tree: Vec<TreeNode>,
    pub agents: NameMap<AgentEntry>,
    /// (path, host) of every leaf target, for the charts ranking.
    pub targets: Vec<(String, String)>,
}

/// Why the daemon does not start.
#[derive(Debug)]
pub enum SetupError {
    Alerts(AlerterError),
    Status(StatusError),
    /// Agents are configured but the web server is disabled — they cannot
    /// connect.
    AgentsCannotConnect,
    Target(TargetError),
}

/// What is said where the parts cannot be set up, the causes last.
pub open spec fn setup_texts(e: SetupError, cfg: Config) -> Seq<Seq<char>> {
    match e {
        SetupError::Alerts(a) => alert::alerter_texts(a@, cfg),
        SetupError::Status(s) => status::status_texts(s@, cfg),
        SetupError::AgentsCannotConnect => seq![
            "[agents] are configured but the web server is disabled — they cannot connect"@,
        ],
        SetupError::Target(t) => seq![t@.text()],
    }
}

impl SetupError {
    /// What to say of the configuration, the causes last.
    pub fn messages(&self, cfg: &Config) -> (r: Vec<String>)
        requires
            cfg.wf(),
        ensures
            text::texts(r@) == setup_texts(*self, *cfg),
    {
        match self {
            SetupError::Alerts(a) => a.messages(cfg),
            SetupError::Status(s) => s.messages(cfg),
            SetupError::AgentsCannotConnect => alone(
                "[agents] are configured but the web server is disabled — they cannot connect".to_owned(),
            ),
            SetupError::Target(t) => alone(t.message()),
        }
    }
}

/// The configuration has agents and no way for them to connect.
pub open spec fn agents_cut_off(cfg: Config) -> bool {
    cfg.agents.entries@.len() > 0 && !cfg.web.enabled
}

fn paths_and_hosts(flat: Vec<FlatTarget>) -> (r: Vec<(String, String)>)
    ensures
        r@.len() == flat@.len(),
        forall|i: int|
            0 <= i < r@.len() ==> (#[trigger] r@[i]).0@ == flat@[i].path@ && r@[i].1@
                == flat@[i].host@,
{
    let mut out: Vec<(String, String)> = Vec::new();
    let mut i: usize = 0;
    while i < flat.len()
        invariant
            i <= flat@.len(),
            out@.len() == i,
            forall|j: int|
                0 <= j < i ==> (#[trigger] out@[j]).0@ == flat@[j].path@ && out@[j].1@
                    == flat@[j].host@,
        decreases flat@.len() - i,
    {
        out.push((flat[i].path.clone(), flat[i].host.clone()));
        i = i + 1;
    }
    out
}

impl Setup {
    /// The parts of a configuration, with a written log of incidents.
    pub open spec fn of(self, cfg: Config, leaves: Seq<Leaf>, events: Seq<Event>) -> bool {
        &&& match self.alerter {
            None => !alert::any_watched(leaves),
            Some(a) => alert::any_watched(leaves) && a.of(cfg, leaves),
        }
        &&& match self.engine {
            None => status::definitions(cfg).len() == 0,
            Some(e) => {
                &&& status::definitions(cfg).len() > 0
                &&& e.fresh(cfg)
                &&& e.incidents@ == status::replayed(
                    status::empty_log(),
                    status::entries_of(events),
                )
            },
        }
        &&& self.sinks@ == all_sinks(cfg, self.alerter is Some, self.engine is Some)
        &&& self.registry == last_registry(cfg.emitters.entries@)
        &&& self.tree@.len() == cfg.targets@.len()
        &&& forall|i: int|
            0 <= i < self.tree@.len() ==> web::shows(
                #[trigger] self.tree@[i],
                cfg.targets@[i].0@,
                cfg.targets@[i].0@,
                cfg.targets@[i].1,
                leaves,
            )
        &&& self.agents.wf()
        &&& web::agents_of(cfg, leaves, self.agents.entries@)
        &&& self.targets@.len() == leaves.len()
        &&& forall|i: int|
            0 <= i < leaves.len() ==> (#[trigger] self.targets@[i]).0@ == leaves[i].path
                && self.targets@[i].1@ == leaves[i].host
    }
}

/// Puts the daemon's parts together.
pub fn set_up(cfg: &Config, events: &Vec<Event>) -> (r: Result<Setup, SetupError>)
    requires
        cfg.wf(),
        status::numbered(events@),
    ensures
        match r {
            Err(SetupError::Alerts(e)) => alert::alerter_refusal(*cfg) == Some(e@),
            Err(SetupError::Status(e)) => {
                &&& alert::alerter_refusal(*cfg) is None
                &&& status::status_refusal(*cfg) == Some(e@)
            },
            Err(SetupError::AgentsCannotConnect) => {
                &&& alert::alerter_refusal(*cfg) is None
                &&& status::status_refusal(*cfg) is None
                &&& agents_cut_off(*cfg)
            },
            Err(SetupError::Target(_)) => false,
            Ok(s) => {
                &&& alert::alerter_refusal(*cfg) is None
                &&& status::status_refusal(*cfg) is None
                &&& !agents_cut_off(*cfg)
                &&& cfg.flattened() matches Ok(leaves)
                &&& s.of(*cfg, leaves, events@)
            },
        },
{
    let alerter = match Alerter::new(cfg) {
        Err(e) => {
            return Err(SetupError::Alerts(e));
        },
        Ok(a) => a,
    };
    let engine = match StatusEngine::new(cfg, events) {
        Err(e) => {
            return Err(SetupError::Status(e));
        },
        Ok(e) => e,
    };
    let (sinks, registry) = list_sinks(cfg, alerter.is_some(), engine.is_some());
    if cfg.agents.len() > 0 && !cfg.web.enabled {
        return Err(SetupError::AgentsCannotConnect);
    }
    let tree = build_tree(cfg);
    let agents = match build_agents(cfg) {
        Err(e) => {
            return Err(SetupError::Target(e));
        },
        Ok(a) => a,
    };
    let flat = match cfg.flatten_targets() {
        Err(e) => {
            return Err(SetupError::Target(e));
        },
        Ok(f) => f,
    };
    let ghost leaves = config::leaves_of(flat@);
    assert(web::known_leaves(*cfg) == leaves);
    let targets = paths_and_hosts(flat);
    Ok(Setup { alerter, engine, sinks, registry, tree, agents, targets })
}

/// An accepted configuration starts, unless it has agents and no web server.
pub proof fn an_accepted_configuration_starts(cfg: Config)
    requires
        cfg.wf(),
        config::config_refusal(cfg) is None,
        !agents_cut_off(cfg),
    ensures
        alert::alerter_refusal(cfg) is None,
        status::status_refusal(cfg) is None,
        cfg.flattened() is Ok,
{
}

// ---- command line ----

/// A text in a column, at the left of it.
pub open spec fn left(s: Seq<char>, width: nat) -> Seq<char> {
    if s.len() < width {
        s + Seq::new((width - s.len()) as nat, |i: int| ' ')
    } else {
        s
    }
}

/// A text in a column, at the right of it.
pub open spec fn right(s: Seq<char>, width: nat) -> Seq<char> {
    if s.len() < width {
        Seq::new((width - s.len()) as nat, |i: int| ' ') + s
    } else {
        s
    }
}

fn spaces(n: usize) -> (r: String)
    ensures
        r@ == Seq::new(n as nat, |i: int| ' '),
{
    let mut s = String::new();
    let mut i: usize = 0;
    while i < n
        invariant
            i <= n,
            s@ == Seq::new(i as nat, |i: int| ' '),
        decreases n - i,
    {
        s.push(' ');
        i = i + 1;
        assert(s@ =~= Seq::new(i as nat, |i: int| ' '));
    }
    s
}

fn push_left(out: &mut String, s: &str, width: usize)
    ensures
        final(out)@ == old(out)@ + left(s@, width as nat),
{
    let ghost start = out@;
    let n: usize = text::chars_of(s).len();
    out.append(s);
    if n < width {
        out.append(spaces(width - n).as_str());
    }
    assert(out@ =~= start + left(s@, width as nat));
}

fn push_right(out: &mut String, s: &str, width: usize)
    ensures
        final(out)@ == old(out)@ + right(s@, width as nat),
{
    let ghost start = out@;
    let n: usize = text::chars_of(s).len();
    if n < width {
        out.append(spaces(width - n).as_str());
    }
    out.append(s);
    assert(out@ =~= start + right(s@, width as nat));
}

/// "dabping.toml OK: 3 targets, step 300s, 20 pings/round"
pub fn check_heading(path: &str, targets: usize, step: u64, pings: u32) -> (r: String)
    ensures
        r@ == path@ + " OK: "@ + text::decimal(targets as nat) + " targets, step "@
            + text::decimal(step as nat) + "s, "@ + text::decimal(pings as nat) + " pings/round"@,
{
    let mut s = path.to_owned();
    s.append(" OK: ");
    s.append(decimal_u64(targets as u64).as_str());
    s.append(" targets, step ");
    s.append(decimal_u64(step).as_str());
    s.append("s, ");
    s.append(decimal_u64(pings as u64).as_str());
    s.append(" pings/round");
    s
}

/// A target's line in the flattened list.
pub fn check_line(t: &FlatTarget) -> (r: String)
    ensures
        r@ == "  "@ + left(t.path@, 40) + " "@ + left(t.host@, 30) + " probe="@ + t.probe@,
{
    let mut s = "  ".to_owned();
    push_left(&mut s, t.path.as_str(), 40);
    s.append(" ");
    push_left(&mut s, t.host.as_str(), 30);
    s.append(" probe=");
    s.append(t.probe.as_str());
    s
}

/// The reply times, one after the other.
pub open spec fn rtts_text(rtts: Seq<Duration>) -> Seq<char> {
    text::joined(rtts.map_values(|d: Duration| emit::rtt_text(d)), " "@)
}

fn list_rtts(rtts: &Vec<Duration>) -> (r: String)
    ensures
        r@ == rtts_text(rtts@),
{
    let ghost want = rtts@.map_values(|d: Duration| emit::rtt_text(d));
    let mut parts: Vec<String> = Vec::new();
    let mut i: usize = 0;
    while i < rtts.len()
        invariant
            want == rtts@.map_values(|d: Duration| emit::rtt_text(d)),
            i <= rtts@.len(),
            parts@.len() == i,
            forall|j: int| 0 <= j < i ==> (#[trigger] parts@[j])@ == want[j],
        decreases rtts@.len() - i,
    {
        parts.push(fmt_rtt(rtts[i]));
        i = i + 1;
    }
    assert(text::texts(parts@) =~= want);
    join(&parts, " ")
}

/// What `once` prints of a round; `addr` is its address in writing.
pub open spec fn once_text(r: RoundResult, addr: Seq<char>) -> Seq<char> {
    let head = "dabping: "@ + text::decimal(r.sent as nat) + " pings to "@ + r.host@ + " ("@ + addr
        + ")\nsent "@ + text::decimal(r.sent as nat) + "  recv "@ + text::decimal(r.rtts@.len())
        + "  loss "@ + decimal::fixed(r.loss(), 1) + "%\nmin "@ + emit::opt_text(
        probe::least(r.rtts@),
    ) + "  med "@ + emit::opt_text(r.middle()) + "  avg "@ + emit::opt_text(
        emit::mean(r.rtts@),
    ) + "  max "@ + emit::opt_text(probe::greatest(r.rtts@)) + "\n"@;
    if r.rtts@.len() == 0 {
        head
    } else {
        head + "rtts: "@ + rtts_text(r.rtts@) + "\n"@
    }
}

/// The report of a single round, and whether it counts as a success: total
/// loss does not, so that `once` works in scripts.
pub fn once_report(r: &RoundResult, addr: &str) -> (o: (String, bool))
    requires
        r.wf(),
        probe::total(r.rtts@) <= u128::MAX,
    ensures
        o.0@ == once_text(*r, addr@),
        o.1 == (r.rtts@.len() > 0),
{
    let mut s = "dabping: ".to_owned();
    let sent = decimal_u64(r.sent as u64);
    s.append(sent.as_str());
    s.append(" pings to ");
    s.append(r.host.as_str());
    s.append(" (");
    s.append(addr);
    s.append(")\nsent ");
    s.append(sent.as_str());
    s.append("  recv ");
    s.append(decimal_u64(r.received() as u64).as_str());
    s.append("  loss ");
    s.append(fixed_text(r.loss_pct(), 1).as_str());
    s.append("%\nmin ");
    s.append(fmt_opt(r.min()).as_str());
    s.append("  med ");
    s.append(fmt_opt(r.median()).as_str());
    s.append("  avg ");
    let avg = r.avg();
    assert(avg == emit::mean(r.rtts@));
    s.append(fmt_opt(avg).as_str());
    s.append("  max ");
    s.append(fmt_opt(r.max()).as_str());
    s.append("\n");
    if r.rtts.len() > 0 {
        s.append("rtts: ");
        s.append(list_rtts(&r.rtts).as_str());
        s.append("\n");
    }
    (s, r.received() > 0)
}

/// "isp/gw: 36 points @ 300s (Average)"
pub fn dump_heading(target: &str, f: &Fetched, cf: Cf) -> (r: String)
    ensures
        r@ == target@ + ": "@ + text::decimal(f.points@.len()) + " points @ "@ + text::decimal(
            f.period as nat,
        ) + "s ("@ + web::cf_name(Some(cf)) + ")"@,
{
    let mut s = target.to_owned();
    s.append(": ");
    s.append(decimal_u64(f.points.len() as u64).as_str());
    s.append(" points @ ");
    s.append(decimal_u64(f.period).as_str());
    s.append("s (");
    s.append(
        match cf {
            Cf::Average => "Average",
            Cf::Min => "Min",
            Cf::Max => "Max",
        },
    );
    s.append(")");
    s
}

/// A line of the table of points.
pub open spec fn table_line(
    time: Seq<char>,
    loss: Seq<char>,
    median: Seq<char>,
    min: Seq<char>,
    max: Seq<char>,
) -> Seq<char> {
    left(time, 20) + " "@ + right(loss, 7) + " "@ + right(median, 10) + " "@ + right(min, 10) + " "@
        + right(max, 10)
}

fn write_table_line(time: &str, loss: &str, median: &str, min: &str, max: &str) -> (r: String)
    ensures
        r@ == table_line(time@, loss@, median@, min@, max@),
{
    let mut s = String::new();
    push_left(&mut s, time, 20);
    s.append(" ");
    push_right(&mut s, loss, 7);
    s.append(" ");
    push_right(&mut s, median, 10);
    s.append(" ");
    push_right(&mut s, min, 10);
    s.append(" ");
    push_right(&mut s, max, 10);
    assert(s@ =~= table_line(time@, loss@, median@, min@, max@));
    s
}

pub fn dump_columns() -> (r: String)
    ensures
        r@ == table_line("time"@, "loss%"@, "median"@, "min"@, "max"@),
{
    write_table_line("time", "loss%", "median", "min", "max")
}

/// Seconds as milliseconds, "-" where they are unknown.
pub open spec fn ms_text(secs: Double) -> Seq<char> {
    if secs.nan() {
        "-"@
    } else {
        decimal::fixed(double::product(secs, double::of_int(1000)), 2) + "ms"@
    }
}

/// A point's line; `time` is when it was, in writing.
pub fn dump_line(time: &str, p: &Point) -> (r: String)
    ensures
        r@ == table_line(
            time@,
            if p.loss.nan() {
                "-"@
            } else {
                decimal::fixed(p.loss, 1)
            },
            ms_text(p.median),
            ms_text(store::first_known(p.pings@)),
            ms_text(store::last_known(p.pings@)),
        ),
{
    write_table_line(
        time,
        fmt_pct(p.loss).as_str(),
        fmt_ms(p.median).as_str(),
        fmt_ms(p.smoke_min()).as_str(),
        fmt_ms(p.smoke_max()).as_str(),
    )
}

/// What a new agent's two sides need: a section for the master's
/// configuration, and the agent's environment and command.
pub fn agent_snippets(name: &str, master: &str, secret: &str) -> (r: String)
    ensures
        r@ == "# master: dabping.toml\n[agents."@ + name@ + "]\nsecret = \""@ + secret@
            + "\"\n\n# agent: /etc/dabping/agent.env\nDABPING_AGENT_SECRET="@ + secret@
            + "\n\n# agent: command\ndabping agent -m "@ + master@ + " -n "@ + name@ + "\n"@,
{
    let mut s = "# master: dabping.toml\n[agents.".to_owned();
    s.append(name);
    s.append("]\nsecret = \"");
    s.append(secret);
    s.append("\"\n\n# agent: /etc/dabping/agent.env\nDABPING_AGENT_SECRET=");
    s.append(secret);
    s.append("\n\n# agent: command\ndabping agent -m ");
    s.append(master);
    s.append(" -n ");
    s.append(name);
    s.append("\n");
    s
}

/// Every round is logged and stored, in this order and before all else. It goes
/// to the live feed where there is a web server, to the alerts and the status
/// page where there are any, and to every emitter in the order of their names;
/// nothing gets it twice.
pub proof fn rounds_reach_every_sink(cfg: Config, alerts: bool, status: bool)
    ensures
        ({
            let all = all_sinks(cfg, alerts, status);
            let emitters = cfg.emitters.entries@;
            let n = all.len() - emitters.len();
            let count = |b: bool|
                if b {
                    1int
                } else {
                    0
                };
            &&& n == 2 + count(cfg.web.enabled) + count(alerts) + count(status)
            &&& all[0] == Sink::Log
            &&& all[1] == Sink::Store
            &&& cfg.web.enabled ==> all[2] == Sink::Live
            &&& status ==> all[n - 1] == Sink::Status
            &&& alerts ==> all[n - 1 - count(status)] == Sink::Alerts
            &&& forall|i: int|
                0 <= i < emitters.len() ==> all[n + i] == match (#[trigger] emitters[i]).1 {
                    EmitterConfig::Prometheus => Sink::Prometheus(i as usize),
                    EmitterConfig::Graphite(_) => Sink::Graphite(i as usize),
                    EmitterConfig::Influx(_) => Sink::Influx(i as usize),
                }
        }),
{
    let all = all_sinks(cfg, alerts, status);
    let emitters = cfg.emitters.entries@;
    let n = all.len() - emitters.len();
    assert forall|i: int| 0 <= i < emitters.len() implies all[n + i] == sink_of(
        (#[trigger] emitters[i]).1,
        i as usize,
    ) by {
        assert(emitter_sinks(emitters)[i] == sink_of(emitters[i].1, i as usize));
    }
}

/// The registry that is served is that of the last Prometheus emitter, and none
/// only where there is no such emitter.
pub proof fn the_last_registry_is_served(emitters: Seq<(String, EmitterConfig)>)
    requires
        emitters.len() <= usize::MAX,
    ensures
        match last_registry(emitters) {
            Some(i) => {
                &&& i < emitters.len()
                &&& emitters[i as int].1 is Prometheus
                &&& forall|j: int|
                    i < j < emitters.len() ==> !((#[trigger] emitters[j]).1 is Prometheus)
            },
            None => forall|j: int|
                0 <= j < emitters.len() ==> !((#[trigger] emitters[j]).1 is Prometheus),
        },
    decreases emitters.len(),
{
    if emitters.len() > 0 {
        let n = emitters.len() - 1;
        let rest = emitters.drop_last();
        the_last_registry_is_served(rest);
        assert(forall|j: int| 0 <= j < n ==> #[trigger] emitters[j] == rest[j]);
        assert(emitters[n] == emitters.last());
    }
}

/// A text in a column fills it up with spaces, on the side that it does not
/// stand at; one that is too wide is not cut.
pub proof fn columns_are_filled_with_spaces(s: Seq<char>, width: nat)
    ensures
        ({
            let (l, r) = (left(s, width), right(s, width));
            &&& l.len() == r.len()
            &&& l.len() >= width && l.len() >= s.len()
            &&& l.len() == width || l.len() == s.len()
            &&& l.take(s.len() as int) == s
            &&& r.skip(r.len() - s.len()) == s
            &&& forall|i: int| s.len() <= i < l.len() ==> #[trigger] l[i] == ' '
            &&& forall|i: int| 0 <= i < r.len() - s.len() ==> #[trigger] r[i] == ' '
        }),
{
    let (l, r) = (left(s, width), right(s, width));
    assert(l.take(s.len() as int) =~= s);
    assert(r.skip(r.len() - s.len()) =~= s);
}

/// What `once` prints of a round with replies names its median, its fastest and
/// its slowest reply, and lists all in the order in which they came.
pub proof fn an_answered_round_is_printed_with_its_replies(
    r: RoundResult,
    addr: Seq<char>,
    lo: Duration,
    mid: Duration,
    hi: Duration,
)
    requires
        r.rtts@.contains(lo),
        r.rtts@.contains(hi),
        forall|i: int|
            0 <= i < r.rtts@.len() ==> lo.nanos <= (#[trigger] r.rtts@[i]).nanos <= hi.nanos,
        r.middle() == Some(mid),
    ensures
        once_text(r, addr) == "dabping: "@ + text::decimal(r.sent as nat) + " pings to "@ + r.host@
            + " ("@ + addr + ")\nsent "@ + text::decimal(r.sent as nat) + "  recv "@
            + text::decimal(r.rtts@.len()) + "  loss "@ + decimal::fixed(r.loss(), 1) + "%\nmin "@
            + emit::rtt_text(lo) + "  med "@ + emit::rtt_text(mid) + "  avg "@ + emit::opt_text(
            emit::mean(r.rtts@),
        ) + "  max "@ + emit::rtt_text(hi) + "\n"@ + "rtts: "@ + text::joined(
            r.rtts@.map_values(|d: Duration| emit::rtt_text(d)),
            " "@,
        ) + "\n"@,
{
    probe::the_fastest_and_the_slowest(r.rtts@, lo, hi);
}

} // verus!
