//! The configuration: its model, its rules and the flattening of the target
//! tree.
use crate::alert;
use crate::alert::{Alerter, AlerterError, AlerterRefusal};
use crate::double;
use crate::double::{Double, ONE_BITS};
use crate::names::NameMap;
use crate::probe;
use crate::probe::{ProbeError, ProbeInstance};
use crate::status;
use crate::status::{StatusError, StatusRefusal};
use crate::store;
use crate::store::{PathError, RraSpec, default_rras, path_message, validate_target_path};
use crate::text;
use crate::text::{alone, atop, contains_char, copy_list, decimal_u64, quoted, said};
use crate::time::Duration;
use vstd::prelude::*;
use vstd::string::*;

verus! {

/// The configuration file.
#[derive(Debug)]
pub struct Config {
    pub database: Database,
    pub web: Web,
    pub probes: NameMap<ProbeConfig>,
    pub emitters: NameMap<EmitterConfig>,
    pub alerts: NameMap<AlertConfig>,
    pub smtp: Option<SmtpConfig>,
    pub status: Option<StatusConfig>,
    /// Remote measurement agents.
    pub agents: NameMap<AgentConfig>,
    /// The sections and targets at the top, in the order of their names.
    pub targets: Vec<(String, TargetNode)>,
}

#[derive(Debug)]
pub struct AgentConfig {
    /// Shared secret the agent presents in X-Dabping-Secret.
    pub secret: String,
}

/// Public status page.
#[derive(Debug)]
pub struct StatusConfig {
    /// Page heading; defaults to "dabping status".
    pub title: Option<String>,
    /// Days of uptime bars per component.
    pub history_days: u32,
    /// Enables the incident-administration API when set
    /// (X-Dabping-Token header).
    pub admin_token: Option<String>,
    pub components: NameMap<StatusComponentConfig>,
}

pub fn default_history_days() -> (r: u32)
    ensures
        r == 90,
{
    90
}

#[derive(Debug)]
pub struct StatusComponentConfig {
    /// Display name; defaults to the component key.
    pub name: Option<String>,
    pub group: Option<String>,
    /// Target paths backing this component (all must be healthy).
    pub targets: Vec<String>,
    /// Alert-pattern DSL over loss%; default ">5%,>5%".
    pub degraded_loss: Option<String>,
    /// Default "==100%,==100%,==100%".
    pub down_loss: Option<String>,
    /// Optional pattern over median ms.
    pub degraded_rtt: Option<String>,
    /// Severity that auto-opens an incident; default "partial_outage".
    pub incident_at: Option<String>,
}

/// One alert definition.
#[derive(Debug)]
pub struct AlertConfig {
    pub kind: AlertKind,
    /// e.g. ">10%,>10%,>10%" — see alert/pattern.rs.
    pub pattern: String,
    pub comment: String,
    /// "log:", "email:addr", "exec:cmd", "webhook:url".
    pub to: Vec<String>,
    /// Re-notify while still raised, e.g. "1h". Default: raise edge only.
    pub repeat_every: Option<String>,
    pub notify_clear: bool,
}

/// Which per-round value the pattern compares.
#[derive(Clone, Copy, Debug, PartialEq, Eq, Structural)]
pub enum AlertKind {
    /// Loss percentage (always known).
    Loss,
    /// Median RTT in ms; unknown (==U) when the whole round was lost.
    Rtt,
}

#[derive(Debug)]
pub struct SmtpConfig {
    pub server: String,
    pub port: u16,
    pub from: String,
    /// none | starttls | implicit
    pub tls: String,
    pub username: Option<String>,
    pub password: Option<String>,
}

impl Clone for SmtpConfig {
    fn clone(&self) -> (r: SmtpConfig)
        ensures
            r == *self,
    {
        SmtpConfig {
            server: self.server.clone(),
            port: self.port,
            from: self.from.clone(),
            tls: self.tls.clone(),
            username: self.username.clone(),
            password: self.password.clone(),
        }
    }
}

pub fn default_smtp_port() -> (r: u16)
    ensures
        r == 25,
{
    25
}

pub fn default_smtp_tls() -> (r: String)
    ensures
        r@ == "none"@,
{
    "none".to_owned()
}

/// Web UI / API server settings.
#[derive(Debug)]
pub struct Web {
    /// Address and port.
    pub listen: String,
    pub enabled: bool,
}

pub fn default_listen() -> (r: String)
    ensures
        r@ == "127.0.0.1:8420"@,
{
    "127.0.0.1:8420".to_owned()
}

pub fn default_true() -> (r: bool)
    ensures
        r,
{
    true
}

impl Default for Web {
    fn default() -> (r: Web)
        ensures
            r.listen@ == "127.0.0.1:8420"@,
            r.enabled,
    {
        Web { listen: default_listen(), enabled: true }
    }
}

/// Round timing / shape / storage.
#[derive(Debug)]
pub struct Database {
    /// Seconds between rounds for each target.
    pub step: u64,
    /// Measurements per round (the smoke). At least 3.
    pub pings: u32,
    /// Directory for the round-robin series files.
    pub dir: String,
    /// Consolidation table.
    pub rras: Vec<RraSpec>,
}

pub fn default_step() -> (r: u64)
    ensures
        r == 300,
{
    300
}

pub fn default_pings() -> (r: u32)
    ensures
        r == 20,
{
    20
}

pub fn default_data_dir() -> (r: String)
    ensures
        r@ == "data"@,
{
    "data".to_owned()
}

impl Default for Database {
    fn default() -> (r: Database)
        ensures
            r.step == 300,
            r.pings == 20,
            r.dir@ == "data"@,
            r.rras@ == store::stock_rras(),
    {
        Database {
            step: default_step(),
            pings: default_pings(),
            dir: default_data_dir(),
            rras: default_rras(),
        }
    }
}

/// Where rounds get exported, beyond the native store.
#[derive(Debug)]
pub enum EmitterConfig {
    /// Enables GET /metrics on the web server (pull).
    Prometheus,
    Graphite(GraphiteConfig),
    Influx(InfluxConfig),
}

#[derive(Debug)]
pub struct GraphiteConfig {
    /// host:port of the plaintext (2003) listener.
    pub addr: String,
    pub prefix: String,
}

#[derive(Debug)]
pub struct InfluxConfig {
    /// Complete write endpoint, v1 or v2 style:
    /// "http://influx:8086/write?db=dabping" or
    /// "http://influx:8086/api/v2/write?org=x&bucket=net".
    pub url: String,
    /// Sent as "Authorization: Token …" when set.
    pub token: Option<String>,
    pub measurement: String,
    pub flush_secs: u64,
}

pub fn default_metric_prefix() -> (r: String)
    ensures
        r@ == "dabping"@,
{
    "dabping".to_owned()
}

pub fn default_flush_secs() -> (r: u64)
    ensures
        r == 5,
{
    5
}

/// A named probe instance. Multiple instances of the same type with
/// different parameters are allowed.
#[derive(Debug)]
pub enum ProbeConfig {
    Icmp(IcmpConfig),
    Tcp(TcpConfig),
    Dns(DnsConfig),
    Http(HttpConfig),
    Exec(ExecConfig),
    Phoenix(PhoenixConfig),
}

impl Clone for ProbeConfig {
    fn clone(&self) -> (r: ProbeConfig)
        ensures
            r == *self,
    {
        match self {
            ProbeConfig::Icmp(c) => ProbeConfig::Icmp(
                IcmpConfig {
                    payload_size: c.payload_size,
                    timeout_ms: c.timeout_ms,
                    interval_ms: c.interval_ms,
                },
            ),
            ProbeConfig::Tcp(c) => ProbeConfig::Tcp(
                TcpConfig {
                    port: c.port,
                    timeout_ms: c.timeout_ms,
                    interval_ms: c.interval_ms,
                },
            ),
            ProbeConfig::Dns(c) => ProbeConfig::Dns(
                DnsConfig {
                    port: c.port,
                    lookup: c.lookup.clone(),
                    qtype: c.qtype.clone(),
                    timeout_ms: c.timeout_ms,
                    interval_ms: c.interval_ms,
                },
            ),
            ProbeConfig::Http(c) => ProbeConfig::Http(
                HttpConfig {
                    url: c.url.clone(),
                    method: c.method.clone(),
                    timeout_ms: c.timeout_ms,
                    interval_ms: c.interval_ms,
                },
            ),
            ProbeConfig::Exec(c) => ProbeConfig::Exec(
                ExecConfig { command: c.command.clone(), round_timeout_ms: c.round_timeout_ms },
            ),
            ProbeConfig::Phoenix(c) => ProbeConfig::Phoenix(
                PhoenixConfig {
                    path: c.path.clone(),
                    tls: c.tls,
                    cookie: c.cookie.clone(),
                    timeout_ms: c.timeout_ms,
                    interval_ms: c.interval_ms,
                },
            ),
        }
    }
}

#[derive(Debug)]
pub struct IcmpConfig {
    /// ICMP data bytes per echo request (like ping -s).
    pub payload_size: usize,
    /// How long to wait for each reply.
    pub timeout_ms: u64,
    /// Pacing gap between pings within a round.
    pub interval_ms: u64,
}

pub fn default_payload_size() -> (r: usize)
    ensures
        r == 56,
{
    56
}

pub fn default_timeout_ms() -> (r: u64)
    ensures
        r == 1500,
{
    1500
}

pub fn default_interval_ms() -> (r: u64)
    ensures
        r == 300,
{
    300
}

/// The stock parameters of an ICMP probe.
pub open spec fn stock_icmp() -> IcmpConfig {
    IcmpConfig { payload_size: 56, timeout_ms: 1500, interval_ms: 300 }
}

impl Default for IcmpConfig {
    fn default() -> (r: IcmpConfig)
        ensures
            r == stock_icmp(),
    {
        IcmpConfig {
            payload_size: default_payload_size(),
            timeout_ms: default_timeout_ms(),
            interval_ms: default_interval_ms(),
        }
    }
}

impl IcmpConfig {
    pub fn timeout(&self) -> (d: Duration)
        ensures
            d.nanos == self.timeout_ms * 1_000_000,
    {
        Duration::from_millis(self.timeout_ms)
    }

    pub fn interval(&self) -> (d: Duration)
        ensures
            d.nanos == self.interval_ms * 1_000_000,
    {
        Duration::from_millis(self.interval_ms)
    }
}

/// TCP connect probe. The port comes from here or from the target.
#[derive(Debug)]
pub struct TcpConfig {
    pub port: Option<u16>,
    pub timeout_ms: u64,
    pub interval_ms: u64,
}

impl TcpConfig {
    pub fn timeout(&self) -> (d: Duration)
        ensures
            d.nanos == self.timeout_ms * 1_000_000,
    {
        Duration::from_millis(self.timeout_ms)
    }

    pub fn interval(&self) -> (d: Duration)
        ensures
            d.nanos == self.interval_ms * 1_000_000,
    {
        Duration::from_millis(self.interval_ms)
    }
}

/// DNS probe: the target is the server; `lookup` is the queried name
/// (default: the target's own hostname — any response counts).
#[derive(Debug)]
pub struct DnsConfig {
    pub port: u16,
    pub lookup: Option<String>,
    pub qtype: String,
    pub timeout_ms: u64,
    pub interval_ms: u64,
}

pub fn default_dns_port() -> (r: u16)
    ensures
        r == 53,
{
    53
}

pub fn default_qtype() -> (r: String)
    ensures
        r@ == "A"@,
{
    "A".to_owned()
}

impl DnsConfig {
    pub fn timeout(&self) -> (d: Duration)
        ensures
            d.nanos == self.timeout_ms * 1_000_000,
    {
        Duration::from_millis(self.timeout_ms)
    }

    pub fn interval(&self) -> (d: Duration)
        ensures
            d.nanos == self.interval_ms * 1_000_000,
    {
        Duration::from_millis(self.interval_ms)
    }
}

/// HTTP(S) probe; `%host%` in the url is replaced by the target host.
#[derive(Debug)]
pub struct HttpConfig {
    pub url: String,
    pub method: String,
    pub timeout_ms: u64,
    pub interval_ms: u64,
}

pub fn default_http_url() -> (r: String)
    ensures
        r@ == "http://%host%/"@,
{
    "http://%host%/".to_owned()
}

pub fn default_http_method() -> (r: String)
    ensures
        r@ == "GET"@,
{
    "GET".to_owned()
}

pub fn default_http_timeout_ms() -> (r: u64)
    ensures
        r == 5000,
{
    5000
}

pub fn default_http_interval_ms() -> (r: u64)
    ensures
        r == 500,
{
    500
}

impl HttpConfig {
    pub fn timeout(&self) -> (d: Duration)
        ensures
            d.nanos == self.timeout_ms * 1_000_000,
    {
        Duration::from_millis(self.timeout_ms)
    }

    pub fn interval(&self) -> (d: Duration)
        ensures
            d.nanos == self.interval_ms * 1_000_000,
    {
        Duration::from_millis(self.interval_ms)
    }
}

/// Phoenix-socket probe: RTT = channel heartbeat round-trip.
/// The target's port override applies (e.g. a dev server on 4000).
#[derive(Debug)]
pub struct PhoenixConfig {
    /// Socket mount point; "/socket/websocket" for user sockets.
    pub path: String,
    pub tls: bool,
    /// Session cookie for auth-gated sockets, e.g. "_app_key=…".
    pub cookie: Option<String>,
    pub timeout_ms: u64,
    pub interval_ms: u64,
}

pub fn default_phx_path() -> (r: String)
    ensures
        r@ == "/live/websocket"@,
{
    "/live/websocket".to_owned()
}

impl PhoenixConfig {
    pub fn timeout(&self) -> (d: Duration)
        ensures
            d.nanos == self.timeout_ms * 1_000_000,
    {
        Duration::from_millis(self.timeout_ms)
    }

    pub fn interval(&self) -> (d: Duration)
        ensures
            d.nanos == self.interval_ms * 1_000_000,
    {
        Duration::from_millis(self.interval_ms)
    }
}

/// External-command probe; see probe/exec.rs for the output contract.
#[derive(Debug)]
pub struct ExecConfig {
    pub command: String,
    pub round_timeout_ms: u64,
}

pub fn default_round_timeout_ms() -> (r: u64)
    ensures
        r == 60_000,
{
    60_000
}

/// A node in the hierarchical target tree, nested arbitrarily deep.
#[derive(Debug)]
pub struct TargetNode {
    pub title: Option<String>,
    pub menu: Option<String>,
    pub host: Option<String>,
    /// Probe instance name; inherited by children when unset.
    pub probe: Option<String>,
    /// Per-target probe parameters (tcp/dns port, dns lookup); inherited.
    pub port: Option<u16>,
    pub lookup: Option<String>,
    /// Alert names watching this target (and its children; inherited).
    pub alerts: Option<Vec<String>>,
    /// Agent names that also measure this target (inherited).
    pub agents: Option<Vec<String>>,
    /// The master itself does not probe this target (inherited);
    /// only the listed agents do.
    pub nomasterpoll: Option<bool>,
    /// The sections and targets below, in the order of their names.
    pub children: Vec<(String, TargetNode)>,
}

/// A leaf target after flattening the tree and resolving inheritance.
#[derive(Debug)]
pub struct FlatTarget {
    /// Slash-separated path in the tree, e.g. "isp/gw".
    pub path: String,
    pub host: String,
    pub probe: String,
    pub port: Option<u16>,
    pub lookup: Option<String>,
    pub alerts: Vec<String>,
    pub agents: Vec<String>,
    pub nomasterpoll: bool,
}

/// A leaf target.
#[verifier::ext_equal]
pub struct Leaf {
    pub path: Seq<char>,
    pub host: Seq<char>,
    pub probe: Seq<char>,
    pub port: Option<u16>,
    pub lookup: Option<Seq<char>>,
    pub alerts: Seq<Seq<char>>,
    pub agents: Seq<Seq<char>>,
    pub nomasterpoll: bool,
}

/// The view of an optional string.
pub open spec fn text_of(s: Option<String>) -> Option<Seq<char>> {
    match s {
        Some(t) => Some(t@),
        None => None,
    }
}

impl View for FlatTarget {
    type V = Leaf;

    open spec fn view(&self) -> Leaf {
        Leaf {
            path: self.path@,
            host: self.host@,
            probe: self.probe@,
            port: self.port,
            lookup: text_of(self.lookup),
            alerts: text::texts(self.alerts@),
            agents: text::texts(self.agents@),
            nomasterpoll: self.nomasterpoll,
        }
    }
}

/// The leaves of a list of targets.
pub open spec fn leaves_of(v: Seq<FlatTarget>) -> Seq<Leaf> {
    v.map_values(|t: FlatTarget| t@)
}

/// What is wrong with a section or target.
#[derive(Clone, Copy, Debug, PartialEq, Eq, Structural)]
pub enum Fault {
    UnknownProbe,
    /// A tcp probe without a port, on the probe or the target.
    NeedsPort,
    BadPath(PathError),
    /// '@' is reserved for agent series.
    Reserved,
    UnknownAgent,
    /// nomasterpoll but no agents — nobody would measure it.
    NobodyMeasures,
    /// A section with neither a host nor children.
    EmptySection,
    /// The whole tree holds no host.
    NoHosts,
}

/// A section or target that is refused.
#[derive(Debug)]
pub struct TargetError {
    pub target: String,
    pub fault: Fault,
    /// The probe or agent that the fault is about, where it is about one.
    pub name: String,
}

/// A section or target that is refused.
#[verifier::ext_equal]
pub struct Refusal {
    pub target: Seq<char>,
    pub fault: Fault,
    pub name: Seq<char>,
}

impl View for TargetError {
    type V = Refusal;

    open spec fn view(&self) -> Refusal {
        Refusal { target: self.target@, fault: self.fault, name: self.name@ }
    }
}

/// Inheritable settings on the way down the tree.
#[verifier::ext_equal]
pub struct Settings {
    pub probe: Seq<char>,
    pub port: Option<u16>,
    pub lookup: Option<Seq<char>>,
    pub alerts: Option<Seq<Seq<char>>>,
    pub agents: Option<Seq<Seq<char>>>,
    pub nomasterpoll: bool,
}

/// What holds above the top of the tree.
pub open spec fn root_settings() -> Settings {
    Settings {
        probe: "icmp"@,
        port: None,
        lookup: None,
        alerts: None,
        agents: None,
        nomasterpoll: false,
    }
}

/// What a node has, else what it inherits.
pub open spec fn inherit(node: TargetNode, up: Settings) -> Settings {
    Settings {
        probe: match node.probe {
            Some(p) => p@,
            None => up.probe,
        },
        port: match node.port {
            Some(p) => Some(p),
            None => up.port,
        },
        lookup: match node.lookup {
            Some(l) => Some(l@),
            None => up.lookup,
        },
        alerts: match node.alerts {
            Some(l) => Some(text::texts(l@)),
            None => up.alerts,
        },
        agents: match node.agents {
            Some(l) => Some(text::texts(l@)),
            None => up.agents,
        },
        nomasterpoll: match node.nomasterpoll {
            Some(b) => b,
            None => up.nomasterpoll,
        },
    }
}

pub open spec fn listed(l: Option<Seq<Seq<char>>>) -> Seq<Seq<char>> {
    match l {
        Some(s) => s,
        None => Seq::empty(),
    }
}

/// The leaf that a node with a host is itself.
pub open spec fn own_leaf(path: Seq<char>, node: TargetNode, here: Settings) -> Seq<Leaf> {
    match node.host {
        Some(host) => seq![
            Leaf {
                path,
                host: host@,
                probe: here.probe,
                port: here.port,
                lookup: here.lookup,
                alerts: listed(here.alerts),
                agents: listed(here.agents),
                nomasterpoll: here.nomasterpoll,
            },
        ],
        None => Seq::empty(),
    }
}

/// The sections and targets are in strictly ascending order of their names, at
/// every depth.
pub open spec fn ascending(nodes: Seq<(String, TargetNode)>) -> bool
    decreases nodes,
{
    &&& forall|i: int, j: int|
        0 <= i < j < nodes.len() ==> text::text_lt(
            (#[trigger] nodes[i]).0@,
            (#[trigger] nodes[j]).0@,
        )
    &&& forall|i: int|
        0 <= i < nodes.len() ==> ascending((#[trigger] nodes[i]).1.children@)
}

impl Config {
    /// The tables are in the order of their names, and so is the tree.
    pub open spec fn wf(self) -> bool {
        &&& ascending(self.targets@)
        &&& self.probes.wf()
        &&& self.emitters.wf()
        &&& self.alerts.wf()
        &&& self.agents.wf()
        &&& self.status matches Some(s) ==> s.components.wf()
    }

    /// The first of the agents that is not configured.
    pub open spec fn unknown_agent(self, agents: Seq<Seq<char>>) -> Option<Seq<char>>
        decreases agents.len(),
    {
        if agents.len() == 0 {
            None
        } else if self.unknown_agent(agents.drop_last()) is Some {
            self.unknown_agent(agents.drop_last())
        } else if !self.agents.has(agents.last()) {
            Some(agents.last())
        } else {
            None
        }
    }

    /// The probe needs a port and has none.
    pub open spec fn lacks_port(self, probe: Seq<char>, port: Option<u16>) -> bool {
        self.probes.at(probe) matches ProbeConfig::Tcp(t) && t.port is None && port is None
    }

    /// Why a node with its settings is refused, if it is.
    pub open spec fn node_fault(self, path: Seq<char>, node: TargetNode, here: Settings) -> Option<
        Refusal,
    > {
        let agents = listed(here.agents);
        let plain = |fault: Fault| Some(Refusal { target: path, fault, name: Seq::empty() });
        let named = |fault: Fault, name: Seq<char>| Some(Refusal { target: path, fault, name });
        if (node.probe is Some || node.host is Some) && !self.probes.has(here.probe) {
            named(Fault::UnknownProbe, here.probe)
        } else if node.host is None {
            if node.children@.len() == 0 {
                plain(Fault::EmptySection)
            } else {
                None
            }
        } else if self.lacks_port(here.probe, here.port) {
            named(Fault::NeedsPort, here.probe)
        } else if store::path_error(path) is Some {
            plain(Fault::BadPath(store::path_error(path)->0))
        } else if path.contains('@') {
            plain(Fault::Reserved)
        } else if self.unknown_agent(agents) is Some {
            named(Fault::UnknownAgent, self.unknown_agent(agents)->0)
        } else if here.nomasterpoll && agents.len() == 0 {
            plain(Fault::NobodyMeasures)
        } else {
            None
        }
    }

    /// The leaves of a node and all below it, in order; or the first refusal.
    pub open spec fn leaves(self, path: Seq<char>, node: TargetNode, up: Settings) -> Result<
        Seq<Leaf>,
        Refusal,
    >
        decreases node,
    {
        let here = inherit(node, up);
        match self.node_fault(path, node, here) {
            Some(e) => Err(e),
            None => match self.all_leaves(path + seq!['/'], node.children@, here) {
                Ok(below) => Ok(own_leaf(path, node, here) + below),
                Err(e) => Err(e),
            },
        }
    }

    /// The leaves of some nodes, each named after the prefix.
    pub open spec fn all_leaves(
        self,
        prefix: Seq<char>,
        nodes: Seq<(String, TargetNode)>,
        up: Settings,
    ) -> Result<Seq<Leaf>, Refusal>
        decreases nodes,
    {
        if nodes.len() == 0 {
            Ok(Seq::empty())
        } else {
            match self.all_leaves(prefix, nodes.drop_last(), up) {
                Err(e) => Err(e),
                Ok(a) => match self.leaves(prefix + nodes.last().0@, nodes.last().1, up) {
                    Err(e) => Err(e),
                    Ok(b) => Ok(a + b),
                },
            }
        }
    }

    /// The leaves of the whole tree, or why it is refused.
    pub open spec fn flattened(self) -> Result<Seq<Leaf>, Refusal> {
        match self.all_leaves(Seq::empty(), self.targets@, root_settings()) {
            Err(e) => Err(e),
            Ok(l) => if l.len() == 0 {
                Err(Refusal { target: Seq::empty(), fault: Fault::NoHosts, name: Seq::empty() })
            } else {
                Ok(l)
            },
        }
    }
}

/// Inheritable per-node settings while flattening the tree.
struct Inherited<'a> {
    probe: &'a str,
    port: Option<u16>,
    lookup: Option<&'a String>,
    alerts: Option<&'a Vec<String>>,
    agents: Option<&'a Vec<String>>,
    nomasterpoll: bool,
}

impl<'a> Inherited<'a> {
    spec fn settings(self) -> Settings {
        Settings {
            probe: self.probe@,
            port: self.port,
            lookup: match self.lookup {
                Some(l) => Some(l@),
                None => None,
            },
            alerts: match self.alerts {
                Some(l) => Some(text::texts(l@)),
                None => None,
            },
            agents: match self.agents {
                Some(l) => Some(text::texts(l@)),
                None => None,
            },
            nomasterpoll: self.nomasterpoll,
        }
    }
}

fn refuse(path: &str, fault: Fault, name: &str) -> (e: TargetError)
    ensures
        e@ == (Refusal { target: path@, fault, name: name@ }),
{
    TargetError { target: path.to_owned(), fault, name: name.to_owned() }
}

fn listed_copy(l: Option<&Vec<String>>) -> (r: Vec<String>)
    ensures
        text::texts(r@) == listed(
            match l {
                Some(v) => Some(text::texts(v@)),
                None => None,
            },
        ),
{
    match l {
        Some(v) => copy_list(v),
        None => {
            let r: Vec<String> = Vec::new();
            assert(text::texts(r@) =~= Seq::empty());
            r
        },
    }
}

impl Config {
    fn find_unknown_agent(&self, agents: &Vec<String>) -> (r: Option<usize>)
        requires
            self.wf(),
        ensures
            match r {
                None => self.unknown_agent(text::texts(agents@)) is None,
                Some(i) => i < agents@.len() && self.unknown_agent(text::texts(agents@)) == Some(
                    agents@[i as int]@,
                ),
            },
    {
        let ghost all = text::texts(agents@);
        let mut i: usize = 0;
        assert(all.take(0) =~= Seq::empty());
        while i < agents.len()
            invariant
                self.wf(),
                all == text::texts(agents@),
                i <= agents@.len(),
                self.unknown_agent(all.take(i as int)) is None,
            decreases agents@.len() - i,
        {
            assert(all.take(i + 1).drop_last() == all.take(i as int));
            assert(all.take(i + 1).last() == agents@[i as int]@);
            if !self.agents.contains(agents[i].as_str()) {
                proof {
                    self.lemma_unknown_agent(all, i + 1);
                }
                return Some(i);
            }
            i = i + 1;
        }
        assert(all.take(i as int) == all);
        None
    }

    proof fn lemma_unknown_agent(self, agents: Seq<Seq<char>>, k: int)
        requires
            0 <= k <= agents.len(),
            self.unknown_agent(agents.take(k)) is Some,
        ensures
            self.unknown_agent(agents) == self.unknown_agent(agents.take(k)),
        decreases agents.len() - k,
    {
        if k < agents.len() {
            assert(agents.drop_last().take(k) == agents.take(k));
            self.lemma_unknown_agent(agents.drop_last(), k);
        } else {
            assert(agents.take(k) == agents);
        }
    }

    /// Why a node with a host is refused, if it is.
    fn check_host(
        &self,
        path: &str,
        node: &TargetNode,
        here: &Inherited,
        agents: &Vec<String>,
    ) -> (r: Result<(), TargetError>)
        requires
            self.wf(),
            node.host is Some,
            text::texts(agents@) == listed(here.settings().agents),
        ensures
            match r {
                Ok(()) => self.node_fault(path@, *node, here.settings()) is None,
                Err(e) => self.node_fault(path@, *node, here.settings()) == Some(e@),
            },
    {
        proof {
            reveal_strlit("");
            assert(""@ =~= Seq::<char>::empty());
        }
        let probe = match self.probes.get(here.probe) {
            None => {
                return Err(refuse(path, Fault::UnknownProbe, here.probe));
            },
            Some(p) => p,
        };
        if let ProbeConfig::Tcp(t) = probe {
            if t.port.is_none() && here.port.is_none() {
                return Err(refuse(path, Fault::NeedsPort, here.probe));
            }
        }
        match validate_target_path(path) {
            Err(e) => {
                return Err(refuse(path, Fault::BadPath(e), ""));
            },
            Ok(()) => {},
        }
        if contains_char(path, '@') {
            return Err(refuse(path, Fault::Reserved, ""));
        }
        if let Some(i) = self.find_unknown_agent(agents) {
            return Err(refuse(path, Fault::UnknownAgent, agents[i].as_str()));
        }
        if here.nomasterpoll && agents.len() == 0 {
            return Err(refuse(path, Fault::NobodyMeasures, ""));
        }
        assert(text::texts(agents@).len() == agents@.len());
        Ok(())
    }

    /// Checks a node, and adds the leaf that it is itself.
    fn push_own(
        &self,
        path: &str,
        node: &TargetNode,
        here: &Inherited,
        out: &mut Vec<FlatTarget>,
    ) -> (r: Result<(), TargetError>)
        requires
            self.wf(),
        ensures
            match r {
                Ok(()) => {
                    &&& self.node_fault(path@, *node, here.settings()) is None
                    &&& leaves_of(final(out)@) == leaves_of(old(out)@) + own_leaf(
                        path@,
                        *node,
                        here.settings(),
                    )
                },
                Err(e) => self.node_fault(path@, *node, here.settings()) == Some(e@),
            },
    {
        let ghost start = leaves_of(out@);
        proof {
            reveal_strlit("");
            assert(""@ =~= Seq::<char>::empty());
        }
        if node.probe.is_some() && !self.probes.contains(here.probe) {
            return Err(refuse(path, Fault::UnknownProbe, here.probe));
        }
        match &node.host {
            Some(host) => {
                let agents = listed_copy(here.agents);
                match self.check_host(path, node, here, &agents) {
                    Err(e) => {
                        return Err(e);
                    },
                    Ok(()) => {},
                }
                let lookup: Option<String> = match here.lookup {
                    Some(l) => Some(l.clone()),
                    None => None,
                };
                let flat = FlatTarget {
                    path: path.to_owned(),
                    host: host.clone(),
                    probe: here.probe.to_owned(),
                    port: here.port,
                    lookup,
                    alerts: listed_copy(here.alerts),
                    agents,
                    nomasterpoll: here.nomasterpoll,
                };
                let ghost leaf = flat@;
                out.push(flat);
                assert(leaves_of(out@) =~= start.push(leaf));
                assert(own_leaf(path@, *node, here.settings()) =~= seq![leaf]);
            },
            None => {
                if node.children.len() == 0 {
                    return Err(refuse(path, Fault::EmptySection, ""));
                }
                assert(start + Seq::<Leaf>::empty() =~= start);
            },
        }
        Ok(())
    }

    fn flatten_node(
        &self,
        path: &str,
        node: &TargetNode,
        inherited: &Inherited,
        out: &mut Vec<FlatTarget>,
    ) -> (r: Result<(), TargetError>)
        requires
            self.wf(),
        ensures
            match r {
                Ok(()) => self.leaves(path@, *node, inherited.settings()) matches Ok(l)
                    && leaves_of(final(out)@) == leaves_of(old(out)@) + l,
                Err(e) => self.leaves(path@, *node, inherited.settings()) == Err::<
                    Seq<Leaf>,
                    Refusal,
                >(e@),
            },
        decreases node,
    {
        let here = Inherited {
            probe: match &node.probe {
                Some(p) => p.as_str(),
                None => inherited.probe,
            },
            port: match node.port {
                Some(p) => Some(p),
                None => inherited.port,
            },
            lookup: match &node.lookup {
                Some(l) => Some(l),
                None => inherited.lookup,
            },
            alerts: match &node.alerts {
                Some(l) => Some(l),
                None => inherited.alerts,
            },
            agents: match &node.agents {
                Some(l) => Some(l),
                None => inherited.agents,
            },
            nomasterpoll: match node.nomasterpoll {
                Some(b) => b,
                None => inherited.nomasterpoll,
            },
        };
        let ghost set = inherit(*node, inherited.settings());
        assert(here.settings() == set);
        let ghost start = leaves_of(out@);
        match self.push_own(path, node, &here, out) {
            Err(e) => {
                return Err(e);
            },
            Ok(()) => {},
        }
        let ghost own = own_leaf(path@, *node, set);
        let mut prefix = path.to_owned();
        prefix.push('/');
        assert(prefix@ == path@ + seq!['/']);
        let ghost nodes = node.children@;
        let mut i: usize = 0;
        assert(nodes.take(0) =~= Seq::empty());
        assert(start + own + Seq::<Leaf>::empty() =~= start + own);
        while i < node.children.len()
            invariant
                self.wf(),
                nodes == node.children@,
                i <= nodes.len(),
                prefix@ == path@ + seq!['/'],
                set == here.settings(),
                set == inherit(*node, inherited.settings()),
                self.node_fault(path@, *node, set) is None,
                self.all_leaves(prefix@, nodes.take(i as int), set) matches Ok(below)
                    && leaves_of(out@) == start + own + below,
            decreases nodes.len() - i,
        {
            assert(nodes.take(i + 1).drop_last() == nodes.take(i as int));
            assert(nodes.take(i + 1).last() == nodes[i as int]);
            let mut child_path = prefix.clone();
            child_path.append(node.children[i].0.as_str());
            assert(decreases_to!(node => node.children@[i as int].1));
            let ghost before = leaves_of(out@);
            match self.flatten_node(child_path.as_str(), &node.children[i].1, &here, out) {
                Err(e) => {
                    proof {
                        self.lemma_refused_early(prefix@, nodes, set, i + 1);
                    }
                    return Err(e);
                },
                Ok(()) => {
                    proof {
                        let below = self.all_leaves(prefix@, nodes.take(i as int), set)->Ok_0;
                        let more = self.leaves(
                            prefix@ + nodes[i as int].0@,
                            nodes[i as int].1,
                            set,
                        )->Ok_0;
                        assert(start + own + below + more =~= start + own + (below + more));
                    }
                },
            }
            i = i + 1;
        }
        proof {
            assert(nodes.take(i as int) == nodes);
            let below = self.all_leaves(prefix@, nodes, set)->Ok_0;
            assert(start + own + below =~= start + (own + below));
        }
        Ok(())
    }

    /// What refuses the first of the nodes refuses them all.
    proof fn lemma_refused_early(
        self,
        prefix: Seq<char>,
        nodes: Seq<(String, TargetNode)>,
        up: Settings,
        k: int,
    )
        requires
            0 <= k <= nodes.len(),
            self.all_leaves(prefix, nodes.take(k), up) is Err,
        ensures
            self.all_leaves(prefix, nodes, up) == self.all_leaves(prefix, nodes.take(k), up),
        decreases nodes.len() - k,
    {
        if k < nodes.len() {
            assert(nodes.drop_last().take(k) == nodes.take(k));
            self.lemma_refused_early(prefix, nodes.drop_last(), up, k);
        } else {
            assert(nodes.take(k) == nodes);
        }
    }

    /// Walks the target tree into a flat list of probeable leaves,
    /// resolving inheritance along the way.
    pub fn flatten_targets(&self) -> (r: Result<Vec<FlatTarget>, TargetError>)
        requires
            self.wf(),
        ensures
            match r {
                Ok(v) => self.flattened() == Ok::<Seq<Leaf>, Refusal>(leaves_of(v@)),
                Err(e) => self.flattened() == Err::<Seq<Leaf>, Refusal>(e@),
            },
    {
        let mut out: Vec<FlatTarget> = Vec::new();
        let root = Inherited {
            probe: "icmp",
            port: None,
            lookup: None,
            alerts: None,
            agents: None,
            nomasterpoll: false,
        };
        let ghost nodes = self.targets@;
        let ghost set = root_settings();
        assert(root.settings() == set);
        let mut i: usize = 0;
        assert(nodes.take(0) =~= Seq::empty());
        assert(leaves_of(out@) =~= Seq::empty());
        let ghost none = Seq::<char>::empty();
        while i < self.targets.len()
            invariant
                self.wf(),
                nodes == self.targets@,
                none == Seq::<char>::empty(),
                i <= nodes.len(),
                set == root.settings(),
                set == root_settings(),
                self.all_leaves(none, nodes.take(i as int), set) == Ok::<Seq<Leaf>, Refusal>(
                    leaves_of(out@),
                ),
            decreases nodes.len() - i,
        {
            assert(nodes.take(i + 1).drop_last() == nodes.take(i as int));
            assert(nodes.take(i + 1).last() == nodes[i as int]);
            assert(none + nodes[i as int].0@ =~= nodes[i as int].0@);
            match self.flatten_node(
                self.targets[i].0.as_str(),
                &self.targets[i].1,
                &root,
                &mut out,
            ) {
                Err(e) => {
                    proof {
                        self.lemma_refused_early(none, nodes, set, i + 1);
                    }
                    return Err(e);
                },
                Ok(()) => {},
            }
            i = i + 1;
        }
        assert(nodes.take(i as int) == nodes);
        assert(leaves_of(out@).len() == out@.len());
        if out.len() == 0 {
            proof {
                reveal_strlit("");
                assert(""@ =~= Seq::<char>::empty());
            }
            return Err(refuse("", Fault::NoHosts, ""));
        }
        Ok(out)
    }
}

/// What the flattening promises of a leaf.
pub open spec fn sound(cfg: Config, l: Leaf) -> bool {
    &&& cfg.probes.has(l.probe)
    &&& !cfg.lacks_port(l.probe, l.port)
    &&& store::path_error(l.path) is None
    &&& !l.path.contains('@')
    &&& cfg.unknown_agent(l.agents) is None
    &&& l.nomasterpoll ==> l.agents.len() > 0
}

proof fn lemma_sound_below(cfg: Config, path: Seq<char>, node: TargetNode, up: Settings)
    requires
        cfg.leaves(path, node, up) is Ok,
    ensures
        forall|i: int|
            0 <= i < cfg.leaves(path, node, up)->Ok_0.len() ==> sound(
                cfg,
                #[trigger] cfg.leaves(path, node, up)->Ok_0[i],
            ),
    decreases node,
{
    let here = inherit(node, up);
    let prefix = path + seq!['/'];
    lemma_all_sound(cfg, prefix, node.children@, here);
    let below = cfg.all_leaves(prefix, node.children@, here)->Ok_0;
    let all = cfg.leaves(path, node, up)->Ok_0;
    assert forall|i: int| 0 <= i < all.len() implies sound(cfg, #[trigger] all[i]) by {
        let own = all.len() - below.len();
        if i >= own {
            assert(all[i] == below[i - own]);
        }
    }
}

proof fn lemma_all_sound(
    cfg: Config,
    prefix: Seq<char>,
    nodes: Seq<(String, TargetNode)>,
    up: Settings,
)
    requires
        cfg.all_leaves(prefix, nodes, up) is Ok,
    ensures
        forall|i: int|
            0 <= i < cfg.all_leaves(prefix, nodes, up)->Ok_0.len() ==> sound(
                cfg,
                #[trigger] cfg.all_leaves(prefix, nodes, up)->Ok_0[i],
            ),
    decreases nodes,
{
    if nodes.len() > 0 {
        lemma_all_sound(cfg, prefix, nodes.drop_last(), up);
        lemma_sound_below(cfg, prefix + nodes.last().0@, nodes.last().1, up);
        let a = cfg.all_leaves(prefix, nodes.drop_last(), up)->Ok_0;
        let b = cfg.leaves(prefix + nodes.last().0@, nodes.last().1, up)->Ok_0;
        let all = cfg.all_leaves(prefix, nodes, up)->Ok_0;
        assert forall|i: int| 0 <= i < all.len() implies sound(cfg, #[trigger] all[i]) by {
            if i < a.len() {
                assert(all[i] == a[i]);
            } else {
                assert(all[i] == b[i - a.len()]);
            }
        }
    }
}

/// Every leaf of an accepted tree can be measured: its probe is configured
/// and has the port it needs, its path can name a file and no agent series,
/// its agents are configured, and somebody measures it.
pub proof fn every_leaf_can_be_measured(cfg: Config, i: int)
    requires
        cfg.flattened() is Ok,
        0 <= i < cfg.flattened()->Ok_0.len(),
    ensures
        sound(cfg, cfg.flattened()->Ok_0[i]),
{
    lemma_all_sound(cfg, Seq::empty(), cfg.targets@, root_settings());
}

/// Each node after the first is a child of the one before it.
pub open spec fn descends(way: Seq<(String, TargetNode)>) -> bool {
    forall|k: int|
        0 <= k < way.len() - 1 ==> (#[trigger] way[k]).1.children@.contains(way[k + 1])
}

/// The names on the way, with slashes between them.
pub open spec fn path_of(way: Seq<(String, TargetNode)>) -> Seq<char> {
    text::joined(way.map_values(|n: (String, TargetNode)| n.0@), seq!['/'])
}

/// The nearest node on the way that sets something, the last node first, sets
/// this; where none does, there is nothing.
pub open spec fn nearest_sets<T>(
    way: Seq<(String, TargetNode)>,
    get: spec_fn(TargetNode) -> Option<T>,
    v: Option<T>,
) -> bool {
    match v {
        Some(_) => exists|k: int|
            {
                &&& 0 <= k < way.len()
                &&& get((#[trigger] way[k]).1) == v
                &&& forall|j: int| k < j < way.len() ==> get((#[trigger] way[j]).1) is None
            },
        None => forall|j: int| 0 <= j < way.len() ==> get((#[trigger] way[j]).1) is None,
    }
}

pub open spec fn its_probe() -> spec_fn(TargetNode) -> Option<Seq<char>> {
    |n: TargetNode| text_of(n.probe)
}

pub open spec fn its_port() -> spec_fn(TargetNode) -> Option<u16> {
    |n: TargetNode| n.port
}

pub open spec fn its_lookup() -> spec_fn(TargetNode) -> Option<Seq<char>> {
    |n: TargetNode| text_of(n.lookup)
}

pub open spec fn its_alerts() -> spec_fn(TargetNode) -> Option<Seq<Seq<char>>> {
    |n: TargetNode|
        match n.alerts {
            Some(l) => Some(text::texts(l@)),
            None => None,
        }
}

pub open spec fn its_agents() -> spec_fn(TargetNode) -> Option<Seq<Seq<char>>> {
    |n: TargetNode|
        match n.agents {
            Some(l) => Some(text::texts(l@)),
            None => None,
        }
}

pub open spec fn its_poll() -> spec_fn(TargetNode) -> Option<bool> {
    |n: TargetNode| n.nomasterpoll
}

/// The leaf is the last node of the way. Its path is that of the way, its host
/// its own; each of its settings is that of the nearest node on the way that
/// sets it, itself first, or the default where none does.
pub open spec fn leaf_at(l: Leaf, way: Seq<(String, TargetNode)>) -> bool {
    &&& way.len() > 0
    &&& l.path == path_of(way)
    &&& way.last().1.host matches Some(h) && l.host == h@
    &&& nearest_sets(way, its_probe(), Some(l.probe)) || (nearest_sets(way, its_probe(), None)
        && l.probe == "icmp"@)
    &&& nearest_sets(way, its_port(), l.port)
    &&& nearest_sets(way, its_lookup(), l.lookup)
    &&& nearest_sets(way, its_alerts(), Some(l.alerts)) || (nearest_sets(way, its_alerts(), None)
        && l.alerts.len() == 0)
    &&& nearest_sets(way, its_agents(), Some(l.agents)) || (nearest_sets(way, its_agents(), None)
        && l.agents.len() == 0)
    &&& nearest_sets(way, its_poll(), Some(l.nomasterpoll)) || (nearest_sets(way, its_poll(), None)
        && !l.nomasterpoll)
}

/// Every leaf stands at the end of a way down the tree, with its path, its host
/// and the settings of the nearest node that has them.
pub proof fn leaves_inherit_from_the_nearest(cfg: Config, i: int)
    requires
        cfg.flattened() is Ok,
        0 <= i < cfg.flattened()->Ok_0.len(),
    ensures
        exists|way: Seq<(String, TargetNode)>|
            {
                &&& #[trigger] leaf_at(cfg.flattened()->Ok_0[i], way)
                &&& cfg.targets@.contains(way[0])
                &&& descends(way)
            },
{
    let above = Seq::<(String, TargetNode)>::empty();
    lemma_ways_below(cfg, Seq::empty(), cfg.targets@, above, root_settings());
    let l = cfg.flattened()->Ok_0[i];
    assert(has_way(l, cfg.targets@, above));
    let way = choose|way: Seq<(String, TargetNode)>|
        #[trigger] leaf_at(l, way) && goes_on(cfg.targets@, above, way);
    assert(way[0] == way[above.len() as int]);
}

/// Every node with a host, however deep, is a leaf.
pub proof fn every_host_is_a_leaf(cfg: Config, way: Seq<(String, TargetNode)>)
    requires
        cfg.flattened() is Ok,
        way.len() > 0,
        cfg.targets@.contains(way[0]),
        descends(way),
        way.last().1.host is Some,
    ensures
        exists|i: int|
            0 <= i < cfg.flattened()->Ok_0.len() && leaf_at(
                #[trigger] cfg.flattened()->Ok_0[i],
                way,
            ),
{
    let above = Seq::<(String, TargetNode)>::empty();
    assert(way.take(0) =~= above);
    lemma_hosts_below(cfg, Seq::empty(), cfg.targets@, above, root_settings(), way);
}

/// The way goes on from the one above through one of the nodes.
spec fn goes_on(
    nodes: Seq<(String, TargetNode)>,
    above: Seq<(String, TargetNode)>,
    way: Seq<(String, TargetNode)>,
) -> bool {
    let n = above.len() as int;
    &&& way.len() > n
    &&& way.take(n) == above
    &&& nodes.contains(way[n])
    &&& forall|k: int|
        n <= k < way.len() - 1 ==> (#[trigger] way[k]).1.children@.contains(way[k + 1])
}

/// These are the settings that the way gives.
spec fn settled_by(s: Settings, way: Seq<(String, TargetNode)>) -> bool {
    &&& nearest_sets(way, its_probe(), Some(s.probe)) || (nearest_sets(way, its_probe(), None)
        && s.probe == "icmp"@)
    &&& nearest_sets(way, its_port(), s.port)
    &&& nearest_sets(way, its_lookup(), s.lookup)
    &&& nearest_sets(way, its_alerts(), s.alerts)
    &&& nearest_sets(way, its_agents(), s.agents)
    &&& nearest_sets(way, its_poll(), Some(s.nomasterpoll)) || (nearest_sets(way, its_poll(), None)
        && !s.nomasterpoll)
}

/// What stands before the names of the nodes below a way.
spec fn prefix_below(above: Seq<(String, TargetNode)>) -> Seq<char> {
    if above.len() == 0 {
        Seq::empty()
    } else {
        path_of(above) + seq!['/']
    }
}

proof fn lemma_nearest<T>(
    above: Seq<(String, TargetNode)>,
    n: (String, TargetNode),
    get: spec_fn(TargetNode) -> Option<T>,
    v: Option<T>,
)
    requires
        nearest_sets(above, get, v),
    ensures
        nearest_sets(
            above.push(n),
            get,
            match get(n.1) {
                Some(x) => Some(x),
                None => v,
            },
        ),
{
    let way = above.push(n);
    let m = above.len() as int;
    assert(way[m] == n);
    match get(n.1) {
        Some(x) => {
            assert(get(way[m].1) == Some(x));
        },
        None => {
            assert forall|j: int| 0 <= j < way.len() && j < m implies #[trigger] way[j]
                == above[j] by {}
            if v is Some {
                let k = choose|k: int|
                    {
                        &&& 0 <= k < above.len()
                        &&& get((#[trigger] above[k]).1) == v
                        &&& forall|j: int|
                            k < j < above.len() ==> get((#[trigger] above[j]).1) is None
                    };
                assert(get(way[k].1) == v);
            }
        },
    }
}

/// What is set here, or else what was set before.
pub open spec fn first_set<T>(here: Option<T>, before: Option<T>) -> Option<T> {
    match here {
        Some(x) => Some(x),
        None => before,
    }
}

/// What a node sets goes before what it inherits, and what it does not set it
/// inherits unchanged, each setting for itself.
pub proof fn own_settings_come_first(n: TargetNode, up: Settings)
    ensures
        Some(inherit(n, up).probe) == first_set(text_of(n.probe), Some(up.probe)),
        inherit(n, up).port == first_set(n.port, up.port),
        inherit(n, up).lookup == first_set(text_of(n.lookup), up.lookup),
        inherit(n, up).alerts == first_set(its_alerts()(n), up.alerts),
        inherit(n, up).agents == first_set(its_agents()(n), up.agents),
        Some(inherit(n, up).nomasterpoll) == first_set(n.nomasterpoll, Some(up.nomasterpoll)),
{
}

/// A node's settings are those of the way down to it.
proof fn lemma_settled(above: Seq<(String, TargetNode)>, n: (String, TargetNode), up: Settings)
    requires
        settled_by(up, above),
    ensures
        settled_by(inherit(n.1, up), above.push(n)),
{
    own_settings_come_first(n.1, up);
    let probe = if nearest_sets(above, its_probe(), Some(up.probe)) {
        Some(up.probe)
    } else {
        None
    };
    lemma_nearest(above, n, its_probe(), probe);
    lemma_nearest(above, n, its_port(), up.port);
    lemma_nearest(above, n, its_lookup(), up.lookup);
    lemma_nearest(above, n, its_alerts(), up.alerts);
    lemma_nearest(above, n, its_agents(), up.agents);
    let poll = if nearest_sets(above, its_poll(), Some(up.nomasterpoll)) {
        Some(up.nomasterpoll)
    } else {
        None
    };
    lemma_nearest(above, n, its_poll(), poll);
}

proof fn lemma_path_of(above: Seq<(String, TargetNode)>, n: (String, TargetNode))
    ensures
        path_of(above.push(n)) == prefix_below(above) + n.0@,
{
    let f = |n: (String, TargetNode)| n.0@;
    let names = above.map_values(f);
    assert(above.push(n).map_values(f) =~= names.push(n.0@));
    assert(names.push(n.0@).drop_last() =~= names);
    if above.len() == 0 {
        assert(Seq::<char>::empty() + n.0@ =~= n.0@);
    }
}

/// The leaf stands at the end of a way that goes on so.
spec fn has_way(
    l: Leaf,
    nodes: Seq<(String, TargetNode)>,
    above: Seq<(String, TargetNode)>,
) -> bool {
    exists|way: Seq<(String, TargetNode)>|
        #[trigger] leaf_at(l, way) && goes_on(nodes, above, way)
}

proof fn lemma_way_to(
    cfg: Config,
    above: Seq<(String, TargetNode)>,
    n: (String, TargetNode),
    up: Settings,
)
    requires
        settled_by(up, above),
        cfg.leaves(prefix_below(above) + n.0@, n.1, up) is Ok,
    ensures
        forall|i: int|
            0 <= i < cfg.leaves(prefix_below(above) + n.0@, n.1, up)->Ok_0.len() ==> has_way(
                #[trigger] cfg.leaves(prefix_below(above) + n.0@, n.1, up)->Ok_0[i],
                seq![n],
                above,
            ),
    decreases n.1,
{
    let path = prefix_below(above) + n.0@;
    let here = inherit(n.1, up);
    let down = above.push(n);
    lemma_settled(above, n, up);
    lemma_path_of(above, n);
    assert(prefix_below(down) == path + seq!['/']);
    lemma_ways_below(cfg, path + seq!['/'], n.1.children@, down, here);
    let below = cfg.all_leaves(path + seq!['/'], n.1.children@, here)->Ok_0;
    let own = own_leaf(path, n.1, here);
    let all = cfg.leaves(path, n.1, up)->Ok_0;
    assert(all == own + below);
    assert forall|i: int| 0 <= i < all.len() implies has_way(
        #[trigger] all[i],
        seq![n],
        above,
    ) by {
        if i < own.len() {
            assert(all[i] == own[i]);
            assert(down.last() == n);
            assert(leaf_at(all[i], down));
            assert(down.take(above.len() as int) =~= above);
            assert(seq![n][0] == n);
            assert(seq![n].contains(down[above.len() as int]));
            assert(goes_on(seq![n], above, down));
        } else {
            let l = below[i - own.len()];
            assert(all[i] == l);
            assert(has_way(l, n.1.children@, down));
            let way = choose|way: Seq<(String, TargetNode)>|
                #[trigger] leaf_at(l, way) && goes_on(n.1.children@, down, way);
            let m = above.len() as int;
            assert(way.take(m + 1)[m] == down[m]);
            assert(way[m] == n);
            assert(way.take(m) =~= way.take(m + 1).take(m));
            assert(down.take(m) =~= above);
            assert(seq![n][0] == n);
            assert(seq![n].contains(way[m]));
            assert forall|k: int| m <= k < way.len() - 1 implies (
            #[trigger] way[k]).1.children@.contains(way[k + 1]) by {}
            assert(goes_on(seq![n], above, way));
        }
    }
}

proof fn lemma_ways_below(
    cfg: Config,
    prefix: Seq<char>,
    nodes: Seq<(String, TargetNode)>,
    above: Seq<(String, TargetNode)>,
    up: Settings,
)
    requires
        settled_by(up, above),
        prefix == prefix_below(above),
        cfg.all_leaves(prefix, nodes, up) is Ok,
    ensures
        forall|i: int|
            0 <= i < cfg.all_leaves(prefix, nodes, up)->Ok_0.len() ==> has_way(
                #[trigger] cfg.all_leaves(prefix, nodes, up)->Ok_0[i],
                nodes,
                above,
            ),
    decreases nodes,
{
    if nodes.len() > 0 {
        let rest = nodes.drop_last();
        let n = nodes.last();
        lemma_ways_below(cfg, prefix, rest, above, up);
        lemma_way_to(cfg, above, n, up);
        let a = cfg.all_leaves(prefix, rest, up)->Ok_0;
        let b = cfg.leaves(prefix + n.0@, n.1, up)->Ok_0;
        let all = cfg.all_leaves(prefix, nodes, up)->Ok_0;
        assert forall|i: int| 0 <= i < all.len() implies has_way(
            #[trigger] all[i],
            nodes,
            above,
        ) by {
            if i < a.len() {
                assert(all[i] == a[i]);
                assert(has_way(a[i], rest, above));
                let way = choose|way: Seq<(String, TargetNode)>|
                    #[trigger] leaf_at(a[i], way) && goes_on(rest, above, way);
                let j = choose|j: int| 0 <= j < rest.len() && rest[j] == way[above.len() as int];
                assert(nodes[j] == way[above.len() as int]);
                assert(goes_on(nodes, above, way));
            } else {
                let l = b[i - a.len()];
                assert(all[i] == l);
                assert(has_way(l, seq![n], above));
                let way = choose|way: Seq<(String, TargetNode)>|
                    #[trigger] leaf_at(l, way) && goes_on(seq![n], above, way);
                let j = choose|j: int|
                    0 <= j < seq![n].len() && seq![n][j] == way[above.len() as int];
                assert(nodes[nodes.len() - 1] == way[above.len() as int]);
                assert(goes_on(nodes, above, way));
            }
        }
    }
}

proof fn lemma_host_at(
    cfg: Config,
    above: Seq<(String, TargetNode)>,
    n: (String, TargetNode),
    up: Settings,
    way: Seq<(String, TargetNode)>,
)
    requires
        settled_by(up, above),
        cfg.leaves(prefix_below(above) + n.0@, n.1, up) is Ok,
        goes_on(seq![n], above, way),
        way.last().1.host is Some,
    ensures
        exists|i: int|
            0 <= i < cfg.leaves(prefix_below(above) + n.0@, n.1, up)->Ok_0.len() && leaf_at(
                #[trigger] cfg.leaves(prefix_below(above) + n.0@, n.1, up)->Ok_0[i],
                way,
            ),
    decreases n.1,
{
    let path = prefix_below(above) + n.0@;
    let here = inherit(n.1, up);
    let down = above.push(n);
    let m = above.len() as int;
    lemma_settled(above, n, up);
    lemma_path_of(above, n);
    let below = cfg.all_leaves(path + seq!['/'], n.1.children@, here)->Ok_0;
    let own = own_leaf(path, n.1, here);
    let all = cfg.leaves(path, n.1, up)->Ok_0;
    assert(all == own + below);
    let z = choose|z: int| 0 <= z < seq![n].len() && seq![n][z] == way[m];
    assert(way[m] == n);
    if way.len() == m + 1 {
        assert(way =~= way.take(m).push(way[m]));
        assert(way == down);
        assert(down.last() == n);
        assert(all[0] == own[0]);
        assert(leaf_at(all[0], way));
    } else {
        assert(way.take(m + 1) =~= way.take(m).push(way[m]));
        assert(goes_on(n.1.children@, down, way)) by {
            assert(way[m].1.children@.contains(way[m + 1]));
        }
        lemma_hosts_below(cfg, path + seq!['/'], n.1.children@, down, here, way);
        let i = choose|i: int| 0 <= i < below.len() && leaf_at(#[trigger] below[i], way);
        assert(all[own.len() + i] == below[i]);
    }
}

proof fn lemma_hosts_below(
    cfg: Config,
    prefix: Seq<char>,
    nodes: Seq<(String, TargetNode)>,
    above: Seq<(String, TargetNode)>,
    up: Settings,
    way: Seq<(String, TargetNode)>,
)
    requires
        settled_by(up, above),
        prefix == prefix_below(above),
        cfg.all_leaves(prefix, nodes, up) is Ok,
        goes_on(nodes, above, way),
        way.last().1.host is Some,
    ensures
        exists|i: int|
            0 <= i < cfg.all_leaves(prefix, nodes, up)->Ok_0.len() && leaf_at(
                #[trigger] cfg.all_leaves(prefix, nodes, up)->Ok_0[i],
                way,
            ),
    decreases nodes,
{
    let m = above.len() as int;
    let j = choose|j: int| 0 <= j < nodes.len() && nodes[j] == way[m];
    let rest = nodes.drop_last();
    let n = nodes.last();
    let a = cfg.all_leaves(prefix, rest, up)->Ok_0;
    let b = cfg.leaves(prefix + n.0@, n.1, up)->Ok_0;
    let all = cfg.all_leaves(prefix, nodes, up)->Ok_0;
    assert(all == a + b);
    if j < rest.len() {
        assert(rest[j] == way[m]);
        assert(goes_on(rest, above, way));
        lemma_hosts_below(cfg, prefix, rest, above, up, way);
        let i = choose|i: int| 0 <= i < a.len() && leaf_at(#[trigger] a[i], way);
        assert(all[i] == a[i]);
    } else {
        assert(seq![n][0] == way[m]);
        assert(goes_on(seq![n], above, way));
        lemma_host_at(cfg, above, n, up, way);
        let i = choose|i: int| 0 <= i < b.len() && leaf_at(#[trigger] b[i], way);
        assert(all[a.len() + i] == b[i]);
    }
}

impl Refusal {
    /// What is said of a refused section or target.
    pub open spec fn text(self) -> Seq<char> {
        let head = "target "@ + self.target;
        match self.fault {
            Fault::UnknownProbe => head + ": unknown probe "@ + text::debug_form(self.name),
            Fault::NeedsPort => head + ": tcp probe "@ + text::debug_form(self.name)
                + " needs a port (on the probe or the target)"@,
            Fault::BadPath(e) => store::path_text(self.target, e),
            Fault::Reserved => head + ": '@' is reserved for agent series"@,
            Fault::UnknownAgent => head + ": unknown agent "@ + text::debug_form(self.name)
                + " (no [agents."@ + self.name + "] section)"@,
            Fault::NobodyMeasures => head
                + ": nomasterpoll but no agents — nobody would measure it"@,
            Fault::EmptySection => head + ": section has neither a host nor children"@,
            Fault::NoHosts => "target tree contains no hosts"@,
        }
    }
}

impl TargetError {
    pub fn message(&self) -> (r: String)
        ensures
            r@ == self@.text(),
    {
        let mut m = "target ".to_owned();
        m.append(self.target.as_str());
        let name = quoted(self.name.as_str());
        match self.fault {
            Fault::UnknownProbe => {
                m.append(": unknown probe ");
                m.append(name.as_str());
            },
            Fault::NeedsPort => {
                m.append(": tcp probe ");
                m.append(name.as_str());
                m.append(" needs a port (on the probe or the target)");
            },
            Fault::BadPath(e) => {
                m = path_message(self.target.as_str(), e);
            },
            Fault::Reserved => {
                m.append(": '@' is reserved for agent series");
            },
            Fault::UnknownAgent => {
                m.append(": unknown agent ");
                m.append(name.as_str());
                m.append(" (no [agents.");
                m.append(self.name.as_str());
                m.append("] section)");
            },
            Fault::NobodyMeasures => {
                m.append(": nomasterpoll but no agents — nobody would measure it");
            },
            Fault::EmptySection => {
                m.append(": section has neither a host nor children");
            },
            Fault::NoHosts => {
                m = "target tree contains no hosts".to_owned();
            },
        }
        m
    }
}

/// Why a configuration is refused.
#[derive(Debug)]
pub enum ConfigError {
    /// database.pings must be >= 3.
    Pings(u32),
    /// database.step must be > 0.
    Step,
    NoTargets,
    /// database.rra table must have at least one archive.
    NoArchives,
    /// steps must be >= 1 and rows >= 2.
    Archive(usize),
    /// xff must be in [0, 1).
    Xff(usize),
    Probe { name: String, fault: ProbeError },
    Alerts(AlerterError),
    Status(StatusError),
    Target(TargetError),
}

/// Why a configuration is refused.
#[verifier::ext_equal]
pub enum ConfigRefusal {
    Pings(u32),
    Step,
    NoTargets,
    NoArchives,
    Archive(int),
    Xff(int),
    Probe(Seq<char>, ProbeError),
    Alerts(AlerterRefusal),
    Status(StatusRefusal),
    Target(Refusal),
}

impl View for ConfigError {
    type V = ConfigRefusal;

    open spec fn view(&self) -> ConfigRefusal {
        match self {
            ConfigError::Pings(n) => ConfigRefusal::Pings(*n),
            ConfigError::Step => ConfigRefusal::Step,
            ConfigError::NoTargets => ConfigRefusal::NoTargets,
            ConfigError::NoArchives => ConfigRefusal::NoArchives,
            ConfigError::Archive(i) => ConfigRefusal::Archive(*i as int),
            ConfigError::Xff(i) => ConfigRefusal::Xff(*i as int),
            ConfigError::Probe { name, fault } => ConfigRefusal::Probe(name@, *fault),
            ConfigError::Alerts(e) => ConfigRefusal::Alerts(e@),
            ConfigError::Status(e) => ConfigRefusal::Status(e@),
            ConfigError::Target(e) => ConfigRefusal::Target(e@),
        }
    }
}

/// What is said of a refused configuration, the causes last.
pub open spec fn config_texts(e: ConfigRefusal, cfg: Config) -> Seq<Seq<char>> {
    match e {
        ConfigRefusal::Pings(n) => seq![
            "database.pings must be >= 3 (got "@ + text::decimal(n as nat) + ")"@,
        ],
        ConfigRefusal::Step => seq!["database.step must be > 0"@],
        ConfigRefusal::NoTargets => seq!["no targets configured"@],
        ConfigRefusal::NoArchives => seq!["database.rra table must have at least one archive"@],
        ConfigRefusal::Archive(i) => seq![
            "database.rra["@ + text::decimal(i as nat)
                + "]: steps must be >= 1 and rows >= 2"@,
        ],
        ConfigRefusal::Xff(i) => seq![
            "database.rra["@ + text::decimal(i as nat) + "]: xff must be in [0, 1)"@,
        ],
        ConfigRefusal::Probe(name, fault) => {
            let head = "probe "@ + text::debug_form(name);
            match cfg.probes.lookup(name) {
                Some(p) => seq![head, probe::probe_text(fault, p)],
                None => seq![head],
            }
        },
        ConfigRefusal::Alerts(a) => alert::alerter_texts(a, cfg),
        ConfigRefusal::Status(s) => status::status_texts(s, cfg),
        ConfigRefusal::Target(t) => seq![t.text()],
    }
}

impl ConfigError {
    /// What to say of the configuration, the causes last.
    pub fn messages(&self, cfg: &Config) -> (r: Vec<String>)
        requires
            cfg.wf(),
        ensures
            text::texts(r@) == config_texts(self@, *cfg),
    {
        match self {
            ConfigError::Pings(n) => alone(
                said("database.pings must be >= 3 (got ", decimal_u64(*n as u64).as_str(), ")"),
            ),
            ConfigError::Step => alone("database.step must be > 0".to_owned()),
            ConfigError::NoTargets => alone("no targets configured".to_owned()),
            ConfigError::NoArchives => alone(
                "database.rra table must have at least one archive".to_owned(),
            ),
            ConfigError::Archive(i) => alone(
                said(
                    "database.rra[",
                    decimal_u64(*i as u64).as_str(),
                    "]: steps must be >= 1 and rows >= 2",
                ),
            ),
            ConfigError::Xff(i) => alone(
                said("database.rra[", decimal_u64(*i as u64).as_str(), "]: xff must be in [0, 1)"),
            ),
            ConfigError::Probe { name, fault } => {
                let mut head = "probe ".to_owned();
                head.append(quoted(name.as_str()).as_str());
                match cfg.probes.get(name.as_str()) {
                    Some(p) => {
                        let r = atop(head, alone(fault.message(p)));
                        assert(text::texts(r@) =~= config_texts(self@, *cfg));
                        r
                    },
                    None => alone(head),
                }
            },
            ConfigError::Alerts(a) => a.messages(cfg),
            ConfigError::Status(s) => s.messages(cfg),
            ConfigError::Target(t) => alone(t.message()),
        }
    }
}

/// What is wrong with the archive at a place.
pub open spec fn archive_fault(r: RraSpec, i: int) -> Option<ConfigRefusal> {
    let zero = Double { bits: 0 };
    let one = Double { bits: ONE_BITS };
    if r.steps == 0 || r.rows < 2 {
        Some(ConfigRefusal::Archive(i))
    } else if !(zero.less(r.xff) || zero.equals(r.xff)) || !r.xff.less(one) {
        Some(ConfigRefusal::Xff(i))
    } else {
        None
    }
}

/// What is wrong with the first archive that is refused.
pub open spec fn bad_archive(rras: Seq<RraSpec>) -> Option<ConfigRefusal>
    decreases rras.len(),
{
    if rras.len() == 0 {
        None
    } else {
        match bad_archive(rras.drop_last()) {
            Some(e) => Some(e),
            None => archive_fault(rras.last(), rras.len() - 1),
        }
    }
}

/// What is wrong with the first probe that is refused.
pub open spec fn bad_probe(probes: Seq<(String, ProbeConfig)>) -> Option<ConfigRefusal>
    decreases probes.len(),
{
    if probes.len() == 0 {
        None
    } else {
        match bad_probe(probes.drop_last()) {
            Some(e) => Some(e),
            None => match probe::probe_error(probes.last().1) {
                Some(fault) => Some(ConfigRefusal::Probe(probes.last().0@, fault)),
                None => None,
            },
        }
    }
}

/// What is said of the first probe that is refused.
pub open spec fn bad_probe_text(probes: Seq<(String, ProbeConfig)>) -> Option<Seq<char>>
    decreases probes.len(),
{
    if probes.len() == 0 {
        None
    } else {
        match bad_probe_text(probes.drop_last()) {
            Some(m) => Some(m),
            None => match probe::probe_error(probes.last().1) {
                Some(fault) => Some(probe::probe_text(fault, probes.last().1)),
                None => None,
            },
        }
    }
}

/// What to say of the first probe that is refused, if one is.
pub fn probes_message(probes: &NameMap<ProbeConfig>) -> (r: Option<String>)
    ensures
        match r {
            Some(m) => bad_probe_text(probes.entries@) == Some(m@),
            None => bad_probe_text(probes.entries@) is None,
        },
{
    let ghost all = probes.entries@;
    let mut found: Option<String> = None;
    let mut i: usize = 0;
    assert(all.take(0) =~= Seq::empty());
    while i < probes.entries.len()
        invariant
            all == probes.entries@,
            i <= all.len(),
            match found {
                Some(m) => bad_probe_text(all.take(i as int)) == Some(m@),
                None => bad_probe_text(all.take(i as int)) is None,
            },
        decreases all.len() - i,
    {
        assert(all.take(i + 1).drop_last() == all.take(i as int));
        assert(all.take(i + 1).last() == all[i as int]);
        if found.is_none() {
            match ProbeInstance::from_config(&probes.entries[i].1) {
                Ok(_) => {},
                Err(fault) => {
                    found = Some(fault.message(&probes.entries[i].1));
                },
            }
        }
        i = i + 1;
    }
    assert(all.take(i as int) == all);
    found
}

proof fn lemma_bad_archive(rras: Seq<RraSpec>, n: int)
    requires
        0 <= n <= rras.len(),
        bad_archive(rras.take(n)) is Some,
    ensures
        bad_archive(rras) == bad_archive(rras.take(n)),
    decreases rras.len(),
{
    if n == rras.len() {
        assert(rras.take(n) == rras);
    } else {
        assert(rras.drop_last().take(n) == rras.take(n));
        lemma_bad_archive(rras.drop_last(), n);
    }
}

proof fn lemma_bad_probe(probes: Seq<(String, ProbeConfig)>, n: int)
    requires
        0 <= n <= probes.len(),
        bad_probe(probes.take(n)) is Some,
    ensures
        bad_probe(probes) == bad_probe(probes.take(n)),
    decreases probes.len(),
{
    if n == probes.len() {
        assert(probes.take(n) == probes);
    } else {
        assert(probes.drop_last().take(n) == probes.take(n));
        lemma_bad_probe(probes.drop_last(), n);
    }
}

/// Why a configuration is refused, if it is.
pub open spec fn config_refusal(cfg: Config) -> Option<ConfigRefusal> {
    if cfg.database.pings < 3 {
        Some(ConfigRefusal::Pings(cfg.database.pings))
    } else if cfg.database.step == 0 {
        Some(ConfigRefusal::Step)
    } else if cfg.targets@.len() == 0 {
        Some(ConfigRefusal::NoTargets)
    } else if cfg.database.rras@.len() == 0 {
        Some(ConfigRefusal::NoArchives)
    } else if bad_archive(cfg.database.rras@) is Some {
        bad_archive(cfg.database.rras@)
    } else if bad_probe(cfg.probes.entries@) is Some {
        bad_probe(cfg.probes.entries@)
    } else if alert::alerter_refusal(cfg) is Some {
        Some(ConfigRefusal::Alerts(alert::alerter_refusal(cfg)->0))
    } else if status::status_refusal(cfg) is Some {
        Some(ConfigRefusal::Status(status::status_refusal(cfg)->0))
    } else {
        match cfg.flattened() {
            Err(e) => Some(ConfigRefusal::Target(e)),
            Ok(_) => None,
        }
    }
}

/// `after` is `before` with a stock probe named "icmp" where it defines none.
pub open spec fn defaulted(before: Config, after: Config) -> bool {
    &&& after == (Config { probes: after.probes, ..before })
    &&& after.wf()
    &&& if before.probes.has("icmp"@) {
        after.probes == before.probes
    } else {
        &&& after.probes.lookup("icmp"@) == Some(ProbeConfig::Icmp(stock_icmp()))
        &&& forall|name: Seq<char>|
            name != "icmp"@ ==> #[trigger] after.probes.lookup(name) == before.probes.lookup(name)
    }
}

impl Config {
    fn check_archives(&self) -> (r: Result<(), ConfigError>)
        ensures
            match r {
                Ok(()) => bad_archive(self.database.rras@) is None,
                Err(e) => bad_archive(self.database.rras@) == Some(e@),
            },
    {
        let zero = Double { bits: 0 };
        let one = Double { bits: ONE_BITS };
        let ghost rras = self.database.rras@;
        let mut i: usize = 0;
        assert(rras.take(0) =~= Seq::empty());
        while i < self.database.rras.len()
            invariant
                zero == (Double { bits: 0 }),
                one == (Double { bits: ONE_BITS }),
                rras == self.database.rras@,
                i <= rras.len(),
                bad_archive(rras.take(i as int)) is None,
            decreases rras.len() - i,
        {
            assert(rras.take(i + 1).drop_last() == rras.take(i as int));
            assert(rras.take(i + 1).last() == rras[i as int]);
            let r = &self.database.rras[i];
            if r.steps == 0 || r.rows < 2 {
                proof {
                    lemma_bad_archive(rras, i + 1);
                }
                return Err(ConfigError::Archive(i));
            }
            if !(zero.num_lt(r.xff) || zero.num_eq(r.xff)) || !r.xff.num_lt(one) {
                proof {
                    lemma_bad_archive(rras, i + 1);
                }
                return Err(ConfigError::Xff(i));
            }
            i = i + 1;
        }
        assert(rras.take(i as int) == rras);
        Ok(())
    }

    /// Probe configs must actually build (bad qtype/method/url fail here).
    fn check_probes(&self) -> (r: Result<(), ConfigError>)
        ensures
            match r {
                Ok(()) => bad_probe(self.probes.entries@) is None,
                Err(e) => bad_probe(self.probes.entries@) == Some(e@),
            },
    {
        let ghost probes = self.probes.entries@;
        let mut i: usize = 0;
        assert(probes.take(0) =~= Seq::empty());
        while i < self.probes.entries.len()
            invariant
                probes == self.probes.entries@,
                i <= probes.len(),
                bad_probe(probes.take(i as int)) is None,
            decreases probes.len() - i,
        {
            assert(probes.take(i + 1).drop_last() == probes.take(i as int));
            assert(probes.take(i + 1).last() == probes[i as int]);
            let (name, pc) = &self.probes.entries[i];
            match ProbeInstance::from_config(pc) {
                Ok(_) => {},
                Err(fault) => {
                    proof {
                        lemma_bad_probe(probes, i + 1);
                    }
                    return Err(ConfigError::Probe { name: name.clone(), fault });
                },
            }
            i = i + 1;
        }
        assert(probes.take(i as int) == probes);
        Ok(())
    }

    /// Checks what a configuration says against itself.
    pub fn validate(&self) -> (r: Result<(), ConfigError>)
        requires
            self.wf(),
        ensures
            match r {
                Ok(()) => config_refusal(*self) is None,
                Err(e) => config_refusal(*self) == Some(e@),
            },
    {
        if self.database.pings < 3 {
            return Err(ConfigError::Pings(self.database.pings));
        }
        if self.database.step == 0 {
            return Err(ConfigError::Step);
        }
        if self.targets.len() == 0 {
            return Err(ConfigError::NoTargets);
        }
        if self.database.rras.len() == 0 {
            return Err(ConfigError::NoArchives);
        }
        match self.check_archives() {
            Err(e) => {
                return Err(e);
            },
            Ok(()) => {},
        }
        match self.check_probes() {
            Err(e) => {
                return Err(e);
            },
            Ok(()) => {},
        }
        // alert patterns, notify specs, references and smtp presence
        match Alerter::new(self) {
            Err(e) => {
                return Err(ConfigError::Alerts(e));
            },
            Ok(_) => {},
        }
        // status components: patterns parse, targets exist
        match status::validate(self) {
            Err(e) => {
                return Err(ConfigError::Status(e));
            },
            Ok(()) => {},
        }
        // checks probe references and leaf shapes
        match self.flatten_targets() {
            Err(e) => Err(ConfigError::Target(e)),
            Ok(_) => Ok(()),
        }
    }

    /// Provides a stock probe named "icmp" whenever none is defined: targets
    /// fall back to it, and defining other probes must not break them.
    fn add_stock_probe(&mut self)
        requires
            old(self).wf(),
        ensures
            defaulted(*old(self), *final(self)),
    {
        if !self.probes.contains("icmp") {
            let stock = ProbeConfig::Icmp(IcmpConfig::default());
            self.probes.insert("icmp".to_owned(), stock);
        }
    }

    /// The configuration that a file's tables make: with the stock probe, and
    /// checked.
    pub fn from_parsed(parsed: Config) -> (r: Result<Config, ConfigError>)
        requires
            parsed.wf(),
        ensures
            match r {
                Ok(cfg) => defaulted(parsed, cfg) && config_refusal(cfg) is None,
                Err(e) => exists|cfg: Config| #[trigger]
                    defaulted(parsed, cfg) && config_refusal(cfg) == Some(e@),
            },
    {
        let mut cfg = parsed;
        cfg.add_stock_probe();
        match cfg.validate() {
            Err(e) => {
                assert(defaulted(parsed, cfg));
                Err(e)
            },
            Ok(()) => Ok(cfg),
        }
    }
}

/// What an accepted configuration says can be set up: its targets, its probes,
/// its alerts and its status page.
pub proof fn an_accepted_configuration_can_be_set_up(cfg: Config, name: Seq<char>)
    requires
        cfg.wf(),
        config_refusal(cfg) is None,
    ensures
        cfg.flattened() is Ok,
        cfg.flattened()->Ok_0.len() > 0,
        cfg.probes.lookup(name) matches Some(p) ==> probe::probe_error(p) is None,
        alert::alerter_refusal(cfg) is None,
        status::status_refusal(cfg) is None,
{
    if cfg.probes.has(name) {
        lemma_no_bad_probe(cfg.probes.entries@, cfg.probes.place(name));
    }
}

proof fn lemma_no_bad_probe(probes: Seq<(String, ProbeConfig)>, i: int)
    requires
        bad_probe(probes) is None,
        0 <= i < probes.len(),
    ensures
        probe::probe_error(probes[i].1) is None,
    decreases probes.len(),
{
    if i < probes.len() - 1 {
        lemma_no_bad_probe(probes.drop_last(), i);
    }
}

/// A file that defines no probe named "icmp" still has one, the stock one, and
/// keeps the probes that it defines.
pub proof fn icmp_is_always_there(parsed: Config, cfg: Config, name: Seq<char>)
    requires
        defaulted(parsed, cfg),
    ensures
        cfg.probes.has("icmp"@),
        parsed.probes.has(name) ==> cfg.probes.lookup(name) == parsed.probes.lookup(name),
{
    assert(cfg.probes.lookup("icmp"@) is Some ==> cfg.probes.has("icmp"@));
    if name != "icmp"@ {
        assert(cfg.probes.lookup(name) == parsed.probes.lookup(name));
    }
}

/// An archive consolidates at least one step and holds at least two rows; the
/// share that it may lack is not below 0 and is below 1.
pub open spec fn archive_is_sound(r: RraSpec) -> bool {
    &&& r.steps >= 1
    &&& r.rows >= 2
    &&& !r.xff.nan()
    &&& 0 <= r.xff.value() < (Double { bits: ONE_BITS }).value()
}

/// Archives are refused by the first that is not sound.
pub proof fn the_first_bad_archive_is_refused(rras: Seq<RraSpec>)
    ensures
        match bad_archive(rras) {
            None => forall|i: int| 0 <= i < rras.len() ==> archive_is_sound(#[trigger] rras[i]),
            Some(ConfigRefusal::Archive(i)) => {
                &&& 0 <= i < rras.len()
                &&& rras[i].steps == 0 || rras[i].rows < 2
                &&& forall|j: int| 0 <= j < i ==> archive_is_sound(#[trigger] rras[j])
            },
            Some(ConfigRefusal::Xff(i)) => {
                &&& 0 <= i < rras.len()
                &&& rras[i].steps >= 1 && rras[i].rows >= 2 && !archive_is_sound(rras[i])
                &&& forall|j: int| 0 <= j < i ==> archive_is_sound(#[trigger] rras[j])
            },
            Some(_) => false,
        },
    decreases rras.len(),
{
    double::lemma_zero();
    if rras.len() > 0 {
        let n = rras.len() - 1;
        let rest = rras.drop_last();
        the_first_bad_archive_is_refused(rest);
        assert(forall|j: int| 0 <= j < n ==> #[trigger] rras[j] == rest[j]);
        assert(rras[n] == rras.last());
        assert(forall|j: int|
            0 <= j < n && archive_is_sound(rest[j]) ==> archive_is_sound(#[trigger] rras[j]));
    }
}

/// Probes are refused by the first that cannot be built, with what is wrong
/// with it.
pub proof fn the_first_bad_probe_is_refused(probes: Seq<(String, ProbeConfig)>)
    ensures
        match bad_probe(probes) {
            None => forall|i: int|
                0 <= i < probes.len() ==> probe::probe_error((#[trigger] probes[i]).1) is None,
            Some(ConfigRefusal::Probe(name, fault)) => exists|i: int|
                {
                    &&& 0 <= i < probes.len()
                    &&& (#[trigger] probes[i]).0@ == name
                    &&& probe::probe_error(probes[i].1) == Some(fault)
                    &&& forall|j: int|
                        0 <= j < i ==> probe::probe_error((#[trigger] probes[j]).1) is None
                },
            Some(_) => false,
        },
    decreases probes.len(),
{
    if probes.len() > 0 {
        let n = probes.len() - 1;
        let rest = probes.drop_last();
        the_first_bad_probe_is_refused(rest);
        assert(forall|j: int| 0 <= j < n ==> #[trigger] probes[j] == rest[j]);
        assert(probes[n] == probes.last());
        match bad_probe(rest) {
            Some(ConfigRefusal::Probe(name, fault)) => {
                let i = choose|i: int|
                    {
                        &&& 0 <= i < rest.len()
                        &&& (#[trigger] rest[i]).0@ == name
                        &&& probe::probe_error(rest[i].1) == Some(fault)
                        &&& forall|j: int|
                            0 <= j < i ==> probe::probe_error((#[trigger] rest[j]).1) is None
                    };
                assert(probes[i] == rest[i]);
            },
            _ => {},
        }
    }
}

/// A configuration is accepted where there are at least three pings a round, a
/// step, a target, sound archives and probes that can be built, and where its
/// alerts, its components and its tree are accepted; and nowhere else.
pub proof fn configurations_are_accepted_by_all_their_parts(cfg: Config)
    ensures
        config_refusal(cfg) is None <==> {
            &&& cfg.database.pings >= 3
            &&& cfg.database.step > 0
            &&& cfg.targets@.len() > 0
            &&& cfg.database.rras@.len() > 0
            &&& forall|i: int|
                0 <= i < cfg.database.rras@.len() ==> archive_is_sound(
                    #[trigger] cfg.database.rras@[i],
                )
            &&& forall|i: int|
                0 <= i < cfg.probes.entries@.len() ==> probe::probe_error(
                    (#[trigger] cfg.probes.entries@[i]).1,
                ) is None
            &&& alert::alerter_refusal(cfg) is None
            &&& status::status_refusal(cfg) is None
            &&& cfg.flattened() is Ok
        },
{
    the_first_bad_archive_is_refused(cfg.database.rras@);
    the_first_bad_probe_is_refused(cfg.probes.entries@);
    match bad_archive(cfg.database.rras@) {
        Some(ConfigRefusal::Archive(i)) => {
            assert(!archive_is_sound(cfg.database.rras@[i]));
        },
        Some(ConfigRefusal::Xff(i)) => {
            assert(!archive_is_sound(cfg.database.rras@[i]));
        },
        _ => {},
    }
}

/// A refusal names what is really wrong.
pub proof fn refusals_name_what_is_wrong(cfg: Config)
    ensures
        match config_refusal(cfg) {
            Some(ConfigRefusal::Pings(n)) => n == cfg.database.pings && n < 3,
            Some(ConfigRefusal::Step) => cfg.database.step == 0,
            Some(ConfigRefusal::NoTargets) => cfg.targets@.len() == 0,
            Some(ConfigRefusal::NoArchives) => cfg.database.rras@.len() == 0,
            Some(ConfigRefusal::Alerts(e)) => alert::alerter_refusal(cfg) == Some(e),
            Some(ConfigRefusal::Status(e)) => status::status_refusal(cfg) == Some(e),
            Some(ConfigRefusal::Target(e)) => cfg.flattened() == Err::<Seq<Leaf>, Refusal>(e),
            _ => true,
        },
{
    the_first_bad_archive_is_refused(cfg.database.rras@);
    the_first_bad_probe_is_refused(cfg.probes.entries@);
}

/// The first of the agents that nobody configured is the unknown one.
pub proof fn the_first_unknown_agent_is_named(cfg: Config, agents: Seq<Seq<char>>)
    ensures
        match cfg.unknown_agent(agents) {
            None => forall|i: int| 0 <= i < agents.len() ==> cfg.agents.has(#[trigger] agents[i]),
            Some(name) => exists|i: int|
                {
                    &&& 0 <= i < agents.len()
                    &&& #[trigger] agents[i] == name
                    &&& !cfg.agents.has(name)
                    &&& forall|j: int| 0 <= j < i ==> cfg.agents.has(#[trigger] agents[j])
                },
        },
    decreases agents.len(),
{
    if agents.len() > 0 {
        let n = agents.len() - 1;
        let rest = agents.drop_last();
        the_first_unknown_agent_is_named(cfg, rest);
        assert(forall|j: int| 0 <= j < n ==> #[trigger] agents[j] == rest[j]);
        assert(agents[n] == agents.last());
        match cfg.unknown_agent(rest) {
            Some(name) => {
                let i = choose|i: int|
                    {
                        &&& 0 <= i < rest.len()
                        &&& #[trigger] rest[i] == name
                        &&& !cfg.agents.has(name)
                        &&& forall|j: int| 0 <= j < i ==> cfg.agents.has(#[trigger] rest[j])
                    };
                assert(agents[i] == rest[i]);
            },
            None => {},
        }
    }
}

/// What a refusal of a target says is so: its probe is unknown, or is one that
/// needs a port and has none, its path cannot name a file or is reserved for
/// the series of agents, or its agent is unknown.
pub open spec fn deserved(cfg: Config, e: Refusal) -> bool {
    match e.fault {
        Fault::UnknownProbe => !cfg.probes.has(e.name),
        Fault::NeedsPort => cfg.probes.at(e.name) matches ProbeConfig::Tcp(t) && t.port is None,
        Fault::BadPath(p) => store::path_error(e.target) == Some(p),
        Fault::Reserved => e.target.contains('@') && store::path_error(e.target) is None,
        Fault::UnknownAgent => !cfg.agents.has(e.name),
        _ => true,
    }
}

/// A tree is refused only for what is wrong in it.
pub proof fn refused_targets_deserve_it(cfg: Config)
    ensures
        cfg.flattened() matches Err(e) ==> deserved(cfg, e),
{
    lemma_all_deserved(cfg, Seq::empty(), cfg.targets@, root_settings());
}

proof fn lemma_deserved(cfg: Config, path: Seq<char>, node: TargetNode, up: Settings)
    ensures
        cfg.leaves(path, node, up) matches Err(e) ==> deserved(cfg, e),
    decreases node,
{
    let here = inherit(node, up);
    the_first_unknown_agent_is_named(cfg, listed(here.agents));
    lemma_all_deserved(cfg, path + seq!['/'], node.children@, here);
}

proof fn lemma_all_deserved(
    cfg: Config,
    prefix: Seq<char>,
    nodes: Seq<(String, TargetNode)>,
    up: Settings,
)
    ensures
        cfg.all_leaves(prefix, nodes, up) matches Err(e) ==> deserved(cfg, e),
    decreases nodes,
{
    if nodes.len() > 0 {
        lemma_all_deserved(cfg, prefix, nodes.drop_last(), up);
        lemma_deserved(cfg, prefix + nodes.last().0@, nodes.last().1, up);
    }
}

/// An accepted tree has no dead end: every node of it has a host or children,
/// and every probe that a node names is configured.
pub proof fn accepted_trees_have_no_dead_ends(cfg: Config, way: Seq<(String, TargetNode)>)
    requires
        cfg.flattened() is Ok,
        way.len() > 0,
        cfg.targets@.contains(way[0]),
        descends(way),
    ensures
        way.last().1.host is Some || way.last().1.children@.len() > 0,
        text_of(way.last().1.probe) matches Some(p) ==> cfg.probes.has(p),
{
    let i = cfg.targets@.index_of(way[0]);
    lemma_each_accepted(cfg, Seq::empty(), cfg.targets@, root_settings(), i);
    lemma_no_dead_end(cfg, Seq::<char>::empty() + way[0].0@, way, root_settings());
}

proof fn lemma_each_accepted(
    cfg: Config,
    prefix: Seq<char>,
    nodes: Seq<(String, TargetNode)>,
    up: Settings,
    i: int,
)
    requires
        0 <= i < nodes.len(),
        cfg.all_leaves(prefix, nodes, up) is Ok,
    ensures
        cfg.leaves(prefix + nodes[i].0@, nodes[i].1, up) is Ok,
    decreases nodes.len(),
{
    if i < nodes.len() - 1 {
        lemma_each_accepted(cfg, prefix, nodes.drop_last(), up, i);
    }
}

proof fn lemma_no_dead_end(
    cfg: Config,
    path: Seq<char>,
    way: Seq<(String, TargetNode)>,
    up: Settings,
)
    requires
        way.len() > 0,
        descends(way),
        cfg.leaves(path, way[0].1, up) is Ok,
    ensures
        way.last().1.host is Some || way.last().1.children@.len() > 0,
        text_of(way.last().1.probe) matches Some(p) ==> cfg.probes.has(p),
    decreases way.len(),
{
    let node = way[0].1;
    let here = inherit(node, up);
    if way.len() > 1 {
        let rest = way.skip(1);
        assert(way[0].1.children@.contains(way[1]));
        let i = node.children@.index_of(way[1]);
        lemma_each_accepted(cfg, path + seq!['/'], node.children@, here, i);
        assert forall|k: int| 0 <= k < rest.len() - 1 implies (
        #[trigger] rest[k]).1.children@.contains(rest[k + 1]) by {
            assert(way[k + 1].1.children@.contains(way[k + 1 + 1]));
        }
        assert(rest[0] == way[1]);
        assert(rest.last() == way.last());
        lemma_no_dead_end(cfg, path + seq!['/'] + way[1].0@, rest, here);
    }
}

} // verus!
