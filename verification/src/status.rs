//! Component status: targets map to named components, severities derive from
//! the same pattern DSL the alerts use, incidents auto-open/resolve and are
//! kept as an event log.
use crate::alert;
use crate::alert::pattern;
use crate::alert::pattern::{Elem, Pattern, PatternError};
use crate::alert::{Sample, remember, sample, series};
use crate::config;
use crate::config::{AlertKind, Config, FlatTarget, Leaf, Refusal, StatusComponentConfig, TargetError};
use crate::double;
use crate::double::Double;
use crate::names::NameMap;
use crate::probe::RoundResult;
use crate::store;
use crate::store::{Cf, Point, Store};
use crate::text;
use crate::text::{alone, atop, copy_list, decimal_u64, holds, quoted, said, same};
use vstd::arithmetic::power2::*;
use vstd::prelude::*;
use vstd::string::*;

verus! {

/// Component severity, Statuspage vocabulary. Ordered by badness.
#[derive(Clone, Copy, Debug, PartialEq, Eq, PartialOrd, Ord, Structural)]
pub enum Severity {
    Operational,
    Degraded,
    PartialOutage,
    MajorOutage,
}

/// How bad a severity is.
pub open spec fn rank(s: Severity) -> int {
    match s {
        Severity::Operational => 0,
        Severity::Degraded => 1,
        Severity::PartialOutage => 2,
        Severity::MajorOutage => 3,
    }
}

/// The worse of two severities.
pub open spec fn worse(a: Severity, b: Severity) -> Severity {
    if rank(b) > rank(a) {
        b
    } else {
        a
    }
}

pub open spec fn human_name(s: Severity) -> Seq<char> {
    match s {
        Severity::Operational => "Operational"@,
        Severity::Degraded => "Degraded Performance"@,
        Severity::PartialOutage => "Partial Outage"@,
        Severity::MajorOutage => "Major Outage"@,
    }
}

/// The severity that a configuration names.
pub open spec fn severity_of(s: Seq<char>) -> Option<Severity> {
    if s == "degraded"@ {
        Some(Severity::Degraded)
    } else if s == "partial_outage"@ {
        Some(Severity::PartialOutage)
    } else if s == "major_outage"@ {
        Some(Severity::MajorOutage)
    } else {
        None
    }
}

impl Severity {
    fn level(self) -> (r: u8)
        ensures
            r == rank(self),
    {
        match self {
            Severity::Operational => 0,
            Severity::Degraded => 1,
            Severity::PartialOutage => 2,
            Severity::MajorOutage => 3,
        }
    }

    fn worse(self, other: Severity) -> (r: Severity)
        ensures
            r == worse(self, other),
    {
        if other.level() > self.level() {
            other
        } else {
            self
        }
    }

    pub fn as_statuspage(self) -> (r: &'static str)
        ensures
            r@ == (match self {
                Severity::Operational => "operational"@,
                Severity::Degraded => "degraded_performance"@,
                Severity::PartialOutage => "partial_outage"@,
                Severity::MajorOutage => "major_outage"@,
            }),
    {
        match self {
            Severity::Operational => "operational",
            Severity::Degraded => "degraded_performance",
            Severity::PartialOutage => "partial_outage",
            Severity::MajorOutage => "major_outage",
        }
    }

    /// Statuspage page-level indicator.
    pub fn indicator(self) -> (r: &'static str)
        ensures
            r@ == (match self {
                Severity::Operational => "none"@,
                Severity::Degraded => "minor"@,
                Severity::PartialOutage => "major"@,
                Severity::MajorOutage => "critical"@,
            }),
    {
        match self {
            Severity::Operational => "none",
            Severity::Degraded => "minor",
            Severity::PartialOutage => "major",
            Severity::MajorOutage => "critical",
        }
    }

    pub fn human(self) -> (r: &'static str)
        ensures
            r@ == human_name(self),
    {
        match self {
            Severity::Operational => "Operational",
            Severity::Degraded => "Degraded Performance",
            Severity::PartialOutage => "Partial Outage",
            Severity::MajorOutage => "Major Outage",
        }
    }

    pub fn banner(self) -> (r: &'static str)
        ensures
            r@ == (match self {
                Severity::Operational => "All Systems Operational"@,
                Severity::Degraded => "Degraded Performance"@,
                Severity::PartialOutage => "Partial System Outage"@,
                Severity::MajorOutage => "Major System Outage"@,
            }),
    {
        match self {
            Severity::Operational => "All Systems Operational",
            Severity::Degraded => "Degraded Performance",
            Severity::PartialOutage => "Partial System Outage",
            Severity::MajorOutage => "Major System Outage",
        }
    }

    /// The severity that a configuration names
    /// (degraded|partial_outage|major_outage).
    pub fn parse(s: &str) -> (r: Option<Severity>)
        ensures
            r == severity_of(s@),
    {
        if same(s, "degraded") {
            Some(Severity::Degraded)
        } else if same(s, "partial_outage") {
            Some(Severity::PartialOutage)
        } else if same(s, "major_outage") {
            Some(Severity::MajorOutage)
        } else {
            None
        }
    }
}

/// A component of the status page.
#[derive(Debug)]
pub struct Component {
    pub key: String,
    pub name: String,
    pub group: String,
    pub targets: Vec<String>,
    pub degraded_loss: Pattern,
    pub down_loss: Pattern,
    pub degraded_rtt: Option<Pattern>,
    pub incident_at: Severity,
}

/// What is wrong with a component.
#[derive(Clone, Copy, Debug, PartialEq, Eq, Structural)]
pub enum ComponentFault {
    /// It needs at least one target.
    NoTargets,
    /// The first target that is not configured, by its place in the list.
    UnknownTarget(usize),
    DegradedLoss(PatternError),
    DownLoss(PatternError),
    DegradedRtt(PatternError),
    /// incident_at is no severity.
    IncidentAt,
}

/// Why the status page of a configuration is refused.
#[derive(Debug)]
pub enum StatusError {
    /// The target tree is refused.
    Target(TargetError),
    Component { key: String, fault: ComponentFault },
}

/// Why the status page of a configuration is refused.
#[verifier::ext_equal]
pub enum StatusRefusal {
    Target(Refusal),
    Component(Seq<char>, ComponentFault),
}

impl View for StatusError {
    type V = StatusRefusal;

    open spec fn view(&self) -> StatusRefusal {
        match self {
            StatusError::Target(e) => StatusRefusal::Target(e@),
            StatusError::Component { key, fault } => StatusRefusal::Component(key@, *fault),
        }
    }
}

/// What is said of a component of the status page, the causes last.
pub open spec fn component_texts(
    key: Seq<char>,
    fault: ComponentFault,
    def: StatusComponentConfig,
) -> Seq<Seq<char>> {
    let head = "status component "@ + text::debug_form(key) + ": "@;
    match fault {
        ComponentFault::NoTargets => seq![head + "needs at least one target"@],
        ComponentFault::UnknownTarget(i) => seq![
            head + "unknown target "@ + text::debug_form(
                if i < def.targets@.len() {
                    def.targets@[i as int]@
                } else {
                    Seq::empty()
                },
            ),
        ],
        ComponentFault::DegradedLoss(p) => seq![head + "degraded_loss"@] + pattern::pattern_texts(
            p,
            alert::given(def.degraded_loss),
        ),
        ComponentFault::DownLoss(p) => seq![head + "down_loss"@] + pattern::pattern_texts(
            p,
            alert::given(def.down_loss),
        ),
        ComponentFault::DegradedRtt(p) => seq![head + "degraded_rtt"@] + pattern::pattern_texts(
            p,
            alert::given(def.degraded_rtt),
        ),
        ComponentFault::IncidentAt => seq![
            head + "incident_at"@,
            "bad severity "@ + text::debug_form(alert::given(def.incident_at))
                + " (degraded|partial_outage|major_outage)"@,
        ],
    }
}

/// What is said of a configuration's status page, the causes last.
pub open spec fn status_texts(e: StatusRefusal, cfg: Config) -> Seq<Seq<char>> {
    match e {
        StatusRefusal::Target(t) => seq![t.text()],
        StatusRefusal::Component(key, fault) => match cfg.status {
            Some(s) if s.components.has(key) => component_texts(key, fault, s.components.at(key)),
            _ => seq!["status component "@ + text::debug_form(key)],
        },
    }
}

fn text_or_none(s: &Option<String>) -> (r: String)
    ensures
        r@ == alert::given(*s),
{
    match s {
        Some(t) => t.clone(),
        None => String::new(),
    }
}

impl ComponentFault {
    /// What to say of the component that it was found in.
    pub fn messages(&self, key: &str, def: &StatusComponentConfig) -> (r: Vec<String>)
        ensures
            text::texts(r@) == component_texts(key@, *self, *def),
    {
        let mut head = said("status component ", quoted(key).as_str(), ": ");
        match self {
            ComponentFault::NoTargets => {
                head.append("needs at least one target");
                alone(head)
            },
            ComponentFault::UnknownTarget(i) => {
                let t = if *i < def.targets.len() {
                    def.targets[*i].clone()
                } else {
                    String::new()
                };
                head.append("unknown target ");
                head.append(quoted(t.as_str()).as_str());
                alone(head)
            },
            ComponentFault::DegradedLoss(p) => {
                head.append("degraded_loss");
                atop(head, p.messages(text_or_none(&def.degraded_loss).as_str()))
            },
            ComponentFault::DownLoss(p) => {
                head.append("down_loss");
                atop(head, p.messages(text_or_none(&def.down_loss).as_str()))
            },
            ComponentFault::DegradedRtt(p) => {
                head.append("degraded_rtt");
                atop(head, p.messages(text_or_none(&def.degraded_rtt).as_str()))
            },
            ComponentFault::IncidentAt => {
                head.append("incident_at");
                let m = said(
                    "bad severity ",
                    quoted(text_or_none(&def.incident_at).as_str()).as_str(),
                    " (degraded|partial_outage|major_outage)",
                );
                let r = atop(head, alone(m));
                assert(text::texts(r@) =~= component_texts(key@, *self, *def));
                r
            },
        }
    }
}

impl StatusError {
    /// What to say of the configuration that it was found in, the causes last.
    pub fn messages(&self, cfg: &Config) -> (r: Vec<String>)
        requires
            cfg.wf(),
        ensures
            text::texts(r@) == status_texts(self@, *cfg),
    {
        match self {
            StatusError::Target(t) => alone(t.message()),
            StatusError::Component { key, fault } => {
                if let Some(s) = &cfg.status {
                    if let Some(def) = s.components.get(key.as_str()) {
                        return fault.messages(key.as_str(), def);
                    }
                }
                let mut m = "status component ".to_owned();
                m.append(quoted(key.as_str()).as_str());
                alone(m)
            },
        }
    }
}

/// A text, or another in its place.
pub open spec fn or_else(s: Option<String>, default: Seq<char>) -> Seq<char> {
    match s {
        Some(t) => t@,
        None => default,
    }
}

/// The place of the first target that is not known, or the length.
pub open spec fn first_unknown(known: Seq<Seq<char>>, targets: Seq<Seq<char>>) -> int
    decreases targets.len(),
{
    if targets.len() == 0 || !known.contains(targets[0]) {
        0
    } else {
        1 + first_unknown(known, targets.drop_first())
    }
}

proof fn lemma_first_unknown(known: Seq<Seq<char>>, targets: Seq<Seq<char>>, i: int)
    requires
        0 <= i <= targets.len(),
        forall|j: int| 0 <= j < i ==> known.contains(#[trigger] targets[j]),
        i < targets.len() ==> !known.contains(targets[i]),
    ensures
        first_unknown(known, targets) == i,
    decreases i,
{
    if i > 0 {
        let rest = targets.drop_first();
        assert forall|j: int| 0 <= j < i - 1 implies known.contains(#[trigger] rest[j]) by {
            assert(rest[j] == targets[j + 1]);
        }
        lemma_first_unknown(known, rest, i - 1);
    }
}

/// What is wrong with a component, if anything.
pub open spec fn component_fault(known: Seq<Seq<char>>, c: StatusComponentConfig) -> Option<
    ComponentFault,
> {
    let targets = text::texts(c.targets@);
    let degraded = pattern::pattern_of(or_else(c.degraded_loss, ">5%,>5%"@));
    let down = pattern::pattern_of(or_else(c.down_loss, "==100%,==100%,==100%"@));
    if targets.len() == 0 {
        Some(ComponentFault::NoTargets)
    } else if first_unknown(known, targets) < targets.len() {
        Some(ComponentFault::UnknownTarget(first_unknown(known, targets) as usize))
    } else if degraded is Err {
        Some(ComponentFault::DegradedLoss(degraded->Err_0))
    } else if down is Err {
        Some(ComponentFault::DownLoss(down->Err_0))
    } else if c.degraded_rtt matches Some(p) && pattern::pattern_of(p@) is Err {
        Some(ComponentFault::DegradedRtt(pattern::pattern_of(c.degraded_rtt->0@)->Err_0))
    } else if c.incident_at matches Some(s) && severity_of(s@) is None {
        Some(ComponentFault::IncidentAt)
    } else {
        None
    }
}

/// The first bad component.
pub open spec fn bad_component(
    known: Seq<Seq<char>>,
    defs: Seq<(String, StatusComponentConfig)>,
) -> Option<StatusRefusal>
    decreases defs.len(),
{
    if defs.len() == 0 {
        None
    } else if bad_component(known, defs.drop_last()) is Some {
        bad_component(known, defs.drop_last())
    } else {
        match component_fault(known, defs.last().1) {
            Some(f) => Some(StatusRefusal::Component(defs.last().0@, f)),
            None => None,
        }
    }
}

proof fn lemma_bad_component(
    known: Seq<Seq<char>>,
    defs: Seq<(String, StatusComponentConfig)>,
    k: int,
)
    requires
        0 <= k <= defs.len(),
        bad_component(known, defs.take(k)) is Some,
    ensures
        bad_component(known, defs) == bad_component(known, defs.take(k)),
    decreases defs.len() - k,
{
    if k < defs.len() {
        assert(defs.drop_last().take(k) == defs.take(k));
        lemma_bad_component(known, defs.drop_last(), k);
    } else {
        assert(defs.take(k) == defs);
    }
}

/// The paths of the leaves.
pub open spec fn paths(leaves: Seq<Leaf>) -> Seq<Seq<char>> {
    leaves.map_values(|l: Leaf| l.path)
}

/// Why the status page of a configuration is refused, if it is.
pub open spec fn status_refusal(cfg: Config) -> Option<StatusRefusal> {
    match cfg.status {
        None => None,
        Some(s) => match cfg.flattened() {
            Err(e) => Some(StatusRefusal::Target(e)),
            Ok(leaves) => bad_component(paths(leaves), s.components.entries@),
        },
    }
}

/// The components that a configuration defines.
pub open spec fn definitions(cfg: Config) -> Seq<(String, StatusComponentConfig)> {
    match cfg.status {
        None => Seq::empty(),
        Some(s) => s.components.entries@,
    }
}

impl Component {
    /// The component was made from this definition.
    pub open spec fn of(self, key: Seq<char>, c: StatusComponentConfig) -> bool {
        &&& self.key@ == key
        &&& self.name@ == or_else(c.name, key)
        &&& self.group@ == or_else(c.group, Seq::empty())
        &&& text::texts(self.targets@) == text::texts(c.targets@)
        &&& pattern::pattern_of(or_else(c.degraded_loss, ">5%,>5%"@)) == Ok::<
            Seq<Elem>,
            PatternError,
        >(self.degraded_loss.elems@)
        &&& pattern::pattern_of(or_else(c.down_loss, "==100%,==100%,==100%"@)) == Ok::<
            Seq<Elem>,
            PatternError,
        >(self.down_loss.elems@)
        &&& match c.degraded_rtt {
            None => self.degraded_rtt is None,
            Some(p) => self.degraded_rtt matches Some(q) && pattern::pattern_of(p@) == Ok::<
                Seq<Elem>,
                PatternError,
            >(q.elems@),
        }
        &&& match c.incident_at {
            None => self.incident_at == Severity::PartialOutage,
            Some(s) => severity_of(s@) == Some(self.incident_at),
        }
    }

    fn parse(key: &String, c: &StatusComponentConfig, known: &Vec<String>) -> (r: Result<
        Component,
        ComponentFault,
    >)
        ensures
            match r {
                Ok(comp) => component_fault(text::texts(known@), *c) is None && comp.of(key@, *c),
                Err(e) => component_fault(text::texts(known@), *c) == Some(e),
            },
    {
        let ghost ts = text::texts(c.targets@);
        if c.targets.len() == 0 {
            return Err(ComponentFault::NoTargets);
        }
        let mut i: usize = 0;
        while i < c.targets.len()
            invariant
                ts == text::texts(c.targets@),
                c.targets@.len() > 0,
                i <= c.targets@.len(),
                forall|j: int| 0 <= j < i ==> text::texts(known@).contains(#[trigger] ts[j]),
            decreases c.targets@.len() - i,
        {
            assert(ts[i as int] == c.targets@[i as int]@);
            if !holds(known, c.targets[i].as_str()) {
                proof {
                    lemma_first_unknown(text::texts(known@), ts, i as int);
                }
                return Err(ComponentFault::UnknownTarget(i));
            }
            i = i + 1;
        }
        proof {
            lemma_first_unknown(text::texts(known@), ts, ts.len() as int);
        }
        let degraded_loss = match Pattern::parse(
            match &c.degraded_loss {
                Some(s) => s.as_str(),
                None => ">5%,>5%",
            },
        ) {
            Ok(p) => p,
            Err(e) => {
                return Err(ComponentFault::DegradedLoss(e));
            },
        };
        let down_loss = match Pattern::parse(
            match &c.down_loss {
                Some(s) => s.as_str(),
                None => "==100%,==100%,==100%",
            },
        ) {
            Ok(p) => p,
            Err(e) => {
                return Err(ComponentFault::DownLoss(e));
            },
        };
        let degraded_rtt = match &c.degraded_rtt {
            Some(s) => match Pattern::parse(s.as_str()) {
                Ok(p) => Some(p),
                Err(e) => {
                    return Err(ComponentFault::DegradedRtt(e));
                },
            },
            None => None,
        };
        let incident_at = match &c.incident_at {
            Some(s) => match Severity::parse(s.as_str()) {
                Some(v) => v,
                None => {
                    return Err(ComponentFault::IncidentAt);
                },
            },
            None => Severity::PartialOutage,
        };
        let group = match &c.group {
            Some(g) => g.clone(),
            None => {
                let g = String::new();
                assert(g@ =~= Seq::empty());
                g
            },
        };
        Ok(
            Component {
                key: key.clone(),
                name: match &c.name {
                    Some(n) => n.clone(),
                    None => key.clone(),
                },
                group,
                targets: copy_list(&c.targets),
                degraded_loss,
                down_loss,
                degraded_rtt,
                incident_at,
            },
        )
    }
}

fn known_paths(flat: &Vec<FlatTarget>) -> (r: Vec<String>)
    ensures
        text::texts(r@) == paths(config::leaves_of(flat@)),
{
    let ghost want = paths(config::leaves_of(flat@));
    let mut out: Vec<String> = Vec::new();
    let mut i: usize = 0;
    while i < flat.len()
        invariant
            want == paths(config::leaves_of(flat@)),
            i <= flat@.len(),
            out@.len() == i,
            forall|j: int| 0 <= j < i ==> (#[trigger] out@[j])@ == want[j],
        decreases flat@.len() - i,
    {
        out.push(flat[i].path.clone());
        i = i + 1;
    }
    assert(text::texts(out@) =~= want);
    out
}

/// Parses and checks the components. Also used by the validation of the
/// configuration, so that bad components are refused early.
pub fn parse_components(cfg: &Config) -> (r: Result<Vec<Component>, StatusError>)
    requires
        cfg.wf(),
    ensures
        match r {
            Err(e) => status_refusal(*cfg) == Some(e@),
            Ok(v) => {
                let defs = definitions(*cfg);
                &&& status_refusal(*cfg) is None
                &&& v@.len() == defs.len()
                &&& forall|i: int|
                    0 <= i < defs.len() ==> (#[trigger] v@[i]).of(defs[i].0@, defs[i].1)
            },
        },
{
    let status = match &cfg.status {
        None => {
            return Ok(Vec::new());
        },
        Some(s) => s,
    };
    let flat = match cfg.flatten_targets() {
        Err(e) => {
            return Err(StatusError::Target(e));
        },
        Ok(v) => v,
    };
    let known = known_paths(&flat);
    let ghost kp = text::texts(known@);
    let ghost defs = status.components.entries@;
    let mut out: Vec<Component> = Vec::new();
    let mut i: usize = 0;
    assert(defs.take(0) =~= Seq::empty());
    while i < status.components.entries.len()
        invariant
            kp == text::texts(known@),
            defs == status.components.entries@,
            cfg.status matches Some(s) && s == *status,
            cfg.flattened() matches Ok(leaves) && paths(leaves) == kp,
            i <= defs.len(),
            bad_component(kp, defs.take(i as int)) is None,
            out@.len() == i,
            forall|j: int| 0 <= j < i ==> (#[trigger] out@[j]).of(defs[j].0@, defs[j].1),
        decreases defs.len() - i,
    {
        assert(defs.take(i + 1).drop_last() == defs.take(i as int));
        assert(defs.take(i + 1).last() == defs[i as int]);
        let def = &status.components.entries[i];
        match Component::parse(&def.0, &def.1, &known) {
            Err(fault) => {
                proof {
                    lemma_bad_component(kp, defs, i + 1);
                }
                return Err(StatusError::Component { key: def.0.clone(), fault });
            },
            Ok(c) => {
                out.push(c);
            },
        }
        i = i + 1;
    }
    assert(defs.take(i as int) == defs);
    Ok(out)
}

/// Checks the components without keeping them.
pub fn validate(cfg: &Config) -> (r: Result<(), StatusError>)
    requires
        cfg.wf(),
    ensures
        match r {
            Err(e) => status_refusal(*cfg) == Some(e@),
            Ok(()) => status_refusal(*cfg) is None,
        },
{
    match parse_components(cfg) {
        Err(e) => Err(e),
        Ok(_) => Ok(()),
    }
}

// ---- incidents ----

#[derive(Debug)]
pub struct Incident {
    pub id: u64,
    pub component: String,
    pub title: String,
    pub opened: i64,
    pub resolved: Option<i64>,
    pub updates: Vec<IncidentUpdate>,
}

#[derive(Debug)]
pub struct IncidentUpdate {
    pub ts: i64,
    pub message: String,
}

/// One entry of the append-only log; the incidents are a replay of it.
#[derive(Debug)]
pub enum Event {
    Open { id: u64, component: String, title: String, ts: i64 },
    Update { id: u64, ts: i64, message: String },
    Resolve { id: u64, ts: i64 },
}

/// An incident.
#[verifier::ext_equal]
pub struct Case {
    pub id: u64,
    pub component: Seq<char>,
    pub title: Seq<char>,
    pub opened: i64,
    pub resolved: Option<i64>,
    pub updates: Seq<(i64, Seq<char>)>,
}

/// An entry of the log.
#[verifier::ext_equal]
pub enum Entry {
    Open { id: u64, component: Seq<char>, title: Seq<char>, ts: i64 },
    Update { id: u64, ts: i64, message: Seq<char> },
    Resolve { id: u64, ts: i64 },
}

/// The incidents, and the number of the next one.
#[verifier::ext_equal]
pub struct Log {
    pub cases: Seq<Case>,
    pub next_id: int,
}

impl View for IncidentUpdate {
    type V = (i64, Seq<char>);

    open spec fn view(&self) -> (i64, Seq<char>) {
        (self.ts, self.message@)
    }
}

impl View for Incident {
    type V = Case;

    open spec fn view(&self) -> Case {
        Case {
            id: self.id,
            component: self.component@,
            title: self.title@,
            opened: self.opened,
            resolved: self.resolved,
            updates: self.updates@.map_values(|u: IncidentUpdate| u@),
        }
    }
}

impl View for Event {
    type V = Entry;

    open spec fn view(&self) -> Entry {
        match self {
            Event::Open { id, component, title, ts } => Entry::Open {
                id: *id,
                component: component@,
                title: title@,
                ts: *ts,
            },
            Event::Update { id, ts, message } => Entry::Update {
                id: *id,
                ts: *ts,
                message: message@,
            },
            Event::Resolve { id, ts } => Entry::Resolve { id: *id, ts: *ts },
        }
    }
}

/// The entries of a list of events.
pub open spec fn entries_of(v: Seq<Event>) -> Seq<Entry> {
    v.map_values(|e: Event| e@)
}

#[derive(Debug)]
pub struct IncidentLog {
    pub incidents: Vec<Incident>,
    pub next_id: u64,
}

impl View for IncidentLog {
    type V = Log;

    open spec fn view(&self) -> Log {
        Log {
            cases: self.incidents@.map_values(|i: Incident| i@),
            next_id: self.next_id as int,
        }
    }
}

/// No incident yet.
pub open spec fn empty_log() -> Log {
    Log { cases: Seq::empty(), next_id: 1 }
}

/// The place of the first incident with this number, or the length.
pub open spec fn place_of(cases: Seq<Case>, id: u64) -> int
    decreases cases.len(),
{
    if cases.len() == 0 || cases[0].id == id {
        0
    } else {
        1 + place_of(cases.drop_first(), id)
    }
}

/// The log after one more entry. An entry for an incident that is not there
/// changes nothing.
pub open spec fn applied(log: Log, e: Entry) -> Log {
    match e {
        Entry::Open { id, component, title, ts } => Log {
            cases: log.cases.push(
                Case {
                    id,
                    component,
                    title,
                    opened: ts,
                    resolved: None,
                    updates: Seq::empty(),
                },
            ),
            next_id: if id + 1 > log.next_id {
                id + 1
            } else {
                log.next_id
            },
        },
        Entry::Update { id, ts, message } => {
            let i = place_of(log.cases, id);
            if i < log.cases.len() {
                Log {
                    cases: log.cases.update(
                        i,
                        Case {
                            updates: log.cases[i].updates.push((ts, message)),
                            ..log.cases[i]
                        },
                    ),
                    next_id: log.next_id,
                }
            } else {
                log
            }
        },
        Entry::Resolve { id, ts } => {
            let i = place_of(log.cases, id);
            if i < log.cases.len() {
                Log {
                    cases: log.cases.update(i, Case { resolved: Some(ts), ..log.cases[i] }),
                    next_id: log.next_id,
                }
            } else {
                log
            }
        },
    }
}

/// The log after some entries.
pub open spec fn replayed(log: Log, entries: Seq<Entry>) -> Log
    decreases entries.len(),
{
    if entries.len() == 0 {
        log
    } else {
        applied(replayed(log, entries.drop_last()), entries.last())
    }
}

/// A log that was continued is replayed as it was written: first what was
/// there, then what came.
pub proof fn replay_continues(log: Log, a: Seq<Entry>, b: Seq<Entry>)
    ensures
        replayed(log, a + b) == replayed(replayed(log, a), b),
    decreases b.len(),
{
    if b.len() == 0 {
        assert(a + b =~= a);
    } else {
        assert((a + b).drop_last() =~= a + b.drop_last());
        replay_continues(log, a, b.drop_last());
    }
}

/// The number of the newest open incident of a component.
pub open spec fn open_case(cases: Seq<Case>, component: Seq<char>) -> Option<u64>
    decreases cases.len(),
{
    if cases.len() == 0 {
        None
    } else if cases.last().component == component && cases.last().resolved is None {
        Some(cases.last().id)
    } else {
        open_case(cases.drop_last(), component)
    }
}

impl IncidentLog {
    pub fn new() -> (l: IncidentLog)
        ensures
            l@ == empty_log(),
    {
        let l = IncidentLog { incidents: Vec::new(), next_id: 1 };
        assert(l@.cases =~= Seq::empty());
        l
    }

    fn place(&self, id: u64) -> (r: usize)
        ensures
            r == place_of(self@.cases, id),
            r <= self.incidents@.len(),
    {
        let ghost cases = self@.cases;
        let mut i: usize = 0;
        assert(cases.skip(0) =~= cases);
        while i < self.incidents.len() && self.incidents[i].id != id
            invariant
                cases == self@.cases,
                i <= cases.len(),
                place_of(cases, id) == i + place_of(cases.skip(i as int), id),
            decreases cases.len() - i,
        {
            assert(cases.skip(i as int)[0] == self.incidents@[i as int]@);
            assert(cases.skip(i as int).drop_first() =~= cases.skip(i + 1));
            i = i + 1;
        }
        if i < self.incidents.len() {
            assert(cases.skip(i as int)[0] == self.incidents@[i as int]@);
        }
        i
    }

    /// Applies one entry.
    pub fn apply(&mut self, ev: &Event)
        requires
            ev matches Event::Open { id, .. } ==> id < u64::MAX,
        ensures
            final(self)@ == applied(old(self)@, ev@),
    {
        let ghost before = self@;
        match ev {
            Event::Open { id, component, title, ts } => {
                let inc = Incident {
                    id: *id,
                    component: component.clone(),
                    title: title.clone(),
                    opened: *ts,
                    resolved: None,
                    updates: Vec::new(),
                };
                assert(inc@.updates =~= Seq::empty());
                let ghost case = inc@;
                self.incidents.push(inc);
                if *id + 1 > self.next_id {
                    self.next_id = *id + 1;
                }
                assert(self@.cases =~= before.cases.push(case));
            },
            Event::Update { id, ts, message } => {
                let i: usize = self.place(*id);
                if i < self.incidents.len() {
                    let mut inc = self.incidents.remove(i);
                    let ghost old_inc = inc@;
                    let ghost ups = inc.updates@;
                    inc.updates.push(IncidentUpdate { ts: *ts, message: message.clone() });
                    assert(inc@.updates =~= old_inc.updates.push((*ts, message@)));
                    let ghost case = inc@;
                    self.incidents.insert(i, inc);
                    assert(self@.cases =~= before.cases.update(i as int, case));
                }
            },
            Event::Resolve { id, ts } => {
                let i: usize = self.place(*id);
                if i < self.incidents.len() {
                    let mut inc = self.incidents.remove(i);
                    inc.resolved = Some(*ts);
                    let ghost case = inc@;
                    self.incidents.insert(i, inc);
                    assert(self@.cases =~= before.cases.update(i as int, case));
                }
            },
        }
    }

    /// The number of the newest open incident of a component.
    pub fn open_for(&self, component: &str) -> (r: Option<u64>)
        ensures
            r == open_case(self@.cases, component@),
    {
        let ghost cases = self@.cases;
        let mut i: usize = self.incidents.len();
        assert(cases.take(i as int) =~= cases);
        while i > 0
            invariant
                cases == self@.cases,
                i <= cases.len(),
                open_case(cases, component@) == open_case(cases.take(i as int), component@),
            decreases i,
        {
            let inc = &self.incidents[i - 1];
            assert(cases.take(i as int).last() == inc@);
            assert(cases.take(i as int).drop_last() =~= cases.take(i - 1));
            if same(inc.component.as_str(), component) && inc.resolved.is_none() {
                return Some(inc.id);
            }
            i = i - 1;
        }
        None
    }
}

// ---- engine ----

/// Derives component states from a stream of rounds.
#[derive(Debug)]
pub struct StatusEngine {
    pub title: String,
    pub history_days: u32,
    pub admin_token: Option<String>,
    pub components: Vec<Component>,
    /// target path → places of the components that it backs
    pub by_target: NameMap<Vec<usize>>,
    pub history_depth: usize,
    pub history: NameMap<Vec<Sample>>,
    pub target_state: NameMap<Severity>,
    pub comp_state: Vec<Severity>,
    pub incidents: IncidentLog,
}

#[derive(Debug)]
pub struct ComponentSnapshot {
    pub key: String,
    pub name: String,
    pub group: String,
    pub status: Severity,
}

/// A component that changed its state.
#[derive(Clone, Copy, Debug, PartialEq, Eq, Structural)]
pub struct Change {
    /// The component's place.
    pub component: usize,
    pub old: Severity,
    pub new: Severity,
}

/// How bad a target is by one component's patterns.
pub open spec fn verdict(c: Component, samples: Seq<Sample>) -> Severity {
    let losses = alert::series_of(AlertKind::Loss, samples);
    let rtts = alert::series_of(AlertKind::Rtt, samples);
    if pattern::matched(c.down_loss.elems@, losses) {
        Severity::MajorOutage
    } else if pattern::matched(c.degraded_loss.elems@, losses) || (c.degraded_rtt matches Some(p)
        && pattern::matched(p.elems@, rtts)) {
        Severity::Degraded
    } else {
        Severity::Operational
    }
}

/// A target is down/degraded per its components' patterns. With several
/// components watching one target, the worst verdict wins.
pub open spec fn target_verdict(
    components: Seq<Component>,
    idxs: Seq<usize>,
    samples: Seq<Sample>,
) -> Severity
    decreases idxs.len(),
{
    if idxs.len() == 0 {
        Severity::Operational
    } else {
        worse(
            target_verdict(components, idxs.drop_last(), samples),
            verdict(components[idxs.last() as int], samples),
        )
    }
}

/// How many of the states are this one.
pub open spec fn count_of(states: Seq<Severity>, s: Severity) -> nat
    decreases states.len(),
{
    if states.len() == 0 {
        0
    } else {
        count_of(states.drop_last(), s) + if states.last() == s {
            1nat
        } else {
            0
        }
    }
}

/// A component's state from those of its targets: all down is a major outage,
/// some down a partial one, any degraded is degraded.
pub open spec fn overall(states: Seq<Severity>) -> Severity {
    let down = count_of(states, Severity::MajorOutage);
    if down == states.len() {
        Severity::MajorOutage
    } else if down > 0 {
        Severity::PartialOutage
    } else if states.contains(Severity::Degraded) {
        Severity::Degraded
    } else {
        Severity::Operational
    }
}

/// What changes when the components at these places are brought up to date,
/// one after the other.
pub open spec fn refreshed(
    states: Seq<Severity>,
    idxs: Seq<usize>,
    fresh: spec_fn(int) -> Severity,
) -> (Seq<Severity>, Seq<Change>)
    decreases idxs.len(),
{
    if idxs.len() == 0 {
        (states, Seq::empty())
    } else {
        let (before, changes) = refreshed(states, idxs.drop_last(), fresh);
        let i = idxs.last();
        let new = fresh(i as int);
        let old = before[i as int];
        (
            before.update(i as int, new),
            if new != old {
                changes.push(Change { component: i, old, new })
            } else {
                changes
            },
        )
    }
}

/// The entries that a component's new state gives: an incident opens at the
/// component's threshold, is kept up to date, and is resolved when the
/// component is operational again.
pub open spec fn transition(log: Log, c: Component, new: Severity, ts: i64) -> Seq<Entry> {
    let open = open_case(log.cases, c.key@);
    let changed = "Status changed: "@ + human_name(new);
    if rank(new) >= rank(c.incident_at) {
        match open {
            None => {
                let id = log.next_id as u64;
                seq![
                    Entry::Open {
                        id,
                        component: c.key@,
                        title: c.name@ + ": "@ + human_name(new),
                        ts,
                    },
                    Entry::Update { id, ts, message: "Detected: "@ + human_name(new) },
                ]
            },
            Some(id) => seq![Entry::Update { id, ts, message: changed }],
        }
    } else {
        match open {
            None => Seq::empty(),
            Some(id) => if new == Severity::Operational {
                seq![Entry::Update { id, ts, message: changed }, Entry::Resolve { id, ts }]
            } else {
                seq![Entry::Update { id, ts, message: changed }]
            },
        }
    }
}

/// The entries of some changes, each seeing what the ones before it left.
pub open spec fn transitions(
    log: Log,
    components: Seq<Component>,
    changes: Seq<Change>,
    ts: i64,
) -> Seq<Entry>
    decreases changes.len(),
{
    if changes.len() == 0 {
        Seq::empty()
    } else {
        let before = transitions(log, components, changes.drop_last(), ts);
        let c = changes.last();
        before + transition(
            replayed(log, before),
            components[c.component as int],
            c.new,
            ts,
        )
    }
}

impl StatusEngine {
    pub open spec fn wf(self) -> bool {
        &&& self.by_target.wf()
        &&& self.history.wf()
        &&& self.target_state.wf()
        &&& self.comp_state@.len() == self.components@.len()
        &&& forall|i: int, j: int|
            0 <= i < self.by_target.entries@.len() && 0 <= j < self.by_target.entries@[i].1@.len()
                ==> (#[trigger] self.by_target.entries@[i].1@[j]) < self.components@.len()
    }

    /// The samples remembered of a target.
    pub open spec fn samples(self, target: Seq<char>) -> Seq<Sample> {
        match self.history.lookup(target) {
            Some(v) => v@,
            None => Seq::empty(),
        }
    }

    /// A target's state; operational until it was measured.
    pub open spec fn target_standing(self, target: Seq<char>) -> Severity {
        match self.target_state.lookup(target) {
            Some(s) => s,
            None => Severity::Operational,
        }
    }

    /// The states of a component's targets.
    pub open spec fn target_states(self, c: Component) -> Seq<Severity> {
        c.targets@.map_values(|t: String| self.target_standing(t@))
    }

    /// What a round makes of the engine, the log aside.
    pub open spec fn observed(self, r: RoundResult, after: StatusEngine, changes: Seq<Change>) -> bool {
        &&& after.title == self.title
        &&& after.history_days == self.history_days
        &&& after.admin_token == self.admin_token
        &&& after.components == self.components
        &&& after.by_target == self.by_target
        &&& after.history_depth == self.history_depth
        &&& if !self.by_target.has(r.target@) {
            &&& changes.len() == 0
            &&& after.history == self.history
            &&& after.target_state == self.target_state
            &&& after.comp_state == self.comp_state
        } else {
            let idxs = self.by_target.at(r.target@)@;
            let samples = alert::remembered(
                self.samples(r.target@),
                alert::sample_of(r),
                self.history_depth as nat,
            );
            let sev = target_verdict(self.components@, idxs, samples);
            let fresh = |i: int| overall(after.target_states(self.components@[i]));
            &&& after.samples(r.target@) == samples
            &&& forall|t: Seq<char>|
                t != r.target@ ==> #[trigger] after.samples(t) == self.samples(t)
            &&& after.target_standing(r.target@) == sev
            &&& forall|t: Seq<char>|
                t != r.target@ ==> #[trigger] after.target_standing(t) == self.target_standing(t)
            &&& (after.comp_state@, changes) == refreshed(self.comp_state@, idxs, fresh)
        }
    }

    /// Whether there are numbers left for the incidents that a round of the
    /// target can open.
    pub open spec fn ids_left(self, target: Seq<char>) -> bool {
        match self.by_target.lookup(target) {
            Some(v) => self.incidents.next_id + v@.len() < u64::MAX,
            None => true,
        }
    }

    pub fn has_ids_left(&self, target: &str) -> (r: bool)
        requires
            self.wf(),
        ensures
            r == self.ids_left(target@),
    {
        match self.by_target.get(target) {
            Some(v) => (self.incidents.next_id as u128) + (v.len() as u128) < u64::MAX as u128,
            None => true,
        }
    }

    fn target_severity(&self, idxs: &Vec<usize>, samples: &Vec<Sample>) -> (r: Severity)
        requires
            forall|j: int| 0 <= j < idxs@.len() ==> #[trigger] idxs@[j] < self.components@.len(),
        ensures
            r == target_verdict(self.components@, idxs@, samples@),
    {
        let losses = series(AlertKind::Loss, samples);
        let rtts = series(AlertKind::Rtt, samples);
        let mut sev = Severity::Operational;
        let mut j: usize = 0;
        assert(idxs@.take(0) =~= Seq::empty());
        while j < idxs.len()
            invariant
                forall|k: int|
                    0 <= k < idxs@.len() ==> #[trigger] idxs@[k] < self.components@.len(),
                losses@ == alert::series_of(AlertKind::Loss, samples@),
                rtts@ == alert::series_of(AlertKind::Rtt, samples@),
                j <= idxs@.len(),
                sev == target_verdict(self.components@, idxs@.take(j as int), samples@),
            decreases idxs@.len() - j,
        {
            assert(idxs@.take(j + 1).drop_last() == idxs@.take(j as int));
            assert(idxs@.take(j + 1).last() == idxs@[j as int]);
            let c = &self.components[idxs[j]];
            let v = if c.down_loss.matches(losses.as_slice()) {
                Severity::MajorOutage
            } else {
                let slow = match &c.degraded_rtt {
                    Some(p) => p.matches(rtts.as_slice()),
                    None => false,
                };
                if c.degraded_loss.matches(losses.as_slice()) || slow {
                    Severity::Degraded
                } else {
                    Severity::Operational
                }
            };
            sev = sev.worse(v);
            j = j + 1;
        }
        assert(idxs@.take(j as int) == idxs@);
        sev
    }

    fn component_severity(&self, comp: &Component) -> (r: Severity)
        requires
            self.wf(),
        ensures
            r == overall(self.target_states(*comp)),
    {
        let ghost states = self.target_states(*comp);
        let mut down: usize = 0;
        let mut degraded = false;
        let mut i: usize = 0;
        assert(states.take(0) =~= Seq::empty());
        while i < comp.targets.len()
            invariant
                self.wf(),
                states == self.target_states(*comp),
                i <= comp.targets@.len(),
                down <= i,
                down == count_of(states.take(i as int), Severity::MajorOutage),
                degraded == states.take(i as int).contains(Severity::Degraded),
            decreases comp.targets@.len() - i,
        {
            let st = match self.target_state.get(comp.targets[i].as_str()) {
                Some(s) => *s,
                None => Severity::Operational,
            };
            assert(st == states[i as int]);
            let ghost old_part = states.take(i as int);
            let ghost part = states.take(i + 1);
            assert(part.drop_last() == old_part);
            assert(part.last() == st);
            if st == Severity::MajorOutage {
                down = down + 1;
            }
            proof {
                if st == Severity::Degraded {
                    assert(part[i as int] == Severity::Degraded);
                } else if part.contains(Severity::Degraded) {
                    let k = choose|k: int| 0 <= k < part.len() && part[k] == Severity::Degraded;
                    assert(old_part[k] == Severity::Degraded);
                }
                if old_part.contains(Severity::Degraded) {
                    let k = choose|k: int|
                        0 <= k < old_part.len() && old_part[k] == Severity::Degraded;
                    assert(part[k] == Severity::Degraded);
                }
            }
            if st == Severity::Degraded {
                degraded = true;
            }
            i = i + 1;
        }
        assert(states.take(i as int) =~= states);
        if down == comp.targets.len() {
            Severity::MajorOutage
        } else if down > 0 {
            Severity::PartialOutage
        } else if degraded {
            Severity::Degraded
        } else {
            Severity::Operational
        }
    }

    /// Takes in a round: updates the target's history and state and the
    /// components that it backs, and returns those that changed.
    pub fn observe(&mut self, r: &RoundResult) -> (changes: Vec<Change>)
        requires
            old(self).wf(),
            r.wf(),
        ensures
            final(self).wf(),
            final(self).incidents == old(self).incidents,
            old(self).observed(*r, *final(self), changes@),
            old(self).by_target.lookup(r.target@) matches Some(v) ==> changes@.len() <= v@.len(),
            old(self).by_target.lookup(r.target@) is None ==> changes@.len() == 0,
            forall|i: int|
                0 <= i < changes@.len() ==> (#[trigger] changes@[i]).component
                    < old(self).components@.len(),
    {
        let ghost start = *self;
        let bi: usize = match self.by_target.index_of(r.target.as_str()) {
            None => {
                let none: Vec<Change> = Vec::new();
                return none;
            },
            Some(i) => i,
        };
        let ghost idxs = start.by_target.entries@[bi as int].1@;
        let s = sample(r);
        let samples: Vec<Sample> = match self.history.get(r.target.as_str()) {
            Some(h) => remember(h, s, self.history_depth),
            None => {
                let none: Vec<Sample> = Vec::new();
                assert(none@ =~= Seq::empty());
                remember(&none, s, self.history_depth)
            },
        };
        let ghost ss = samples@;
        let sev = self.target_severity(&self.by_target.entries[bi].1, &samples);
        self.history.insert(r.target.clone(), samples);
        self.target_state.insert(r.target.clone(), sev);
        let ghost mid = *self;
        proof {
            let t0 = r.target@;
            assert(mid.history.lookup(t0) == Some(mid.history.at(t0)));
            assert(mid.target_state.lookup(t0) == Some(mid.target_state.at(t0)));
            assert forall|t: Seq<char>| t != t0 implies #[trigger] mid.samples(t)
                == start.samples(t) by {
                assert(mid.history.lookup(t) == start.history.lookup(t));
            }
            assert forall|t: Seq<char>| t != t0 implies #[trigger] mid.target_standing(t)
                == start.target_standing(t) by {
                assert(mid.target_state.lookup(t) == start.target_state.lookup(t));
            }
        }
        let ghost fresh = |i: int| overall(mid.target_states(start.components@[i]));
        let mut changes: Vec<Change> = Vec::new();
        let n: usize = self.by_target.entries[bi].1.len();
        let mut j: usize = 0;
        assert(idxs.take(0) =~= Seq::empty());
        assert(changes@ =~= Seq::empty());
        while j < n
            invariant
                start.wf(),
                mid.wf(),
                self.wf(),
                bi < start.by_target.entries@.len(),
                idxs == start.by_target.entries@[bi as int].1@,
                n == idxs.len(),
                j <= n,
                mid.components == start.components,
                mid.by_target == start.by_target,
                *self == (StatusEngine { comp_state: self.comp_state, ..mid }),
                fresh == (|i: int| overall(mid.target_states(start.components@[i]))),
                (self.comp_state@, changes@) == refreshed(
                    start.comp_state@,
                    idxs.take(j as int),
                    fresh,
                ),
                changes@.len() <= j,
                forall|i: int|
                    0 <= i < changes@.len() ==> (#[trigger] changes@[i]).component
                        < start.components@.len(),
            decreases n - j,
        {
            assert(idxs.take(j + 1).drop_last() == idxs.take(j as int));
            assert(idxs.take(j + 1).last() == idxs[j as int]);
            let ci: usize = self.by_target.entries[bi].1[j];
            assert(start.by_target.entries@[bi as int].1@[j as int] < start.components@.len());
            let new = self.component_severity(&self.components[ci]);
            assert(self.target_states(start.components@[ci as int]) =~= mid.target_states(
                start.components@[ci as int],
            ));
            let old_sev = self.comp_state[ci];
            self.comp_state.set(ci, new);
            if new != old_sev {
                changes.push(Change { component: ci, old: old_sev, new });
            }
            j = j + 1;
        }
        proof {
            assert(idxs.take(j as int) == idxs);
            let f2 = |i: int| overall(self.target_states(start.components@[i]));
            assert forall|i: int| #[trigger] f2(i) == fresh(i) by {
                assert(self.target_states(start.components@[i]) =~= mid.target_states(
                    start.components@[i],
                ));
            }
            assert(f2 =~= fresh);
            assert forall|t: Seq<char>| #[trigger] self.samples(t) == mid.samples(t) by {}
            assert forall|t: Seq<char>| #[trigger] self.target_standing(t)
                == mid.target_standing(t) by {}
            assert(start.by_target.lookup(r.target@) == Some(
                start.by_target.entries@[bi as int].1,
            ));
        }
        changes
    }

    /// The entries to write for a component's new state.
    pub fn incident_transition(&self, component: usize, new: Severity, ts: i64) -> (r: Vec<Event>)
        requires
            component < self.components@.len(),
        ensures
            entries_of(r@) == transition(
                self.incidents@,
                self.components@[component as int],
                new,
                ts,
            ),
    {
        let c = &self.components[component];
        let open = self.incidents.open_for(c.key.as_str());
        let mut changed = "Status changed: ".to_owned();
        changed.append(new.human());
        let mut out: Vec<Event> = Vec::new();
        let ghost want = transition(self.incidents@, *c, new, ts);
        if new.level() >= c.incident_at.level() {
            match open {
                None => {
                    let id: u64 = self.incidents.next_id;
                    let mut title = c.name.clone();
                    title.append(": ");
                    title.append(new.human());
                    let mut message = "Detected: ".to_owned();
                    message.append(new.human());
                    out.push(Event::Open { id, component: c.key.clone(), title, ts });
                    out.push(Event::Update { id, ts, message });
                },
                Some(id) => {
                    out.push(Event::Update { id, ts, message: changed });
                },
            }
        } else if let Some(id) = open {
            out.push(Event::Update { id, ts, message: changed });
            if new == Severity::Operational {
                out.push(Event::Resolve { id, ts });
            }
        }
        assert(entries_of(out@) =~= want);
        out
    }

    /// Applies one entry of the log.
    pub fn apply(&mut self, ev: &Event)
        requires
            ev matches Event::Open { id, .. } ==> id < u64::MAX,
        ensures
            final(self).incidents@ == applied(old(self).incidents@, ev@),
            *final(self) == (StatusEngine { incidents: final(self).incidents, ..*old(self) }),
    {
        self.incidents.apply(ev);
    }

    /// Takes in a round and returns the log entries that it gives, already
    /// applied.
    pub fn process_round(&mut self, r: &RoundResult) -> (events: Vec<Event>)
        requires
            old(self).wf(),
            r.wf(),
            old(self).ids_left(r.target@),
        ensures
            final(self).wf(),
            exists|changes: Seq<Change>|
                {
                    &&& #[trigger] old(self).observed(*r, *final(self), changes)
                    &&& entries_of(events@) == transitions(
                        old(self).incidents@,
                        old(self).components@,
                        changes,
                        start_of(*r),
                    )
                },
            final(self).incidents@ == replayed(old(self).incidents@, entries_of(events@)),
    {
        let ghost start = *self;
        let ts: i64 = r.started_secs();
        let changes = self.observe(r);
        let ghost mid = *self;
        let ghost log0 = start.incidents@;
        let ghost comps = start.components@;
        let mut events: Vec<Event> = Vec::new();
        let mut i: usize = 0;
        let ghost cs = changes@;
        assert(cs.take(0) =~= Seq::empty());
        assert(entries_of(events@) =~= Seq::empty());
        while i < changes.len()
            invariant
                cs == changes@,
                i <= cs.len(),
                comps == start.components@,
                mid.components == start.components,
                log0 == start.incidents@,
                forall|k: int| 0 <= k < cs.len() ==> (#[trigger] cs[k]).component < comps.len(),
                *self == (StatusEngine { incidents: self.incidents, ..mid }),
                entries_of(events@) == transitions(log0, comps, cs.take(i as int), ts),
                self.incidents@ == replayed(log0, entries_of(events@)),
                cs.len() > 0 ==> start.incidents.next_id + cs.len() < u64::MAX,
                self.incidents.next_id <= start.incidents.next_id + i,
            decreases cs.len() - i,
        {
            assert(cs.take(i + 1).drop_last() == cs.take(i as int));
            assert(cs.take(i + 1).last() == cs[i as int]);
            let ch = changes[i];
            let more = self.incident_transition(ch.component, ch.new, ts);
            let ghost had = entries_of(events@);
            let ghost add = entries_of(more@);
            let ghost logi = self.incidents@;
            let ghost idi = self.incidents.next_id as int;
            let mut k: usize = 0;
            assert(add.take(0) =~= Seq::empty());
            assert(had + add.take(0) =~= had);
            assert forall|j: int| 0 <= j < add.len() implies (#[trigger] add[j] matches Entry::Open {
                id,
                ..
            } ==> id == idi) by {
                assert(logi.next_id as u64 == idi);
            }
            while k < more.len()
                invariant
                    forall|j: int|
                        0 <= j < add.len() ==> (#[trigger] add[j] matches Entry::Open { id, .. }
                            ==> id == idi),
                    add == entries_of(more@),
                    k <= more@.len(),
                    i < cs.len(),
                    had == transitions(log0, comps, cs.take(i as int), ts),
                    logi == replayed(log0, had),
                    logi.next_id == idi,
                    comps == start.components@,
                    mid.components == start.components,
                    ch == cs[i as int],
                    ch.component < comps.len(),
                    add == transition(logi, comps[ch.component as int], ch.new, ts),
                    *self == (StatusEngine { incidents: self.incidents, ..mid }),
                    self.incidents@ == replayed(logi, add.take(k as int)),
                    entries_of(events@) == had + add.take(k as int),
                    idi < u64::MAX,
                    idi <= self.incidents.next_id <= idi + 1,
                decreases more@.len() - k,
            {
                assert(add.take(k + 1).drop_last() == add.take(k as int));
                assert(add.take(k + 1).last() == more@[k as int]@);
                assert(add[k as int] == more@[k as int]@);
                self.apply(&more[k]);
                let ghost prior = events@;
                events.push(copy_event(&more[k]));
                assert(entries_of(events@) =~= entries_of(prior).push(add[k as int]));
                assert(had + add.take(k + 1) =~= (had + add.take(k as int)).push(add[k as int]));
                k = k + 1;
            }
            proof {
                assert(add.take(k as int) == add);
                replay_continues(log0, had, add);
            }
            i = i + 1;
        }
        proof {
            assert(cs.take(i as int) == cs);
            assert forall|t: Seq<char>| #[trigger] self.samples(t) == mid.samples(t) by {}
            assert forall|t: Seq<char>| #[trigger] self.target_standing(t)
                == mid.target_standing(t) by {}
            let f1 = |i: int| overall(mid.target_states(start.components@[i]));
            let f2 = |i: int| overall(self.target_states(start.components@[i]));
            assert forall|i: int| #[trigger] f2(i) == f1(i) by {
                assert(self.target_states(start.components@[i]) =~= mid.target_states(
                    start.components@[i],
                ));
            }
            assert(f2 =~= f1);
            assert(start.observed(*r, *self, cs));
        }
        events
    }
}

/// The second that a round started in; 0 where the clock was set before the
/// epoch.
pub open spec fn start_of(r: RoundResult) -> i64 {
    match r.start_secs() {
        Some(s) => s as i64,
        None => 0,
    }
}

fn copy_event(e: &Event) -> (r: Event)
    ensures
        r@ == e@,
{
    match e {
        Event::Open { id, component, title, ts } => Event::Open {
            id: *id,
            component: component.clone(),
            title: title.clone(),
            ts: *ts,
        },
        Event::Update { id, ts, message } => Event::Update {
            id: *id,
            ts: *ts,
            message: message.clone(),
        },
        Event::Resolve { id, ts } => Event::Resolve { id: *id, ts: *ts },
    }
}

/// A component's place, once for each time that it names the target.
pub open spec fn mentions(targets: Seq<Seq<char>>, target: Seq<char>, place: usize) -> Seq<usize>
    decreases targets.len(),
{
    if targets.len() == 0 {
        Seq::empty()
    } else {
        let before = mentions(targets.drop_last(), target, place);
        if targets.last() == target {
            before.push(place)
        } else {
            before
        }
    }
}

/// The places of the components that a target backs, in order.
pub open spec fn backed(components: Seq<Component>, target: Seq<char>) -> Seq<usize>
    decreases components.len(),
{
    if components.len() == 0 {
        Seq::empty()
    } else {
        backed(components.drop_last(), target) + mentions(
            text::texts(components.last().targets@),
            target,
            (components.len() - 1) as usize,
        )
    }
}

/// The map gives each target these places, and has no other target.
pub open spec fn maps(m: NameMap<Vec<usize>>, places: spec_fn(Seq<char>) -> Seq<usize>) -> bool {
    &&& m.wf()
    &&& forall|t: Seq<char>| #[trigger]
        m.has(t) ==> places(t).len() > 0 && m.at(t)@ == places(t)
    &&& forall|t: Seq<char>| !(#[trigger] m.has(t)) ==> places(t).len() == 0
}

/// Whether the two functions give the same places.
proof fn lemma_maps(
    m: NameMap<Vec<usize>>,
    p: spec_fn(Seq<char>) -> Seq<usize>,
    q: spec_fn(Seq<char>) -> Seq<usize>,
)
    requires
        maps(m, p),
        forall|t: Seq<char>| #[trigger] p(t) == q(t),
    ensures
        maps(m, q),
{
    assert forall|t: Seq<char>| #[trigger] m.has(t) implies q(t).len() > 0 && m.at(t)@ == q(t) by {
        assert(p(t) == q(t));
    }
    assert forall|t: Seq<char>| !(#[trigger] m.has(t)) implies q(t).len() == 0 by {
        assert(p(t) == q(t));
    }
}

/// Adds one place to a target's.
fn add_place(
    m: &mut NameMap<Vec<usize>>,
    target: &String,
    place: usize,
    Ghost(p): Ghost<spec_fn(Seq<char>) -> Seq<usize>>,
)
    requires
        maps(*old(m), p),
    ensures
        maps(
            *final(m),
            |t: Seq<char>|
                if t == target@ {
                    p(t).push(place)
                } else {
                    p(t)
                },
        ),
{
    let mut places: Vec<usize> = match m.get(target.as_str()) {
        Some(v) => copy_places(v),
        None => Vec::new(),
    };
    let ghost before = *m;
    proof {
        if !before.has(target@) {
            assert(p(target@) =~= Seq::empty());
        }
    }
    places.push(place);
    let ghost ps = places@;
    m.insert(target.clone(), places);
    proof {
        let q = |t: Seq<char>|
            if t == target@ {
                p(t).push(place)
            } else {
                p(t)
            };
        assert(ps == q(target@));
        assert forall|t: Seq<char>| #[trigger] m.has(t) implies q(t).len() > 0 && m.at(t)@ == q(
            t,
        ) by {
            if t != target@ {
                assert(m.lookup(t) == before.lookup(t));
                assert(before.has(t));
            }
        }
        assert forall|t: Seq<char>| !(#[trigger] m.has(t)) implies q(t).len() == 0 by {
            assert(!before.has(t));
        }
    }
}

fn copy_places(v: &Vec<usize>) -> (r: Vec<usize>)
    ensures
        r@ == v@,
{
    let mut out: Vec<usize> = Vec::new();
    let mut i: usize = 0;
    while i < v.len()
        invariant
            i <= v@.len(),
            out@ == v@.take(i as int),
        decreases v@.len() - i,
    {
        out.push(v[i]);
        i = i + 1;
        assert(out@ =~= v@.take(i as int));
    }
    assert(v@.take(i as int) =~= v@);
    out
}

/// The places of a target's components are places of components.
proof fn lemma_backed(components: Seq<Component>, target: Seq<char>)
    requires
        components.len() <= usize::MAX,
    ensures
        forall|j: int|
            0 <= j < backed(components, target).len() ==> (#[trigger] backed(
                components,
                target,
            )[j]) < components.len(),
    decreases components.len(),
{
    if components.len() > 0 {
        lemma_backed(components.drop_last(), target);
        let prior = backed(components.drop_last(), target);
        let more = mentions(
            text::texts(components.last().targets@),
            target,
            (components.len() - 1) as usize,
        );
        lemma_mentions(
            text::texts(components.last().targets@),
            target,
            (components.len() - 1) as usize,
        );
        let all = backed(components, target);
        assert forall|j: int| 0 <= j < all.len() implies (#[trigger] all[j]) < components.len() by {
            if j < prior.len() {
                assert(all[j] == prior[j]);
            } else {
                assert(all[j] == more[j - prior.len()]);
            }
        }
    }
}

proof fn lemma_mentions(targets: Seq<Seq<char>>, target: Seq<char>, place: usize)
    ensures
        forall|j: int|
            0 <= j < mentions(targets, target, place).len() ==> (#[trigger] mentions(
                targets,
                target,
                place,
            )[j]) == place,
    decreases targets.len(),
{
    if targets.len() > 0 {
        lemma_mentions(targets.drop_last(), target, place);
        let prior = mentions(targets.drop_last(), target, place);
        let all = mentions(targets, target, place);
        assert forall|j: int| 0 <= j < all.len() implies (#[trigger] all[j]) == place by {
            if j < prior.len() {
                assert(all[j] == prior[j]);
            }
        }
    }
}

/// The components that each target backs.
fn index_targets(components: &Vec<Component>) -> (m: NameMap<Vec<usize>>)
    ensures
        maps(m, |t: Seq<char>| backed(components@, t)),
{
    let mut m: NameMap<Vec<usize>> = NameMap::new();
    let ghost cs = components@;
    let mut i: usize = 0;
    proof {
        assert(cs.take(0) =~= Seq::empty());
    }
    while i < components.len()
        invariant
            cs == components@,
            i <= cs.len(),
            maps(m, |t: Seq<char>| backed(cs.take(i as int), t)),
        decreases cs.len() - i,
    {
        let c = &components[i];
        let ghost ts = text::texts(c.targets@);
        let ghost part = cs.take(i as int);
        let mut j: usize = 0;
        proof {
            assert(ts.take(0) =~= Seq::empty());
            let q = |t: Seq<char>| backed(part, t) + mentions(ts.take(0), t, i);
            let p = |t: Seq<char>| backed(part, t);
            assert forall|t: Seq<char>| #[trigger] p(t) == q(t) by {
                assert(backed(part, t) + mentions(ts.take(0), t, i) =~= backed(part, t));
            }
            lemma_maps(m, p, q);
        }
        while j < c.targets.len()
            invariant
                ts == text::texts(c.targets@),
                j <= ts.len(),
                maps(m, |t: Seq<char>| backed(part, t) + mentions(ts.take(j as int), t, i)),
            decreases ts.len() - j,
        {
            let ghost p = |t: Seq<char>| backed(part, t) + mentions(ts.take(j as int), t, i);
            let ghost name = c.targets@[j as int]@;
            add_place(&mut m, &c.targets[j], i, Ghost(p));
            proof {
                assert(ts.take(j + 1).drop_last() == ts.take(j as int));
                assert(ts.take(j + 1).last() == name);
                let q = |t: Seq<char>|
                    if t == name {
                        p(t).push(i)
                    } else {
                        p(t)
                    };
                let r = |t: Seq<char>| backed(part, t) + mentions(ts.take(j + 1), t, i);
                assert forall|t: Seq<char>| #[trigger] q(t) == r(t) by {
                    assert(q(t) =~= r(t));
                }
                lemma_maps(m, q, r);
            }
            j = j + 1;
        }
        proof {
            assert(ts.take(j as int) == ts);
            assert(cs.take(i + 1).drop_last() == part);
            assert(cs.take(i + 1).last() == *c);
            let p = |t: Seq<char>| backed(part, t) + mentions(ts.take(j as int), t, i);
            let r = |t: Seq<char>| backed(cs.take(i + 1), t);
            assert forall|t: Seq<char>| #[trigger] p(t) == r(t) by {}
            lemma_maps(m, p, r);
        }
        i = i + 1;
    }
    assert(cs.take(i as int) == cs);
    m
}

/// The larger number.
pub open spec fn larger(a: nat, b: nat) -> nat {
    if a > b {
        a
    } else {
        b
    }
}

/// The rounds that a component's patterns look at.
pub open spec fn reach(c: Component) -> nat {
    let losses = larger(
        pattern::depth_of(c.degraded_loss.elems@),
        pattern::depth_of(c.down_loss.elems@),
    );
    match c.degraded_rtt {
        Some(p) => larger(losses, pattern::depth_of(p.elems@)),
        None => losses,
    }
}

/// How many rounds of a target are kept: what the patterns look at, and eight
/// at least.
pub open spec fn kept_rounds(components: Seq<Component>) -> nat
    decreases components.len(),
{
    if components.len() == 0 {
        8
    } else {
        larger(kept_rounds(components.drop_last()), reach(components.last()))
    }
}

fn deepest(components: &Vec<Component>) -> (r: usize)
    ensures
        r == (if kept_rounds(components@) > usize::MAX {
            usize::MAX as nat
        } else {
            kept_rounds(components@)
        }),
{
    let ghost cs = components@;
    let mut most: usize = 8;
    let mut i: usize = 0;
    assert(cs.take(0) =~= Seq::empty());
    while i < components.len()
        invariant
            cs == components@,
            i <= cs.len(),
            most == (if kept_rounds(cs.take(i as int)) > usize::MAX {
                usize::MAX as nat
            } else {
                kept_rounds(cs.take(i as int))
            }),
        decreases cs.len() - i,
    {
        assert(cs.take(i + 1).drop_last() == cs.take(i as int));
        assert(cs.take(i + 1).last() == cs[i as int]);
        let c = &components[i];
        let a: usize = c.degraded_loss.depth();
        let b: usize = c.down_loss.depth();
        let d: usize = match &c.degraded_rtt {
            Some(p) => p.depth(),
            None => 0,
        };
        if a > most {
            most = a;
        }
        if b > most {
            most = b;
        }
        if d > most {
            most = d;
        }
        i = i + 1;
    }
    assert(cs.take(i as int) == cs);
    most
}

/// A log that is replayed never runs out of numbers.
pub open spec fn numbered(events: Seq<Event>) -> bool {
    forall|i: int|
        0 <= i < events.len() ==> ((#[trigger] events[i]) matches Event::Open { id, .. } ==> id
            < u64::MAX)
}

impl IncidentLog {
    /// The incidents that a written log tells of.
    pub fn load(events: &Vec<Event>) -> (l: IncidentLog)
        requires
            numbered(events@),
        ensures
            l@ == replayed(empty_log(), entries_of(events@)),
    {
        let mut log = IncidentLog::new();
        let ghost all = entries_of(events@);
        let mut i: usize = 0;
        assert(all.take(0) =~= Seq::empty());
        while i < events.len()
            invariant
                numbered(events@),
                all == entries_of(events@),
                i <= events@.len(),
                log@ == replayed(empty_log(), all.take(i as int)),
            decreases events@.len() - i,
        {
            assert(all.take(i + 1).drop_last() == all.take(i as int));
            assert(all.take(i + 1).last() == events@[i as int]@);
            log.apply(&events[i]);
            i = i + 1;
        }
        assert(all.take(i as int) == all);
        log
    }
}

impl StatusEngine {
    /// The engine is the fresh one of a configuration.
    pub open spec fn fresh(self, cfg: Config) -> bool {
        let defs = definitions(cfg);
        &&& self.wf()
        &&& cfg.status matches Some(s)
        &&& self.title@ == or_else(s.title, "dabping status"@)
        &&& self.history_days == s.history_days
        &&& match s.admin_token {
            None => self.admin_token is None,
            Some(t) => self.admin_token matches Some(own) && own@ == t@,
        }
        &&& self.components@.len() == defs.len()
        &&& forall|i: int|
            0 <= i < defs.len() ==> (#[trigger] self.components@[i]).of(defs[i].0@, defs[i].1)
        &&& maps(self.by_target, |t: Seq<char>| backed(self.components@, t))
        &&& self.history_depth == (if kept_rounds(self.components@) > usize::MAX {
            usize::MAX as nat
        } else {
            kept_rounds(self.components@)
        })
        &&& self.history.entries@.len() == 0
        &&& self.target_state.entries@.len() == 0
        &&& forall|i: int|
            0 <= i < self.comp_state@.len() ==> (#[trigger] self.comp_state@[i])
                == Severity::Operational
    }

    /// The engine of a configuration, with the incidents of a written log.
    /// None when there is no status section, or no components.
    pub fn new(cfg: &Config, events: &Vec<Event>) -> (r: Result<Option<StatusEngine>, StatusError>)
        requires
            cfg.wf(),
            numbered(events@),
        ensures
            match r {
                Err(e) => status_refusal(*cfg) == Some(e@),
                Ok(None) => status_refusal(*cfg) is None && definitions(*cfg).len() == 0,
                Ok(Some(engine)) => {
                    &&& status_refusal(*cfg) is None
                    &&& definitions(*cfg).len() > 0
                    &&& engine.fresh(*cfg)
                    &&& engine.incidents@ == replayed(empty_log(), entries_of(events@))
                },
            },
    {
        let components = match parse_components(cfg) {
            Err(e) => {
                return Err(e);
            },
            Ok(c) => c,
        };
        if components.len() == 0 {
            return Ok(None);
        }
        let status = match &cfg.status {
            None => {
                return Ok(None);
            },
            Some(s) => s,
        };
        let by_target = index_targets(&components);
        let history_depth = deepest(&components);
        let title = match &status.title {
            Some(t) => t.clone(),
            None => "dabping status".to_owned(),
        };
        let admin_token = match &status.admin_token {
            Some(t) => Some(t.clone()),
            None => None,
        };
        let mut comp_state: Vec<Severity> = Vec::new();
        let mut i: usize = 0;
        while i < components.len()
            invariant
                i <= components@.len(),
                comp_state@.len() == i,
                forall|j: int| 0 <= j < i ==> (#[trigger] comp_state@[j]) == Severity::Operational,
            decreases components@.len() - i,
        {
            comp_state.push(Severity::Operational);
            i = i + 1;
        }
        let engine = StatusEngine {
            title,
            history_days: status.history_days,
            admin_token,
            components,
            by_target,
            history_depth,
            history: NameMap::new(),
            target_state: NameMap::new(),
            comp_state,
            incidents: IncidentLog::load(events),
        };
        proof {
            let m = engine.by_target;
            assert forall|i: int, j: int|
                0 <= i < m.entries@.len() && 0 <= j < m.entries@[i].1@.len() implies (
            #[trigger] m.entries@[i].1@[j]) < engine.components@.len() by {
                m.lemma_place(i);
                let t = m.entries@[i].0@;
                assert(m.has(t));
                lemma_backed(engine.components@, t);
                assert(m.at(t)@ == backed(engine.components@, t));
            }
        }
        Ok(Some(engine))
    }
}

/// How a component stands on the status page.
pub open spec fn snapshot_of(c: Component, status: Severity, s: ComponentSnapshot) -> bool {
    &&& s.key@ == c.key@
    &&& s.name@ == c.name@
    &&& s.group@ == c.group@
    &&& s.status == status
}

/// The worst of the states; operational where there is none.
pub open spec fn worst(states: Seq<Severity>) -> Severity
    decreases states.len(),
{
    if states.len() == 0 {
        Severity::Operational
    } else {
        worse(worst(states.drop_last()), states.last())
    }
}

/// Why an administrative request is refused.
#[derive(Clone, Copy, Debug, PartialEq, Eq, Structural)]
pub enum AdminError {
    /// No token is configured.
    Disabled,
    /// The token is wrong, or missing.
    BadToken,
    NoIncident(u64),
    NoOpenIncident(u64),
}

impl AdminError {
    pub open spec fn text(self) -> Seq<char> {
        match self {
            AdminError::Disabled => {
                "incident administration is disabled (no status.admin_token configured)"@
            },
            AdminError::BadToken => "bad or missing X-Dabping-Token"@,
            AdminError::NoIncident(id) => "no incident #"@ + text::decimal(id as nat),
            AdminError::NoOpenIncident(id) => "no open incident #"@ + text::decimal(id as nat),
        }
    }

    pub fn message(&self) -> (r: String)
        ensures
            r@ == self.text(),
    {
        match self {
            AdminError::Disabled => {
                "incident administration is disabled (no status.admin_token configured)".to_owned()
            },
            AdminError::BadToken => "bad or missing X-Dabping-Token".to_owned(),
            AdminError::NoIncident(id) => {
                let mut m = "no incident #".to_owned();
                m.append(decimal_u64(*id).as_str());
                m
            },
            AdminError::NoOpenIncident(id) => {
                let mut m = "no open incident #".to_owned();
                m.append(decimal_u64(*id).as_str());
                m
            },
        }
    }
}

/// There is an incident with this number.
pub open spec fn has_case(cases: Seq<Case>, id: u64) -> bool {
    exists|i: int| 0 <= i < cases.len() && (#[trigger] cases[i]).id == id
}

/// There is an incident with this number that was not resolved.
pub open spec fn has_open_case(cases: Seq<Case>, id: u64) -> bool {
    exists|i: int|
        0 <= i < cases.len() && (#[trigger] cases[i]).id == id && cases[i].resolved is None
}

impl StatusEngine {
    /// The worst state, and each component's.
    pub fn snapshot(&self) -> (r: (Severity, Vec<ComponentSnapshot>))
        requires
            self.wf(),
        ensures
            r.0 == worst(self.comp_state@),
            r.1@.len() == self.components@.len(),
            forall|i: int|
                0 <= i < r.1@.len() ==> snapshot_of(
                    self.components@[i],
                    self.comp_state@[i],
                    #[trigger] r.1@[i],
                ),
    {
        let mut comps: Vec<ComponentSnapshot> = Vec::new();
        let mut most = Severity::Operational;
        let ghost cs = self.comp_state@;
        let mut i: usize = 0;
        assert(cs.take(0) =~= Seq::empty());
        while i < self.components.len()
            invariant
                self.wf(),
                cs == self.comp_state@,
                i <= self.components@.len(),
                most == worst(cs.take(i as int)),
                comps@.len() == i,
                forall|j: int|
                    0 <= j < i ==> snapshot_of(
                        self.components@[j],
                        self.comp_state@[j],
                        #[trigger] comps@[j],
                    ),
            decreases self.components@.len() - i,
        {
            assert(cs.take(i + 1).drop_last() == cs.take(i as int));
            assert(cs.take(i + 1).last() == cs[i as int]);
            let c = &self.components[i];
            let status = self.comp_state[i];
            comps.push(
                ComponentSnapshot {
                    key: c.key.clone(),
                    name: c.name.clone(),
                    group: c.group.clone(),
                    status,
                },
            );
            most = most.worse(status);
            i = i + 1;
        }
        assert(cs.take(i as int) == cs);
        (most, comps)
    }

    pub fn incidents(&self) -> (r: &Vec<Incident>)
        ensures
            *r == self.incidents.incidents,
    {
        &self.incidents.incidents
    }

    pub fn components(&self) -> (r: &Vec<Component>)
        ensures
            *r == self.components,
    {
        &self.components
    }

    /// Why a token is refused, if it is.
    pub open spec fn token_refusal(self, token: Option<Seq<char>>) -> Option<AdminError> {
        match self.admin_token {
            None => Some(AdminError::Disabled),
            Some(expected) => if token == Some(expected@) {
                None
            } else {
                Some(AdminError::BadToken)
            },
        }
    }

    fn check_token(&self, token: Option<&str>) -> (r: Option<AdminError>)
        ensures
            r == self.token_refusal(given(token)),
    {
        match &self.admin_token {
            None => Some(AdminError::Disabled),
            Some(expected) => match token {
                Some(t) => if same(t, expected.as_str()) {
                    None
                } else {
                    Some(AdminError::BadToken)
                },
                None => Some(AdminError::BadToken),
            },
        }
    }

    fn find_case(&self, id: u64, only_open: bool) -> (r: bool)
        ensures
            r == (if only_open {
                has_open_case(self.incidents@.cases, id)
            } else {
                has_case(self.incidents@.cases, id)
            }),
    {
        let ghost cases = self.incidents@.cases;
        let mut i: usize = 0;
        while i < self.incidents.incidents.len()
            invariant
                cases == self.incidents@.cases,
                i <= cases.len(),
                cases.len() == self.incidents.incidents@.len(),
                forall|j: int|
                    0 <= j < i ==> !((#[trigger] cases[j]).id == id && (only_open
                        ==> cases[j].resolved is None)),
            decreases cases.len() - i,
        {
            let c = &self.incidents.incidents[i];
            assert(cases[i as int] == c@);
            if c.id == id && (!only_open || c.resolved.is_none()) {
                return true;
            }
            i = i + 1;
        }
        false
    }

    /// The entries of an update that an administrator asks for, to be written
    /// and applied.
    pub fn manual_update(
        &self,
        id: u64,
        message: &str,
        token: Option<&str>,
        ts: i64,
    ) -> (r: Result<Vec<Event>, AdminError>)
        ensures
            match r {
                Err(e) => match self.token_refusal(given(token)) {
                    Some(refusal) => e == refusal,
                    None => !has_case(self.incidents@.cases, id) && e == AdminError::NoIncident(id),
                },
                Ok(events) => {
                    &&& self.token_refusal(given(token)) is None
                    &&& has_case(self.incidents@.cases, id)
                    &&& entries_of(events@) == seq![Entry::Update { id, ts, message: message@ }]
                },
            },
    {
        match self.check_token(token) {
            Some(e) => {
                return Err(e);
            },
            None => {},
        }
        if !self.find_case(id, false) {
            return Err(AdminError::NoIncident(id));
        }
        let mut events: Vec<Event> = Vec::new();
        events.push(Event::Update { id, ts, message: message.to_owned() });
        assert(entries_of(events@) =~= seq![Entry::Update { id, ts, message: message@ }]);
        Ok(events)
    }

    /// The entries of a resolution that an administrator asks for, to be
    /// written and applied.
    pub fn manual_resolve(&self, id: u64, token: Option<&str>, ts: i64) -> (r: Result<
        Vec<Event>,
        AdminError,
    >)
        ensures
            match r {
                Err(e) => match self.token_refusal(given(token)) {
                    Some(refusal) => e == refusal,
                    None => !has_open_case(self.incidents@.cases, id) && e
                        == AdminError::NoOpenIncident(id),
                },
                Ok(events) => {
                    &&& self.token_refusal(given(token)) is None
                    &&& has_open_case(self.incidents@.cases, id)
                    &&& entries_of(events@) == seq![
                        Entry::Update { id, ts, message: "Manually resolved"@ },
                        Entry::Resolve { id, ts },
                    ]
                },
            },
    {
        match self.check_token(token) {
            Some(e) => {
                return Err(e);
            },
            None => {},
        }
        if !self.find_case(id, true) {
            return Err(AdminError::NoOpenIncident(id));
        }
        let mut events: Vec<Event> = Vec::new();
        events.push(Event::Update { id, ts, message: "Manually resolved".to_owned() });
        events.push(Event::Resolve { id, ts });
        assert(entries_of(events@) =~= seq![
            Entry::Update { id, ts, message: "Manually resolved"@ },
            Entry::Resolve { id, ts },
        ]);
        Ok(events)
    }
}

/// A text that may be missing.
pub open spec fn given(s: Option<&str>) -> Option<Seq<char>> {
    match s {
        Some(t) => Some(t@),
        None => None,
    }
}

// ---- uptime ----

pub const SECS_PER_DAY: i64 = 86_400;

pub const HUNDRED_BITS: u64 = 0x4059_0000_0000_0000;

/// The losses of a day, added up one by one, and how many there are. A point
/// without a known loss does not count.
pub open spec fn day_losses(
    before: (Double, nat),
    points: Seq<(int, Seq<Double>)>,
    day: int,
) -> (Double, nat)
    decreases points.len(),
{
    if points.len() == 0 {
        before
    } else {
        let (sum, n) = day_losses(before, points.drop_last(), day);
        let (ts, vals) = points.last();
        if vals[0].nan() || ts / SECS_PER_DAY as int != day {
            (sum, n)
        } else {
            (double::sum(sum, vals[0]), n + 1)
        }
    }
}

/// The losses of a day over several targets. A target without a series does
/// not count.
pub open spec fn all_losses(
    store: Store,
    targets: Seq<String>,
    images: Seq<Option<&[u8]>>,
    days: u32,
    now: int,
    day: int,
) -> (Double, nat)
    decreases targets.len(),
{
    if targets.len() == 0 {
        (Double { bits: 0 }, 0)
    } else {
        let before = all_losses(store, targets.drop_last(), images, days, now, day);
        match store.result(
            targets.last()@,
            images[targets.len() - 1],
            Cf::Average,
            now - days * SECS_PER_DAY,
            now,
            (days * 24) as u64,
        ) {
            None => before,
            Some((_, points)) => day_losses(before, points, day),
        }
    }
}

/// A day's availability: a hundred less the mean loss.
pub open spec fn availability(losses: (Double, nat)) -> Option<Double> {
    let (sum, n) = losses;
    if n == 0 {
        None
    } else {
        Some(
            double::sum(
                Double { bits: HUNDRED_BITS },
                double::negated(double::quotient(sum, double::of_int(n))),
            ),
        )
    }
}

/// The days up to now, each with its start and its availability.
pub open spec fn uptimes(
    store: Store,
    targets: Seq<String>,
    images: Seq<Option<&[u8]>>,
    days: u32,
    now: int,
) -> Seq<(i64, Option<Double>)> {
    Seq::new(
        (days + 1) as nat,
        |k: int|
            {
                let day = now / SECS_PER_DAY as int - days + k;
                (
                    (day * SECS_PER_DAY) as i64,
                    availability(all_losses(store, targets, images, days, now, day)),
                )
            },
    )
}

/// The day that a time falls on, counted from the epoch.
fn day_of(ts: i64) -> (d: i64)
    ensures
        d == ts as int / SECS_PER_DAY as int,
{
    let wide: i128 = ts as i128;
    if wide >= 0 {
        (wide / 86_400) as i64
    } else {
        let up: i128 = -wide + 86_399;
        let q: i128 = up / 86_400;
        assert(q == (-(ts as int) + 86_399) / 86_400);
        assert(ts as int / 86_400 == -q) by (nonlinear_arith)
            requires
                q == (-(ts as int) + 86_399) / 86_400,
        ;
        (-q) as i64
    }
}

/// Adds one target's points to the days' losses.
fn count_losses(acc: &mut Vec<(Double, u128)>, points: &Vec<Point>, first_day: i64)
    requires
        forall|k: int| 0 <= k < old(acc)@.len() ==> (#[trigger] old(acc)@[k]).1 + points@.len()
            <= u128::MAX,
        old(acc)@.len() + first_day <= i64::MAX,
    ensures
        final(acc)@.len() == old(acc)@.len(),
        forall|k: int|
            0 <= k < final(acc)@.len() ==> ({
                let (sum, n) = #[trigger] final(acc)@[k];
                &&& (sum, n as nat) == day_losses(
                    (old(acc)@[k].0, old(acc)@[k].1 as nat),
                    points@.map_values(|p: Point| p.raw()),
                    first_day + k,
                )
                &&& n <= old(acc)@[k].1 + points@.len()
            }),
{
    let ghost start = acc@;
    let ghost raw = points@.map_values(|p: Point| p.raw());
    let mut i: usize = 0;
    assert(raw.take(0) =~= Seq::empty());
    while i < points.len()
        invariant
            raw == points@.map_values(|p: Point| p.raw()),
            i <= points@.len(),
            acc@.len() == start.len(),
            start.len() + first_day <= i64::MAX,
            forall|k: int| 0 <= k < start.len() ==> (#[trigger] start[k]).1 + points@.len()
                <= u128::MAX,
            forall|k: int|
                0 <= k < acc@.len() ==> ({
                    let (sum, n) = #[trigger] acc@[k];
                    &&& (sum, n as nat) == day_losses(
                        (start[k].0, start[k].1 as nat),
                        raw.take(i as int),
                        first_day + k,
                    )
                    &&& n <= start[k].1 + i
                }),
        decreases points@.len() - i,
    {
        assert(raw.take(i + 1).drop_last() == raw.take(i as int));
        assert(raw.take(i + 1).last() == points@[i as int].raw());
        let p = &points[i];
        assert(p.raw().1[0] == p.loss);
        let day: i64 = day_of(p.ts);
        let ghost was = acc@;
        if !p.loss.is_nan() && day >= first_day && ((day as i128) - (first_day as i128))
            < acc.len() as i128 {
            let k: usize = ((day as i128) - (first_day as i128)) as usize;
            assert(start[k as int].1 + points@.len() <= u128::MAX);
            let (sum, n) = acc[k];
            acc.set(k, (sum.plus(p.loss), n + 1));
        }
        i = i + 1;
        assert forall|k: int| 0 <= k < acc@.len() implies ({
            let (sum, n) = #[trigger] acc@[k];
            &&& (sum, n as nat) == day_losses(
                (start[k].0, start[k].1 as nat),
                raw.take(i as int),
                first_day + k,
            )
            &&& n <= start[k].1 + i
        }) by {
            let (sum, n) = was[k];
            assert((sum, n as nat) == day_losses(
                (start[k].0, start[k].1 as nat),
                raw.take(i - 1),
                first_day + k,
            ));
        }
    }
    assert(raw.take(i as int) == raw);
}

/// The times of so many days back have 64 bits, as have the rows between them
/// and now.
pub open spec fn reaches(store: Store, days: u32, now: int) -> bool {
    &&& days < u32::MAX
    &&& i64::MIN <= (now / SECS_PER_DAY as int - days) * SECS_PER_DAY
    &&& store.layout.spans(now - days * SECS_PER_DAY, now)
}

/// Whether availability can be told of so many days.
pub fn can_reach(store: &Store, days: u32, now: i64) -> (r: bool)
    requires
        store.wf(),
    ensures
        r == reaches(*store, days, now as int),
{
    if days == u32::MAX {
        return false;
    }
    let first: i128 = day_of(now) as i128 - days as i128;
    let from: i128 = now as i128 - days as i128 * SECS_PER_DAY as i128;
    if first * (SECS_PER_DAY as i128) < i64::MIN as i128 || from < i64::MIN as i128 {
        proof {
            if from < i64::MIN && store.layout.spans(from as int, now as int) {
                store::series::lemma_alignable_after(store.layout, from as int, now as int);
            }
        }
        return false;
    }
    store.layout.can_span(from as i64, now)
}

/// Daily availability for a set of targets: 100 - mean(loss%) over each
/// day's consolidated points, averaged across the component's targets.
/// None = no data that day. Each target has its series, or none, in `images`.
pub fn uptime_days(
    store: &Store,
    targets: &Vec<String>,
    images: &Vec<Option<&[u8]>>,
    days: u32,
    now: i64,
) -> (r: Vec<(i64, Option<Double>)>)
    requires
        store.wf(),
        targets@.len() == images@.len(),
        targets@.len() <= u32::MAX,
        reaches(*store, days, now as int),
        forall|i: int|
            0 <= i < images@.len() ==> ((#[trigger] images@[i]) matches Some(b)
                ==> store.layout.sized(b@)),
    ensures
        r@ == uptimes(*store, targets@, images@, days, now as int),
{
    proof {
        store::series::lemma_alignable_after(store.layout, now - days * SECS_PER_DAY, now as int);
    }
    let from: i64 = now - days as i64 * SECS_PER_DAY;
    let today: i64 = day_of(now);
    let first_day: i64 = day_of(from);
    proof {
        assert(now / 86_400 - days == (now - days * 86_400) / 86_400) by (nonlinear_arith);
    }
    let count: usize = days as usize + 1;
    let mut acc: Vec<(Double, u128)> = Vec::new();
    let mut i: usize = 0;
    while i < count
        invariant
            i <= count,
            acc@.len() == i,
            forall|k: int| 0 <= k < i ==> (#[trigger] acc@[k]) == (Double { bits: 0 }, 0u128),
        decreases count - i,
    {
        acc.push((Double { bits: 0 }, 0u128));
        i = i + 1;
    }
    let mut t: usize = 0;
    assert(targets@.take(0) =~= Seq::empty());
    while t < targets.len()
        invariant
            store.wf(),
            targets@.len() == images@.len(),
            targets@.len() <= u32::MAX,
            days < u32::MAX,
            reaches(*store, days, now as int),
            i64::MIN <= from <= now,
            from == now - days * SECS_PER_DAY,
            count == days + 1,
            first_day + count <= i64::MAX,
            forall|i: int|
                0 <= i < images@.len() ==> ((#[trigger] images@[i]) matches Some(b)
                    ==> store.layout.sized(b@)),
            t <= targets@.len(),
            acc@.len() == count,
            forall|k: int|
                0 <= k < count ==> ({
                    let (sum, n) = #[trigger] acc@[k];
                    &&& (sum, n as nat) == all_losses(
                        *store,
                        targets@.take(t as int),
                        images@,
                        days,
                        now as int,
                        first_day + k,
                    )
                    &&& n <= t * usize::MAX
                }),
        decreases targets@.len() - t,
    {
        assert(targets@.take(t + 1).drop_last() == targets@.take(t as int));
        assert(targets@.take(t + 1).last() == targets@[t as int]);
        let ghost was = acc@;
        assert(images@[t as int] matches Some(b) ==> store.layout.sized(b@));
        proof {
            store::series::lemma_alignable_after(store.layout, from as int, now as int);
            assert(t * usize::MAX + usize::MAX == (t + 1) * usize::MAX) by (nonlinear_arith);
            assert((t + 1) * usize::MAX <= u128::MAX) by (nonlinear_arith)
                requires
                    t <= 0xffff_ffff,
                    usize::MAX <= 0xffff_ffff_ffff_ffff,
            ;
        }
        match store.fetch(
            targets[t].as_str(),
            images[t],
            Cf::Average,
            from,
            now,
            days as u64 * 24,
        ) {
            Err(_) => {},
            Ok(f) => {
                assert(f@.1 =~= f.points@.map_values(|p: Point| p.raw()));
                let found: usize = f.points.len();
                assert(f.points@.len() == found);
                assert forall|k: int| 0 <= k < acc@.len() implies (#[trigger] acc@[k]).1
                    + f.points@.len() <= u128::MAX by {
                    let (sum, n) = acc@[k];
                    assert(n <= t * usize::MAX);
                }
                count_losses(&mut acc, &f.points, first_day);
            },
        }
        assert forall|k: int| 0 <= k < count implies ({
            let (sum, n) = #[trigger] acc@[k];
            &&& (sum, n as nat) == all_losses(
                *store,
                targets@.take(t + 1),
                images@,
                days,
                now as int,
                first_day + k,
            )
            &&& n <= (t + 1) * usize::MAX
        }) by {
            let (sum, n) = was[k];
            assert(n <= t * usize::MAX);
            let (sum2, n2) = acc@[k];
        }
        t = t + 1;
    }
    assert(targets@.take(t as int) == targets@);
    let mut out: Vec<(i64, Option<Double>)> = Vec::new();
    let mut k: usize = 0;
    while k < count
        invariant
            targets@.len() <= u32::MAX,
            count == days + 1,
            acc@.len() == count,
            first_day == now as int / SECS_PER_DAY as int - days,
            first_day + count <= i64::MAX,
            reaches(*store, days, now as int),
            k <= count,
            out@.len() == k,
            forall|j: int|
                0 <= j < count ==> ({
                    let (sum, n) = #[trigger] acc@[j];
                    &&& (sum, n as nat) == all_losses(
                        *store,
                        targets@,
                        images@,
                        days,
                        now as int,
                        first_day + j,
                    )
                    &&& n <= targets@.len() * usize::MAX
                }),
            forall|j: int|
                0 <= j < k ==> {
                    let day = now as int / SECS_PER_DAY as int - days + j;
                    (#[trigger] out@[j]) == (
                        (day * SECS_PER_DAY) as i64,
                        availability(all_losses(*store, targets@, images@, days, now as int, day)),
                    )
                },
        decreases count - k,
    {
        let (sum, n) = acc[k];
        assert(acc@[k as int] == (sum, n));
        assert(targets@.len() * usize::MAX < 0x8000_0000_0000_0000_0000_0000_0000_0000)
            by (nonlinear_arith)
            requires
                targets@.len() <= 0xffff_ffff,
                usize::MAX <= 0xffff_ffff_ffff_ffff,
        ;
        let pct: Option<Double> = if n == 0 {
            None
        } else {
            let mean = sum.over(Double::from_u128(n));
            Some(Double { bits: HUNDRED_BITS }.minus(mean))
        };
        let day: i64 = first_day + k as i64;
        assert((now as int / 86_400 - days) * 86_400 <= day * 86_400 <= now) by (nonlinear_arith)
            requires
                now as int / 86_400 - (days as int) <= day <= now as int / 86_400,
        ;
        out.push((day * SECS_PER_DAY, pct));
        k = k + 1;
    }
    assert(out@ =~= uptimes(*store, targets@, images@, days, now as int));
    out
}

// ---- laws ----

/// A log as the engine writes it: the numbers are distinct and used up, and
/// no component has two open incidents.
pub open spec fn sound(log: Log) -> bool {
    &&& forall|i: int| 0 <= i < log.cases.len() ==> (#[trigger] log.cases[i]).id < log.next_id
    &&& distinct(log)
    &&& forall|i: int, j: int|
        0 <= i < j < log.cases.len() && (#[trigger] log.cases[i]).component == (
        #[trigger] log.cases[j]).component ==> log.cases[i].resolved is Some
            || log.cases[j].resolved is Some
}

/// No two incidents have one number.
pub open spec fn distinct(log: Log) -> bool {
    forall|i: int, j: int|
        0 <= i < j < log.cases.len() ==> (#[trigger] log.cases[i]).id != (
        #[trigger] log.cases[j]).id
}

proof fn lemma_place_of(cases: Seq<Case>, id: u64)
    ensures
        0 <= place_of(cases, id) <= cases.len(),
        place_of(cases, id) < cases.len() ==> cases[place_of(cases, id)].id == id,
        forall|i: int| 0 <= i < place_of(cases, id) ==> (#[trigger] cases[i]).id != id,
    decreases cases.len(),
{
    if cases.len() > 0 && cases[0].id != id {
        let rest = cases.drop_first();
        lemma_place_of(rest, id);
        assert forall|i: int| 0 <= i < place_of(cases, id) implies (#[trigger] cases[i]).id
            != id by {
            if i > 0 {
                assert(rest[i - 1] == cases[i]);
            }
        }
    }
}

/// Where the open incident stands.
proof fn lemma_open_case(cases: Seq<Case>, component: Seq<char>)
    ensures
        match open_case(cases, component) {
            Some(id) => exists|i: int|
                0 <= i < cases.len() && (#[trigger] cases[i]).id == id && cases[i].component
                    == component && cases[i].resolved is None,
            None => forall|i: int|
                0 <= i < cases.len() && (#[trigger] cases[i]).component == component
                    ==> cases[i].resolved is Some,
        },
    decreases cases.len(),
{
    if cases.len() > 0 {
        let rest = cases.drop_last();
        lemma_open_case(rest, component);
        let last = cases[cases.len() - 1];
        if !(last.component == component && last.resolved is None) {
            match open_case(rest, component) {
                Some(id) => {
                    let i = choose|i: int|
                        0 <= i < rest.len() && (#[trigger] rest[i]).id == id && rest[i].component
                            == component && rest[i].resolved is None;
                    assert(cases[i] == rest[i]);
                },
                None => {
                    assert forall|i: int|
                        0 <= i < cases.len() && (#[trigger] cases[i]).component
                            == component implies cases[i].resolved is Some by {
                        if i < rest.len() {
                            assert(rest[i] == cases[i]);
                        }
                    }
                },
            }
        }
    }
}

/// Whether a component's incident is open does not depend on cases that keep
/// their component, number and resolution.
proof fn lemma_same_open(a: Seq<Case>, b: Seq<Case>, component: Seq<char>)
    requires
        a.len() == b.len(),
        forall|i: int|
            0 <= i < a.len() ==> {
                &&& (#[trigger] a[i]).id == b[i].id
                &&& a[i].component == b[i].component
                &&& a[i].component == component ==> (a[i].resolved is None
                    <==> b[i].resolved is None)
            },
    ensures
        open_case(a, component) == open_case(b, component),
    decreases a.len(),
{
    if a.len() > 0 {
        assert(a.last() == a[a.len() - 1]);
        assert forall|i: int| 0 <= i < a.drop_last().len() implies {
            &&& (#[trigger] a.drop_last()[i]).id == b.drop_last()[i].id
            &&& a.drop_last()[i].component == b.drop_last()[i].component
            &&& a.drop_last()[i].component == component ==> (a.drop_last()[i].resolved is None
                <==> b.drop_last()[i].resolved is None)
        } by {
            assert(a.drop_last()[i] == a[i]);
        }
        lemma_same_open(a.drop_last(), b.drop_last(), component);
    }
}

/// An update leaves a sound log sound, and every incident as open as it was.
proof fn lemma_updated(log: Log, id: u64, ts: i64, message: Seq<char>)
    ensures
        ({
            let after = applied(log, Entry::Update { id, ts, message });
            &&& sound(log) ==> sound(after)
            &&& distinct(log) ==> distinct(after)
            &&& after.next_id == log.next_id
            &&& after.cases.len() == log.cases.len()
            &&& forall|k: Seq<char>| #[trigger]
                open_case(after.cases, k) == open_case(log.cases, k)
        }),
{
    let after = applied(log, Entry::Update { id, ts, message });
    lemma_place_of(log.cases, id);
    assert forall|i: int| 0 <= i < log.cases.len() implies (#[trigger] after.cases[i]).id
        == log.cases[i].id && after.cases[i].component == log.cases[i].component
        && after.cases[i].resolved == log.cases[i].resolved by {}
    assert forall|k: Seq<char>| #[trigger] open_case(after.cases, k) == open_case(log.cases, k) by {
        lemma_same_open(after.cases, log.cases, k);
    }
}

/// Resolving the open incident of a component leaves none open of it, and the
/// other components' as they were.
proof fn lemma_resolved(log: Log, id: u64, ts: i64, component: Seq<char>)
    requires
        distinct(log),
        open_case(log.cases, component) == Some(id),
    ensures
        ({
            let after = applied(log, Entry::Resolve { id, ts });
            &&& sound(log) ==> sound(after) && open_case(after.cases, component) is None
            &&& forall|k: Seq<char>|
                k != component ==> #[trigger] open_case(after.cases, k) == open_case(log.cases, k)
        }),
{
    let after = applied(log, Entry::Resolve { id, ts });
    lemma_place_of(log.cases, id);
    lemma_open_case(log.cases, component);
    let at = choose|i: int|
        0 <= i < log.cases.len() && (#[trigger] log.cases[i]).id == id && log.cases[i].component
            == component && log.cases[i].resolved is None;
    let p = place_of(log.cases, id);
    assert(log.cases[at].id == id);
    assert(p <= at);
    assert(log.cases[p].id == id);
    assert(p == at);
    assert forall|i: int| 0 <= i < log.cases.len() implies (#[trigger] after.cases[i]).id
        == log.cases[i].id && after.cases[i].component == log.cases[i].component && (i != p
        ==> after.cases[i].resolved == log.cases[i].resolved) by {}
    assert(after.cases[p].resolved is Some);
    assert forall|k: Seq<char>| k != component implies #[trigger] open_case(after.cases, k)
        == open_case(log.cases, k) by {
        lemma_same_open(after.cases, log.cases, k);
    }
    lemma_open_case(after.cases, component);
    if sound(log) && open_case(after.cases, component) is Some {
        let j = choose|i: int|
            0 <= i < after.cases.len() && (#[trigger] after.cases[i]).component == component
                && after.cases[i].resolved is None;
        assert(j != p);
        assert(log.cases[j].component == component && log.cases[j].resolved is None);
        assert(log.cases[p].component == component);
    }
}

/// Opening an incident with a fresh number, where none is open.
proof fn lemma_opened(log: Log, id: u64, component: Seq<char>, title: Seq<char>, ts: i64)
    requires
        id == log.next_id,
        open_case(log.cases, component) is None,
    ensures
        ({
            let after = applied(log, Entry::Open { id, component, title, ts });
            &&& sound(log) ==> sound(after)
            &&& after.next_id == log.next_id + 1
            &&& open_case(after.cases, component) == Some(id)
            &&& forall|k: Seq<char>|
                k != component ==> #[trigger] open_case(after.cases, k) == open_case(log.cases, k)
        }),
{
    let after = applied(log, Entry::Open { id, component, title, ts });
    lemma_open_case(log.cases, component);
    assert(after.cases.drop_last() =~= log.cases);
    let n = log.cases.len() as int;
    if sound(log) {
        assert forall|i: int| 0 <= i < after.cases.len() implies (#[trigger] after.cases[i]).id
            < after.next_id by {
            if i < n {
                assert(after.cases[i] == log.cases[i]);
            }
        }
        assert forall|i: int, j: int| 0 <= i < j < after.cases.len() implies (
        #[trigger] after.cases[i]).id != (#[trigger] after.cases[j]).id by {
            assert(after.cases[i] == log.cases[i]);
            if j < n {
                assert(after.cases[j] == log.cases[j]);
            }
        }
        assert forall|i: int, j: int|
            0 <= i < j < after.cases.len() && (#[trigger] after.cases[i]).component == (
            #[trigger] after.cases[j]).component implies after.cases[i].resolved is Some
            || after.cases[j].resolved is Some by {
            assert(after.cases[i] == log.cases[i]);
            if j < n {
                assert(after.cases[j] == log.cases[j]);
            }
        }
    }
}

/// An incident follows its component's state, in any log: at the threshold or
/// worse the component has an open incident; below it none is opened, and one
/// that is open stays so until the component is operational. Where the numbers are distinct,
/// the other components' incidents are left alone. Where no component has two
/// open incidents, none gets a second one, and a component that is operational
/// again has none.
pub proof fn incidents_follow_the_state(log: Log, c: Component, new: Severity, ts: i64)
    requires
        0 <= log.next_id < u64::MAX,
    ensures
        ({
            let after = replayed(log, transition(log, c, new, ts));
            &&& log.next_id <= after.next_id <= log.next_id + 1
            &&& rank(new) >= rank(c.incident_at) ==> open_case(after.cases, c.key@) is Some
            &&& new != Severity::Operational && open_case(log.cases, c.key@) is Some ==> open_case(
                after.cases,
                c.key@,
            ) == open_case(log.cases, c.key@)
            &&& rank(new) < rank(c.incident_at) && open_case(log.cases, c.key@) is None ==> after
                == log
            &&& distinct(log) ==> forall|k: Seq<char>|
                k != c.key@ ==> #[trigger] open_case(after.cases, k) == open_case(log.cases, k)
            &&& sound(log) ==> sound(after)
            &&& sound(log) && new == Severity::Operational && c.incident_at
                != Severity::Operational ==> open_case(after.cases, c.key@) is None
        }),
{
    let entries = transition(log, c, new, ts);
    let key = c.key@;
    reveal_with_fuel(replayed, 3);
    if entries.len() == 1 {
        assert(entries.drop_last() =~= Seq::empty());
    } else if entries.len() == 2 {
        assert(entries.drop_last().drop_last() =~= Seq::empty());
        assert(entries.drop_last().last() == entries[0]);
    }
    let changed = "Status changed: "@ + human_name(new);
    match open_case(log.cases, key) {
        None => {
            if rank(new) >= rank(c.incident_at) {
                let id = log.next_id as u64;
                let title = c.name@ + ": "@ + human_name(new);
                lemma_opened(log, id, key, title, ts);
                let opened = applied(log, Entry::Open { id, component: key, title, ts });
                lemma_updated(opened, id, ts, "Detected: "@ + human_name(new));
            }
        },
        Some(id) => {
            lemma_updated(log, id, ts, changed);
            let updated = applied(log, Entry::Update { id, ts, message: changed });
            if rank(new) < rank(c.incident_at) && new == Severity::Operational && distinct(log) {
                lemma_resolved(updated, id, ts, key);
            }
        },
    }
}

/// A log that the engine writes on stays sound, whatever the changes; and one
/// starts sound.
pub proof fn the_engine_keeps_its_log_sound(
    log: Log,
    components: Seq<Component>,
    changes: Seq<Change>,
    ts: i64,
)
    requires
        sound(log),
        0 <= log.next_id,
        log.next_id + changes.len() <= u64::MAX,
    ensures
        sound(empty_log()),
        sound(replayed(log, transitions(log, components, changes, ts))),
        log.next_id <= replayed(log, transitions(log, components, changes, ts)).next_id
            <= log.next_id + changes.len(),
    decreases changes.len(),
{
    if changes.len() > 0 {
        let rest = changes.drop_last();
        the_engine_keeps_its_log_sound(log, components, rest, ts);
        let before = transitions(log, components, rest, ts);
        let mid = replayed(log, before);
        let c = changes.last();
        let more = transition(mid, components[c.component as int], c.new, ts);
        replay_continues(log, before, more);
        incidents_follow_the_state(mid, components[c.component as int], c.new, ts);
    }
}

/// Updates and resolutions entered by hand keep a log sound, whichever
/// incidents they name.
pub proof fn entries_by_hand_keep_a_log_sound(log: Log, e: Entry)
    requires
        sound(log),
        !(e is Open),
    ensures
        sound(applied(log, e)),
        applied(log, e).next_id == log.next_id,
{
    let after = applied(log, e);
    match e {
        Entry::Open { .. } => {},
        Entry::Update { id, ts, message } => {
            lemma_updated(log, id, ts, message);
        },
        Entry::Resolve { id, ts } => {
            lemma_place_of(log.cases, id);
            assert forall|i: int| 0 <= i < log.cases.len() implies (#[trigger] after.cases[i]).id
                == log.cases[i].id && after.cases[i].component == log.cases[i].component && (
            log.cases[i].resolved is Some ==> after.cases[i].resolved is Some) by {}
        },
    }
}

/// With several components watching one target, the worst verdict wins: none
/// of them finds the target worse than its state, and one finds it as bad.
pub proof fn the_worst_verdict_wins(
    components: Seq<Component>,
    idxs: Seq<usize>,
    samples: Seq<Sample>,
    j: int,
)
    requires
        0 <= j < idxs.len(),
    ensures
        rank(verdict(components[idxs[j] as int], samples)) <= rank(
            target_verdict(components, idxs, samples),
        ),
        exists|k: int|
            0 <= k < idxs.len() && verdict(components[#[trigger] idxs[k] as int], samples)
                == target_verdict(components, idxs, samples),
    decreases idxs.len(),
{
    let n = idxs.len() as int;
    let rest = idxs.drop_last();
    let last = verdict(components[idxs[n - 1] as int], samples);
    if rest.len() > 0 {
        let i = if j < n - 1 {
            j
        } else {
            0
        };
        the_worst_verdict_wins(components, rest, samples, i);
        let k = choose|k: int|
            0 <= k < rest.len() && verdict(components[#[trigger] rest[k] as int], samples)
                == target_verdict(components, rest, samples);
        assert(idxs[k] == rest[k]);
        assert(idxs[i] == rest[i]);
    }
    assert(idxs.last() == idxs[n - 1]);
}

/// A component is healthy only if all its targets are, and down only if all of
/// them are.
pub proof fn a_component_stands_with_its_targets(states: Seq<Severity>)
    requires
        states.len() > 0,
        forall|k: int| 0 <= k < states.len() ==> (#[trigger] states[k]) != Severity::PartialOutage,
    ensures
        overall(states) == Severity::Operational <==> forall|k: int|
            0 <= k < states.len() ==> (#[trigger] states[k]) == Severity::Operational,
        overall(states) == Severity::MajorOutage <==> forall|k: int|
            0 <= k < states.len() ==> (#[trigger] states[k]) == Severity::MajorOutage,
{
    lemma_counted(states, Severity::MajorOutage);
    if overall(states) == Severity::Operational {
        assert forall|k: int| 0 <= k < states.len() implies (#[trigger] states[k])
            == Severity::Operational by {
            assert(!states.contains(Severity::Degraded));
        }
    }
    if forall|k: int| 0 <= k < states.len() ==> (#[trigger] states[k]) == Severity::Operational {
        assert(states[0] == Severity::Operational);
    }
}

/// A count is full where all are of the kind, and empty where none is.
proof fn lemma_counted(states: Seq<Severity>, s: Severity)
    ensures
        count_of(states, s) <= states.len(),
        count_of(states, s) == states.len() <==> forall|k: int|
            0 <= k < states.len() ==> (#[trigger] states[k]) == s,
        count_of(states, s) == 0 <==> forall|k: int|
            0 <= k < states.len() ==> (#[trigger] states[k]) != s,
    decreases states.len(),
{
    let n = states.len() as int;
    if n > 0 {
        let rest = states.drop_last();
        lemma_counted(rest, s);
        assert(states.last() == states[n - 1]);
        assert forall|k: int| 0 <= k < n - 1 implies #[trigger] rest[k] == states[k] by {}
        if forall|k: int| 0 <= k < n ==> (#[trigger] states[k]) == s {
            assert forall|k: int| 0 <= k < rest.len() implies (#[trigger] rest[k]) == s by {
                assert(states[k] == s);
            }
        }
        if forall|k: int| 0 <= k < n ==> (#[trigger] states[k]) != s {
            assert forall|k: int| 0 <= k < rest.len() implies (#[trigger] rest[k]) != s by {
                assert(states[k] != s);
            }
        }
        if forall|k: int| 0 <= k < rest.len() ==> (#[trigger] rest[k]) == s {
            assert forall|k: int| 0 <= k < n - 1 implies (#[trigger] states[k]) == s by {
                assert(rest[k] == s);
            }
        }
        if forall|k: int| 0 <= k < rest.len() ==> (#[trigger] rest[k]) != s {
            assert forall|k: int| 0 <= k < n - 1 implies (#[trigger] states[k]) != s by {
                assert(rest[k] != s);
            }
        }
    }
}

proof fn lemma_refreshed(
    states: Seq<Severity>,
    idxs: Seq<usize>,
    fresh: spec_fn(int) -> Severity,
    i: int,
)
    requires
        forall|j: int| 0 <= j < idxs.len() ==> (#[trigger] idxs[j]) < states.len(),
        0 <= i < states.len(),
    ensures
        refreshed(states, idxs, fresh).0.len() == states.len(),
        refreshed(states, idxs, fresh).0[i] == (if exists|j: int|
            0 <= j < idxs.len() && (#[trigger] idxs[j]) == i {
            fresh(i)
        } else {
            states[i]
        }),
    decreases idxs.len(),
{
    if idxs.len() > 0 {
        let rest = idxs.drop_last();
        assert forall|j: int| 0 <= j < rest.len() implies (#[trigger] rest[j]) < states.len() by {
            assert(rest[j] == idxs[j]);
        }
        lemma_refreshed(states, rest, fresh, i);
        assert(idxs.last() == idxs[idxs.len() - 1]);
        if exists|j: int| 0 <= j < rest.len() && (#[trigger] rest[j]) == i {
            let j = choose|j: int| 0 <= j < rest.len() && (#[trigger] rest[j]) == i;
            assert(idxs[j] == i);
        }
        if exists|j: int| 0 <= j < idxs.len() && (#[trigger] idxs[j]) == i {
            let j = choose|j: int| 0 <= j < idxs.len() && (#[trigger] idxs[j]) == i;
            if j < rest.len() {
                assert(rest[j] == i);
            }
        }
    }
}

proof fn lemma_is_mentioned(targets: Seq<Seq<char>>, target: Seq<char>, place: usize)
    ensures
        mentions(targets, target, place).len() > 0 <==> targets.contains(target),
    decreases targets.len(),
{
    if targets.len() > 0 {
        let rest = targets.drop_last();
        lemma_is_mentioned(rest, target, place);
        assert(targets.last() == targets[targets.len() - 1]);
        if rest.contains(target) {
            let i = choose|i: int| 0 <= i < rest.len() && rest[i] == target;
            assert(targets[i] == target);
        }
        if targets.contains(target) && targets.last() != target {
            let i = choose|i: int| 0 <= i < targets.len() && targets[i] == target;
            assert(rest[i] == target);
        }
    }
}

/// A target backs a component that names it.
proof fn lemma_is_backed(components: Seq<Component>, target: Seq<char>, i: int)
    requires
        0 <= i < components.len() <= usize::MAX,
        text::texts(components[i].targets@).contains(target),
    ensures
        exists|j: int|
            0 <= j < backed(components, target).len() && (#[trigger] backed(components, target)[j])
                == i,
    decreases components.len(),
{
    let rest = components.drop_last();
    let more = mentions(
        text::texts(components.last().targets@),
        target,
        (components.len() - 1) as usize,
    );
    let prior = backed(rest, target);
    let all = backed(components, target);
    if i == components.len() - 1 {
        lemma_is_mentioned(
            text::texts(components.last().targets@),
            target,
            (components.len() - 1) as usize,
        );
        lemma_mentions(
            text::texts(components.last().targets@),
            target,
            (components.len() - 1) as usize,
        );
        assert(all[prior.len() as int] == more[0]);
    } else {
        lemma_is_backed(rest, target, i);
        let j = choose|j: int| 0 <= j < prior.len() && (#[trigger] prior[j]) == i;
        assert(all[j] == i);
    }
}

impl StatusEngine {
    /// Each component's state is what its targets' states make of it.
    pub open spec fn settled(self) -> bool {
        forall|i: int|
            0 <= i < self.components@.len() ==> (#[trigger] self.comp_state@[i]) == overall(
                self.target_states(self.components@[i]),
            )
    }
}

/// Whatever rounds come in, a component's state is that of its targets.
pub proof fn components_stay_settled(
    before: StatusEngine,
    r: RoundResult,
    after: StatusEngine,
    changes: Seq<Change>,
)
    requires
        before.wf(),
        maps(before.by_target, |t: Seq<char>| backed(before.components@, t)),
        before.settled(),
        before.observed(r, after, changes),
    ensures
        after.settled(),
{
    let cs = before.components@;
    assert(cs.len() == before.components.len());
    let target = r.target@;
    let places = |t: Seq<char>| backed(cs, t);
    assert forall|i: int| 0 <= i < cs.len() implies (#[trigger] after.comp_state@[i]) == overall(
        after.target_states(cs[i]),
    ) by {
        assert(before.comp_state@[i] == overall(before.target_states(cs[i])));
        let named = text::texts(cs[i].targets@).contains(target);
        if !before.by_target.has(target) {
            assert(places(target).len() == 0);
            assert(after.target_states(cs[i]) =~= before.target_states(cs[i]));
        } else {
            let idxs = before.by_target.at(target)@;
            assert(idxs == backed(cs, target));
            lemma_backed(cs, target);
            let fresh = |i: int| overall(after.target_states(cs[i]));
            lemma_refreshed(before.comp_state@, idxs, fresh, i);
            if named {
                lemma_is_backed(cs, target, i);
            } else {
                let t0 = cs[i].targets@;
                assert forall|k: int| 0 <= k < t0.len() implies #[trigger] t0[k]@ != target by {
                    assert(text::texts(t0)[k] == t0[k]@);
                }
                assert(after.target_states(cs[i]) =~= before.target_states(cs[i]));
            }
        }
    }
}

/// A fresh engine is settled: what was not measured yet is operational.
pub proof fn a_fresh_engine_is_settled(engine: StatusEngine, cfg: Config)
    requires
        engine.fresh(cfg),
        status_refusal(cfg) is None,
    ensures
        engine.settled(),
        maps(engine.by_target, |t: Seq<char>| backed(engine.components@, t)),
{
    let defs = definitions(cfg);
    assert forall|i: int| 0 <= i < engine.components@.len() implies (
    #[trigger] engine.comp_state@[i]) == overall(engine.target_states(engine.components@[i])) by {
        let c = engine.components@[i];
        assert(c.of(defs[i].0@, defs[i].1));
        lemma_components_have_targets(cfg, i);
        assert(text::texts(c.targets@).len() == c.targets@.len());
        assert(text::texts(defs[i].1.targets@).len() == defs[i].1.targets@.len());
        let states = engine.target_states(c);
        assert forall|k: int| 0 <= k < states.len() implies (#[trigger] states[k])
            == Severity::Operational by {
            assert(!engine.target_state.has(c.targets@[k]@));
        }
        lemma_none_of(states, Severity::MajorOutage);
    }
}

proof fn lemma_none_of(states: Seq<Severity>, s: Severity)
    requires
        forall|k: int| 0 <= k < states.len() ==> (#[trigger] states[k]) != s,
    ensures
        count_of(states, s) == 0,
    decreases states.len(),
{
    if states.len() > 0 {
        lemma_none_of(states.drop_last(), s);
    }
}

proof fn lemma_components_have_targets(cfg: Config, i: int)
    requires
        status_refusal(cfg) is None,
        0 <= i < definitions(cfg).len(),
    ensures
        definitions(cfg)[i].1.targets@.len() > 0,
{
    let defs = definitions(cfg);
    match cfg.flattened() {
        Ok(leaves) => {
            lemma_no_bad_component(paths(leaves), defs, i);
        },
        Err(_) => {},
    }
}

proof fn lemma_no_bad_component(
    known: Seq<Seq<char>>,
    defs: Seq<(String, StatusComponentConfig)>,
    i: int,
)
    requires
        bad_component(known, defs) is None,
        0 <= i < defs.len(),
    ensures
        component_fault(known, defs[i].1) is None,
    decreases defs.len(),
{
    if i < defs.len() - 1 {
        lemma_no_bad_component(known, defs.drop_last(), i);
    }
}

/// The severities from the best to the worst.
pub proof fn severities_are_ordered(a: Severity, b: Severity)
    ensures
        rank(Severity::Operational) < rank(Severity::Degraded),
        rank(Severity::Degraded) < rank(Severity::PartialOutage),
        rank(Severity::PartialOutage) < rank(Severity::MajorOutage),
        worse(a, b) == a || worse(a, b) == b,
        rank(worse(a, b)) >= rank(a),
        rank(worse(a, b)) >= rank(b),
        a != b ==> rank(a) != rank(b),
{
}

/// A target is down exactly where the down pattern matches its losses, and
/// operational exactly where none of the component's patterns matches: not the
/// two on its losses, nor the one on its medians, if there is one.
pub proof fn a_target_is_judged_by_all_patterns(c: Component, samples: Seq<Sample>)
    ensures
        ({
            let losses = samples.map_values(|s: Sample| Some(s.loss));
            let medians = samples.map_values(|s: Sample| s.median_ms);
            let down = pattern::matched(c.down_loss.elems@, losses);
            let lossy = pattern::matched(c.degraded_loss.elems@, losses);
            let slow = match c.degraded_rtt {
                Some(p) => pattern::matched(p.elems@, medians),
                None => false,
            };
            &&& verdict(c, samples) == Severity::MajorOutage <==> down
            &&& verdict(c, samples) == Severity::Operational <==> !down && !lossy && !slow
            &&& lossy || slow ==> rank(verdict(c, samples)) >= rank(Severity::Degraded)
            &&& verdict(c, samples) != Severity::PartialOutage
        }),
{
    let losses = samples.map_values(|s: Sample| Some(s.loss));
    let medians = samples.map_values(|s: Sample| s.median_ms);
    assert(alert::series_of(AlertKind::Loss, samples) =~= losses);
    assert(alert::series_of(AlertKind::Rtt, samples) =~= medians);
}

/// A target that no component watches is operational.
pub proof fn nobody_finds_fault_with_the_unwatched(
    components: Seq<Component>,
    samples: Seq<Sample>,
)
    ensures
        target_verdict(components, Seq::empty(), samples) == Severity::Operational,
{
}

/// A component with some of its targets down, but not all, is partly out; with
/// none down and one degraded at least, it is degraded.
pub proof fn a_component_is_as_bad_as_its_targets(states: Seq<Severity>)
    ensures
        ({
            let some_down = states.contains(Severity::MajorOutage);
            let all_down = forall|k: int|
                0 <= k < states.len() ==> (#[trigger] states[k]) == Severity::MajorOutage;
            let poor = states.contains(Severity::Degraded);
            &&& overall(states) == Severity::MajorOutage <==> all_down
            &&& overall(states) == Severity::PartialOutage <==> some_down && !all_down
            &&& overall(states) == Severity::Degraded <==> !some_down && !all_down && poor
            &&& overall(states) == Severity::Operational <==> !some_down && !all_down && !poor
        }),
{
    lemma_counted(states, Severity::MajorOutage);
    if states.contains(Severity::MajorOutage) {
        let k = choose|k: int| 0 <= k < states.len() && states[k] == Severity::MajorOutage;
        assert(states[k] == Severity::MajorOutage);
    }
}

/// The page shows the worst of the components' states.
pub proof fn the_page_shows_the_worst(states: Seq<Severity>)
    ensures
        states.len() == 0 ==> worst(states) == Severity::Operational,
        states.len() > 0 ==> states.contains(worst(states)),
        forall|k: int|
            0 <= k < states.len() ==> rank(#[trigger] states[k]) <= rank(worst(states)),
    decreases states.len(),
{
    if states.len() > 0 {
        let rest = states.drop_last();
        the_page_shows_the_worst(rest);
        assert(states[states.len() - 1] == states.last());
        if rest.len() > 0 {
            let k = choose|k: int| 0 <= k < rest.len() && rest[k] == worst(rest);
            assert(states[k] == worst(rest));
        }
        assert forall|k: int| 0 <= k < states.len() implies rank(#[trigger] states[k]) <= rank(
            worst(states),
        ) by {
            if k < rest.len() {
                assert(rest[k] == states[k]);
            }
        }
    }
}

/// A round is told to the components that name its target, and to no others.
pub proof fn components_watch_the_targets_they_name(
    components: Seq<Component>,
    target: Seq<char>,
    i: int,
)
    requires
        0 <= i < components.len() <= usize::MAX,
    ensures
        backed(components, target).contains(i as usize) <==> exists|k: int|
            0 <= k < components[i].targets@.len() && (#[trigger] components[i].targets@[k])@
                == target,
    decreases components.len(),
{
    let n = components.len() - 1;
    let rest = components.drop_last();
    let named = text::texts(components.last().targets@);
    let more = mentions(named, target, n as usize);
    let prior = backed(rest, target);
    let all = backed(components, target);
    lemma_mentions(named, target, n as usize);
    lemma_backed(rest, target);
    lemma_is_mentioned(named, target, n as usize);
    if i < n {
        components_watch_the_targets_they_name(rest, target, i);
        if prior.contains(i as usize) {
            let j = choose|j: int| 0 <= j < prior.len() && prior[j] == i as usize;
            assert(all[j] == i as usize);
        }
        if all.contains(i as usize) {
            let j = choose|j: int| 0 <= j < all.len() && all[j] == i as usize;
            if j >= prior.len() {
                assert(more[j - prior.len()] == i as usize);
            } else {
                assert(prior[j] == i as usize);
            }
        }
        assert(rest[i] == components[i]);
    } else {
        let own = components[i].targets@;
        if all.contains(i as usize) {
            let j = choose|j: int| 0 <= j < all.len() && all[j] == i as usize;
            if j < prior.len() {
                assert(prior[j] == i as usize);
            }
            assert(more.len() > 0);
            let k = choose|k: int| 0 <= k < named.len() && named[k] == target;
            assert(own[k]@ == target);
        }
        if exists|k: int| 0 <= k < own.len() && (#[trigger] own[k])@ == target {
            let k = choose|k: int| 0 <= k < own.len() && (#[trigger] own[k])@ == target;
            assert(named[k] == target);
            assert(named.contains(target));
            assert(all[prior.len() as int] == more[0]);
            assert(more[0] == n as usize);
        }
    }
}

/// What an entry does to a log. Opening adds an incident at the end; an update
/// adds its message to the incident of its number, behind the others; a
/// resolution gives that incident its time. All else stays as it was.
pub proof fn entries_do_what_they_say(log: Log, e: Entry, i: int)
    requires
        distinct(log),
        0 <= i < log.cases.len(),
    ensures
        ({
            let after = applied(log, e);
            match e {
                Entry::Open { id, component, title, ts } => {
                    let new = after.cases.last();
                    &&& after.cases.len() == log.cases.len() + 1
                    &&& after.cases[i] == log.cases[i]
                    &&& new.id == id && new.component == component && new.title == title
                    &&& new.opened == ts && new.resolved is None && new.updates.len() == 0
                    &&& after.next_id > id && after.next_id >= log.next_id
                },
                Entry::Update { id, ts, message } => {
                    let (was, now) = (log.cases[i], after.cases[i]);
                    &&& after.cases.len() == log.cases.len()
                    &&& was.id != id ==> now == was
                    &&& was.id == id ==> {
                        &&& now.updates == was.updates.push((ts, message))
                        &&& now.id == id && now.component == was.component
                        &&& now.title == was.title && now.opened == was.opened
                        &&& now.resolved == was.resolved
                    }
                },
                Entry::Resolve { id, ts } => {
                    let (was, now) = (log.cases[i], after.cases[i]);
                    &&& after.cases.len() == log.cases.len()
                    &&& was.id != id ==> now == was
                    &&& was.id == id ==> {
                        &&& now.resolved == Some(ts)
                        &&& now.id == id && now.component == was.component
                        &&& now.title == was.title && now.opened == was.opened
                        &&& now.updates == was.updates
                    }
                },
            }
        }),
{
    match e {
        Entry::Open { .. } => {},
        Entry::Update { id, .. } => {
            lemma_place_of(log.cases, id);
        },
        Entry::Resolve { id, .. } => {
            lemma_place_of(log.cases, id);
        },
    }
}

/// The open incident of a component is one of its own that was not resolved,
/// and there is one exactly where such an incident is.
pub proof fn the_open_incident_is_one_that_is_open(cases: Seq<Case>, component: Seq<char>)
    ensures
        open_case(cases, component) is Some <==> exists|i: int|
            0 <= i < cases.len() && (#[trigger] cases[i]).component == component
                && cases[i].resolved is None,
        open_case(cases, component) matches Some(id) ==> exists|i: int|
            0 <= i < cases.len() && (#[trigger] cases[i]).id == id && cases[i].component
                == component && cases[i].resolved is None,
{
    lemma_open_case(cases, component);
}

/// An incident that opens says what and when, and a resolution when: the
/// entries carry the component, the time and, in the newest incident, the
/// number that was free.
pub proof fn incidents_carry_their_component_and_time(
    log: Log,
    c: Component,
    new: Severity,
    ts: i64,
    k: int,
)
    requires
        0 <= log.next_id < u64::MAX,
        0 <= k < transition(log, c, new, ts).len(),
    ensures
        match transition(log, c, new, ts)[k] {
            Entry::Open { id, component, title, ts: at } => {
                &&& id == log.next_id
                &&& component == c.key@
                &&& title == c.name@ + seq![':', ' '] + human_name(new)
                &&& at == ts
                &&& open_case(log.cases, c.key@) is None
                &&& rank(new) >= rank(c.incident_at)
            },
            Entry::Update { id, ts: at, .. } => at == ts && (open_case(log.cases, c.key@) == Some(
                id,
            ) || open_case(log.cases, c.key@) is None && id == log.next_id),
            Entry::Resolve { id, ts: at } => {
                &&& at == ts
                &&& open_case(log.cases, c.key@) == Some(id)
                &&& new == Severity::Operational
            },
        },
{
    reveal_strlit(": ");
    assert(": "@ =~= seq![':', ' ']);
}

/// The names of the severities are all different, and the three that a
/// configuration can ask for are known by theirs.
pub proof fn severities_have_names_of_their_own(a: Severity, b: Severity)
    ensures
        a != b ==> human_name(a) != human_name(b),
        severity_of("degraded"@) == Some(Severity::Degraded),
        severity_of("partial_outage"@) == Some(Severity::PartialOutage),
        severity_of("major_outage"@) == Some(Severity::MajorOutage),
        severity_of("operational"@) is None,
{
    reveal_strlit("Operational");
    reveal_strlit("Degraded Performance");
    reveal_strlit("Partial Outage");
    reveal_strlit("Major Outage");
    assert("Operational"@.len() == 11 && "Degraded Performance"@.len() == 20);
    assert("Partial Outage"@.len() == 14 && "Major Outage"@.len() == 12);
    reveal_strlit("degraded");
    reveal_strlit("partial_outage");
    reveal_strlit("major_outage");
    reveal_strlit("operational");
    assert("degraded"@.len() == 8 && "partial_outage"@.len() == 14 && "major_outage"@.len() == 12
        && "operational"@.len() == 11);
}

/// Whoever administers incidents shows the token that was configured; without
/// one configured nobody does.
pub proof fn only_the_token_opens(engine: StatusEngine, token: Option<Seq<char>>)
    ensures
        engine.token_refusal(token) is None <==> (engine.admin_token matches Some(t) && token
            == Some(t@)),
        engine.token_refusal(None) is Some,
{
}

/// A target is judged by all of its rounds, though only the newest are kept: the
/// older ones change no component's verdict.
pub proof fn what_is_not_kept_changes_no_verdict(
    components: Seq<Component>,
    i: int,
    whole: Seq<Sample>,
)
    requires
        0 <= i < components.len(),
        whole.len() >= kept_rounds(components),
    ensures
        verdict(components[i], whole.skip(whole.len() - kept_rounds(components))) == verdict(
            components[i],
            whole,
        ),
    decreases components.len(),
{
    let keep = kept_rounds(components);
    let c = components[i];
    lemma_kept(components, i);
    let kept = whole.skip(whole.len() - keep);
    let losses = alert::series_of(AlertKind::Loss, whole);
    let rtts = alert::series_of(AlertKind::Rtt, whole);
    assert(alert::series_of(AlertKind::Loss, kept) =~= losses.skip(losses.len() - keep));
    assert(alert::series_of(AlertKind::Rtt, kept) =~= rtts.skip(rtts.len() - keep));
    pattern::a_bounded_history_is_enough(c.down_loss.elems@, losses, keep);
    pattern::a_bounded_history_is_enough(c.degraded_loss.elems@, losses, keep);
    if let Some(p) = c.degraded_rtt {
        pattern::a_bounded_history_is_enough(p.elems@, rtts, keep);
    }
}

proof fn lemma_kept(components: Seq<Component>, i: int)
    requires
        0 <= i < components.len(),
    ensures
        reach(components[i]) <= kept_rounds(components),
    decreases components.len(),
{
    if i < components.len() - 1 {
        lemma_kept(components.drop_last(), i);
    }
}

/// The losses that a day counts are those of its points with a known loss, from
/// the day's first second to its last, added up in order.
pub proof fn a_day_counts_its_own_losses(
    before: (Double, nat),
    points: Seq<(int, Seq<Double>)>,
    day: int,
)
    ensures
        ({
            let own = points.filter(
                |p: (int, Seq<Double>)|
                    !p.1[0].nan() && day * 86_400 <= p.0 < (day + 1) * 86_400,
            );
            let added = own.fold_left(
                before.0,
                |sum: Double, p: (int, Seq<Double>)| double::sum(sum, p.1[0]),
            );
            day_losses(before, points, day) == (added, before.1 + own.len())
        }),
    decreases points.len(),
{
    reveal(Seq::filter);
    let test = |p: (int, Seq<Double>)|
        !p.1[0].nan() && day * 86_400 <= p.0 < (day + 1) * 86_400;
    let plus = |sum: Double, p: (int, Seq<Double>)| double::sum(sum, p.1[0]);
    let own = points.filter(test);
    if points.len() > 0 {
        let rest = points.drop_last();
        a_day_counts_its_own_losses(before, rest, day);
        let (ts, vals) = points.last();
        assert(ts / 86_400 == day <==> day * 86_400 <= ts < (day + 1) * 86_400)
            by (nonlinear_arith);
        if test(points.last()) {
            assert(own.drop_last() =~= rest.filter(test));
            reveal_with_fuel(Seq::fold_left, 2);
        }
    } else {
        reveal_with_fuel(Seq::fold_left, 2);
    }
}

/// A day's availability is a hundred percent less the mean loss; a day that
/// knows no loss has none to show.
pub proof fn availability_is_what_is_not_lost(total: Double, n: nat)
    ensures
        availability((total, 0)) is None,
        n > 0 ==> availability((total, n)) == Some(
            double::sum(
                double::of_int(100),
                double::negated(double::quotient(total, double::of_int(n))),
            ),
        ),
{
    lemma_hundred();
}

proof fn lemma_hundred()
    ensures
        double::of_int(100) == (Double { bits: HUNDRED_BITS }),
{
    lemma2_to64();
    lemma2_to64_rest();
    let h = HUNDRED_BITS as nat;
    double::lemma_compose(1028, 0x19_0000_0000_0000);
    lemma_pow2_adds(46, 1028);
    assert(0x19_0000_0000_0000nat == 100 * pow2(46));
    assert((100 * pow2(46)) * pow2(1028) == 100 * (pow2(46) * pow2(1028))) by (nonlinear_arith);
    double::lemma_rounded_exact(h, 1);
}

/// The days end with today: each starts a day after the one before it, and now
/// falls into the last.
pub proof fn the_days_end_with_today(
    store: Store,
    targets: Seq<String>,
    images: Seq<Option<&[u8]>>,
    days: u32,
    now: i64,
    k: int,
)
    requires
        0 <= k <= days,
        i64::MIN <= (now as int / 86_400 - days) * 86_400,
    ensures
        ({
            let r = uptimes(store, targets, images, days, now as int);
            &&& r.len() == days + 1
            &&& r[k].0 <= now - (days - k) * 86_400 < r[k].0 + 86_400
            &&& r[k].0 as int % 86_400 == 0
        }),
{
    let day = now as int / 86_400 - days + k;
    assert((now as int / 86_400 - days) * 86_400 <= day * 86_400 <= now) by (nonlinear_arith)
        requires
            now as int / 86_400 - days <= day <= now as int / 86_400,
    ;
    assert(day * 86_400 <= now - (days - k) * 86_400 < day * 86_400 + 86_400) by (nonlinear_arith)
        requires
            day == now as int / 86_400 - days + k,
    ;
    assert((day * 86_400) % 86_400 == 0) by (nonlinear_arith);
}

/// A component's definition is accepted where it names targets, all of them
/// known, where its patterns can be read, and where it opens incidents at a
/// severity that there is; otherwise it is refused for one of these, a target
/// for the first that is not known.
pub proof fn components_are_refused_for_what_is_wrong(
    known: Seq<Seq<char>>,
    c: StatusComponentConfig,
)
    ensures
        ({
            let all_known = |n: int|
                forall|i: int| 0 <= i < n ==> known.contains((#[trigger] c.targets@[i])@);
            let reads = |s: Option<String>|
                match s {
                    None => true,
                    Some(p) => pattern::pattern_of(p@) is Ok,
                };
            match component_fault(known, c) {
                None => {
                    &&& c.targets@.len() > 0
                    &&& all_known(c.targets@.len() as int)
                    &&& reads(c.degraded_loss) && reads(c.down_loss) && reads(c.degraded_rtt)
                    &&& match c.incident_at {
                        None => true,
                        Some(s) => severity_of(s@) is Some,
                    }
                },
                Some(ComponentFault::NoTargets) => c.targets@.len() == 0,
                Some(ComponentFault::UnknownTarget(k)) => c.targets@.len() <= usize::MAX ==> {
                    &&& k < c.targets@.len()
                    &&& !known.contains(c.targets@[k as int]@)
                    &&& all_known(k as int)
                },
                Some(ComponentFault::DegradedLoss(e)) => c.degraded_loss matches Some(p) ==> (
                pattern::pattern_of(p@) == Err::<Seq<Elem>, PatternError>(e)),
                Some(ComponentFault::DownLoss(e)) => c.down_loss matches Some(p) ==> (
                pattern::pattern_of(p@) == Err::<Seq<Elem>, PatternError>(e)),
                Some(ComponentFault::DegradedRtt(e)) => c.degraded_rtt matches Some(p)
                    && pattern::pattern_of(p@) == Err::<Seq<Elem>, PatternError>(e),
                Some(ComponentFault::IncidentAt) => c.incident_at matches Some(s) && severity_of(s@)
                    is None,
            }
        }),
{
    let targets = text::texts(c.targets@);
    lemma_unknown_found(known, targets);
    let k = first_unknown(known, targets);
    assert forall|i: int| 0 <= i < k implies known.contains((#[trigger] c.targets@[i])@) by {
        assert(targets[i] == c.targets@[i]@);
    }
    if k < targets.len() {
        assert(targets[k] == c.targets@[k]@);
    }
}

proof fn lemma_unknown_found(known: Seq<Seq<char>>, targets: Seq<Seq<char>>)
    ensures
        0 <= first_unknown(known, targets) <= targets.len(),
        forall|j: int|
            0 <= j < first_unknown(known, targets) ==> known.contains(#[trigger] targets[j]),
        first_unknown(known, targets) < targets.len() ==> !known.contains(
            targets[first_unknown(known, targets)],
        ),
    decreases targets.len(),
{
    if targets.len() > 0 && known.contains(targets[0]) {
        let rest = targets.drop_first();
        lemma_unknown_found(known, rest);
        assert forall|j: int| 0 <= j < first_unknown(known, targets) implies known.contains(
            #[trigger] targets[j],
        ) by {
            if j > 0 {
                assert(targets[j] == rest[j - 1]);
            }
        }
    }
}

/// A status page is accepted where the tree is and every component is, by the
/// paths of its leaves; without one there is nothing to refuse.
pub proof fn pages_are_accepted_by_all_their_components(cfg: Config)
    ensures
        status_refusal(cfg) is None <==> (cfg.status matches Some(s) ==> {
            &&& cfg.flattened() matches Ok(leaves)
            &&& forall|i: int|
                0 <= i < s.components.entries@.len() ==> component_fault(
                    leaves.map_values(|l: Leaf| l.path),
                    (#[trigger] s.components.entries@[i]).1,
                ) is None
        }),
{
    match (cfg.status, cfg.flattened()) {
        (Some(s), Ok(leaves)) => {
            assert(paths(leaves) =~= leaves.map_values(|l: Leaf| l.path));
            lemma_bad_component_found(paths(leaves), s.components.entries@);
        },
        _ => {},
    }
}

proof fn lemma_bad_component_found(
    known: Seq<Seq<char>>,
    defs: Seq<(String, StatusComponentConfig)>,
)
    ensures
        bad_component(known, defs) is None <==> forall|i: int|
            0 <= i < defs.len() ==> component_fault(known, (#[trigger] defs[i]).1) is None,
    decreases defs.len(),
{
    if defs.len() > 0 {
        let n = defs.len() - 1;
        let rest = defs.drop_last();
        lemma_bad_component_found(known, rest);
        assert(forall|i: int| 0 <= i < n ==> #[trigger] defs[i] == rest[i]);
        assert(forall|i: int| 0 <= i < n ==> #[trigger] rest[i] == defs[i]);
        assert(defs[n] == defs.last());
    }
}

/// A component is what its definition says. Without a name it has its key's,
/// without a group none; without patterns it is degraded by two lossy rounds
/// and down by three rounds without a reply, and without a severity it opens
/// incidents from a partial outage on.
pub proof fn a_component_is_as_it_is_defined(
    comp: Component,
    key: Seq<char>,
    c: StatusComponentConfig,
)
    requires
        comp.of(key, c),
    ensures
        comp.key@ == key,
        match c.name {
            Some(n) => comp.name@ == n@,
            None => comp.name@ == key,
        },
        match c.group {
            Some(g) => comp.group@ == g@,
            None => comp.group@.len() == 0,
        },
        comp.targets@.len() == c.targets@.len(),
        forall|i: int|
            0 <= i < c.targets@.len() ==> (#[trigger] comp.targets@[i])@ == c.targets@[i]@,
        pattern::pattern_of(
            match c.degraded_loss {
                Some(p) => p@,
                None => ">5%,>5%"@,
            },
        ) matches Ok(p) && p == comp.degraded_loss.elems@,
        pattern::pattern_of(
            match c.down_loss {
                Some(p) => p@,
                None => "==100%,==100%,==100%"@,
            },
        ) matches Ok(p) && p == comp.down_loss.elems@,
        comp.degraded_rtt is Some <==> c.degraded_rtt is Some,
        c.degraded_rtt matches Some(p) ==> (pattern::pattern_of(p@) matches Ok(q) && q
            == comp.degraded_rtt->0.elems@),
        c.incident_at is None ==> comp.incident_at == Severity::PartialOutage,
        c.incident_at matches Some(s) ==> severity_of(s@) == Some(comp.incident_at),
{
    let (a, b) = (text::texts(comp.targets@), text::texts(c.targets@));
    assert(a.len() == comp.targets@.len() && b.len() == c.targets@.len());
    assert forall|i: int| 0 <= i < c.targets@.len() implies (#[trigger] comp.targets@[i])@
        == c.targets@[i]@ by {
        assert(a[i] == comp.targets@[i]@ && b[i] == c.targets@[i]@);
    }
}

/// Bringing components up to date gives them the states that they have now and
/// leaves the others alone. Every change of a state is told, with what it was
/// and what it is, and nothing else is.
pub proof fn every_change_is_told(
    states: Seq<Severity>,
    idxs: Seq<usize>,
    fresh: spec_fn(int) -> Severity,
)
    requires
        forall|k: int| 0 <= k < idxs.len() ==> (#[trigger] idxs[k]) < states.len(),
    ensures
        ({
            let (after, changes) = refreshed(states, idxs, fresh);
            &&& after.len() == states.len()
            &&& forall|i: usize|
                i < states.len() ==> #[trigger] after[i as int] == if idxs.contains(i) {
                    fresh(i as int)
                } else {
                    states[i as int]
                }
            &&& forall|k: int|
                0 <= k < changes.len() ==> {
                    let c = #[trigger] changes[k];
                    &&& idxs.contains(c.component)
                    &&& c.old == states[c.component as int]
                    &&& c.new == fresh(c.component as int)
                    &&& c.old != c.new
                }
            &&& forall|i: usize| #[trigger]
                idxs.contains(i) && states[i as int] != fresh(i as int) ==> tells_of(changes, i)
        }),
    decreases idxs.len(),
{
    if idxs.len() > 0 {
        let rest = idxs.drop_last();
        assert forall|k: int| 0 <= k < rest.len() implies (#[trigger] rest[k]) < states.len() by {
            assert(rest[k] == idxs[k]);
        }
        every_change_is_told(states, rest, fresh);
        let (before, told) = refreshed(states, rest, fresh);
        let (after, changes) = refreshed(states, idxs, fresh);
        let p = idxs.last();
        assert(idxs[idxs.len() - 1] == p);
        assert(idxs.contains(p));
        assert forall|i: usize| #[trigger] rest.contains(i) implies idxs.contains(i) by {
            assert(idxs[rest.index_of(i)] == i);
        }
        assert forall|i: usize| #[trigger] idxs.contains(i) && i != p implies rest.contains(i) by {
            let k = idxs.index_of(i);
            assert(rest[k] == i);
        }
        assert(before[p as int] == if rest.contains(p) {
            fresh(p as int)
        } else {
            states[p as int]
        });
        assert forall|i: usize| i < states.len() implies #[trigger] after[i as int]
            == if idxs.contains(i) {
            fresh(i as int)
        } else {
            states[i as int]
        } by {
            if i != p {
                assert(after[i as int] == before[i as int]);
            }
        }
        assert forall|k: int| 0 <= k < changes.len() implies {
            let c = #[trigger] changes[k];
            &&& idxs.contains(c.component)
            &&& c.old == states[c.component as int]
            &&& c.new == fresh(c.component as int)
            &&& c.old != c.new
        } by {
            if k < told.len() {
                assert(changes[k] == told[k]);
            }
        }
        assert forall|i: usize| #[trigger]
            idxs.contains(i) && states[i as int] != fresh(i as int) implies tells_of(changes, i) by {
            if rest.contains(i) {
                assert(tells_of(told, i));
                let k = choose|k: int| 0 <= k < told.len() && (#[trigger] told[k]).component == i;
                assert(changes[k].component == i);
            } else {
                assert(changes[changes.len() - 1].component == i);
            }
        }
    }
}

/// Some of the changes is one of this component.
pub open spec fn tells_of(changes: Seq<Change>, i: usize) -> bool {
    exists|k: int| 0 <= k < changes.len() && (#[trigger] changes[k]).component == i
}

/// A target's losses are those of its averages from as many days back as are
/// shown up to now, at most one an hour; a target without a series adds none.
pub proof fn losses_are_read_by_the_hour(
    store: Store,
    targets: Seq<String>,
    t: String,
    images: Seq<Option<&[u8]>>,
    days: u32,
    now: int,
    day: int,
)
    ensures
        ({
            let before = all_losses(store, targets, images, days, now, day);
            let all = all_losses(store, targets.push(t), images, days, now, day);
            match store.result(
                t@,
                images[targets.len() as int],
                Cf::Average,
                now - days * 86_400,
                now,
                (24 * days) as u64,
            ) {
                None => all == before,
                Some((_, points)) => all == day_losses(before, points, day),
            }
        }),
{
    assert(targets.push(t).drop_last() =~= targets);
    assert(targets.push(t).last() == t);
}

} // verus!
