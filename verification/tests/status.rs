use dabping::config::{
    AgentConfig, AlertConfig, AlertKind, Config, Database, HttpConfig, IcmpConfig, ProbeConfig,
    StatusComponentConfig, StatusConfig, TargetNode, TcpConfig, Web, default_history_days,
    default_http_interval_ms, default_http_method, default_http_timeout_ms, default_http_url,
    default_interval_ms, default_timeout_ms, default_true,
};
use dabping::names::NameMap;
use dabping::probe::{IpAddr, RoundResult};
use dabping::status::{
    AdminError, ComponentFault, Event, Severity, StatusEngine, StatusError, parse_components,
};
use dabping::time::Duration;
use dabping::web::page::admin_status;
fn text(t: &toml::Table, key: &str) -> Option<String> {
    t.get(key).and_then(|v| v.as_str()).map(|s| s.to_string())
}

fn number(t: &toml::Table, key: &str) -> Option<i64> {
    t.get(key).and_then(|v| v.as_integer())
}

fn list(t: &toml::Table, key: &str) -> Option<Vec<String>> {
    t.get(key)
        .and_then(|v| v.as_array())
        .map(|a| a.iter().map(|v| v.as_str().unwrap().to_string()).collect())
}

fn tables(t: &toml::Table, key: &str) -> Vec<(String, toml::Table)> {
    match t.get(key).and_then(|v| v.as_table()) {
        Some(inner) => {
            inner.iter().map(|(k, v)| (k.clone(), v.as_table().unwrap().clone())).collect()
        }
        None => Vec::new(),
    }
}

fn node(t: &toml::Table) -> TargetNode {
    let mut children = Vec::new();
    for (k, v) in t {
        if let Some(inner) = v.as_table() {
            children.push((k.clone(), node(inner)));
        }
    }
    TargetNode {
        title: text(t, "title"),
        menu: text(t, "menu"),
        host: text(t, "host"),
        probe: text(t, "probe"),
        port: number(t, "port").map(|n| n as u16),
        lookup: text(t, "lookup"),
        alerts: list(t, "alerts"),
        agents: list(t, "agents"),
        nomasterpoll: t.get("nomasterpoll").and_then(|v| v.as_bool()),
        children,
    }
}

fn probe(t: &toml::Table) -> ProbeConfig {
    match text(t, "type").unwrap().as_str() {
        "icmp" => {
            let mut c = IcmpConfig::default();
            if let Some(ms) = number(t, "timeout_ms") {
                c.timeout_ms = ms as u64;
            }
            ProbeConfig::Icmp(c)
        }
        "http" => ProbeConfig::Http(HttpConfig {
            url: default_http_url(),
            method: default_http_method(),
            timeout_ms: default_http_timeout_ms(),
            interval_ms: default_http_interval_ms(),
        }),
        "tcp" => ProbeConfig::Tcp(TcpConfig {
            port: number(t, "port").map(|n| n as u16),
            timeout_ms: default_timeout_ms(),
            interval_ms: default_interval_ms(),
        }),
        other => panic!("no probe type {other}"),
    }
}

/// The tables of a configuration file.
fn parsed(raw: &str) -> Config {
    let t: toml::Table = toml::from_str(raw).unwrap();
    let mut cfg = Config {
        database: Database::default(),
        web: Web::default(),
        probes: NameMap::new(),
        emitters: NameMap::new(),
        alerts: NameMap::new(),
        smtp: None,
        status: None,
        agents: NameMap::new(),
        targets: tables(&t, "targets").iter().map(|(k, v)| (k.clone(), node(v))).collect(),
    };
    for (name, p) in tables(&t, "probes") {
        cfg.probes.insert(name, probe(&p));
    }
    for (name, a) in tables(&t, "agents") {
        cfg.agents.insert(name, AgentConfig { secret: text(&a, "secret").unwrap() });
    }
    for (name, a) in tables(&t, "alerts") {
        cfg.alerts.insert(
            name,
            AlertConfig {
                kind: match text(&a, "type").unwrap().as_str() {
                    "loss" => AlertKind::Loss,
                    _ => AlertKind::Rtt,
                },
                pattern: text(&a, "pattern").unwrap(),
                comment: text(&a, "comment").unwrap_or_default(),
                to: list(&a, "to").unwrap(),
                repeat_every: text(&a, "repeat_every"),
                notify_clear: a
                    .get("notify_clear")
                    .and_then(|v| v.as_bool())
                    .unwrap_or_else(default_true),
            },
        );
    }
    if let Some(s) = t.get("status").and_then(|v| v.as_table()) {
        let mut components = NameMap::new();
        for (key, c) in tables(s, "components") {
            components.insert(
                key,
                StatusComponentConfig {
                    name: text(&c, "name"),
                    group: text(&c, "group"),
                    targets: list(&c, "targets").unwrap(),
                    degraded_loss: text(&c, "degraded_loss"),
                    down_loss: text(&c, "down_loss"),
                    degraded_rtt: text(&c, "degraded_rtt"),
                    incident_at: text(&c, "incident_at"),
                },
            );
        }
        cfg.status = Some(StatusConfig {
            title: text(s, "title"),
            history_days: default_history_days(),
            admin_token: text(s, "admin_token"),
            components,
        });
    }
    cfg
}

fn cfg(extra: &str) -> Config {
    let mut cfg = parsed(&format!(
        r#"
            [status]
            title = "Test Status"
            admin_token = "sekrit"

            {extra}

            [targets.t]
              [targets.t.a]
              host = "192.0.2.1"
              [targets.t.b]
              host = "192.0.2.2"
            "#
    ));
    cfg.probes.insert("icmp".to_string(), ProbeConfig::Icmp(IcmpConfig::default()));
    cfg
}

fn engine(extra: &str) -> StatusEngine {
    StatusEngine::new(&cfg(extra), &Vec::new()).unwrap().expect("engine")
}

fn round(target: &str, loss_of_4: u32) -> RoundResult {
    RoundResult {
        target: target.to_string(),
        host: "192.0.2.1".to_string(),
        addr: IpAddr::V4(0xc000_0201),
        started: Some(Duration::from_secs(1_000_000)),
        sent: 4,
        rtts: (0..(4 - loss_of_4)).map(|_| Duration::from_millis(10)).collect(),
    }
}

const TWO_TARGET: &str = r#"
        [status.components.svc]
        name = "Service"
        targets = ["t/a", "t/b"]
        down_loss = "==100%,==100%"
        degraded_loss = ">5%,>5%"
    "#;

#[test]
fn aggregates_partial_and_major() {
    let mut e = engine(TWO_TARGET);
    // both healthy
    e.process_round(&round("t/a", 0));
    e.process_round(&round("t/b", 0));
    assert_eq!(e.snapshot().0, Severity::Operational);
    // a goes fully down (2 consecutive 100%-loss rounds)
    e.process_round(&round("t/a", 4));
    e.process_round(&round("t/a", 4));
    assert_eq!(e.snapshot().0, Severity::PartialOutage);
    // b too: major
    e.process_round(&round("t/b", 4));
    e.process_round(&round("t/b", 4));
    assert_eq!(e.snapshot().0, Severity::MajorOutage);
    // a recovers: back to partial
    e.process_round(&round("t/a", 0));
    assert_eq!(e.snapshot().0, Severity::PartialOutage);
}

#[test]
fn degraded_from_loss_pattern() {
    let mut e = engine(TWO_TARGET);
    e.process_round(&round("t/a", 1)); // 25% loss
    assert_eq!(e.snapshot().0, Severity::Operational); // one round: not yet
    e.process_round(&round("t/a", 1));
    assert_eq!(e.snapshot().0, Severity::Degraded);
    let (_, comps) = e.snapshot();
    assert_eq!(comps[0].status, Severity::Degraded);
}

#[test]
fn incident_lifecycle_and_persistence() {
    let c = cfg(TWO_TARGET);
    let mut e = StatusEngine::new(&c, &Vec::new()).unwrap().unwrap();
    let mut written: Vec<Event> = Vec::new();
    for _ in 0..2 {
        written.extend(e.process_round(&round("t/a", 4)));
        written.extend(e.process_round(&round("t/b", 4)));
    }
    let inc = e.incidents();
    assert_eq!(inc.len(), 1, "one incident for the outage");
    assert!(inc[0].resolved.is_none());
    assert!(inc[0].title.contains("Service"));
    // recovery resolves it
    written.extend(e.process_round(&round("t/a", 0)));
    written.extend(e.process_round(&round("t/b", 0)));
    let inc = e.incidents();
    assert!(inc[0].resolved.is_some());
    assert!(inc[0].updates.len() >= 2);

    // replay of what was written sees the same state
    let e2 = StatusEngine::new(&c, &written).unwrap().unwrap();
    let inc2 = e2.incidents();
    assert_eq!(inc2.len(), 1);
    assert_eq!(inc2[0].id, inc[0].id);
    assert!(inc2[0].resolved.is_some());
}

/// Applies what an administrator's request gives.
fn administer(e: &mut StatusEngine, r: Result<Vec<Event>, AdminError>) -> Result<(), AdminError> {
    for ev in r? {
        e.apply(&ev);
    }
    Ok(())
}

#[test]
fn manual_ops_need_token() {
    let mut e = engine(TWO_TARGET);
    for _ in 0..2 {
        e.process_round(&round("t/a", 4));
        e.process_round(&round("t/b", 4));
    }
    let id = e.incidents()[0].id;
    assert!(e.manual_update(id, "looking into it", None, 1).is_err());
    assert!(e.manual_update(id, "looking into it", Some("wrong"), 1).is_err());
    let r = e.manual_update(id, "looking into it", Some("sekrit"), 1);
    administer(&mut e, r).unwrap();
    let r = e.manual_resolve(id, Some("sekrit"), 2);
    administer(&mut e, r).unwrap();
    assert!(e.incidents()[0].resolved.is_some());
    assert_eq!(e.incidents()[0].updates.last().unwrap().message, "Manually resolved");
}

#[test]
fn rejects_unknown_component_target() {
    let mut c = cfg("");
    c.status.as_mut().unwrap().components.insert(
        "bad".to_string(),
        StatusComponentConfig {
            name: None,
            group: None,
            targets: vec!["nope/nothere".to_string()],
            degraded_loss: None,
            down_loss: None,
            degraded_rtt: None,
            incident_at: None,
        },
    );
    assert!(parse_components(&c).is_err());
}

#[test]
fn says_why_a_component_is_refused() {
    let fault = |component: &str| match parse_components(&cfg(&format!(
        "[status.components.c]\n{component}"
    ))) {
        Err(StatusError::Component { key, fault }) => {
            assert_eq!(key, "c");
            fault
        }
        other => panic!("{other:?}"),
    };
    assert_eq!(fault("targets = []"), ComponentFault::NoTargets);
    assert_eq!(fault("targets = [\"t/a\", \"t/c\"]"), ComponentFault::UnknownTarget(1));
    assert!(matches!(
        fault("targets = [\"t/a\"]\ndegraded_loss = \"x\""),
        ComponentFault::DegradedLoss(_)
    ));
    assert!(matches!(fault("targets = [\"t/a\"]\ndown_loss = \"*5*\""), ComponentFault::DownLoss(_)));
    assert!(matches!(
        fault("targets = [\"t/a\"]\ndegraded_rtt = \">\""),
        ComponentFault::DegradedRtt(_)
    ));
    assert_eq!(fault("targets = [\"t/a\"]\nincident_at = \"bad\""), ComponentFault::IncidentAt);
}

#[test]
fn components_have_defaults() {
    let e = engine("[status.components.c]\ntargets = [\"t/b\"]");
    assert_eq!(e.title, "Test Status");
    assert_eq!(e.history_days, 90);
    assert_eq!(e.components()[0].name, "c");
    assert_eq!(e.components()[0].group, "");
    assert_eq!(e.history_depth, 8);
    let none = cfg("");
    assert!(StatusEngine::new(&none, &Vec::new()).unwrap().is_none());
}

#[test]
fn incident_events_in_order() {
    let mut e = engine(TWO_TARGET);
    e.process_round(&round("t/a", 4));
    let events = e.process_round(&round("t/a", 4));
    assert_eq!(events.len(), 2);
    assert!(matches!(&events[0], Event::Open { id: 1, component, title, ts: 1_000_000 }
        if component == "svc" && title == "Service: Partial Outage"));
    assert!(matches!(&events[1], Event::Update { id: 1, ts: 1_000_000, message }
        if message == "Detected: Partial Outage"));
    e.process_round(&round("t/b", 4));
    let events = e.process_round(&round("t/b", 4));
    assert_eq!(events.len(), 1);
    assert!(matches!(&events[0], Event::Update { id: 1, message, .. }
        if message == "Status changed: Major Outage"));
    e.process_round(&round("t/a", 0));
    let events = e.process_round(&round("t/b", 0));
    assert_eq!(events.len(), 2);
    assert!(matches!(&events[0], Event::Update { id: 1, message, .. }
        if message == "Status changed: Operational"));
    assert!(matches!(&events[1], Event::Resolve { id: 1, .. }));
    // a second outage gets a number of its own
    e.process_round(&round("t/a", 4));
    let events = e.process_round(&round("t/a", 4));
    assert!(matches!(&events[0], Event::Open { id: 2, .. }));
}

#[test]
fn below_the_threshold_no_incident_opens() {
    let mut e = engine(&format!("{TWO_TARGET}\nincident_at = \"major_outage\""));
    e.process_round(&round("t/a", 4));
    assert!(e.process_round(&round("t/a", 4)).is_empty());
    assert_eq!(e.snapshot().0, Severity::PartialOutage);
    assert!(e.incidents().is_empty());
}

#[test]
fn slow_targets_are_degraded() {
    let mut e = engine("[status.components.c]\ntargets = [\"t/a\"]\ndegraded_rtt = \">5\"");
    e.process_round(&round("t/a", 0)); // 10ms
    assert_eq!(e.snapshot().0, Severity::Degraded);
    assert!(e.process_round(&round("t/zzz", 4)).is_empty());
}

#[test]
fn requests_without_the_right_token_are_refused() {
    let e = engine(TWO_TARGET);
    assert_eq!(e.manual_update(1, "m", None, 1).unwrap_err(), AdminError::BadToken);
    assert_eq!(e.manual_update(1, "m", Some("sekrit"), 1).unwrap_err(), AdminError::NoIncident(1));
    assert_eq!(e.manual_resolve(7, Some("sekrit"), 1).unwrap_err(), AdminError::NoOpenIncident(7));
    let mut open = engine(TWO_TARGET);
    open.admin_token = None;
    assert_eq!(open.manual_resolve(7, Some("sekrit"), 1).unwrap_err(), AdminError::Disabled);
    assert_eq!(AdminError::NoIncident(12).message(), "no incident #12");
    assert_eq!(admin_status(&AdminError::BadToken.message()), 401);
    assert_eq!(admin_status(&AdminError::Disabled.message()), 401);
    assert_eq!(admin_status(&AdminError::NoIncident(1).message()), 400);
    assert_eq!(admin_status(&AdminError::NoOpenIncident(1).message()), 400);
}

#[test]
fn severities_by_name() {
    assert_eq!(Severity::Degraded.as_statuspage(), "degraded_performance");
    assert_eq!(Severity::Operational.indicator(), "none");
    assert_eq!(Severity::MajorOutage.human(), "Major Outage");
    assert_eq!(Severity::Operational.banner(), "All Systems Operational");
    assert_eq!(Severity::parse("partial_outage"), Some(Severity::PartialOutage));
    assert_eq!(Severity::parse("worse"), None);
}

#[test]
fn the_engine_keeps_its_log_sound() {
    let mut e = engine(TWO_TARGET);
    for (i, loss) in [4, 4, 0, 4, 4, 4, 4, 0, 4, 4].into_iter().enumerate() {
        e.process_round(&round("t/a", loss));
        e.process_round(&round("t/b", loss));
        if i == 5 {
            let id = e.incidents().last().unwrap().id;
            let r = e.manual_resolve(id, Some("sekrit"), 2);
            administer(&mut e, r).unwrap();
        }
        let open = e.incidents().iter().filter(|i| i.resolved.is_none()).count();
        assert!(open <= 1);
    }
    let ids: Vec<u64> = e.incidents().iter().map(|i| i.id).collect();
    assert!(ids.len() >= 3);
    for (i, a) in ids.iter().enumerate() {
        assert!(ids[i + 1..].iter().all(|b| a != b));
    }
}
