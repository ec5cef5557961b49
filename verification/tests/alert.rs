use dabping::alert::pattern::{ElemError, PatternError};
use dabping::alert::{AlertEvent, AlertFault, Alerter, AlerterError};
use dabping::config::{
    AgentConfig, AlertConfig, AlertKind, Config, Database, HttpConfig, IcmpConfig, ProbeConfig,
    StatusComponentConfig, StatusConfig, TargetNode, TcpConfig, Web, default_history_days,
    default_http_interval_ms, default_http_method, default_http_timeout_ms, default_http_url,
    default_interval_ms, default_timeout_ms, default_true,
};
use dabping::names::NameMap;
use dabping::probe::{IpAddr, RoundResult};
use dabping::time::Duration;
use dabping::util::RangeError;
fn text(t: &toml::Table, key: &str) -> Option<String> {
    t.get(key).and_then(|v| v.as_str()).map(|s| s.to_string())
}

fn number(t: &toml::Table, key: &str) -> Option<i64> {
    t.get(key).and_then(|v| v.as_integer())
}

fn list(t: &toml::Table, key: &str) -> Option<Vec<String>> {
    t.get(key)
        .and_then(|v| v.as_array())
        .map(|a| a.iter().map(|v| v.as_str().unwrap().to_string()).collect())
}

fn tables(t: &toml::Table, key: &str) -> Vec<(String, toml::Table)> {
    match t.get(key).and_then(|v| v.as_table()) {
        Some(inner) => {
            inner.iter().map(|(k, v)| (k.clone(), v.as_table().unwrap().clone())).collect()
        }
        None => Vec::new(),
    }
}

fn node(t: &toml::Table) -> TargetNode {
    let mut children = Vec::new();
    for (k, v) in t {
        if let Some(inner) = v.as_table() {
            children.push((k.clone(), node(inner)));
        }
    }
    TargetNode {
        title: text(t, "title"),
        menu: text(t, "menu"),
        host: text(t, "host"),
        probe: text(t, "probe"),
        port: number(t, "port").map(|n| n as u16),
        lookup: text(t, "lookup"),
        alerts: list(t, "alerts"),
        agents: list(t, "agents"),
        nomasterpoll: t.get("nomasterpoll").and_then(|v| v.as_bool()),
        children,
    }
}

fn probe(t: &toml::Table) -> ProbeConfig {
    match text(t, "type").unwrap().as_str() {
        "icmp" => {
            let mut c = IcmpConfig::default();
            if let Some(ms) = number(t, "timeout_ms") {
                c.timeout_ms = ms as u64;
            }
            ProbeConfig::Icmp(c)
        }
        "http" => ProbeConfig::Http(HttpConfig {
            url: default_http_url(),
            method: default_http_method(),
            timeout_ms: default_http_timeout_ms(),
            interval_ms: default_http_interval_ms(),
        }),
        "tcp" => ProbeConfig::Tcp(TcpConfig {
            port: number(t, "port").map(|n| n as u16),
            timeout_ms: default_timeout_ms(),
            interval_ms: default_interval_ms(),
        }),
        other => panic!("no probe type {other}"),
    }
}

/// The tables of a configuration file.
fn parsed(raw: &str) -> Config {
    let t: toml::Table = toml::from_str(raw).unwrap();
    let mut cfg = Config {
        database: Database::default(),
        web: Web::default(),
        probes: NameMap::new(),
        emitters: NameMap::new(),
        alerts: NameMap::new(),
        smtp: None,
        status: None,
        agents: NameMap::new(),
        targets: tables(&t, "targets").iter().map(|(k, v)| (k.clone(), node(v))).collect(),
    };
    for (name, p) in tables(&t, "probes") {
        cfg.probes.insert(name, probe(&p));
    }
    for (name, a) in tables(&t, "agents") {
        cfg.agents.insert(name, AgentConfig { secret: text(&a, "secret").unwrap() });
    }
    for (name, a) in tables(&t, "alerts") {
        cfg.alerts.insert(
            name,
            AlertConfig {
                kind: match text(&a, "type").unwrap().as_str() {
                    "loss" => AlertKind::Loss,
                    _ => AlertKind::Rtt,
                },
                pattern: text(&a, "pattern").unwrap(),
                comment: text(&a, "comment").unwrap_or_default(),
                to: list(&a, "to").unwrap(),
                repeat_every: text(&a, "repeat_every"),
                notify_clear: a
                    .get("notify_clear")
                    .and_then(|v| v.as_bool())
                    .unwrap_or_else(default_true),
            },
        );
    }
    if let Some(s) = t.get("status").and_then(|v| v.as_table()) {
        let mut components = NameMap::new();
        for (key, c) in tables(s, "components") {
            components.insert(
                key,
                StatusComponentConfig {
                    name: text(&c, "name"),
                    group: text(&c, "group"),
                    targets: list(&c, "targets").unwrap(),
                    degraded_loss: text(&c, "degraded_loss"),
                    down_loss: text(&c, "down_loss"),
                    degraded_rtt: text(&c, "degraded_rtt"),
                    incident_at: text(&c, "incident_at"),
                },
            );
        }
        cfg.status = Some(StatusConfig {
            title: text(s, "title"),
            history_days: default_history_days(),
            admin_token: text(s, "admin_token"),
            components,
        });
    }
    cfg
}

fn test_alerter(pattern: &str, kind: &str, extra: &str) -> Alerter {
    let mut cfg = parsed(&format!(
        r#"
            [alerts.a1]
            type = "{kind}"
            pattern = "{pattern}"
            comment = "test alert"
            to = ["log:"]
            {extra}

            [targets.t]
              [targets.t.x]
              host = "192.0.2.1"
              alerts = ["a1"]
            "#
    ));
    cfg.probes.insert("icmp".to_string(), ProbeConfig::Icmp(IcmpConfig::default()));
    Alerter::new(&cfg).unwrap().expect("alerter should exist")
}

fn round(loss_of_4: u32) -> RoundResult {
    let rtts = (0..(4 - loss_of_4)).map(|_| Duration::from_millis(10)).collect();
    RoundResult {
        target: "t/x".to_string(),
        host: "192.0.2.1".to_string(),
        addr: IpAddr::V4(0xc000_0201),
        started: Some(Duration::from_secs(0)),
        sent: 4,
        rtts,
    }
}

const NOW: Duration = Duration { nanos: 0 };

#[test]
fn edge_trigger_raise_once_then_clear() {
    let mut a = test_alerter(">10%,>10%", "loss", "");
    assert!(a.process_round(&round(0), NOW).is_empty()); // healthy
    assert!(a.process_round(&round(2), NOW).is_empty()); // one bad round: no match yet
    let n = a.process_round(&round(2), NOW); // two consecutive: raise
    assert_eq!(n.len(), 1);
    assert_eq!(n[0].state, AlertEvent::Raised);
    assert!(a.process_round(&round(2), NOW).is_empty()); // still bad: edge-triggered, silent
    let n = a.process_round(&round(0), NOW); // recovered
    assert_eq!(n.len(), 1);
    assert_eq!(n[0].state, AlertEvent::Cleared);
    assert!(a.process_round(&round(0), NOW).is_empty());
}

#[test]
fn no_clear_when_disabled() {
    let mut a = test_alerter(">10%", "loss", "notify_clear = false");
    assert_eq!(a.process_round(&round(2), NOW)[0].state, AlertEvent::Raised);
    assert!(a.process_round(&round(0), NOW).is_empty()); // clear suppressed
    // and it can raise again afterwards
    assert_eq!(a.process_round(&round(2), NOW)[0].state, AlertEvent::Raised);
}

#[test]
fn repeat_fires_after_interval() {
    let mut a = test_alerter(">10%", "loss", r#"repeat_every = "1s""#);
    assert_eq!(a.process_round(&round(2), NOW)[0].state, AlertEvent::Raised);
    assert!(a.process_round(&round(2), NOW).is_empty()); // too soon
    let later = Duration::from_millis(1100);
    assert_eq!(a.process_round(&round(2), later)[0].state, AlertEvent::Repeat);
}

#[test]
fn rtt_alerts_see_unknown_on_total_loss() {
    let mut a = test_alerter("==U,==U", "rtt", "");
    assert!(a.process_round(&round(4), NOW).is_empty());
    let n = a.process_round(&round(4), NOW);
    assert_eq!(n.len(), 1);
    assert!(n[0].detail.contains("U U"));
}

#[test]
fn rtt_threshold() {
    let mut a = test_alerter(">5", "rtt", "");
    // 10ms median > 5ms
    assert_eq!(a.process_round(&round(0), NOW)[0].state, AlertEvent::Raised);
}

#[test]
fn repeats_keep_their_distance() {
    let mut a = test_alerter(">10%", "loss", r#"repeat_every = "2s""#);
    let at = |ms: u64| Duration::from_millis(ms);
    assert_eq!(a.process_round(&round(4), at(0)).len(), 1);
    assert_eq!(a.process_round(&round(4), at(1999)).len(), 0);
    assert_eq!(a.process_round(&round(4), at(2000)).len(), 1);
    assert_eq!(a.process_round(&round(4), at(3999)).len(), 0);
    assert_eq!(a.process_round(&round(4), at(4001)).len(), 1);
}

#[test]
fn tells_of_the_recent_rounds() {
    let mut a = test_alerter(">10%", "loss", "");
    a.process_round(&round(0), NOW);
    let n = a.process_round(&round(1), NOW);
    assert_eq!(n[0].alert, "a1");
    assert_eq!(n[0].target, "t/x");
    assert_eq!(n[0].host, "192.0.2.1");
    assert_eq!(n[0].comment, "test alert");
    assert_eq!(n[0].detail, "loss% (oldest→newest): 0 25");
}

#[test]
fn unwatched_targets_are_ignored() {
    let mut a = test_alerter(">10%", "loss", "");
    let mut r = round(4);
    r.target = "t/x@lon1".to_string();
    assert!(a.process_round(&r, NOW).is_empty());
}

#[test]
fn refuses_bad_alerts() {
    let check = |alert: &str, names: &str| {
        let cfg = parsed(&format!(
            "[probes.icmp]\ntype = \"icmp\"\n[alerts.a1]\ntype = \"loss\"\n{alert}\n[targets.t]\nhost = \"h\"\nalerts = [{names}]\n"
        ));
        Alerter::new(&cfg)
    };
    let to = "to = [\"log:\"]";
    assert!(matches!(
        check(&format!("pattern = \"x\"\n{to}"), ""),
        Err(AlerterError::Alert { fault: AlertFault::Pattern(PatternError::Element(0, ElemError::NoOperator)), .. })
    ));
    assert!(matches!(
        check("pattern = \">1\"\nto = []", ""),
        Err(AlerterError::Alert { fault: AlertFault::NoRecipients, .. })
    ));
    assert!(matches!(
        check("pattern = \">1\"\nto = [\"log\", \"page-me\"]", ""),
        Err(AlerterError::Alert { fault: AlertFault::Recipient(1), .. })
    ));
    assert!(matches!(
        check(&format!("pattern = \">1\"\nrepeat_every = \"soon\"\n{to}"), ""),
        Err(AlerterError::Alert { fault: AlertFault::Repeat(RangeError::Unreadable), .. })
    ));
    assert!(matches!(
        check(&format!("pattern = \">1\"\n{to}"), "\"a2\""),
        Err(AlerterError::UnknownAlert { target, alert }) if target == "t" && alert == "a2"
    ));
    assert!(matches!(
        check("pattern = \">1\"\nto = [\"email:a@b.c\"]", "\"a1\""),
        Err(AlerterError::NoSmtp)
    ));
    assert!(matches!(check(&format!("pattern = \">1\"\n{to}"), ""), Ok(None)));
}

#[test]
fn alerts_follow_the_rounds() {
    let mut cfg = parsed(
        r#"
        [alerts.any]
        type = "loss"
        pattern = ">0"
        to = ["log:"]
        notify_clear = true
        [alerts.lasting]
        type = "loss"
        pattern = ">0,>0"
        to = ["log:"]
        repeat_every = "60s"
        notify_clear = false
        [targets.t.x]
        host = "192.0.2.1"
        alerts = ["lasting", "any", "lasting"]
        "#,
    );
    cfg.probes.insert("icmp".to_string(), ProbeConfig::Icmp(IcmpConfig::default()));
    let mut a = Alerter::new(&cfg).unwrap().unwrap();
    let mut told = |loss: u32, secs: u64| -> Vec<(String, AlertEvent)> {
        a.process_round(&round(loss), Duration::from_secs(secs))
            .into_iter()
            .map(|n| (n.alert, n.state))
            .collect()
    };
    let any = |e| ("any".to_string(), e);
    let lasting = |e| ("lasting".to_string(), e);
    assert_eq!(told(0, 0), vec![]);
    assert_eq!(told(1, 10), vec![any(AlertEvent::Raised)]);
    assert_eq!(told(1, 20), vec![lasting(AlertEvent::Raised)]);
    assert_eq!(told(1, 30), vec![]);
    assert_eq!(told(1, 80), vec![lasting(AlertEvent::Repeat)]);
    assert_eq!(told(1, 139), vec![]);
    assert_eq!(told(0, 140), vec![any(AlertEvent::Cleared)]);
    assert_eq!(told(1, 150), vec![any(AlertEvent::Raised)]);
    assert_eq!(told(1, 160), vec![lasting(AlertEvent::Raised)]);
}
