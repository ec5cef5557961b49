use dabping::config::{EmitterConfig, GraphiteConfig,
    AgentConfig, AlertConfig, AlertKind, Config, Database, HttpConfig, IcmpConfig, ProbeConfig,
    StatusComponentConfig, StatusConfig, TargetNode, TcpConfig, Web, default_history_days,
    default_http_interval_ms, default_http_method, default_http_timeout_ms, default_http_url,
    default_interval_ms, default_timeout_ms, default_true,
};
use dabping::names::NameMap;
use dabping::daemon::{
    SetupError, Sink, agent_snippets, check_heading, check_line, dump_columns, dump_heading,
    dump_line, once_report, set_up,
};
use dabping::double::Double;
use dabping::probe::{IpAddr, RoundResult};
use dabping::scheduler::plan;
use dabping::store::{Cf, Fetched, Point};
use dabping::time::Duration;
fn text(t: &toml::Table, key: &str) -> Option<String> {
    t.get(key).and_then(|v| v.as_str()).map(|s| s.to_string())
}

fn number(t: &toml::Table, key: &str) -> Option<i64> {
    t.get(key).and_then(|v| v.as_integer())
}

fn list(t: &toml::Table, key: &str) -> Option<Vec<String>> {
    t.get(key)
        .and_then(|v| v.as_array())
        .map(|a| a.iter().map(|v| v.as_str().unwrap().to_string()).collect())
}

fn tables(t: &toml::Table, key: &str) -> Vec<(String, toml::Table)> {
    match t.get(key).and_then(|v| v.as_table()) {
        Some(inner) => {
            inner.iter().map(|(k, v)| (k.clone(), v.as_table().unwrap().clone())).collect()
        }
        None => Vec::new(),
    }
}

fn node(t: &toml::Table) -> TargetNode {
    let mut children = Vec::new();
    for (k, v) in t {
        if let Some(inner) = v.as_table() {
            children.push((k.clone(), node(inner)));
        }
    }
    TargetNode {
        title: text(t, "title"),
        menu: text(t, "menu"),
        host: text(t, "host"),
        probe: text(t, "probe"),
        port: number(t, "port").map(|n| n as u16),
        lookup: text(t, "lookup"),
        alerts: list(t, "alerts"),
        agents: list(t, "agents"),
        nomasterpoll: t.get("nomasterpoll").and_then(|v| v.as_bool()),
        children,
    }
}

fn probe(t: &toml::Table) -> ProbeConfig {
    match text(t, "type").unwrap().as_str() {
        "icmp" => {
            let mut c = IcmpConfig::default();
            if let Some(ms) = number(t, "timeout_ms") {
                c.timeout_ms = ms as u64;
            }
            ProbeConfig::Icmp(c)
        }
        "http" => ProbeConfig::Http(HttpConfig {
            url: default_http_url(),
            method: default_http_method(),
            timeout_ms: default_http_timeout_ms(),
            interval_ms: default_http_interval_ms(),
        }),
        "tcp" => ProbeConfig::Tcp(TcpConfig {
            port: number(t, "port").map(|n| n as u16),
            timeout_ms: default_timeout_ms(),
            interval_ms: default_interval_ms(),
        }),
        other => panic!("no probe type {other}"),
    }
}

/// The tables of a configuration file.
fn parsed(raw: &str) -> Config {
    let t: toml::Table = toml::from_str(raw).unwrap();
    let mut cfg = Config {
        database: Database::default(),
        web: Web::default(),
        probes: NameMap::new(),
        emitters: NameMap::new(),
        alerts: NameMap::new(),
        smtp: None,
        status: None,
        agents: NameMap::new(),
        targets: tables(&t, "targets").iter().map(|(k, v)| (k.clone(), node(v))).collect(),
    };
    for (name, p) in tables(&t, "probes") {
        cfg.probes.insert(name, probe(&p));
    }
    for (name, a) in tables(&t, "agents") {
        cfg.agents.insert(name, AgentConfig { secret: text(&a, "secret").unwrap() });
    }
    for (name, a) in tables(&t, "alerts") {
        cfg.alerts.insert(
            name,
            AlertConfig {
                kind: match text(&a, "type").unwrap().as_str() {
                    "loss" => AlertKind::Loss,
                    _ => AlertKind::Rtt,
                },
                pattern: text(&a, "pattern").unwrap(),
                comment: text(&a, "comment").unwrap_or_default(),
                to: list(&a, "to").unwrap(),
                repeat_every: text(&a, "repeat_every"),
                notify_clear: a
                    .get("notify_clear")
                    .and_then(|v| v.as_bool())
                    .unwrap_or_else(default_true),
            },
        );
    }
    if let Some(s) = t.get("status").and_then(|v| v.as_table()) {
        let mut components = NameMap::new();
        for (key, c) in tables(s, "components") {
            components.insert(
                key,
                StatusComponentConfig {
                    name: text(&c, "name"),
                    group: text(&c, "group"),
                    targets: list(&c, "targets").unwrap(),
                    degraded_loss: text(&c, "degraded_loss"),
                    down_loss: text(&c, "down_loss"),
                    degraded_rtt: text(&c, "degraded_rtt"),
                    incident_at: text(&c, "incident_at"),
                },
            );
        }
        cfg.status = Some(StatusConfig {
            title: text(s, "title"),
            history_days: default_history_days(),
            admin_token: text(s, "admin_token"),
            components,
        });
    }
    cfg
}

fn accepted(raw: &str) -> Config {
    Config::from_parsed(parsed(raw)).unwrap()
}

const ONE: &str = "[targets.a]\nhost = \"192.0.2.1\"\n";

#[test]
fn sinks_in_order() {
    let mut cfg = accepted(
        r#"
        [alerts.a1]
        type = "loss"
        pattern = ">10%"
        to = ["log:"]
        [status]
        [status.components.c]
        targets = ["a"]
        [targets.a]
        host = "192.0.2.1"
        alerts = ["a1"]
        "#,
    );
    cfg.emitters.insert("x".to_string(), EmitterConfig::Prometheus);
    cfg.emitters.insert(
        "g".to_string(),
        EmitterConfig::Graphite(GraphiteConfig { addr: "g:2003".to_string(), prefix: "p".to_string() }),
    );
    cfg.emitters.insert("p".to_string(), EmitterConfig::Prometheus);
    let s = set_up(&cfg, &Vec::new()).unwrap();
    assert_eq!(
        s.sinks,
        vec![
            Sink::Log,
            Sink::Store,
            Sink::Live,
            Sink::Alerts,
            Sink::Status,
            Sink::Graphite(0),
            Sink::Prometheus(1),
            Sink::Prometheus(2),
        ]
    );
    assert_eq!(s.registry, Some(2));
    assert_eq!(s.targets, vec![("a".to_string(), "192.0.2.1".to_string())]);
    cfg.web.enabled = false;
    let s = set_up(&cfg, &Vec::new()).unwrap();
    assert!(!s.sinks.contains(&Sink::Live));
}

#[test]
fn agents_need_the_web_server() {
    let mut cfg = accepted(&format!("[agents.par]\nsecret = \"s\"\n{ONE}"));
    assert!(set_up(&cfg, &Vec::new()).is_ok());
    cfg.web.enabled = false;
    assert!(matches!(set_up(&cfg, &Vec::new()), Err(SetupError::AgentsCannotConnect)));
    assert_eq!(
        SetupError::AgentsCannotConnect.messages(&cfg),
        vec!["[agents] are configured but the web server is disabled — they cannot connect"]
    );
    let bare = accepted(ONE);
    let s = set_up(&bare, &Vec::new()).unwrap();
    assert!(s.alerter.is_none() && s.engine.is_none() && s.registry.is_none());
}

#[test]
fn plans_leave_out_agents_targets() {
    let cfg = accepted(
        "[agents.par]\nsecret = \"s\"\n[targets.a]\nhost = \"h\"\n[targets.b]\nhost = \"h\"\nagents = [\"par\"]\nnomasterpoll = true\n",
    );
    let p = plan(&cfg).unwrap();
    assert_eq!(p.targets.len(), 1);
    assert_eq!(p.targets[0].path, "a");
    assert_eq!(p.probes.entries[0].0, "icmp");
    assert_eq!((p.step, p.pings), (300, 20));
}

#[test]
fn check_config_output() {
    let cfg = accepted(ONE);
    let flat = cfg.flatten_targets().unwrap();
    assert_eq!(
        check_heading("dabping.toml", flat.len(), 300, 20),
        "dabping.toml OK: 1 targets, step 300s, 20 pings/round"
    );
    assert_eq!(
        check_line(&flat[0]),
        format!("  {:<40} {:<30} probe={}", "a", "192.0.2.1", "icmp")
    );
}

#[test]
fn once_output() {
    let mut r = RoundResult {
        target: "once".to_string(),
        host: "example.com".to_string(),
        addr: IpAddr::V4(1),
        started: None,
        sent: 3,
        rtts: vec![Duration::from_millis(10), Duration::from_millis(30)],
    };
    let (text, ok) = once_report(&r, "192.0.2.1");
    assert!(ok);
    assert_eq!(
        text,
        "dabping: 3 pings to example.com (192.0.2.1)\nsent 3  recv 2  loss 33.3%\n\
         min 10.00ms  med 20.00ms  avg 20.00ms  max 30.00ms\nrtts: 10.00ms 30.00ms\n"
    );
    r.rtts.clear();
    let (text, ok) = once_report(&r, "192.0.2.1");
    assert!(!ok);
    assert!(text.ends_with("loss 100.0%\nmin -  med -  avg -  max -\n"));
}

#[test]
fn dump_output() {
    let d = |v: f64| Double { bits: v.to_bits() };
    let p = Point {
        ts: 1000,
        loss: d(100.0 / 3.0),
        median: d(0.02),
        pings: vec![d(0.01), d(0.03), d(f64::NAN)],
    };
    assert_eq!(
        dump_columns(),
        format!("{:<20} {:>7} {:>10} {:>10} {:>10}", "time", "loss%", "median", "min", "max")
    );
    assert_eq!(
        dump_line("2024-01-31 13:37:00", &p),
        format!(
            "{:<20} {:>7} {:>10} {:>10} {:>10}",
            "2024-01-31 13:37:00", "33.3", "20.00ms", "10.00ms", "30.00ms"
        )
    );
    let f = Fetched { period: 300, points: vec![p] };
    assert_eq!(dump_heading("isp/gw", &f, Cf::Max), "isp/gw: 1 points @ 300s (Max)");
}

#[test]
fn snippets_for_a_new_agent() {
    let s = agent_snippets("par", "https://dab.example.org", "topsecret");
    assert!(s.contains("[agents.par]\nsecret = \"topsecret\"\n"));
    assert!(s.contains("DABPING_AGENT_SECRET=topsecret\n"));
    assert!(s.contains("dabping agent -m https://dab.example.org -n par\n"));
}
