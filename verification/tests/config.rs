use dabping::alert::AlerterError;
use dabping::config::{ConfigError,
    AgentConfig, AlertConfig, AlertKind, Config, Database, HttpConfig, IcmpConfig, ProbeConfig,
    StatusComponentConfig, StatusConfig, TargetNode, TcpConfig, Web, default_history_days,
    default_http_interval_ms, default_http_method, default_http_timeout_ms, default_http_url,
    default_interval_ms, default_timeout_ms, default_true, probes_message,
};
use dabping::names::NameMap;
use dabping::double::Double;
use dabping::probe::ProbeError;
use dabping::status::StatusError;
fn text(t: &toml::Table, key: &str) -> Option<String> {
    t.get(key).and_then(|v| v.as_str()).map(|s| s.to_string())
}

fn number(t: &toml::Table, key: &str) -> Option<i64> {
    t.get(key).and_then(|v| v.as_integer())
}

fn list(t: &toml::Table, key: &str) -> Option<Vec<String>> {
    t.get(key)
        .and_then(|v| v.as_array())
        .map(|a| a.iter().map(|v| v.as_str().unwrap().to_string()).collect())
}

fn tables(t: &toml::Table, key: &str) -> Vec<(String, toml::Table)> {
    match t.get(key).and_then(|v| v.as_table()) {
        Some(inner) => {
            inner.iter().map(|(k, v)| (k.clone(), v.as_table().unwrap().clone())).collect()
        }
        None => Vec::new(),
    }
}

fn node(t: &toml::Table) -> TargetNode {
    let mut children = Vec::new();
    for (k, v) in t {
        if let Some(inner) = v.as_table() {
            children.push((k.clone(), node(inner)));
        }
    }
    TargetNode {
        title: text(t, "title"),
        menu: text(t, "menu"),
        host: text(t, "host"),
        probe: text(t, "probe"),
        port: number(t, "port").map(|n| n as u16),
        lookup: text(t, "lookup"),
        alerts: list(t, "alerts"),
        agents: list(t, "agents"),
        nomasterpoll: t.get("nomasterpoll").and_then(|v| v.as_bool()),
        children,
    }
}

fn probe(t: &toml::Table) -> ProbeConfig {
    match text(t, "type").unwrap().as_str() {
        "icmp" => {
            let mut c = IcmpConfig::default();
            if let Some(ms) = number(t, "timeout_ms") {
                c.timeout_ms = ms as u64;
            }
            ProbeConfig::Icmp(c)
        }
        "http" => ProbeConfig::Http(HttpConfig {
            url: default_http_url(),
            method: default_http_method(),
            timeout_ms: default_http_timeout_ms(),
            interval_ms: default_http_interval_ms(),
        }),
        "tcp" => ProbeConfig::Tcp(TcpConfig {
            port: number(t, "port").map(|n| n as u16),
            timeout_ms: default_timeout_ms(),
            interval_ms: default_interval_ms(),
        }),
        other => panic!("no probe type {other}"),
    }
}

/// The tables of a configuration file.
fn parsed(raw: &str) -> Config {
    let t: toml::Table = toml::from_str(raw).unwrap();
    let mut cfg = Config {
        database: Database::default(),
        web: Web::default(),
        probes: NameMap::new(),
        emitters: NameMap::new(),
        alerts: NameMap::new(),
        smtp: None,
        status: None,
        agents: NameMap::new(),
        targets: tables(&t, "targets").iter().map(|(k, v)| (k.clone(), node(v))).collect(),
    };
    for (name, p) in tables(&t, "probes") {
        cfg.probes.insert(name, probe(&p));
    }
    for (name, a) in tables(&t, "agents") {
        cfg.agents.insert(name, AgentConfig { secret: text(&a, "secret").unwrap() });
    }
    for (name, a) in tables(&t, "alerts") {
        cfg.alerts.insert(
            name,
            AlertConfig {
                kind: match text(&a, "type").unwrap().as_str() {
                    "loss" => AlertKind::Loss,
                    _ => AlertKind::Rtt,
                },
                pattern: text(&a, "pattern").unwrap(),
                comment: text(&a, "comment").unwrap_or_default(),
                to: list(&a, "to").unwrap(),
                repeat_every: text(&a, "repeat_every"),
                notify_clear: a
                    .get("notify_clear")
                    .and_then(|v| v.as_bool())
                    .unwrap_or_else(default_true),
            },
        );
    }
    if let Some(s) = t.get("status").and_then(|v| v.as_table()) {
        let mut components = NameMap::new();
        for (key, c) in tables(s, "components") {
            components.insert(
                key,
                StatusComponentConfig {
                    name: text(&c, "name"),
                    group: text(&c, "group"),
                    targets: list(&c, "targets").unwrap(),
                    degraded_loss: text(&c, "degraded_loss"),
                    down_loss: text(&c, "down_loss"),
                    degraded_rtt: text(&c, "degraded_rtt"),
                    incident_at: text(&c, "incident_at"),
                },
            );
        }
        cfg.status = Some(StatusConfig {
            title: text(s, "title"),
            history_days: default_history_days(),
            admin_token: text(s, "admin_token"),
            components,
        });
    }
    cfg
}

use std::collections::BTreeMap;

fn load(raw: &str) -> Result<Config, ConfigError> {
    Config::from_parsed(parsed(raw))
}

fn message(e: ConfigError) -> String {
    match e {
        ConfigError::Target(t) => t.message(),
        ConfigError::Alerts(AlerterError::Target(t)) => t.message(),
        ConfigError::Status(StatusError::Target(t)) => t.message(),
        other => format!("{other:?}"),
    }
}

#[test]
fn flattens_nested_targets_with_probe_inheritance() {
    let cfg = load(
        r#"
            [probes.icmp]
            type = "icmp"
            [probes.slow]
            type = "icmp"
            timeout_ms = 5000

            [targets.isp]
            title = "Upstream"
            probe = "slow"
              [targets.isp.gw]
              host = "192.0.2.1"
              [targets.isp.dns]
              host = "192.0.2.53"
              probe = "icmp"
            [targets.web]
            host = "example.com"
            "#,
    )
    .unwrap();
    let flat = cfg.flatten_targets().unwrap();
    let by_path: BTreeMap<_, _> =
        flat.iter().map(|t| (t.path.as_str(), t.probe.as_str())).collect();
    assert_eq!(by_path["isp/gw"], "slow"); // inherited
    assert_eq!(by_path["isp/dns"], "icmp"); // overridden
    assert_eq!(by_path["web"], "icmp"); // default
    assert_eq!(flat.len(), 3);
}

#[test]
fn rejects_unknown_probe_reference() {
    let err = load(
        r#"
            [targets.a]
            host = "192.0.2.1"
            probe = "nope"
            "#,
    );
    assert!(err.is_err());
}

#[test]
fn implicit_icmp_survives_other_probes() {
    let cfg = load(
        r#"
            [probes.web]
            type = "http"

            [targets.a]
            host = "192.0.2.1"
            [targets.b]
            host = "192.0.2.2"
            probe = "web"
            "#,
    )
    .unwrap();
    let flat = cfg.flatten_targets().unwrap();
    let by_path: BTreeMap<_, _> =
        flat.iter().map(|t| (t.path.as_str(), t.probe.as_str())).collect();
    assert_eq!(by_path["a"], "icmp");
    assert_eq!(by_path["b"], "web");
}

#[test]
fn agents_inherit_and_validate() {
    let cfg = load(
        r#"
            [agents.lon1]
            secret = "s"

            [targets.isp]
            agents = ["lon1"]
              [targets.isp.gw]
              host = "192.0.2.1"
              [targets.isp.faraway]
              host = "192.0.2.2"
              nomasterpoll = true
            [targets.local]
            host = "127.0.0.1"
            "#,
    )
    .unwrap();
    let flat = cfg.flatten_targets().unwrap();
    let by_path: BTreeMap<_, _> = flat.iter().map(|t| (t.path.as_str(), t)).collect();
    assert_eq!(by_path["isp/gw"].agents, vec!["lon1"]); // inherited
    assert!(!by_path["isp/gw"].nomasterpoll);
    assert!(by_path["isp/faraway"].nomasterpoll);
    assert!(by_path["local"].agents.is_empty());
}

#[test]
fn rejects_unknown_agent_and_orphan_nomasterpoll() {
    let err = load(
        r#"
            [targets.a]
            host = "192.0.2.1"
            agents = ["ghost"]
            "#,
    )
    .unwrap_err();
    assert!(message(err).contains("unknown agent"));

    let err = load(
        r#"
            [targets.a]
            host = "192.0.2.1"
            nomasterpoll = true
            "#,
    )
    .unwrap_err();
    assert!(message(err).contains("nobody would measure"));
}

#[test]
fn rejects_at_sign_in_target_names() {
    assert!(
        load(
            r#"
                [targets."a@b"]
                host = "192.0.2.1"
                "#,
        )
        .is_err()
    );
}

#[test]
fn rejects_empty_section() {
    assert!(
        load(
            r#"
                [targets.empty]
                title = "nothing here"
                "#,
        )
        .is_err()
    );
}

const ONE: &str = "[targets.a]\nhost = \"192.0.2.1\"\n";

#[test]
fn says_what_is_wrong_with_a_target() {
    let err = load("[targets.a]\nhost = \"h\"\nprobe = \"no\\tpe\"\n").unwrap_err();
    assert_eq!(message(err), "target a: unknown probe \"no\\tpe\"");
    let err = load("[agents.b]\nsecret = \"s\"\n[targets.a]\nhost = \"h\"\nagents = [\"b\", \"c\"]\n")
        .unwrap_err();
    assert_eq!(message(err), "target a: unknown agent \"c\" (no [agents.c] section)");
    let err = load("[probes.t]\ntype = \"tcp\"\n[targets.a]\nhost = \"h\"\nprobe = \"t\"\n")
        .unwrap_err();
    assert_eq!(
        message(err),
        "target a: tcp probe \"t\" needs a port (on the probe or the target)"
    );
    let err = load("[targets.\"a b\"]\nhost = \"h\"\n").unwrap_err();
    assert_eq!(
        message(err),
        "invalid target path \"a b\": name components may only contain letters, digits, '_', '-' and '.'"
    );
    let err = load("[targets.\"a@b\"]\nhost = \"h\"\n").unwrap_err();
    assert_eq!(message(err), "target a@b: '@' is reserved for agent series");
    let err = load("[targets.s]\ntitle = \"x\"\n").unwrap_err();
    assert_eq!(message(err), "target s: section has neither a host nor children");
}

#[test]
fn a_tcp_target_takes_its_port_from_the_section() {
    let cfg =
        load("[probes.t]\ntype = \"tcp\"\n[targets.s]\nport = 443\nprobe = \"t\"\n[targets.s.a]\nhost = \"h\"\n")
            .unwrap();
    assert_eq!(cfg.flatten_targets().unwrap()[0].port, Some(443));
}

#[test]
fn checks_the_database_section() {
    let bad = |change: fn(&mut Config)| {
        let mut cfg = parsed(ONE);
        change(&mut cfg);
        Config::from_parsed(cfg).unwrap_err()
    };
    assert!(matches!(bad(|c| c.database.pings = 2), ConfigError::Pings(2)));
    assert!(matches!(bad(|c| c.database.step = 0), ConfigError::Step));
    assert!(matches!(bad(|c| c.targets.clear()), ConfigError::NoTargets));
    assert!(matches!(bad(|c| c.database.rras.clear()), ConfigError::NoArchives));
    assert!(matches!(bad(|c| c.database.rras[1].rows = 1), ConfigError::Archive(1)));
    assert!(matches!(bad(|c| c.database.rras[2].steps = 0), ConfigError::Archive(2)));
    assert!(matches!(
        bad(|c| c.database.rras[0].xff = Double { bits: 1.0f64.to_bits() }),
        ConfigError::Xff(0)
    ));
    assert!(matches!(
        bad(|c| c.database.rras[0].xff = Double { bits: f64::NAN.to_bits() }),
        ConfigError::Xff(0)
    ));
    assert!(matches!(
        bad(|c| c.database.rras[0].xff = Double { bits: (-0.1f64).to_bits() }),
        ConfigError::Xff(0)
    ));
    let mut fine = parsed(ONE);
    fine.database.rras[0].xff = Double { bits: 0 };
    assert!(Config::from_parsed(fine).is_ok());
}

#[test]
fn checks_probes_alerts_and_components() {
    let mut cfg = parsed(ONE);
    cfg.probes.insert(
        "web".to_string(),
        ProbeConfig::Http(HttpConfig {
            url: "ftp://x/".to_string(),
            method: default_http_method(),
            timeout_ms: default_http_timeout_ms(),
            interval_ms: default_http_interval_ms(),
        }),
    );
    assert!(matches!(
        Config::from_parsed(cfg),
        Err(ConfigError::Probe { name, fault: ProbeError::Url }) if name == "web"
    ));
    let err = load(
        "[alerts.a1]\ntype = \"loss\"\npattern = \"10\"\nto = [\"log:\"]\n[targets.a]\nhost = \"h\"\n",
    )
    .unwrap_err();
    assert!(matches!(err, ConfigError::Alerts(AlerterError::Alert { name, .. }) if name == "a1"));
    let err = load(
        "[status]\n[status.components.c]\ntargets = [\"b\"]\n[targets.a]\nhost = \"h\"\n",
    )
    .unwrap_err();
    assert!(matches!(err, ConfigError::Status(StatusError::Component { key, .. }) if key == "c"));
}

#[test]
fn refusals_in_words() {
    let words = |cfg: Config, again: Config| Config::from_parsed(cfg).unwrap_err().messages(&again);
    let changed = |change: fn(&mut Config)| {
        let make = || {
            let mut cfg = parsed(ONE);
            change(&mut cfg);
            cfg
        };
        words(make(), make())
    };
    assert_eq!(changed(|c| c.database.pings = 2), vec!["database.pings must be >= 3 (got 2)"]);
    assert_eq!(changed(|c| c.database.step = 0), vec!["database.step must be > 0"]);
    assert_eq!(changed(|c| c.targets.clear()), vec!["no targets configured"]);
    assert_eq!(
        changed(|c| c.database.rras.clear()),
        vec!["database.rra table must have at least one archive"]
    );
    assert_eq!(
        changed(|c| c.database.rras[1].rows = 1),
        vec!["database.rra[1]: steps must be >= 1 and rows >= 2"]
    );
    assert_eq!(
        changed(|c| c.database.rras[0].xff = Double { bits: 1.0f64.to_bits() }),
        vec!["database.rra[0]: xff must be in [0, 1)"]
    );
    let web = |c: &mut Config| {
        c.probes.insert(
            "web".to_string(),
            ProbeConfig::Http(HttpConfig {
                url: "ftp://x/".to_string(),
                method: default_http_method(),
                timeout_ms: default_http_timeout_ms(),
                interval_ms: default_http_interval_ms(),
            }),
        );
    };
    let said = "http probe url must start with http:// or https:// (got \"ftp://x/\")";
    assert_eq!(changed(web), vec!["probe \"web\"", said]);
    let mut cfg = parsed(ONE);
    assert_eq!(probes_message(&cfg.probes), None);
    web(&mut cfg);
    assert_eq!(probes_message(&cfg.probes), Some(said.to_string()));
    let raw = |r: &str| words(parsed(r), parsed(r));
    let alert = |rest: &str| {
        raw(&format!("[alerts.a1]\ntype = \"loss\"\n{rest}\n[targets.a]\nhost = \"h\"\n"))
    };
    assert_eq!(
        alert("pattern = \"*5*\"\nto = [\"log:\"]"),
        vec!["alert \"a1\"", "pattern \"*5*\" matches nothing concrete"]
    );
    assert_eq!(
        alert("pattern = \">1\"\nto = []"),
        vec!["alert \"a1\": `to` must list at least one notification target"]
    );
    assert_eq!(
        alert("pattern = \">1\"\nto = [\"log:\", \"page-me\"]"),
        vec![
            "alert \"a1\"",
            "bad notification target \"page-me\" (log: | email:addr | exec:cmd | webhook:url)",
        ]
    );
    assert_eq!(
        alert("pattern = \">1\"\nto = [\"log:\"]\nrepeat_every = \"soon\""),
        vec!["alert \"a1\": repeat_every", "cannot parse range \"soon\""]
    );
    assert_eq!(
        raw("[targets.a]\nhost = \"h\"\nalerts = [\"a2\"]\n"),
        vec!["target a: unknown alert \"a2\""]
    );
    let component = |rest: &str| {
        raw(&format!("[status]\n[status.components.c]\n{rest}\n[targets.a]\nhost = \"h\"\n"))
    };
    assert_eq!(component("targets = []"), vec!["status component \"c\": needs at least one target"]);
    assert_eq!(
        component("targets = [\"b\"]"),
        vec!["status component \"c\": unknown target \"b\""]
    );
    assert_eq!(
        component("targets = [\"a\"]\ndown_loss = \"*5*\""),
        vec!["status component \"c\": down_loss", "pattern \"*5*\" matches nothing concrete"]
    );
    assert_eq!(
        component("targets = [\"a\"]\nincident_at = \"bad\""),
        vec![
            "status component \"c\": incident_at",
            "bad severity \"bad\" (degraded|partial_outage|major_outage)",
        ]
    );
}
