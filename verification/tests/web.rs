use dabping::agent::WireRound;
use dabping::config::{
    AgentConfig, AlertConfig, AlertKind, Config, Database, HttpConfig, IcmpConfig, ProbeConfig,
    StatusComponentConfig, StatusConfig, TargetNode, TcpConfig, Web, default_history_days,
    default_http_interval_ms, default_http_method, default_http_timeout_ms, default_http_url,
    default_interval_ms, default_timeout_ms, default_true,
};
use dabping::names::NameMap;
use dabping::double::Double;
use dabping::probe::{IpAddr, RoundResult};
use dabping::status::{Event, Severity, StatusEngine, can_reach, uptime_days};
use dabping::store::{Cf, RraSpec, Store, StoreError};
use dabping::time::Duration;
use dabping::util::RangeError;
use dabping::web::page::{
    bar, fmt_second, fmt_ts, listed_components, status_context, time_or_seconds, uptime_label,
};
use dabping::web::{
    DataError, DataQuery, accept_results, agent_auth, asset_path, build_agents, build_tree,
    charts_limit, content_type, data, data_status, default_cf, default_points, default_range,
    hold_millis, live_round, top_targets,
};
fn text(t: &toml::Table, key: &str) -> Option<String> {
    t.get(key).and_then(|v| v.as_str()).map(|s| s.to_string())
}

fn number(t: &toml::Table, key: &str) -> Option<i64> {
    t.get(key).and_then(|v| v.as_integer())
}

fn list(t: &toml::Table, key: &str) -> Option<Vec<String>> {
    t.get(key)
        .and_then(|v| v.as_array())
        .map(|a| a.iter().map(|v| v.as_str().unwrap().to_string()).collect())
}

fn tables(t: &toml::Table, key: &str) -> Vec<(String, toml::Table)> {
    match t.get(key).and_then(|v| v.as_table()) {
        Some(inner) => {
            inner.iter().map(|(k, v)| (k.clone(), v.as_table().unwrap().clone())).collect()
        }
        None => Vec::new(),
    }
}

fn node(t: &toml::Table) -> TargetNode {
    let mut children = Vec::new();
    for (k, v) in t {
        if let Some(inner) = v.as_table() {
            children.push((k.clone(), node(inner)));
        }
    }
    TargetNode {
        title: text(t, "title"),
        menu: text(t, "menu"),
        host: text(t, "host"),
        probe: text(t, "probe"),
        port: number(t, "port").map(|n| n as u16),
        lookup: text(t, "lookup"),
        alerts: list(t, "alerts"),
        agents: list(t, "agents"),
        nomasterpoll: t.get("nomasterpoll").and_then(|v| v.as_bool()),
        children,
    }
}

fn probe(t: &toml::Table) -> ProbeConfig {
    match text(t, "type").unwrap().as_str() {
        "icmp" => {
            let mut c = IcmpConfig::default();
            if let Some(ms) = number(t, "timeout_ms") {
                c.timeout_ms = ms as u64;
            }
            ProbeConfig::Icmp(c)
        }
        "http" => ProbeConfig::Http(HttpConfig {
            url: default_http_url(),
            method: default_http_method(),
            timeout_ms: default_http_timeout_ms(),
            interval_ms: default_http_interval_ms(),
        }),
        "tcp" => ProbeConfig::Tcp(TcpConfig {
            port: number(t, "port").map(|n| n as u16),
            timeout_ms: default_timeout_ms(),
            interval_ms: default_interval_ms(),
        }),
        other => panic!("no probe type {other}"),
    }
}

/// The tables of a configuration file.
fn parsed(raw: &str) -> Config {
    let t: toml::Table = toml::from_str(raw).unwrap();
    let mut cfg = Config {
        database: Database::default(),
        web: Web::default(),
        probes: NameMap::new(),
        emitters: NameMap::new(),
        alerts: NameMap::new(),
        smtp: None,
        status: None,
        agents: NameMap::new(),
        targets: tables(&t, "targets").iter().map(|(k, v)| (k.clone(), node(v))).collect(),
    };
    for (name, p) in tables(&t, "probes") {
        cfg.probes.insert(name, probe(&p));
    }
    for (name, a) in tables(&t, "agents") {
        cfg.agents.insert(name, AgentConfig { secret: text(&a, "secret").unwrap() });
    }
    for (name, a) in tables(&t, "alerts") {
        cfg.alerts.insert(
            name,
            AlertConfig {
                kind: match text(&a, "type").unwrap().as_str() {
                    "loss" => AlertKind::Loss,
                    _ => AlertKind::Rtt,
                },
                pattern: text(&a, "pattern").unwrap(),
                comment: text(&a, "comment").unwrap_or_default(),
                to: list(&a, "to").unwrap(),
                repeat_every: text(&a, "repeat_every"),
                notify_clear: a
                    .get("notify_clear")
                    .and_then(|v| v.as_bool())
                    .unwrap_or_else(default_true),
            },
        );
    }
    if let Some(s) = t.get("status").and_then(|v| v.as_table()) {
        let mut components = NameMap::new();
        for (key, c) in tables(s, "components") {
            components.insert(
                key,
                StatusComponentConfig {
                    name: text(&c, "name"),
                    group: text(&c, "group"),
                    targets: list(&c, "targets").unwrap(),
                    degraded_loss: text(&c, "degraded_loss"),
                    down_loss: text(&c, "down_loss"),
                    degraded_rtt: text(&c, "degraded_rtt"),
                    incident_at: text(&c, "incident_at"),
                },
            );
        }
        cfg.status = Some(StatusConfig {
            title: text(s, "title"),
            history_days: default_history_days(),
            admin_token: text(s, "admin_token"),
            components,
        });
    }
    cfg
}

fn d(v: f64) -> Double {
    Double { bits: v.to_bits() }
}

const TREE: &str = r#"
    [probes.slow]
    type = "icmp"
    [agents.ams]
    secret = "s2"
    [agents.par]
    secret = "s1"
    [targets.isp]
    title = "Upstream"
    agents = ["par"]
      [targets.isp.gw]
      host = "192.0.2.1"
      probe = "slow"
      menu = "GW"
      [targets.isp.dns]
      host = "192.0.2.53"
    [targets.web]
    host = "example.com"
    agents = ["ams", "par"]
"#;

fn config() -> Config {
    Config::from_parsed(parsed(TREE)).unwrap()
}

#[test]
fn agents_get_their_assignments() {
    let agents = build_agents(&config()).unwrap();
    assert_eq!(agents.entries.len(), 2);
    let (name, par) = &agents.entries[1];
    assert_eq!(name, "par");
    assert_eq!(par.secret, "s1");
    assert_eq!(par.allowed, vec!["isp/dns", "isp/gw", "web"]);
    assert_eq!((par.assignment.step, par.assignment.pings), (300, 20));
    let probes: Vec<&str> =
        par.assignment.probes.entries.iter().map(|p| p.0.as_str()).collect();
    assert_eq!(probes, vec!["icmp", "slow"]);
    let (_, ams) = &agents.entries[0];
    assert_eq!(ams.allowed, vec!["web"]);
    assert_eq!(ams.assignment.probes.entries.len(), 1);
    assert_eq!(ams.assignment.targets[0].host, "example.com");
}

#[test]
fn agents_must_know_their_secret() {
    let agents = build_agents(&config()).unwrap();
    assert_eq!(agent_auth(&agents, Some("par"), Some("s1")), Some(1));
    assert_eq!(agent_auth(&agents, Some("par"), Some("s2")), None);
    assert_eq!(agent_auth(&agents, Some("nyc"), Some("s1")), None);
    assert_eq!(agent_auth(&agents, None, Some("s1")), None);
    assert_eq!(agent_auth(&agents, Some("par"), None), None);
}

fn pushed(target: &str, rtt: f64) -> (WireRound, Option<IpAddr>) {
    let w = WireRound {
        target: target.to_string(),
        host: "h".to_string(),
        addr: "1.1.1.1".to_string(),
        ts: 1000,
        sent: 3,
        rtts: vec![d(rtt)],
    };
    (w, Some(IpAddr::V4(0x0101_0101)))
}

#[test]
fn pushes_for_other_targets_are_rejected() {
    let agents = build_agents(&config()).unwrap();
    let ams = &agents.entries[0].1;
    let (kept, rejected) = accept_results(
        ams,
        "ams",
        vec![pushed("isp/gw", 0.1), pushed("web", 0.02), pushed("nope", 0.1), pushed("web", 0.03)],
    );
    assert_eq!(rejected, 2);
    assert_eq!(kept.len(), 2);
    assert_eq!(kept[0].target, "web@ams");
    assert_eq!(kept[0].rtts, vec![Duration::from_millis(20)]);
    assert_eq!(kept[1].rtts, vec![Duration::from_millis(30)]);
}

#[test]
fn the_tree_resolves_inherited_agents() {
    let tree = build_tree(&config());
    assert_eq!(tree.len(), 2);
    assert_eq!(tree[0].name, "isp");
    assert_eq!(tree[0].title.as_deref(), Some("Upstream"));
    assert!(tree[0].agents.is_empty() && tree[0].host.is_none());
    let gw = &tree[0].children[1];
    assert_eq!((gw.name.as_str(), gw.path.as_str()), ("gw", "isp/gw"));
    assert_eq!(gw.menu.as_deref(), Some("GW"));
    assert_eq!(gw.agents, vec!["par"]);
    assert_eq!(tree[1].agents, vec!["ams", "par"]);
}

fn specs() -> Vec<RraSpec> {
    vec![RraSpec { cf: Cf::Average, steps: 1, rows: 64, xff: d(0.5) }]
}

fn round(target: &str, ts: u64, ms: &[u64], sent: u32) -> RoundResult {
    RoundResult {
        target: target.to_string(),
        host: "h".to_string(),
        addr: IpAddr::V4(1),
        started: Some(Duration::from_secs(ts)),
        sent,
        rtts: ms.iter().map(|n| Duration::from_millis(*n)).collect(),
    }
}

#[test]
fn live_rounds() {
    let l = live_round(&round("t", 1000, &[30, 10], 4));
    assert_eq!((l.target.as_str(), l.ts, l.sent, l.recv), ("t", 1000, 4, 2));
    assert_eq!(l.loss, d(50.0));
    assert_eq!(l.median, Some(d(0.02)));
    assert_eq!(l.rtts, vec![d(0.01), d(0.03)]);
}

fn query(range: &str, cf: &str) -> DataQuery {
    DataQuery { range: range.to_string(), cf: cf.to_string(), points: 400, from: None, to: None }
}

#[test]
fn data_requests() {
    let st = Store::open(10, 3, &specs());
    let mut m = st.create();
    st.record(&mut m, &round("t/a", 1000, &[10, 20, 30], 3)).unwrap();
    let f = data(&st, "t/a", Some(&m), &query("30s", "avg"), 1005).unwrap();
    assert_eq!(f.points.last().unwrap().ts, 1000);
    assert_eq!(f.points.last().unwrap().median, d(0.02));
    let mut q = query("nonsense", "average");
    q.from = Some(990);
    q.to = Some(1005);
    assert_eq!(data(&st, "t/a", Some(&m), &q, 5).unwrap().points.len(), 2);
    q.to = Some(990);
    assert!(matches!(
        data(&st, "t/a", Some(&m), &q, 5),
        Err(DataError::Range(RangeError::Unreadable))
    ));
}

#[test]
fn refused_data_requests() {
    let st = Store::open(10, 3, &specs());
    let m = st.create();
    let fail = |path: &str, image: Option<&[u8]>, q: DataQuery| {
        let e = data(&st, path, image, &q, 1_000_000).map(|_| ()).unwrap_err();
        let text = e.message(path, &q);
        (data_status(&text), text)
    };
    assert_eq!(
        fail("t/a", None, query("3h", "avg")),
        (404, "no data recorded for target \"t/a\"".to_string())
    );
    assert_eq!(
        fail("t/a", Some(&m), query("3h", "Mode")),
        (400, "unknown consolidation function \"mode\" (average|min|max)".to_string())
    );
    assert_eq!(
        fail("t/a", Some(&m), query(" x ", "avg")),
        (400, "cannot parse range \"x\"".to_string())
    );
    assert_eq!(fail("t/a", Some(&m), query("0s", "avg")), (400, "range must be > 0".to_string()));
    assert_eq!(
        fail("t/a", Some(&m), query("18446744073709551615", "avg")),
        (400, "range is too large".to_string())
    );
    assert_eq!(fail("", Some(&m), query("3h", "avg")), (400, "empty target path".to_string()));
    let mut q = query("3h", "avg");
    q.points = 0;
    q.range = "1000w".to_string();
    assert_eq!(
        fail("t/a", Some(&m), q),
        (400, "fetch would return 60480001 points; narrow the range".to_string())
    );
    let coarse = vec![RraSpec { cf: Cf::Max, steps: 4, rows: 64, xff: d(0.5) }];
    let st = Store::open(10, 3, &coarse);
    let m = st.create();
    let q = query("3h", "min");
    let e = data(&st, "t/a", Some(&m), &q, 1_000_000).map(|_| ()).unwrap_err();
    assert_eq!(e.message("t/a", &q), "no archive can serve Min; add a matching [[database.rra]]");
    // what is said decides, whoever says it
    assert_eq!(data_status("invalid target path \"no data recorded\""), 404);
}

#[test]
fn small_rules() {
    assert_eq!(hold_millis(None), 3000);
    assert_eq!(hold_millis(Some("250")), 250);
    assert_eq!(hold_millis(Some("x")), 3000);
    assert_eq!(hold_millis(Some("99999")), 10_000);
    assert_eq!(asset_path("//app.js"), "app.js");
    assert_eq!(asset_path("/"), "index.html");
    assert_eq!(content_type("app.js"), "text/javascript");
    assert_eq!(content_type("x.unknownext"), "application/octet-stream");
    assert_eq!((charts_limit(10), charts_limit(1000)), (10, 100));
    assert_eq!((default_range().as_str(), default_cf().as_str(), default_points()), ("3h", "average", 400));
}

#[test]
fn rankings_are_in_order() {
    let st = Store::open(10, 3, &specs());
    let series = |rounds: &[RoundResult]| {
        let mut m = st.create();
        for r in rounds {
            st.record(&mut m, r).unwrap();
        }
        m
    };
    let fast = series(&[round("fast", 1000, &[5, 5, 5], 3)]);
    let slow = series(&[round("slow", 1000, &[50, 50, 50], 3)]);
    let lossy = series(&[round("lossy", 990, &[1, 1, 1], 3), round("lossy", 1000, &[20], 3)]);
    let dead = series(&[round("dead", 1000, &[], 3)]);
    let dead2 = series(&[round("dead2", 1000, &[], 3)]);
    let old = series(&[round("old", 100, &[5], 3)]);
    let named = |n: &str| (n.to_string(), format!("{n}.example"));
    let targets: Vec<(String, String)> =
        ["fast", "dead", "slow", "none", "lossy", "dead2", "old"].iter().map(|n| named(n)).collect();
    let images: Vec<Option<&[u8]>> = vec![
        Some(&fast), Some(&dead), Some(&slow), None, Some(&lossy), Some(&dead2), Some(&old),
    ];
    let names = |by: &str, n: usize| -> Vec<String> {
        top_targets(&st, &targets, &images, by, n, 1005, 10).into_iter().map(|e| e.path).collect()
    };
    assert_eq!(names("median", 10), vec!["slow", "lossy", "fast", "dead", "dead2"]);
    assert_eq!(names("loss", 10), vec!["dead", "dead2", "lossy", "slow", "fast"]);
    assert_eq!(names("loss", 2), vec!["dead", "dead2"]);
    let top = top_targets(&st, &targets, &images, "loss", 3, 1005, 10);
    assert_eq!(top[0].median, None);
    assert_eq!(top[0].loss, d(100.0));
    assert_eq!((top[2].host.as_str(), top[2].ts), ("lossy.example", 1000));
}

#[test]
fn days_of_uptime() {
    let st = Store::open(3600, 3, &vec![RraSpec { cf: Cf::Average, steps: 1, rows: 100, xff: d(0.5) }]);
    let day = 86_400u64;
    let mut a = st.create();
    st.record(&mut a, &round("a", 10 * day, &[1, 1, 1], 3)).unwrap();
    st.record(&mut a, &round("a", 10 * day + 7200, &[], 3)).unwrap();
    st.record(&mut a, &round("a", 11 * day, &[1], 3)).unwrap();
    let mut b = st.create();
    st.record(&mut b, &round("b", 10 * day, &[1, 1, 1], 3)).unwrap();
    st.record(&mut b, &round("b", 10 * day + 7200, &[1, 1, 1], 3)).unwrap();
    let targets = vec!["a".to_string(), "none".to_string(), "b".to_string()];
    let images: Vec<Option<&[u8]>> = vec![Some(&a), None, Some(&b)];
    let days = uptime_days(&st, &targets, &images, 2, (11 * day + 7200) as i64);
    assert_eq!(days.len(), 3);
    assert_eq!(days[0], (9 * 86_400, None));
    assert_eq!(days[1], (10 * 86_400, Some(d(75.0))));
    let lost: f64 = 100.0 * 2.0 / 3.0;
    assert_eq!(days[2], (11 * 86_400, Some(d(100.0 - lost))));
    assert_eq!(uptime_label(&days), format!("{:.2}% uptime", (75.0 + (100.0 - lost)) / 2.0));
    assert_eq!(uptime_label(&vec![(0, None)]), "no data");
}

#[test]
fn bars_have_looks() {
    let look = |p: f64| bar(Some("01-31".to_string()), Some(d(p))).cls;
    assert_eq!((look(100.0), look(99.5), look(99.49), look(95.0), look(94.9)), ("ok", "ok", "warn", "warn", "bad"));
    assert_eq!(bar(Some("01-31".to_string()), Some(d(99.876))).label, "01-31: 99.88% uptime");
    let none = bar(None, None);
    assert_eq!((none.cls, none.label.as_str()), ("", ": no data"));
}

#[test]
fn times_to_be_read() {
    assert_eq!(fmt_ts(i64::MAX), "9223372036854775807");
    assert_eq!(fmt_ts(-377_705_023_202), "-377705023202");
    assert!(fmt_ts(0).starts_with("19")); // 1969 or 1970, by time zone
    assert!(fmt_second(253_402_207_200).is_some());
    assert!(fmt_second(253_402_207_201).is_none());
    let t = fmt_second(1_700_000_000).unwrap();
    assert_eq!(t.len(), 19);
    assert!(t.starts_with("2023-11-1"));
    assert!(t.ends_with(":20"));
    assert_eq!(time_or_seconds(None, -5), "-5");
}

fn status_engine() -> StatusEngine {
    let cfg = parsed(
        r#"
        [probes.icmp]
        type = "icmp"
        [status]
        [status.components.a]
        targets = ["t/x"]
        group = "Edge"
        [status.components.b]
        targets = ["t/y"]
        [status.components.c]
        targets = ["t/x", "t/y"]
        group = "Edge"
        [targets.t.x]
        host = "h"
        [targets.t.y]
        host = "h"
    "#,
    );
    let mut events = Vec::new();
    for id in 1..=13u64 {
        let ts = (id % 5) as i64;
        events.push(Event::Open { id, component: "a".to_string(), title: format!("i{id}"), ts });
        if id != 4 {
            events.push(Event::Resolve { id, ts: 100 });
        }
    }
    StatusEngine::new(&cfg, &events).unwrap().unwrap()
}

#[test]
fn the_status_page() {
    let eng = status_engine();
    let st = Store::open(3600, 3, &specs());
    let images: Vec<Vec<Option<&[u8]>>> = vec![vec![None], vec![None], vec![None, None]];
    let c = status_context(&st, &eng, &images, 1_000_000_000);
    assert_eq!(c.title, "dabping status");
    assert_eq!(c.overall, Severity::Operational);
    assert_eq!((c.updated_at, c.history_days), (1_000_000_000, 90));
    let groups: Vec<(&str, Vec<&str>)> = c
        .groups
        .iter()
        .map(|g| (g.name.as_str(), g.components.iter().map(|v| v.key.as_str()).collect()))
        .collect();
    assert_eq!(groups, vec![("Edge", vec!["a", "c"]), ("", vec!["b"])]);
    let listed: Vec<(String, String)> =
        listed_components(&c.groups).into_iter().map(|s| (s.key, s.group)).collect();
    let want = [("a", "Edge"), ("c", "Edge"), ("b", "")];
    assert_eq!(listed, want.map(|(k, g)| (k.to_string(), g.to_string())).to_vec());
    assert_eq!(c.groups[0].components[0].bars.len(), 91);
    assert_eq!(c.groups[0].components[0].uptime_label, "no data");
    assert!(c.groups[0].components[0].bars[0].label.ends_with(": no data"));
    let open: Vec<u64> = c.open_incidents.iter().map(|i| i.id).collect();
    assert_eq!(open, vec![4]);
    assert_eq!(c.open_incidents[0].status, "open");
    let resolved: Vec<u64> = c.resolved_incidents.iter().map(|i| i.id).collect();
    assert_eq!(resolved, vec![9, 3, 8, 13, 2, 7, 12, 1, 6, 11]);
    assert_eq!(c.resolved_incidents[0].status, "resolved");
    assert_eq!(c.resolved_incidents[0].resolved_at, Some(100));
}

#[test]
fn explicit_windows_reach_as_far_as_the_clock_counts() {
    let st = Store::open(10, 3, &specs());
    let m = st.create();
    let mut q = query("3h", "average");
    q.from = Some(-5_000_000_000_000_000_000);
    q.to = Some(0);
    let f = data(&st, "t/a", Some(&m), &q, 5).unwrap();
    assert!(f.points.len() > 300 && f.points.len() <= 400);
    assert!(f.points[0].ts <= -5_000_000_000_000_000_000);
    assert!(f.points[0].loss.is_nan());
    q.from = Some(i64::MIN);
    assert_eq!(
        data(&st, "t/a", Some(&m), &q, 5).map(|_| ()),
        Err(DataError::Range(RangeError::TooLarge))
    );
    assert_eq!(data(&st, "t/a", None, &q, 5).map(|_| ()), Err(DataError::Store(StoreError::NoData)));
}

#[test]
fn what_reaches_too_far_back_is_known() {
    let st = Store::open(10, 3, &specs());
    assert!(st.layout.can_span(0, i64::MAX));
    assert!(!st.layout.can_span(-1, i64::MAX));
    assert!(!st.layout.can_span(1, 0));
    assert!(!st.layout.can_span(i64::MIN, 0));
    assert!(can_reach(&st, 90, 0));
    assert!(!can_reach(&st, u32::MAX, 0));
    assert!(!can_reach(&st, 1, i64::MIN));
}

#[test]
fn every_target_is_ranked_once() {
    let st = Store::open(10, 3, &specs());
    let image = |ms: u64| {
        let mut m = st.create();
        st.record(&mut m, &round("t", 1000, &[ms, ms, ms], 3)).unwrap();
        m
    };
    let series: Vec<Vec<u8>> = [7, 3, 9, 3].iter().map(|ms| image(*ms)).collect();
    let targets: Vec<(String, String)> =
        (0..4).map(|i| (format!("t{i}"), "h".to_string())).collect();
    let images: Vec<Option<&[u8]>> = series.iter().map(|m| Some(m.as_slice())).collect();
    let paths: Vec<String> = top_targets(&st, &targets, &images, "median", 10, 1005, 10)
        .into_iter()
        .map(|e| e.path)
        .collect();
    assert_eq!(paths, vec!["t2", "t0", "t1", "t3"]);
}
