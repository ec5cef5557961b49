use dabping::agent::{Next, PushBuffer, Reply, WireRound, WireTarget, endpoint, next_step};
use dabping::config::FlatTarget;
use dabping::double::Double;
use dabping::probe::{IpAddr, RoundResult};
use dabping::time::Duration;

fn d(v: f64) -> Double {
    Double { bits: v.to_bits() }
}

fn round() -> RoundResult {
    RoundResult {
        target: "net/cf".to_string(),
        host: "1.1.1.1".to_string(),
        addr: IpAddr::V4(0x0101_0101),
        started: Some(Duration::from_secs(1000)),
        sent: 4,
        rtts: vec![Duration::from_millis(10), Duration::from_millis(20)],
    }
}

/// Sends a round through JSON.
fn over_the_wire(w: WireRound) -> WireRound {
    let mut m = serde_json::Map::new();
    m.insert("target".to_string(), w.target.into());
    m.insert("host".to_string(), w.host.into());
    m.insert("addr".to_string(), w.addr.into());
    m.insert("ts".to_string(), w.ts.into());
    m.insert("sent".to_string(), w.sent.into());
    let rtts: Vec<serde_json::Value> =
        w.rtts.iter().map(|r| f64::from_bits(r.bits).into()).collect();
    m.insert("rtts".to_string(), rtts.into());
    let json = serde_json::to_string(&m).unwrap();
    let back: serde_json::Value = serde_json::from_str(&json).unwrap();
    WireRound {
        target: back["target"].as_str().unwrap().to_string(),
        host: back["host"].as_str().unwrap().to_string(),
        addr: back["addr"].as_str().unwrap().to_string(),
        ts: back["ts"].as_u64().unwrap(),
        sent: back["sent"].as_u64().unwrap() as u32,
        rtts: back["rtts"].as_array().unwrap().iter().map(|v| d(v.as_f64().unwrap())).collect(),
    }
}

#[test]
fn wire_roundtrip_suffixes_agent() {
    let w = WireRound::from_round(&round(), "1.1.1.1".to_string());
    let back = over_the_wire(w);
    assert_eq!(back.addr, "1.1.1.1");
    let r = back.into_round("lon1", Some(IpAddr::V4(0x0101_0101)));
    assert_eq!(r.target, "net/cf@lon1");
    assert_eq!(r.sent, 4);
    assert_eq!(r.received(), 2);
    assert_eq!(r.rtts[0], Duration::from_millis(10));
    assert_eq!(r.started_secs(), 1000);
}

#[test]
fn hostile_rtts_are_dropped() {
    let w = WireRound {
        target: "t".to_string(),
        host: "h".to_string(),
        addr: "not-an-ip".to_string(),
        ts: 0,
        sent: 4,
        rtts: vec![d(0.01), d(f64::NAN), d(-5.0), d(f64::INFINITY)],
    };
    assert!(w.is_measurable());
    let r = w.into_round("a", None);
    assert_eq!(r.received(), 1);
    assert!(r.addr.is_unspecified());
}

#[test]
fn reply_times_cross_the_wire() {
    let mut r = round();
    r.rtts = vec![
        Duration { nanos: 1 },
        Duration { nanos: 123_456_789 },
        Duration { nanos: 1_048_575_999_999_999 },
        Duration { nanos: 0 },
    ];
    let w = over_the_wire(WireRound::from_round(&r, String::new()));
    assert_eq!(w.into_round("a", None).rtts, r.rtts);
    let huge = WireRound { rtts: vec![d(1e30)], ..WireRound::from_round(&r, String::new()) };
    assert!(!huge.is_measurable());
}

#[test]
fn targets_lose_what_agents_need_not_know() {
    let t = FlatTarget {
        path: "a/b".to_string(),
        host: "h".to_string(),
        probe: "dns".to_string(),
        port: Some(53),
        lookup: Some("x.org".to_string()),
        alerts: vec!["loss".to_string()],
        agents: vec!["par".to_string()],
        nomasterpoll: true,
    };
    let back = WireTarget::from_flat(&t).into_flat();
    assert_eq!((back.path.as_str(), back.host.as_str(), back.probe.as_str()), ("a/b", "h", "dns"));
    assert_eq!((back.port, back.lookup.as_deref()), (Some(53), Some("x.org")));
    assert!(back.alerts.is_empty() && back.agents.is_empty() && !back.nomasterpoll);
}

fn numbered(ts: u64) -> WireRound {
    WireRound { ts, ..WireRound::from_round(&round(), String::new()) }
}

#[test]
fn the_buffer_drops_the_oldest() {
    let mut b = PushBuffer::new();
    assert!(!b.is_due());
    for ts in 0..10_003 {
        b.push(numbered(ts));
    }
    assert_eq!(b.rounds.len(), 10_000);
    assert_eq!(b.rounds[0].ts, 3);
    assert_eq!(b.rounds[9_999].ts, 10_002);
    assert!(!b.pushed(None));
    assert!(!b.pushed(Some(500)));
    assert_eq!(b.rounds.len(), 10_000);
    assert!(b.pushed(Some(200)));
    assert!(b.rounds.is_empty());
}

#[test]
fn an_agent_goes_by_the_masters_answer() {
    assert_eq!(next_step(Reply::Status { code: 200, parsed: true }), Next::Start);
    assert_eq!(next_step(Reply::Status { code: 200, parsed: false }), Next::RetryBadAssignment);
    assert_eq!(next_step(Reply::Status { code: 401, parsed: false }), Next::GiveUp);
    assert_eq!(next_step(Reply::Status { code: 503, parsed: false }), Next::RetryNotReady);
    assert_eq!(next_step(Reply::Unreachable), Next::RetryUnreachable);
    assert_eq!(endpoint("https://m.example//", "config"), "https://m.example/api/agent/config");
}
