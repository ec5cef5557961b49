use dabping::config::{DnsConfig, HttpConfig, IcmpConfig, PhoenixConfig, TcpConfig};
use dabping::double::Double;
use dabping::probe::dns::{DnsEvent, DnsProbe, build_query, is_response, qtype_from_str};
use dabping::probe::exec::{ExecProbe, conclude, is_measurable, output_text, parse_rtts};
use dabping::probe::http::{HttpProbe, Method};
use dabping::probe::icmp::{
    ECHO_REPLY_V4, ECHO_REQUEST_V4, IcmpEvent, IcmpProbe, checksum, echo_request, number,
    parse_reply,
};
use dabping::probe::phoenix::{PhoenixEvent, PhoenixProbe, is_reply, reply_matches};
use dabping::probe::tcp::{TcpProbe, attempt_ended};
use dabping::probe::{IpAddr, ProbeError, Reaction, RoundResult};
use dabping::time::Duration;

#[test]
fn builds_valid_query() {
    let q = build_query(0x1234, "example.com", 1).unwrap();
    assert_eq!(&q[0..2], &[0x12, 0x34]);
    assert_eq!(q[2], 0x01); // RD
    // 7"example"3"com"0
    assert_eq!(q[12], 7);
    assert_eq!(&q[13..20], b"example");
    assert_eq!(q[20], 3);
    assert_eq!(*q.last().unwrap(), 1); // IN
    assert!(build_query(1, "", 1).is_err());
    assert!(build_query(1, &"x".repeat(64), 1).is_err());
}

#[test]
fn matches_responses() {
    let mut resp = build_query(7, "example.com", 1).unwrap();
    assert!(!is_response(&resp, 7)); // QR not set yet
    resp[2] |= 0x80;
    assert!(is_response(&resp, 7));
    assert!(!is_response(&resp, 8)); // wrong id
    assert!(!is_response(&[0u8; 4], 7)); // too short
}

#[test]
fn parses_fping_style_output() {
    let rtts = parse_rtts("1.1.1.1 : 9.71 10.2 - 11.0", 4);
    assert_eq!(rtts.len(), 3);
    assert_eq!(rtts[0], Duration::from_micros(9710));
    // never more than `max`
    assert_eq!(parse_rtts("1 2 3 4 5", 3).len(), 3);
    // garbage-only output = total loss
    assert!(parse_rtts("host unreachable", 4).is_empty());
}

fn http(url: &str, method: &str) -> HttpConfig {
    HttpConfig {
        url: url.to_string(),
        method: method.to_string(),
        timeout_ms: 1000,
        interval_ms: 10,
    }
}

#[test]
fn validates_config() {
    assert!(HttpProbe::new(&http("https://%host%/", "get")).is_ok());
    assert!(HttpProbe::new(&http("ftp://x/", "get")).is_err());
    assert!(HttpProbe::new(&http("https://x/", "POST")).is_err());
}

#[test]
fn checksum_matches_known_vector() {
    // example from RFC 1071 §3
    let data = [0x00u8, 0x01, 0xf2, 0x03, 0xf4, 0xf5, 0xf6, 0xf7];
    assert_eq!(checksum(&data), !0xddf2);
}

#[test]
fn echo_request_checksums_to_zero() {
    // a packet's checksum recomputed over itself must come out 0
    let mut pkt = vec![ECHO_REQUEST_V4, 0, 0, 0, 0x12, 0x34, 0x00, 0x01];
    pkt.extend((0..56).map(|i| i as u8));
    let ck = checksum(&pkt);
    pkt[2..4].copy_from_slice(&ck.to_be_bytes());
    assert_eq!(checksum(&pkt), 0);
}

const V4: IpAddr = IpAddr::V4(0xc000_0201);

#[test]
fn parses_dgram_v4_reply() {
    // ident is ignored on ping sockets (kernel-rewritten)
    let pkt = [ECHO_REPLY_V4, 0, 0xab, 0xcd, 0xff, 0xff, 0x00, 0x07];
    assert_eq!(parse_reply(&pkt, V4, false, 0x1234), Some(7));
}

#[test]
fn parses_raw_v4_reply_with_ip_header_and_checks_ident() {
    let mut pkt = vec![0x45u8]; // version 4, IHL 5
    pkt.extend([0u8; 19]); // rest of the IP header
    pkt.extend([ECHO_REPLY_V4, 0, 0, 0, 0x12, 0x34, 0x00, 0x03]);
    assert_eq!(parse_reply(&pkt, V4, true, 0x1234), Some(3));
    assert_eq!(parse_reply(&pkt, V4, true, 0x9999), None); // not our ident
}

#[test]
fn rejects_non_reply_types() {
    let pkt = [ECHO_REQUEST_V4, 0, 0, 0, 0x12, 0x34, 0x00, 0x01];
    assert_eq!(parse_reply(&pkt, V4, false, 0x1234), None);
}

fn phx(path: &str, tls: bool) -> PhoenixConfig {
    PhoenixConfig {
        path: path.to_string(),
        tls,
        cookie: None,
        timeout_ms: 1000,
        interval_ms: 10,
    }
}

#[test]
fn validates_and_builds_urls() {
    assert!(PhoenixProbe::new(&phx("nope", true)).is_err());
    let p = PhoenixProbe::new(&phx("/live/websocket", true)).unwrap();
    assert_eq!(p.url("x.org", None), "wss://x.org/live/websocket?vsn=2.0.0");
    assert_eq!(p.url("x.org", Some(4000)), "wss://x.org:4000/live/websocket?vsn=2.0.0");
    let p = PhoenixProbe::new(&phx("/socket/websocket?token=t", false)).unwrap();
    assert_eq!(p.url("x", None), "ws://x/socket/websocket?token=t&vsn=2.0.0");
}

#[test]
fn matches_replies() {
    assert!(is_reply(r#"[null,"3","phoenix","phx_reply",{"status":"ok"}]"#, "3"));
    assert!(!is_reply(r#"[null,"4","phoenix","phx_reply",{}]"#, "3"));
    assert!(!is_reply(r#"[null,"3","room:1","new_msg",{}]"#, "3"));
    assert!(!is_reply("not json", "3"));
}

#[test]
fn a_reply_is_matched_by_its_items() {
    let items = |v: &[Option<&str>]| -> Vec<Option<String>> {
        v.iter().map(|s| s.map(|t| t.to_string())).collect()
    };
    let reply = [None, Some("3"), Some("phoenix"), Some("phx_reply"), None];
    assert!(reply_matches(&items(&reply), "3"));
    assert!(!reply_matches(&items(&reply), "4"));
    assert!(!reply_matches(&items(&reply[..3]), "3"));
    assert!(!is_reply(r#"{"a":1}"#, "3"));
    assert!(!is_reply(r#"[null,3,"phoenix","phx_reply",{}]"#, "3"));
}

fn dns(port: u16, lookup: Option<&str>, qtype: &str) -> DnsConfig {
    DnsConfig {
        port,
        lookup: lookup.map(|s| s.to_string()),
        qtype: qtype.to_string(),
        timeout_ms: 500,
        interval_ms: 10,
    }
}

#[test]
fn query_types() {
    assert_eq!(qtype_from_str("a"), Some(1));
    assert_eq!(qtype_from_str("AAAA"), Some(28));
    assert_eq!(qtype_from_str("bogus"), None);
    assert_eq!(DnsProbe::new(&dns(53, None, "bogus")).unwrap_err(), ProbeError::Qtype);
}

/// Runs a DNS round against a server that answers the pings in `answered`.
fn dns_round(answered: &[u32], pings: u32) -> RoundResult {
    let p = DnsProbe::new(&dns(53, Some("example.com"), "A")).unwrap();
    let mut round = p.begin(pings);
    let name = p.lookup_name("127.0.0.1", None);
    while let Some(seq) = round.ping() {
        let query = p.query_for(seq, &name).unwrap();
        let mut elapsed = Duration::from_millis(3);
        if answered.contains(&seq) {
            let mut resp = query.clone();
            resp[2] |= 0x80;
            let r = p.react(&mut round, &DnsEvent::Packet { bytes: resp, elapsed });
            assert!(matches!(r, Reaction::NextPing));
        } else {
            // a stranger's packet, then silence
            let r = p.react(&mut round, &DnsEvent::Packet { bytes: query, elapsed });
            assert!(matches!(r, Reaction::KeepWaiting));
            elapsed = Duration::from_millis(500);
            assert!(matches!(p.react(&mut round, &DnsEvent::TimedOut), Reaction::NextPing));
        }
        round.pace(elapsed);
    }
    round.finish("t", "127.0.0.1", IpAddr::V4(0x7f00_0001), Some(Duration::from_secs(7)))
}

#[test]
fn a_dns_round_counts_answers() {
    let r = dns_round(&[0, 1, 2, 3, 4], 5);
    assert_eq!(r.received(), 5);
    assert_eq!(r.loss_pct().bits, 0.0f64.to_bits());
    let r = dns_round(&[], 3);
    assert_eq!(r.received(), 0);
    assert_eq!(r.loss_pct().bits, 100.0f64.to_bits());
    let r = dns_round(&[1], 4);
    assert_eq!(r.loss_pct().bits, 75.0f64.to_bits());
    assert_eq!(r.started_secs(), 7);
}

#[test]
fn echo_requests_answer_to_their_number() {
    let pkt = echo_request(V4, 0xbeef, 9, 56);
    assert_eq!(pkt.len(), 64);
    assert_eq!(checksum(&pkt), 0);
    let mut reply = pkt.clone();
    reply[0] = ECHO_REPLY_V4;
    assert_eq!(parse_reply(&reply, V4, false, 0), Some(9));
    let six = echo_request(IpAddr::V6(1), 0xbeef, 9, 8);
    assert_eq!(&six[..8], &[128, 0, 0, 0, 0xbe, 0xef, 0, 9]);
}

#[test]
fn http_methods_and_urls() {
    let p = HttpProbe::new(&http("https://%host%/x", "HEAD")).unwrap();
    assert!(matches!(p.method, Method::Head));
    assert_eq!(p.url_for("example.com"), "https://example.com/x");
    assert_eq!(HttpProbe::new(&http("ftp://x/", "get")).unwrap_err(), ProbeError::Url);
    assert_eq!(HttpProbe::new(&http("https://x/", "POST")).unwrap_err(), ProbeError::Method);
    assert_eq!(PhoenixProbe::new(&phx("x", true)).unwrap_err(), ProbeError::SocketPath);
}

#[test]
fn exec_commands_and_output() {
    let p = ExecProbe::new(&dabping::config::ExecConfig {
        command: "fping -C %pings% %host%".to_string(),
        round_timeout_ms: 5000,
    });
    assert_eq!(p.command_for("h", 3), "fping -C 3 h");
    let out = output_text("127.0.0.1 : 10.5 20.25 -\n", "");
    assert!(is_measurable(&out, 3));
    let rtts = parse_rtts(&out, 3);
    assert_eq!(rtts.len(), 2);
    assert_eq!(rtts[0].nanos + rtts[1].nanos, 2 * 15_375_000);
    assert!(!is_measurable("h : 1e300", 1));
    assert!(parse_rtts("h : -5 nan inf", 3).is_empty());
}

#[test]
fn tcp_ports() {
    let p = TcpProbe::new(&TcpConfig { port: Some(443), timeout_ms: 10, interval_ms: 1 });
    assert_eq!(p.port_for(Some(80)), Some(80));
    assert_eq!(p.port_for(None), Some(443));
    let mut round = p.begin(2);
    round.ping();
    attempt_ended(&mut round, true, Duration::from_millis(4));
    round.pace(Duration::from_millis(4));
    round.ping();
    attempt_ended(&mut round, false, Duration::from_millis(10));
    round.pace(Duration::from_millis(10));
    assert!(round.ping().is_none());
    let r = round.finish("t", "h", V4, None);
    assert_eq!(r.rtts, vec![Duration::from_millis(4)]);
    assert_eq!(r.sent, 2);
}

#[test]
fn statistics_of_a_round() {
    let ms = |v: &[u64]| RoundResult {
        target: "t".to_string(),
        host: "h".to_string(),
        addr: V4,
        started: None,
        sent: 5,
        rtts: v.iter().map(|n| Duration::from_millis(*n)).collect(),
    };
    let r = ms(&[30, 10, 20, 40]);
    assert_eq!(r.min(), Some(Duration::from_millis(10)));
    assert_eq!(r.max(), Some(Duration::from_millis(40)));
    assert_eq!(r.median(), Some(Duration::from_millis(25)));
    assert_eq!(r.avg(), Some(Duration::from_millis(25)));
    assert_eq!(r.sorted_rtts()[1], Duration::from_millis(20));
    assert_eq!(r.loss_pct().bits, 20.0f64.to_bits());
    assert_eq!(ms(&[7, 1, 3]).median(), Some(Duration::from_millis(3)));
    assert_eq!(ms(&[]).median(), None);
    assert!(r.is_valid() && r.has_total());
    assert!(!ms(&[1, 1, 1, 1, 1, 1]).is_valid());
    let none = Double { bits: 0 };
    let mut idle = ms(&[]);
    idle.sent = 0;
    assert_eq!(idle.loss_pct(), none);
}

#[test]
fn command_output_makes_a_round() {
    let addr = IpAddr::V4(0x7f00_0001);
    let started = Some(Duration::from_secs(7));
    let (r, warn) = conclude("127.0.0.1 : 1.5 - 2.5", true, "t/x", "127.0.0.1", addr, started, 3);
    assert!(!warn);
    assert_eq!((r.target.as_str(), r.host.as_str()), ("t/x", "127.0.0.1"));
    assert_eq!((r.addr, r.started, r.sent), (addr, started, 3));
    assert_eq!(r.rtts, vec![Duration::from_micros(1500), Duration::from_micros(2500)]);

    // a command that fails and prints no time is a total loss
    let (lost, warn) = conclude(" boom", false, "t/x", "127.0.0.1", addr, started, 3);
    assert!(warn);
    assert_eq!((lost.sent, lost.received()), (3, 0));
    // one that prints times is not warned of, nor is a quiet success
    assert!(!conclude("3", false, "t/x", "127.0.0.1", addr, started, 3).1);
    assert!(!conclude("-", true, "t/x", "127.0.0.1", addr, started, 3).1);
}

#[test]
fn a_phoenix_round_ends_with_its_connection() {
    let p = PhoenixProbe::new(&phx("/live/websocket", false)).unwrap();
    let mut round = p.begin(4);
    assert_eq!(p.heartbeat(0), "[null,\"1\",\"phoenix\",\"heartbeat\",{}]");
    let reply = |r: &str| PhoenixEvent::Text {
        text: format!("[null,\"{r}\",\"phoenix\",\"phx_reply\",{{}}]"),
        elapsed: Duration::from_millis(7),
    };
    assert_eq!(round.ping(), Some(0));
    assert!(matches!(p.react(&mut round, &PhoenixEvent::Other), Reaction::KeepWaiting));
    assert!(matches!(p.react(&mut round, &reply("2")), Reaction::KeepWaiting));
    assert!(matches!(p.react(&mut round, &reply("1")), Reaction::NextPing));
    round.pace(Duration::from_millis(7));
    assert_eq!(round.ping(), Some(1));
    assert!(matches!(p.react(&mut round, &PhoenixEvent::TimedOut), Reaction::NextPing));
    round.pace(Duration::from_millis(2000));
    assert_eq!(round.ping(), Some(2));
    assert!(matches!(p.react(&mut round, &PhoenixEvent::Gone), Reaction::Stop));
    let r = round.finish("t", "x.org", IpAddr::V4(1), None);
    assert_eq!((r.sent, r.rtts), (4, vec![Duration::from_millis(7)]));
    // no connection at all is a total loss
    let r = p.begin(3).finish("t", "x.org", IpAddr::V4(1), None);
    assert_eq!((r.received(), f64::from_bits(r.loss_pct().bits)), (0, 100.0));
}

#[test]
fn an_icmp_round_takes_its_own_replies() {
    let p = IcmpProbe::new(&IcmpConfig { payload_size: 4, timeout_ms: 100, interval_ms: 10 });
    let addr = IpAddr::V4(0x7f00_0001);
    let mut round = p.begin(2);
    let reply = |seq: u16| {
        let mut bytes = echo_request(addr, 9, seq, 4);
        bytes[0] = ECHO_REPLY_V4;
        IcmpEvent::Packet { bytes, elapsed: Duration::from_millis(3) }
    };
    assert_eq!(round.ping(), Some(0));
    assert_eq!(round.patience(Duration::from_millis(40)), Some(Duration::from_millis(60)));
    assert_eq!(round.patience(Duration::from_millis(100)), None);
    assert!(matches!(p.react(&mut round, addr, false, 9, &IcmpEvent::TimedOut), Reaction::NextPing));
    assert_eq!(round.pace(Duration::from_millis(4)), Some(Duration::from_millis(6)));
    assert_eq!(round.ping(), Some(1));
    // a late reply to the ping before
    assert!(matches!(p.react(&mut round, addr, false, 9, &reply(0)), Reaction::KeepWaiting));
    assert!(matches!(p.react(&mut round, addr, false, 9, &reply(1)), Reaction::NextPing));
    assert_eq!(round.pace(Duration::from_millis(4)), None);
    assert_eq!(round.ping(), None);
    let mut broken = p.begin(1);
    assert_eq!(broken.ping(), Some(0));
    assert!(matches!(p.react(&mut broken, addr, false, 9, &IcmpEvent::Failed), Reaction::Stop));
    assert_eq!(round.finish("t", "localhost", addr, None).rtts, vec![Duration::from_millis(3)]);
}

#[test]
fn long_rounds_send_all_their_pings() {
    let icmp = IcmpProbe::new(&IcmpConfig { payload_size: 4, timeout_ms: 100, interval_ms: 0 });
    let dns = DnsProbe::new(&dns(53, None, "A")).unwrap();
    for begun in [icmp.begin(65_536), dns.begin(65_536)] {
        let mut round = begun;
        let mut sent = 0;
        while round.ping().is_some() {
            sent += 1;
            round.pace(Duration::from_millis(1));
        }
        assert_eq!(sent, 65_536);
    }
    // numbers have 16 bits on the wire
    assert_eq!((number(65_535), number(65_536), number(65_537)), (65_535, 0, 1));
    assert_eq!(dns.query_for(65_536, "x").unwrap(), dns.query_for(0, "x").unwrap());
}
