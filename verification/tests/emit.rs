use dabping::emit::graphite::{Delivery, Report, Step, format_lines, metric_path};
use dabping::emit::influx::{Batch, authorization, esc_tag, flush_interval, format_line};
use dabping::emit::prometheus::PromState;
use dabping::emit::{LogEmitter, fmt_ms, fmt_opt, fmt_pct, fmt_rtt};
use dabping::double::Double;
use dabping::probe::{IpAddr, RoundResult};
use dabping::time::Duration;

fn round(target: &str, rtts_ms: &[u64], sent: u32) -> RoundResult {
    RoundResult {
        target: target.to_string(),
        host: "1.1.1.1".to_string(),
        addr: IpAddr::V4(0x0101_0101),
        started: Some(Duration::from_secs(1000)),
        sent,
        rtts: rtts_ms.iter().map(|ms| Duration::from_millis(*ms)).collect(),
    }
}

#[test]
fn formats_and_sanitizes() {
    let text = format_lines("dabping", &round("net/cf.x", &[10, 20, 30], 4));
    assert!(text.contains("dabping.net.cf_x.loss 25.000 1000\n"));
    assert!(text.contains("dabping.net.cf_x.median 0.020000 1000\n"));
    assert!(text.contains("dabping.net.cf_x.min 0.010000 1000\n"));
    assert!(text.contains("dabping.net.cf_x.max 0.030000 1000\n"));
}

#[test]
fn formats_line_protocol() {
    let line = format_line("dabping", &round("net/cf", &[10, 20], 4));
    assert_eq!(
        line,
        "dabping,target=net/cf,host=1.1.1.1 loss=50.000,sent=4i,recv=2i,median=0.015000,min=0.010000,max=0.020000 1000000000000\n"
    );
}

#[test]
fn escapes_tag_values() {
    assert_eq!(esc_tag("a b,c=d"), "a\\ b\\,c\\=d");
}

#[test]
fn renders_gauges_and_accumulates_counters() {
    let mut st = PromState::default();
    st.observe(&round("net/cf", &[10, 20, 30, 40], 4));
    st.observe(&round("net/cf", &[10, 20], 4)); // 50% loss
    let text = st.render();
    assert!(text.contains("dabping_loss_ratio{target=\"net/cf\",host=\"1.1.1.1\"} 0.5"));
    assert!(text.contains("dabping_median_seconds{target=\"net/cf\",host=\"1.1.1.1\"} 0.015"));
    assert!(text.contains("dabping_pings_sent_total{target=\"net/cf\",host=\"1.1.1.1\"} 8"));
    assert!(text.contains("dabping_pings_received_total{target=\"net/cf\",host=\"1.1.1.1\"} 6"));
    assert!(text.contains("# TYPE dabping_loss_ratio gauge"));
}

#[test]
fn total_loss_omits_rtt_gauges() {
    let mut st = PromState::default();
    st.observe(&round("net/cf", &[], 4));
    let text = st.render();
    assert!(text.contains("dabping_loss_ratio{target=\"net/cf\",host=\"1.1.1.1\"} 1"));
    assert!(!text.contains("dabping_median_seconds{target"));
}

#[test]
fn the_whole_exposition() {
    let mut st = PromState::default();
    st.observe(&round("b\"x", &[10], 3));
    st.observe(&round("a", &[], 1));
    assert_eq!(
        st.render(),
        "# HELP dabping_loss_ratio Packet loss of the last round (0-1).\n\
         # TYPE dabping_loss_ratio gauge\n\
         dabping_loss_ratio{target=\"a\",host=\"1.1.1.1\"} 1\n\
         dabping_loss_ratio{target=\"b\\\"x\",host=\"1.1.1.1\"} 0.6666666666666667\n\
         # HELP dabping_median_seconds Median RTT of the last round.\n\
         # TYPE dabping_median_seconds gauge\n\
         dabping_median_seconds{target=\"b\\\"x\",host=\"1.1.1.1\"} 0.01\n\
         # HELP dabping_min_seconds Fastest RTT of the last round.\n\
         # TYPE dabping_min_seconds gauge\n\
         dabping_min_seconds{target=\"b\\\"x\",host=\"1.1.1.1\"} 0.01\n\
         # HELP dabping_max_seconds Slowest RTT of the last round.\n\
         # TYPE dabping_max_seconds gauge\n\
         dabping_max_seconds{target=\"b\\\"x\",host=\"1.1.1.1\"} 0.01\n\
         # HELP dabping_pings_sent_total Pings sent.\n\
         # TYPE dabping_pings_sent_total counter\n\
         dabping_pings_sent_total{target=\"a\",host=\"1.1.1.1\"} 1\n\
         dabping_pings_sent_total{target=\"b\\\"x\",host=\"1.1.1.1\"} 3\n\
         # HELP dabping_pings_received_total Replies received.\n\
         # TYPE dabping_pings_received_total counter\n\
         dabping_pings_received_total{target=\"a\",host=\"1.1.1.1\"} 0\n\
         dabping_pings_received_total{target=\"b\\\"x\",host=\"1.1.1.1\"} 1\n\
         # HELP dabping_last_round_timestamp_seconds When the last round started.\n\
         # TYPE dabping_last_round_timestamp_seconds gauge\n\
         dabping_last_round_timestamp_seconds{target=\"a\",host=\"1.1.1.1\"} 1000\n\
         dabping_last_round_timestamp_seconds{target=\"b\\\"x\",host=\"1.1.1.1\"} 1000\n"
    );
    assert!(st.can_observe(&round("a", &[], 1)));
    st.targets.entries[0].1.sent_total = u64::MAX;
    assert!(!st.can_observe(&round("a", &[], 1)));
}

#[test]
fn times_and_percentages_in_writing() {
    assert_eq!(fmt_rtt(Duration::from_micros(12345)), "12.35ms");
    assert_eq!(fmt_opt(None), "-");
    assert_eq!(fmt_opt(Some(Duration::from_millis(3))), "3.00ms");
    assert_eq!(fmt_ms(Double { bits: 0.0125f64.to_bits() }), "12.50ms");
    assert_eq!(fmt_ms(Double { bits: f64::NAN.to_bits() }), "-");
    assert_eq!(fmt_pct(Double { bits: (100.0f64 / 3.0).to_bits() }), "33.3");
    assert_eq!(fmt_pct(Double { bits: f64::NAN.to_bits() }), "-");
    let s = LogEmitter.summarize(&round("t", &[10, 20, 40], 4));
    assert_eq!((s.sent, s.recv, s.loss.as_str()), (4, 3, "25.0%"));
    assert_eq!((s.min.as_str(), s.med.as_str()), ("10.00ms", "20.00ms"));
    assert_eq!((s.avg.as_str(), s.max.as_str()), ("23.33ms", "40.00ms"));
}

#[test]
fn metric_paths() {
    assert_eq!(metric_path("p", "a/b c/é-_"), "p.a.b_c._-_");
    assert_eq!(metric_path("p", ""), "p.");
    assert_eq!(metric_path("", "a//b"), ".a..b");
}

#[test]
fn payloads_are_tried_twice() {
    let mut d = Delivery::begin(true);
    assert_eq!(d.step, Step::Write);
    d.react(Report::WriteFailed);
    assert_eq!(d.step, Step::Connect);
    d.react(Report::Connected);
    d.react(Report::WriteFailed);
    assert_eq!(d.step, Step::Drop);
    assert!(!d.connected);
    let mut d = Delivery::begin(false);
    d.react(Report::Unreachable);
    assert_eq!(d.step, Step::Drop);
    let mut d = Delivery::begin(false);
    d.react(Report::Connected);
    d.react(Report::Written);
    assert_eq!(d.step, Step::Done);
    assert!(d.connected);
}

#[test]
fn lines_are_batched() {
    let mut b = Batch::new();
    assert!(b.flush().is_none());
    assert!(b.add_line("x\n".to_string()).is_none());
    assert!(b.add_line("y\n".to_string()).is_none());
    assert_eq!(b.flush(), Some(("x\ny\n".to_string(), 2)));
    for _ in 0..999 {
        assert!(b.add_line("z".to_string()).is_none());
    }
    assert_eq!(b.add_line("!".to_string()).map(|r| r.1), Some(1000));
    assert!(b.flush().is_none());
    assert_eq!(authorization("t0k3n"), "Token t0k3n");
    assert_eq!((flush_interval(0), flush_interval(10)), (1, 10));
}

#[test]
fn counters_add_up_per_target() {
    let mut st = PromState::default();
    for r in [round("a", &[1, 2], 3), round("b", &[1], 5), round("a", &[], 4), round("a", &[7], 1)] {
        assert!(st.can_observe(&r));
        st.observe(&r);
    }
    let a = st.targets.get("a").unwrap();
    assert_eq!((a.sent_total, a.recv_total), (8, 3));
    let b = st.targets.get("b").unwrap();
    assert_eq!((b.sent_total, b.recv_total), (5, 1));
    assert!(st.targets.get("c").is_none());
}
