use dabping::config::FlatTarget;
use dabping::scheduler::{Outcome, Signal, offset, on_signal, own_targets, spread};
use std::hash::{DefaultHasher, Hash, Hasher};

#[test]
fn signals_end_a_run() {
    assert_eq!(on_signal(Signal::Interrupt), Some(Outcome::Quit));
    assert_eq!(on_signal(Signal::Terminate), Some(Outcome::Quit));
    assert_eq!(on_signal(Signal::Hangup { accepted: None }), Some(Outcome::Reload));
    assert_eq!(on_signal(Signal::Hangup { accepted: Some(true) }), Some(Outcome::Reload));
    assert_eq!(on_signal(Signal::Hangup { accepted: Some(false) }), None);
}

#[test]
fn targets_are_spread_over_the_step() {
    assert_eq!(spread(1_234_567, 300), 34_567);
    for path in ["a", "isp/gw", "internet/cloudflare", ""] {
        let mut h = DefaultHasher::new();
        path.hash(&mut h);
        assert_eq!(offset(path, 300), h.finish() % 300_000);
        assert!(offset(path, 1) < 1000);
    }
}

#[test]
fn agents_targets_are_left_to_them() {
    let t = |path: &str, nomasterpoll: bool| FlatTarget {
        path: path.to_string(),
        host: "h".to_string(),
        probe: "icmp".to_string(),
        port: None,
        lookup: None,
        alerts: Vec::new(),
        agents: vec!["par".to_string()],
        nomasterpoll,
    };
    let own = own_targets(vec![t("a", false), t("b", true), t("c", false), t("d", false)]);
    let paths: Vec<&str> = own.iter().map(|t| t.path.as_str()).collect();
    assert_eq!(paths, vec!["a", "c", "d"]);
}
