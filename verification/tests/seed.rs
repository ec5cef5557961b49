use dabping::double::Double;
use dabping::probe::IpAddr;
use dabping::seed::{is_tellable, next_time, noise, phase, seeded_round, seeded_text};
use dabping::time::Duration;

fn machine_noise(t: i64, salt: u64) -> f64 {
    let mut x = t as u64 ^ (salt.wrapping_mul(0x9E3779B97F4A7C15));
    x ^= x << 13;
    x ^= x >> 7;
    x ^= x << 17;
    (x % 1000) as f64 / 1000.0
}

fn d(v: f64) -> Double {
    Double { bits: v.to_bits() }
}

#[test]
fn noise_is_deterministic() {
    for (t, salt) in [(0, 0), (1_700_000_000, 7), (1_700_000_300, 19), (5, u64::MAX)] {
        assert_eq!(noise(t as u64, salt), d(machine_noise(t, salt)));
    }
    assert_eq!(noise(0, 0), d(0.0));
    assert_ne!(noise(1_700_000_000, 1), noise(1_700_000_000, 2));
}

#[test]
fn rounds_swell_step_and_break() {
    let (from, now, pings) = (1_700_000_000, 1_700_001_000, 20);
    for off in [0, 250, 400, 449, 450, 600, 610, 620, 750, 751, 1000] {
        let t = from + off;
        let phase_f = off as f64 / 1000.0;
        assert_eq!(phase(t, from, now), d(phase_f));
        let sine = (phase_f * std::f64::consts::PI).sin();
        let mut base = 12.0 + 13.0 * sine;
        if phase_f > 0.75 {
            base += 8.0;
        }
        let lost = if (0.60..0.62).contains(&phase_f) {
            pings
        } else if (0.38..0.45).contains(&phase_f) {
            1 + (machine_noise(t, 7) * 0.15 * pings as f64) as u32
        } else {
            0
        };
        let want: Vec<u128> = (0..pings.saturating_sub(lost))
            .map(|i| {
                let jitter = machine_noise(t, i as u64) * base * 0.4;
                std::time::Duration::from_secs_f64((base + jitter) / 1000.0).as_nanos()
            })
            .collect();
        assert!(is_tellable(t, from, now, pings, d(sine)));
        let r = seeded_round("net/cf", t, from, now, pings, d(sine));
        assert_eq!(r.rtts.iter().map(|x| x.nanos).collect::<Vec<_>>(), want, "{off}");
        assert_eq!((r.target.as_str(), r.host.as_str(), r.sent), ("net/cf", "seeded", pings));
        assert_eq!(r.addr, IpAddr::V4(0xc000_0201));
        assert_eq!(r.started, Some(Duration::from_secs(t as u64)));
    }
}

#[test]
fn a_swell_that_is_none_cannot_be_told() {
    assert!(!is_tellable(10, 0, 100, 3, d(f64::NAN)));
    assert!(!is_tellable(10, 0, 100, 3, d(-2.0)));
    assert!(is_tellable(60, 0, 100, 3, d(f64::NAN))); // all pings are lost
}

#[test]
fn rounds_come_every_step() {
    assert_eq!(next_time(0, 25, 10), Some(10));
    assert_eq!(next_time(10, 25, 10), Some(20));
    assert_eq!(next_time(20, 25, 10), None);
    assert_eq!(next_time(5, i64::MAX, u64::MAX), None);
    assert_eq!(seeded_text(361, "net/cf", "30h"), "seeded 361 rounds for net/cf over 30h");
}
