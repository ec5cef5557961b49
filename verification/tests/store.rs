use dabping::double::Double;
use dabping::probe::{IpAddr, RoundResult};
use dabping::store::series::{FetchError, Mismatch, TargetSeries, can_hold};
use dabping::store::{
    Cf, PathError, RraSpec, Store, StoreError, default_rras, path_message, validate_target_path,
};
use dabping::time::Duration;

const MS: f64 = 1e-3;

fn d(v: f64) -> Double {
    Double { bits: v.to_bits() }
}

fn f(v: Double) -> f64 {
    f64::from_bits(v.bits)
}

fn round(ts: i64, rtts_ms: &[f64], sent: u32) -> RoundResult {
    RoundResult {
        target: "t/a".to_string(),
        host: "192.0.2.1".to_string(),
        addr: IpAddr::V4(0xc000_0201),
        started: Some(Duration::from_secs(ts as u64)),
        sent,
        rtts: rtts_ms.iter().map(|ms| Duration::try_from_secs_f64(d(ms * MS)).unwrap()).collect(),
    }
}

fn rra(cf: Cf, steps: u32, rows: u64) -> RraSpec {
    RraSpec { cf, steps, rows, xff: d(0.5) }
}

/// A store with the series of one target.
fn store(specs: &[RraSpec]) -> (Store, Vec<u8>) {
    let specs: Vec<RraSpec> =
        specs.iter().map(|s| RraSpec { cf: s.cf, steps: s.steps, rows: s.rows, xff: s.xff }).collect();
    assert!(can_hold(10, 3, &specs));
    let st = Store::open(10, 3, &specs);
    let image = st.create();
    (st, image)
}

fn approx(a: Double, b: f64) {
    let a = f(a);
    assert!((a - b).abs() < 1e-9, "{a} != {b}");
}

#[test]
fn raw_roundtrip() {
    let (st, mut m) = store(&[rra(Cf::Average, 1, 64)]);
    st.record(&mut m, &round(1000, &[10.0, 20.0, 30.0], 3)).unwrap();
    st.record(&mut m, &round(1010, &[5.0, 15.0], 3)).unwrap();

    let f = st.fetch("t/a", Some(&m), Cf::Average, 995, 1015, 0).unwrap();
    assert_eq!(f.period, 10);
    let ts: Vec<i64> = f.points.iter().map(|p| p.ts).collect();
    assert_eq!(ts, vec![990, 1000, 1010]);

    assert!(f.points[0].median.is_nan()); // never recorded
    approx(f.points[1].loss, 0.0);
    approx(f.points[1].median, 20.0 * MS);
    approx(f.points[1].pings[2], 30.0 * MS);
    approx(f.points[2].loss, 100.0 / 3.0);
    approx(f.points[2].median, 10.0 * MS); // (5+15)/2
    assert!(f.points[2].pings[2].is_nan()); // only 2 replies
    approx(f.points[2].smoke_min(), 5.0 * MS);
    approx(f.points[2].smoke_max(), 15.0 * MS);
}

#[test]
fn consolidates_avg_min_max() {
    let (st, mut m) = store(&[
        rra(Cf::Average, 1, 64),
        rra(Cf::Average, 4, 16),
        rra(Cf::Min, 4, 16),
        rra(Cf::Max, 4, 16),
    ]);
    for (i, med) in [10.0, 20.0, 30.0, 40.0].iter().enumerate() {
        st.record(&mut m, &round(1000 + 10 * i as i64, &[*med], 3)).unwrap();
    }
    // max_points=1 forces the 40s-period archives over raw
    let avg = st.fetch("t/a", Some(&m), Cf::Average, 1000, 1039, 1).unwrap();
    assert_eq!(avg.period, 40);
    approx(avg.points[0].median, 25.0 * MS);
    let min = st.fetch("t/a", Some(&m), Cf::Min, 1000, 1039, 1).unwrap();
    approx(min.points[0].median, 10.0 * MS);
    let max = st.fetch("t/a", Some(&m), Cf::Max, 1000, 1039, 1).unwrap();
    approx(max.points[0].median, 40.0 * MS);
    // loss consolidates too: 2/3 lost every round
    approx(avg.points[0].loss, 200.0 / 3.0);
}

#[test]
fn xff_voids_sparse_windows() {
    let (st, mut m) = store(&[rra(Cf::Average, 4, 16)]);
    // one of four PDPs in window [1000, 1040), then jump to the next
    // window so the sparse one gets finalized lazily
    st.record(&mut m, &round(1000, &[10.0], 3)).unwrap();
    st.record(&mut m, &round(1050, &[10.0], 3)).unwrap();
    let f = st.fetch("t/a", Some(&m), Cf::Average, 1000, 1039, 0).unwrap();
    assert_eq!(f.points[0].ts, 1000);
    assert!(f.points[0].median.is_nan(), "1/4 known < xff 0.5 must be unknown");
    // ...but with 2/4 known it survives
    let (st2, mut m2) = store(&[rra(Cf::Average, 4, 16)]);
    st2.record(&mut m2, &round(1000, &[10.0], 3)).unwrap();
    st2.record(&mut m2, &round(1010, &[20.0], 3)).unwrap();
    st2.record(&mut m2, &round(1050, &[10.0], 3)).unwrap();
    let f2 = st2.fetch("t/a", Some(&m2), Cf::Average, 1000, 1039, 0).unwrap();
    approx(f2.points[0].median, 15.0 * MS);
}

#[test]
fn wraparound_invalidates_old_rows() {
    let (st, mut m) = store(&[rra(Cf::Average, 1, 4)]);
    for i in 0..6 {
        st.record(&mut m, &round(1000 + 10 * i, &[10.0], 3)).unwrap();
    }
    let f = st.fetch("t/a", Some(&m), Cf::Average, 1000, 1059, 0).unwrap();
    assert!(f.points[0].median.is_nan()); // 1000: overwritten by 1040
    assert!(f.points[1].median.is_nan()); // 1010: overwritten by 1050
    for p in &f.points[2..] {
        approx(p.median, 10.0 * MS);
    }
}

#[test]
fn reopen_continues_in_progress_window() {
    let specs = [rra(Cf::Average, 4, 16)];
    let kept = {
        let (st, mut m) = store(&specs);
        st.record(&mut m, &round(1000, &[10.0], 3)).unwrap();
        st.record(&mut m, &round(1010, &[20.0], 3)).unwrap();
        m
    };
    let (st, _) = store(&specs);
    let mut m = kept;
    st.check(&m).unwrap();
    st.record(&mut m, &round(1020, &[30.0], 3)).unwrap();
    st.record(&mut m, &round(1030, &[40.0], 3)).unwrap();
    let f = st.fetch("t/a", Some(&m), Cf::Average, 1000, 1039, 0).unwrap();
    approx(f.points[0].median, 25.0 * MS); // all four PDPs, across reopen
}

#[test]
fn rejects_layout_change() {
    let specs = vec![rra(Cf::Average, 1, 64)];
    let (st, mut m) = store(&specs);
    st.record(&mut m, &round(1000, &[10.0], 3)).unwrap();
    let st = Store::open(10, 5, &specs); // pings 3 -> 5
    assert!(st.check(&m).is_err());
    assert!(TargetSeries::open_or_create(Some(&m), 10, 5, &specs).is_err());
}

#[test]
fn total_loss_round() {
    let (st, mut m) = store(&[rra(Cf::Average, 1, 64)]);
    st.record(&mut m, &round(1000, &[], 3)).unwrap();
    let f = st.fetch("t/a", Some(&m), Cf::Average, 1000, 1009, 0).unwrap();
    approx(f.points[0].loss, 100.0);
    assert!(f.points[0].median.is_nan());
    assert!(f.points[0].smoke_min().is_nan());
}

#[test]
fn validates_target_paths() {
    assert!(validate_target_path("isp/gw-1.example").is_ok());
    for bad in ["", "a//b", "../a", "a/..", "a/b c", "a/é"] {
        assert!(validate_target_path(bad).is_err(), "{bad:?} should be rejected");
    }
}

#[test]
fn tells_bad_paths_apart() {
    assert_eq!(validate_target_path(""), Err(PathError::Empty));
    assert_eq!(validate_target_path("a/./b"), Err(PathError::BadComponent));
    assert_eq!(validate_target_path("a/b c"), Err(PathError::BadCharacter));
    assert!(validate_target_path("net/cf@lon1").is_ok());
    assert_eq!(path_message("a\n/..", PathError::BadComponent), "invalid target path \"a\\n/..\"");
    let (st, _) = store(&[rra(Cf::Average, 1, 64)]);
    assert_eq!(st.target_file("isp/gw").unwrap().last().unwrap(), "gw.dab");
}

#[test]
fn rounds_out_of_order_are_skipped() {
    let (st, mut m) = store(&[rra(Cf::Average, 1, 64)]);
    st.record(&mut m, &round(1010, &[10.0], 3)).unwrap();
    let before = m.clone();
    st.record(&mut m, &round(1000, &[20.0], 3)).unwrap();
    st.record(&mut m, &round(1010, &[20.0], 3)).unwrap();
    assert_eq!(m, before);
}

#[test]
fn layout_mismatches_are_told_apart() {
    let specs = vec![rra(Cf::Average, 1, 64)];
    let (_, m) = store(&specs);
    let open = |step: u64, pings: u32, specs: &Vec<RraSpec>| {
        TargetSeries::open_or_create(Some(&m), step, pings, specs).map(|_| ()).unwrap_err()
    };
    assert_eq!(open(10, 4, &specs), Mismatch::Size);
    assert_eq!(open(20, 3, &specs), Mismatch::Step);
    let mut bad = m.clone();
    bad[0] ^= 1;
    assert!(TargetSeries::open_or_create(Some(&bad), 10, 3, &specs).is_err());
    let (_, fresh) = TargetSeries::open_or_create(None, 10, 3, &specs).unwrap();
    assert_eq!(fresh.unwrap(), m);
}

#[test]
fn fetches_are_refused() {
    let (st, m) = store(&[rra(Cf::Average, 1, 64)]);
    assert!(matches!(st.fetch("t/a", None, Cf::Average, 0, 10, 0), Err(StoreError::NoData)));
    assert!(matches!(st.fetch("", Some(&m), Cf::Average, 0, 10, 0), Err(StoreError::Path(PathError::Empty))));
    assert!(matches!(
        st.fetch("t/a", Some(&m), Cf::Average, 0, 100_000_000, 0),
        Err(StoreError::Fetch(FetchError::TooMany(10_000_001)))
    ));
    let (st, m) = store(&[rra(Cf::Max, 4, 64)]);
    assert!(matches!(
        st.fetch("t/a", Some(&m), Cf::Min, 0, 10, 0),
        Err(StoreError::Fetch(FetchError::NoArchive))
    ));
    let mut early = round(0, &[], 3);
    early.started = None;
    let (st, mut m) = store(&[rra(Cf::Average, 1, 64)]);
    assert!(matches!(st.record(&mut m, &early), Err(StoreError::BeforeEpoch)));
}

#[test]
fn names_of_consolidation_functions() {
    assert_eq!(Cf::from_str("AVG"), Some(Cf::Average));
    assert_eq!(Cf::from_str("average"), Some(Cf::Average));
    assert_eq!(Cf::from_str("Max"), Some(Cf::Max));
    assert_eq!(Cf::from_str("median"), None);
    assert_eq!(Cf::Min.as_u32(), 1);
    assert!(default_rras().iter().all(|r| f(r.xff) == 0.5));
}

#[test]
fn answers_keep_the_budget() {
    let (st, mut m) = store(&[rra(Cf::Average, 1, 200)]);
    for i in 0..100 {
        st.record(&mut m, &round(10 * i, &[10.0], 3)).unwrap();
    }
    let f = st.fetch("t/a", Some(&m), Cf::Average, 0, 995, 30).unwrap();
    assert_eq!((f.period, f.points.len()), (40, 25));
    assert_eq!(f.points[24].ts, 960);
    for max in [1, 7, 99, 100, 1000] {
        assert!(st.fetch("t/a", Some(&m), Cf::Average, 3, 995, max).unwrap().points.len() as u64 <= max);
    }
}

#[test]
fn times_in_the_wrong_order() {
    let (st, mut m) = store(&[rra(Cf::Average, 1, 64)]);
    st.record(&mut m, &round(1000, &[10.0], 3)).unwrap();
    // within one window there is a point
    let f = st.fetch("t/a", Some(&m), Cf::Average, 1009, 1001, 0).unwrap();
    assert_eq!((f.points.len(), f.points[0].ts), (1, 1000));
    // else none, or too many to count out
    let f = st.fetch("t/a", Some(&m), Cf::Average, 1050, 1000, 100).unwrap();
    assert_eq!((f.period, f.points.len()), (184_467_440_737_095_520, 0));
    assert!(matches!(
        st.fetch("t/a", Some(&m), Cf::Average, 1050, 1000, 0),
        Err(StoreError::Fetch(FetchError::TooMany(1_844_674_407_370_955_157)))
    ));
}

#[test]
fn recording_leaves_other_windows_alone() {
    let (st, mut m) = store(&[rra(Cf::Average, 1, 4), rra(Cf::Max, 2, 8)]);
    for (i, ms) in [10.0, 20.0, 30.0].iter().enumerate() {
        st.record(&mut m, &round(1000 + 10 * i as i64, &[*ms], 3)).unwrap();
    }
    let medians = |m: &[u8]| -> Vec<f64> {
        let f = st.fetch("t/a", Some(m), Cf::Average, 1000, 1029, 0).unwrap();
        f.points.iter().map(|p| f64::from_bits(p.median.bits)).collect()
    };
    let before = medians(&m);
    st.record(&mut m, &round(1030, &[40.0], 3)).unwrap();
    assert_eq!(medians(&m), before);
    st.check(&m).unwrap();
}

#[test]
fn rounds_with_bad_paths_are_not_stored() {
    let (st, mut m) = store(&[rra(Cf::Average, 1, 64)]);
    let before = m.clone();
    let mut r = round(1000, &[10.0], 3);
    r.target = "a//b".to_string();
    assert_eq!(st.record(&mut m, &r), Err(StoreError::Path(PathError::BadComponent)));
    assert_eq!(m, before);
}

#[test]
fn targets_have_files_of_their_own() {
    let (st, _) = store(&[rra(Cf::Average, 1, 64)]);
    let file = |t: &str| st.target_file(t).unwrap().join("/");
    let all = [
        "a", "b", "a/b", "b/a", "a.d/b", "a-b", "a@b", "a.b", "a.c", "a.b@p", "a.dab", ".a",
        "net/10.0.0.1", "net/10.0.0.2", "net/10.0.0.1@par", "net/10.0.0.1@ams",
    ]
    .map(file);
    for (i, x) in all.iter().enumerate() {
        assert!(all.iter().skip(i + 1).all(|y| x != y), "{x}");
    }
    assert_eq!(file("a.d/b"), "a.d/b.dab");
    assert_eq!(file("net/10.0.0.1"), "net/10.0.0.1.dab");
    assert_eq!(file("net/10.0.0.1@par"), "net/10.0.0.1@par.dab");
    assert_eq!(file(".hidden"), ".hidden.dab");
}

#[test]
fn a_series_opens_as_it_was_made() {
    let specs = vec![rra(Cf::Average, 1, 64), rra(Cf::Max, 4, 16)];
    let (st, mut m) = store(&specs);
    for ts in [1000, 1010, 1020] {
        st.record(&mut m, &round(ts, &[10.0], 3)).unwrap();
    }
    let open = |step: u64, pings: u32, specs: &Vec<RraSpec>| {
        TargetSeries::open_or_create(Some(&m), step, pings, specs).map(|(_, new)| new)
    };
    assert_eq!(open(10, 3, &specs), Ok(None));
    assert!(open(20, 3, &specs).is_err());
    assert!(open(10, 4, &specs).is_err());
    assert!(open(10, 3, &vec![rra(Cf::Average, 1, 64)]).is_err());
    assert_eq!(open(10, 3, &vec![rra(Cf::Min, 1, 64), rra(Cf::Max, 4, 16)]), Err(Mismatch::Table));
    assert_eq!(open(10, 3, &vec![rra(Cf::Average, 2, 64), rra(Cf::Max, 4, 16)]), Err(Mismatch::Table));
    let mut shares = vec![rra(Cf::Average, 1, 64), rra(Cf::Max, 4, 16)];
    shares[1].xff = d(0.25);
    assert_eq!(open(10, 3, &shares), Err(Mismatch::Table));
}

#[test]
fn a_share_that_is_no_number_never_matches() {
    let mut specs = vec![rra(Cf::Average, 1, 64)];
    specs[0].xff = d(f64::NAN);
    let (_, new) = TargetSeries::open_or_create(None, 10, 3, &specs).unwrap();
    let m = new.unwrap();
    assert_eq!(
        TargetSeries::open_or_create(Some(&m), 10, 3, &specs).map(|_| ()),
        Err(Mismatch::Table)
    );
}

#[test]
fn the_newest_time_never_goes_back() {
    let (st, mut m) = store(&[rra(Cf::Average, 1, 64)]);
    let mut newest = 0;
    for ts in [1000, 990, 1003, 1021, 1019, 1040] {
        st.record(&mut m, &round(ts, &[10.0], 3)).unwrap();
        let aligned = ts / 10 * 10;
        newest = if aligned > newest { aligned } else { newest };
        assert_eq!(st.layout.last_update(&m), newest);
    }
}

#[test]
fn mismatches_in_words() {
    assert_eq!(
        Mismatch::Step.message("/x/a.dab"),
        "/x/a.dab: existing series file does not match the config (database.step changed); move the file away or restore the config"
    );
    assert_eq!(
        Mismatch::Size.message("a.dab"),
        "a.dab: file size does not match the configured layout — the step/pings/rra config changed; move the file away or restore the config"
    );
}

#[test]
fn the_first_write_wins() {
    let (st, mut m) = store(&[rra(Cf::Average, 1, 64), rra(Cf::Max, 4, 16)]);
    assert!(!st.layout.has_begun(&m));
    st.record(&mut m, &round(0, &[10.0], 3)).unwrap();
    assert!(st.layout.has_begun(&m));
    assert_eq!(st.layout.last_update(&m), 0);
    let before = m.clone();
    st.record(&mut m, &round(0, &[20.0], 3)).unwrap();
    st.record(&mut m, &round(9, &[30.0], 3)).unwrap();
    assert_eq!(m, before);
    let f = st.fetch("t/a", Some(&m), Cf::Average, 0, 9, 0).unwrap();
    approx(f.points[0].median, 0.01);
    st.record(&mut m, &round(10, &[20.0], 3)).unwrap();
    assert_eq!(st.layout.last_update(&m), 10);
    let before = m.clone();
    st.record(&mut m, &round(0, &[40.0], 3)).unwrap();
    assert_eq!(m, before);
}

#[test]
fn a_series_of_second_zero_reaches_back_as_others_do() {
    let (st, mut m) = store(&[rra(Cf::Average, 1, 4), rra(Cf::Average, 6, 16)]);
    let spacing = |m: &[u8]| st.fetch("t/a", Some(m), Cf::Average, -120, 0, 0).unwrap().period;
    assert_eq!(spacing(&m), 10);
    st.record(&mut m, &round(0, &[10.0], 3)).unwrap();
    assert_eq!(spacing(&m), 60);
}
