use dping::aggregator::{rtt_field, PingSample, StatsBoard};
use dping::stats::TargetStats;

#[test]
fn samples_go_to_their_target_only() {
    let stats = vec![
        TargetStats::new("gateway".to_string(), "10.0.0.1".to_string(), 60),
        TargetStats::new("google(8.8.8.8)".to_string(), "8.8.8.8".to_string(), 60),
    ];
    let mut board = StatsBoard::new(stats);
    let rec = board.record_sample(PingSample { idx: 1, rtt: Some(9_000) });
    assert_eq!(rec.target, "8.8.8.8");
    assert_eq!(rec.name, "google(8.8.8.8)");
    assert_eq!(rec.rtt, Some(9_000));
    board.record_sample(PingSample { idx: 1, rtt: None });
    let snaps = board.snapshots();
    assert_eq!(snaps[0].sent, 0);
    assert_eq!(snaps[1].sent, 2);
    assert_eq!(snaps[1].last_rtt, None);
}

#[test]
fn log_rtt_field_is_shortest_millis() {
    assert_eq!(rtt_field(None), "");
    assert_eq!(rtt_field(Some(13_500)), "13.5");
    assert_eq!(rtt_field(Some(13_000)), "13");
    assert_eq!(rtt_field(Some(45)), "0.045");
    assert_eq!(rtt_field(Some(12_340)), "12.34");
    // agrees with how f64 prints the same number of milliseconds
    for us in [1u32, 999, 1_000, 12_345, 4_294_967_295] {
        assert_eq!(rtt_field(Some(us)), (us as f64 / 1000.0).to_string());
    }
}

#[test]
fn whole_run_gives_each_target_its_samples_in_order() {
    let stats = vec![
        TargetStats::new("gateway".to_string(), "10.0.0.1".to_string(), 2),
        TargetStats::new("google(8.8.8.8)".to_string(), "8.8.8.8".to_string(), 60),
    ];
    let mut board = StatsBoard::new(stats);
    let run = [
        PingSample { idx: 0, rtt: Some(1_000) },
        PingSample { idx: 1, rtt: None },
        PingSample { idx: 0, rtt: None },
        PingSample { idx: 0, rtt: Some(3_000) },
        PingSample { idx: 1, rtt: Some(9_000) },
    ];
    let mut log = Vec::new();
    for s in run {
        let rec = board.record_sample(s);
        log.push((rec.target, rec.name, rec.rtt));
    }
    assert_eq!(
        log,
        vec![
            ("10.0.0.1".to_string(), "gateway".to_string(), Some(1_000)),
            ("8.8.8.8".to_string(), "google(8.8.8.8)".to_string(), None),
            ("10.0.0.1".to_string(), "gateway".to_string(), None),
            ("10.0.0.1".to_string(), "gateway".to_string(), Some(3_000)),
            ("8.8.8.8".to_string(), "google(8.8.8.8)".to_string(), Some(9_000)),
        ]
    );
    let snaps = board.snapshots();
    assert_eq!(snaps.len(), 2);
    assert_eq!(snaps[0].sent, 3);
    assert_eq!(snaps[0].window.iter().copied().collect::<Vec<_>>(), vec![None, Some(3_000)]);
    assert_eq!(snaps[0].loss_pct_session, dping::stats::Percent { lost: 1, total: 3 });
    assert_eq!(snaps[0].avg_rtt, Some(dping::stats::Mean { sum: 4_000, count: 2 }));
    assert_eq!(snaps[1].sent, 2);
    assert_eq!(snaps[1].last_rtt, Some(9_000));
    assert_eq!(snaps[1].name, "google(8.8.8.8)");
}
