use dping::stats::{Mean, Percent, Spread, TargetStats};

fn new_stats(cap: usize) -> TargetStats {
    TargetStats::new("t".to_string(), "1.2.3.4".to_string(), cap)
}

fn ms(v: u32) -> u32 {
    v * 1000
}

#[test]
fn window_eviction_respects_cap() {
    let mut s = new_stats(3);
    for i in 0..5u32 {
        s.record(Some(ms(i)));
    }
    let window = s.snapshot().window;
    assert_eq!(window.len(), 3);
    assert_eq!(
        window.iter().copied().collect::<Vec<_>>(),
        vec![Some(ms(2)), Some(ms(3)), Some(ms(4))]
    );
}

#[test]
fn jitter_and_avg_reflect_full_session_after_window_eviction() {
    let mut s = new_stats(2);
    // Five samples, window cap 2 -> window only keeps the last two, but
    // avg/jitter must reflect all five.
    for v in [10, 20, 30, 40, 50] {
        s.record(Some(ms(v)));
    }
    assert_eq!(s.snapshot().window.len(), 2);
    let avg = s.avg_rtt().unwrap();
    assert_eq!(avg, Mean { sum: 150_000, count: 5 });
    assert_eq!(avg.tenths_ms(), 300);

    // pstdev of [10,20,30,40,50] ms is sqrt(200) ~= 14.1421356 ms
    let jitter = s.jitter().unwrap();
    let jitter_ms = (jitter.dev as f64).sqrt() / jitter.count as f64 / 1000.0;
    assert!((jitter_ms - 200f64.sqrt()).abs() < 1e-9);

    // Sanity: this must differ from the stdev of just the window contents [40,50].
    let window_only_mean: f64 = 45.0;
    let window_only_var =
        ((40.0 - window_only_mean).powi(2) + (50.0 - window_only_mean).powi(2)) / 2.0;
    assert!((jitter_ms - window_only_var.sqrt()).abs() > 1e-6);
}

#[test]
fn loss_pct_window_vs_session_diverge_once_losses_leave_window() {
    let mut s = new_stats(2);
    s.record(None); // lost, sent=1
    s.record(None); // lost, sent=2
    s.record(Some(ms(5))); // ok, sent=3 -> window now [None, Some(5)]
    s.record(Some(ms(5))); // ok, sent=4 -> window now [Some(5), Some(5)]

    assert_eq!(s.loss_pct_window().tenths(), 0);
    assert_eq!(s.loss_pct_session().tenths(), 500);
    assert_eq!(s.loss_pct_session(), Percent { lost: 2, total: 4 });
}

#[test]
fn jitter_none_with_one_or_zero_samples() {
    let mut s = new_stats(5);
    assert_eq!(s.jitter(), None);
    s.record(Some(ms(10)));
    assert_eq!(s.jitter(), None);
    s.record(Some(ms(20)));
    assert!(s.jitter().is_some());
}

#[test]
fn zero_window_capacity_is_raised_to_one() {
    let mut s = new_stats(0);
    s.record(Some(1));
    s.record(Some(2));
    let w = s.snapshot().window;
    assert_eq!(w.iter().copied().collect::<Vec<_>>(), vec![Some(2)]);
}

#[test]
fn session_loss_counts_every_sample() {
    let mut s = new_stats(10);
    assert_eq!(s.loss_pct_session(), Percent { lost: 0, total: 0 });
    assert_eq!(s.loss_pct_session().tenths(), 0);
    s.record(None);
    s.record(Some(1000));
    s.record(None);
    assert_eq!(s.loss_pct_session(), Percent { lost: 2, total: 3 });
    // 66.666...% prints as 66.7
    assert_eq!(s.loss_pct_session().tenths(), 667);
    let snap = s.snapshot();
    assert_eq!(snap.sent, 3);
    assert_eq!(snap.last_rtt, None);
}

#[test]
fn constant_rtts_have_no_jitter() {
    let mut s = new_stats(10);
    for _ in 0..4 {
        s.record(Some(12_345));
    }
    let j = s.jitter().unwrap();
    assert_eq!(j.dev, 0);
    assert_eq!(j.tenths_ms(), 0);
}

#[test]
fn spread_threshold_and_text() {
    let s = Spread::from_micros(30_000);
    assert!(!s.exceeds(30_000));
    assert!(s.exceeds(29_999));
    let mut t = String::new();
    s.push_text(&mut t);
    assert_eq!(t, "30.0");
    // sqrt(5e9)/5 = 14142.1 us -> 14.1 ms
    let j = Spread { dev: 5_000_000_000, count: 5 };
    assert_eq!(j.tenths_ms(), 141);
}

#[test]
fn percent_rounds_half_to_even() {
    // 1/400 = 0.25% -> "0.2"; 3/400 = 0.75% -> "0.8"
    assert_eq!(Percent { lost: 1, total: 400 }.tenths(), 2);
    assert_eq!(Percent { lost: 3, total: 400 }.tenths(), 8);
    assert!(Percent { lost: 3, total: 100 }.exceeds(2));
    assert!(!Percent { lost: 2, total: 100 }.exceeds(2));
    assert!(!Percent { lost: 5, total: 0 }.exceeds(2));
}
