use std::collections::VecDeque;

use dping::stats::{Mean, Percent, Snapshot, Spread};
use dping::ui::{
    bucket_color, format_row, header_line, heat_color, should_quit, sparkline, status_counts,
    status_label, BucketColor, Key, KeyPress, Reading,
};

const SPARK_CHARS: [char; 8] = ['▁', '▂', '▃', '▄', '▅', '▆', '▇', '█'];

#[test]
fn sparkline_empty_when_all_lost() {
    let values: VecDeque<Option<u32>> = VecDeque::from([None, None]);
    assert_eq!(sparkline(&values, 'x'), "");
}

#[test]
fn sparkline_marks_loss_and_scales_range() {
    let values: VecDeque<Option<u32>> = VecDeque::from([Some(0), None, Some(10_000)]);
    let out = sparkline(&values, 'x');
    assert_eq!(out.chars().next(), Some(SPARK_CHARS[0]));
    assert_eq!(out.chars().nth(1), Some('x'));
    assert_eq!(out.chars().nth(2), Some(SPARK_CHARS[7]));
}

#[test]
fn sparkline_flat_values_use_first_char() {
    let values: VecDeque<Option<u32>> = VecDeque::from([Some(5_000), Some(5_000)]);
    let out = sparkline(&values, 'x');
    assert_eq!(out, format!("{}{}", SPARK_CHARS[0], SPARK_CHARS[0]));
}

#[test]
fn sparkline_levels_are_sevenths_of_the_range() {
    let values: VecDeque<Option<u32>> =
        VecDeque::from([Some(10), Some(13), Some(17), Some(16), Some(24)]);
    // (v - 10) * 7 / 14 -> 0, 1, 3, 3, 7
    let want: String = [0, 1, 3, 3, 7].iter().map(|&i| SPARK_CHARS[i]).collect();
    assert_eq!(sparkline(&values, 'x'), want);
}

#[test]
fn bucket_color_thresholds() {
    assert_eq!(bucket_color(None, 0, 5), BucketColor::Dim);
    assert_eq!(bucket_color(Some(Reading::Rtt(0)), 0, 5), BucketColor::Good);
    assert_eq!(bucket_color(Some(Reading::Rtt(3)), 0, 5), BucketColor::Warn);
    assert_eq!(bucket_color(Some(Reading::Rtt(6)), 0, 5), BucketColor::Bad);
}

#[test]
fn bucket_color_by_reading_kind() {
    let loss = |lost, total| Some(Reading::Loss(Percent { lost, total }));
    assert_eq!(bucket_color(loss(0, 10), 0, 5), BucketColor::Good);
    assert_eq!(bucket_color(loss(1, 40), 0, 5), BucketColor::Warn);
    assert_eq!(bucket_color(loss(1, 10), 0, 5), BucketColor::Bad);
    let mean = Some(Reading::Mean(Mean { sum: 60_000, count: 2 }));
    assert_eq!(bucket_color(mean, 20_000, 50_000), BucketColor::Warn);
    let jit = Some(Reading::Jitter(Spread::from_micros(31_000)));
    assert_eq!(bucket_color(jit, 10_000, 30_000), BucketColor::Bad);
}

#[test]
fn header_line_columns() {
    assert_eq!(
        header_line(),
        "Target               Loss(win) Loss(all)    Last     Avg  Jitter  History"
    );
}

#[test]
fn format_row_columns() {
    let s = Snapshot {
        name: "gateway".to_string(),
        target: "10.0.0.1".to_string(),
        sent: 4,
        last_rtt: Some(1_250),
        avg_rtt: Some(Mean { sum: 4_000, count: 2 }),
        jitter: None,
        loss_pct_session: Percent { lost: 1, total: 4 },
        loss_pct_window: Percent { lost: 1, total: 2 },
        window: VecDeque::from([None, Some(1_250)]),
    };
    assert_eq!(
        format_row(&s),
        format!("gateway                  50.0%     25.0%     1.2     2.0       -  x{}", SPARK_CHARS[0])
    );
}

#[test]
fn heat_strip_colors() {
    let colors: Vec<BucketColor> = (0..8).map(heat_color).collect();
    let (g, w, b) = (BucketColor::Good, BucketColor::Warn, BucketColor::Bad);
    assert_eq!(colors, vec![g, g, g, w, w, b, b, b]);
}

#[test]
fn status_bar_counts() {
    let mk = |sent, last| Snapshot {
        name: String::new(),
        target: String::new(),
        sent,
        last_rtt: last,
        avg_rtt: None,
        jitter: None,
        loss_pct_session: Percent { lost: 0, total: 0 },
        loss_pct_window: Percent { lost: 0, total: 0 },
        window: VecDeque::new(),
    };
    let snaps = vec![mk(3, None), mk(0, None), mk(5, Some(1))];
    assert_eq!(status_counts(&snaps), (8, 1));
    assert_eq!(status_label(0), "ALL HOPS UP");
    assert_eq!(status_label(2), "2 HOP(S) DOWN");
}

#[test]
fn quit_keys() {
    let key = |key, ctrl, press| Some(KeyPress { key, ctrl, press });
    assert!(should_quit(key(Key::Char('q'), false, true)));
    assert!(should_quit(key(Key::Esc, false, true)));
    assert!(should_quit(key(Key::Char('c'), true, true)));
    assert!(!should_quit(key(Key::Char('c'), false, true)));
    assert!(!should_quit(key(Key::Char('q'), false, false)));
    assert!(!should_quit(None));
}

#[test]
fn sparkline_keeps_value_order_and_extremes() {
    let values: VecDeque<Option<u32>> =
        VecDeque::from([Some(30_000), None, Some(10_000), Some(20_000), Some(70_000), Some(10_000)]);
    let out: Vec<char> = sparkline(&values, 'x').chars().collect();
    assert_eq!(out.len(), values.len());
    assert_eq!(out[1], 'x');
    // the minimum gets the lowest block, the maximum the highest
    assert_eq!(out[2], SPARK_CHARS[0]);
    assert_eq!(out[5], SPARK_CHARS[0]);
    assert_eq!(out[4], SPARK_CHARS[7]);
    let pos = |c: char| SPARK_CHARS.iter().position(|&b| b == c).unwrap();
    // 10 < 20 < 30 < 70 ms, never drawn in the other order
    assert!(pos(out[2]) <= pos(out[3]));
    assert!(pos(out[3]) <= pos(out[0]));
    assert!(pos(out[0]) <= pos(out[4]));
}

#[test]
fn row_and_header_share_column_offsets() {
    let s = Snapshot {
        name: "hop3(10.0.0.3)".to_string(),
        target: "10.0.0.3".to_string(),
        sent: 8,
        last_rtt: None,
        avg_rtt: Some(Mean { sum: 123_400, count: 2 }),
        jitter: Some(Spread::from_micros(2_500)),
        loss_pct_session: Percent { lost: 3, total: 8 },
        loss_pct_window: Percent { lost: 1, total: 1 },
        window: VecDeque::from([Some(61_700), None]),
    };
    let h: Vec<char> = header_line().chars().collect();
    let r: Vec<char> = format_row(&s).chars().collect();
    assert_eq!(h.len(), 73);
    assert_eq!(r.len(), 66 + 2);
    // the left-aligned name column is 20 wide in both lines
    assert_eq!(h[..20].iter().collect::<String>(), format!("{:<20}", "Target"));
    assert_eq!(r[..20].iter().collect::<String>(), format!("{:<20}", "hop3(10.0.0.3)"));
    for b in [30usize, 40, 48, 56, 64] {
        // every right-aligned column of both lines ends at the same offset
        assert_ne!(h[b - 1], ' ');
        assert_ne!(r[b - 1], ' ');
    }
    assert_eq!(r[29], '%');
    assert_eq!(r[39], '%');
    assert_eq!(h[64..66].iter().collect::<String>(), "  ");
    assert_eq!(r[64..66].iter().collect::<String>(), "  ");
    assert_eq!(h[66..].iter().collect::<String>(), "History");
    assert_eq!(r[66..].iter().collect::<String>(), format!("{}x", SPARK_CHARS[0]));
}
