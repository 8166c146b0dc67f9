use std::collections::VecDeque;

use dping::analyzer::{diagnose, summarize};
use dping::stats::{Mean, Percent, Snapshot, Spread};

fn snap(name: &str, target: &str, sent: u64, received: u64, jitter_ms: Option<u64>) -> Snapshot {
    Snapshot {
        name: name.to_string(),
        target: target.to_string(),
        sent,
        last_rtt: None,
        avg_rtt: None,
        jitter: jitter_ms.map(|j| Spread::from_micros(j * 1000)),
        loss_pct_session: Percent { lost: sent - received, total: sent },
        loss_pct_window: Percent { lost: 0, total: 0 },
        window: VecDeque::new(),
    }
}

fn clean(name: &str, target: &str) -> Snapshot {
    snap(name, target, 100, 100, None)
}

fn lossy(name: &str, target: &str, loss_pct: u64) -> Snapshot {
    // sent=100, received chosen to produce exactly loss_pct
    snap(name, target, 100, 100 - loss_pct, None)
}

#[test]
fn no_data_collected() {
    let snaps = vec![snap("gateway", "10.0.0.1", 0, 0, None)];
    assert_eq!(diagnose(&snaps), "No data collected.");
    assert_eq!(diagnose(&[]), "No data collected.");
}

#[test]
fn loss_at_gateway_idx0() {
    let snaps = vec![
        lossy("gateway", "10.0.0.1", 10),
        clean("cloudflare(1.1.1.1)", "1.1.1.1"),
        clean("google(8.8.8.8)", "8.8.8.8"),
    ];
    let out = diagnose(&snaps);
    assert!(
        out.starts_with("Loss starts right at gateway (10.0.0.1) - 10.0% loss."),
        "{out}"
    );
}

#[test]
fn last_entry_anchor_only_branch() {
    let snaps = vec![
        clean("gateway", "10.0.0.1"),
        clean("hop2(10.0.0.2)", "10.0.0.2"),
        lossy("google(8.8.8.8)", "8.8.8.8", 15),
    ];
    let out = diagnose(&snaps);
    assert!(
        out.starts_with("Every hop up through your ISP looks clean, but the public anchor google(8.8.8.8) (8.8.8.8) shows 15.0% loss"),
        "{out}"
    );
}

#[test]
fn last_entry_lossy_but_earlier_hop_also_lossy_falls_through_to_generic() {
    let snaps = vec![
        clean("gateway", "10.0.0.1"),
        lossy("hop2(10.0.0.2)", "10.0.0.2", 5),
        lossy("google(8.8.8.8)", "8.8.8.8", 15),
    ];
    let out = diagnose(&snaps);
    assert!(
        out.starts_with("Loss starts at hop2(10.0.0.2) (10.0.0.2), 5.0% - that's upstream"),
        "{out}"
    );
    assert!(
        out.contains("Additional loss also seen at: google(8.8.8.8) (15.0%)"),
        "{out}"
    );
}

#[test]
fn len_two_edge_case_does_not_take_anchor_branch() {
    let snaps = vec![
        clean("gateway", "10.0.0.1"),
        lossy("cloudflare(1.1.1.1)", "1.1.1.1", 10),
    ];
    let out = diagnose(&snaps);
    assert!(
        out.starts_with("Loss starts at cloudflare(1.1.1.1) (1.1.1.1), 10.0% - that's upstream"),
        "{out}"
    );
    assert!(!out.contains("Every hop up through your ISP"));
}

#[test]
fn generic_middle_hop_branch() {
    let snaps = vec![
        clean("gateway", "10.0.0.1"),
        lossy("hop2(10.0.0.2)", "10.0.0.2", 8),
        clean("cloudflare(1.1.1.1)", "1.1.1.1"),
        clean("google(8.8.8.8)", "8.8.8.8"),
    ];
    let out = diagnose(&snaps);
    assert!(
        out.starts_with(
            "Loss starts at hop2(10.0.0.2) (10.0.0.2), 8.0% - that's upstream of your gateway"
        ),
        "{out}"
    );
}

#[test]
fn jitter_only_wording_multi_name() {
    let snaps = vec![
        snap("gateway", "10.0.0.1", 100, 100, Some(40)),
        snap("hop2(10.0.0.2)", "10.0.0.2", 100, 100, Some(5)),
        snap("cloudflare(1.1.1.1)", "1.1.1.1", 100, 100, Some(35)),
    ];
    let out = diagnose(&snaps);
    assert!(out.starts_with("No significant packet loss detected, but high jitter on gateway, cloudflare(1.1.1.1)."), "{out}");
}

#[test]
fn clean_run_wording() {
    let snaps = vec![
        clean("gateway", "10.0.0.1"),
        clean("cloudflare(1.1.1.1)", "1.1.1.1"),
    ];
    assert_eq!(
        diagnose(&snaps),
        "No significant packet loss or jitter detected during this run."
    );
}

#[test]
fn multi_lossy_additional_suffix_in_path_order() {
    let snaps = vec![
        lossy("gateway", "10.0.0.1", 5),
        lossy("hop2(10.0.0.2)", "10.0.0.2", 8),
        clean("cloudflare(1.1.1.1)", "1.1.1.1"),
    ];
    let out = diagnose(&snaps);
    assert!(out.starts_with("Loss starts right at gateway (10.0.0.1) - 5.0% loss."));
    assert!(out.ends_with("Additional loss also seen at: hop2(10.0.0.2) (8.0%)"));
}

#[test]
fn summarize_header_and_row_widths() {
    let snaps = vec![clean("gateway", "10.0.0.1")];
    let out = summarize(&snaps);
    assert!(out.starts_with("Target                    Sent   Loss%   Avg ms   Jitter"));
}

#[test]
fn summarize_full_table() {
    let mut s = clean("gateway", "10.0.0.1");
    s.avg_rtt = Some(Mean { sum: 1_234_500, count: 100 });
    s.jitter = Some(Spread::from_micros(2_500));
    let out = summarize(&[s, lossy("hop2(10.0.0.2)", "10.0.0.2", 3)]);
    let lines: Vec<&str> = out.lines().collect();
    assert_eq!(lines.len(), 4);
    assert_eq!(lines[0], "Target                    Sent   Loss%   Avg ms   Jitter");
    assert_eq!(lines[1], "-".repeat(56));
    assert_eq!(lines[2], "gateway                    100    0.0%     12.3      2.5");
    assert_eq!(lines[3], "hop2(10.0.0.2)             100    3.0%        -        -");
}

#[test]
fn threshold_is_strictly_above_two_percent() {
    // exactly 2% is not lossy; jitter of exactly 30 ms is not high
    let snaps = vec![
        snap("gateway", "10.0.0.1", 100, 98, Some(30)),
        clean("cloudflare(1.1.1.1)", "1.1.1.1"),
    ];
    assert_eq!(
        diagnose(&snaps),
        "No significant packet loss or jitter detected during this run."
    );
}

#[test]
fn lossy_target_without_pings_is_not_blamed() {
    // a target never pinged cannot be where the loss starts
    let mut never = snap("gateway", "10.0.0.1", 0, 0, None);
    never.loss_pct_session = Percent { lost: 5, total: 10 };
    let snaps = vec![never, lossy("hop2(10.0.0.2)", "10.0.0.2", 10), clean("x", "y")];
    let out = diagnose(&snaps);
    assert!(out.starts_with("Loss starts at hop2(10.0.0.2) (10.0.0.2), 10.0%"), "{out}");
}

#[test]
fn anchor_branch_needs_clean_upstream_loss() {
    // the first target was never pinged but carries a loss figure above the
    // threshold: the anchor wording requires every earlier loss within it
    let mut odd = snap("gateway", "10.0.0.1", 0, 0, None);
    odd.loss_pct_session = Percent { lost: 5, total: 10 };
    let snaps = vec![odd, clean("hop2", "10.0.0.2"), lossy("google(8.8.8.8)", "8.8.8.8", 9)];
    let out = diagnose(&snaps);
    assert!(out.starts_with("Loss starts at google(8.8.8.8) (8.8.8.8), 9.0%"), "{out}");
}

#[test]
fn single_lossy_target_diagnosis_ends_with_full_stop() {
    let snaps = vec![clean("gateway", "10.0.0.1"), lossy("hop2", "10.0.0.2", 5), clean("google", "8.8.8.8")];
    let out = diagnose(&snaps);
    assert!(out.starts_with("Loss starts at hop2 (10.0.0.2), 5.0% - "));
    assert!(out.ends_with("not your local network."));
    assert!(!out.contains("Additional loss"));
}

#[test]
fn summary_splits_into_header_rule_and_one_line_per_target() {
    let snaps = vec![clean("gateway", "10.0.0.1"), lossy("hop2", "10.0.0.2", 5), snap("idle", "10.0.0.9", 0, 0, None)];
    let out = summarize(&snaps);
    let lines: Vec<&str> = out.split('\n').collect();
    assert_eq!(lines.len(), snaps.len() + 2);
    assert_eq!(lines[0].chars().count(), 56);
    assert_eq!(lines[1], "-".repeat(56));
    assert_eq!(lines[3], format!("{:<24}{:>6}{:>7}%{:>9}{:>9}", "hop2", 100, "5.0", "-", "-"));
    assert_eq!(lines[4], format!("{:<24}{:>6}{:>7}%{:>9}{:>9}", "idle", 0, "0.0", "-", "-"));
    assert!(!out.ends_with('\n'));
}
