//! Turns per-target session figures into a plain-English diagnosis.
//!
//! The snapshots are ordered gateway -> hop 2 -> ... -> public anchors,
//! walking outward from this machine, so the first target with loss tells
//! which segment of the path to blame.
use vstd::prelude::*;
use crate::stats::{Mean, Percent, Snapshot, Spread};
use crate::text::{
    lemma_cat_no_newline, lemma_nat_text_no_newline, lemma_pad, lemma_tenths_text, no_newline,
    join, nat_text, pad_left, pad_right, push_char, push_decimal, push_left_aligned,
    push_right_aligned, push_str, char_count,
};

verus! {

/// Session packet loss (percent) above which a target counts as lossy.
pub const LOSS_THRESHOLD: u64 = 2;

/// Standard deviation of the round-trip time (microseconds, i.e. 30 ms)
/// above which jitter counts as high.
pub const JITTER_THRESHOLD_US: u64 = 30_000;

/// A target that was pinged and lost more than the threshold.
pub open spec fn is_lossy(s: Snapshot) -> bool {
    s.sent > 0 && s.loss_pct_session.above(LOSS_THRESHOLD as nat)
}

/// A target whose round-trip deviation is above the threshold.
pub open spec fn is_jittery(s: Snapshot) -> bool {
    match s.jitter {
        Some(j) => j.above(JITTER_THRESHOLD_US as nat),
        None => false,
    }
}

/// Index of the first lossy target at or after `i` (the length if none).
pub open spec fn first_lossy_from(snaps: Seq<Snapshot>, i: nat) -> nat
    decreases snaps.len() - i,
{
    if i >= snaps.len() {
        snaps.len()
    } else if is_lossy(snaps[i as int]) {
        i
    } else {
        first_lossy_from(snaps, i + 1)
    }
}

/// The lossy targets, in path order.
pub open spec fn lossy_targets(snaps: Seq<Snapshot>) -> Seq<Snapshot> {
    snaps.filter(|s: Snapshot| is_lossy(s))
}

/// The targets with high jitter, in path order.
pub open spec fn jittery_targets(snaps: Seq<Snapshot>) -> Seq<Snapshot> {
    snaps.filter(|s: Snapshot| is_jittery(s))
}

/// The display names of the targets.
pub open spec fn names(snaps: Seq<Snapshot>) -> Seq<Seq<char>> {
    snaps.map_values(|s: Snapshot| s.name@)
}

/// "name (12.5%)".
pub open spec fn loss_entry(s: Snapshot) -> Seq<char> {
    s.name@ + " ("@ + s.loss_pct_session.text() + "%)"@
}

/// Nothing was ever sent to any target.
pub open spec fn nothing_sent(snaps: Seq<Snapshot>) -> bool {
    forall|i: int| 0 <= i < snaps.len() ==> #[trigger] snaps[i].sent == 0
}

/// No target before `idx` shows loss above the threshold.
pub open spec fn clean_before(snaps: Seq<Snapshot>, idx: nat) -> bool {
    forall|i: int| 0 <= i < idx ==> !(#[trigger] snaps[i].loss_pct_session).above(
        LOSS_THRESHOLD as nat,
    )
}

/// The verdict when the loss starts at the gateway.
pub open spec fn gateway_verdict(s: Snapshot) -> Seq<char> {
    "Loss starts right at "@ + s.name@ + " ("@ + s.target@ + ") - "@ + s.loss_pct_session.text()
        + "% loss. That's your gateway itself; worth a second look even though it's new hardware."@
}

/// The verdict when only the last public anchor loses packets.
pub open spec fn anchor_verdict(s: Snapshot) -> Seq<char> {
    "Every hop up through your ISP looks clean, but the public anchor "@ + s.name@ + " ("@
        + s.target@ + ") shows "@ + s.loss_pct_session.text()
        + "% loss - likely a destination/peering issue rather than your connection."@
}

/// The verdict when the loss starts past the gateway.
pub open spec fn upstream_verdict(s: Snapshot) -> Seq<char> {
    "Loss starts at "@ + s.name@ + " ("@ + s.target@ + "), "@ + s.loss_pct_session.text()
        + "% - that's upstream of your gateway (ISP network / last-mile), not your local network."@
}

/// The verdict on where the loss starts, `idx` being the first lossy target.
pub open spec fn loss_verdict(snaps: Seq<Snapshot>, idx: nat) -> Seq<char> {
    let first = snaps[idx as int];
    if idx == 0 {
        gateway_verdict(first)
    } else if snaps.len() > 2 && idx == snaps.len() - 1 && clean_before(snaps, idx) {
        anchor_verdict(first)
    } else {
        upstream_verdict(first)
    }
}

/// The full diagnosis of a run.
pub open spec fn diagnosis(snaps: Seq<Snapshot>) -> Seq<char> {
    if snaps.len() == 0 || nothing_sent(snaps) {
        "No data collected."@
    } else {
        let idx = first_lossy_from(snaps, 0);
        if idx == snaps.len() {
            let jittery = jittery_targets(snaps);
            if jittery.len() > 0 {
                "No significant packet loss detected, but high jitter on "@ + join(
                    names(jittery),
                    ", "@,
                )
                    + ". That can still feel 'spotty' (voice/video breakup, stalls) even without hard drops - worth checking for congestion or bufferbloat."@
            } else {
                "No significant packet loss or jitter detected during this run."@
            }
        } else {
            let others = lossy_targets(snaps.skip(idx + 1 as int));
            if others.len() > 0 {
                loss_verdict(snaps, idx) + " Additional loss also seen at: "@ + join(
                    others.map_values(|s: Snapshot| loss_entry(s)),
                    ", "@,
                )
            } else {
                loss_verdict(snaps, idx)
            }
        }
    }
}

/// Joining one more piece.
pub proof fn lemma_join_push(p: Seq<Seq<char>>, x: Seq<char>, sep: Seq<char>)
    ensures
        join(p.push(x), sep) == if p.len() == 0 {
            x
        } else {
            join(p, sep) + sep + x
        },
{
    assert(p.push(x).drop_last() =~= p);
}

/// The first lossy index found by a scan that stopped at `idx`.
proof fn lemma_first_lossy(snaps: Seq<Snapshot>, i: nat, idx: nat)
    requires
        i <= idx <= snaps.len(),
        forall|j: int| i <= j < idx ==> !is_lossy(#[trigger] snaps[j]),
        idx < snaps.len() ==> is_lossy(snaps[idx as int]),
    ensures
        first_lossy_from(snaps, i) == idx,
    decreases idx - i,
{
    if i < idx {
        assert(!is_lossy(snaps[i as int]));
        lemma_first_lossy(snaps, i + 1, idx);
    }
}

fn lossy(s: &Snapshot) -> (r: bool)
    ensures
        r == is_lossy(*s),
{
    s.sent > 0 && s.loss_pct_session.exceeds(LOSS_THRESHOLD)
}

fn jittery(s: &Snapshot) -> (r: bool)
    ensures
        r == is_jittery(*s),
{
    match &s.jitter {
        Some(j) => j.exceeds(JITTER_THRESHOLD_US),
        None => false,
    }
}

fn push_loss_entry(out: &mut String, s: &Snapshot)
    ensures
        final(out)@ == old(out)@ + loss_entry(*s),
{
    push_str(out, s.name.as_str());
    push_str(out, " (");
    s.loss_pct_session.push_text(out);
    push_str(out, "%)");
    assert(final(out)@ =~= old(out)@ + loss_entry(*s));
}

fn verdict(snapshots: &[Snapshot], idx: usize) -> (r: String)
    requires
        idx < snapshots@.len(),
        forall|j: int| 0 <= j < idx ==> !is_lossy(#[trigger] snapshots@[j]),
        is_lossy(snapshots@[idx as int]),
    ensures
        r@ == loss_verdict(snapshots@, idx as nat),
{
    let n = snapshots.len();
    let first = &snapshots[idx];
    let mut out = String::new();
    let mut clean = true;
    let mut j: usize = 0;
    while j < idx
        invariant
            j <= idx < n,
            n == snapshots@.len(),
            clean == (forall|k: int| 0 <= k < j ==> !(#[trigger] snapshots@[k].loss_pct_session).above(
                LOSS_THRESHOLD as nat,
            )),
        decreases idx - j,
    {
        if snapshots[j].loss_pct_session.exceeds(LOSS_THRESHOLD) {
            clean = false;
        }
        j = j + 1;
    }
    if idx == 0 {
        push_str(&mut out, "Loss starts right at ");
        push_str(&mut out, first.name.as_str());
        push_str(&mut out, " (");
        push_str(&mut out, first.target.as_str());
        push_str(&mut out, ") - ");
        first.loss_pct_session.push_text(&mut out);
        push_str(
            &mut out,
            "% loss. That's your gateway itself; worth a second look even though it's new hardware.",
        );
        assert(out@ =~= gateway_verdict(*first));
    } else if n > 2 && idx == n - 1 && clean {
        push_str(&mut out, "Every hop up through your ISP looks clean, but the public anchor ");
        push_str(&mut out, first.name.as_str());
        push_str(&mut out, " (");
        push_str(&mut out, first.target.as_str());
        push_str(&mut out, ") shows ");
        first.loss_pct_session.push_text(&mut out);
        push_str(
            &mut out,
            "% loss - likely a destination/peering issue rather than your connection.",
        );
        assert(out@ =~= anchor_verdict(*first));
    } else {
        push_str(&mut out, "Loss starts at ");
        push_str(&mut out, first.name.as_str());
        push_str(&mut out, " (");
        push_str(&mut out, first.target.as_str());
        push_str(&mut out, "), ");
        first.loss_pct_session.push_text(&mut out);
        push_str(
            &mut out,
            "% - that's upstream of your gateway (ISP network / last-mile), not your local network.",
        );
        assert(out@ =~= upstream_verdict(*first));
    }
    out
}

/// Plain-English diagnosis of where packet loss (or high jitter) starts.
pub fn diagnose(snapshots: &[Snapshot]) -> (r: String)
    ensures
        r@ == diagnosis(snapshots@),
{
    let n = snapshots.len();
    let ghost snaps = snapshots@;
    let mut out = String::new();
    let mut any_sent = false;
    let mut i: usize = 0;
    while i < n
        invariant
            n == snaps.len(),
            snaps == snapshots@,
            i <= n,
            any_sent == (exists|j: int| 0 <= j < i && #[trigger] snaps[j].sent != 0),
        decreases n - i,
    {
        if snapshots[i].sent != 0 {
            any_sent = true;
        }
        i = i + 1;
    }
    if n == 0 || !any_sent {
        push_str(&mut out, "No data collected.");
        assert(out@ =~= "No data collected."@);
        return out;
    }
    let mut idx: usize = 0;
    while idx < n && !lossy(&snapshots[idx])
        invariant
            n == snaps.len(),
            snaps == snapshots@,
            idx <= n,
            forall|j: int| 0 <= j < idx ==> !is_lossy(#[trigger] snaps[j]),
        decreases n - idx,
    {
        idx = idx + 1;
    }
    proof {
        lemma_first_lossy(snaps, 0, idx as nat);
    }
    if idx == n {
        push_str(
            &mut out,
            "No significant packet loss detected, but high jitter on ",
        );
        let ghost prefix = out@;
        let mut count: usize = 0;
        let mut k: usize = 0;
        while k < n
            invariant
                n == snaps.len(),
                snaps == snapshots@,
                k <= n,
                count == jittery_targets(snaps.take(k as int)).len(),
                out@ == prefix + join(names(jittery_targets(snaps.take(k as int))), ", "@),
            decreases n - k,
        {
            let ghost before = jittery_targets(snaps.take(k as int));
            assert(snaps.take(k + 1).drop_last() =~= snaps.take(k as int));
            proof {
                reveal_with_fuel(Seq::<_>::filter, 1);
            }
            if jittery(&snapshots[k]) {
                let ghost s = snaps[k as int];
                assert(jittery_targets(snaps.take(k + 1)) == before.push(s));
                assert(names(before.push(s)) =~= names(before).push(s.name@));
                proof {
                    lemma_join_push(names(before), s.name@, ", "@);
                }
                if count > 0 {
                    push_str(&mut out, ", ");
                }
                push_str(&mut out, snapshots[k].name.as_str());
                assert(out@ =~= prefix + join(names(jittery_targets(snaps.take(k + 1))), ", "@));
                count = count + 1;
            } else {
                assert(jittery_targets(snaps.take(k + 1)) == before);
            }
            k = k + 1;
        }
        assert(snaps.take(n as int) =~= snaps);
        if count > 0 {
            push_str(
                &mut out,
                ". That can still feel 'spotty' (voice/video breakup, stalls) even without hard drops - worth checking for congestion or bufferbloat.",
            );
            return out;
        } else {
            let mut clean_msg = String::new();
            push_str(&mut clean_msg, "No significant packet loss or jitter detected during this run.");
            assert(clean_msg@ =~= "No significant packet loss or jitter detected during this run."@);
            return clean_msg;
        }
    }
    let mut out = verdict(snapshots, idx);
    let ghost head = out@;
    let ghost rest = snaps.skip(idx + 1);
    let mut count: usize = 0;
    let mut k: usize = idx + 1;
    while k < n
        invariant
            n == snaps.len(),
            snaps == snapshots@,
            idx < k <= n,
            rest == snaps.skip(idx + 1),
            count == lossy_targets(snaps.subrange(idx + 1, k as int)).len(),
            count == 0 ==> out@ == head,
            count > 0 ==> out@ == head + " Additional loss also seen at: "@ + join(
                lossy_targets(snaps.subrange(idx + 1, k as int)).map_values(
                    |s: Snapshot| loss_entry(s),
                ),
                ", "@,
            ),
        decreases n - k,
    {
        let ghost before = lossy_targets(snaps.subrange(idx + 1, k as int));
        assert(snaps.subrange(idx + 1, k + 1).drop_last() =~= snaps.subrange(idx + 1, k as int));
        proof {
            reveal_with_fuel(Seq::<_>::filter, 1);
        }
        if lossy(&snapshots[k]) {
            let ghost s = snaps[k as int];
            assert(lossy_targets(snaps.subrange(idx + 1, k + 1)) == before.push(s));
            assert(before.push(s).map_values(|s: Snapshot| loss_entry(s)) =~= before.map_values(
                |s: Snapshot| loss_entry(s),
            ).push(loss_entry(s)));
            proof {
                lemma_join_push(before.map_values(|s: Snapshot| loss_entry(s)), loss_entry(s), ", "@);
            }
            if count == 0 {
                push_str(&mut out, " Additional loss also seen at: ");
            } else {
                push_str(&mut out, ", ");
            }
            push_loss_entry(&mut out, &snapshots[k]);
            assert(out@ =~= head + " Additional loss also seen at: "@ + join(
                lossy_targets(snaps.subrange(idx + 1, k + 1)).map_values(|s: Snapshot| loss_entry(s)),
                ", "@,
            ));
            count = count + 1;
        } else {
            assert(lossy_targets(snaps.subrange(idx + 1, k + 1)) == before);
        }
        k = k + 1;
    }
    assert(snaps.subrange(idx + 1, n as int) =~= rest);
    out
}

/// A mean in milliseconds with one decimal, or "-".
pub open spec fn mean_or_dash(m: Option<Mean>) -> Seq<char> {
    match m {
        Some(v) => v.text(),
        None => "-"@,
    }
}

/// A deviation in milliseconds with one decimal, or "-".
pub open spec fn spread_or_dash(m: Option<Spread>) -> Seq<char> {
    match m {
        Some(v) => v.text(),
        None => "-"@,
    }
}

/// The header of the summary table.
pub open spec fn summary_header() -> Seq<char> {
    pad_right("Target"@, 24) + pad_left("Sent"@, 6) + pad_left("Loss%"@, 8) + pad_left(
        "Avg ms"@,
        9,
    ) + pad_left("Jitter"@, 9)
}

/// One row of the summary table.
pub open spec fn summary_row(s: Snapshot) -> Seq<char> {
    pad_right(s.name@, 24) + pad_left(nat_text(s.sent as nat), 6) + pad_left(
        s.loss_pct_session.text(),
        7,
    ) + "%"@ + pad_left(mean_or_dash(s.avg_rtt), 9) + pad_left(spread_or_dash(s.jitter), 9)
}

/// `n` dashes.
pub open spec fn dashes(n: nat) -> Seq<char> {
    Seq::new(n, |i: int| '-')
}

/// The end-of-run summary table: header, a rule as wide as the header,
/// and one row per target, joined by newlines.
pub open spec fn summary(snaps: Seq<Snapshot>) -> Seq<char> {
    join(
        seq![summary_header(), dashes(summary_header().len())] + snaps.map_values(
            |s: Snapshot| summary_row(s),
        ),
        "\n"@,
    )
}

fn push_mean_or_dash(out: &mut String, m: &Option<Mean>, width: usize)
    ensures
        final(out)@ == old(out)@ + pad_left(mean_or_dash(*m), width as nat),
{
    let mut t = String::new();
    match m {
        Some(v) => v.push_text(&mut t),
        None => push_str(&mut t, "-"),
    }
    assert(t@ =~= mean_or_dash(*m));
    push_right_aligned(out, t.as_str(), width);
}

fn push_spread_or_dash(out: &mut String, m: &Option<Spread>, width: usize)
    ensures
        final(out)@ == old(out)@ + pad_left(spread_or_dash(*m), width as nat),
{
    let mut t = String::new();
    match m {
        Some(v) => v.push_text(&mut t),
        None => push_str(&mut t, "-"),
    }
    assert(t@ =~= spread_or_dash(*m));
    push_right_aligned(out, t.as_str(), width);
}

fn push_summary_row(out: &mut String, s: &Snapshot)
    ensures
        final(out)@ == old(out)@ + summary_row(*s),
{
    push_left_aligned(out, s.name.as_str(), 24);
    let mut sent = String::new();
    push_decimal(&mut sent, s.sent as u128);
    assert(sent@ =~= nat_text(s.sent as nat));
    push_right_aligned(out, sent.as_str(), 6);
    let mut pct = String::new();
    s.loss_pct_session.push_text(&mut pct);
    assert(pct@ =~= s.loss_pct_session.text());
    push_right_aligned(out, pct.as_str(), 7);
    push_str(out, "%");
    push_mean_or_dash(out, &s.avg_rtt, 9);
    push_spread_or_dash(out, &s.jitter, 9);
    assert(final(out)@ =~= old(out)@ + summary_row(*s));
}

/// The end-of-run summary table.
pub fn summarize(snapshots: &[Snapshot]) -> (r: String)
    ensures
        r@ == summary(snapshots@),
{
    let ghost snaps = snapshots@;
    let ghost rows = snaps.map_values(|s: Snapshot| summary_row(s));
    let ghost first_two = seq![summary_header(), dashes(summary_header().len())];
    let mut header = String::new();
    push_left_aligned(&mut header, "Target", 24);
    push_right_aligned(&mut header, "Sent", 6);
    push_right_aligned(&mut header, "Loss%", 8);
    push_right_aligned(&mut header, "Avg ms", 9);
    push_right_aligned(&mut header, "Jitter", 9);
    assert(header@ =~= summary_header());
    let width = char_count(header.as_str());
    let mut out = header;
    push_char(&mut out, '\n');
    let ghost before_rule = out@;
    let mut i: usize = 0;
    while i < width
        invariant
            i <= width,
            width == summary_header().len(),
            out@ == before_rule + dashes(i as nat),
        decreases width - i,
    {
        push_char(&mut out, '-');
        assert(before_rule + dashes((i + 1) as nat) =~= (before_rule + dashes(i as nat)).push('-'));
        i = i + 1;
    }
    proof {
        reveal_strlit("\n");
        lemma_join_push(seq![summary_header()], dashes(summary_header().len()), "\n"@);
        assert(seq![summary_header()].push(dashes(summary_header().len())) =~= first_two);
        assert(join(seq![summary_header()], "\n"@) == summary_header());
        assert(out@ =~= join(first_two, "\n"@));
    }
    let n = snapshots.len();
    let mut k: usize = 0;
    while k < n
        invariant
            n == snaps.len(),
            snaps == snapshots@,
            rows == snaps.map_values(|s: Snapshot| summary_row(s)),
            first_two.len() == 2,
            k <= n,
            out@ == join(first_two + rows.take(k as int), "\n"@),
        decreases n - k,
    {
        proof {
            reveal_strlit("\n");
            lemma_join_push(first_two + rows.take(k as int), rows[k as int], "\n"@);
            assert(first_two + rows.take(k + 1) =~= (first_two + rows.take(k as int)).push(
                rows[k as int],
            ));
        }
        assert(rows[k as int] == summary_row(snaps[k as int]));
        assert((first_two + rows.take(k as int)).len() >= 2);
        let ghost prev = out@;
        push_char(&mut out, '\n');
        push_summary_row(&mut out, &snapshots[k]);
        assert(out@ =~= prev + "\n"@ + rows[k as int]);
        assert(out@ =~= join(first_two + rows.take(k + 1), "\n"@));
        k = k + 1;
    }
    assert(rows.take(n as int) =~= rows);
    out
}

/// A mean or a deviation as text, or "-", holds no line feed.
proof fn lemma_figure_no_newline(m: Option<Mean>, d: Option<Spread>)
    ensures
        no_newline(mean_or_dash(m)),
        no_newline(spread_or_dash(d)),
{
    reveal_strlit("-");
    match m {
        Some(v) => lemma_tenths_text(v.spec_tenths_ms()),
        None => {},
    }
    match d {
        Some(v) => lemma_tenths_text(v.spec_tenths_ms()),
        None => {},
    }
}

/// The summary is its lines joined by line feeds, with no line feed inside
/// a line when no target name holds one: first the 56-character header,
/// then a rule of 56 dashes, then one row per target, in order (so it has
/// two lines more than there are targets, and no trailing line feed).
pub proof fn law_summary_lines(snaps: Seq<Snapshot>)
    requires
        forall|i: int| 0 <= i < snaps.len() ==> no_newline(#[trigger] snaps[i].name@),
    ensures
        summary_header().len() == 56,
        summary(snaps) == join(
            seq![summary_header(), dashes(56)] + snaps.map_values(|s: Snapshot| summary_row(s)),
            "\n"@,
        ),
        no_newline(summary_header()),
        no_newline(dashes(56)),
        forall|i: int| 0 <= i < snaps.len() ==> no_newline(#[trigger] summary_row(snaps[i])),
{
    reveal_strlit("Target");
    reveal_strlit("Sent");
    reveal_strlit("Loss%");
    reveal_strlit("Avg ms");
    reveal_strlit("Jitter");
    reveal_strlit("%");
    let parts = seq![
        pad_right("Target"@, 24),
        pad_left("Sent"@, 6),
        pad_left("Loss%"@, 8),
        pad_left("Avg ms"@, 9),
        pad_left("Jitter"@, 9),
    ];
    lemma_pad("Target"@, 24);
    lemma_pad("Sent"@, 6);
    lemma_pad("Loss%"@, 8);
    lemma_pad("Avg ms"@, 9);
    lemma_pad("Jitter"@, 9);
    assert(summary_header().len() == 56);
    lemma_cat_no_newline(parts[0], parts[1]);
    lemma_cat_no_newline(parts[0] + parts[1], parts[2]);
    lemma_cat_no_newline(parts[0] + parts[1] + parts[2], parts[3]);
    lemma_cat_no_newline(parts[0] + parts[1] + parts[2] + parts[3], parts[4]);
    assert(no_newline(dashes(56)));
    assert forall|i: int| 0 <= i < snaps.len() implies no_newline(#[trigger] summary_row(snaps[i])) by {
        let s = snaps[i];
        lemma_pad(s.name@, 24);
        lemma_nat_text_no_newline(s.sent as nat);
        lemma_pad(nat_text(s.sent as nat), 6);
        lemma_tenths_text(s.loss_pct_session.spec_tenths());
        lemma_pad(s.loss_pct_session.text(), 7);
        lemma_figure_no_newline(s.avg_rtt, s.jitter);
        lemma_pad(mean_or_dash(s.avg_rtt), 9);
        lemma_pad(spread_or_dash(s.jitter), 9);
        let a = pad_right(s.name@, 24);
        let b = pad_left(nat_text(s.sent as nat), 6);
        let c = pad_left(s.loss_pct_session.text(), 7);
        let d = pad_left(mean_or_dash(s.avg_rtt), 9);
        let e = pad_left(spread_or_dash(s.jitter), 9);
        assert(no_newline("%"@));
        lemma_cat_no_newline(a, b);
        lemma_cat_no_newline(a + b, c);
        lemma_cat_no_newline(a + b + c, "%"@);
        lemma_cat_no_newline(a + b + c + "%"@, d);
        lemma_cat_no_newline(a + b + c + "%"@ + d, e);
    }
}

/// The first lossy index is lossy, and no target before it is.
pub proof fn law_first_lossy(snaps: Seq<Snapshot>)
    ensures
        first_lossy_from(snaps, 0) <= snaps.len(),
        forall|j: int| 0 <= j < first_lossy_from(snaps, 0) ==> !is_lossy(#[trigger] snaps[j]),
        first_lossy_from(snaps, 0) < snaps.len() ==> is_lossy(
            snaps[first_lossy_from(snaps, 0) as int],
        ),
{
    lemma_first_lossy_from(snaps, 0);
}

proof fn lemma_first_lossy_from(snaps: Seq<Snapshot>, i: nat)
    requires
        i <= snaps.len(),
    ensures
        i <= first_lossy_from(snaps, i) <= snaps.len(),
        forall|j: int| i <= j < first_lossy_from(snaps, i) ==> !is_lossy(#[trigger] snaps[j]),
        first_lossy_from(snaps, i) < snaps.len() ==> is_lossy(snaps[first_lossy_from(snaps, i) as int]),
    decreases snaps.len() - i,
{
    if i < snaps.len() && !is_lossy(snaps[i as int]) {
        lemma_first_lossy_from(snaps, i + 1);
    }
}

/// A lossy target means data was collected.
proof fn lemma_lossy_means_data(snaps: Seq<Snapshot>, k: int)
    requires
        0 <= k < snaps.len(),
        is_lossy(snaps[k]),
    ensures
        !nothing_sent(snaps),
{
    assert(snaps[k].sent != 0);
}

/// Loss already at the first target (the gateway) is blamed on the
/// gateway: the diagnosis starts with the gateway verdict.
pub proof fn law_loss_at_gateway(snaps: Seq<Snapshot>)
    requires
        snaps.len() > 0,
        is_lossy(snaps[0]),
    ensures
        diagnosis(snaps).take(gateway_verdict(snaps[0]).len() as int) == gateway_verdict(snaps[0]),
{
    lemma_lossy_means_data(snaps, 0);
    assert(first_lossy_from(snaps, 0) == 0);
    let v = gateway_verdict(snaps[0]);
    let d = diagnosis(snaps);
    assert(loss_verdict(snaps, 0) == v);
    let others = lossy_targets(snaps.skip(1));
    if others.len() > 0 {
        let rest = " Additional loss also seen at: "@ + join(
            others.map_values(|s: Snapshot| loss_entry(s)),
            ", "@,
        );
        assert(d == v + rest);
        assert((v + rest).take(v.len() as int) =~= v);
    } else {
        assert(d == v);
        assert(v.take(v.len() as int) =~= v);
    }
}

/// With more than two targets, loss that shows up only on the last one
/// (every earlier target within the threshold) is blamed on the
/// destination side, not on the connection.
pub proof fn law_loss_only_at_last_anchor(snaps: Seq<Snapshot>)
    requires
        snaps.len() > 2,
        is_lossy(snaps.last()),
        clean_before(snaps, (snaps.len() - 1) as nat),
    ensures
        diagnosis(snaps) == anchor_verdict(snaps.last()),
{
    let n = snaps.len();
    lemma_lossy_means_data(snaps, n - 1);
    assert forall|j: int| 0 <= j < n - 1 implies !is_lossy(#[trigger] snaps[j]) by {
        assert(!snaps[j].loss_pct_session.above(LOSS_THRESHOLD as nat));
    }
    lemma_first_lossy(snaps, 0, (n - 1) as nat);
    assert(lossy_targets(snaps.skip(n as int)).len() == 0) by {
        assert(snaps.skip(n as int) =~= Seq::<Snapshot>::empty());
        reveal_with_fuel(Seq::<_>::filter, 1);
    }
}

/// Loss that starts somewhere between the gateway and a lone last anchor
/// is blamed on the path upstream of the gateway.
pub proof fn law_loss_upstream(snaps: Seq<Snapshot>, idx: nat)
    requires
        0 < idx < snaps.len(),
        is_lossy(snaps[idx as int]),
        forall|j: int| 0 <= j < idx ==> !is_lossy(#[trigger] snaps[j]),
        idx < snaps.len() - 1 || snaps.len() <= 2,
    ensures
        diagnosis(snaps).take(upstream_verdict(snaps[idx as int]).len() as int) == upstream_verdict(
            snaps[idx as int],
        ),
{
    lemma_lossy_means_data(snaps, idx as int);
    lemma_first_lossy(snaps, 0, idx);
    let v = upstream_verdict(snaps[idx as int]);
    assert(loss_verdict(snaps, idx) == v);
    let others = lossy_targets(snaps.skip(idx + 1 as int));
    if others.len() > 0 {
        let rest = " Additional loss also seen at: "@ + join(
            others.map_values(|s: Snapshot| loss_entry(s)),
            ", "@,
        );
        assert((v + rest).take(v.len() as int) =~= v);
    } else {
        assert(v.take(v.len() as int) =~= v);
    }
}

/// Every verdict on where the loss starts ends with a full stop.
proof fn lemma_verdict_ends_with_stop(snaps: Seq<Snapshot>, idx: nat)
    requires
        idx < snaps.len(),
    ensures
        loss_verdict(snaps, idx).len() > 0,
        loss_verdict(snaps, idx).last() == '.',
{
    reveal_strlit(
        "% loss. That's your gateway itself; worth a second look even though it's new hardware.",
    );
    reveal_strlit("% loss - likely a destination/peering issue rather than your connection.");
    reveal_strlit(
        "% - that's upstream of your gateway (ISP network / last-mile), not your local network.",
    );
}

/// Filtering the lossy targets out of a sequence none of which is lossy
/// leaves nothing.
proof fn lemma_no_lossy(snaps: Seq<Snapshot>)
    requires
        forall|j: int| 0 <= j < snaps.len() ==> !is_lossy(#[trigger] snaps[j]),
    ensures
        lossy_targets(snaps) == Seq::<Snapshot>::empty(),
    decreases snaps.len(),
{
    reveal_with_fuel(Seq::<_>::filter, 1);
    if snaps.len() > 0 {
        let d = snaps.drop_last();
        assert forall|j: int| 0 <= j < d.len() implies !is_lossy(#[trigger] d[j]) by {
            assert(d[j] == snaps[j]);
        }
        lemma_no_lossy(d);
        assert(!is_lossy(snaps[snaps.len() - 1]));
    }
    assert(lossy_targets(snaps) =~= Seq::<Snapshot>::empty());
}

/// How a diagnosis with loss ends. The lossy targets in path order start
/// with the one the verdict names; when there are more, the diagnosis is
/// the verdict followed by " Additional loss also seen at: " and the
/// others as "name (12.5%)", joined with ", "; otherwise it is the verdict
/// alone, which ends with a full stop.
pub proof fn law_loss_suffix(snaps: Seq<Snapshot>)
    requires
        lossy_targets(snaps).len() > 0,
    ensures
        first_lossy_from(snaps, 0) < snaps.len(),
        lossy_targets(snaps)[0] == snaps[first_lossy_from(snaps, 0) as int],
        lossy_targets(snaps).len() > 1 ==> diagnosis(snaps) == loss_verdict(
            snaps,
            first_lossy_from(snaps, 0),
        ) + " Additional loss also seen at: "@ + join(
            lossy_targets(snaps).skip(1).map_values(|s: Snapshot| loss_entry(s)),
            ", "@,
        ),
        lossy_targets(snaps).len() == 1 ==> diagnosis(snaps) == loss_verdict(
            snaps,
            first_lossy_from(snaps, 0),
        ),
        lossy_targets(snaps).len() == 1 ==> diagnosis(snaps).last() == '.',
{
    let idx = first_lossy_from(snaps, 0);
    lemma_first_lossy_from(snaps, 0);
    if idx == snaps.len() {
        lemma_no_lossy(snaps);
        assert(false);
    }
    let i = idx as int;
    let p = |s: Snapshot| is_lossy(s);
    let before = snaps.take(i);
    let after = snaps.skip(i + 1);
    assert forall|j: int| 0 <= j < before.len() implies !is_lossy(#[trigger] before[j]) by {
        assert(before[j] == snaps[j]);
    }
    lemma_no_lossy(before);
    assert(snaps =~= before + (seq![snaps[i]] + after));
    Seq::filter_distributes_over_add(before, seq![snaps[i]] + after, p);
    after.lemma_filter_prepend(snaps[i], p);
    assert(lossy_targets(before) == before.filter(p));
    assert(lossy_targets(after) == after.filter(p));
    assert(lossy_targets(snaps) == snaps.filter(p));
    assert(p(snaps[i]));
    assert(lossy_targets(snaps) =~= seq![snaps[i]] + lossy_targets(after));
    assert(lossy_targets(snaps).skip(1) =~= lossy_targets(after));
    lemma_lossy_means_data(snaps, i);
    lemma_verdict_ends_with_stop(snaps, idx);
}

/// A target counts as lossy exactly when it was pinged and more than 2% of
/// its session's samples were lost (`100 · lost > 2 · total`); the verdict
/// depends on the share alone, so `m` times as many samples with `m` times
/// as many losses get the same verdict.
pub proof fn law_loss_threshold(s: Snapshot, m: nat)
    ensures
        is_lossy(s) <==> (s.sent > 0 && s.loss_pct_session.total > 0 && 100
            * s.loss_pct_session.lost > 2 * s.loss_pct_session.total),
        m > 0 && s.loss_pct_session.lost * m <= u64::MAX && s.loss_pct_session.total * m
            <= u64::MAX ==> (is_lossy(s) <==> is_lossy(
            Snapshot {
                loss_pct_session: Percent {
                    lost: (s.loss_pct_session.lost * m) as u64,
                    total: (s.loss_pct_session.total * m) as u64,
                },
                ..s
            },
        )),
{
    let l = s.loss_pct_session.lost as int;
    let t = s.loss_pct_session.total as int;
    let mi = m as int;
    if m > 0 {
        assert((100 * (l * mi) > 2 * (t * mi)) <==> (100 * l > 2 * t)) by (nonlinear_arith)
            requires
                mi > 0,
        ;
        assert((t * mi > 0) <==> (t > 0)) by (nonlinear_arith)
            requires
                mi > 0,
                t >= 0,
        ;
    }
}

/// A target counts as jittery exactly when its standard deviation
/// `sqrt(dev) / count` is above 30 ms, i.e. when `dev > 900_000_000 ·
/// count²` (microseconds squared). The verdict depends on the deviation
/// alone: the same spread measured over `m` times as many samples
/// (`dev · m²` over `count · m`) gets the same verdict.
pub proof fn law_jitter_threshold(s: Snapshot, m: nat)
    ensures
        is_jittery(s) <==> (s.jitter matches Some(j) && j.count > 0 && j.dev > 900_000_000 * (
        j.count as int) * (j.count as int)),
        m > 0 && (s.jitter matches Some(j) && j.dev * m * m <= u128::MAX && j.count * m
            <= u64::MAX) ==> (is_jittery(s) <==> is_jittery(
            Snapshot {
                jitter: Some(
                    Spread {
                        dev: (s.jitter->Some_0.dev * m * m) as u128,
                        count: (s.jitter->Some_0.count * m) as u64,
                    },
                ),
                ..s
            },
        )),
{
    if let Some(j) = s.jitter {
        let c = j.count as int;
        let d = j.dev as int;
        assert((30000 * c) * (30000 * c) == 900_000_000 * c * c) by (nonlinear_arith);
        if m > 0 && j.dev * m * m <= u128::MAX && j.count * m <= u64::MAX {
            let mi = m as int;
            assert((30000 * (c * mi)) * (30000 * (c * mi)) == 900_000_000 * c * c * (mi * mi))
                by (nonlinear_arith);
            assert(d * mi * mi == d * (mi * mi)) by (nonlinear_arith);
            assert((d * (mi * mi) > 900_000_000 * c * c * (mi * mi)) <==> (d > 900_000_000 * c * c))
                by (nonlinear_arith)
                requires
                    mi > 0,
            ;
            assert((c * mi > 0) <==> (c > 0)) by (nonlinear_arith)
                requires
                    mi > 0,
                    c >= 0,
            ;
        }
    }
}

/// High jitter is reported only when no target is lossy.
pub proof fn law_jitter_only_without_loss(snaps: Seq<Snapshot>)
    requires
        !nothing_sent(snaps),
        snaps.len() > 0,
        forall|j: int| 0 <= j < snaps.len() ==> !is_lossy(#[trigger] snaps[j]),
        jittery_targets(snaps).len() > 0,
    ensures
        diagnosis(snaps) == "No significant packet loss detected, but high jitter on "@ + join(
            names(jittery_targets(snaps)),
            ", "@,
        )
            + ". That can still feel 'spotty' (voice/video breakup, stalls) even without hard drops - worth checking for congestion or bufferbloat."@,
{
    lemma_first_lossy(snaps, 0, snaps.len());
}

/// A run with data, no loss and no high jitter is reported clean.
pub proof fn law_clean_run(snaps: Seq<Snapshot>)
    requires
        !nothing_sent(snaps),
        snaps.len() > 0,
        forall|j: int| 0 <= j < snaps.len() ==> !is_lossy(#[trigger] snaps[j]),
        forall|j: int| 0 <= j < snaps.len() ==> !is_jittery(#[trigger] snaps[j]),
    ensures
        diagnosis(snaps) == "No significant packet loss or jitter detected during this run."@,
{
    lemma_first_lossy(snaps, 0, snaps.len());
    lemma_none_filtered(snaps);
}

proof fn lemma_none_filtered(snaps: Seq<Snapshot>)
    requires
        forall|j: int| 0 <= j < snaps.len() ==> !is_jittery(#[trigger] snaps[j]),
    ensures
        jittery_targets(snaps).len() == 0,
    decreases snaps.len(),
{
    reveal_with_fuel(Seq::<_>::filter, 1);
    if snaps.len() > 0 {
        let d = snaps.drop_last();
        assert forall|j: int| 0 <= j < d.len() implies !is_jittery(#[trigger] d[j]) by {
            assert(d[j] == snaps[j]);
        }
        lemma_none_filtered(d);
        assert(!is_jittery(snaps[snaps.len() - 1]));
    }
}

} // verus!
