//! Display helpers shared by the plain-text and the live dashboard views.
//! The thresholds here are the loose "does it look bad at a glance" set,
//! deliberately separate from the stricter ones of the diagnosis.
use vstd::prelude::*;
use std::collections::VecDeque;
use crate::analyzer::{mean_or_dash, spread_or_dash};
use crate::stats::{Mean, Percent, Snapshot, Spread, rtts_of};
use crate::text::{
    pad_left, pad_right, push_char, push_left_aligned, push_right_aligned, push_str, push_tenths,
    round_half_even, round_half_even_exec, tenths_text,
};

verus! {

broadcast use vstd::std_specs::vecdeque::group_vec_dequeue_axioms;

/// Loss (percent) above which the loss cells turn yellow.
pub const LOSS_WARN: u64 = 0;
/// Loss (percent) above which the loss cells turn red.
pub const LOSS_BAD: u64 = 5;
/// Round-trip time (microseconds) above which latency cells turn yellow.
pub const LATENCY_WARN_US: u64 = 20_000;
/// Round-trip time (microseconds) above which latency cells turn red.
pub const LATENCY_BAD_US: u64 = 50_000;
/// Deviation (microseconds) above which the jitter cell turns yellow.
pub const JITTER_WARN_US: u64 = 10_000;
/// Deviation (microseconds) above which the jitter cell turns red.
pub const JITTER_BAD_US: u64 = 30_000;

/// The colour class of a cell.
#[derive(Debug, Clone, Copy, PartialEq, Eq)]
pub enum BucketColor {
    Dim,
    Good,
    Warn,
    Bad,
}

/// A figure to colour: a loss share (compared in percent) or a time
/// (compared in microseconds).
#[derive(Debug, Clone, Copy, PartialEq, Eq)]
pub enum Reading {
    Loss(Percent),
    Rtt(u32),
    Mean(Mean),
    Jitter(Spread),
}

/// The reading is strictly above `limit` (percent for a loss share,
/// microseconds otherwise).
pub open spec fn reading_above(r: Reading, limit: nat) -> bool {
    match r {
        Reading::Loss(p) => p.above(limit),
        Reading::Rtt(v) => v > limit,
        Reading::Mean(m) => m.above(limit),
        Reading::Jitter(s) => s.above(limit),
    }
}

/// Green / yellow / red against the warn and bad thresholds; dim when
/// there is no value.
pub open spec fn bucket(value: Option<Reading>, warn: nat, bad: nat) -> BucketColor {
    match value {
        None => BucketColor::Dim,
        Some(v) => if !reading_above(v, warn) {
            BucketColor::Good
        } else if !reading_above(v, bad) {
            BucketColor::Warn
        } else {
            BucketColor::Bad
        },
    }
}

fn reading_exceeds(r: &Reading, limit: u64) -> (b: bool)
    ensures
        b == reading_above(*r, limit as nat),
{
    match r {
        Reading::Loss(p) => p.exceeds(limit),
        Reading::Rtt(v) => (*v as u64) > limit,
        Reading::Mean(m) => m.exceeds(limit),
        Reading::Jitter(s) => s.exceeds(limit),
    }
}

/// The colour class of a value against warn and bad thresholds.
pub fn bucket_color(value: Option<Reading>, warn: u64, bad: u64) -> (r: BucketColor)
    ensures
        r == bucket(value, warn as nat, bad as nat),
{
    match value {
        None => BucketColor::Dim,
        Some(v) => {
            if !reading_exceeds(&v, warn) {
                BucketColor::Good
            } else if !reading_exceeds(&v, bad) {
                BucketColor::Warn
            } else {
                BucketColor::Bad
            }
        },
    }
}

/// The header of the plain-text table.
pub open spec fn header_text() -> Seq<char> {
    pad_right("Target"@, 20) + pad_left("Loss(win)"@, 10) + pad_left("Loss(all)"@, 10) + pad_left(
        "Last"@,
        8,
    ) + pad_left("Avg"@, 8) + pad_left("Jitter"@, 8) + "  History"@
}

/// The header of the plain-text table.
pub fn header_line() -> (r: String)
    ensures
        r@ == header_text(),
{
    let mut s = String::new();
    push_left_aligned(&mut s, "Target", 20);
    push_right_aligned(&mut s, "Loss(win)", 10);
    push_right_aligned(&mut s, "Loss(all)", 10);
    push_right_aligned(&mut s, "Last", 8);
    push_right_aligned(&mut s, "Avg", 8);
    push_right_aligned(&mut s, "Jitter", 8);
    push_str(&mut s, "  History");
    assert(s@ =~= header_text());
    s
}

/// The eight block characters of a sparkline, lowest first.
pub open spec fn spark_char(level: nat) -> char {
    (0x2581 + level) as char
}

fn spark_char_exec(level: u32) -> (c: char)
    requires
        level < 8,
    ensures
        c == spark_char(level as nat),
{
    match level {
        0 => '\u{2581}',
        1 => '\u{2582}',
        2 => '\u{2583}',
        3 => '\u{2584}',
        4 => '\u{2585}',
        5 => '\u{2586}',
        6 => '\u{2587}',
        _ => '\u{2588}',
    }
}

/// Smallest of a non-empty sequence.
pub open spec fn seq_min(s: Seq<u32>) -> nat
    decreases s.len(),
{
    if s.len() <= 1 {
        s[0] as nat
    } else if (s.last() as nat) < seq_min(s.drop_last()) {
        s.last() as nat
    } else {
        seq_min(s.drop_last())
    }
}

/// Largest of a non-empty sequence.
pub open spec fn seq_max(s: Seq<u32>) -> nat
    decreases s.len(),
{
    if s.len() <= 1 {
        s[0] as nat
    } else if (s.last() as nat) > seq_max(s.drop_last()) {
        s.last() as nat
    } else {
        seq_max(s.drop_last())
    }
}

/// The level (0 to 7) of `v` within `[lo, hi]`: `⌊7·(v − lo) / span⌋`
/// with `span = hi − lo` (1 when all values are equal), capped at 7.
pub open spec fn spark_level(v: nat, lo: nat, hi: nat) -> nat {
    let span = if hi == lo {
        1
    } else {
        (hi - lo) as nat
    };
    let l = ((7 * (v - lo)) as nat) / span;
    if l > 7 {
        7
    } else {
        l as nat
    }
}

/// Per sample of the window: its level within the window's own range of
/// received round-trip times, or `None` for a lost sample.
pub open spec fn spark_levels_of(w: Seq<Option<u32>>) -> Seq<Option<nat>> {
    let got = rtts_of(w);
    w.map_values(
        |o: Option<u32>|
            match o {
                None => None,
                Some(v) => Some(spark_level(v as nat, seq_min(got), seq_max(got))),
            },
    )
}

/// The sparkline of a window: one block per received sample, scaled to the
/// window's own range, and `lost` per lost sample; empty when no sample
/// of the window was received.
pub open spec fn sparkline_text(w: Seq<Option<u32>>, lost: char) -> Seq<char> {
    if rtts_of(w).len() == 0 {
        seq![]
    } else {
        spark_levels_of(w).map_values(
            |o: Option<nat>|
                match o {
                    None => lost,
                    Some(l) => spark_char(l),
                },
        )
    }
}

proof fn lemma_min_max_bounds(s: Seq<u32>)
    requires
        s.len() > 0,
    ensures
        forall|i: int| 0 <= i < s.len() ==> seq_min(s) <= #[trigger] s[i] <= seq_max(s),
        seq_min(s) <= seq_max(s),
    decreases s.len(),
{
    if s.len() > 1 {
        lemma_min_max_bounds(s.drop_last());
        assert forall|i: int| 0 <= i < s.len() implies seq_min(s) <= #[trigger] s[i] <= seq_max(
            s,
        ) by {
            if i < s.len() - 1 {
                assert(s.drop_last()[i] == s[i]);
            }
        }
    }
}

/// Every received value of a window is among its `rtts_of`.
proof fn lemma_rtts_of_contains(w: Seq<Option<u32>>, i: int)
    requires
        0 <= i < w.len(),
        w[i] is Some,
    ensures
        exists|j: int| 0 <= j < rtts_of(w).len() && rtts_of(w)[j] == w[i]->Some_0,
    decreases w.len(),
{
    if i < w.len() - 1 {
        lemma_rtts_of_contains(w.drop_last(), i);
        let j = choose|j: int| 0 <= j < rtts_of(w.drop_last()).len() && rtts_of(w.drop_last())[j]
            == w.drop_last()[i]->Some_0;
        assert(rtts_of(w)[j] == rtts_of(w.drop_last())[j]);
    } else {
        assert(rtts_of(w)[rtts_of(w).len() - 1] == w[i]->Some_0);
    }
}

/// Min and max of the received samples of a window.
fn window_range(w: &VecDeque<Option<u32>>) -> (r: Option<(u32, u32)>)
    ensures
        match r {
            None => rtts_of(w@).len() == 0,
            Some((lo, hi)) => rtts_of(w@).len() > 0 && lo == seq_min(rtts_of(w@)) && hi == seq_max(
                rtts_of(w@),
            ),
        },
{
    let n = w.len();
    let mut range: Option<(u32, u32)> = None;
    let mut i: usize = 0;
    while i < n
        invariant
            i <= n,
            n == w@.len(),
            match range {
                None => rtts_of(w@.take(i as int)).len() == 0,
                Some((lo, hi)) => rtts_of(w@.take(i as int)).len() > 0 && lo == seq_min(
                    rtts_of(w@.take(i as int)),
                ) && hi == seq_max(rtts_of(w@.take(i as int))),
            },
        decreases n - i,
    {
        assert(w@.take(i + 1).drop_last() =~= w@.take(i as int));
        match w[i] {
            Some(v) => {
                let ghost prev = rtts_of(w@.take(i as int));
                assert(rtts_of(w@.take(i + 1)) == prev.push(v));
                assert(prev.push(v).drop_last() =~= prev);
                range = match range {
                    None => Some((v, v)),
                    Some((lo, hi)) => Some(
                        (
                            if v < lo {
                                v
                            } else {
                                lo
                            },
                            if v > hi {
                                v
                            } else {
                                hi
                            },
                        ),
                    ),
                };
            },
            None => {
                assert(rtts_of(w@.take(i + 1)) == rtts_of(w@.take(i as int)));
            },
        }
        i = i + 1;
    }
    assert(w@.take(n as int) =~= w@);
    range
}

fn level_of(v: u32, lo: u32, hi: u32) -> (r: u32)
    requires
        lo <= v <= hi,
    ensures
        r == spark_level(v as nat, lo as nat, hi as nat),
        r < 8,
{
    let span: u64 = if hi == lo {
        1
    } else {
        (hi - lo) as u64
    };
    let x: u64 = 7 * ((v - lo) as u64);
    let l = x / span;
    assert(l <= x) by (nonlinear_arith)
        requires
            span >= 1,
            l == x / span,
    ;
    if l > 7 {
        7
    } else {
        l as u32
    }
}

/// The level of every sample of a window (`None` for a lost one).
pub fn spark_levels(w: &VecDeque<Option<u32>>) -> (r: Vec<Option<u32>>)
    ensures
        r@.len() == w@.len(),
        forall|i: int|
            0 <= i < w@.len() ==> match #[trigger] r@[i] {
                Some(l) => spark_levels_of(w@)[i] == Some(l as nat),
                None => spark_levels_of(w@)[i] is None,
            },
{
    let n = w.len();
    let range = window_range(w);
    let mut out: Vec<Option<u32>> = Vec::new();
    let mut i: usize = 0;
    while i < n
        invariant
            i <= n,
            n == w@.len(),
            out@.len() == i,
            match range {
                None => rtts_of(w@).len() == 0,
                Some((lo, hi)) => rtts_of(w@).len() > 0 && lo == seq_min(rtts_of(w@)) && hi
                    == seq_max(rtts_of(w@)),
            },
            forall|k: int|
                0 <= k < i ==> match #[trigger] out@[k] {
                    Some(l) => spark_levels_of(w@)[k] == Some(l as nat),
                    None => spark_levels_of(w@)[k] is None,
                },
        decreases n - i,
    {
        match w[i] {
            None => out.push(None),
            Some(v) => {
                proof {
                    lemma_rtts_of_contains(w@, i as int);
                }
                let (lo, hi) = match range {
                    Some(x) => x,
                    None => {
                        assert(false);
                        (0, 0)
                    },
                };
                proof {
                    lemma_min_max_bounds(rtts_of(w@));
                }
                out.push(Some(level_of(v, lo, hi)));
            },
        }
        i = i + 1;
    }
    out
}

/// The sparkline of a window, with `lost` for each lost sample.
pub fn sparkline(values: &VecDeque<Option<u32>>, lost_char: char) -> (r: String)
    ensures
        r@ == sparkline_text(values@, lost_char),
{
    let levels = spark_levels(values);
    let n = levels.len();
    let mut s = String::new();
    let mut any = false;
    let mut i: usize = 0;
    while i < n
        invariant
            i <= n,
            n == values@.len(),
            n == levels@.len(),
            any == (exists|k: int| 0 <= k < i && (#[trigger] levels@[k]) is Some),
        decreases n - i,
    {
        if levels[i].is_some() {
            any = true;
        }
        i = i + 1;
    }
    if !any {
        proof {
            if rtts_of(values@).len() > 0 {
                let k = lemma_some_index(values@);
                assert(levels@[k] is Some);
            }
        }
        return s;
    }
    proof {
        let k = choose|k: int| 0 <= k < i && (#[trigger] levels@[k]) is Some;
        assert(spark_levels_of(values@)[k] is Some);
        assert(values@[k] is Some);
        lemma_rtts_of_contains(values@, k);
    }
    let ghost target = sparkline_text(values@, lost_char);
    let mut i: usize = 0;
    while i < n
        invariant
            i <= n,
            n == values@.len(),
            n == levels@.len(),
            rtts_of(values@).len() > 0,
            target == sparkline_text(values@, lost_char),
            forall|k: int|
                0 <= k < n ==> match #[trigger] levels@[k] {
                    Some(l) => spark_levels_of(values@)[k] == Some(l as nat) && l < 8,
                    None => spark_levels_of(values@)[k] is None,
                },
            s@ == target.take(i as int),
        decreases n - i,
    {
        let c = match levels[i] {
            None => lost_char,
            Some(l) => spark_char_exec(l),
        };
        push_char(&mut s, c);
        assert(target.take(i + 1) =~= target.take(i as int).push(c));
        i = i + 1;
    }
    assert(target.take(n as int) =~= target);
    s
}

proof fn lemma_some_index(w: Seq<Option<u32>>) -> (k: int)
    requires
        rtts_of(w).len() > 0,
    ensures
        0 <= k < w.len(),
        w[k] is Some,
    decreases w.len(),
{
    if w.last() is Some {
        (w.len() - 1) as int
    } else {
        let k = lemma_some_index(w.drop_last());
        k
    }
}

/// Levels follow the values: a lower value never gets a higher level, the
/// lowest value gets level 0, and the highest gets level 7 when the values
/// differ.
proof fn lemma_spark_level_order(a: nat, b: nat, lo: nat, hi: nat)
    requires
        lo <= a <= b <= hi,
    ensures
        spark_level(a, lo, hi) <= spark_level(b, lo, hi),
        spark_level(a, lo, hi) <= 7,
        a == lo ==> spark_level(a, lo, hi) == 0,
        b == hi && hi > lo ==> spark_level(b, lo, hi) == 7,
{
    let span: int = if hi == lo {
        1
    } else {
        hi - lo
    };
    vstd::arithmetic::div_mod::lemma_div_is_ordered(7 * (a - lo), 7 * (b - lo), span);
    if hi > lo {
        vstd::arithmetic::div_mod::lemma_div_by_multiple(7, span);
    }
}

/// The sparkline of a window with at least one received sample has one
/// character per sample: `lost` for a lost one, otherwise the block of its
/// level. A smaller round-trip time is never drawn with a higher block;
/// the smallest is drawn with the lowest block and, when the times differ,
/// the largest with the highest. When `lost` is no block character, a
/// character is `lost` exactly where the sample was lost.
pub proof fn law_sparkline_order(w: Seq<Option<u32>>, lost: char)
    requires
        rtts_of(w).len() > 0,
    ensures
        sparkline_text(w, lost).len() == w.len(),
        forall|i: int|
            0 <= i < w.len() ==> (w[i] is None ==> #[trigger] sparkline_text(w, lost)[i] == lost),
        forall|i: int|
            0 <= i < w.len() && w[i] is Some ==> {
                &&& spark_levels_of(w)[i] is Some
                &&& spark_levels_of(w)[i]->Some_0 <= 7
                &&& #[trigger] sparkline_text(w, lost)[i] == spark_char(spark_levels_of(w)[i]->Some_0)
            },
        forall|i: int, j: int|
            0 <= i < w.len() && 0 <= j < w.len() && w[i] is Some && w[j] is Some && w[i]->Some_0
                <= w[j]->Some_0 ==> #[trigger] spark_levels_of(w)[i]->Some_0
                <= #[trigger] spark_levels_of(w)[j]->Some_0,
        forall|i: int|
            0 <= i < w.len() && w[i] is Some && w[i]->Some_0 == seq_min(rtts_of(w))
                ==> #[trigger] spark_levels_of(w)[i] == Some(0nat),
        forall|i: int|
            0 <= i < w.len() && w[i] is Some && w[i]->Some_0 == seq_max(rtts_of(w)) && seq_max(
                rtts_of(w),
            ) > seq_min(rtts_of(w)) ==> #[trigger] spark_levels_of(w)[i] == Some(7nat),
        (forall|l: nat| l <= 7 ==> spark_char(l) != lost) ==> forall|i: int|
            0 <= i < w.len() ==> (#[trigger] sparkline_text(w, lost)[i] == lost <==> w[i] is None),
{
    let got = rtts_of(w);
    let lo = seq_min(got);
    let hi = seq_max(got);
    lemma_min_max_bounds(got);
    assert forall|i: int| 0 <= i < w.len() && w[i] is Some implies lo <= w[i]->Some_0 <= hi by {
        lemma_rtts_of_contains(w, i);
        let j = choose|j: int| 0 <= j < got.len() && got[j] == w[i]->Some_0;
        assert(lo <= got[j] <= hi);
    }
    assert forall|i: int| 0 <= i < w.len() && w[i] is Some implies spark_levels_of(w)[i]->Some_0
        <= 7 && (w[i]->Some_0 == lo ==> spark_levels_of(w)[i] == Some(0nat)) && (w[i]->Some_0 == hi
        && hi > lo ==> spark_levels_of(w)[i] == Some(7nat)) by {
        let v = w[i]->Some_0 as nat;
        lemma_spark_level_order(v, v, lo, hi);
    }
    assert forall|i: int, j: int|
        0 <= i < w.len() && 0 <= j < w.len() && w[i] is Some && w[j] is Some && w[i]->Some_0
            <= w[j]->Some_0 implies #[trigger] spark_levels_of(w)[i]->Some_0
        <= #[trigger] spark_levels_of(w)[j]->Some_0 by {
        lemma_spark_level_order(w[i]->Some_0 as nat, w[j]->Some_0 as nat, lo, hi);
    }
}

/// A round-trip time in milliseconds with one decimal, or "loss".
pub open spec fn last_or_loss(v: Option<u32>) -> Seq<char> {
    match v {
        Some(us) => tenths_text(round_half_even(us as nat, 100)),
        None => "loss"@,
    }
}

/// One row of the plain-text table.
pub open spec fn row_text(s: Snapshot) -> Seq<char> {
    pad_right(s.name@, 20) + pad_left(s.loss_pct_window.text(), 9) + "%"@ + pad_left(
        s.loss_pct_session.text(),
        9,
    ) + "%"@ + pad_left(last_or_loss(s.last_rtt), 8) + pad_left(mean_or_dash(s.avg_rtt), 8)
        + pad_left(spread_or_dash(s.jitter), 8) + "  "@ + sparkline_text(s.window@, 'x')
}

/// The row of `s` and the header split at the same character offsets: the
/// name column ends at 20, the two loss columns at 30 and 40 (each ending
/// in `%` in the row), the last, mean and jitter columns at 48, 56 and 64,
/// then two spaces, and from offset 66 the header has "History" where the
/// row has the sparkline.
pub open spec fn row_aligned(s: Snapshot) -> bool {
    &&& header_text().len() == 73
    &&& row_text(s).len() == 66 + sparkline_text(s.window@, 'x').len()
    &&& header_text().subrange(0, 20) == pad_right("Target"@, 20)
    &&& row_text(s).subrange(0, 20) == pad_right(s.name@, 20)
    &&& header_text().subrange(20, 30) == pad_left("Loss(win)"@, 10)
    &&& row_text(s).subrange(20, 30) == pad_left(s.loss_pct_window.text(), 9) + "%"@
    &&& row_text(s)[29] == '%'
    &&& header_text().subrange(30, 40) == pad_left("Loss(all)"@, 10)
    &&& row_text(s).subrange(30, 40) == pad_left(s.loss_pct_session.text(), 9) + "%"@
    &&& row_text(s)[39] == '%'
    &&& header_text().subrange(40, 48) == pad_left("Last"@, 8)
    &&& row_text(s).subrange(40, 48) == pad_left(last_or_loss(s.last_rtt), 8)
    &&& header_text().subrange(48, 56) == pad_left("Avg"@, 8)
    &&& row_text(s).subrange(48, 56) == pad_left(mean_or_dash(s.avg_rtt), 8)
    &&& header_text().subrange(56, 64) == pad_left("Jitter"@, 8)
    &&& row_text(s).subrange(56, 64) == pad_left(spread_or_dash(s.jitter), 8)
    &&& header_text().subrange(64, 66) == "  "@
    &&& row_text(s).subrange(64, 66) == "  "@
    &&& header_text().skip(66) == "History"@
    &&& row_text(s).skip(66) == sparkline_text(s.window@, 'x')
}

/// When every field text of a snapshot fits its column, its row lines up
/// with the header.
pub proof fn law_row_matches_header(s: Snapshot)
    requires
        s.name@.len() <= 20,
        s.loss_pct_window.text().len() <= 9,
        s.loss_pct_session.text().len() <= 9,
        last_or_loss(s.last_rtt).len() <= 8,
        mean_or_dash(s.avg_rtt).len() <= 8,
        spread_or_dash(s.jitter).len() <= 8,
    ensures
        row_aligned(s),
{
    reveal_strlit("Target");
    reveal_strlit("Loss(win)");
    reveal_strlit("Loss(all)");
    reveal_strlit("Last");
    reveal_strlit("Avg");
    reveal_strlit("Jitter");
    reveal_strlit("  History");
    reveal_strlit("History");
    reveal_strlit("  ");
    reveal_strlit("%");
    let h = [
        pad_right("Target"@, 20),
        pad_left("Loss(win)"@, 10),
        pad_left("Loss(all)"@, 10),
        pad_left("Last"@, 8),
        pad_left("Avg"@, 8),
        pad_left("Jitter"@, 8),
    ];
    let r = [
        pad_right(s.name@, 20),
        pad_left(s.loss_pct_window.text(), 9) + "%"@,
        pad_left(s.loss_pct_session.text(), 9) + "%"@,
        pad_left(last_or_loss(s.last_rtt), 8),
        pad_left(mean_or_dash(s.avg_rtt), 8),
        pad_left(spread_or_dash(s.jitter), 8),
    ];
    assert(h[0].len() == 20 && h[1].len() == 10 && h[2].len() == 10);
    assert(h[3].len() == 8 && h[4].len() == 8 && h[5].len() == 8);
    assert(r[0].len() == 20 && r[1].len() == 10 && r[2].len() == 10);
    assert(r[3].len() == 8 && r[4].len() == 8 && r[5].len() == 8);
    let spark = sparkline_text(s.window@, 'x');
    assert(header_text() =~= h[0] + h[1] + h[2] + h[3] + h[4] + h[5] + "  "@ + "History"@);
    assert(row_text(s) =~= r[0] + r[1] + r[2] + r[3] + r[4] + r[5] + "  "@ + spark);
    let ht = header_text();
    let rt = row_text(s);
    assert(ht.subrange(0, 20) =~= h[0]);
    assert(ht.subrange(20, 30) =~= h[1]);
    assert(ht.subrange(30, 40) =~= h[2]);
    assert(ht.subrange(40, 48) =~= h[3]);
    assert(ht.subrange(48, 56) =~= h[4]);
    assert(ht.subrange(56, 64) =~= h[5]);
    assert(ht.subrange(64, 66) =~= "  "@);
    assert(ht.skip(66) =~= "History"@);
    assert(rt.subrange(0, 20) =~= r[0]);
    assert(rt.subrange(20, 30) =~= r[1]);
    assert(rt.subrange(30, 40) =~= r[2]);
    assert(rt.subrange(40, 48) =~= r[3]);
    assert(rt.subrange(48, 56) =~= r[4]);
    assert(rt.subrange(56, 64) =~= r[5]);
    assert(rt.subrange(64, 66) =~= "  "@);
    assert(rt.skip(66) =~= spark);
    assert(rt[29] == r[1][9]);
    assert(rt[39] == r[2][9]);
}

/// A share of lost samples (never more lost than sent) is at most 100.0
/// percent: its text takes at most five characters.
proof fn lemma_percent_text_short(p: Percent)
    requires
        p.lost <= p.total,
    ensures
        p.spec_tenths() <= 1000,
        p.text().len() <= 5,
{
    if p.total > 0 {
        let num = (1000 * p.lost) as int;
        let den = p.total as int;
        vstd::arithmetic::div_mod::lemma_div_is_ordered(num, 1000 * den, den);
        vstd::arithmetic::div_mod::lemma_div_by_multiple(1000, den);
        vstd::arithmetic::div_mod::lemma_fundamental_div_mod(num, den);
        let q = num / den;
        let r = num % den;
        if q == 1000 {
            assert(r <= 0) by (nonlinear_arith)
                requires
                    num == den * q + r,
                    q == 1000,
                    num <= 1000 * den,
            ;
        }
    }
    reveal_with_fuel(crate::text::pow10, 4);
    assert(crate::text::pow10(3) == 1000);
    lemma_tenths_short(p.spec_tenths(), 3);
}

/// A one-decimal text of at most `10^k - 0.1` takes at most `k + 2`
/// characters.
proof fn lemma_tenths_short(t: nat, k: nat)
    requires
        k >= 1,
        t / 10 < crate::text::pow10(k),
    ensures
        tenths_text(t).len() <= k + 2,
{
    crate::text::lemma_nat_text_len(t / 10, k);
    crate::text::lemma_tenths_text(t);
}

/// When the name has at most 20 characters, no more samples are lost than
/// sent, and the last time, the mean and the deviation each show at most
/// 99999.9 ms, the row lines up with the header.
pub proof fn law_row_columns_from_values(s: Snapshot)
    requires
        s.name@.len() <= 20,
        s.loss_pct_window.lost <= s.loss_pct_window.total,
        s.loss_pct_session.lost <= s.loss_pct_session.total,
        s.last_rtt matches Some(us) ==> round_half_even(us as nat, 100) <= 999_999,
        s.avg_rtt matches Some(m) ==> m.spec_tenths_ms() <= 999_999,
        s.jitter matches Some(j) ==> j.spec_tenths_ms() <= 999_999,
    ensures
        row_aligned(s),
{
    reveal_with_fuel(crate::text::pow10, 6);
    reveal_strlit("loss");
    reveal_strlit("-");
    lemma_percent_text_short(s.loss_pct_window);
    lemma_percent_text_short(s.loss_pct_session);
    match s.last_rtt {
        Some(us) => lemma_tenths_short(round_half_even(us as nat, 100), 5),
        None => {},
    }
    match s.avg_rtt {
        Some(m) => lemma_tenths_short(m.spec_tenths_ms(), 5),
        None => {},
    }
    match s.jitter {
        Some(j) => lemma_tenths_short(j.spec_tenths_ms(), 5),
        None => {},
    }
    law_row_matches_header(s);
}

/// A round-trip time in milliseconds with one decimal.
pub fn push_rtt_ms(out: &mut String, us: u32)
    ensures
        final(out)@ == old(out)@ + tenths_text(round_half_even(us as nat, 100)),
{
    let t = round_half_even_exec(us as u128, 100);
    push_tenths(out, t);
}

fn push_cell(out: &mut String, cell: &String, width: usize)
    ensures
        final(out)@ == old(out)@ + pad_left(cell@, width as nat),
{
    push_right_aligned(out, cell.as_str(), width);
}

/// One row of the plain-text table.
pub fn format_row(s: &Snapshot) -> (r: String)
    ensures
        r@ == row_text(*s),
{
    let mut out = String::new();
    push_left_aligned(&mut out, s.name.as_str(), 20);
    let mut win = String::new();
    s.loss_pct_window.push_text(&mut win);
    assert(win@ =~= s.loss_pct_window.text());
    push_cell(&mut out, &win, 9);
    push_str(&mut out, "%");
    let mut all = String::new();
    s.loss_pct_session.push_text(&mut all);
    assert(all@ =~= s.loss_pct_session.text());
    push_cell(&mut out, &all, 9);
    push_str(&mut out, "%");
    let mut last = String::new();
    match s.last_rtt {
        Some(v) => push_rtt_ms(&mut last, v),
        None => push_str(&mut last, "loss"),
    }
    assert(last@ =~= last_or_loss(s.last_rtt));
    push_cell(&mut out, &last, 8);
    let mut avg = String::new();
    match &s.avg_rtt {
        Some(m) => m.push_text(&mut avg),
        None => push_str(&mut avg, "-"),
    }
    assert(avg@ =~= mean_or_dash(s.avg_rtt));
    push_cell(&mut out, &avg, 8);
    let mut jit = String::new();
    match &s.jitter {
        Some(j) => j.push_text(&mut jit),
        None => push_str(&mut jit, "-"),
    }
    assert(jit@ =~= spread_or_dash(s.jitter));
    push_cell(&mut out, &jit, 8);
    push_str(&mut out, "  ");
    let spark = sparkline(&s.window, 'x');
    push_str(&mut out, spark.as_str());
    assert(out@ =~= row_text(*s));
    out
}

/// The colour of a sparkline block in the dashboard's heat strip: green in
/// the lower third of the levels, yellow in the middle, red at the top
/// (level / 7 below 0.33, below 0.66, or above).
pub open spec fn heat(level: nat) -> BucketColor {
    if 100 * level < 33 * 7 {
        BucketColor::Good
    } else if 100 * level < 66 * 7 {
        BucketColor::Warn
    } else {
        BucketColor::Bad
    }
}

/// The colour of a sparkline block of the given level.
pub fn heat_color(level: u32) -> (r: BucketColor)
    requires
        level < 8,
    ensures
        r == heat(level as nat),
{
    if 100 * level < 231 {
        BucketColor::Good
    } else if 100 * level < 462 {
        BucketColor::Warn
    } else {
        BucketColor::Bad
    }
}

/// Total pings sent to all targets.
pub open spec fn total_sent(snaps: Seq<Snapshot>) -> nat
    decreases snaps.len(),
{
    if snaps.len() == 0 {
        0
    } else {
        total_sent(snaps.drop_last()) + snaps.last().sent as nat
    }
}

/// Targets that were pinged and whose last ping was lost.
pub open spec fn down_count(snaps: Seq<Snapshot>) -> nat
    decreases snaps.len(),
{
    if snaps.len() == 0 {
        0
    } else {
        down_count(snaps.drop_last()) + if snaps.last().last_rtt is None && snaps.last().sent > 0 {
            1nat
        } else {
            0nat
        }
    }
}

/// The total of pings sent and the number of targets that are down.
pub fn status_counts(snapshots: &[Snapshot]) -> (r: (u128, usize))
    ensures
        r.0 == total_sent(snapshots@),
        r.1 == down_count(snapshots@),
{
    let n = snapshots.len();
    let ghost snaps = snapshots@;
    let mut sent: u128 = 0;
    let mut down: usize = 0;
    let mut i: usize = 0;
    while i < n
        invariant
            i <= n,
            n == snaps.len(),
            snaps == snapshots@,
            sent == total_sent(snaps.take(i as int)),
            sent <= i * u64::MAX,
            down == down_count(snaps.take(i as int)),
            down <= i,
        decreases n - i,
    {
        assert(snaps.take(i + 1).drop_last() =~= snaps.take(i as int));
        assert(i * u64::MAX + u64::MAX <= (n as int) * u64::MAX) by (nonlinear_arith)
            requires
                i < n,
        ;
        assert((n as int) * u64::MAX <= usize::MAX * u64::MAX) by (nonlinear_arith)
            requires
                n <= usize::MAX,
        ;
        sent = sent + snapshots[i].sent as u128;
        if snapshots[i].last_rtt.is_none() && snapshots[i].sent > 0 {
            down = down + 1;
        }
        i = i + 1;
    }
    assert(snaps.take(n as int) =~= snaps);
    (sent, down)
}

/// The status word of the dashboard.
pub open spec fn status_label_text(down: nat) -> Seq<char> {
    if down == 0 {
        "ALL HOPS UP"@
    } else {
        crate::text::nat_text(down) + " HOP(S) DOWN"@
    }
}

/// "ALL HOPS UP", or "<n> HOP(S) DOWN".
pub fn status_label(down: usize) -> (r: String)
    ensures
        r@ == status_label_text(down as nat),
{
    let mut s = String::new();
    if down == 0 {
        push_str(&mut s, "ALL HOPS UP");
    } else {
        crate::text::push_decimal(&mut s, down as u128);
        push_str(&mut s, " HOP(S) DOWN");
    }
    assert(s@ =~= status_label_text(down as nat));
    s
}

/// A key of a key event.
#[derive(Debug, Clone, Copy, PartialEq, Eq)]
pub enum Key {
    Char(char),
    Esc,
    Other,
}

/// A key event: the key, whether Control was held, and whether it is a
/// press (as opposed to a release or a repeat).
#[derive(Debug, Clone, Copy, PartialEq, Eq)]
pub struct KeyPress {
    pub key: Key,
    pub ctrl: bool,
    pub press: bool,
}

/// The dashboard quits on a press of `q`, Esc, or Control-C.
pub open spec fn quits(event: Option<KeyPress>) -> bool {
    match event {
        Some(k) => k.press && (k.key == Key::Char('q') || k.key == Key::Esc || (k.key == Key::Char(
            'c',
        ) && k.ctrl)),
        None => false,
    }
}

/// Should this input event end the dashboard?
pub fn should_quit(event: Option<KeyPress>) -> (r: bool)
    ensures
        r == quits(event),
{
    match event {
        Some(k) => {
            if !k.press {
                return false;
            }
            match k.key {
                Key::Char(c) => c == 'q' || (c == 'c' && k.ctrl),
                Key::Esc => true,
                Key::Other => false,
            }
        },
        None => false,
    }
}

} // verus!
