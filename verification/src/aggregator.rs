//! The state behind the aggregator task: the one owner of every target's
//! statistics. The task itself (channels, the once-a-second tick) runs
//! outside the library and calls in here for every decision.
use vstd::prelude::*;
use crate::stats::{Snapshot, TargetStats, rtts_of};
use crate::text::{digit_char, digit_to_char, nat_text, push_char, push_decimal};

verus! {

/// One ping result from a ping task: the index of its target and the
/// round-trip time in microseconds (`None` if lost).
#[derive(Clone, Copy, Debug, PartialEq, Eq)]
pub struct PingSample {
    pub idx: usize,
    pub rtt: Option<u32>,
}

/// What the log gets for one recorded sample (the time stamp is added by
/// the caller, who reads the clock).
pub struct LogRecord {
    pub target: String,
    pub name: String,
    pub rtt: Option<u32>,
}

/// Every target's statistics, in target order.
pub struct StatsBoard {
    stats: Vec<TargetStats>,
}

impl StatsBoard {
    /// The statistics of target `i`.
    pub closed spec fn target(&self, i: int) -> TargetStats {
        self.stats@[i]
    }

    /// The number of targets.
    pub closed spec fn len(&self) -> nat {
        self.stats@.len()
    }

    /// Every target's recorded samples, in target order.
    pub open spec fn histories(&self) -> Seq<Seq<Option<u32>>> {
        Seq::new(self.len(), |i: int| self.target(i).samples())
    }

    /// Every target's display name and address, in target order.
    pub open spec fn labels(&self) -> Seq<(Seq<char>, Seq<char>)> {
        Seq::new(self.len(), |i: int| (self.target(i).name_text(), self.target(i).target_text()))
    }

    /// Every target's statistics are consistent.
    pub open spec fn wf(&self) -> bool {
        forall|i: int| 0 <= i < self.len() ==> (#[trigger] self.target(i)).wf()
    }

    /// The number of targets.
    pub fn count(&self) -> (r: usize)
        ensures
            r == self.len(),
    {
        self.stats.len()
    }

    /// The statistics of target `i`.
    pub fn get(&self, i: usize) -> (r: &TargetStats)
        requires
            i < self.len(),
        ensures
            *r == self.target(i as int),
    {
        &self.stats[i]
    }

    /// Takes ownership of every target's statistics.
    pub fn new(stats: Vec<TargetStats>) -> (r: StatsBoard)
        requires
            forall|i: int| 0 <= i < stats@.len() ==> (#[trigger] stats@[i]).wf(),
        ensures
            r.wf(),
            r.len() == stats@.len(),
            forall|i: int| 0 <= i < stats@.len() ==> r.target(i) == stats@[i],
    {
        StatsBoard { stats }
    }

    /// Records one sample for its target; every other target is unchanged.
    /// Gives what the log records for it.
    pub fn record_sample(&mut self, sample: PingSample) -> (r: LogRecord)
        requires
            old(self).wf(),
            sample.idx < old(self).len(),
            old(self).target(sample.idx as int).samples().len() < u64::MAX,
        ensures
            final(self).wf(),
            final(self).len() == old(self).len(),
            final(self).target(sample.idx as int).samples() == old(self).target(
                sample.idx as int,
            ).samples().push(sample.rtt),
            final(self).target(sample.idx as int).capacity() == old(self).target(
                sample.idx as int,
            ).capacity(),
            final(self).target(sample.idx as int).name_text() == old(self).target(
                sample.idx as int,
            ).name_text(),
            final(self).target(sample.idx as int).target_text() == old(self).target(
                sample.idx as int,
            ).target_text(),
            forall|i: int|
                0 <= i < old(self).len() && i != sample.idx ==> final(self).target(i) == old(
                    self,
                ).target(i),
            r.target@ == old(self).target(sample.idx as int).target_text(),
            r.name@ == old(self).target(sample.idx as int).name_text(),
            r.rtt == sample.rtt,
            final(self).histories() == after_sample(old(self).histories(), sample),
            final(self).labels() == old(self).labels(),
            (r.target@, r.name@, r.rtt) == log_entry(old(self).labels(), sample),
    {
        let idx = sample.idx;
        let ghost before = self.stats@;
        let mut s = self.stats.remove(idx);
        assert(s == before[idx as int]);
        assert(s.wf());
        s.record(sample.rtt);
        let record = LogRecord { target: s.target_clone(), name: s.name_clone(), rtt: sample.rtt };
        let ghost updated = s;
        self.stats.insert(idx, s);
        assert(self.stats@ =~= before.update(idx as int, updated));
        assert forall|i: int| 0 <= i < self.len() implies (#[trigger] self.target(i)).wf() by {
            if i != idx {
                assert(old(self).target(i).wf());
                assert(self.stats@[i] == before[i]);
            } else {
                assert(self.stats@[i] == updated);
                assert(updated.wf());
            }
        }
        assert(self.histories() =~= after_sample(old(self).histories(), sample));
        assert(self.labels() =~= old(self).labels());
        record
    }

    /// The current figures of every target, in target order.
    pub fn snapshots(&self) -> (r: Vec<Snapshot>)
        requires
            self.wf(),
            forall|i: int|
                0 <= i < self.len() ==> rtts_of((#[trigger] self.target(i)).samples()).len()
                    <= u32::MAX,
        ensures
            r@.len() == self.len(),
            forall|i: int| 0 <= i < self.len() ==> (#[trigger] r@[i]).describes(self.target(i)),
    {
        let n = self.stats.len();
        let mut out: Vec<Snapshot> = Vec::new();
        let mut i: usize = 0;
        while i < n
            invariant
                i <= n,
                n == self.len(),
                self.wf(),
                forall|k: int|
                    0 <= k < self.len() ==> rtts_of((#[trigger] self.target(k)).samples()).len()
                        <= u32::MAX,
                out@.len() == i,
                forall|k: int| 0 <= k < i ==> (#[trigger] out@[k]).describes(self.target(k)),
            decreases n - i,
        {
            assert(self.target(i as int).wf());
            out.push(self.stats[i].snapshot());
            i = i + 1;
        }
        out
    }
}

/// The samples of every target after one more sample (a sample for an
/// unknown target changes nothing).
pub open spec fn after_sample(hs: Seq<Seq<Option<u32>>>, s: PingSample) -> Seq<Seq<Option<u32>>> {
    if s.idx < hs.len() {
        hs.update(s.idx as int, hs[s.idx as int].push(s.rtt))
    } else {
        hs
    }
}

/// The samples of every target after a whole run of samples, taken in
/// order.
pub open spec fn after_run(hs: Seq<Seq<Option<u32>>>, run: Seq<PingSample>) -> Seq<
    Seq<Option<u32>>,
>
    decreases run.len(),
{
    if run.len() == 0 {
        hs
    } else {
        after_sample(after_run(hs, run.drop_last()), run.last())
    }
}

/// The results that a run holds for target `i`, in order.
pub open spec fn samples_for(run: Seq<PingSample>, i: int) -> Seq<Option<u32>>
    decreases run.len(),
{
    if run.len() == 0 {
        seq![]
    } else if run.last().idx == i {
        samples_for(run.drop_last(), i).push(run.last().rtt)
    } else {
        samples_for(run.drop_last(), i)
    }
}

/// What the log gets for one sample: its target's address and name, and
/// its result.
pub open spec fn log_entry(labels: Seq<(Seq<char>, Seq<char>)>, s: PingSample) -> (
    Seq<char>,
    Seq<char>,
    Option<u32>,
) {
    (labels[s.idx as int].1, labels[s.idx as int].0, s.rtt)
}

/// What the log gets for a whole run: one entry per sample, in order.
pub open spec fn run_log(labels: Seq<(Seq<char>, Seq<char>)>, run: Seq<PingSample>) -> Seq<
    (Seq<char>, Seq<char>, Option<u32>),
> {
    run.map_values(|s: PingSample| log_entry(labels, s))
}

/// A run of samples, each recorded in turn with `record_sample`: one more
/// sample extends the run by that one step, every target ends with its
/// samples from before the run followed by the run's results for it, in
/// order, and the log of the run is one entry per sample, in order, with
/// the names and addresses (which the run never changes) of its target.
pub proof fn law_whole_run(
    hs: Seq<Seq<Option<u32>>>,
    labels: Seq<(Seq<char>, Seq<char>)>,
    run: Seq<PingSample>,
    next: PingSample,
)
    requires
        forall|k: int| 0 <= k < run.len() ==> (#[trigger] run[k]).idx < hs.len(),
    ensures
        after_run(hs, run.push(next)) == after_sample(after_run(hs, run), next),
        run_log(labels, run.push(next)) == run_log(labels, run).push(log_entry(labels, next)),
        after_run(hs, run).len() == hs.len(),
        forall|i: int| 0 <= i < hs.len() ==> #[trigger] after_run(hs, run)[i] == hs[i] + samples_for(run, i),
    decreases run.len(),
{
    assert(run.push(next).drop_last() =~= run);
    assert(run_log(labels, run.push(next)) =~= run_log(labels, run).push(log_entry(labels, next)));
    if run.len() == 0 {
        assert forall|i: int| 0 <= i < hs.len() implies #[trigger] after_run(hs, run)[i] == hs[i]
            + samples_for(run, i) by {
            assert(hs[i] + seq![] =~= hs[i]);
        }
    } else {
        let prev = run.drop_last();
        assert forall|k: int| 0 <= k < prev.len() implies (#[trigger] prev[k]).idx < hs.len() by {
            assert(prev[k] == run[k]);
        }
        law_whole_run(hs, labels, prev, run.last());
        assert(run.last() == run[run.len() - 1]);
        assert forall|i: int| 0 <= i < hs.len() implies #[trigger] after_run(hs, run)[i] == hs[i]
            + samples_for(run, i) by {
            if run.last().idx == i {
                assert(hs[i] + samples_for(prev, i).push(run.last().rtt) =~= (hs[i] + samples_for(
                    prev,
                    i,
                )).push(run.last().rtt));
            }
        }
    }
}

/// A round-trip time in milliseconds, as the log writes it: the shortest
/// decimal, without trailing zeros or a trailing point ("13.5", "13",
/// "0.045").
pub open spec fn ms_text(us: nat) -> Seq<char> {
    let f = us % 1000;
    let d1 = f / 100;
    let d2 = (f / 10) % 10;
    let d3 = f % 10;
    nat_text(us / 1000) + if d3 != 0 {
        seq!['.', digit_char(d1), digit_char(d2), digit_char(d3)]
    } else if d2 != 0 {
        seq!['.', digit_char(d1), digit_char(d2)]
    } else if d1 != 0 {
        seq!['.', digit_char(d1)]
    } else {
        seq![]
    }
}

/// The log's round-trip field: the time in milliseconds, or empty for a
/// lost ping.
pub open spec fn rtt_field_text(rtt: Option<u32>) -> Seq<char> {
    match rtt {
        Some(us) => ms_text(us as nat),
        None => seq![],
    }
}

/// The log's round-trip field.
pub fn rtt_field(rtt: Option<u32>) -> (r: String)
    ensures
        r@ == rtt_field_text(rtt),
{
    let mut s = String::new();
    match rtt {
        None => {},
        Some(us) => {
            push_decimal(&mut s, (us / 1000) as u128);
            let f = us % 1000;
            let d1 = (f / 100) as u8;
            let d2 = ((f / 10) % 10) as u8;
            let d3 = (f % 10) as u8;
            if d3 != 0 {
                push_char(&mut s, '.');
                push_char(&mut s, digit_to_char(d1));
                push_char(&mut s, digit_to_char(d2));
                push_char(&mut s, digit_to_char(d3));
            } else if d2 != 0 {
                push_char(&mut s, '.');
                push_char(&mut s, digit_to_char(d1));
                push_char(&mut s, digit_to_char(d2));
            } else if d1 != 0 {
                push_char(&mut s, '.');
                push_char(&mut s, digit_to_char(d1));
            }
        },
    }
    assert(s@ =~= rtt_field_text(rtt));
    s
}

} // verus!
