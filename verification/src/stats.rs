//! Per-target ping statistics: a rolling window of recent samples for the
//! "recent loss" column plus session-wide totals for the final summary.
//!
//! Round-trip times are whole microseconds (`u32`, up to about 71 minutes);
//! every derived figure is kept exact: a loss share as a pair of counts, a
//! mean as a sum and a count, a standard deviation as the exact quantity
//! under its square root.
use vstd::prelude::*;
use std::collections::VecDeque;
use crate::numeric::{floor_sqrt, isqrt, lemma_root_exceeds, lemma_product_fits};
use crate::text::{round_half_even, round_half_even_exec, tenths_text, push_tenths};

verus! {

broadcast use vstd::std_specs::vecdeque::group_vec_dequeue_axioms;

/// A loss share `lost / total`, read as the percentage `100 * lost / total`
/// (0 when `total` is 0).
#[derive(Clone, Copy, Debug, PartialEq, Eq)]
pub struct Percent {
    pub lost: u64,
    pub total: u64,
}

/// A mean round-trip time: `sum / count` microseconds.
#[derive(Clone, Copy, Debug, PartialEq, Eq)]
pub struct Mean {
    pub sum: u128,
    pub count: u64,
}

/// A standard deviation: `sqrt(dev) / count` microseconds.
#[derive(Clone, Copy, Debug, PartialEq, Eq)]
pub struct Spread {
    pub dev: u128,
    pub count: u64,
}

impl Percent {
    /// The percentage is strictly above `limit` percent.
    pub open spec fn above(self, limit: nat) -> bool {
        self.total > 0 && 100 * self.lost > limit * self.total
    }

    /// The percentage in tenths of a percent, rounded half to even.
    pub open spec fn spec_tenths(self) -> nat {
        if self.total == 0 {
            0
        } else {
            round_half_even((1000 * self.lost) as nat, self.total as nat)
        }
    }

    /// The percentage with one decimal, as `{:.1}` prints it.
    pub open spec fn text(self) -> Seq<char> {
        tenths_text(self.spec_tenths())
    }

    /// Is the percentage strictly above `limit` percent?
    pub fn exceeds(&self, limit: u64) -> (r: bool)
        ensures
            r == self.above(limit as nat),
    {
        proof {
            lemma_product_fits(limit as nat, self.total as nat);
        }
        self.total > 0 && 100 * (self.lost as u128) > (limit as u128) * (self.total as u128)
    }

    /// The percentage in tenths of a percent, rounded half to even.
    pub fn tenths(&self) -> (r: u128)
        ensures
            r == self.spec_tenths(),
    {
        if self.total == 0 {
            0
        } else {
            round_half_even_exec(1000 * (self.lost as u128), self.total as u128)
        }
    }

    /// Appends the percentage with one decimal.
    pub fn push_text(&self, s: &mut String)
        ensures
            final(s)@ == old(s)@ + self.text(),
    {
        let t = self.tenths();
        push_tenths(s, t);
    }
}

impl Mean {
    /// The mean is strictly above `limit` microseconds.
    pub open spec fn above(self, limit: nat) -> bool {
        self.count > 0 && self.sum > limit * self.count
    }

    /// The mean in tenths of a millisecond, rounded half to even.
    pub open spec fn spec_tenths_ms(self) -> nat {
        if self.count == 0 {
            0
        } else {
            round_half_even(self.sum as nat, (100 * self.count) as nat)
        }
    }

    /// The mean in milliseconds with one decimal.
    pub open spec fn text(self) -> Seq<char> {
        tenths_text(self.spec_tenths_ms())
    }

    /// Is the mean strictly above `limit` microseconds?
    pub fn exceeds(&self, limit: u64) -> (r: bool)
        ensures
            r == self.above(limit as nat),
    {
        proof {
            lemma_product_fits(limit as nat, self.count as nat);
        }
        self.count > 0 && self.sum > (limit as u128) * (self.count as u128)
    }

    /// The mean in tenths of a millisecond, rounded half to even.
    pub fn tenths_ms(&self) -> (r: u128)
        ensures
            r == self.spec_tenths_ms(),
    {
        if self.count == 0 {
            0
        } else {
            round_half_even_exec(self.sum, 100 * (self.count as u128))
        }
    }

    /// Appends the mean in milliseconds with one decimal.
    pub fn push_text(&self, s: &mut String)
        ensures
            final(s)@ == old(s)@ + self.text(),
    {
        let t = self.tenths_ms();
        push_tenths(s, t);
    }
}

/// `sqrt(dev) / d` rounded to the nearest integer, ties to even.
pub open spec fn root_ratio_rounded(dev: nat, d: nat) -> nat
    recommends
        d > 0,
{
    let k = floor_sqrt(dev) / d;
    let edge = (2 * k + 1) * d;
    if 4 * dev > edge * edge {
        k + 1
    } else if 4 * dev < edge * edge {
        k
    } else if k % 2 == 0 {
        k
    } else {
        k + 1
    }
}

impl Spread {
    /// The deviation of a single value of `micros` microseconds (one
    /// sample whose square root is exactly `micros`).
    pub open spec fn of_micros(micros: nat) -> Spread {
        Spread { dev: (micros * micros) as u128, count: 1 }
    }

    /// The deviation is strictly above `limit` microseconds.
    pub open spec fn above(self, limit: nat) -> bool {
        self.count > 0 && self.dev > (limit * self.count) * (limit * self.count)
    }

    /// The deviation in tenths of a millisecond, rounded half to even.
    pub open spec fn spec_tenths_ms(self) -> nat {
        if self.count == 0 {
            0
        } else {
            root_ratio_rounded(self.dev as nat, (100 * self.count) as nat)
        }
    }

    /// The deviation in milliseconds with one decimal.
    pub open spec fn text(self) -> Seq<char> {
        tenths_text(self.spec_tenths_ms())
    }

    /// The spread of a single exact value in microseconds.
    pub fn from_micros(micros: u64) -> (r: Spread)
        ensures
            r == Spread::of_micros(micros as nat),
    {
        assert(micros * micros <= u64::MAX * u64::MAX) by (nonlinear_arith)
            requires
                micros <= u64::MAX,
        ;
        Spread { dev: (micros as u128) * (micros as u128), count: 1 }
    }

    /// Is the deviation strictly above `limit` microseconds?
    pub fn exceeds(&self, limit: u64) -> (r: bool)
        ensures
            r == self.above(limit as nat),
    {
        if self.count == 0 {
            return false;
        }
        proof {
            lemma_product_fits(limit as nat, self.count as nat);
        }
        let t = (limit as u128) * (self.count as u128);
        let s = isqrt(self.dev) as u128;
        proof {
            lemma_root_exceeds(self.dev as nat, s as nat, t as nat);
        }
        s > t || (s == t && self.dev > s * s)
    }

    /// The deviation in tenths of a millisecond, rounded half to even.
    pub fn tenths_ms(&self) -> (r: u128)
        ensures
            r == self.spec_tenths_ms(),
    {
        if self.count == 0 {
            return 0;
        }
        let d: u128 = 100 * (self.count as u128);
        let s = isqrt(self.dev) as u128;
        let k = s / d;
        assert(k * d <= s) by (nonlinear_arith)
            requires
                k == s / d,
                d > 0,
        ;
        assert(s < k * d + d) by (nonlinear_arith)
            requires
                k == s / d,
                d > 0,
        ;
        let edge = 2 * (k * d) + d;
        assert(edge == (2 * k + 1) * d) by (nonlinear_arith)
            requires
                edge == 2 * (k * d) + d,
        ;
        // Where `sqrt(dev)` lies against the half-way point `edge / 2`,
        // decided from the integer square root.
        proof {
            lemma_half_point(self.dev as nat, s as nat, edge as nat);
        }
        if 2 * s > edge {
            k + 1
        } else if 2 * s + 1 < edge {
            k
        } else if 2 * s == edge {
            if self.dev > s * s {
                k + 1
            } else if k % 2 == 0 {
                k
            } else {
                k + 1
            }
        } else {
            assert(s * s + s <= s * (s + 1)) by (nonlinear_arith);
            assert(s * (s + 1) < 0x1_0000_0000_0000_0000_0000_0000_0000_0000) by (nonlinear_arith)
                requires
                    s < 0x1_0000_0000_0000_0000,
            ;
            if self.dev > s * s + s {
                k + 1
            } else {
                k
            }
        }
    }

    /// Appends the deviation in milliseconds with one decimal.
    pub fn push_text(&self, s: &mut String)
        ensures
            final(s)@ == old(s)@ + self.text(),
    {
        let t = self.tenths_ms();
        push_tenths(s, t);
    }
}

/// Comparing `4 * n` with `e²` through the integer square root `s` of `n`.
proof fn lemma_half_point(n: nat, s: nat, e: nat)
    requires
        s * s <= n < (s + 1) * (s + 1),
    ensures
        2 * s > e ==> 4 * n > e * e,
        2 * s + 1 < e ==> 4 * n < e * e,
        2 * s == e ==> (4 * n > e * e <==> n > s * s) && !(4 * n < e * e),
        2 * s + 1 == e ==> (4 * n > e * e <==> n > s * s + s) && 4 * n != e * e,
{
    if 2 * s > e {
        assert(4 * n > e * e) by (nonlinear_arith)
            requires
                e < 2 * s,
                s * s <= n,
        ;
    }
    if 2 * s + 1 < e {
        assert(4 * n < e * e) by (nonlinear_arith)
            requires
                2 * s + 2 <= e,
                n < (s + 1) * (s + 1),
        ;
    }
    if 2 * s == e {
        assert((4 * n > e * e <==> n > s * s) && !(4 * n < e * e)) by (nonlinear_arith)
            requires
                2 * s == e,
                s * s <= n,
        ;
    }
    if 2 * s + 1 == e {
        assert((4 * n > e * e <==> n > s * s + s) && 4 * n != e * e) by (nonlinear_arith)
            requires
                2 * s + 1 == e,
        ;
    }
}

/// Number of lost samples (`None`) in a sample sequence.
pub open spec fn lost_count(h: Seq<Option<u32>>) -> nat
    decreases h.len(),
{
    if h.len() == 0 {
        0
    } else {
        lost_count(h.drop_last()) + if h.last() is None {
            1nat
        } else {
            0nat
        }
    }
}

/// The round-trip times of the received samples, in order.
pub open spec fn rtts_of(h: Seq<Option<u32>>) -> Seq<u32>
    decreases h.len(),
{
    if h.len() == 0 {
        seq![]
    } else {
        match h.last() {
            Some(v) => rtts_of(h.drop_last()).push(v),
            None => rtts_of(h.drop_last()),
        }
    }
}

/// The last `cap` samples (all of them when there are fewer).
pub open spec fn recent(h: Seq<Option<u32>>, cap: nat) -> Seq<Option<u32>> {
    if h.len() > cap {
        h.skip(h.len() - cap)
    } else {
        h
    }
}

/// Sum of a sequence of round-trip times.
pub open spec fn sum_of(s: Seq<u32>) -> nat
    decreases s.len(),
{
    if s.len() == 0 {
        0
    } else {
        sum_of(s.drop_last()) + s.last() as nat
    }
}

/// Sum of the squares of a sequence of round-trip times.
pub open spec fn sum_sq_of(s: Seq<u32>) -> nat
    decreases s.len(),
{
    if s.len() == 0 {
        0
    } else {
        sum_sq_of(s.drop_last()) + (s.last() as nat) * (s.last() as nat)
    }
}

/// `Σ (n·v − c)²` over the values `v` of `s`. With `n` the number of values
/// and `c` their sum this is `n³` times the population variance.
pub open spec fn scaled_sq_dev(s: Seq<u32>, n: int, c: int) -> int
    decreases s.len(),
{
    if s.len() == 0 {
        0
    } else {
        scaled_sq_dev(s.drop_last(), n, c) + (n * s.last() - c) * (n * s.last() - c)
    }
}

/// `Σ (n·v − c)² = n²·Σv² − 2·n·c·Σv + len·c²`.
pub proof fn lemma_scaled_sq_dev(s: Seq<u32>, n: int, c: int)
    ensures
        scaled_sq_dev(s, n, c) == n * n * sum_sq_of(s) - 2 * n * c * sum_of(s) + s.len() * c * c,
    decreases s.len(),
{
    if s.len() > 0 {
        let t = s.drop_last();
        let v = s.last() as int;
        lemma_scaled_sq_dev(t, n, c);
        let a = sum_sq_of(t) as int;
        let b = sum_of(t) as int;
        let m = t.len() as int;
        assert(scaled_sq_dev(s, n, c) == scaled_sq_dev(t, n, c) + (n * v - c) * (n * v - c));
        assert(sum_sq_of(s) == a + v * v);
        assert(sum_of(s) == b + v);
        assert(s.len() == m + 1);
        assert((n * n * a - 2 * n * c * b + m * c * c) + (n * v - c) * (n * v - c) == n * n * (a
            + v * v) - 2 * n * c * (b + v) + (m + 1) * c * c) by (nonlinear_arith);
    } else {
        assert(n * n * sum_sq_of(s) - 2 * n * c * sum_of(s) + s.len() * c * c == 0)
            by (nonlinear_arith)
            requires
                sum_sq_of(s) == 0,
                sum_of(s) == 0,
                s.len() == 0,
        ;
    }
}

/// With `n` values summing to `S` with squares summing to `Q`:
/// `Σ (n·v − S)² = n·(n·Q − S²)`, hence `n·Q ≥ S²`.
pub proof fn lemma_variance_identity(s: Seq<u32>)
    ensures
        scaled_sq_dev(s, s.len() as int, sum_of(s) as int) == s.len() * (s.len() * sum_sq_of(s)
            - sum_of(s) * sum_of(s)),
        s.len() * sum_sq_of(s) >= sum_of(s) * sum_of(s),
{
    let n = s.len() as int;
    let c = sum_of(s) as int;
    let q = sum_sq_of(s) as int;
    lemma_scaled_sq_dev(s, n, c);
    lemma_sq_dev_nonneg(s, n, c);
    assert(n * n * q - 2 * n * c * c + n * c * c == n * (n * q - c * c)) by (nonlinear_arith);
    if n > 0 {
        assert(n * q >= c * c) by (nonlinear_arith)
            requires
                n * (n * q - c * c) >= 0,
                n > 0,
        ;
    } else {
        assert(s.len() == 0);
    }
}

proof fn lemma_sq_dev_nonneg(s: Seq<u32>, n: int, c: int)
    ensures
        scaled_sq_dev(s, n, c) >= 0,
    decreases s.len(),
{
    if s.len() > 0 {
        lemma_sq_dev_nonneg(s.drop_last(), n, c);
        let x = n * s.last() - c;
        assert(x * x >= 0) by (nonlinear_arith);
    }
}

/// Ping results for one target.
///
/// Every figure is a function of the sequence of samples recorded so far
/// (`samples`, `None` for a lost ping) and the window capacity: the window
/// holds the last `capacity` samples, while the mean and the deviation
/// cover every received sample of the session, never only the window.
pub struct TargetStats {
    pub name: String,
    pub target: String,
    window: VecDeque<Option<u32>>,
    window_cap: usize,
    sent: u64,
    received: u64,
    rtts: Vec<u32>,
    last_rtt: Option<u32>,
    history: Ghost<Seq<Option<u32>>>,
}

impl TargetStats {
    /// Every sample recorded so far, oldest first.
    pub closed spec fn samples(&self) -> Seq<Option<u32>> {
        self.history@
    }

    /// The display name.
    pub closed spec fn name_text(&self) -> Seq<char> {
        self.name@
    }

    /// The address that is pinged.
    pub closed spec fn target_text(&self) -> Seq<char> {
        self.target@
    }

    /// The number of samples the rolling window keeps.
    pub closed spec fn capacity(&self) -> nat {
        self.window_cap as nat
    }

    /// The internal state agrees with the recorded samples.
    pub closed spec fn wf(&self) -> bool {
        &&& self.window_cap >= 1
        &&& self.sent == self.history@.len()
        &&& self.received == self.rtts@.len()
        &&& self.rtts@ == rtts_of(self.history@)
        &&& self.received + lost_count(self.history@) == self.sent
        &&& self.window@ == recent(self.history@, self.window_cap as nat)
        &&& self.last_rtt == (if self.history@.len() == 0 {
            None
        } else {
            self.history@.last()
        })
    }

    /// The samples currently in the rolling window.
    pub open spec fn window_samples(&self) -> Seq<Option<u32>> {
        recent(self.samples(), self.capacity())
    }

    /// Number of samples recorded.
    pub fn sent(&self) -> (r: u64)
        requires
            self.wf(),
        ensures
            r == self.samples().len(),
    {
        self.sent
    }

    /// Number of samples received (not lost).
    pub fn received(&self) -> (r: u64)
        requires
            self.wf(),
        ensures
            r == rtts_of(self.samples()).len(),
    {
        self.received
    }

    /// A copy of the display name.
    pub fn name_clone(&self) -> (r: String)
        ensures
            r@ == self.name_text(),
    {
        self.name.clone()
    }

    /// A copy of the pinged address.
    pub fn target_clone(&self) -> (r: String)
        ensures
            r@ == self.target_text(),
    {
        self.target.clone()
    }

    /// Starts an empty record; a capacity of 0 is raised to 1.
    pub fn new(name: String, target: String, window_cap: usize) -> (r: TargetStats)
        ensures
            r.wf(),
            r.name_text() == name@,
            r.target_text() == target@,
            r.samples() == Seq::<Option<u32>>::empty(),
            r.capacity() == if window_cap == 0 {
                1
            } else {
                window_cap as nat
            },
    {
        let cap = if window_cap == 0 {
            1
        } else {
            window_cap
        };
        let r = TargetStats {
            name,
            target,
            window: VecDeque::with_capacity(cap),
            window_cap: cap,
            sent: 0,
            received: 0,
            rtts: Vec::new(),
            last_rtt: None,
            history: Ghost(Seq::empty()),
        };
        assert(r.window@ =~= recent(r.history@, cap as nat));
        r
    }

    /// Records one ping result (`None` for a lost ping).
    pub fn record(&mut self, rtt: Option<u32>)
        requires
            old(self).wf(),
            old(self).samples().len() < u64::MAX,
        ensures
            final(self).wf(),
            final(self).samples() == old(self).samples().push(rtt),
            final(self).capacity() == old(self).capacity(),
            final(self).name_text() == old(self).name_text(),
            final(self).target_text() == old(self).target_text(),
    {
        let ghost h = self.history@;
        let ghost h2 = h.push(rtt);
        assert(h2.drop_last() =~= h);
        self.sent = self.sent + 1;
        self.window.push_back(rtt);
        if self.window.len() > self.window_cap {
            let _ = self.window.pop_front();
        }
        proof {
            let cap = self.window_cap as nat;
            if h2.len() > cap {
                assert(self.window@ =~= h2.skip(h2.len() - cap));
            } else {
                assert(self.window@ =~= h2);
            }
        }
        if let Some(v) = rtt {
            self.received = self.received + 1;
            self.rtts.push(v);
        }
        self.last_rtt = rtt;
        self.history = Ghost(h2);
    }

    /// Share of all samples of the session that were lost.
    pub fn loss_pct_session(&self) -> (r: Percent)
        requires
            self.wf(),
        ensures
            r == (Percent {
                lost: lost_count(self.samples()) as u64,
                total: self.samples().len() as u64,
            }),
    {
        Percent { lost: self.sent - self.received, total: self.sent }
    }

    /// Share of the samples in the rolling window that were lost.
    pub fn loss_pct_window(&self) -> (r: Percent)
        requires
            self.wf(),
        ensures
            r == (Percent {
                lost: lost_count(self.window_samples()) as u64,
                total: self.window_samples().len() as u64,
            }),
    {
        let n = self.window.len();
        let ghost w = self.window@;
        let mut lost: u64 = 0;
        let mut i: usize = 0;
        while i < n
            invariant
                n == w.len(),
                w == self.window@,
                i <= n,
                lost == lost_count(w.take(i as int)),
                lost <= i,
            decreases n - i,
        {
            assert(w.take(i + 1).drop_last() =~= w.take(i as int));
            if self.window[i].is_none() {
                lost = lost + 1;
            }
            i = i + 1;
        }
        assert(w.take(n as int) =~= w);
        Percent { lost, total: n as u64 }
    }

    /// Mean round-trip time over every received sample of the session.
    pub fn avg_rtt(&self) -> (r: Option<Mean>)
        requires
            self.wf(),
        ensures
            r == (if rtts_of(self.samples()).len() == 0 {
                None
            } else {
                Some(
                    Mean {
                        sum: sum_of(rtts_of(self.samples())) as u128,
                        count: rtts_of(self.samples()).len() as u64,
                    },
                )
            }),
    {
        if self.rtts.len() == 0 {
            return None;
        }
        let (sum, _) = self.sums();
        Some(Mean { sum, count: self.rtts.len() as u64 })
    }

    /// Sum and sum of squares of the session's round-trip times.
    fn sums(&self) -> (r: (u128, u128))
        requires
            self.wf(),
        ensures
            r.0 == sum_of(self.rtts@),
            r.1 == sum_sq_of(self.rtts@),
            sum_of(self.rtts@) <= self.rtts@.len() * u32::MAX,
            sum_sq_of(self.rtts@) <= self.rtts@.len() * (u32::MAX * u32::MAX),
    {
        let n = self.rtts.len();
        let ghost s = self.rtts@;
        assert(n <= u64::MAX) by {
            assert(self.received == n);
        }
        let mut sum: u128 = 0;
        let mut sq: u128 = 0;
        let mut i: usize = 0;
        while i < n
            invariant
                n == s.len(),
                s == self.rtts@,
                n <= u64::MAX,
                i <= n,
                sum == sum_of(s.take(i as int)),
                sq == sum_sq_of(s.take(i as int)),
                sum <= i * u32::MAX,
                sq <= i * (u32::MAX * u32::MAX),
            decreases n - i,
        {
            assert(s.take(i + 1).drop_last() =~= s.take(i as int));
            let v = self.rtts[i] as u128;
            assert(v * v <= u32::MAX * u32::MAX) by (nonlinear_arith)
                requires
                    v <= u32::MAX,
            ;
            assert((i + 1) * (u32::MAX * u32::MAX) == i * (u32::MAX * u32::MAX) + u32::MAX
                * u32::MAX) by (nonlinear_arith);
            assert((i + 1) * (u32::MAX * u32::MAX) <= u64::MAX * (u32::MAX * u32::MAX))
                by (nonlinear_arith)
                requires
                    i + 1 <= u64::MAX,
            ;
            sum = sum + v;
            sq = sq + v * v;
            i = i + 1;
        }
        assert(s.take(n as int) =~= s);
        (sum, sq)
    }

    /// Population standard deviation of every received round-trip time of
    /// the session; `None` unless more than one sample was received.
    ///
    /// For `n` samples the result's `dev` satisfies
    /// `n · dev = Σ (n·v − Σv)²`, i.e. `dev / n²` is the population variance
    /// and `sqrt(dev) / n` the standard deviation.
    ///
    /// `dev` is kept exactly in 128 bits. It is the sum over all pairs of
    /// samples of their squared difference, which can reach `n² / 4` times
    /// the square of the largest round-trip time, so 128 bits hold it
    /// for at most `u32::MAX` received samples whatever the times are (136
    /// years of one ping a second; a session keeps every time, so that is
    /// also 16 GiB of them).
    pub fn jitter(&self) -> (r: Option<Spread>)
        requires
            self.wf(),
            rtts_of(self.samples()).len() <= u32::MAX,
        ensures
            r is None <==> rtts_of(self.samples()).len() <= 1,
            r matches Some(sp) ==> {
                let s = rtts_of(self.samples());
                &&& sp.count == s.len()
                &&& sp.count * sp.dev == scaled_sq_dev(s, s.len() as int, sum_of(s) as int)
            },
    {
        let n = self.rtts.len();
        if n <= 1 {
            return None;
        }
        let (sum, sq) = self.sums();
        let ghost s = self.rtts@;
        proof {
            lemma_variance_identity(s);
            assert(n * sq <= n * (n * (u32::MAX * u32::MAX))) by (nonlinear_arith)
                requires
                    sq <= n * (u32::MAX * u32::MAX),
            ;
            assert(n * (n * (u32::MAX * u32::MAX)) <= u32::MAX * (u32::MAX * (u32::MAX
                * u32::MAX))) by (nonlinear_arith)
                requires
                    n <= u32::MAX,
            ;
            assert(sum * sum <= n * sq);
        }
        let dev = (n as u128) * sq - sum * sum;
        Some(Spread { dev, count: n as u64 })
    }
}

/// A point-in-time copy of one target's figures, as the display and the
/// final report read them.
#[derive(Clone, Debug)]
pub struct Snapshot {
    pub name: String,
    pub target: String,
    pub sent: u64,
    pub last_rtt: Option<u32>,
    pub avg_rtt: Option<Mean>,
    pub jitter: Option<Spread>,
    pub loss_pct_session: Percent,
    pub loss_pct_window: Percent,
    pub window: VecDeque<Option<u32>>,
}

impl Snapshot {
    /// This snapshot gives the current figures of `t`: its name and
    /// address, the samples sent, the last result, the window, both loss
    /// shares, the session mean and (with more than one received sample)
    /// the session deviation.
    pub open spec fn describes(self, t: TargetStats) -> bool {
        let h = t.samples();
        let s = rtts_of(h);
        &&& self.name@ == t.name_text()
        &&& self.target@ == t.target_text()
        &&& self.sent == h.len()
        &&& self.last_rtt == (if h.len() == 0 {
            None
        } else {
            h.last()
        })
        &&& self.window@ == t.window_samples()
        &&& self.loss_pct_session == (Percent { lost: lost_count(h) as u64, total: h.len() as u64 })
        &&& self.loss_pct_window == (Percent {
            lost: lost_count(t.window_samples()) as u64,
            total: t.window_samples().len() as u64,
        })
        &&& self.avg_rtt == (if s.len() == 0 {
            None
        } else {
            Some(Mean { sum: sum_of(s) as u128, count: s.len() as u64 })
        })
        &&& (self.jitter is None <==> s.len() <= 1)
        &&& (self.jitter matches Some(sp) ==> {
            &&& sp.count == s.len()
            &&& sp.count * sp.dev == scaled_sq_dev(s, s.len() as int, sum_of(s) as int)
        })
    }
}

impl TargetStats {
    /// The current figures (with at most `u32::MAX` received samples, the
    /// range in which the deviation is exact; see `jitter`).
    pub fn snapshot(&self) -> (r: Snapshot)
        requires
            self.wf(),
            rtts_of(self.samples()).len() <= u32::MAX,
        ensures
            r.describes(*self),
    {
        let n = self.window.len();
        let mut window: VecDeque<Option<u32>> = VecDeque::new();
        let mut i: usize = 0;
        while i < n
            invariant
                n == self.window@.len(),
                i <= n,
                window@ == self.window@.take(i as int),
            decreases n - i,
        {
            window.push_back(self.window[i]);
            assert(self.window@.take(i + 1) =~= self.window@.take(i as int).push(self.window@[i as int]));
            i = i + 1;
        }
        assert(self.window@.take(n as int) =~= self.window@);
        Snapshot {
            name: self.name.clone(),
            target: self.target.clone(),
            sent: self.sent,
            last_rtt: self.last_rtt,
            avg_rtt: self.avg_rtt(),
            jitter: self.jitter(),
            loss_pct_session: self.loss_pct_session(),
            loss_pct_window: self.loss_pct_window(),
            window,
        }
    }
}

/// The rolling window is exactly the last `min(len, cap)` samples, in
/// order.
pub proof fn law_window_is_latest(h: Seq<Option<u32>>, cap: nat)
    ensures
        recent(h, cap).len() == if h.len() < cap {
            h.len()
        } else {
            cap
        },
        forall|i: int|
            0 <= i < recent(h, cap).len() ==> #[trigger] recent(h, cap)[i] == h[h.len() - recent(
                h,
                cap,
            ).len() + i],
{
}

/// Every sample is either lost or received.
pub proof fn law_lost_plus_received(h: Seq<Option<u32>>)
    ensures
        lost_count(h) + rtts_of(h).len() == h.len(),
    decreases h.len(),
{
    if h.len() > 0 {
        law_lost_plus_received(h.drop_last());
    }
}

/// Losses in the window are a part of the losses of the session.
pub proof fn law_window_loss_within_session(h: Seq<Option<u32>>, cap: nat)
    ensures
        lost_count(recent(h, cap)) <= lost_count(h),
        recent(h, cap).len() <= h.len(),
{
    if h.len() > cap {
        lemma_lost_count_suffix(h, h.len() - cap);
    }
}

proof fn lemma_lost_count_suffix(h: Seq<Option<u32>>, k: int)
    requires
        0 <= k <= h.len(),
    ensures
        lost_count(h.skip(k)) <= lost_count(h),
    decreases h.len(),
{
    if k < h.len() {
        lemma_lost_count_suffix(h.drop_last(), k);
        assert(h.skip(k).drop_last() =~= h.drop_last().skip(k));
        assert(h.skip(k).last() == h.last());
    } else {
        assert(h.skip(k) =~= Seq::<Option<u32>>::empty());
    }
}

/// Round-trip times that are all equal have no deviation.
pub proof fn law_constant_rtts_no_spread(s: Seq<u32>)
    requires
        forall|i: int, j: int| 0 <= i < s.len() && 0 <= j < s.len() ==> s[i] == s[j],
    ensures
        scaled_sq_dev(s, s.len() as int, sum_of(s) as int) == 0,
{
    if s.len() > 0 {
        lemma_sum_constant(s, s[0]);
        lemma_sq_dev_constant(s, s.len() as int, s.len() * s[0], s[0]);
    }
}

proof fn lemma_sum_constant(s: Seq<u32>, v: u32)
    requires
        forall|i: int| 0 <= i < s.len() ==> s[i] == v,
    ensures
        sum_of(s) == s.len() * v,
    decreases s.len(),
{
    if s.len() > 0 {
        lemma_sum_constant(s.drop_last(), v);
        assert((s.len() - 1) * v + v == s.len() * v) by (nonlinear_arith);
    }
}

proof fn lemma_sq_dev_constant(s: Seq<u32>, n: int, c: int, v: u32)
    requires
        forall|i: int| 0 <= i < s.len() ==> s[i] == v,
        c == n * v,
    ensures
        scaled_sq_dev(s, n, c) == 0,
    decreases s.len(),
{
    if s.len() > 0 {
        lemma_sq_dev_constant(s.drop_last(), n, c, v);
        assert(n * s.last() - c == 0);
    }
}

/// Recording a sample keeps every earlier sample and appends the new one:
/// the window then ends with it, and the session counts grow by one.
pub proof fn law_record_appends(h: Seq<Option<u32>>, cap: nat, x: Option<u32>)
    requires
        cap >= 1,
    ensures
        recent(h.push(x), cap).last() == x,
        lost_count(h.push(x)) == lost_count(h) + if x is None {
            1nat
        } else {
            0nat
        },
        rtts_of(h.push(x)) == match x {
            Some(v) => rtts_of(h).push(v),
            None => rtts_of(h),
        },
{
    assert(h.push(x).drop_last() =~= h);
}

/// A snapshot taken right after `record(r)` on a record that held the
/// samples `h`: `h.len() + 1` samples sent, `r` as the last result and as
/// the newest entry of the window, the window the last
/// `min(h.len() + 1, capacity)` samples, one more loss in the session share
/// if `r` was lost, and, if `r` was received, its time added to the mean;
/// name and address unchanged.
pub proof fn law_snapshot_after_record(
    before: TargetStats,
    after: TargetStats,
    r: Option<u32>,
    snap: Snapshot,
)
    requires
        before.wf(),
        after.samples() == before.samples().push(r),
        after.capacity() == before.capacity(),
        after.name_text() == before.name_text(),
        after.target_text() == before.target_text(),
        snap.describes(after),
    ensures
        snap.sent == before.samples().len() + 1,
        snap.last_rtt == r,
        snap.window@.len() == if before.samples().len() + 1 < before.capacity() {
            before.samples().len() + 1
        } else {
            before.capacity()
        },
        snap.window@.last() == r,
        snap.window@ == recent(before.samples().push(r), before.capacity()),
        snap.loss_pct_session == (Percent {
            lost: (lost_count(before.samples()) + if r is None {
                1nat
            } else {
                0nat
            }) as u64,
            total: (before.samples().len() + 1) as u64,
        }),
        r matches Some(v) ==> snap.avg_rtt == Some(
            Mean {
                sum: (sum_of(rtts_of(before.samples())) + v) as u128,
                count: (rtts_of(before.samples()).len() + 1) as u64,
            },
        ),
        r is None ==> snap.avg_rtt == (if rtts_of(before.samples()).len() == 0 {
            None
        } else {
            Some(
                Mean {
                    sum: sum_of(rtts_of(before.samples())) as u128,
                    count: rtts_of(before.samples()).len() as u64,
                },
            )
        }),
        snap.name@ == before.name_text(),
        snap.target@ == before.target_text(),
{
    let h = before.samples();
    let cap = before.capacity();
    law_record_appends(h, cap, r);
    law_window_is_latest(h.push(r), cap);
    match r {
        Some(v) => {
            assert(rtts_of(h.push(r)) == rtts_of(h).push(v));
            assert(rtts_of(h).push(v).drop_last() =~= rtts_of(h));
        },
        None => {},
    }
}

} // verus!
