//! Estimates of round-trip time and of packet loss.
//!
//! The round-trip time is an exponential moving average with smoothing
//! factor one tenth, kept in microseconds so that whole-number arithmetic
//! loses little. Packet loss is the share of lost packets among the packets
//! whose fate became known lately.

use std::collections::VecDeque;
use vstd::prelude::*;

verus! {

/// Microseconds in a millisecond.
pub const MICROS_PER_MILLI: u64 = 1000;

/// The largest estimate that is ever held, in microseconds.
pub const MAX_RTT_MICROS: u64 = 0xffff_ffff * 1000;

/// Number of packets whose fate the loss estimate looks back on.
pub const LOSS_WINDOW: usize = 256;

/// The estimate after a sample: a tenth of the way from the estimate before
/// towards the sample.
pub open spec fn smoothed(current: int, sample: int) -> int {
    if sample >= current {
        current + (sample - current) / 10
    } else {
        current - (current - sample) / 10
    }
}

/// The estimate after each of `samples` in turn, all in microseconds.
pub open spec fn smoothed_all(current: int, samples: Seq<int>) -> int
    decreases samples.len(),
{
    if samples.len() == 0 {
        current
    } else {
        smoothed(smoothed_all(current, samples.drop_last()), samples.last())
    }
}

/// Samples in milliseconds as microseconds.
pub open spec fn micros(samples: Seq<u32>) -> Seq<int> {
    samples.map_values(|s: u32| s * 1000)
}

/// Whether a connection counts as congested once its round-trip estimate
/// is `rtt` microseconds: it does above the threshold, does not below it,
/// and stays as it was at the threshold itself.
pub open spec fn congestion(was: bool, rtt: int, threshold: u32) -> bool {
    if millis_ceil(rtt) > threshold {
        true
    } else if millis_ceil(rtt) < threshold {
        false
    } else {
        was
    }
}

/// Whole milliseconds that cover `micros` microseconds.
pub open spec fn millis_ceil(micros: int) -> int {
    (micros + 999) / 1000
}

/// Time from `then` to `now`, zero where the clock stepped back.
pub open spec fn elapsed(now: u64, then: u64) -> u64 {
    if now >= then {
        (now - then) as u64
    } else {
        0
    }
}

/// The round-trip sample in milliseconds for a packet sent at `sent` and
/// acknowledged at `now`, less the delay that the caller's tick added, and
/// at most what 32 bits hold.
pub open spec fn rtt_sample(now: u64, sent: u64, tick_delay: u32) -> u32 {
    let raw = elapsed(now, sent);
    if raw <= tick_delay {
        0
    } else if raw - tick_delay > u32::MAX {
        u32::MAX
    } else {
        (raw - tick_delay) as u32
    }
}

pub fn time_since(now: u64, then: u64) -> (e: u64)
    ensures
        e == elapsed(now, then),
{
    if now >= then {
        now - then
    } else {
        0
    }
}

pub fn round_trip_sample(now: u64, sent: u64, tick_delay: u32) -> (sample: u32)
    ensures
        sample == rtt_sample(now, sent, tick_delay),
{
    let raw: u64 = time_since(now, sent);
    if raw <= tick_delay as u64 {
        0
    } else if raw - tick_delay as u64 > u32::MAX as u64 {
        u32::MAX
    } else {
        (raw - tick_delay as u64) as u32
    }
}

/// Smoothed round-trip time.
#[derive(Debug)]
pub struct RttEstimator {
    micros: u64,
}

impl View for RttEstimator {
    type V = int;

    /// The estimate in microseconds.
    closed spec fn view(&self) -> int {
        self.micros as int
    }
}

impl RttEstimator {
    pub closed spec fn wf(&self) -> bool {
        self.micros <= MAX_RTT_MICROS
    }

    pub fn new() -> (rtt: RttEstimator)
        ensures
            rtt.wf(),
            rtt@ == 0,
    {
        RttEstimator { micros: 0 }
    }

    /// Takes a round-trip sample of `sample` milliseconds into the estimate.
    pub fn update(&mut self, sample: u32)
        requires
            old(self).wf(),
        ensures
            final(self).wf(),
            final(self)@ == smoothed(old(self)@, sample * 1000),
    {
        let sample_micros: u64 = (sample as u64) * MICROS_PER_MILLI;
        if sample_micros >= self.micros {
            self.micros = self.micros + (sample_micros - self.micros) / 10;
        } else {
            self.micros = self.micros - (self.micros - sample_micros) / 10;
        }
    }

    /// Takes round-trip samples in milliseconds into the estimate, one
    /// after another.
    pub fn update_all(&mut self, samples: &Vec<u32>)
        requires
            old(self).wf(),
        ensures
            final(self).wf(),
            final(self)@ == smoothed_all(old(self)@, micros(samples@)),
    {
        let ghost all = micros(samples@);
        let mut k: usize = 0;
        assert(all.take(0) =~= Seq::<int>::empty());
        while k < samples.len()
            invariant
                k <= samples@.len(),
                all == micros(samples@),
                self.wf(),
                self@ == smoothed_all(old(self)@, all.take(k as int)),
            decreases samples@.len() - k,
        {
            self.update(samples[k]);
            assert(all.take(k + 1).drop_last() =~= all.take(k as int));
            assert(all.take(k + 1).last() == samples@[k as int] * 1000);
            k += 1;
        }
        assert(all.take(k as int) =~= all);
    }

    /// Whether a connection with this estimate counts as congested.
    pub fn congested(&self, was: bool, threshold: u32) -> (now: bool)
        requires
            self.wf(),
        ensures
            now == congestion(was, self@, threshold),
    {
        let ms: u32 = self.millis();
        if ms > threshold {
            true
        } else if ms < threshold {
            false
        } else {
            was
        }
    }

    /// The estimate in whole milliseconds, rounded up.
    pub fn millis(&self) -> (ms: u32)
        requires
            self.wf(),
        ensures
            ms == millis_ceil(self@),
    {
        ((self.micros + 999) / MICROS_PER_MILLI) as u32
    }

    pub fn reset(&mut self)
        ensures
            final(self).wf(),
            final(self)@ == 0,
    {
        self.micros = 0;
    }

    /// Proof that an estimate of a well-formed estimator is within bounds.
    pub proof fn lemma_bounds(&self)
        requires
            self.wf(),
        ensures
            0 <= self@ <= MAX_RTT_MICROS,
            0 <= millis_ceil(self@) <= u32::MAX,
    {
    }
}

/// The first sample moves an estimate of zero to a tenth of the sample:
/// after a round trip of `sample` milliseconds the estimate lies between
/// 0.09 and 0.11 times the sample.
pub proof fn lemma_first_sample(sample: u32)
    ensures
        smoothed(0, sample * 1000) == 100 * sample,
        9 * (sample * 1000) <= 100 * smoothed(0, sample * 1000) <= 11 * (sample * 1000),
{
}

/// A sample below the estimate never raises it and never takes it below the
/// sample; it lowers it whenever the two are ten microseconds or more apart.
pub proof fn lemma_smaller_sample(current: int, sample: int)
    requires
        0 <= sample < current,
    ensures
        sample <= smoothed(current, sample) <= current,
        current - sample >= 10 ==> smoothed(current, sample) < current,
{
}

/// A sample above the estimate never lowers it and never takes it above the
/// sample.
pub proof fn lemma_larger_sample(current: int, sample: int)
    requires
        0 <= current <= sample,
    ensures
        current <= smoothed(current, sample) <= sample,
{
}

/// Repeated smaller samples lower the estimate monotonically: where each
/// sample is at most the estimate that it meets, no sample raises the
/// estimate, and none takes it below itself.
pub proof fn lemma_samples_decrease(current: int, samples: Seq<int>)
    requires
        forall|i: int|
            0 <= i < samples.len() ==> 0 <= #[trigger] samples[i] <= smoothed_all(
                current,
                samples.take(i),
            ),
    ensures
        forall|i: int|
            0 <= i < samples.len() ==> samples[i] <= #[trigger] smoothed_all(
                current,
                samples.take(i + 1),
            ) <= smoothed_all(current, samples.take(i)),
{
    assert forall|i: int| 0 <= i < samples.len() implies samples[i] <= #[trigger] smoothed_all(
        current,
        samples.take(i + 1),
    ) <= smoothed_all(current, samples.take(i)) by {
        assert(samples.take(i + 1).drop_last() =~= samples.take(i));
        assert(samples.take(i + 1).last() == samples[i]);
        assert(samples[i] <= smoothed_all(current, samples.take(i)));
    }
}

/// How many of `outcomes` are losses.
pub open spec fn count_lost(outcomes: Seq<bool>) -> nat
    decreases outcomes.len(),
{
    if outcomes.len() == 0 {
        0
    } else {
        count_lost(outcomes.drop_last()) + if outcomes.last() {
            1nat
        } else {
            0nat
        }
    }
}

/// The share of losses among `outcomes` in percent, rounded down; zero where
/// there are none.
pub open spec fn loss_percent(outcomes: Seq<bool>) -> nat {
    if outcomes.len() == 0 {
        0
    } else {
        (100 * count_lost(outcomes) / outcomes.len()) as nat
    }
}

/// The window after one more outcome: the outcome is added, and the oldest
/// one leaves once more than `LOSS_WINDOW` are held.
pub open spec fn recorded(outcomes: Seq<bool>, lost: bool) -> Seq<bool> {
    if outcomes.len() >= LOSS_WINDOW {
        outcomes.push(lost).skip(1)
    } else {
        outcomes.push(lost)
    }
}

/// The window after `count` more outcomes that are all `lost`.
pub open spec fn recorded_many(outcomes: Seq<bool>, lost: bool, count: nat) -> Seq<bool>
    decreases count,
{
    if count == 0 {
        outcomes
    } else {
        recorded(recorded_many(outcomes, lost, (count - 1) as nat), lost)
    }
}

/// No more outcomes are losses than there are outcomes.
pub proof fn lemma_count_lost_bound(outcomes: Seq<bool>)
    ensures
        count_lost(outcomes) <= outcomes.len(),
    decreases outcomes.len(),
{
    if outcomes.len() > 0 {
        lemma_count_lost_bound(outcomes.drop_last());
    }
}

/// Without the oldest outcome the count goes down by one if that was a loss.
pub proof fn lemma_count_lost_skip(outcomes: Seq<bool>)
    requires
        outcomes.len() > 0,
    ensures
        count_lost(outcomes.skip(1)) + (if outcomes[0] {
            1nat
        } else {
            0nat
        }) == count_lost(outcomes),
    decreases outcomes.len(),
{
    if outcomes.len() == 1 {
        assert(outcomes.skip(1) =~= Seq::<bool>::empty());
        assert(outcomes.drop_last() =~= Seq::<bool>::empty());
    } else {
        lemma_count_lost_skip(outcomes.drop_last());
        assert(outcomes.skip(1).drop_last() =~= outcomes.drop_last().skip(1));
    }
}

/// Share of lost packets among those whose fate became known lately.
#[derive(Debug)]
pub struct LossEstimator {
    outcomes: VecDeque<bool>,
    lost: usize,
}

impl View for LossEstimator {
    type V = Seq<bool>;

    /// The outcomes held, oldest first; `true` stands for a lost packet.
    closed spec fn view(&self) -> Seq<bool> {
        self.outcomes@
    }
}

impl LossEstimator {
    pub closed spec fn wf(&self) -> bool {
        &&& self.outcomes@.len() <= LOSS_WINDOW
        &&& self.lost == count_lost(self.outcomes@)
    }

    pub fn new() -> (loss: LossEstimator)
        ensures
            loss.wf(),
            loss@ == Seq::<bool>::empty(),
    {
        LossEstimator { outcomes: VecDeque::new(), lost: 0 }
    }

    /// Takes the fate of one more packet into the window.
    pub fn record(&mut self, lost: bool)
        requires
            old(self).wf(),
        ensures
            final(self).wf(),
            final(self)@ == recorded(old(self)@, lost),
    {
        proof {
            lemma_count_lost_bound(self.outcomes@);
        }
        if self.outcomes.len() >= LOSS_WINDOW {
            let ghost held = self.outcomes@.push(lost);
            self.outcomes.push_back(lost);
            assert(held.drop_last() =~= old(self).outcomes@);
            if lost {
                self.lost = self.lost + 1;
            }
            proof {
                lemma_count_lost_skip(held);
            }
            let oldest = self.outcomes.pop_front();
            assert(self.outcomes@ =~= held.skip(1));
            if let Some(true) = oldest {
                self.lost = self.lost - 1;
            }
        } else {
            self.outcomes.push_back(lost);
            assert(self.outcomes@.drop_last() =~= old(self).outcomes@);
            if lost {
                self.lost = self.lost + 1;
            }
        }
    }

    /// Takes the fates of `count` more packets, all `lost`, into the window.
    pub fn record_many(&mut self, lost: bool, count: usize)
        requires
            old(self).wf(),
        ensures
            final(self).wf(),
            final(self)@ == recorded_many(old(self)@, lost, count as nat),
    {
        let mut done: usize = 0;
        while done < count
            invariant
                done <= count,
                self.wf(),
                self@ == recorded_many(old(self)@, lost, done as nat),
            decreases count - done,
        {
            self.record(lost);
            done += 1;
        }
    }

    /// The share of lost packets in percent, rounded down.
    pub fn percent(&self) -> (share: u32)
        requires
            self.wf(),
        ensures
            share == loss_percent(self@),
            share <= 100,
    {
        proof {
            lemma_count_lost_bound(self.outcomes@);
        }
        let total: usize = self.outcomes.len();
        if total == 0 {
            0
        } else {
            assert(100 * self.lost / (total as int) <= 100) by (nonlinear_arith)
                requires
                    0 <= self.lost <= total,
                    total > 0,
            ;
            (100 * self.lost / total) as u32
        }
    }

    /// Proof that the window of a well-formed estimator is within bounds.
    pub proof fn lemma_bounds(&self)
        requires
            self.wf(),
        ensures
            self@.len() <= LOSS_WINDOW,
    {
    }

    /// Number of lost packets in the window.
    pub fn lost(&self) -> (count: usize)
        requires
            self.wf(),
        ensures
            count == count_lost(self@),
    {
        self.lost
    }

    /// Number of packets in the window.
    pub fn observed(&self) -> (count: usize)
        ensures
            count == self@.len(),
    {
        self.outcomes.len()
    }

    pub fn reset(&mut self)
        ensures
            final(self).wf(),
            final(self)@ == Seq::<bool>::empty(),
    {
        self.outcomes.clear();
        self.lost = 0;
    }
}

} // verus!
