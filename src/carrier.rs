use vstd::prelude::*;

verus! {

/// Consecutive weak samples after which a detected carrier is taken as lost.
pub const DROP_RUN_LENGTH: usize = 50;

/// Whether a carrier is taken to be on the line.
#[derive(Clone, Copy, Debug, PartialEq, Eq, Structural)]
pub enum CarrierState {
    Idle,
    CarrierDetected,
}

/// How one smoothed tone-energy difference compares with the thresholds:
/// strictly above the detect threshold in magnitude, strictly below the drop
/// threshold in magnitude, and whether the mark tone is the stronger.
#[derive(Clone, Copy, Debug, PartialEq, Eq, Structural)]
pub struct Level {
    pub above_detect: bool,
    pub below_drop: bool,
    pub positive: bool,
}

/// Abstract state of a tracker.
pub struct TrackerView {
    pub state: CarrierState,
    pub low_run: nat,
    pub drop_run_length: nat,
}

/// While a carrier is detected the run of weak samples is empty or short of
/// the drop length.
pub open spec fn tracker_wf(t: TrackerView) -> bool {
    t.state == CarrierState::CarrierDetected ==> t.low_run == 0 || t.low_run < t.drop_run_length
}

/// The bit that a sign of the energy difference stands for.
pub open spec fn tone_bit(positive: bool) -> u8 {
    if positive {
        1
    } else {
        0
    }
}

/// One sample through the tracker: the next state and the bit emitted.
/// Without a carrier the line reads as idle (1).
pub open spec fn tracker_step(t: TrackerView, l: Level) -> (TrackerView, u8) {
    match t.state {
        CarrierState::Idle => if l.above_detect {
            (TrackerView { state: CarrierState::CarrierDetected, low_run: 0, ..t }, tone_bit(l.positive))
        } else {
            (t, 1)
        },
        CarrierState::CarrierDetected => {
            let run = if l.below_drop {
                t.low_run + 1
            } else {
                0
            };
            if run >= t.drop_run_length {
                (TrackerView { state: CarrierState::Idle, low_run: run, ..t }, 1)
            } else {
                (TrackerView { low_run: run, ..t }, tone_bit(l.positive))
            }
        },
    }
}

/// The levels `ls` through the tracker in order: the final state and the bits emitted.
pub open spec fn tracker_run(t: TrackerView, ls: Seq<Level>) -> (TrackerView, Seq<u8>)
    decreases ls.len(),
{
    if ls.len() == 0 {
        (t, Seq::empty())
    } else {
        let (t1, bits) = tracker_run(t, ls.drop_last());
        let (t2, b) = tracker_step(t1, ls.last());
        (t2, bits.push(b))
    }
}

/// Two-threshold carrier detector that gates the demodulated bits.
pub struct CarrierTracker {
    state: CarrierState,
    low_run: usize,
    drop_run_length: usize,
}

impl View for CarrierTracker {
    type V = TrackerView;

    closed spec fn view(&self) -> TrackerView {
        TrackerView {
            state: self.state,
            low_run: self.low_run as nat,
            drop_run_length: self.drop_run_length as nat,
        }
    }
}

impl CarrierTracker {
    pub fn new(drop_run_length: usize) -> (r: CarrierTracker)
        ensures
            tracker_wf(r@),
            r@.state == CarrierState::Idle,
            r@.low_run == 0,
            r@.drop_run_length == drop_run_length,
    {
        CarrierTracker { state: CarrierState::Idle, low_run: 0, drop_run_length }
    }

    pub fn state(&self) -> (r: CarrierState)
        ensures
            r == self@.state,
    {
        self.state
    }

    /// Feeds one level; returns the bit for that sample.
    pub fn decide(&mut self, level: Level) -> (bit: u8)
        requires
            tracker_wf(old(self)@),
        ensures
            tracker_wf(final(self)@),
            (final(self)@, bit) == tracker_step(old(self)@, level),
    {
        match self.state {
            CarrierState::Idle => {
                if level.above_detect {
                    self.low_run = 0;
                    self.state = CarrierState::CarrierDetected;
                    if level.positive {
                        1
                    } else {
                        0
                    }
                } else {
                    1
                }
            },
            CarrierState::CarrierDetected => {
                if level.below_drop {
                    self.low_run = self.low_run + 1;
                } else {
                    self.low_run = 0;
                }
                if self.low_run >= self.drop_run_length {
                    self.state = CarrierState::Idle;
                    1
                } else if level.positive {
                    1
                } else {
                    0
                }
            },
        }
    }

    /// Feeds `levels` in order; returns one bit per level.
    pub fn decide_all(&mut self, levels: &[Level]) -> (bits: Vec<u8>)
        requires
            tracker_wf(old(self)@),
        ensures
            tracker_wf(final(self)@),
            (final(self)@, bits@) == tracker_run(old(self)@, levels@),
    {
        let mut bits: Vec<u8> = Vec::new();
        let mut i: usize = 0;
        while i < levels.len()
            invariant
                i <= levels@.len(),
                tracker_wf(self@),
                (self@, bits@) == tracker_run(old(self)@, levels@.take(i as int)),
            decreases levels@.len() - i,
        {
            assert(levels@.take(i + 1).drop_last() =~= levels@.take(i as int));
            let b = self.decide(levels[i]);
            bits.push(b);
            i = i + 1;
        }
        assert(levels@.take(i as int) =~= levels@);
        bits
    }
}

/// Hysteresis: once a carrier is detected, a run of weak samples shorter than
/// the drop length keeps it detected throughout (counting the run), and the
/// first sample that is not weak clears the run.
pub proof fn lemma_short_dip_keeps_carrier(t: TrackerView, dips: Seq<Level>, after: Level)
    requires
        tracker_wf(t),
        t.state == CarrierState::CarrierDetected,
        t.low_run + dips.len() < t.drop_run_length,
        forall|i: int| 0 <= i < dips.len() ==> (#[trigger] dips[i]).below_drop,
        !after.below_drop,
    ensures
        forall|j: int|
            0 <= j <= dips.len() ==> (#[trigger] tracker_run(t, dips.take(j))).0.state
                == CarrierState::CarrierDetected && tracker_run(t, dips.take(j)).0.low_run == t.low_run
                + j,
        tracker_run(t, dips.push(after)).0.state == CarrierState::CarrierDetected,
        tracker_run(t, dips.push(after)).0.low_run == 0,
{
    lemma_dip_prefix(t, dips, dips.len() as int);
    assert forall|j: int| 0 <= j <= dips.len() implies (#[trigger] tracker_run(
        t,
        dips.take(j),
    )).0.state == CarrierState::CarrierDetected && tracker_run(t, dips.take(j)).0.low_run
        == t.low_run + j by {
        lemma_dip_prefix(t, dips, j);
    }
    assert(dips.push(after).drop_last() =~= dips);
    assert(dips.take(dips.len() as int) =~= dips);
}

proof fn lemma_dip_prefix(t: TrackerView, dips: Seq<Level>, j: int)
    requires
        t.state == CarrierState::CarrierDetected,
        t.low_run + dips.len() < t.drop_run_length,
        forall|i: int| 0 <= i < dips.len() ==> (#[trigger] dips[i]).below_drop,
        0 <= j <= dips.len(),
    ensures
        tracker_run(t, dips.take(j)).0.state == CarrierState::CarrierDetected,
        tracker_run(t, dips.take(j)).0.low_run == t.low_run + j,
        tracker_run(t, dips.take(j)).0.drop_run_length == t.drop_run_length,
    decreases j,
{
    if j > 0 {
        lemma_dip_prefix(t, dips, j - 1);
        assert(dips.take(j).drop_last() =~= dips.take(j - 1));
        assert(dips.take(j).last() == dips[j - 1]);
    }
}

} // verus!
