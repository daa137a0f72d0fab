use vstd::prelude::*;
use std::collections::VecDeque;
use crate::constants::{INTERPOLATION_DELAY_MS, MAX_POSITION_HISTORY};
use crate::track::{
    first_after, first_after_from, lemma_first_after, lemma_sample_at_own_timestamp, lerp_position_exec,
    sample_track, strictly_increasing,
};
use crate::types::{InterpolatedPosition, Position};

verus! {

/// Buffered positions of one remote entity, displayed with a small fixed delay
/// and interpolated between the samples that bracket the displayed time.
pub struct InterpolationState {
    position_history: VecDeque<InterpolatedPosition>,
    interpolation_delay: u64,
    last_sequence: u32,
    last_position: Option<Position>,
}

/// The mathematical model of an interpolation buffer.
pub struct InterpolationModel {
    pub samples: Seq<InterpolatedPosition>,
    pub delay: u64,
    pub last_sequence: u32,
    pub last_position: Option<Position>,
}

impl View for InterpolationState {
    type V = InterpolationModel;

    closed spec fn view(&self) -> InterpolationModel {
        InterpolationModel {
            samples: self.position_history@,
            delay: self.interpolation_delay,
            last_sequence: self.last_sequence,
            last_position: self.last_position,
        }
    }
}

/// The samples of a buffer as a track of (timestamp, position).
pub open spec fn samples_track(s: Seq<InterpolatedPosition>) -> Seq<(u64, Position)> {
    s.map_values(|e: InterpolatedPosition| (e.timestamp, e.position))
}

/// The last `cap` elements of `s`, or all of it if it is shorter.
pub open spec fn keep_last<T>(s: Seq<T>, cap: nat) -> Seq<T> {
    if s.len() > cap {
        s.subrange(s.len() - cap, s.len() as int)
    } else {
        s
    }
}

/// Well-formedness: the buffer is bounded and the remembered last position is
/// that of its newest sample.
pub open spec fn interpolation_wf(m: InterpolationModel) -> bool {
    &&& m.samples.len() <= MAX_POSITION_HISTORY
    &&& m.last_position == if m.samples.len() == 0 {
        None::<Position>
    } else {
        Some(m.samples.last().position)
    }
}

/// The buffer after offering a sample: one whose sequence is not newer than
/// the last accepted one is rejected; otherwise it is appended and the oldest
/// samples beyond the capacity are evicted.
pub open spec fn added(m: InterpolationModel, position: Position, timestamp: u64, sequence: u32) -> InterpolationModel {
    if sequence <= m.last_sequence {
        m
    } else {
        InterpolationModel {
            samples: keep_last(
                m.samples.push(InterpolatedPosition { position, timestamp, sequence }),
                MAX_POSITION_HISTORY as nat,
            ),
            last_sequence: sequence,
            last_position: Some(position),
            ..m
        }
    }
}

/// The position displayed at time `now`: with fewer than two samples the
/// newest one, if any; otherwise the buffer sampled at `now` minus the delay.
pub open spec fn interpolated(m: InterpolationModel, now: u64) -> Option<Position> {
    if m.samples.len() < 2 {
        m.last_position
    } else {
        Some(sample_track(samples_track(m.samples), now - m.delay))
    }
}

impl InterpolationState {
    /// An empty buffer with the default display delay.
    pub fn new() -> (r: Self)
        ensures
            interpolation_wf(r@),
            r@ == (InterpolationModel {
                samples: Seq::empty(),
                delay: INTERPOLATION_DELAY_MS,
                last_sequence: 0,
                last_position: None,
            }),
    {
        Self::with_delay(INTERPOLATION_DELAY_MS)
    }

    /// An empty buffer with a display delay of `delay_ms` milliseconds.
    pub fn with_delay(delay_ms: u64) -> (r: Self)
        ensures
            interpolation_wf(r@),
            r@ == (InterpolationModel {
                samples: Seq::empty(),
                delay: delay_ms,
                last_sequence: 0,
                last_position: None,
            }),
    {
        InterpolationState {
            position_history: VecDeque::new(),
            interpolation_delay: delay_ms,
            last_sequence: 0,
            last_position: None,
        }
    }

    /// Whether the buffer is well formed.
    pub open spec fn wf(&self) -> bool {
        interpolation_wf(self@)
    }

    /// The buffered samples, oldest first.
    pub fn position_history(&self) -> (r: &VecDeque<InterpolatedPosition>)
        ensures
            r@ == self@.samples,
    {
        &self.position_history
    }

    /// The display delay, in milliseconds.
    pub fn interpolation_delay(&self) -> (r: u64)
        ensures
            r == self@.delay,
    {
        self.interpolation_delay
    }

    /// The newest accepted sequence number.
    pub fn last_sequence(&self) -> (r: u32)
        ensures
            r == self@.last_sequence,
    {
        self.last_sequence
    }

    /// The newest accepted position, if any.
    pub fn last_position(&self) -> (r: Option<Position>)
        ensures
            r == self@.last_position,
    {
        self.last_position
    }

    /// A copy of the buffer.
    pub fn duplicate(&self) -> (r: Self)
        ensures
            r@ == self@,
    {
        let mut samples: VecDeque<InterpolatedPosition> = VecDeque::new();
        let n = self.position_history.len();
        let mut i: usize = 0;
        while i < n
            invariant
                n == self@.samples.len(),
                i <= n,
                samples@ == self@.samples.take(i as int),
            decreases n - i,
        {
            samples.push_back(self.position_history[i]);
            proof {
                assert(self@.samples.take(i + 1) =~= self@.samples.take(i as int).push(self@.samples[i as int]));
            }
            i = i + 1;
        }
        proof {
            assert(self@.samples.take(n as int) =~= self@.samples);
        }
        InterpolationState {
            position_history: samples,
            interpolation_delay: self.interpolation_delay,
            last_sequence: self.last_sequence,
            last_position: self.last_position,
        }
    }

    /// Offers a sample at render time `timestamp` (milliseconds) with sequence
    /// number `sequence`; a sample that is not newer than the last accepted
    /// one leaves the buffer as it was.
    pub fn add_position(&mut self, position: Position, timestamp: u64, sequence: u32)
        requires
            old(self).wf(),
        ensures
            final(self).wf(),
            final(self)@ == added(old(self)@, position, timestamp, sequence),
            sequence <= old(self)@.last_sequence ==> final(self)@ == old(self)@,
    {
        if sequence <= self.last_sequence {
            return;
        }
        self.last_sequence = sequence;
        self.position_history.push_back(InterpolatedPosition { position, timestamp, sequence });
        if self.position_history.len() > MAX_POSITION_HISTORY {
            let _ = self.position_history.pop_front();
        }
        self.last_position = Some(position);
        proof {
            let pushed = old(self)@.samples.push(InterpolatedPosition { position, timestamp, sequence });
            assert(self@.samples =~= keep_last(pushed, MAX_POSITION_HISTORY as nat));
        }
    }

    /// The position to display at time `current_time` (milliseconds).
    pub fn get_interpolated_position(&self, current_time: u64) -> (r: Option<Position>)
        requires
            self.wf(),
        ensures
            r == interpolated(self@, current_time),
    {
        let n = self.position_history.len();
        if n < 2 {
            return self.last_position;
        }
        let ghost track = samples_track(self@.samples);
        let ghost t: int = current_time - self.interpolation_delay;
        let delay = self.interpolation_delay;
        let mut i: usize = 0;
        while i < n && (self.position_history[i].timestamp as u128) + (delay as u128) <= current_time as u128
            invariant
                n == self@.samples.len(),
                track == samples_track(self@.samples),
                t == current_time - delay,
                delay == self@.delay,
                i <= n,
                first_after_from(track, t, i as int) == first_after(track, t),
            decreases n - i,
        {
            i = i + 1;
        }
        proof {
            lemma_first_after(track, t);
        }
        if i == 0 {
            Some(self.position_history[0].position)
        } else if i == n {
            Some(self.position_history[n - 1].position)
        } else {
            let prev = self.position_history[i - 1];
            let next = self.position_history[i];
            proof {
                assert(track[i - 1].0 <= t);
                assert(track[i as int].0 > t);
            }
            let num = current_time - delay - prev.timestamp;
            let den = next.timestamp - prev.timestamp;
            Some(lerp_position_exec(prev.position, next.position, num, den))
        }
    }
}

/// When the buffered timestamps strictly increase, displaying at a sample's
/// own timestamp (plus the delay) gives that sample's position exactly.
pub proof fn lemma_interpolation_at_sample(m: InterpolationModel, i: int, now: u64)
    requires
        interpolation_wf(m),
        strictly_increasing(samples_track(m.samples)),
        0 <= i < m.samples.len(),
        now == m.samples[i].timestamp + m.delay,
    ensures
        interpolated(m, now) == Some(m.samples[i].position),
{
    if m.samples.len() >= 2 {
        lemma_sample_at_own_timestamp(samples_track(m.samples), i);
    }
}

} // verus!
