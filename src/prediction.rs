use vstd::prelude::*;
use std::collections::VecDeque;
use crate::constants::{RESYNC_INTERVAL_MS, RESYNC_SEQUENCE_GAP};
use crate::movement::{lemma_replay_push, replay, step, step_position};
use crate::types::{Direction, PlayerInput, Position};

verus! {

/// Client-side prediction of the local entity, and its reconciliation with
/// the authoritative server state.
pub struct PredictionState {
    /// Sequence number the next locally generated input receives.
    pub next_sequence: u32,
    /// Inputs sent but not yet acknowledged, keyed by sequence number.
    pub pending_inputs: VecDeque<(u32, PlayerInput)>,
    /// The displayed position before each predicted input, keyed by sequence number.
    pub position_history: VecDeque<(u32, Position)>,
    /// The newest input sequence the server has acknowledged.
    pub last_confirmed_sequence: u32,
    /// The authoritative position at that sequence.
    pub last_confirmed_position: Position,
    /// When the last reconciliation took place, in milliseconds.
    pub last_reconciliation_time: u64,
}

/// The mathematical model of a prediction state.
pub struct PredictionModel {
    pub next_sequence: u32,
    pub pending: Seq<(u32, PlayerInput)>,
    pub history: Seq<(u32, Position)>,
    pub confirmed_sequence: u32,
    pub confirmed_position: Position,
    pub last_reconciliation: u64,
}

impl View for PredictionState {
    type V = PredictionModel;

    open spec fn view(&self) -> PredictionModel {
        PredictionModel {
            next_sequence: self.next_sequence,
            pending: self.pending_inputs@,
            history: self.position_history@,
            confirmed_sequence: self.last_confirmed_sequence,
            confirmed_position: self.last_confirmed_position,
            last_reconciliation: self.last_reconciliation_time,
        }
    }
}

/// The entries left once the leading entries whose sequence is at most `ack`
/// are removed.
pub open spec fn drop_acked<T>(s: Seq<(u32, T)>, ack: u32) -> Seq<(u32, T)>
    decreases s.len(),
{
    if s.len() > 0 && s[0].0 <= ack {
        drop_acked(s.drop_first(), ack)
    } else {
        s
    }
}

/// The directions of a queue of pending inputs, in queue order.
pub open spec fn pending_dirs(pending: Seq<(u32, PlayerInput)>) -> Seq<Direction> {
    pending.map_values(|e: (u32, PlayerInput)| e.1.dir)
}

/// The position that replaying the pending queue from the confirmed baseline
/// yields.
pub open spec fn replayed_position(m: PredictionModel) -> Position {
    replay(m.confirmed_position, pending_dirs(m.pending))
}

/// The (sequence, position before the input) entries recorded while replaying
/// `inputs` from `start`.
pub open spec fn replay_trace(start: Position, inputs: Seq<(u32, PlayerInput)>) -> Seq<(u32, Position)> {
    Seq::new(
        inputs.len(),
        |k: int| (inputs[k].1.sequence, replay(start, pending_dirs(inputs.take(k)))),
    )
}

/// Whether a reconciliation that advances the confirmed sequence to `ack` at
/// time `now` drops the whole backlog instead of replaying it.
pub open spec fn needs_hard_resync(m: PredictionModel, ack: u32, now: u64) -> bool {
    ack - m.confirmed_sequence > RESYNC_SEQUENCE_GAP || now - m.last_reconciliation > RESYNC_INTERVAL_MS
}

/// The state after reconciling with the server's position at acknowledged
/// sequence `ack`, received at time `now`.
pub open spec fn reconciled(m: PredictionModel, server_position: Position, ack: u32, now: u64) -> PredictionModel {
    if ack > m.confirmed_sequence {
        let hard = needs_hard_resync(m, ack, now);
        PredictionModel {
            pending: if hard { Seq::empty() } else { drop_acked(m.pending, ack) },
            history: if hard { Seq::empty() } else { drop_acked(m.history, ack) },
            confirmed_sequence: ack,
            confirmed_position: server_position,
            last_reconciliation: now,
            ..m
        }
    } else {
        m
    }
}

/// Squared Euclidean distance between two positions.
pub open spec fn distance_squared(a: Position, b: Position) -> int {
    (a.x - b.x) * (a.x - b.x) + (a.y - b.y) * (a.y - b.y)
}

/// Removes the leading entries of `q` whose sequence is at most `ack`.
fn drop_acked_prefix<T>(q: &mut VecDeque<(u32, T)>, ack: u32)
    ensures
        final(q)@ == drop_acked(old(q)@, ack),
{
    while q.len() > 0 && q[0].0 <= ack
        invariant
            drop_acked(q@, ack) == drop_acked(old(q)@, ack),
        decreases q@.len(),
    {
        let _ = q.pop_front();
    }
}

impl PredictionState {
    /// A prediction state whose confirmed baseline is `initial_position`.
    pub fn new(initial_position: Position) -> (r: Self)
        ensures
            r@ == (PredictionModel {
                next_sequence: 0,
                pending: Seq::empty(),
                history: Seq::empty(),
                confirmed_sequence: 0,
                confirmed_position: initial_position,
                last_reconciliation: 0,
            }),
    {
        PredictionState {
            next_sequence: 0,
            pending_inputs: VecDeque::new(),
            position_history: VecDeque::new(),
            last_confirmed_sequence: 0,
            last_confirmed_position: initial_position,
            last_reconciliation_time: 0,
        }
    }

    /// Records the displayed position before `input` in the history, then
    /// moves the displayed position by the shared movement rule.
    pub fn apply_prediction(&mut self, input: PlayerInput, current_position: &mut Position)
        ensures
            final(self)@ == (PredictionModel {
                history: old(self)@.history.push((input.sequence, *old(current_position))),
                ..old(self)@
            }),
            *final(current_position) == step(*old(current_position), input.dir),
    {
        self.position_history.push_back((input.sequence, *current_position));
        *current_position = step_position(*current_position, input.dir);
    }

    /// Generates the next local input in direction `dir`, queues it as pending
    /// and applies it to the displayed position. Returns the input, to be sent.
    pub fn queue_input(&mut self, dir: Direction, timestamp: u64, current_position: &mut Position) -> (input: PlayerInput)
        requires
            old(self).next_sequence < u32::MAX,
        ensures
            input == (PlayerInput { dir, sequence: old(self).next_sequence, timestamp }),
            final(self)@ == (PredictionModel {
                next_sequence: (old(self).next_sequence + 1) as u32,
                pending: old(self)@.pending.push((input.sequence, input)),
                history: old(self)@.history.push((input.sequence, *old(current_position))),
                ..old(self)@
            }),
            *final(current_position) == step(*old(current_position), dir),
    {
        let input = PlayerInput { dir, sequence: self.next_sequence, timestamp };
        self.pending_inputs.push_back((self.next_sequence, input));
        self.next_sequence = self.next_sequence + 1;
        self.apply_prediction(input, current_position);
        input
    }

    /// Reconciles with the server's authoritative position at acknowledged
    /// sequence `server_sequence`, at time `current_time` (milliseconds).
    /// Acts only when the acknowledgment is newer than the confirmed sequence.
    pub fn reconcile(&mut self, server_position: Position, server_sequence: u32, current_time: u64)
        ensures
            final(self)@ == reconciled(old(self)@, server_position, server_sequence, current_time),
    {
        if server_sequence > self.last_confirmed_sequence {
            let gap = server_sequence - self.last_confirmed_sequence;
            let stalled = current_time > self.last_reconciliation_time
                && current_time - self.last_reconciliation_time > RESYNC_INTERVAL_MS;
            self.last_reconciliation_time = current_time;
            self.last_confirmed_sequence = server_sequence;
            self.last_confirmed_position = server_position;
            if gap > RESYNC_SEQUENCE_GAP || stalled {
                self.pending_inputs.clear();
                self.position_history.clear();
            } else {
                drop_acked_prefix(&mut self.pending_inputs, server_sequence);
                drop_acked_prefix(&mut self.position_history, server_sequence);
            }
        }
    }

    /// Resets the displayed position to the confirmed baseline and replays
    /// every pending input on it, in queue order.
    pub fn reapply_pending_inputs(&mut self, current_position: &mut Position)
        ensures
            *final(current_position) == replayed_position(old(self)@),
            final(self)@ == (PredictionModel {
                history: old(self)@.history + replay_trace(old(self)@.confirmed_position, old(self)@.pending),
                ..old(self)@
            }),
    {
        *current_position = self.last_confirmed_position;
        let ghost start = self.last_confirmed_position;
        let ghost pending = self@.pending;
        let ghost history0 = self@.history;
        let n = self.pending_inputs.len();
        let mut i: usize = 0;
        while i < n
            invariant
                n == pending.len(),
                i <= n,
                self@ == (PredictionModel { history: history0 + replay_trace(start, pending.take(i as int)), ..old(self)@ }),
                pending == old(self)@.pending,
                history0 == old(self)@.history,
                start == old(self)@.confirmed_position,
                *current_position == replay(start, pending_dirs(pending.take(i as int))),
            decreases n - i,
        {
            let input = self.pending_inputs[i].1;
            proof {
                assert(pending.take(i + 1) =~= pending.take(i as int).push(pending[i as int]));
                assert(pending_dirs(pending.take(i + 1)) =~= pending_dirs(pending.take(i as int)).push(input.dir));
                lemma_replay_push(start, pending_dirs(pending.take(i as int)), input.dir);
                assert(replay_trace(start, pending.take(i + 1)) =~= replay_trace(start, pending.take(i as int)).push(
                    (input.sequence, *current_position),
                )) by {
                    let a = replay_trace(start, pending.take(i + 1));
                    let b = replay_trace(start, pending.take(i as int));
                    assert forall|k: int| 0 <= k < i implies a[k] == b[k] by {
                        assert(pending.take(i + 1).take(k) =~= pending.take(i as int).take(k));
                    }
                    assert(pending.take(i + 1).take(i as int) =~= pending.take(i as int));
                }
            }
            self.apply_prediction(input, current_position);
            i = i + 1;
        }
        proof {
            assert(pending.take(n as int) =~= pending);
        }
    }

    /// One update from an authoritative snapshot: reconciles with the server's
    /// position at acknowledged sequence `server_sequence` at time
    /// `current_time`, then replays the remaining pending inputs on the new
    /// baseline into the displayed position.
    pub fn apply_server_state(
        &mut self,
        server_position: Position,
        server_sequence: u32,
        current_time: u64,
        current_position: &mut Position,
    )
        ensures
            ({
                let m = reconciled(old(self)@, server_position, server_sequence, current_time);
                &&& *final(current_position) == replayed_position(m)
                &&& final(self)@ == (PredictionModel {
                    history: m.history + replay_trace(m.confirmed_position, m.pending),
                    ..m
                })
            }),
    {
        self.reconcile(server_position, server_sequence, current_time);
        self.reapply_pending_inputs(current_position);
    }

    /// Squared distance between the confirmed baseline and `server_position`;
    /// a diagnostic of prediction error.
    pub fn get_prediction_error_squared(&self, server_position: Position) -> (r: u128)
        ensures
            r == distance_squared(server_position, self.last_confirmed_position),
    {
        let dx = abs_diff(server_position.x, self.last_confirmed_position.x);
        let dy = abs_diff(server_position.y, self.last_confirmed_position.y);
        proof {
            assert(dx * dx <= 0xFFFF_FFFFu128 * 0xFFFF_FFFFu128) by (nonlinear_arith)
                requires dx <= 0xFFFF_FFFFu128;
            assert(dy * dy <= 0xFFFF_FFFFu128 * 0xFFFF_FFFFu128) by (nonlinear_arith)
                requires dy <= 0xFFFF_FFFFu128;
            let ex = server_position.x - self.last_confirmed_position.x;
            let ey = server_position.y - self.last_confirmed_position.y;
            assert(ex * ex == dx * dx) by (nonlinear_arith)
                requires dx == ex || dx == -ex;
            assert(ey * ey == dy * dy) by (nonlinear_arith)
                requires dy == ey || dy == -ey;
        }
        dx * dx + dy * dy
    }
}

/// The distance between two coordinates.
fn abs_diff(a: i32, b: i32) -> (r: u128)
    ensures
        r == a - b || r == b - a,
        r <= 0xFFFF_FFFFu128,
        r >= 0,
{
    if a >= b {
        (a as i64 - b as i64) as u128
    } else {
        (b as i64 - a as i64) as u128
    }
}

/// Replaying is a pure function of its inputs: two prediction states with the
/// same confirmed baseline and the same pending queue replay to the same
/// position.
pub proof fn lemma_replay_deterministic(a: PredictionModel, b: PredictionModel)
    requires
        a.confirmed_position == b.confirmed_position,
        a.pending == b.pending,
    ensures
        replayed_position(a) == replayed_position(b),
{
}

/// Reconciling a second time with the same acknowledgment, and no new input in
/// between, leaves the state as the first reconciliation left it.
pub proof fn lemma_reconcile_idempotent(
    m: PredictionModel,
    server_position: Position,
    ack: u32,
    first_time: u64,
    second_position: Position,
    second_time: u64,
)
    ensures
        reconciled(reconciled(m, server_position, ack, first_time), second_position, ack, second_time)
            == reconciled(m, server_position, ack, first_time),
{
}

} // verus!
