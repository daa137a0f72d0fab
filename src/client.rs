use vstd::prelude::*;
use crate::constants::INTERPOLATION_DELAY_MS;
use crate::interpolation::{added, interpolated, interpolation_wf, InterpolationModel, InterpolationState};
use crate::prediction::{reconciled, replay_trace, replayed_position, PredictionModel, PredictionState};
use crate::types::{GameState, Position};

verus! {

broadcast use vstd::std_specs::hash::group_hash_axioms;

/// What the client knows of one remote player.
pub struct RemotePlayer {
    pub id: u128,
    /// The position of the newest snapshot.
    pub position: Position,
    pub color: u32,
    pub interpolation: InterpolationState,
}

/// The mathematical model of a remote player.
pub struct RemoteModel {
    pub id: u128,
    pub position: Position,
    pub color: u32,
    pub buffer: InterpolationModel,
}

impl View for RemotePlayer {
    type V = RemoteModel;

    open spec fn view(&self) -> RemoteModel {
        RemoteModel { id: self.id, position: self.position, color: self.color, buffer: self.interpolation@ }
    }
}

/// The client's view of the game: its own predicted entity, and the remote
/// players it displays with interpolation.
pub struct ClientWorld {
    pub prediction: PredictionState,
    /// The displayed position of the local entity.
    pub my_pos: Position,
    /// The identity the server assigned, once known.
    pub my_id: Option<u128>,
    /// The local entity's color, while the snapshots list it.
    pub own_color: Option<u32>,
    /// The remote players, in the order of the last snapshot.
    pub remotes: Vec<RemotePlayer>,
}

/// A snapshot entry: (identity, position, color).
pub type Entry = (u128, Position, u32);

/// The acknowledged input sequence a snapshot gives for `id` (0 if none).
pub open spec fn sequence_of(processed: Map<u128, u32>, id: u128) -> u32 {
    if processed.contains_key(id) {
        processed[id]
    } else {
        0
    }
}

/// Whether an entry is the local entity's.
pub open spec fn is_own(my_id: Option<u128>) -> spec_fn(Entry) -> bool {
    |e: Entry| my_id == Some(e.0)
}

/// Whether an entry is a remote player's.
pub open spec fn is_remote(my_id: Option<u128>) -> spec_fn(Entry) -> bool {
    |e: Entry| my_id != Some(e.0)
}

/// An empty interpolation buffer with the default delay.
pub open spec fn fresh_buffer() -> InterpolationModel {
    InterpolationModel { samples: Seq::empty(), delay: INTERPOLATION_DELAY_MS, last_sequence: 0, last_position: None }
}

/// The buffer kept for `id`: that of its first entry in `remotes`, or a fresh
/// one.
pub open spec fn prior_buffer(remotes: Seq<RemoteModel>, id: u128) -> InterpolationModel
    decreases remotes.len(),
{
    if remotes.len() == 0 {
        fresh_buffer()
    } else if remotes[0].id == id {
        remotes[0].buffer
    } else {
        prior_buffer(remotes.drop_first(), id)
    }
}

/// A remote player after a snapshot entry received at `now`: the entry's
/// position and color, and its buffer offered the entry's position.
pub open spec fn remote_after(remotes: Seq<RemoteModel>, processed: Map<u128, u32>, now: u64, e: Entry) -> RemoteModel {
    RemoteModel {
        id: e.0,
        position: e.1,
        color: e.2,
        buffer: added(prior_buffer(remotes, e.0), e.1, now, sequence_of(processed, e.0)),
    }
}

/// The remote players after a snapshot: one per remote entry, in snapshot
/// order; players absent from the snapshot are forgotten.
pub open spec fn remotes_after(
    remotes: Seq<RemoteModel>,
    players: Seq<Entry>,
    processed: Map<u128, u32>,
    my_id: Option<u128>,
    now: u64,
) -> Seq<RemoteModel> {
    players.filter(is_remote(my_id)).map_values(|e: Entry| remote_after(remotes, processed, now, e))
}

/// The prediction state and displayed position after reconciling with each of
/// the local entity's entries in turn, replaying after each.
pub open spec fn own_after(
    m: PredictionModel,
    pos: Position,
    own: Seq<Entry>,
    processed: Map<u128, u32>,
    now: u64,
) -> (PredictionModel, Position)
    decreases own.len(),
{
    if own.len() == 0 {
        (m, pos)
    } else {
        let before = own_after(m, pos, own.drop_last(), processed, now);
        let e = own.last();
        let r = reconciled(before.0, e.1, sequence_of(processed, e.0), now);
        (PredictionModel { history: r.history + replay_trace(r.confirmed_position, r.pending), ..r }, replayed_position(r))
    }
}

/// Whether every remote buffer is well formed.
pub open spec fn remotes_wf(remotes: Seq<RemoteModel>) -> bool {
    forall|i: int| 0 <= i < remotes.len() ==> interpolation_wf(#[trigger] remotes[i].buffer)
}

/// Looking up a buffer from a given index on finds the first entry at or
/// after it.
proof fn lemma_prior_buffer_skip(remotes: Seq<RemoteModel>, id: u128, i: int)
    requires
        0 <= i < remotes.len(),
        remotes[i].id != id,
    ensures
        prior_buffer(remotes.skip(i), id) == prior_buffer(remotes.skip(i + 1), id),
{
    assert(remotes.skip(i)[0] == remotes[i]);
    assert(remotes.skip(i).drop_first() =~= remotes.skip(i + 1));
}

/// A buffer found by lookup is well formed when every buffer is.
proof fn lemma_prior_buffer_wf(remotes: Seq<RemoteModel>, id: u128)
    requires
        remotes_wf(remotes),
    ensures
        interpolation_wf(prior_buffer(remotes, id)),
    decreases remotes.len(),
{
    if remotes.len() > 0 && remotes[0].id != id {
        assert forall|i: int| 0 <= i < remotes.drop_first().len() implies interpolation_wf(
            #[trigger] remotes.drop_first()[i].buffer,
        ) by {
            assert(remotes.drop_first()[i] == remotes[i + 1]);
        }
        lemma_prior_buffer_wf(remotes.drop_first(), id);
    }
}

impl ClientWorld {
    /// A client that has not yet heard from the server, displayed at
    /// `initial_position`.
    pub fn new(initial_position: Position) -> (r: Self)
        ensures
            r.wf(),
            r.prediction@ == (PredictionModel {
                next_sequence: 0,
                pending: Seq::empty(),
                history: Seq::empty(),
                confirmed_sequence: 0,
                confirmed_position: initial_position,
                last_reconciliation: 0,
            }),
            r.my_pos == initial_position,
            r.my_id.is_none(),
            r.own_color.is_none(),
            r.remotes_model().len() == 0,
    {
        let r = ClientWorld {
            prediction: PredictionState::new(initial_position),
            my_pos: initial_position,
            my_id: None,
            own_color: None,
            remotes: Vec::new(),
        };
        proof {
            assert(r.remotes_model() =~= Seq::<RemoteModel>::empty());
        }
        r
    }

    /// The remote players, in the order of the last snapshot.
    pub open spec fn remotes_model(&self) -> Seq<RemoteModel> {
        self.remotes@.map_values(|p: RemotePlayer| p@)
    }

    /// Whether every remote buffer is well formed.
    pub open spec fn wf(&self) -> bool {
        remotes_wf(self.remotes_model())
    }

    /// The index of the first remote player with identity `id`, if any.
    fn find_remote(&self, id: u128) -> (r: Option<usize>)
        ensures
            r.is_none() ==> prior_buffer(self.remotes_model(), id) == fresh_buffer(),
            r matches Some(i) ==> i < self.remotes_model().len() && prior_buffer(self.remotes_model(), id)
                == self.remotes_model()[i as int].buffer,
    {
        let ghost rs = self.remotes_model();
        let mut i: usize = 0;
        proof {
            assert(rs.skip(0) =~= rs);
        }
        while i < self.remotes.len()
            invariant
                rs == self.remotes_model(),
                i <= rs.len(),
                prior_buffer(rs.skip(i as int), id) == prior_buffer(rs, id),
            decreases rs.len() - i,
        {
            proof {
                assert(rs[i as int] == self.remotes@[i as int]@);
            }
            if self.remotes[i].id == id {
                proof {
                    assert(rs.skip(i as int)[0] == rs[i as int]);
                }
                return Some(i);
            }
            proof {
                lemma_prior_buffer_skip(rs, id, i as int);
            }
            i = i + 1;
        }
        proof {
            assert(rs.skip(i as int).len() == 0);
        }
        None
    }

    /// Applies a snapshot received at `now` (milliseconds). Each entry of the
    /// local entity reconciles the prediction with its acknowledged sequence
    /// and replays the pending inputs into the displayed position; each other
    /// entry offers its position to that player's interpolation buffer.
    /// Players absent from the snapshot are forgotten.
    pub fn apply_snapshot(&mut self, state: &GameState, now: u64)
        requires
            old(self).wf(),
        ensures
            final(self).wf(),
            final(self).my_id == old(self).my_id,
            final(self).remotes_model() == remotes_after(
                old(self).remotes_model(),
                state.players@,
                state.last_processed@,
                old(self).my_id,
                now,
            ),
            (final(self).prediction@, final(self).my_pos) == own_after(
                old(self).prediction@,
                old(self).my_pos,
                state.players@.filter(is_own(old(self).my_id)),
                state.last_processed@,
                now,
            ),
            final(self).own_color == if state.players@.filter(is_own(old(self).my_id)).len() > 0 {
                Some(state.players@.filter(is_own(old(self).my_id)).last().2)
            } else {
                None::<u32>
            },
    {
        let ghost old_remotes = self.remotes_model();
        let ghost players = state.players@;
        let ghost processed = state.last_processed@;
        let ghost m0 = self.prediction@;
        let ghost p0 = self.my_pos;
        let my_id = self.my_id;
        let mut next: Vec<RemotePlayer> = Vec::new();
        let mut own_color: Option<u32> = None;
        let n = state.players.len();
        let mut i: usize = 0;
        while i < n
            invariant
                n == players.len(),
                players == state.players@,
                processed == state.last_processed@,
                i <= n,
                my_id == self.my_id,
                old_remotes == self.remotes_model(),
                remotes_wf(old_remotes),
                remotes_wf(next@.map_values(|p: RemotePlayer| p@)),
                next@.map_values(|p: RemotePlayer| p@) == remotes_after(old_remotes, players.take(i as int), processed, my_id, now),
                (self.prediction@, self.my_pos) == own_after(m0, p0, players.take(i as int).filter(is_own(my_id)), processed, now),
                own_color == if players.take(i as int).filter(is_own(my_id)).len() > 0 {
                    Some(players.take(i as int).filter(is_own(my_id)).last().2)
                } else {
                    None::<u32>
                },
            decreases n - i,
        {
            let e = state.players[i];
            let sequence: u32 = match state.last_processed.get(&e.0) {
                Some(q) => *q,
                None => 0,
            };
            proof {
                assert(sequence == sequence_of(processed, e.0));
                reveal(Seq::filter);
                let t = players.take(i + 1);
                assert(t.drop_last() =~= players.take(i as int));
                assert(t.last() == e);
            }
            if my_id == Some(e.0) {
                let mut pos = self.my_pos;
                self.prediction.apply_server_state(e.1, sequence, now, &mut pos);
                self.my_pos = pos;
                own_color = Some(e.2);
                proof {
                    let t = players.take(i + 1);
                    assert(t.filter(is_own(my_id)) == players.take(i as int).filter(is_own(my_id)).push(e));
                    assert(t.filter(is_own(my_id)).drop_last() =~= players.take(i as int).filter(is_own(my_id)));
                    assert(t.filter(is_remote(my_id)) == players.take(i as int).filter(is_remote(my_id)));
                    assert(next@.map_values(|p: RemotePlayer| p@) =~= remotes_after(old_remotes, t, processed, my_id, now));
                }
            } else {
                let mut buffer = match self.find_remote(e.0) {
                    Some(k) => {
                        proof {
                            assert(old_remotes[k as int] == self.remotes@[k as int]@);
                            assert(interpolation_wf(old_remotes[k as int].buffer));
                        }
                        self.remotes[k].interpolation.duplicate()
                    },
                    None => InterpolationState::new(),
                };
                proof {
                    lemma_prior_buffer_wf(old_remotes, e.0);
                }
                buffer.add_position(e.1, now, sequence);
                let ghost before = next@.map_values(|p: RemotePlayer| p@);
                next.push(RemotePlayer { id: e.0, position: e.1, color: e.2, interpolation: buffer });
                proof {
                    let t = players.take(i + 1);
                    assert(t.filter(is_remote(my_id)) == players.take(i as int).filter(is_remote(my_id)).push(e));
                    assert(t.filter(is_own(my_id)) == players.take(i as int).filter(is_own(my_id)));
                    assert(next@.map_values(|p: RemotePlayer| p@) =~= before.push(remote_after(old_remotes, processed, now, e)));
                    assert(next@.map_values(|p: RemotePlayer| p@) =~= remotes_after(old_remotes, t, processed, my_id, now));
                }
            }
            i = i + 1;
        }
        proof {
            assert(players.take(n as int) =~= players);
        }
        self.remotes = next;
        self.own_color = own_color;
    }

    /// Where each remote player is drawn at time `now`: its interpolated
    /// position, or its newest snapshot position when the buffer has none.
    pub fn remote_display_positions(&self, now: u64) -> (r: Vec<(u128, Position, u32)>)
        requires
            self.wf(),
        ensures
            r@ == self.remotes_model().map_values(
                |p: RemoteModel|
                    (
                        p.id,
                        match interpolated(p.buffer, now) {
                            Some(q) => q,
                            None => p.position,
                        },
                        p.color,
                    ),
            ),
    {
        let ghost rs = self.remotes_model();
        let mut r: Vec<(u128, Position, u32)> = Vec::new();
        let mut i: usize = 0;
        while i < self.remotes.len()
            invariant
                rs == self.remotes_model(),
                remotes_wf(rs),
                i <= rs.len(),
                r@ == rs.take(i as int).map_values(
                    |p: RemoteModel|
                        (
                            p.id,
                            match interpolated(p.buffer, now) {
                                Some(q) => q,
                                None => p.position,
                            },
                            p.color,
                        ),
                ),
            decreases rs.len() - i,
        {
            let p = &self.remotes[i];
            proof {
                assert(rs[i as int] == self.remotes@[i as int]@);
                assert(interpolation_wf(rs[i as int].buffer));
            }
            let shown = match p.interpolation.get_interpolated_position(now) {
                Some(q) => q,
                None => p.position,
            };
            r.push((p.id, shown, p.color));
            proof {
                assert(rs.take(i + 1) =~= rs.take(i as int).push(rs[i as int]));
                assert(r@ =~= rs.take(i + 1).map_values(
                    |p: RemoteModel|
                        (
                            p.id,
                            match interpolated(p.buffer, now) {
                                Some(q) => q,
                                None => p.position,
                            },
                            p.color,
                        ),
                ));
            }
            i = i + 1;
        }
        proof {
            assert(rs.take(rs.len() as int) =~= rs);
        }
        r
    }
}

} // verus!
