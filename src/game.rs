use vstd::prelude::*;
use crate::constants::SESSION_HISTORY_CAPACITY;
use crate::interpolation::keep_last;
use crate::movement::{clamp_position, clamp_to_board, step, step_position};
use crate::track::non_decreasing;
use vstd::set_lib::{lemma_int_range, lemma_len_subset, lemma_len_union, set_int_range};
use vstd::seq_lib::seq_to_set_is_finite;
use std::collections::HashMap;
use crate::colors::{get_palette, palette};
use crate::constants::{BOARD_HEIGHT, BOARD_WIDTH, MAX_X, PLAYER_SIZE, TIMEOUT_MS, TOOL_BAR_HEIGHT};
use crate::platform::{new_player_id, now_millis, random_in_range};
use crate::track::{lemma_sample_outside_track, lerp_position_exec, first_after, first_after_from, lemma_first_after, sample_track};
use crate::types::{GameState, PeerAddr, PlayerInput, Position, PositionSnapshot};

verus! {

broadcast use vstd::std_specs::hash::group_hash_axioms;

/// The authoritative state of one player.
pub struct PlayerState {
    pub position: Position,
    pub color: u32,
    /// When the player was last heard from, in milliseconds.
    pub last_active: u64,
    /// Recent authoritative positions, oldest first.
    pub position_history: Vec<PositionSnapshot>,
}

/// A live session: a player bound to an identity and an address.
pub struct Session {
    pub id: u128,
    pub addr: PeerAddr,
    pub player: PlayerState,
    /// The newest input sequence applied for this player, if any.
    pub last_processed: Option<u32>,
}

/// What is kept of a player after a disconnect, so that the identity can be
/// resumed within the grace period.
#[derive(Debug, Clone, Copy, PartialEq, Eq, Structural)]
pub struct DisconnectedRecord {
    pub id: u128,
    pub position: Position,
    pub color: u32,
    /// When the player disconnected, in milliseconds.
    pub disconnected_at: u64,
}

/// The mathematical model of a live session.
pub struct SessionModel {
    pub id: u128,
    pub addr: PeerAddr,
    pub position: Position,
    pub color: u32,
    pub last_active: u64,
    pub history: Seq<PositionSnapshot>,
    pub last_processed: Option<u32>,
}

impl View for Session {
    type V = SessionModel;

    open spec fn view(&self) -> SessionModel {
        SessionModel {
            id: self.id,
            addr: self.addr,
            position: self.player.position,
            color: self.player.color,
            last_active: self.player.last_active,
            history: self.player.position_history@,
            last_processed: self.last_processed,
        }
    }
}

/// The authoritative session store: live sessions, and records of recently
/// disconnected players.
pub struct Game {
    sessions: Vec<Session>,
    disconnected: Vec<DisconnectedRecord>,
}

/// The mathematical model of the session store.
pub struct GameModel {
    pub sessions: Seq<SessionModel>,
    pub records: Seq<DisconnectedRecord>,
}

impl View for Game {
    type V = GameModel;

    closed spec fn view(&self) -> GameModel {
        GameModel { sessions: self.sessions@.map_values(|s: Session| s@), records: self.disconnected@ }
    }
}

/// A session's history as a track of (timestamp, position).
pub open spec fn history_track(h: Seq<PositionSnapshot>) -> Seq<(u64, Position)> {
    h.map_values(|s: PositionSnapshot| (s.timestamp, s.position))
}

/// A session's history is non-empty, bounded, and its timestamps never
/// decrease.
pub open spec fn session_wf(s: SessionModel) -> bool {
    &&& 1 <= s.history.len() <= SESSION_HISTORY_CAPACITY
    &&& non_decreasing(history_track(s.history))
}

/// Well-formedness of the store: every session is well formed; addresses and
/// identities of live sessions are unique; each identity has at most one
/// record, and no live identity has one.
pub open spec fn game_wf(m: GameModel) -> bool {
    &&& forall|i: int| 0 <= i < m.sessions.len() ==> session_wf(#[trigger] m.sessions[i])
    &&& forall|i: int, j: int|
        0 <= i < j < m.sessions.len() ==> (#[trigger] m.sessions[i]).addr != (#[trigger] m.sessions[j]).addr
            && m.sessions[i].id != m.sessions[j].id
    &&& forall|i: int, j: int|
        0 <= i < j < m.records.len() ==> (#[trigger] m.records[i]).id != (#[trigger] m.records[j]).id
    &&& forall|i: int, k: int|
        0 <= i < m.sessions.len() && 0 <= k < m.records.len() ==> (#[trigger] m.sessions[i]).id
            != (#[trigger] m.records[k]).id
}

/// Whether a live session is bound to `addr`.
pub open spec fn has_addr(m: GameModel, addr: PeerAddr) -> bool {
    exists|i: int| 0 <= i < m.sessions.len() && (#[trigger] m.sessions[i]).addr == addr
}

/// The index of the live session bound to `addr`.
pub open spec fn addr_index(m: GameModel, addr: PeerAddr) -> int {
    choose|i: int| 0 <= i < m.sessions.len() && (#[trigger] m.sessions[i]).addr == addr
}

/// Whether a live session has identity `id`.
pub open spec fn id_live(m: GameModel, id: u128) -> bool {
    exists|i: int| 0 <= i < m.sessions.len() && (#[trigger] m.sessions[i]).id == id
}

/// The index of the live session with identity `id`.
pub open spec fn id_index(m: GameModel, id: u128) -> int {
    choose|i: int| 0 <= i < m.sessions.len() && (#[trigger] m.sessions[i]).id == id
}

/// Whether a disconnect record exists for identity `id`.
pub open spec fn has_record(m: GameModel, id: u128) -> bool {
    exists|k: int| 0 <= k < m.records.len() && (#[trigger] m.records[k]).id == id
}

/// The index of the disconnect record of identity `id`.
pub open spec fn record_index(m: GameModel, id: u128) -> int {
    choose|k: int| 0 <= k < m.records.len() && (#[trigger] m.records[k]).id == id
}

/// Whether identity `id` is live or resumable.
pub open spec fn id_in_use(m: GameModel, id: u128) -> bool {
    id_live(m, id) || has_record(m, id)
}

/// A fresh session with a one-entry history.
pub open spec fn new_session(addr: PeerAddr, id: u128, position: Position, color: u32, now: u64) -> SessionModel {
    SessionModel {
        id,
        addr,
        position,
        color,
        last_active: now,
        history: seq![PositionSnapshot { position, timestamp: now }],
        last_processed: None,
    }
}

/// The store after a connect from `addr`: unchanged if the address already
/// has a session, otherwise with a new session for identity `id`.
pub open spec fn connected(m: GameModel, addr: PeerAddr, id: u128, position: Position, color: u32, now: u64) -> GameModel {
    if has_addr(m, addr) {
        m
    } else {
        GameModel { sessions: m.sessions.push(new_session(addr, id, position, color, now)), ..m }
    }
}

/// The identity a connect from `addr` answers with.
pub open spec fn connect_result(m: GameModel, addr: PeerAddr, id: u128) -> u128 {
    if has_addr(m, addr) {
        m.sessions[addr_index(m, addr)].id
    } else {
        id
    }
}

/// A session after applying `input` at time `now`: the position moves by the
/// shared rule, the sequence is recorded, and the new position is appended to
/// the bounded history (its timestamp never goes below the previous one).
pub open spec fn moved(s: SessionModel, input: PlayerInput, now: u64) -> SessionModel {
    let p = step(s.position, input.dir);
    let prev = s.history.last().timestamp;
    let ts = if now < prev { prev } else { now };
    SessionModel {
        position: p,
        last_active: now,
        last_processed: Some(input.sequence),
        history: keep_last(
            s.history.push(PositionSnapshot { position: p, timestamp: ts }),
            SESSION_HISTORY_CAPACITY as nat,
        ),
        ..s
    }
}

/// The store after `input` arrives from `addr` at time `now`; unchanged when
/// no session is bound to the address.
pub open spec fn input_applied(m: GameModel, addr: PeerAddr, input: PlayerInput, now: u64) -> GameModel {
    if has_addr(m, addr) {
        let i = addr_index(m, addr);
        GameModel { sessions: m.sessions.update(i, moved(m.sessions[i], input, now)), ..m }
    } else {
        m
    }
}

/// The record kept of a session that disconnects at time `now`.
pub open spec fn record_of(s: SessionModel, now: u64) -> DisconnectedRecord {
    DisconnectedRecord { id: s.id, position: s.position, color: s.color, disconnected_at: now }
}

/// The store after the session at `addr` disconnects at time `now`; unchanged
/// when no session is bound to the address.
pub open spec fn disconnected(m: GameModel, addr: PeerAddr, now: u64) -> GameModel {
    if has_addr(m, addr) {
        let i = addr_index(m, addr);
        GameModel { sessions: m.sessions.remove(i), records: m.records.push(record_of(m.sessions[i], now)) }
    } else {
        m
    }
}

/// Under well-formedness, a session whose address is `addr` sits at the
/// address's index.
proof fn lemma_addr_index(m: GameModel, addr: PeerAddr, i: int)
    requires
        game_wf(m),
        0 <= i < m.sessions.len(),
        m.sessions[i].addr == addr,
    ensures
        has_addr(m, addr),
        addr_index(m, addr) == i,
{
    let j = addr_index(m, addr);
    assert(m.sessions[j].addr == addr);
    if i < j {
        assert(m.sessions[i].addr != m.sessions[j].addr);
    } else if j < i {
        assert(m.sessions[j].addr != m.sessions[i].addr);
    }
}

/// Under well-formedness, a session whose identity is `id` sits at the
/// identity's index.
proof fn lemma_id_index(m: GameModel, id: u128, i: int)
    requires
        game_wf(m),
        0 <= i < m.sessions.len(),
        m.sessions[i].id == id,
    ensures
        id_live(m, id),
        id_index(m, id) == i,
{
    let j = id_index(m, id);
    assert(m.sessions[j].id == id);
    if i < j {
        assert(m.sessions[i].id != m.sessions[j].id);
    } else if j < i {
        assert(m.sessions[j].id != m.sessions[i].id);
    }
}

/// Under well-formedness, a record whose identity is `id` sits at the
/// identity's record index.
proof fn lemma_record_index(m: GameModel, id: u128, k: int)
    requires
        game_wf(m),
        0 <= k < m.records.len(),
        m.records[k].id == id,
    ensures
        has_record(m, id),
        record_index(m, id) == k,
{
    let j = record_index(m, id);
    assert(m.records[j].id == id);
    if k < j {
        assert(m.records[k].id != m.records[j].id);
    } else if j < k {
        assert(m.records[j].id != m.records[k].id);
    }
}

/// Appending to a history and keeping its newest entries preserves the
/// session invariant when the new timestamp is not older than the last one.
proof fn lemma_history_push(h: Seq<PositionSnapshot>, snap: PositionSnapshot)
    requires
        1 <= h.len() <= SESSION_HISTORY_CAPACITY,
        non_decreasing(history_track(h)),
        h.last().timestamp <= snap.timestamp,
    ensures
        ({
            let k = keep_last(h.push(snap), SESSION_HISTORY_CAPACITY as nat);
            &&& 1 <= k.len() <= SESSION_HISTORY_CAPACITY
            &&& non_decreasing(history_track(k))
        }),
{
    let pushed = h.push(snap);
    let k = keep_last(pushed, SESSION_HISTORY_CAPACITY as nat);
    assert(non_decreasing(history_track(pushed))) by {
        assert forall|i: int, j: int| 0 <= i < j < pushed.len() implies history_track(pushed)[i].0
            <= history_track(pushed)[j].0 by {
            if j == pushed.len() - 1 && i < h.len() - 1 {
                assert(history_track(h)[i].0 <= history_track(h)[h.len() - 1].0);
            }
            if j < pushed.len() - 1 {
                assert(history_track(h)[i].0 <= history_track(h)[j].0);
            }
        }
    }
    let off = pushed.len() - k.len();
    assert forall|i: int, j: int| 0 <= i < j < k.len() implies history_track(k)[i].0 <= history_track(k)[j].0 by {
        assert(k[i] == pushed[i + off]);
        assert(k[j] == pushed[j + off]);
        assert(history_track(pushed)[i + off].0 <= history_track(pushed)[j + off].0);
    }
}

/// Whether the session has been silent for at least `timeout` at time `now`.
pub open spec fn timed_out(s: SessionModel, now: u64, timeout: u64) -> bool {
    now - s.last_active >= timeout
}

/// The addresses of the sessions that have timed out, in session order.
pub open spec fn timed_out_addrs(s: Seq<SessionModel>, now: u64, timeout: u64) -> Seq<PeerAddr> {
    s.filter(timed_out_at(now, timeout)).map_values(|x: SessionModel| x.addr)
}

/// The predicate "has timed out at time `now`".
pub open spec fn timed_out_at(now: u64, timeout: u64) -> spec_fn(SessionModel) -> bool {
    |x: SessionModel| timed_out(x, now, timeout)
}

/// The store after disconnecting each address of `addrs` in turn, at time
/// `now`.
pub open spec fn disconnect_all(m: GameModel, addrs: Seq<PeerAddr>, now: u64) -> GameModel
    decreases addrs.len(),
{
    if addrs.len() == 0 {
        m
    } else {
        disconnected(disconnect_all(m, addrs.drop_last(), now), addrs.last(), now)
    }
}

/// The store after evicting, at time `now`, every session silent for at
/// least `timeout`: each is disconnected as by an explicit disconnect.
pub open spec fn evicted(m: GameModel, now: u64, timeout: u64) -> GameModel {
    disconnect_all(m, timed_out_addrs(m.sessions, now, timeout), now)
}

/// Whether a reconnect from `addr` claiming identity `id` at time `now`
/// succeeds: the identity has a record within the grace period, is not live,
/// and the address has no live session.
pub open spec fn reconnect_allowed(m: GameModel, addr: PeerAddr, id: u128, now: u64, grace_period: u64) -> bool {
    &&& has_record(m, id)
    &&& !id_live(m, id)
    &&& !has_addr(m, addr)
    &&& now - m.records[record_index(m, id)].disconnected_at <= grace_period
}

/// The store after a reconnect attempt: on success the record is consumed and
/// a live session for the same identity, with the recorded color, is created
/// at the claimed position clamped to the board.
pub open spec fn reconnected(m: GameModel, addr: PeerAddr, id: u128, position: Position, now: u64, grace_period: u64) -> GameModel {
    if reconnect_allowed(m, addr, id, now, grace_period) {
        let k = record_index(m, id);
        GameModel {
            sessions: m.sessions.push(
                new_session(addr, id, clamp_to_board(position.x as int, position.y as int), m.records[k].color, now),
            ),
            records: m.records.remove(k),
        }
    } else {
        m
    }
}

/// Whether a record is removed by a cleanup at time `now`: it is older than
/// the grace period and its identity is not live.
pub open spec fn record_expired(m: GameModel, r: DisconnectedRecord, now: u64, grace_period: u64) -> bool {
    now - r.disconnected_at > grace_period && !id_live(m, r.id)
}

/// The store after removing expired records at time `now`.
pub open spec fn cleaned(m: GameModel, now: u64, grace_period: u64) -> GameModel {
    GameModel { records: m.records.filter(record_kept(m, now, grace_period)), ..m }
}

/// The predicate "survives a cleanup at time `now`".
pub open spec fn record_kept(m: GameModel, now: u64, grace_period: u64) -> spec_fn(DisconnectedRecord) -> bool {
    |r: DisconnectedRecord| !record_expired(m, r, now, grace_period)
}

/// The store after `addr` is heard from at time `now`.
pub open spec fn touched(m: GameModel, addr: PeerAddr, now: u64) -> GameModel {
    if has_addr(m, addr) {
        let i = addr_index(m, addr);
        GameModel { sessions: m.sessions.update(i, SessionModel { last_active: now, ..m.sessions[i] }), ..m }
    } else {
        m
    }
}

/// Every element that a filter keeps comes from the filtered sequence.
proof fn lemma_filter_from<A>(s: Seq<A>, pred: spec_fn(A) -> bool)
    ensures
        forall|j: int| 0 <= j < s.filter(pred).len() ==> s.contains(#[trigger] s.filter(pred)[j]),
    decreases s.len(),
{
    reveal(Seq::filter);
    if s.len() > 0 {
        lemma_filter_from(s.drop_last(), pred);
        let f = s.filter(pred);
        let g = s.drop_last().filter(pred);
        assert forall|j: int| 0 <= j < f.len() implies s.contains(#[trigger] f[j]) by {
            if j < g.len() {
                assert(f[j] == g[j]);
                let k = choose|k: int| 0 <= k < s.drop_last().len() && s.drop_last()[k] == g[j];
                assert(s[k] == g[j]);
            } else {
                assert(f[j] == s.last());
                assert(s[s.len() - 1] == s.last());
            }
        }
    }
}

/// Whether no two records share an identity.
pub open spec fn records_unique(rs: Seq<DisconnectedRecord>) -> bool {
    forall|i: int, j: int| 0 <= i < j < rs.len() ==> (#[trigger] rs[i]).id != (#[trigger] rs[j]).id
}

/// Filtering records keeps their identities unique.
proof fn lemma_filter_records_unique(rs: Seq<DisconnectedRecord>, pred: spec_fn(DisconnectedRecord) -> bool)
    requires
        records_unique(rs),
    ensures
        records_unique(rs.filter(pred)),
    decreases rs.len(),
{
    reveal(Seq::filter);
    if rs.len() > 0 {
        let d = rs.drop_last();
        assert(records_unique(d)) by {
            assert forall|i: int, j: int| 0 <= i < j < d.len() implies (#[trigger] d[i]).id != (#[trigger] d[j]).id by {
                assert(d[i] == rs[i] && d[j] == rs[j]);
            }
        }
        lemma_filter_records_unique(d, pred);
        lemma_filter_from(d, pred);
        let f = rs.filter(pred);
        let g = d.filter(pred);
        if pred(rs.last()) {
            assert forall|i: int, j: int| 0 <= i < j < f.len() implies (#[trigger] f[i]).id != (#[trigger] f[j]).id by {
                if j == f.len() - 1 {
                    assert(d.contains(g[i]));
                    let k = choose|k: int| 0 <= k < d.len() && d[k] == g[i];
                    assert(rs[k] == g[i]);
                    assert(rs[k].id != rs[rs.len() - 1].id);
                } else {
                    assert(f[i] == g[i] && f[j] == g[j]);
                }
            }
        }
    }
}

/// The newest processed input sequence of each session that has one.
pub open spec fn processed_map(s: Seq<SessionModel>) -> Map<u128, u32>
    decreases s.len(),
{
    if s.len() == 0 {
        Map::empty()
    } else {
        let m = processed_map(s.drop_last());
        match s.last().last_processed {
            Some(q) => m.insert(s.last().id, q),
            None => m,
        }
    }
}

/// The (identity, position, color) entry of a session in a snapshot.
pub open spec fn snapshot_entry(s: SessionModel) -> (u128, Position, u32) {
    (s.id, s.position, s.color)
}

/// A session's authoritative position reconstructed at time `t`.
pub open spec fn session_position_at(s: SessionModel, t: int) -> Position {
    sample_track(history_track(s.history), t)
}

/// The position of identity `id` reconstructed at time `t`, if it is live.
pub open spec fn position_at_spec(m: GameModel, id: u128, t: int) -> Option<Position> {
    if id_live(m, id) {
        Some(session_position_at(m.sessions[id_index(m, id)], t))
    } else {
        None
    }
}

/// Whether the sessions at indices `i` and `j` were at the same position at
/// time `t`.
pub open spec fn collide(m: GameModel, t: int, i: int, j: int) -> bool {
    session_position_at(m.sessions[i], t) == session_position_at(m.sessions[j], t)
}

/// The colliding pairs (i, k) with i < k < j, in order of k.
pub open spec fn collision_row(m: GameModel, t: int, i: int, j: int) -> Seq<(u128, u128)>
    decreases j - i,
{
    if j <= i + 1 {
        Seq::empty()
    } else {
        collision_row(m, t, i, j - 1) + if collide(m, t, i, j - 1) {
            seq![(m.sessions[i].id, m.sessions[j - 1].id)]
        } else {
            Seq::empty()
        }
    }
}

/// The colliding pairs whose first index is below `i`, row by row.
pub open spec fn collision_rows(m: GameModel, t: int, i: int) -> Seq<(u128, u128)>
    decreases i,
{
    if i <= 0 {
        Seq::empty()
    } else {
        collision_rows(m, t, i - 1) + collision_row(m, t, i - 1, m.sessions.len() as int)
    }
}

/// Every unordered pair of live sessions whose reconstructed positions at
/// time `t` are equal, each pair once, as (identity of the earlier session,
/// identity of the later one).
pub open spec fn collisions(m: GameModel, t: int) -> Seq<(u128, u128)> {
    collision_rows(m, t, m.sessions.len() as int)
}

/// The identities in use, as integers.
pub open spec fn used_ids(m: GameModel) -> Set<int> {
    m.sessions.map_values(|s: SessionModel| s.id as int).to_set().union(
        m.records.map_values(|r: DisconnectedRecord| r.id as int).to_set(),
    )
}

/// What a connect from an address without a session does: a new session with
/// an identity not in use, a spawn position, a palette color and a one-entry
/// history holding the spawn position stamped with the connect time is
/// appended, and nothing else changes.
pub open spec fn fresh_connect(before: GameModel, after: GameModel, addr: PeerAddr, id: u128) -> bool {
    &&& !id_in_use(before, id)
    &&& after.records == before.records
    &&& after.sessions.drop_last() == before.sessions
    &&& after.sessions.len() == before.sessions.len() + 1
    &&& after.sessions.last().id == id
    &&& after.sessions.last().addr == addr
    &&& in_spawn_area(after.sessions.last().position)
    &&& palette().contains(after.sessions.last().color)
    &&& after.sessions.last().history.len() == 1
    &&& after.sessions.last().history[0] == (PositionSnapshot {
        position: after.sessions.last().position,
        timestamp: after.sessions.last().last_active,
    })
    &&& after.sessions.last().last_processed.is_none()
}

/// Whether `p` lies in the area where new players spawn.
pub open spec fn in_spawn_area(p: Position) -> bool {
    PLAYER_SIZE <= p.x < BOARD_WIDTH - PLAYER_SIZE && PLAYER_SIZE <= p.y < BOARD_HEIGHT - PLAYER_SIZE - TOOL_BAR_HEIGHT
}

/// A non-empty history sampled at time `t`.
fn sample_history(h: &Vec<PositionSnapshot>, t: u64) -> (r: Position)
    requires
        h@.len() > 0,
    ensures
        r == sample_track(history_track(h@), t as int),
{
    let n = h.len();
    let ghost track = history_track(h@);
    let mut i: usize = 0;
    while i < n && h[i].timestamp <= t
        invariant
            n == h@.len(),
            track == history_track(h@),
            i <= n,
            first_after_from(track, t as int, i as int) == first_after(track, t as int),
        decreases n - i,
    {
        i = i + 1;
    }
    proof {
        lemma_first_after(track, t as int);
    }
    if i == 0 {
        h[0].position
    } else if i == n {
        h[n - 1].position
    } else {
        let prev = h[i - 1];
        let next = h[i];
        proof {
            assert(track[i - 1].0 <= t);
            assert(track[i as int].0 > t);
        }
        lerp_position_exec(prev.position, next.position, t - prev.timestamp, next.timestamp - prev.timestamp)
    }
}

impl Session {
    /// A fresh session with a one-entry history.
    fn fresh(addr: PeerAddr, id: u128, position: Position, color: u32, now: u64) -> (r: Session)
        ensures
            r@ == new_session(addr, id, position, color, now),
            session_wf(r@),
    {
        let mut position_history: Vec<PositionSnapshot> = Vec::new();
        position_history.push(PositionSnapshot { position, timestamp: now });
        let r = Session { id, addr, player: PlayerState { position, color, last_active: now, position_history }, last_processed: None };
        proof {
            assert(r@.history =~= seq![PositionSnapshot { position, timestamp: now }]);
        }
        r
    }

    /// Applies one movement input at time `now`.
    fn apply_input(&mut self, input: PlayerInput, now: u64)
        requires
            session_wf(old(self)@),
        ensures
            final(self)@ == moved(old(self)@, input, now),
            session_wf(final(self)@),
    {
        let ghost h0 = self@.history;
        let p = step_position(self.player.position, input.dir);
        let n = self.player.position_history.len();
        let prev = self.player.position_history[n - 1].timestamp;
        let ts = if now < prev { prev } else { now };
        self.player.position = p;
        self.player.last_active = now;
        self.last_processed = Some(input.sequence);
        self.player.position_history.push(PositionSnapshot { position: p, timestamp: ts });
        if self.player.position_history.len() > SESSION_HISTORY_CAPACITY {
            let _ = self.player.position_history.remove(0);
        }
        proof {
            let snap = PositionSnapshot { position: p, timestamp: ts };
            assert(self@.history =~= keep_last(h0.push(snap), SESSION_HISTORY_CAPACITY as nat));
            lemma_history_push(h0, snap);
        }
    }
}

impl Game {
    /// An empty store.
    pub fn new() -> (r: Self)
        ensures
            game_wf(r@),
            r@ == (GameModel { sessions: Seq::empty(), records: Seq::empty() }),
    {
        let r = Game { sessions: Vec::new(), disconnected: Vec::new() };
        proof {
            assert(r@.sessions =~= Seq::<SessionModel>::empty());
        }
        r
    }

    /// Whether the store is well formed.
    pub open spec fn wf(&self) -> bool {
        game_wf(self@)
    }

    /// The index of the live session bound to `addr`, if any.
    fn find_addr(&self, addr: PeerAddr) -> (r: Option<usize>)
        requires
            self.wf(),
        ensures
            r.is_none() == !has_addr(self@, addr),
            r matches Some(i) ==> i < self@.sessions.len() && i == addr_index(self@, addr),
    {
        let mut i: usize = 0;
        while i < self.sessions.len()
            invariant
                i <= self.sessions@.len(),
                forall|k: int| 0 <= k < i ==> (#[trigger] self@.sessions[k]).addr != addr,
                self.wf(),
            decreases self.sessions@.len() - i,
        {
            if self.sessions[i].addr == addr {
                proof {
                    lemma_addr_index(self@, addr, i as int);
                }
                return Some(i);
            }
            i = i + 1;
        }
        None
    }

    /// The index of the live session with identity `id`, if any.
    fn find_id(&self, id: u128) -> (r: Option<usize>)
        requires
            self.wf(),
        ensures
            r.is_none() == !id_live(self@, id),
            r matches Some(i) ==> i < self@.sessions.len() && i == id_index(self@, id),
    {
        let mut i: usize = 0;
        while i < self.sessions.len()
            invariant
                i <= self.sessions@.len(),
                forall|k: int| 0 <= k < i ==> (#[trigger] self@.sessions[k]).id != id,
                self.wf(),
            decreases self.sessions@.len() - i,
        {
            if self.sessions[i].id == id {
                proof {
                    lemma_id_index(self@, id, i as int);
                }
                return Some(i);
            }
            i = i + 1;
        }
        None
    }

    /// The index of the disconnect record of identity `id`, if any.
    fn find_record(&self, id: u128) -> (r: Option<usize>)
        requires
            self.wf(),
        ensures
            r.is_none() == !has_record(self@, id),
            r matches Some(k) ==> k < self@.records.len() && k == record_index(self@, id),
    {
        let mut k: usize = 0;
        while k < self.disconnected.len()
            invariant
                k <= self.disconnected@.len(),
                forall|j: int| 0 <= j < k ==> (#[trigger] self@.records[j]).id != id,
                self.wf(),
            decreases self.disconnected@.len() - k,
        {
            if self.disconnected[k].id == id {
                proof {
                    lemma_record_index(self@, id, k as int);
                }
                return Some(k);
            }
            k = k + 1;
        }
        None
    }

    /// Connects `addr` as identity `id` at `position` with `color`, at time
    /// `now`. Idempotent: an address that already has a session keeps it, and
    /// its identity is returned.
    pub fn connect_player_at(&mut self, addr: PeerAddr, id: u128, position: Position, color: u32, now: u64) -> (r: u128)
        requires
            old(self).wf(),
            !id_in_use(old(self)@, id),
        ensures
            final(self).wf(),
            final(self)@ == connected(old(self)@, addr, id, position, color, now),
            r == connect_result(old(self)@, addr, id),
            has_addr(final(self)@, addr),
            final(self)@.sessions[addr_index(final(self)@, addr)].id == r,
    {
        match self.find_addr(addr) {
            Some(i) => self.sessions[i].id,
            None => {
                let s = Session::fresh(addr, id, position, color, now);
                self.sessions.push(s);
                proof {
                    let old_m = old(self)@;
                    let new_m = self@;
                    assert(new_m.sessions =~= old_m.sessions.push(new_session(addr, id, position, color, now)));
                    assert(new_m.records == old_m.records);
                    assert forall|a: int| 0 <= a < new_m.sessions.len() implies session_wf(#[trigger] new_m.sessions[a]) by {
                        if a < old_m.sessions.len() {
                            assert(new_m.sessions[a] == old_m.sessions[a]);
                        }
                    }
                    assert forall|i: int, j: int| 0 <= i < j < new_m.sessions.len() implies (
                    #[trigger] new_m.sessions[i]).addr != (#[trigger] new_m.sessions[j]).addr
                        && new_m.sessions[i].id != new_m.sessions[j].id by {
                        if j == new_m.sessions.len() - 1 {
                            assert(old_m.sessions[i].addr != addr);
                            assert(old_m.sessions[i].id != id);
                        }
                    }
                    assert forall|i: int, k: int|
                        0 <= i < new_m.sessions.len() && 0 <= k < new_m.records.len() implies (
                    #[trigger] new_m.sessions[i]).id != (#[trigger] new_m.records[k]).id by {
                        if i == new_m.sessions.len() - 1 {
                            assert(old_m.records[k].id != id);
                        }
                    }
                    lemma_addr_index(new_m, addr, new_m.sessions.len() - 1);
                }
                id
            },
        }
    }

    /// Applies `input` from `addr` at time `now`: refreshes the activity time,
    /// records the input's sequence, moves the player and appends the new
    /// position to its history. Does nothing for an unknown address.
    pub fn handle_input_at(&mut self, addr: PeerAddr, input: PlayerInput, now: u64)
        requires
            old(self).wf(),
        ensures
            final(self).wf(),
            final(self)@ == input_applied(old(self)@, addr, input, now),
    {
        match self.find_addr(addr) {
            Some(i) => {
                let mut s = self.sessions.remove(i);
                proof {
                    assert(old(self)@.sessions[i as int] == s@);
                }
                s.apply_input(input, now);
                self.sessions.insert(i, s);
                proof {
                    let old_m = old(self)@;
                    let new_m = self@;
                    assert(new_m.sessions =~= old_m.sessions.update(i as int, moved(old_m.sessions[i as int], input, now)));
                    assert(new_m.records == old_m.records);
                    assert forall|a: int| 0 <= a < new_m.sessions.len() implies session_wf(#[trigger] new_m.sessions[a]) by {
                        if a != i {
                            assert(new_m.sessions[a] == old_m.sessions[a]);
                        }
                    }
                    assert forall|a: int, b: int| 0 <= a < b < new_m.sessions.len() implies (
                    #[trigger] new_m.sessions[a]).addr != (#[trigger] new_m.sessions[b]).addr
                        && new_m.sessions[a].id != new_m.sessions[b].id by {
                        assert(old_m.sessions[a].addr != old_m.sessions[b].addr);
                    }
                    assert forall|a: int, k: int|
                        0 <= a < new_m.sessions.len() && 0 <= k < new_m.records.len() implies (
                    #[trigger] new_m.sessions[a]).id != (#[trigger] new_m.records[k]).id by {
                        assert(old_m.sessions[a].id != old_m.records[k].id);
                    }
                }
            },
            None => {},
        }
    }

    /// Removes the session bound to `addr`, keeping a record of it stamped
    /// with time `now`. Does nothing for an unknown address.
    pub fn disconnect_player_at(&mut self, addr: PeerAddr, now: u64)
        requires
            old(self).wf(),
        ensures
            final(self).wf(),
            final(self)@ == disconnected(old(self)@, addr, now),
    {
        match self.find_addr(addr) {
            Some(i) => {
                let s = self.sessions.remove(i);
                self.disconnected.push(
                    DisconnectedRecord { id: s.id, position: s.player.position, color: s.player.color, disconnected_at: now },
                );
                proof {
                    let old_m = old(self)@;
                    let new_m = self@;
                    assert(old_m.sessions[i as int] == s@);
                    assert(new_m.sessions =~= old_m.sessions.remove(i as int));
                    assert(new_m.records =~= old_m.records.push(record_of(s@, now)));
                    assert forall|a: int, b: int| 0 <= a < b < new_m.sessions.len() implies (
                    #[trigger] new_m.sessions[a]).addr != (#[trigger] new_m.sessions[b]).addr
                        && new_m.sessions[a].id != new_m.sessions[b].id by {
                        let a0 = if a < i { a } else { a + 1 };
                        let b0 = if b < i { b } else { b + 1 };
                        assert(old_m.sessions[a0].addr != old_m.sessions[b0].addr);
                    }
                    assert forall|a: int, b: int| 0 <= a < b < new_m.records.len() implies (
                    #[trigger] new_m.records[a]).id != (#[trigger] new_m.records[b]).id by {
                        if b == new_m.records.len() - 1 {
                            assert(old_m.sessions[i as int].id != old_m.records[a].id);
                        }
                    }
                    assert forall|a: int, k: int|
                        0 <= a < new_m.sessions.len() && 0 <= k < new_m.records.len() implies (
                    #[trigger] new_m.sessions[a]).id != (#[trigger] new_m.records[k]).id by {
                        let a0 = if a < i { a } else { a + 1 };
                        if k == new_m.records.len() - 1 {
                            assert(old_m.sessions[a0].id != old_m.sessions[i as int].id);
                        } else {
                            assert(old_m.sessions[a0].id != old_m.records[k].id);
                        }
                    }
                }
            },
            None => {},
        }
    }
}


impl Game {
    /// Evicts, at time `now`, every session silent for at least `timeout`
    /// milliseconds; each is disconnected and leaves a record. Safe to call
    /// repeatedly.
    pub fn evict_timed_out(&mut self, now: u64, timeout: u64)
        requires
            old(self).wf(),
        ensures
            final(self).wf(),
            final(self)@ == evicted(old(self)@, now, timeout),
    {
        let ghost sessions0 = self@.sessions;
        let mut addrs: Vec<PeerAddr> = Vec::new();
        let mut i: usize = 0;
        while i < self.sessions.len()
            invariant
                i <= self@.sessions.len(),
                self@ == old(self)@,
                sessions0 == self@.sessions,
                addrs@ == timed_out_addrs(sessions0.take(i as int), now, timeout),
            decreases self@.sessions.len() - i,
        {
            let last_active = self.sessions[i].player.last_active;
            let out = now >= last_active && now - last_active >= timeout;
            if out {
                addrs.push(self.sessions[i].addr);
            }
            proof {
                reveal(Seq::filter);
                let t = sessions0.take(i + 1);
                assert(t.drop_last() =~= sessions0.take(i as int));
                assert(t.last() == sessions0[i as int]);
                assert(addrs@ =~= timed_out_addrs(t, now, timeout));
            }
            i = i + 1;
        }
        proof {
            assert(sessions0.take(sessions0.len() as int) =~= sessions0);
        }
        let mut k: usize = 0;
        while k < addrs.len()
            invariant
                k <= addrs@.len(),
                addrs@ == timed_out_addrs(sessions0, now, timeout),
                sessions0 == old(self)@.sessions,
                self.wf(),
                self@ == disconnect_all(old(self)@, addrs@.take(k as int), now),
            decreases addrs@.len() - k,
        {
            self.disconnect_player_at(addrs[k], now);
            proof {
                assert(addrs@.take(k + 1).drop_last() =~= addrs@.take(k as int));
            }
            k = k + 1;
        }
        proof {
            assert(addrs@.take(addrs@.len() as int) =~= addrs@);
        }
    }

    /// Resumes identity `previous_id` for `addr` at `claimed_position`
    /// (clamped to the board), at time `now`. Succeeds only when the identity has a record no older than
    /// `grace_period`, is not live, and the address has no live session; the
    /// record's color is carried over. On failure nothing changes, and the
    /// caller treats the attempt as a fresh connect.
    pub fn reconnect_player(
        &mut self,
        addr: PeerAddr,
        previous_id: u128,
        claimed_position: Position,
        now: u64,
        grace_period: u64,
    ) -> (r: bool)
        requires
            old(self).wf(),
        ensures
            final(self).wf(),
            r == reconnect_allowed(old(self)@, addr, previous_id, now, grace_period),
            final(self)@ == reconnected(old(self)@, addr, previous_id, claimed_position, now, grace_period),
    {
        if self.find_addr(addr).is_some() {
            return false;
        }
        if self.find_id(previous_id).is_some() {
            return false;
        }
        match self.find_record(previous_id) {
            None => false,
            Some(k) => {
                let rec = self.disconnected[k];
                if now >= rec.disconnected_at && now - rec.disconnected_at > grace_period {
                    return false;
                }
                let _ = self.disconnected.remove(k);
                let start = clamp_position(claimed_position.x as i64, claimed_position.y as i64);
                let s = Session::fresh(addr, previous_id, start, rec.color, now);
                self.sessions.push(s);
                proof {
                    let old_m = old(self)@;
                    let new_m = self@;
                    assert(new_m.sessions =~= old_m.sessions.push(new_session(addr, previous_id, start, rec.color, now)));
                    assert(new_m.records =~= old_m.records.remove(k as int));
                    assert forall|a: int| 0 <= a < new_m.sessions.len() implies session_wf(#[trigger] new_m.sessions[a]) by {
                        if a < old_m.sessions.len() {
                            assert(new_m.sessions[a] == old_m.sessions[a]);
                        }
                    }
                    assert forall|a: int, b: int| 0 <= a < b < new_m.sessions.len() implies (
                    #[trigger] new_m.sessions[a]).addr != (#[trigger] new_m.sessions[b]).addr
                        && new_m.sessions[a].id != new_m.sessions[b].id by {
                        if b == new_m.sessions.len() - 1 {
                            assert(old_m.sessions[a].addr != addr);
                            assert(old_m.sessions[a].id != previous_id);
                        }
                    }
                    assert forall|a: int, b: int| 0 <= a < b < new_m.records.len() implies (
                    #[trigger] new_m.records[a]).id != (#[trigger] new_m.records[b]).id by {
                        let a0 = if a < k { a } else { a + 1 };
                        let b0 = if b < k { b } else { b + 1 };
                        assert(old_m.records[a0].id != old_m.records[b0].id);
                    }
                    assert forall|a: int, c: int|
                        0 <= a < new_m.sessions.len() && 0 <= c < new_m.records.len() implies (
                    #[trigger] new_m.sessions[a]).id != (#[trigger] new_m.records[c]).id by {
                        let c0 = if c < k { c } else { c + 1 };
                        if a == new_m.sessions.len() - 1 {
                            assert(old_m.records[c0].id != old_m.records[k as int].id);
                        } else {
                            assert(old_m.sessions[a].id != old_m.records[c0].id);
                        }
                    }
                }
                true
            },
        }
    }

    /// Removes, at time `now`, the records older than `grace_period` whose
    /// identity is not live.
    pub fn cleanup_expired(&mut self, now: u64, grace_period: u64)
        requires
            old(self).wf(),
        ensures
            final(self).wf(),
            final(self)@ == cleaned(old(self)@, now, grace_period),
    {
        let ghost m = self@;
        let ghost pred = record_kept(m, now, grace_period);
        let mut kept: Vec<DisconnectedRecord> = Vec::new();
        let mut k: usize = 0;
        while k < self.disconnected.len()
            invariant
                k <= self@.records.len(),
                self@ == m,
                self.wf(),
                pred == record_kept(m, now, grace_period),
                kept@ == m.records.take(k as int).filter(pred),
            decreases self@.records.len() - k,
        {
            let r = self.disconnected[k];
            let expired = now >= r.disconnected_at && now - r.disconnected_at > grace_period && self.find_id(r.id).is_none();
            if !expired {
                kept.push(r);
            }
            proof {
                reveal(Seq::filter);
                let t = m.records.take(k + 1);
                assert(t.drop_last() =~= m.records.take(k as int));
                assert(t.last() == m.records[k as int]);
            }
            k = k + 1;
        }
        proof {
            assert(m.records.take(m.records.len() as int) =~= m.records);
        }
        self.disconnected = kept;
        proof {
            let new_m = self@;
            assert(new_m.sessions == m.sessions);
            assert(records_unique(m.records));
            lemma_filter_records_unique(m.records, pred);
            lemma_filter_from(m.records, pred);
            assert forall|a: int, c: int|
                0 <= a < new_m.sessions.len() && 0 <= c < new_m.records.len() implies (
            #[trigger] new_m.sessions[a]).id != (#[trigger] new_m.records[c]).id by {
                assert(m.records.contains(new_m.records[c]));
                let c0 = choose|c0: int| 0 <= c0 < m.records.len() && m.records[c0] == new_m.records[c];
                assert(m.sessions[a].id != m.records[c0].id);
            }
        }
    }

    /// Marks `addr` as heard from at time `now`. Does nothing for an unknown
    /// address.
    pub fn touch_player(&mut self, addr: PeerAddr, now: u64)
        requires
            old(self).wf(),
        ensures
            final(self).wf(),
            final(self)@ == touched(old(self)@, addr, now),
    {
        match self.find_addr(addr) {
            Some(i) => {
                let mut s = self.sessions.remove(i);
                proof {
                    assert(old(self)@.sessions[i as int] == s@);
                }
                s.player.last_active = now;
                self.sessions.insert(i, s);
                proof {
                    let old_m = old(self)@;
                    let new_m = self@;
                    assert(new_m.sessions =~= old_m.sessions.update(
                        i as int,
                        SessionModel { last_active: now, ..old_m.sessions[i as int] },
                    ));
                    assert(new_m.records == old_m.records);
                    assert forall|a: int| 0 <= a < new_m.sessions.len() implies session_wf(#[trigger] new_m.sessions[a]) by {
                        if a != i {
                            assert(new_m.sessions[a] == old_m.sessions[a]);
                        }
                    }
                    assert forall|a: int, b: int| 0 <= a < b < new_m.sessions.len() implies (
                    #[trigger] new_m.sessions[a]).addr != (#[trigger] new_m.sessions[b]).addr
                        && new_m.sessions[a].id != new_m.sessions[b].id by {
                        assert(old_m.sessions[a].addr != old_m.sessions[b].addr);
                    }
                    assert forall|a: int, c: int|
                        0 <= a < new_m.sessions.len() && 0 <= c < new_m.records.len() implies (
                    #[trigger] new_m.sessions[a]).id != (#[trigger] new_m.records[c]).id by {
                        assert(old_m.sessions[a].id != old_m.records[c].id);
                    }
                }
            },
            None => {},
        }
    }
}


impl Game {
    /// The live sessions.
    pub fn sessions(&self) -> (r: &Vec<Session>)
        ensures
            r@.map_values(|s: Session| s@) == self@.sessions,
    {
        &self.sessions
    }

    /// The records of disconnected players.
    pub fn disconnected_records(&self) -> (r: &Vec<DisconnectedRecord>)
        ensures
            r@ == self@.records,
    {
        &self.disconnected
    }

    /// The live session bound to `addr`, if any.
    pub fn player(&self, addr: PeerAddr) -> (r: Option<&Session>)
        requires
            self.wf(),
        ensures
            r.is_none() == !has_addr(self@, addr),
            r matches Some(s) ==> s@ == self@.sessions[addr_index(self@, addr)],
    {
        match self.find_addr(addr) {
            Some(i) => Some(&self.sessions[i]),
            None => None,
        }
    }

    /// The addresses of the live sessions, in session order.
    pub fn active_player_addrs(&self) -> (r: Vec<PeerAddr>)
        ensures
            r@ == self@.sessions.map_values(|s: SessionModel| s.addr),
    {
        let mut r: Vec<PeerAddr> = Vec::new();
        let mut i: usize = 0;
        while i < self.sessions.len()
            invariant
                i <= self@.sessions.len(),
                r@ == self@.sessions.take(i as int).map_values(|s: SessionModel| s.addr),
            decreases self@.sessions.len() - i,
        {
            r.push(self.sessions[i].addr);
            proof {
                assert(self@.sessions.take(i + 1) =~= self@.sessions.take(i as int).push(self@.sessions[i as int]));
                assert(r@ =~= self@.sessions.take(i + 1).map_values(|s: SessionModel| s.addr));
            }
            i = i + 1;
        }
        proof {
            assert(self@.sessions.take(self@.sessions.len() as int) =~= self@.sessions);
        }
        r
    }

    /// A snapshot of every live player, stamped with `server_timestamp`.
    /// Reads the store and changes nothing.
    pub fn build_snapshot_at(&self, server_timestamp: u64) -> (r: GameState)
        ensures
            r.players@ == self@.sessions.map_values(|s: SessionModel| snapshot_entry(s)),
            r.last_processed@ == processed_map(self@.sessions),
            r.server_timestamp == server_timestamp,
    {
        let mut players: Vec<(u128, Position, u32)> = Vec::new();
        let mut last_processed: HashMap<u128, u32> = HashMap::new();
        let mut i: usize = 0;
        while i < self.sessions.len()
            invariant
                i <= self@.sessions.len(),
                players@ == self@.sessions.take(i as int).map_values(|s: SessionModel| snapshot_entry(s)),
                last_processed@ == processed_map(self@.sessions.take(i as int)),
            decreases self@.sessions.len() - i,
        {
            let s = &self.sessions[i];
            players.push((s.id, s.player.position, s.player.color));
            match s.last_processed {
                Some(q) => {
                    last_processed.insert(s.id, q);
                },
                None => {},
            }
            proof {
                let t = self@.sessions.take(i + 1);
                assert(t =~= self@.sessions.take(i as int).push(self@.sessions[i as int]));
                assert(t.drop_last() =~= self@.sessions.take(i as int));
                assert(players@ =~= t.map_values(|s: SessionModel| snapshot_entry(s)));
            }
            i = i + 1;
        }
        proof {
            assert(self@.sessions.take(self@.sessions.len() as int) =~= self@.sessions);
        }
        GameState { players, last_processed, server_timestamp }
    }

    /// The position of identity `id` reconstructed at time `timestamp`, by
    /// interpolating its history; the oldest sample before the history and
    /// the newest after it. `None` for an identity that is not live.
    pub fn position_at(&self, id: u128, timestamp: u64) -> (r: Option<Position>)
        requires
            self.wf(),
        ensures
            r == position_at_spec(self@, id, timestamp as int),
    {
        match self.find_id(id) {
            Some(i) => {
                proof {
                    assert(session_wf(self@.sessions[i as int]));
                }
                proof {
                    assert(self@.sessions[i as int] == self.sessions@[i as int]@);
                }
                Some(sample_history(&self.sessions[i].player.position_history, timestamp))
            },
            None => None,
        }
    }

    /// Every unordered pair of live sessions whose positions reconstructed at
    /// `timestamp` are equal, each pair once. Quadratic in the number of
    /// sessions.
    pub fn collision_check(&self, timestamp: u64) -> (r: Vec<(u128, u128)>)
        requires
            self.wf(),
        ensures
            r@ == collisions(self@, timestamp as int),
    {
        let ghost m = self@;
        let ghost t = timestamp as int;
        let n = self.sessions.len();
        let mut positions: Vec<Position> = Vec::new();
        let mut k: usize = 0;
        while k < n
            invariant
                n == m.sessions.len(),
                m == self@,
                t == timestamp as int,
                game_wf(m),
                k <= n,
                positions@.len() == k,
                forall|a: int| 0 <= a < k ==> positions@[a] == session_position_at(m.sessions[a], t),
            decreases n - k,
        {
            proof {
                assert(session_wf(m.sessions[k as int]));
            }
            let hist = &self.sessions[k].player.position_history;
            let p = sample_history(hist, timestamp);
            proof {
                assert(m.sessions[k as int] == self.sessions@[k as int]@);
                assert(hist@ == m.sessions[k as int].history);
                assert(p == session_position_at(m.sessions[k as int], t));
            }
            positions.push(p);
            k = k + 1;
        }
        let mut r: Vec<(u128, u128)> = Vec::new();
        let mut i: usize = 0;
        while i < n
            invariant
                n == m.sessions.len(),
                m == self@,
                t == timestamp as int,
                i <= n,
                positions@.len() == n,
                forall|a: int| 0 <= a < n ==> positions@[a] == session_position_at(m.sessions[a], t),
                r@ == collision_rows(m, t, i as int),
            decreases n - i,
        {
            let mut j: usize = i + 1;
            proof {
                assert(collision_row(m, t, i as int, j as int) =~= Seq::<(u128, u128)>::empty());
                assert(r@ + collision_row(m, t, i as int, j as int) =~= r@);
            }
            let ghost before = r@;
            while j < n
                invariant
                    n == m.sessions.len(),
                    m == self@,
                    i < n,
                    i + 1 <= j <= n,
                    positions@.len() == n,
                    forall|a: int| 0 <= a < n ==> positions@[a] == session_position_at(m.sessions[a], t),
                    before == collision_rows(m, t, i as int),
                    r@ == before + collision_row(m, t, i as int, j as int),
                decreases n - j,
            {
                if positions[i] == positions[j] {
                    r.push((self.sessions[i].id, self.sessions[j].id));
                }
                proof {
                    let row = collision_row(m, t, i as int, j + 1);
                    assert(row == collision_row(m, t, i as int, j as int) + if collide(m, t, i as int, j as int) {
                        seq![(m.sessions[i as int].id, m.sessions[j as int].id)]
                    } else {
                        Seq::empty()
                    });
                    assert(r@ =~= before + row);
                }
                j = j + 1;
            }
            proof {
                assert(collision_rows(m, t, i + 1) == collision_rows(m, t, i as int) + collision_row(m, t, i as int, n as int));
            }
            i = i + 1;
        }
        r
    }

    /// An identity neither live nor resumable: the smallest such value.
    fn unused_id(&self) -> (r: u128)
        requires
            self.wf(),
        ensures
            !id_in_use(self@, r),
    {
        let ghost m = self@;
        let total: u128 = self.sessions.len() as u128 + self.disconnected.len() as u128;
        let mut c: u128 = 0;
        while self.find_id(c).is_some() || self.find_record(c).is_some()
            invariant
                self.wf(),
                m == self@,
                total == m.sessions.len() + m.records.len(),
                c <= total,
                forall|k: int| 0 <= k < c ==> used_ids(m).contains(k),
            decreases total - c,
        {
            proof {
                let ls = m.sessions.map_values(|s: SessionModel| s.id as int);
                let rs = m.records.map_values(|r: DisconnectedRecord| r.id as int);
                if id_live(m, c) {
                    let i = id_index(m, c);
                    assert(ls[i] == c as int);
                    assert(ls.contains(c as int));
                } else {
                    let k = record_index(m, c);
                    assert(rs[k] == c as int);
                    assert(rs.contains(c as int));
                }
                assert(used_ids(m).contains(c as int));
                assert(set_int_range(0, c + 1).subset_of(used_ids(m)));
                lemma_int_range(0, c + 1);
                seq_to_set_is_finite(ls);
                seq_to_set_is_finite(rs);
                lemma_len_union(ls.to_set(), rs.to_set());
                ls.lemma_cardinality_of_set();
                rs.lemma_cardinality_of_set();
                lemma_len_subset(set_int_range(0, c + 1), used_ids(m));
            }
            c = c + 1;
        }
        c
    }

    /// Connects `addr` with a random identity, a random spawn position and a
    /// random palette color, at the current time; see `connect_fresh`.
    pub fn connect_player(&mut self, addr: PeerAddr) -> (r: u128)
        requires
            old(self).wf(),
        ensures
            final(self).wf(),
            has_addr(old(self)@, addr) ==> r == old(self)@.sessions[addr_index(old(self)@, addr)].id
                && final(self)@ == old(self)@,
            !has_addr(old(self)@, addr) ==> fresh_connect(old(self)@, final(self)@, addr, r),
    {
        let now = now_millis();
        self.connect_fresh(addr, now)
    }

    /// Connects `addr` at time `now` with a random identity not in use, a
    /// random spawn position and a random palette color. Idempotent: an
    /// address that already has a session keeps it, and its identity is
    /// returned.
    pub fn connect_fresh(&mut self, addr: PeerAddr, now: u64) -> (r: u128)
        requires
            old(self).wf(),
        ensures
            final(self).wf(),
            has_addr(old(self)@, addr) ==> r == old(self)@.sessions[addr_index(old(self)@, addr)].id
                && final(self)@ == old(self)@,
            !has_addr(old(self)@, addr) ==> fresh_connect(old(self)@, final(self)@, addr, r)
                && final(self)@.sessions.last().last_active == now,
    {
        match self.find_addr(addr) {
            Some(i) => {
                return self.sessions[i].id;
            },
            None => {},
        }
        let x = random_in_range(PLAYER_SIZE, BOARD_WIDTH - PLAYER_SIZE - 1);
        let y = random_in_range(PLAYER_SIZE, BOARD_HEIGHT - PLAYER_SIZE - TOOL_BAR_HEIGHT - 1);
        let colors = get_palette();
        let pick = random_in_range(0, (colors.len() - 1) as i32);
        let color = colors[pick as usize];
        proof {
            assert(palette()[pick as int] == color);
        }
        let mut id = new_player_id();
        if self.find_id(id).is_some() || self.find_record(id).is_some() {
            id = self.unused_id();
        }
        let r = self.connect_player_at(addr, id, Position { x, y }, color, now);
        proof {
            assert(self@.sessions.drop_last() =~= old(self)@.sessions);
        }
        r
    }

    /// Applies `input` from `addr` at the current time; see `handle_input_at`.
    pub fn handle_input(&mut self, addr: PeerAddr, input: PlayerInput)
        requires
            old(self).wf(),
        ensures
            final(self).wf(),
            exists|now: u64| final(self)@ == input_applied(old(self)@, addr, input, now),
    {
        let now = now_millis();
        self.handle_input_at(addr, input, now);
    }

    /// Evicts the sessions silent for the default timeout, at the current
    /// time; see `evict_timed_out`.
    pub fn update_server_dropped(&mut self)
        requires
            old(self).wf(),
        ensures
            final(self).wf(),
            exists|now: u64| final(self)@ == evicted(old(self)@, now, TIMEOUT_MS),
    {
        let now = now_millis();
        self.evict_timed_out(now, TIMEOUT_MS);
    }

    /// Disconnects `addr` at the current time; see `disconnect_player_at`.
    pub fn disconnect_player(&mut self, addr: PeerAddr)
        requires
            old(self).wf(),
        ensures
            final(self).wf(),
            exists|now: u64| final(self)@ == disconnected(old(self)@, addr, now),
    {
        let now = now_millis();
        self.disconnect_player_at(addr, now);
    }

    /// A snapshot of every live player stamped with the current time; see
    /// `build_snapshot_at`.
    pub fn build_snapshot(&self) -> (r: GameState)
        ensures
            r.players@ == self@.sessions.map_values(|s: SessionModel| snapshot_entry(s)),
            r.last_processed@ == processed_map(self@.sessions),
    {
        let now = now_millis();
        self.build_snapshot_at(now)
    }
}

/// Reconstructing a live player's position before its whole history gives
/// the oldest sample, and at or after its whole history the newest; nothing
/// is extrapolated.
pub proof fn lemma_position_at_outside_history(m: GameModel, id: u128, t: int)
    requires
        game_wf(m),
        id_live(m, id),
    ensures
        ({
            let h = m.sessions[id_index(m, id)].history;
            &&& (forall|k: int| 0 <= k < h.len() ==> t < (#[trigger] h[k]).timestamp) ==> position_at_spec(m, id, t)
                == Some(h[0].position)
            &&& (forall|k: int| 0 <= k < h.len() ==> (#[trigger] h[k]).timestamp <= t) ==> position_at_spec(m, id, t)
                == Some(h[h.len() - 1].position)
        }),
{
    let i = id_index(m, id);
    let h = m.sessions[i].history;
    assert(session_wf(m.sessions[i]));
    let track = history_track(h);
    lemma_sample_outside_track(track, t);
    if forall|k: int| 0 <= k < h.len() ==> t < (#[trigger] h[k]).timestamp {
        assert forall|k: int| 0 <= k < track.len() implies t < track[k].0 by {
            assert(t < h[k].timestamp);
        }
    }
    if forall|k: int| 0 <= k < h.len() ==> (#[trigger] h[k]).timestamp <= t {
        assert forall|k: int| 0 <= k < track.len() implies track[k].0 <= t by {
            assert(h[k].timestamp <= t);
        }
    }
}

/// Reconnecting within the grace period restores the disconnected identity
/// with its color; after the grace period the reconnect fails, leaves the
/// store as it was, and once expired records are cleaned up the identity is
/// neither live nor resumable, so it is never revived.
pub proof fn lemma_reconnect_grace_period(
    m: GameModel,
    old_addr: PeerAddr,
    disconnected_at: u64,
    addr: PeerAddr,
    claimed: Position,
    now: u64,
    grace_period: u64,
)
    requires
        game_wf(m),
        has_addr(m, old_addr),
        !has_addr(disconnected(m, old_addr, disconnected_at), addr),
    ensures
        ({
            let s = m.sessions[addr_index(m, old_addr)];
            let m1 = disconnected(m, old_addr, disconnected_at);
            &&& now - disconnected_at <= grace_period ==> {
                &&& reconnect_allowed(m1, addr, s.id, now, grace_period)
                &&& reconnected(m1, addr, s.id, claimed, now, grace_period).sessions.last() == new_session(
                    addr,
                    s.id,
                    clamp_to_board(claimed.x as int, claimed.y as int),
                    s.color,
                    now,
                )
            }
            &&& now - disconnected_at > grace_period ==> {
                &&& !reconnect_allowed(m1, addr, s.id, now, grace_period)
                &&& reconnected(m1, addr, s.id, claimed, now, grace_period) == m1
                &&& !id_in_use(cleaned(m1, now, grace_period), s.id)
            }
        }),
{
    let i = addr_index(m, old_addr);
    let s = m.sessions[i];
    let m1 = disconnected(m, old_addr, disconnected_at);
    let last = m1.records.len() - 1;
    assert(m1.records[last] == record_of(s, disconnected_at));
    assert(has_record(m1, s.id));
    let k = record_index(m1, s.id);
    if k != last {
        assert(m.records[k].id == s.id);
        assert(m.sessions[i].id != m.records[k].id);
    }
    assert(!id_live(m1, s.id)) by {
        if id_live(m1, s.id) {
            let j = id_index(m1, s.id);
            let j0 = if j < i { j } else { j + 1 };
            assert(m.sessions[j0].id == s.id);
            if j0 < i {
                assert(m.sessions[j0].id != m.sessions[i].id);
            } else {
                assert(m.sessions[i].id != m.sessions[j0].id);
            }
        }
    }
    if now - disconnected_at > grace_period {
        let pred = record_kept(m1, now, grace_period);
        let c = cleaned(m1, now, grace_period);
        assert(c.sessions == m1.sessions);
        assert(!has_record(c, s.id)) by {
            if has_record(c, s.id) {
                let q = record_index(c, s.id);
                lemma_filter_from(m1.records, pred);
                assert(m1.records.contains(c.records[q]));
                let q0 = choose|q0: int| 0 <= q0 < m1.records.len() && m1.records[q0] == c.records[q];
                if q0 != last {
                    assert(m.records[q0].id == s.id);
                    assert(m.sessions[i].id != m.records[q0].id);
                }
                m1.records.lemma_filter_pred(pred, q);
            }
        }
    }
}

/// Whether no two live sessions share an address.
pub open spec fn addrs_unique(s: Seq<SessionModel>) -> bool {
    forall|i: int, j: int| 0 <= i < j < s.len() ==> (#[trigger] s[i]).addr != (#[trigger] s[j]).addr
}

/// Disconnecting a list of addresses keeps only sessions of the store whose
/// address is not in the list, and keeps addresses unique.
proof fn lemma_disconnect_all_sessions(m: GameModel, addrs: Seq<PeerAddr>, now: u64)
    requires
        addrs_unique(m.sessions),
    ensures
        addrs_unique(disconnect_all(m, addrs, now).sessions),
        forall|k: int|
            0 <= k < disconnect_all(m, addrs, now).sessions.len() ==> m.sessions.contains(
                #[trigger] disconnect_all(m, addrs, now).sessions[k],
            ) && !addrs.contains(disconnect_all(m, addrs, now).sessions[k].addr),
    decreases addrs.len(),
{
    if addrs.len() > 0 {
        let rest = addrs.drop_last();
        let a = addrs.last();
        lemma_disconnect_all_sessions(m, rest, now);
        let before = disconnect_all(m, rest, now);
        let after = disconnect_all(m, addrs, now);
        assert(after == disconnected(before, a, now));
        if has_addr(before, a) {
            let i = addr_index(before, a);
            assert(after.sessions == before.sessions.remove(i));
            assert forall|x: int, y: int| 0 <= x < y < after.sessions.len() implies (#[trigger] after.sessions[x]).addr
                != (#[trigger] after.sessions[y]).addr by {
                let x0 = if x < i { x } else { x + 1 };
                let y0 = if y < i { y } else { y + 1 };
                assert(before.sessions[x0].addr != before.sessions[y0].addr);
            }
            assert forall|k: int| 0 <= k < after.sessions.len() implies m.sessions.contains(#[trigger] after.sessions[k])
                && !addrs.contains(after.sessions[k].addr) by {
                let k0 = if k < i { k } else { k + 1 };
                assert(after.sessions[k] == before.sessions[k0]);
                assert(m.sessions.contains(before.sessions[k0]));
                assert(!rest.contains(before.sessions[k0].addr));
                if k0 < i {
                    assert(before.sessions[k0].addr != before.sessions[i].addr);
                } else {
                    assert(before.sessions[i].addr != before.sessions[k0].addr);
                }
                if addrs.contains(after.sessions[k].addr) {
                    let q = choose|q: int| 0 <= q < addrs.len() && addrs[q] == after.sessions[k].addr;
                    if q < addrs.len() - 1 {
                        assert(rest[q] == addrs[q]);
                    }
                }
            }
        } else {
            assert forall|k: int| 0 <= k < after.sessions.len() implies m.sessions.contains(#[trigger] after.sessions[k])
                && !addrs.contains(after.sessions[k].addr) by {
                assert(after.sessions[k] == before.sessions[k]);
                if addrs.contains(after.sessions[k].addr) {
                    let q = choose|q: int| 0 <= q < addrs.len() && addrs[q] == after.sessions[k].addr;
                    if q < addrs.len() - 1 {
                        assert(rest[q] == addrs[q]);
                    } else {
                        assert(before.sessions[k].addr == a);
                    }
                }
            }
        }
    }
}

/// Eviction leaves no live session that has timed out at that time, so
/// evicting again at the same time changes nothing.
pub proof fn lemma_evict_idempotent(m: GameModel, now: u64, timeout: u64)
    requires
        game_wf(m),
    ensures
        forall|k: int|
            0 <= k < evicted(m, now, timeout).sessions.len() ==> !timed_out(
                #[trigger] evicted(m, now, timeout).sessions[k],
                now,
                timeout,
            ),
        evicted(evicted(m, now, timeout), now, timeout) == evicted(m, now, timeout),
{
    reveal(Seq::filter);
    let addrs = timed_out_addrs(m.sessions, now, timeout);
    let e = evicted(m, now, timeout);
    assert(addrs_unique(m.sessions)) by {
        assert forall|i: int, j: int| 0 <= i < j < m.sessions.len() implies (#[trigger] m.sessions[i]).addr
            != (#[trigger] m.sessions[j]).addr by {
            assert(m.sessions[i].addr != m.sessions[j].addr);
        }
    }
    lemma_disconnect_all_sessions(m, addrs, now);
    let pred = timed_out_at(now, timeout);
    assert forall|k: int| 0 <= k < e.sessions.len() implies !timed_out(#[trigger] e.sessions[k], now, timeout) by {
        if timed_out(e.sessions[k], now, timeout) {
            assert(m.sessions.contains(e.sessions[k]));
            let k0 = choose|k0: int| 0 <= k0 < m.sessions.len() && m.sessions[k0] == e.sessions[k];
            m.sessions.lemma_filter_contains(pred, k0);
            let f = m.sessions.filter(pred);
            let q = choose|q: int| 0 <= q < f.len() && f[q] == m.sessions[k0];
            assert(addrs[q] == e.sessions[k].addr);
            assert(addrs.contains(e.sessions[k].addr));
        }
    }
    let f2 = e.sessions.filter(pred);
    assert(f2.len() == 0) by {
        if f2.len() > 0 {
            e.sessions.lemma_filter_pred(pred, 0);
            lemma_filter_from(e.sessions, pred);
            assert(e.sessions.contains(f2[0]));
        }
    }
    assert(timed_out_addrs(e.sessions, now, timeout) =~= Seq::<PeerAddr>::empty());
}

/// Whether no element occurs twice in a sequence.
pub open spec fn no_duplicates<A>(s: Seq<A>) -> bool {
    forall|p: int, q: int| 0 <= p < q < s.len() ==> s[p] != s[q]
}

/// Whether `e` is the pair of session `i` and a colliding session between
/// `i` and `j`.
pub open spec fn row_pair(m: GameModel, t: int, i: int, j: int, e: (u128, u128)) -> bool {
    exists|k: int| i < k < j && #[trigger] collide(m, t, i, k) && e == (m.sessions[i].id, m.sessions[k].id)
}

/// Whether `e` is the pair of two colliding sessions, the first below `r`.
pub open spec fn rows_pair(m: GameModel, t: int, r: int, e: (u128, u128)) -> bool {
    exists|a: int, b: int|
        0 <= a < r && a < b < m.sessions.len() && #[trigger] collide(m, t, a, b) && e == (
            m.sessions[a].id,
            m.sessions[b].id,
        )
}

/// The pairs of one row are exactly the colliding later sessions, each once.
proof fn lemma_collision_row(m: GameModel, t: int, i: int, j: int)
    requires
        game_wf(m),
        0 <= i < m.sessions.len(),
        j <= m.sessions.len(),
    ensures
        forall|p: int| 0 <= p < collision_row(m, t, i, j).len() ==> row_pair(m, t, i, j, #[trigger] collision_row(m, t, i, j)[p]),
        forall|k: int|
            i < k < j && #[trigger] collide(m, t, i, k) ==> collision_row(m, t, i, j).contains(
                (m.sessions[i].id, m.sessions[k].id),
            ),
        no_duplicates(collision_row(m, t, i, j)),
    decreases j - i,
{
    if j > i + 1 {
        lemma_collision_row(m, t, i, j - 1);
        let prev = collision_row(m, t, i, j - 1);
        let row = collision_row(m, t, i, j);
        let pair = (m.sessions[i].id, m.sessions[j - 1].id);
        if collide(m, t, i, j - 1) {
            assert(row =~= prev.push(pair));
            assert forall|p: int| 0 <= p < row.len() implies row_pair(m, t, i, j, #[trigger] row[p]) by {
                if p < prev.len() {
                    assert(row[p] == prev[p]);
                    assert(row_pair(m, t, i, j - 1, prev[p]));
                    let k = choose|k: int| i < k < j - 1 && #[trigger] collide(m, t, i, k) && prev[p] == (m.sessions[i].id, m.sessions[k].id);
                    assert(collide(m, t, i, k));
                } else {
                    assert(row[p] == pair);
                    assert(collide(m, t, i, j - 1));
                }
            }
            assert forall|k: int| i < k < j && #[trigger] collide(m, t, i, k) implies row.contains(
                (m.sessions[i].id, m.sessions[k].id),
            ) by {
                if k < j - 1 {
                    assert(prev.contains((m.sessions[i].id, m.sessions[k].id)));
                    let p = choose|p: int| 0 <= p < prev.len() && prev[p] == (m.sessions[i].id, m.sessions[k].id);
                    assert(row[p] == prev[p]);
                } else {
                    assert(row[row.len() - 1] == pair);
                }
            }
            assert forall|p: int, q: int| 0 <= p < q < row.len() implies row[p] != row[q] by {
                if q == row.len() - 1 {
                    assert(row[p] == prev[p]);
                    assert(row_pair(m, t, i, j - 1, prev[p]));
                    let k = choose|k: int| i < k < j - 1 && #[trigger] collide(m, t, i, k) && prev[p] == (m.sessions[i].id, m.sessions[k].id);
                    assert(m.sessions[k].id != m.sessions[j - 1].id);
                } else {
                    assert(row[p] == prev[p] && row[q] == prev[q]);
                }
            }
        } else {
            assert(row =~= prev);
            assert forall|p: int| 0 <= p < row.len() implies row_pair(m, t, i, j, #[trigger] row[p]) by {
                assert(row_pair(m, t, i, j - 1, prev[p]));
                let k = choose|k: int| i < k < j - 1 && #[trigger] collide(m, t, i, k) && prev[p] == (m.sessions[i].id, m.sessions[k].id);
                assert(collide(m, t, i, k));
            }
        }
    }
}

/// The pairs of the rows below `r` are exactly the colliding pairs whose
/// first session is below `r`, each once.
proof fn lemma_collision_rows(m: GameModel, t: int, r: int)
    requires
        game_wf(m),
        0 <= r <= m.sessions.len(),
    ensures
        forall|p: int| 0 <= p < collision_rows(m, t, r).len() ==> rows_pair(m, t, r, #[trigger] collision_rows(m, t, r)[p]),
        forall|a: int, b: int|
            0 <= a < r && a < b < m.sessions.len() && #[trigger] collide(m, t, a, b) ==> collision_rows(m, t, r).contains(
                (m.sessions[a].id, m.sessions[b].id),
            ),
        no_duplicates(collision_rows(m, t, r)),
    decreases r,
{
    if r > 0 {
        let n = m.sessions.len() as int;
        lemma_collision_rows(m, t, r - 1);
        lemma_collision_row(m, t, r - 1, n);
        let prev = collision_rows(m, t, r - 1);
        let row = collision_row(m, t, r - 1, n);
        let all = collision_rows(m, t, r);
        assert(all == prev + row);
        assert forall|p: int| 0 <= p < all.len() implies rows_pair(m, t, r, #[trigger] all[p]) by {
            if p < prev.len() {
                assert(all[p] == prev[p]);
                assert(rows_pair(m, t, r - 1, prev[p]));
                let (a, b) = choose|a: int, b: int|
                    0 <= a < r - 1 && a < b < n && #[trigger] collide(m, t, a, b) && prev[p] == (m.sessions[a].id, m.sessions[b].id);
                assert(collide(m, t, a, b));
            } else {
                assert(all[p] == row[p - prev.len()]);
                assert(row_pair(m, t, r - 1, n, row[p - prev.len()]));
                let k = choose|k: int| r - 1 < k < n && #[trigger] collide(m, t, r - 1, k) && row[p - prev.len()] == (m.sessions[r - 1].id, m.sessions[k].id);
                assert(collide(m, t, r - 1, k));
            }
        }
        assert forall|a: int, b: int| 0 <= a < r && a < b < n && #[trigger] collide(m, t, a, b) implies all.contains(
            (m.sessions[a].id, m.sessions[b].id),
        ) by {
            let pair = (m.sessions[a].id, m.sessions[b].id);
            if a < r - 1 {
                assert(prev.contains(pair));
                let p = choose|p: int| 0 <= p < prev.len() && prev[p] == pair;
                assert(all[p] == prev[p]);
            } else {
                assert(row.contains(pair));
                let p = choose|p: int| 0 <= p < row.len() && row[p] == pair;
                assert(all[prev.len() + p] == row[p]);
            }
        }
        assert forall|p: int, q: int| 0 <= p < q < all.len() implies all[p] != all[q] by {
            if q < prev.len() {
                assert(all[p] == prev[p] && all[q] == prev[q]);
            } else if p >= prev.len() {
                assert(all[p] == row[p - prev.len()] && all[q] == row[q - prev.len()]);
            } else {
                assert(all[p] == prev[p] && all[q] == row[q - prev.len()]);
                assert(rows_pair(m, t, r - 1, prev[p]));
                let (a, b) = choose|a: int, b: int|
                    0 <= a < r - 1 && a < b < n && #[trigger] collide(m, t, a, b) && prev[p] == (m.sessions[a].id, m.sessions[b].id);
                assert(row_pair(m, t, r - 1, n, row[q - prev.len()]));
                let k = choose|k: int| r - 1 < k < n && #[trigger] collide(m, t, r - 1, k) && row[q - prev.len()] == (m.sessions[r - 1].id, m.sessions[k].id);
                assert(m.sessions[a].id != m.sessions[r - 1].id);
            }
        }
    }
}

/// The collision check reports a pair of live sessions exactly when their
/// reconstructed positions are equal, and reports each pair once.
pub proof fn lemma_collisions_exactly_once(m: GameModel, t: int)
    requires
        game_wf(m),
    ensures
        forall|a: int, b: int|
            0 <= a < b < m.sessions.len() && #[trigger] collide(m, t, a, b) ==> collisions(m, t).contains(
                (m.sessions[a].id, m.sessions[b].id),
            ),
        forall|p: int|
            0 <= p < collisions(m, t).len() ==> rows_pair(m, t, m.sessions.len() as int, #[trigger] collisions(m, t)[p]),
        no_duplicates(collisions(m, t)),
{
    lemma_collision_rows(m, t, m.sessions.len() as int);
}

} // verus!
