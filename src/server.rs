use vstd::prelude::*;
use crate::constants::TIMEOUT_MS;
use crate::game::{
    Game, GameModel, addr_index, disconnected, evicted, fresh_connect, has_addr, input_applied, reconnect_allowed,
    reconnected, touched,
};
use crate::types::{ClientMessage, PeerAddr};

verus! {

/// What the server sends back to the sender of a message.
#[derive(Debug, Clone, Copy, PartialEq, Eq, Structural)]
pub enum ServerReply {
    /// Send this message.
    Send(ClientMessage),
    /// Send a full snapshot of the store as it is after the message.
    SendSnapshot,
}

/// The identity a connect-like message is answered with, and the store after
/// it: the existing session's identity for a known address, otherwise a fresh
/// session.
pub open spec fn connect_outcome(before: GameModel, after: GameModel, addr: PeerAddr, id: u128) -> bool {
    if has_addr(before, addr) {
        id == before.sessions[addr_index(before, addr)].id && after == before
    } else {
        fresh_connect(before, after, addr, id)
    }
}

/// The replies that assign identity `id` and then send the state.
pub open spec fn welcome(id: u128) -> Seq<ServerReply> {
    seq![ServerReply::Send(ClientMessage::PlayerId(id)), ServerReply::SendSnapshot]
}

impl Game {
    /// Handles one decoded message from `addr` received at time `now`, and
    /// returns the replies to send to `addr`, in order.
    ///
    /// `Connect` connects (idempotently) and answers with the identity and a
    /// snapshot. `Reconnect` resumes the claimed identity when
    /// `reconnect_player` allows it within `grace_period`, and otherwise
    /// falls back to a fresh connect. `Input` is applied, then silent
    /// sessions are evicted. `Ping` is echoed as `Pong` and marks the sender
    /// active. `Disconnect` disconnects the sender and is acknowledged.
    /// `Pong` and `PlayerId` are ignored.
    pub fn handle_client_message_at(&mut self, addr: PeerAddr, msg: ClientMessage, now: u64, grace_period: u64) -> (r: Vec<
        ServerReply,
    >)
        requires
            old(self).wf(),
        ensures
            final(self).wf(),
            match msg {
                ClientMessage::Connect => exists|id: u128|
                    connect_outcome(old(self)@, final(self)@, addr, id) && r@ == welcome(id),
                ClientMessage::Reconnect(id, position) => if reconnect_allowed(old(self)@, addr, id, now, grace_period) {
                    final(self)@ == reconnected(old(self)@, addr, id, position, now, grace_period) && r@ == welcome(id)
                } else {
                    exists|fresh: u128| connect_outcome(old(self)@, final(self)@, addr, fresh) && r@ == welcome(fresh)
                },
                ClientMessage::Input(input) => final(self)@ == evicted(input_applied(old(self)@, addr, input, now), now, TIMEOUT_MS)
                    && r@.len() == 0,
                ClientMessage::Ping(ts) => final(self)@ == touched(old(self)@, addr, now) && r@ == seq![
                    ServerReply::Send(ClientMessage::Pong(ts)),
                ],
                ClientMessage::Disconnect => final(self)@ == disconnected(old(self)@, addr, now) && r@ == seq![
                    ServerReply::Send(ClientMessage::Disconnect),
                ],
                _ => final(self)@ == old(self)@ && r@.len() == 0,
            },
    {
        let mut r: Vec<ServerReply> = Vec::new();
        match msg {
            ClientMessage::Connect => {
                let id = self.connect_fresh(addr, now);
                r.push(ServerReply::Send(ClientMessage::PlayerId(id)));
                r.push(ServerReply::SendSnapshot);
                proof {
                    assert(r@ =~= welcome(id));
                }
            },
            ClientMessage::Reconnect(id, position) => {
                let resumed = self.reconnect_player(addr, id, position, now, grace_period);
                let assigned = if resumed {
                    id
                } else {
                    self.connect_fresh(addr, now)
                };
                r.push(ServerReply::Send(ClientMessage::PlayerId(assigned)));
                r.push(ServerReply::SendSnapshot);
                proof {
                    assert(r@ =~= welcome(assigned));
                }
            },
            ClientMessage::Input(input) => {
                self.handle_input_at(addr, input, now);
                self.evict_timed_out(now, TIMEOUT_MS);
            },
            ClientMessage::Ping(ts) => {
                self.touch_player(addr, now);
                r.push(ServerReply::Send(ClientMessage::Pong(ts)));
                proof {
                    assert(r@ =~= seq![ServerReply::Send(ClientMessage::Pong(ts))]);
                }
            },
            ClientMessage::Disconnect => {
                self.disconnect_player_at(addr, now);
                r.push(ServerReply::Send(ClientMessage::Disconnect));
                proof {
                    assert(r@ =~= seq![ServerReply::Send(ClientMessage::Disconnect)]);
                }
            },
            ClientMessage::Pong(_) => {},
            ClientMessage::PlayerId(_) => {},
        }
        r
    }
}

} // verus!
