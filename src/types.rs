use vstd::prelude::*;
use std::collections::HashMap;

verus! {

/// A player's position on the board, in integer board units.
#[derive(Debug, Clone, Copy, PartialEq, Eq, Structural)]
pub struct Position {
    pub x: i32,
    pub y: i32,
}

/// A direction of movement.
#[derive(Debug, Clone, Copy, PartialEq, Eq, Structural)]
pub enum Direction {
    Up,
    Down,
    Left,
    Right,
}

/// One discrete movement command of a client.
#[derive(Debug, Clone, Copy, PartialEq, Eq, Structural)]
pub struct PlayerInput {
    pub dir: Direction,
    pub sequence: u32,
    pub timestamp: u64,
}

/// A network address: a 128-bit IP (IPv4 addresses as their 32-bit value),
/// a port, and whether the IP is an IPv6 address.
#[derive(Debug, Clone, Copy, PartialEq, Eq, Structural)]
pub struct PeerAddr {
    pub ip: u128,
    pub port: u16,
    pub v6: bool,
}

/// A network condition under which the system is exercised.
#[derive(Debug, Clone)]
pub struct NetworkCondition {
    pub latency_ms: i32,
    pub packet_loss_percent: i32,
    pub name: String,
}

/// A position recorded at a timestamp in milliseconds.
#[derive(Debug, Clone, Copy, PartialEq, Eq, Structural)]
pub struct PositionSnapshot {
    pub position: Position,
    pub timestamp: u64,
}

/// A position received for a remote entity, with its render timestamp in
/// milliseconds and the sequence number that ordered it.
#[derive(Debug, Clone, Copy, PartialEq, Eq, Structural)]
pub struct InterpolatedPosition {
    pub position: Position,
    pub timestamp: u64,
    pub sequence: u32,
}

/// The dimensions of the game board.
#[derive(Debug, Clone, Copy, PartialEq, Eq, Structural)]
pub struct Board {
    pub width: usize,
    pub height: usize,
}

/// A message between client and server; each names its own variant.
#[derive(Debug, Clone, Copy, PartialEq, Eq, Structural)]
pub enum ClientMessage {
    /// Asks for a session; answered with `PlayerId` and a snapshot.
    Connect,
    /// Asks to resume a previous identity at a claimed position.
    Reconnect(u128, Position),
    /// Assigns an identity to a client; ignored by a server.
    PlayerId(u128),
    /// One movement command.
    Input(PlayerInput),
    /// A latency probe carrying the client's timestamp.
    Ping(u64),
    /// The answer to a probe, echoing its timestamp.
    Pong(u64),
    /// An explicit leave notice, and its acknowledgment.
    Disconnect,
}

/// A full state snapshot: every live player as (identity, position, color),
/// the newest input sequence processed per identity, and the server time.
pub struct GameState {
    pub players: Vec<(u128, Position, u32)>,
    pub last_processed: HashMap<u128, u32>,
    pub server_timestamp: u64,
}

} // verus!
