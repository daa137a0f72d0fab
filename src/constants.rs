use vstd::prelude::*;

verus! {

/// Inactivity after which a live session is evicted, in milliseconds.
pub const TIMEOUT_MS: u64 = 5000;

/// Rendering lag applied to remote entities, in milliseconds.
pub const INTERPOLATION_DELAY_MS: u64 = 16;

/// Width of the game window.
pub const WINDOW_WIDTH: i32 = 1024;

/// Height of the game window.
pub const WINDOW_HEIGHT: i32 = 768;

/// Height of the toolbar at the bottom of the window.
pub const TOOL_BAR_HEIGHT: i32 = 40;

/// Width of the game board.
pub const BOARD_WIDTH: i32 = 1024;

/// Height of the game board.
pub const BOARD_HEIGHT: i32 = 768;

/// Half-size margin kept between an entity and the board's edges.
pub const PLAYER_SIZE: i32 = 20;

/// Displacement of one movement input, in board units.
pub const PLAYER_SPEED: i32 = 5;

/// Interval between two state broadcasts, in milliseconds.
pub const BROADCAST_INTERVAL_MS: u64 = 16;

/// Interval between two grace-period cleanup passes, in milliseconds.
pub const CLEANUP_INTERVAL_MS: u64 = 1000;

/// How long a disconnected identity can be resumed, in milliseconds.
pub const RECONNECT_GRACE_MS: u64 = 10000;

/// Default artificial one-way delay, in milliseconds.
pub const DELAY_MS: i32 = 0;

/// Default artificial packet loss, in percent.
pub const PACKET_LOSS: i32 = 0;

/// Interval between two latency probes, in milliseconds.
pub const PING_INTERVAL_MS: u64 = 1000;

/// Largest jitter added to or taken from an artificial delay, in milliseconds.
pub const MAX_JITTER_MS: i32 = 5;

/// Number of samples an interpolation buffer keeps.
pub const MAX_POSITION_HISTORY: usize = 30;

/// Number of samples of authoritative history kept per session.
pub const SESSION_HISTORY_CAPACITY: usize = 60;

/// A sequence gap above which reconciliation drops the pending backlog.
pub const RESYNC_SEQUENCE_GAP: u32 = 5;

/// Time since the previous reconciliation above which the pending backlog
/// is dropped, in milliseconds.
pub const RESYNC_INTERVAL_MS: u64 = 500;

/// Receive buffer size for datagrams.
pub const RECEIVE_BUFFER_SIZE: usize = 2048;

/// Smallest coordinate an entity may take on either axis.
pub const MIN_COORD: i32 = PLAYER_SIZE;

/// Largest x coordinate an entity may take.
pub const MAX_X: i32 = BOARD_WIDTH - PLAYER_SIZE;

/// Largest y coordinate an entity may take (the toolbar is reserved).
pub const MAX_Y: i32 = BOARD_HEIGHT - PLAYER_SIZE - TOOL_BAR_HEIGHT;

} // verus!
