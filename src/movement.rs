use vstd::prelude::*;
use crate::constants::{MAX_X, MAX_Y, MIN_COORD, PLAYER_SPEED};
use crate::types::{Direction, Position};

verus! {

/// Whether a position lies within the area entities may occupy.
pub open spec fn in_bounds(p: Position) -> bool {
    MIN_COORD <= p.x <= MAX_X && MIN_COORD <= p.y <= MAX_Y
}

/// A coordinate clamped to `lo..=hi`.
pub open spec fn clamp_coord(v: int, lo: int, hi: int) -> int {
    if v < lo {
        lo
    } else if v > hi {
        hi
    } else {
        v
    }
}

/// The point (x, y) clamped to the area entities may occupy, on both axes.
pub open spec fn clamp_to_board(x: int, y: int) -> Position {
    Position { x: clamp_coord(x, MIN_COORD as int, MAX_X as int) as i32, y: clamp_coord(y, MIN_COORD as int, MAX_Y as int) as i32 }
}

/// The position after one movement input: a fixed displacement along the
/// direction, clamped to the board on every axis.
pub open spec fn step(p: Position, dir: Direction) -> Position {
    match dir {
        Direction::Up => clamp_to_board(p.x as int, p.y - PLAYER_SPEED),
        Direction::Down => clamp_to_board(p.x as int, p.y + PLAYER_SPEED),
        Direction::Left => clamp_to_board(p.x - PLAYER_SPEED, p.y as int),
        Direction::Right => clamp_to_board(p.x + PLAYER_SPEED, p.y as int),
    }
}

/// The position after a sequence of movement inputs, applied in order.
pub open spec fn replay(p: Position, dirs: Seq<Direction>) -> Position
    decreases dirs.len(),
{
    if dirs.len() == 0 {
        p
    } else {
        replay(step(p, dirs[0]), dirs.drop_first())
    }
}

/// A movement input always leaves an entity on the board.
pub proof fn lemma_step_in_bounds(p: Position, dir: Direction)
    ensures
        in_bounds(step(p, dir)),
{
}

/// Replaying inputs from a position on the board stays on the board.
pub proof fn lemma_replay_in_bounds(p: Position, dirs: Seq<Direction>)
    requires
        in_bounds(p),
    ensures
        in_bounds(replay(p, dirs)),
    decreases dirs.len(),
{
    if dirs.len() > 0 {
        lemma_step_in_bounds(p, dirs[0]);
        lemma_replay_in_bounds(step(p, dirs[0]), dirs.drop_first());
    }
}

/// Clamps the point (x, y) to the board on both axes.
pub fn clamp_position(x: i64, y: i64) -> (r: Position)
    ensures
        r == clamp_to_board(x as int, y as int),
        in_bounds(r),
{
    let cx = if x < MIN_COORD as i64 {
        MIN_COORD
    } else if x > MAX_X as i64 {
        MAX_X
    } else {
        x as i32
    };
    let cy = if y < MIN_COORD as i64 {
        MIN_COORD
    } else if y > MAX_Y as i64 {
        MAX_Y
    } else {
        y as i32
    };
    Position { x: cx, y: cy }
}

/// Applying one more input after a replay is the replay of the longer sequence.
pub proof fn lemma_replay_push(p: Position, dirs: Seq<Direction>, d: Direction)
    ensures
        replay(p, dirs.push(d)) == step(replay(p, dirs), d),
    decreases dirs.len(),
{
    let longer = dirs.push(d);
    assert(longer[0] == if dirs.len() == 0 { d } else { dirs[0] });
    if dirs.len() == 0 {
        assert(longer.drop_first() =~= Seq::<Direction>::empty());
        assert(replay(step(p, d), longer.drop_first()) == step(p, d));
    } else {
        assert(longer.drop_first() =~= dirs.drop_first().push(d));
        lemma_replay_push(step(p, dirs[0]), dirs.drop_first(), d);
    }
}

/// Moves a position by one input; the rule shared by the server and by
/// client-side prediction, so that both compute the same displacement.
pub fn step_position(p: Position, dir: Direction) -> (r: Position)
    ensures
        r == step(p, dir),
{
    let x = p.x as i64;
    let y = p.y as i64;
    let speed = PLAYER_SPEED as i64;
    match dir {
        Direction::Up => clamp_position(x, y - speed),
        Direction::Down => clamp_position(x, y + speed),
        Direction::Left => clamp_position(x - speed, y),
        Direction::Right => clamp_position(x + speed, y),
    }
}

} // verus!
