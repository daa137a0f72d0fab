use netcode_game::client::ClientWorld;
use netcode_game::types::{Direction, GameState, Position};
use std::collections::HashMap;

fn snapshot(players: Vec<(u128, Position, u32)>, processed: Vec<(u128, u32)>) -> GameState {
    GameState { players, last_processed: processed.into_iter().collect::<HashMap<u128, u32>>(), server_timestamp: 0 }
}

#[test]
fn snapshot_routes_own_and_remote_entries() {
    let mut world = ClientWorld::new(Position { x: 100, y: 100 });
    world.my_id = Some(1);
    world.prediction.last_reconciliation_time = 950;
    let mut pos = world.my_pos;
    world.prediction.queue_input(Direction::Right, 0, &mut pos);
    world.prediction.queue_input(Direction::Right, 0, &mut pos);
    world.my_pos = pos;

    let state = snapshot(
        vec![(1, Position { x: 105, y: 100 }, 0xff1717), (2, Position { x: 400, y: 300 }, 0x17ff17)],
        vec![(1, 1), (2, 9)],
    );
    world.apply_snapshot(&state, 1000);

    // both pending inputs (sequences 0 and 1) are acknowledged
    assert_eq!(world.prediction.last_confirmed_sequence, 1);
    assert!(world.prediction.pending_inputs.is_empty());
    assert_eq!(world.my_pos, Position { x: 105, y: 100 });
    assert_eq!(world.own_color, Some(0xff1717));
    assert_eq!(world.remotes.len(), 1);
    assert_eq!(world.remotes[0].id, 2);
    assert_eq!(world.remotes[0].interpolation.last_sequence(), 9);
    assert_eq!(world.remote_display_positions(1000), vec![(2, Position { x: 400, y: 300 }, 0x17ff17)]);
}

#[test]
fn snapshot_forgets_departed_players_and_keeps_buffers() {
    let mut world = ClientWorld::new(Position { x: 100, y: 100 });
    world.my_id = Some(1);
    world.apply_snapshot(&snapshot(vec![(2, Position { x: 100, y: 100 }, 5), (3, Position { x: 10, y: 10 }, 6)], vec![(2, 1)]), 1000);
    world.apply_snapshot(&snapshot(vec![(2, Position { x: 200, y: 100 }, 5)], vec![(2, 2)]), 2000);
    assert_eq!(world.remotes.len(), 1);
    assert_eq!(world.remotes[0].interpolation.position_history().len(), 2);
    // halfway between the two samples, 16 ms display delay included
    assert_eq!(world.remote_display_positions(1516), vec![(2, Position { x: 150, y: 100 }, 5)]);
    assert_eq!(world.own_color, None);
}

#[test]
fn snapshot_without_sequence_uses_zero_and_is_rejected_again() {
    let mut world = ClientWorld::new(Position { x: 0, y: 0 });
    world.apply_snapshot(&snapshot(vec![(7, Position { x: 1, y: 1 }, 0)], vec![]), 10);
    // a sample with sequence 0 is never newer than the last accepted (0)
    assert!(world.remotes[0].interpolation.position_history().is_empty());
    assert_eq!(world.remote_display_positions(10), vec![(7, Position { x: 1, y: 1 }, 0)]);
}
