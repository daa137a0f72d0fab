use netcode_game::constants::{BOARD_HEIGHT, BOARD_WIDTH, PLAYER_SIZE, PLAYER_SPEED, TOOL_BAR_HEIGHT};
use netcode_game::movement::step_position;
use netcode_game::prediction::PredictionState;
use netcode_game::types::{Direction, PlayerInput, Position};

#[test]
fn test_new_prediction_state() {
    let initial_position = Position { x: 100, y: 100 };
    let state = PredictionState::new(initial_position);

    assert_eq!(state.next_sequence, 0);
    assert!(state.pending_inputs.is_empty());
    assert!(state.position_history.is_empty());
    assert_eq!(state.last_confirmed_sequence, 0);
    assert_eq!(state.last_confirmed_position.x, initial_position.x);
    assert_eq!(state.last_confirmed_position.y, initial_position.y);
    assert_eq!(state.last_reconciliation_time, 0);
}

#[test]
fn test_apply_prediction_up() {
    let initial_position = Position { x: 100, y: 100 };
    let mut state = PredictionState::new(initial_position);
    let mut position = initial_position;

    let input = PlayerInput { dir: Direction::Up, sequence: 0, timestamp: 0 };
    state.apply_prediction(input, &mut position);

    assert_eq!(position.x, initial_position.x);
    assert_eq!(position.y, initial_position.y - PLAYER_SPEED);
    assert_eq!(state.position_history.len(), 1);
    assert_eq!(state.position_history[0].0, 0);
    assert_eq!(state.position_history[0].1.x, initial_position.x);
    assert_eq!(state.position_history[0].1.y, initial_position.y);
}

#[test]
fn test_apply_prediction_down() {
    let initial_position = Position { x: 100, y: 100 };
    let mut state = PredictionState::new(initial_position);
    let mut position = initial_position;

    let input = PlayerInput { dir: Direction::Down, sequence: 1, timestamp: 0 };
    state.apply_prediction(input, &mut position);

    assert_eq!(position.x, initial_position.x);
    assert_eq!(position.y, initial_position.y + PLAYER_SPEED);
    assert_eq!(state.position_history.len(), 1);
    assert_eq!(state.position_history[0].0, 1);
}

#[test]
fn test_apply_prediction_left() {
    let initial_position = Position { x: 100, y: 100 };
    let mut state = PredictionState::new(initial_position);
    let mut position = initial_position;

    let input = PlayerInput { dir: Direction::Left, sequence: 2, timestamp: 0 };
    state.apply_prediction(input, &mut position);

    assert_eq!(position.x, initial_position.x - PLAYER_SPEED);
    assert_eq!(position.y, initial_position.y);
    assert_eq!(state.position_history.len(), 1);
    assert_eq!(state.position_history[0].0, 2);
}

#[test]
fn test_apply_prediction_right() {
    let initial_position = Position { x: 100, y: 100 };
    let mut state = PredictionState::new(initial_position);
    let mut position = initial_position;

    let input = PlayerInput { dir: Direction::Right, sequence: 3, timestamp: 0 };
    state.apply_prediction(input, &mut position);

    assert_eq!(position.x, initial_position.x + PLAYER_SPEED);
    assert_eq!(position.y, initial_position.y);
    assert_eq!(state.position_history.len(), 1);
    assert_eq!(state.position_history[0].0, 3);
}

#[test]
fn test_prediction_boundary_limits() {
    let mut state = PredictionState::new(Position { x: PLAYER_SIZE + 1, y: 100 });
    let mut position = Position { x: PLAYER_SIZE + 1, y: 100 };

    state.apply_prediction(PlayerInput { dir: Direction::Left, sequence: 1, timestamp: 0 }, &mut position);
    assert_eq!(position.x, PLAYER_SIZE);

    position = Position { x: BOARD_WIDTH - PLAYER_SIZE - 1, y: 100 };
    state.apply_prediction(PlayerInput { dir: Direction::Right, sequence: 2, timestamp: 0 }, &mut position);
    assert_eq!(position.x, BOARD_WIDTH - PLAYER_SIZE);

    position = Position { x: 100, y: PLAYER_SIZE + 1 };
    state.apply_prediction(PlayerInput { dir: Direction::Up, sequence: 3, timestamp: 0 }, &mut position);
    assert_eq!(position.y, PLAYER_SIZE);

    position = Position { x: 100, y: BOARD_HEIGHT - PLAYER_SIZE - TOOL_BAR_HEIGHT - 1 };
    state.apply_prediction(PlayerInput { dir: Direction::Down, sequence: 4, timestamp: 0 }, &mut position);
    assert_eq!(position.y, BOARD_HEIGHT - PLAYER_SIZE - TOOL_BAR_HEIGHT);
}

#[test]
fn test_reconcile_normal_case() {
    let initial_position = Position { x: 100, y: 100 };
    let mut state = PredictionState::new(initial_position);

    // 0.8 s, so that the time since the last reconciliation stays below the threshold
    state.last_reconciliation_time = 800;

    state.pending_inputs.push_back((1, PlayerInput { dir: Direction::Up, sequence: 1, timestamp: 0 }));
    state.pending_inputs.push_back((2, PlayerInput { dir: Direction::Left, sequence: 2, timestamp: 0 }));
    state.pending_inputs.push_back((3, PlayerInput { dir: Direction::Right, sequence: 3, timestamp: 0 }));

    state.position_history.push_back((1, Position { x: 100, y: 100 }));
    state.position_history.push_back((2, Position { x: 100, y: 90 }));
    state.position_history.push_back((3, Position { x: 90, y: 90 }));

    let server_position = Position { x: 95, y: 85 };
    state.reconcile(server_position, 2, 1000);

    assert_eq!(state.last_confirmed_sequence, 2);
    assert_eq!(state.last_confirmed_position.x, 95);
    assert_eq!(state.last_confirmed_position.y, 85);
    assert_eq!(state.pending_inputs.len(), 1);
    assert_eq!(state.pending_inputs[0].0, 3);
    assert_eq!(state.position_history.len(), 1);
    assert_eq!(state.position_history[0].0, 3);
}

#[test]
fn test_reapply_pending_inputs() {
    let initial_position = Position { x: 100, y: 100 };
    let mut state = PredictionState::new(initial_position);
    let mut current_position = Position { x: 200, y: 200 };

    state.pending_inputs.push_back((1, PlayerInput { dir: Direction::Right, sequence: 1, timestamp: 0 }));
    state.pending_inputs.push_back((2, PlayerInput { dir: Direction::Right, sequence: 2, timestamp: 0 }));
    state.pending_inputs.push_back((3, PlayerInput { dir: Direction::Down, sequence: 3, timestamp: 0 }));

    state.reapply_pending_inputs(&mut current_position);

    let expected_x = initial_position.x + 2 * PLAYER_SPEED;
    let expected_y = initial_position.y + PLAYER_SPEED;

    assert_eq!(current_position.x, expected_x);
    assert_eq!(current_position.y, expected_y);
}

#[test]
fn test_prediction_error_calculation() {
    let initial_position = Position { x: 100, y: 100 };
    let state = PredictionState::new(initial_position);

    let server_position = Position { x: 103, y: 104 };
    let squared = state.get_prediction_error_squared(server_position);
    assert_eq!(squared, 25);

    let error = (squared as f32).sqrt();
    assert_eq!(error, 5.0);
}

#[test]
fn reconcile_hard_resync_on_large_gap() {
    let mut state = PredictionState::new(Position { x: 100, y: 100 });
    state.last_reconciliation_time = 900;
    for seq in 1..=8u32 {
        state.pending_inputs.push_back((seq, PlayerInput { dir: Direction::Right, sequence: seq, timestamp: 0 }));
        state.position_history.push_back((seq, Position { x: 100, y: 100 }));
    }
    // gap 6 > 5: the backlog is dropped outright
    state.reconcile(Position { x: 130, y: 100 }, 6, 1000);
    assert_eq!(state.last_confirmed_sequence, 6);
    assert!(state.pending_inputs.is_empty());
    assert!(state.position_history.is_empty());
}

#[test]
fn reconcile_hard_resync_after_stall() {
    let mut state = PredictionState::new(Position { x: 100, y: 100 });
    state.last_reconciliation_time = 1000;
    state.pending_inputs.push_back((1, PlayerInput { dir: Direction::Up, sequence: 1, timestamp: 0 }));
    state.pending_inputs.push_back((2, PlayerInput { dir: Direction::Up, sequence: 2, timestamp: 0 }));
    // 600 ms since the previous reconciliation > 500 ms
    state.reconcile(Position { x: 100, y: 95 }, 1, 1600);
    assert!(state.pending_inputs.is_empty());
    assert_eq!(state.last_reconciliation_time, 1600);
}

#[test]
fn reconcile_ignores_stale_acknowledgment() {
    let mut state = PredictionState::new(Position { x: 100, y: 100 });
    state.last_reconciliation_time = 900;
    state.pending_inputs.push_back((4, PlayerInput { dir: Direction::Up, sequence: 4, timestamp: 0 }));
    state.reconcile(Position { x: 1, y: 1 }, 3, 1000);
    state.reconcile(Position { x: 2, y: 2 }, 3, 1100);
    assert_eq!(state.last_confirmed_sequence, 3);
    assert_eq!(state.last_confirmed_position, Position { x: 1, y: 1 });
    assert_eq!(state.last_reconciliation_time, 1000);
    assert_eq!(state.pending_inputs.len(), 1);
}

#[test]
fn reconcile_twice_with_same_ack_changes_nothing() {
    let mut state = PredictionState::new(Position { x: 100, y: 100 });
    state.last_reconciliation_time = 900;
    state.pending_inputs.push_back((1, PlayerInput { dir: Direction::Up, sequence: 1, timestamp: 0 }));
    state.pending_inputs.push_back((2, PlayerInput { dir: Direction::Left, sequence: 2, timestamp: 0 }));
    state.reconcile(Position { x: 100, y: 95 }, 1, 1000);
    let pending: Vec<(u32, PlayerInput)> = state.pending_inputs.iter().cloned().collect();
    let history: Vec<(u32, Position)> = state.position_history.iter().cloned().collect();
    let confirmed = (state.last_confirmed_sequence, state.last_confirmed_position, state.last_reconciliation_time);

    state.reconcile(Position { x: 100, y: 95 }, 1, 1200);
    let pending2: Vec<(u32, PlayerInput)> = state.pending_inputs.iter().cloned().collect();
    let history2: Vec<(u32, Position)> = state.position_history.iter().cloned().collect();
    assert_eq!(pending, pending2);
    assert_eq!(history, history2);
    assert_eq!(confirmed, (state.last_confirmed_sequence, state.last_confirmed_position, state.last_reconciliation_time));
}

#[test]
fn replay_right_right_down_from_baseline() {
    let mut state = PredictionState::new(Position { x: 100, y: 100 });
    let mut shown = Position { x: 0, y: 0 };
    for (seq, dir) in [(1u32, Direction::Right), (2, Direction::Right), (3, Direction::Down)] {
        state.pending_inputs.push_back((seq, PlayerInput { dir, sequence: seq, timestamp: 0 }));
    }
    state.reapply_pending_inputs(&mut shown);
    assert_eq!(shown, Position { x: 110, y: 105 });
    // the replay records the position before each input
    assert_eq!(state.position_history.len(), 3);
    assert_eq!(state.position_history[0], (1, Position { x: 100, y: 100 }));
    assert_eq!(state.position_history[1], (2, Position { x: 105, y: 100 }));
    assert_eq!(state.position_history[2], (3, Position { x: 110, y: 100 }));
}

#[test]
fn replay_is_deterministic() {
    let build = || {
        let mut s = PredictionState::new(Position { x: 300, y: 200 });
        for (seq, dir) in [(5u32, Direction::Up), (6, Direction::Left), (7, Direction::Left), (8, Direction::Down)] {
            s.pending_inputs.push_back((seq, PlayerInput { dir, sequence: seq, timestamp: 0 }));
        }
        s
    };
    let mut a = build();
    let mut b = build();
    let mut pa = Position { x: 1, y: 2 };
    let mut pb = Position { x: 900, y: 700 };
    a.reapply_pending_inputs(&mut pa);
    b.reapply_pending_inputs(&mut pb);
    assert_eq!(pa, pb);
    assert_eq!(pa, Position { x: 290, y: 200 });
}

#[test]
fn queue_input_assigns_sequences_and_predicts() {
    let mut state = PredictionState::new(Position { x: 100, y: 100 });
    let mut shown = Position { x: 100, y: 100 };
    let a = state.queue_input(Direction::Right, 7, &mut shown);
    let b = state.queue_input(Direction::Up, 8, &mut shown);
    assert_eq!(a.sequence, 0);
    assert_eq!(b.sequence, 1);
    assert_eq!(state.next_sequence, 2);
    assert_eq!(state.pending_inputs.len(), 2);
    assert_eq!(shown, Position { x: 105, y: 95 });
}

#[test]
fn apply_server_state_reconciles_then_replays() {
    let mut state = PredictionState::new(Position { x: 100, y: 100 });
    state.last_reconciliation_time = 900;
    let mut shown = Position { x: 100, y: 100 };
    state.queue_input(Direction::Right, 0, &mut shown);
    state.queue_input(Direction::Right, 0, &mut shown);
    state.queue_input(Direction::Down, 0, &mut shown);
    // the server confirms sequence 1 at a slightly different position
    state.apply_server_state(Position { x: 104, y: 100 }, 1, 1000, &mut shown);
    assert_eq!(state.pending_inputs.len(), 1);
    assert_eq!(shown, Position { x: 104, y: 105 });
}

#[test]
fn step_position_moves_and_clamps() {
    assert_eq!(step_position(Position { x: 50, y: 50 }, Direction::Up), Position { x: 50, y: 45 });
    assert_eq!(step_position(Position { x: 50, y: 22 }, Direction::Up), Position { x: 50, y: 20 });
    assert_eq!(step_position(Position { x: 1002, y: 50 }, Direction::Right), Position { x: 1004, y: 50 });
    assert_eq!(step_position(Position { x: 50, y: 706 }, Direction::Down), Position { x: 50, y: 708 });
    // off-board positions are brought back on both axes
    assert_eq!(step_position(Position { x: i32::MIN, y: 0 }, Direction::Left), Position { x: 20, y: 20 });
    assert_eq!(step_position(Position { x: 5000, y: 50 }, Direction::Up), Position { x: 1004, y: 45 });
}

