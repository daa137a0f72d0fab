use netcode_game::constants::{
    BOARD_HEIGHT, BOARD_WIDTH, PLAYER_SIZE, PLAYER_SPEED, SESSION_HISTORY_CAPACITY, TIMEOUT_MS, TOOL_BAR_HEIGHT,
};
use netcode_game::game::Game;
use netcode_game::server::ServerReply;
use netcode_game::types::{ClientMessage, Direction, PeerAddr, PlayerInput, Position};

fn test_addr(port: u16) -> PeerAddr {
    PeerAddr { ip: 0x7f00_0001, port, v6: false }
}

#[test]
fn test_new_game() {
    let game = Game::new();
    assert!(game.sessions().is_empty());
    assert!(game.disconnected_records().is_empty());
    assert!(game.active_player_addrs().is_empty());
    assert!(game.build_snapshot_at(0).last_processed.is_empty());
}

#[test]
fn test_connect_player() {
    let mut game = Game::new();
    let addr = test_addr(8080);

    let id = game.connect_player(addr);

    assert_eq!(game.sessions().len(), 1);
    assert!(game.player(addr).is_some());
    let session = game.player(addr).unwrap();
    assert_eq!(session.id, id);
    assert_eq!(session.addr, addr);

    assert_eq!(session.player.position_history.len(), 1);

    assert!(session.player.position.x >= PLAYER_SIZE);
    assert!(session.player.position.x <= BOARD_WIDTH - PLAYER_SIZE);
    assert!(session.player.position.y >= PLAYER_SIZE);
    assert!(session.player.position.y <= BOARD_HEIGHT - PLAYER_SIZE - TOOL_BAR_HEIGHT);
}

#[test]
fn test_reconnect_existing_player() {
    let mut game = Game::new();
    let addr = test_addr(8080);

    let id1 = game.connect_player(addr);
    let id2 = game.connect_player(addr);

    assert_eq!(id1, id2);
    assert_eq!(game.sessions().len(), 1);
}

#[test]
fn test_disconnect_player() {
    let mut game = Game::new();
    let addr = test_addr(8080);

    game.connect_player(addr);
    game.disconnect_player(addr);

    assert!(game.sessions().is_empty());
    assert!(game.player(addr).is_none());
    assert_eq!(game.disconnected_records().len(), 1);
}

#[test]
fn test_handle_input() {
    let mut game = Game::new();
    let addr = test_addr(8080);

    let id = game.connect_player_at(addr, 42, Position { x: 100, y: 100 }, 0xff1717, 0);
    let initial_pos = game.player(addr).unwrap().player.position;

    game.handle_input(addr, PlayerInput { dir: Direction::Right, sequence: 1, timestamp: 0 });

    let session = game.player(addr).unwrap();
    assert_eq!(session.player.position.x, initial_pos.x + PLAYER_SPEED);
    assert_eq!(session.player.position.y, initial_pos.y);

    assert_eq!(session.last_processed, Some(1));
    assert_eq!(game.build_snapshot().last_processed.get(&id), Some(&1));

    assert_eq!(session.player.position_history.len(), 2);
}

#[test]
fn test_position_history_limit() {
    let mut game = Game::new();
    let addr = test_addr(8080);

    game.connect_player(addr);

    for i in 0..SESSION_HISTORY_CAPACITY + 10 {
        game.handle_input(addr, PlayerInput { dir: Direction::Right, sequence: i as u32, timestamp: 0 });
    }

    assert_eq!(game.player(addr).unwrap().player.position_history.len(), SESSION_HISTORY_CAPACITY);
}

#[test]
fn test_active_player_addrs() {
    let mut game = Game::new();
    let addr1 = test_addr(8080);
    let addr2 = test_addr(8081);

    game.connect_player(addr1);
    game.connect_player(addr2);

    let addrs = game.active_player_addrs();
    assert_eq!(addrs.len(), 2);
    assert!(addrs.contains(&addr1));
    assert!(addrs.contains(&addr2));
}

#[test]
fn test_build_snapshot() {
    let mut game = Game::new();
    let addr1 = test_addr(8080);
    let addr2 = test_addr(8081);

    let id1 = game.connect_player(addr1);
    let _id2 = game.connect_player(addr2);

    game.handle_input(addr1, PlayerInput { dir: Direction::Up, sequence: 5, timestamp: 0 });

    let snapshot = game.build_snapshot();

    assert_eq!(snapshot.players.len(), 2);
    assert_eq!(snapshot.last_processed.get(&id1), Some(&5));
    assert!(snapshot.server_timestamp > 0);
}

#[test]
fn test_movement_boundaries() {
    let mut game = Game::new();
    let addr = test_addr(8080);
    game.connect_player_at(addr, 1, Position { x: PLAYER_SIZE, y: 100 }, 0, 0);

    game.handle_input(addr, PlayerInput { dir: Direction::Left, sequence: 1, timestamp: 0 });
    assert_eq!(game.player(addr).unwrap().player.position.x, PLAYER_SIZE);

    let mut game = Game::new();
    game.connect_player_at(addr, 1, Position { x: BOARD_WIDTH - PLAYER_SIZE, y: 100 }, 0, 0);
    game.handle_input(addr, PlayerInput { dir: Direction::Right, sequence: 2, timestamp: 0 });
    assert_eq!(game.player(addr).unwrap().player.position.x, BOARD_WIDTH - PLAYER_SIZE);

    let mut game = Game::new();
    game.connect_player_at(addr, 1, Position { x: 100, y: PLAYER_SIZE }, 0, 0);
    game.handle_input(addr, PlayerInput { dir: Direction::Up, sequence: 3, timestamp: 0 });
    assert_eq!(game.player(addr).unwrap().player.position.y, PLAYER_SIZE);

    let mut game = Game::new();
    game.connect_player_at(addr, 1, Position { x: 100, y: BOARD_HEIGHT - PLAYER_SIZE - TOOL_BAR_HEIGHT }, 0, 0);
    game.handle_input(addr, PlayerInput { dir: Direction::Down, sequence: 4, timestamp: 0 });
    assert_eq!(game.player(addr).unwrap().player.position.y, BOARD_HEIGHT - PLAYER_SIZE - TOOL_BAR_HEIGHT);
}

#[test]
fn test_update_server_dropped() {
    let mut game = Game::new();
    let addr = test_addr(8080);

    // last heard from at time 0, long before the current time
    game.connect_player_at(addr, 9, Position { x: 100, y: 100 }, 0, 0);

    assert_eq!(game.sessions().len(), 1);

    game.update_server_dropped();

    assert!(game.sessions().is_empty());
    assert!(game.player(addr).is_none());
    assert!(game.active_player_addrs().is_empty());
}

#[test]
fn eviction_keeps_active_sessions_and_is_repeatable() {
    let mut game = Game::new();
    game.connect_player_at(test_addr(1), 1, Position { x: 100, y: 100 }, 0, 1000);
    game.connect_player_at(test_addr(2), 2, Position { x: 200, y: 100 }, 0, 4000);
    let now = 1000 + TIMEOUT_MS;
    game.evict_timed_out(now, TIMEOUT_MS);
    assert_eq!(game.sessions().len(), 1);
    assert_eq!(game.sessions()[0].id, 2);
    assert_eq!(game.disconnected_records().len(), 1);
    assert_eq!(game.disconnected_records()[0].id, 1);
    assert_eq!(game.disconnected_records()[0].disconnected_at, now);
    game.evict_timed_out(now, TIMEOUT_MS);
    assert_eq!(game.sessions().len(), 1);
    assert_eq!(game.disconnected_records().len(), 1);
}

#[test]
fn input_from_unknown_address_is_ignored() {
    let mut game = Game::new();
    game.connect_player_at(test_addr(1), 1, Position { x: 100, y: 100 }, 0, 0);
    game.handle_input_at(test_addr(2), PlayerInput { dir: Direction::Up, sequence: 3, timestamp: 0 }, 10);
    assert_eq!(game.sessions()[0].player.position, Position { x: 100, y: 100 });
    assert_eq!(game.sessions()[0].last_processed, None);
    game.disconnect_player_at(test_addr(2), 10);
    assert_eq!(game.sessions().len(), 1);
    assert!(game.disconnected_records().is_empty());
}

#[test]
fn history_timestamps_never_decrease() {
    let mut game = Game::new();
    let addr = test_addr(1);
    game.connect_player_at(addr, 1, Position { x: 100, y: 100 }, 0, 500);
    game.handle_input_at(addr, PlayerInput { dir: Direction::Up, sequence: 1, timestamp: 0 }, 400);
    let h = &game.player(addr).unwrap().player.position_history;
    assert_eq!(h[1].timestamp, 500);
    assert_eq!(h[1].position, Position { x: 100, y: 95 });
}

#[test]
fn connect_gives_distinct_identities() {
    let mut game = Game::new();
    let a = game.connect_player(test_addr(1));
    let b = game.connect_player(test_addr(2));
    assert_ne!(a, b);
    let palette = netcode_game::colors::get_palette();
    for s in game.sessions().iter() {
        assert!(palette.contains(&s.player.color));
    }
}

#[test]
fn position_at_reconstructs_history() {
    let mut game = Game::new();
    let addr = test_addr(1);
    game.connect_player_at(addr, 7, Position { x: 100, y: 100 }, 0, 1000);
    game.handle_input_at(addr, PlayerInput { dir: Direction::Right, sequence: 1, timestamp: 0 }, 2000);
    game.handle_input_at(addr, PlayerInput { dir: Direction::Right, sequence: 2, timestamp: 0 }, 3000);
    // before all history: the earliest sample
    assert_eq!(game.position_at(7, 500), Some(Position { x: 100, y: 100 }));
    // after all history: the latest sample
    assert_eq!(game.position_at(7, 9000), Some(Position { x: 110, y: 100 }));
    assert_eq!(game.position_at(7, 3000), Some(Position { x: 110, y: 100 }));
    // in between: interpolated
    assert_eq!(game.position_at(7, 1500), Some(Position { x: 102, y: 100 }));
    assert_eq!(game.position_at(7, 2000), Some(Position { x: 105, y: 100 }));
    // unknown identity
    assert_eq!(game.position_at(8, 1500), None);
}

#[test]
fn collision_check_reports_each_pair_once() {
    let mut game = Game::new();
    game.connect_player_at(test_addr(1), 11, Position { x: 100, y: 100 }, 0, 1000);
    game.connect_player_at(test_addr(2), 22, Position { x: 100, y: 100 }, 0, 1000);
    game.connect_player_at(test_addr(3), 33, Position { x: 300, y: 300 }, 0, 1000);
    let pairs = game.collision_check(1000);
    assert_eq!(pairs, vec![(11, 22)]);
    let later = game.collision_check(5000);
    assert_eq!(later.len(), 1);
}

#[test]
fn collision_check_uses_historical_positions() {
    let mut game = Game::new();
    game.connect_player_at(test_addr(1), 1, Position { x: 100, y: 100 }, 0, 1000);
    game.connect_player_at(test_addr(2), 2, Position { x: 105, y: 100 }, 0, 1000);
    game.handle_input_at(test_addr(1), PlayerInput { dir: Direction::Right, sequence: 1, timestamp: 0 }, 2000);
    // now they overlap, but at 1000 they did not
    assert_eq!(game.collision_check(2000), vec![(1, 2)]);
    assert!(game.collision_check(1000).is_empty());
}

#[test]
fn reconnect_within_grace_restores_identity_and_color() {
    let mut game = Game::new();
    let first = test_addr(1);
    let second = test_addr(2);
    game.connect_player_at(first, 77, Position { x: 100, y: 100 }, 0x17ff17, 0);
    game.disconnect_player_at(first, 1000);
    assert!(game.reconnect_player(second, 77, Position { x: 300, y: 200 }, 5000, 10000));
    let s = game.player(second).unwrap();
    assert_eq!(s.id, 77);
    assert_eq!(s.player.color, 0x17ff17);
    assert_eq!(s.player.position, Position { x: 300, y: 200 });
    assert!(game.disconnected_records().is_empty());
    // the identity is live now: a second reconnect with it fails
    assert!(!game.reconnect_player(test_addr(3), 77, Position { x: 1, y: 1 }, 5000, 10000));
}

#[test]
fn reconnect_after_grace_yields_new_identity() {
    let mut game = Game::new();
    let first = test_addr(1);
    let second = test_addr(2);
    game.connect_player_at(first, 77, Position { x: 100, y: 100 }, 0x17ff17, 0);
    game.disconnect_player_at(first, 1000);
    assert!(!game.reconnect_player(second, 77, Position { x: 300, y: 200 }, 20000, 10000));
    assert!(game.sessions().is_empty());
    game.cleanup_expired(20000, 10000);
    assert!(game.disconnected_records().is_empty());
    let replies = game.handle_client_message_at(second, ClientMessage::Reconnect(77, Position { x: 300, y: 200 }), 20000, 10000);
    let assigned = game.player(second).unwrap().id;
    assert_ne!(assigned, 77);
    assert_eq!(replies, vec![ServerReply::Send(ClientMessage::PlayerId(assigned)), ServerReply::SendSnapshot]);
}

#[test]
fn reconnect_unknown_identity_fails() {
    let mut game = Game::new();
    assert!(!game.reconnect_player(test_addr(1), 5, Position { x: 1, y: 1 }, 0, 10000));
    assert!(game.sessions().is_empty());
}

#[test]
fn cleanup_keeps_records_within_grace() {
    let mut game = Game::new();
    game.connect_player_at(test_addr(1), 1, Position { x: 100, y: 100 }, 0, 0);
    game.connect_player_at(test_addr(2), 2, Position { x: 100, y: 100 }, 0, 0);
    game.disconnect_player_at(test_addr(1), 1000);
    game.disconnect_player_at(test_addr(2), 8000);
    game.cleanup_expired(12000, 10000);
    assert_eq!(game.disconnected_records().len(), 1);
    assert_eq!(game.disconnected_records()[0].id, 2);
    game.cleanup_expired(12000, 10000);
    assert_eq!(game.disconnected_records().len(), 1);
}

#[test]
fn server_answers_connect_ping_and_disconnect() {
    let mut game = Game::new();
    let addr = test_addr(4000);
    let replies = game.handle_client_message_at(addr, ClientMessage::Connect, 100, 10000);
    let id = game.player(addr).unwrap().id;
    assert_eq!(replies, vec![ServerReply::Send(ClientMessage::PlayerId(id)), ServerReply::SendSnapshot]);
    let again = game.handle_client_message_at(addr, ClientMessage::Connect, 150, 10000);
    assert_eq!(again, vec![ServerReply::Send(ClientMessage::PlayerId(id)), ServerReply::SendSnapshot]);

    let pong = game.handle_client_message_at(addr, ClientMessage::Ping(1234), 200, 10000);
    assert_eq!(pong, vec![ServerReply::Send(ClientMessage::Pong(1234))]);
    assert_eq!(game.player(addr).unwrap().player.last_active, 200);

    let none = game.handle_client_message_at(
        addr,
        ClientMessage::Input(PlayerInput { dir: Direction::Left, sequence: 3, timestamp: 0 }),
        300,
        10000,
    );
    assert!(none.is_empty());
    assert_eq!(game.player(addr).unwrap().last_processed, Some(3));

    assert!(game.handle_client_message_at(addr, ClientMessage::Pong(1), 300, 10000).is_empty());
    assert!(game.handle_client_message_at(addr, ClientMessage::PlayerId(5), 300, 10000).is_empty());

    let bye = game.handle_client_message_at(addr, ClientMessage::Disconnect, 400, 10000);
    assert_eq!(bye, vec![ServerReply::Send(ClientMessage::Disconnect)]);
    assert!(game.sessions().is_empty());
    assert_eq!(game.disconnected_records()[0].id, id);
}

#[test]
fn reconnect_clamps_claimed_position() {
    let mut game = Game::new();
    game.connect_player_at(test_addr(1), 8, Position { x: 100, y: 100 }, 0, 0);
    game.disconnect_player_at(test_addr(1), 10);
    assert!(game.reconnect_player(test_addr(2), 8, Position { x: -50, y: 5000 }, 20, 10000));
    assert_eq!(game.player(test_addr(2)).unwrap().player.position, Position { x: PLAYER_SIZE, y: BOARD_HEIGHT - PLAYER_SIZE - TOOL_BAR_HEIGHT });
}

#[test]
fn connect_history_holds_spawn_position() {
    let mut game = Game::new();
    let addr = test_addr(1);
    game.connect_player(addr);
    let s = game.player(addr).unwrap();
    assert_eq!(s.player.position_history[0].position, s.player.position);
    assert_eq!(s.player.position_history[0].timestamp, s.player.last_active);
    assert!(s.player.last_active > 0);
}
