use netcode_game::colors::get_palette;
use netcode_game::types::{InterpolatedPosition, NetworkCondition, Position, PositionSnapshot};

#[test]
fn test_network_condition_creation() {
    let condition = NetworkCondition {
        latency_ms: 100,
        packet_loss_percent: 5,
        name: "Test Network".to_string(),
    };

    assert_eq!(condition.latency_ms, 100);
    assert_eq!(condition.packet_loss_percent, 5);
    assert_eq!(condition.name, "Test Network");
}

#[test]
fn test_position_snapshot() {
    let pos = Position { x: 15, y: 25 };
    let timestamp = 123456789;

    let snapshot = PositionSnapshot { position: pos, timestamp };

    assert_eq!(snapshot.position.x, 15);
    assert_eq!(snapshot.position.y, 25);
    assert_eq!(snapshot.timestamp, 123456789);
}

#[test]
fn test_interpolated_position() {
    let pos = Position { x: 30, y: 40 };

    // 12.34 s, held in milliseconds
    let interpol = InterpolatedPosition { position: pos, timestamp: 12340, sequence: 42 };

    assert_eq!(interpol.position.x, 30);
    assert_eq!(interpol.position.y, 40);
    assert_eq!(interpol.timestamp, 12340);
    assert_eq!(interpol.sequence, 42);
}

#[test]
fn test_position_creation() {
    let pos = Position { x: 100, y: 200 };
    assert_eq!(pos.x, 100);
    assert_eq!(pos.y, 200);
}

#[test]
fn test_player_color_palette() {
    let palette = get_palette();
    assert_eq!(palette.len(), 9);
    assert_eq!(palette[0], 0xff1717);
    assert_eq!(palette[1], 0x17ff17);
    assert_eq!(palette[8], 0xff7f7f);
}
