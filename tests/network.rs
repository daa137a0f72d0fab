use netcode_game::constants::{DELAY_MS, PACKET_LOSS};
use netcode_game::network::{drops_packet, NetworkSimulator, Outbound};

#[test]
fn test_new_client() {
    let sim = NetworkSimulator::new();
    assert_eq!(sim.delay_ms, DELAY_MS);
    assert_eq!(sim.packet_loss, PACKET_LOSS);
    assert_eq!(sim.delayed_len(), 0);
}

#[test]
fn test_simulate_network_conditions() {
    let mut sim = NetworkSimulator::new();

    sim.packet_loss = 0;
    for _ in 0..100 {
        assert!(!sim.simulate_network_conditions());
    }

    sim.packet_loss = 100;
    for _ in 0..100 {
        assert!(sim.simulate_network_conditions());
    }
}

#[test]
fn full_loss_drops_every_packet() {
    let mut sim = NetworkSimulator::with_conditions(50, 100);
    for i in 0..1000u32 {
        assert!(sim.simulate_network_conditions());
        assert!(matches!(sim.send_input(vec![1, 2, 3], i, 0), Outbound::Dropped));
    }
    assert_eq!(sim.delayed_len(), 0);
}

#[test]
fn drops_packet_values() {
    assert!(drops_packet(10, 9));
    assert!(!drops_packet(10, 10));
    assert!(!drops_packet(0, 0));
    assert!(drops_packet(100, 99));
}

#[test]
fn zero_delay_sends_at_once() {
    let mut sim = NetworkSimulator::with_conditions(0, 0);
    match sim.send_input(vec![9, 8], 1, 10) {
        Outbound::SendNow(d) => assert_eq!(d, vec![9, 8]),
        _ => panic!("expected an immediate send"),
    }
    assert_eq!(sim.delayed_len(), 0);
}

#[test]
fn delayed_packets_wait_for_their_delay() {
    let mut sim = NetworkSimulator::with_conditions(100, 0);
    assert!(matches!(sim.send_input_with(vec![1], 1, 1000, false, 5), Outbound::Queued));
    assert!(matches!(sim.send_input_with(vec![2], 2, 1000, false, -5), Outbound::Queued));
    assert!(matches!(sim.send_input_with(vec![3], 3, 1000, true, 0), Outbound::Dropped));
    assert_eq!(sim.delayed_len(), 2);
    assert_eq!(sim.delayed_packets[0].delay, 105);
    assert_eq!(sim.delayed_packets[1].delay, 95);
    // at 1100 only the second packet (delay 95) is ready; the first waits
    assert_eq!(sim.take_ready(1100), vec![vec![2u8]]);
    assert_eq!(sim.delayed_len(), 1);
    assert_eq!(sim.take_ready(1105), vec![vec![1u8]]);
    assert_eq!(sim.delayed_len(), 0);
}

#[test]
fn jitter_never_makes_a_negative_delay() {
    let mut sim = NetworkSimulator::with_conditions(3, 0);
    sim.send_input_with(vec![1], 1, 0, false, -5);
    assert_eq!(sim.delayed_packets[0].delay, 0);
}

#[test]
fn released_packets_are_a_permutation() {
    let mut sim = NetworkSimulator::with_conditions(10, 0);
    for i in 0..20u8 {
        sim.send_input_with(vec![i], i as u32, 0, false, 0);
    }
    sim.send_input_with(vec![99], 99, 50, false, 0);
    let mut out = sim.process_delayed_packets(10);
    assert_eq!(out.len(), 20);
    out.sort();
    let expected: Vec<Vec<u8>> = (0..20u8).map(|i| vec![i]).collect();
    assert_eq!(out, expected);
    assert_eq!(sim.delayed_len(), 1);
}

#[test]
fn send_input_with_jitter_stays_in_bounds() {
    let mut sim = NetworkSimulator::with_conditions(100, 0);
    for i in 0..200u32 {
        assert!(matches!(sim.send_input(vec![0], i, 0), Outbound::Queued));
    }
    for p in sim.delayed_packets.iter() {
        assert!(p.delay >= 95 && p.delay <= 105);
    }
}

#[test]
fn released_packets_are_reordered() {
    let mut reordered = false;
    for _ in 0..10 {
        let mut sim = NetworkSimulator::with_conditions(10, 0);
        for i in 0..20u8 {
            sim.send_input_with(vec![i], i as u32, 0, false, 0);
        }
        let out = sim.process_delayed_packets(10);
        let in_order: Vec<Vec<u8>> = (0..20u8).map(|i| vec![i]).collect();
        if out != in_order {
            reordered = true;
        }
    }
    assert!(reordered);
}

#[test]
fn jitter_draws_vary() {
    let mut sim = NetworkSimulator::with_conditions(100, 0);
    for i in 0..200u32 {
        sim.send_input(vec![0], i, 0);
    }
    let first = sim.delayed_packets[0].delay;
    assert!(sim.delayed_packets.iter().any(|p| p.delay != first));
}

#[test]
fn ready_packet_behind_waiting_one_is_released() {
    let mut sim = NetworkSimulator::with_conditions(50, 0);
    sim.send_input_with(vec![1], 1, 100, false, 0);
    sim.send_input_with(vec![2], 2, 101, false, -45);
    assert_eq!(sim.delayed_packets[0].delay, 50);
    assert_eq!(sim.delayed_packets[1].delay, 5);
    assert_eq!(sim.process_delayed_packets(120), vec![vec![2u8]]);
    assert_eq!(sim.delayed_len(), 1);
    assert_eq!(sim.delayed_packets[0].sequence, 1);
}

#[test]
fn zero_loss_never_drops() {
    let mut sim = NetworkSimulator::with_conditions(0, 0);
    for i in 0..1000u32 {
        assert!(!matches!(sim.send_input(vec![7], i, 0), Outbound::Dropped));
    }
}
