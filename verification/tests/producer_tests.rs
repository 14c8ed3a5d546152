use pixelstream::message::{Color, Command, Pixel, BATCH_SIZE};
use pixelstream::producer::{handshake, idle_continues, produce_batches, producer_emissions};

fn px(x: u32, y: u32) -> Pixel {
    Pixel { x, y, color: Color::white() }
}

#[test]
fn batches_for_2x2_with_bound_3() {
    let batches = produce_batches(2, 2, 3);
    assert_eq!(batches.len(), 2);
    assert_eq!(batches[0], vec![px(0, 0), px(0, 1), px(1, 0)]);
    assert_eq!(batches[1], vec![px(1, 1)]);
}

#[test]
fn batch_sizes_for_3x2_with_bound_4() {
    let batches = produce_batches(3, 2, 4);
    assert_eq!(batches.len(), 2);
    assert_eq!(batches[0], vec![px(0, 0), px(0, 1), px(1, 0), px(1, 1)]);
    assert_eq!(batches[1], vec![px(2, 0), px(2, 1)]);
}

#[test]
fn exact_division_keeps_last_batch_full() {
    let batches = produce_batches(2, 2, 2);
    assert_eq!(batches.len(), 2);
    assert_eq!(batches[0], vec![px(0, 0), px(0, 1)]);
    assert_eq!(batches[1], vec![px(1, 0), px(1, 1)]);
}

#[test]
fn single_batch_when_bound_exceeds_domain() {
    let batches = produce_batches(3, 3, BATCH_SIZE);
    assert_eq!(batches.len(), 1);
    assert_eq!(batches[0].len(), 9);
    for (i, p) in batches[0].iter().enumerate() {
        assert_eq!(p.x, (i / 3) as u32);
        assert_eq!(p.y, (i % 3) as u32);
        assert_eq!(p.color, Color::white());
    }
}

#[test]
fn every_coordinate_appears_exactly_once() {
    let batches = produce_batches(5, 7, 4);
    let mut seen = vec![0u32; 35];
    for batch in &batches {
        for p in batch {
            assert!(p.x < 5 && p.y < 7);
            seen[(p.x * 7 + p.y) as usize] += 1;
        }
    }
    assert!(seen.iter().all(|&c| c == 1));
}

#[test]
fn zero_domain_emits_no_batches() {
    assert!(produce_batches(0, 0, BATCH_SIZE).is_empty());
    assert!(produce_batches(0, 5, 3).is_empty());
    assert!(produce_batches(5, 0, 3).is_empty());
    let out = producer_emissions(&Command::Resolution(0, 0), BATCH_SIZE);
    assert!(out.is_empty());
}

#[test]
fn protocol_violation_emits_single_quit_and_no_draws() {
    let out = producer_emissions(&Command::Quit, BATCH_SIZE);
    assert_eq!(out, vec![Command::Quit]);
    let out = producer_emissions(&Command::Noop, BATCH_SIZE);
    assert_eq!(out.len(), 1);
    assert!(matches!(out[0], Command::Quit));
    assert!(!out.iter().any(|c| matches!(c, Command::Draw(_))));
}

#[test]
fn resolution_first_command_emits_the_domain_as_draws() {
    let out = producer_emissions(&Command::Resolution(2, 2), 3);
    assert_eq!(out.len(), 2);
    match &out[0] {
        Command::Draw(batch) => assert_eq!(batch, &vec![px(0, 0), px(0, 1), px(1, 0)]),
        other => panic!("expected a draw command, got {:?}", other),
    }
    match &out[1] {
        Command::Draw(batch) => assert_eq!(batch, &vec![px(1, 1)]),
        other => panic!("expected a draw command, got {:?}", other),
    }
}

#[test]
fn handshake_accepts_only_a_resolution() {
    assert_eq!(handshake(&Command::Resolution(640, 480)), Some((640, 480)));
    assert_eq!(handshake(&Command::Quit), None);
    assert_eq!(handshake(&Command::Noop), None);
    assert_eq!(handshake(&Command::Draw(Vec::new())), None);
}

#[test]
fn idle_phase_stops_only_on_quit_or_closed_channel() {
    assert!(!idle_continues(&None));
    assert!(!idle_continues(&Some(Command::Quit)));
    assert!(idle_continues(&Some(Command::Noop)));
    assert!(idle_continues(&Some(Command::Resolution(1, 1))));
    assert!(idle_continues(&Some(Command::Draw(Vec::new()))));
}
