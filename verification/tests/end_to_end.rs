//! The whole pipeline on a tiny domain: the producer answers a `Resolution`
//! announcement, the router forwards the draws, and the consumer drains
//! them into its backing buffer.

use pixelstream::consumer::{ChannelLayout, Surface};
use pixelstream::message::{Color, Command, DrawOp, Pixel};
use pixelstream::producer::producer_emissions;
use pixelstream::router::dispatch;

fn px(x: u32, y: u32) -> Pixel {
    Pixel { x, y, color: Color::white() }
}

#[test]
fn two_by_two_with_batch_bound_three() {
    // the producer answers Resolution(2, 2) with exactly two batches
    let emitted = producer_emissions(&Command::Resolution(2, 2), 3);
    assert_eq!(emitted.len(), 2);
    match &emitted[0] {
        Command::Draw(batch) => assert_eq!(batch, &vec![px(0, 0), px(0, 1), px(1, 0)]),
        other => panic!("expected a draw command, got {:?}", other),
    }
    match &emitted[1] {
        Command::Draw(batch) => assert_eq!(batch, &vec![px(1, 1)]),
        other => panic!("expected a draw command, got {:?}", other),
    }

    // the router forwards both batches to the consumer, in order
    let (resolutions, draws, halted) = dispatch(emitted);
    assert!(resolutions.is_empty());
    assert!(!halted);
    assert_eq!(draws.len(), 2);

    // the consumer drains both; every cell ends up with the placeholder
    // color under the straightforward channel layout
    let mut s = Surface::new(2, 2, ChannelLayout::separate_channels());
    let batches: Vec<Vec<Pixel>> = draws
        .into_iter()
        .map(|op| match op {
            DrawOp::Draw(batch) => batch,
            DrawOp::Noop => Vec::new(),
        })
        .collect();
    s.apply_all(&batches);
    for cell in 0..4 {
        let base = cell * 4;
        assert_eq!(&s.bytes[base..base + 4], &[255, 255, 255, 0]);
    }
}

#[test]
fn two_by_two_under_the_aliased_quirk_layout() {
    let emitted = producer_emissions(&Command::Resolution(2, 2), 3);
    let mut s = Surface::new(2, 2, ChannelLayout::aliased_green_blue());
    for cmd in &emitted {
        match cmd {
            Command::Draw(batch) => s.apply_batch(batch),
            other => panic!("expected a draw command, got {:?}", other),
        }
    }
    // with the placeholder color all channels are 255, so the aliased write
    // still paints bytes 0 and 1; byte 2 is never touched
    for cell in 0..4 {
        let base = cell * 4;
        assert_eq!(&s.bytes[base..base + 4], &[255, 255, 0, 0]);
    }
}
