//! The values the actors exchange: colors, pixel updates, commands on the
//! control channel and draw operations on the consumer's channel.

use vstd::prelude::*;

verus! {

/// Upper bound on the number of pixel updates gathered into one `Draw` batch.
pub const BATCH_SIZE: usize = 65536;

/// An RGB color, one byte per channel.
#[derive(Clone, Copy, PartialEq, Eq, Structural, Debug)]
pub struct Color {
    pub r: u8,
    pub g: u8,
    pub b: u8,
}

/// The placeholder color the producer paints every pixel with.
pub open spec fn white() -> Color {
    Color { r: 255, g: 255, b: 255 }
}

impl Color {
    /// The placeholder color as a runtime value.
    pub fn white() -> (c: Color)
        ensures
            c == white(),
    {
        Color { r: 255, g: 255, b: 255 }
    }
}

/// One pixel update: where to write and which color to store there.
#[derive(Clone, Copy, PartialEq, Eq, Structural, Debug)]
pub struct Pixel {
    pub x: u32,
    pub y: u32,
    pub color: Color,
}

/// A message on the control channel feeding the router.
#[derive(PartialEq, Debug)]
pub enum Command {
    /// End the process; the only way the dispatch loop terminates.
    Quit,
    /// Nothing to do.
    Noop,
    /// The consumer's announcement of its surface dimensions in pixels.
    Resolution(u32, u32),
    /// An ordered batch of pixel updates from the producer.
    Draw(Vec<Pixel>),
}

/// A drawing instruction the router forwards to the consumer.
#[derive(PartialEq, Debug)]
pub enum DrawOp {
    /// Nothing to draw.
    Noop,
    /// Apply this ordered batch of pixel updates.
    Draw(Vec<Pixel>),
}

/// The mathematical view of a vector of pixel batches: each batch as a
/// sequence.
pub open spec fn batch_views(batches: Seq<Vec<Pixel>>) -> Seq<Seq<Pixel>> {
    batches.map_values(|v: Vec<Pixel>| v@)
}

} // verus!
