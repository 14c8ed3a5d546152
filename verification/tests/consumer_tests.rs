use pixelstream::consumer::{
    wants_quit, ChannelLayout, InputEvent, Surface, Throughput, KEY_ESCAPE,
};
use pixelstream::message::{Color, Pixel};

fn colored(x: u32, y: u32, r: u8, g: u8, b: u8) -> Pixel {
    Pixel { x, y, color: Color { r, g, b } }
}

#[test]
fn layouts_use_the_four_byte_cell_of_the_texture_format() {
    let quirk = ChannelLayout::aliased_green_blue();
    assert_eq!(quirk.bytes_per_pixel, 4);
    assert_eq!(
        (quirk.red_offset, quirk.green_offset, quirk.blue_offset),
        (0, 1, 1)
    );
    let plain = ChannelLayout::separate_channels();
    assert_eq!(plain.bytes_per_pixel, 4);
    assert_eq!(
        (plain.red_offset, plain.green_offset, plain.blue_offset),
        (0, 1, 2)
    );
}

#[test]
fn new_surface_is_zeroed() {
    let s = Surface::new(2, 2, ChannelLayout::separate_channels());
    assert_eq!(s.bytes.len(), 16);
    assert!(s.bytes.iter().all(|&b| b == 0));
}

#[test]
fn separate_channels_land_in_consecutive_bytes() {
    let mut s = Surface::new(2, 2, ChannelLayout::separate_channels());
    s.apply_batch(&vec![colored(1, 0, 10, 20, 30)]);
    // cell of (1, 0): base = 1 * 4 + 0 * pitch = 4
    assert_eq!(&s.bytes[4..8], &[10, 20, 30, 0]);
    // untouched cells stay zero
    assert_eq!(&s.bytes[0..4], &[0, 0, 0, 0]);
}

#[test]
fn aliased_layout_overwrites_green_and_skips_the_third_byte() {
    // under the quirk layout blue lands on the green byte, so blue wins and
    // the third channel byte stays untouched
    let mut s = Surface::new(2, 2, ChannelLayout::aliased_green_blue());
    s.apply_batch(&vec![colored(1, 0, 10, 20, 30)]);
    assert_eq!(&s.bytes[4..8], &[10, 30, 0, 0]);
}

#[test]
fn pitch_separates_rows() {
    let mut s = Surface::new(3, 2, ChannelLayout::separate_channels());
    s.apply_batch(&vec![colored(0, 1, 7, 8, 9)]);
    // cell of (0, 1): base = 0 * 4 + 1 * (3 * 4) = 12
    assert_eq!(&s.bytes[12..16], &[7, 8, 9, 0]);
}

#[test]
fn applying_a_batch_twice_equals_applying_it_once() {
    let batch = vec![
        colored(0, 0, 1, 2, 3),
        colored(1, 1, 4, 5, 6),
        colored(0, 1, 7, 8, 9),
    ];
    let mut once = Surface::new(2, 2, ChannelLayout::separate_channels());
    once.apply_batch(&batch);
    let mut twice = Surface::new(2, 2, ChannelLayout::separate_channels());
    twice.apply_batch(&batch);
    twice.apply_batch(&batch);
    assert_eq!(once.bytes, twice.bytes);
}

#[test]
fn later_write_to_the_same_cell_wins() {
    let mut s = Surface::new(2, 1, ChannelLayout::separate_channels());
    s.apply_batch(&vec![colored(0, 0, 1, 1, 1), colored(0, 0, 9, 9, 9)]);
    assert_eq!(&s.bytes[0..4], &[9, 9, 9, 0]);
}

#[test]
fn draining_batches_applies_them_in_order() {
    let first = vec![colored(0, 0, 1, 1, 1), colored(1, 0, 2, 2, 2)];
    let second = vec![colored(0, 0, 8, 8, 8)];
    let mut s = Surface::new(2, 1, ChannelLayout::separate_channels());
    s.apply_all(&vec![first, second]);
    assert_eq!(&s.bytes[0..4], &[8, 8, 8, 0]);
    assert_eq!(&s.bytes[4..8], &[2, 2, 2, 0]);
}

#[test]
fn empty_batch_changes_nothing() {
    let mut s = Surface::new(2, 2, ChannelLayout::separate_channels());
    s.apply_batch(&Vec::new());
    assert!(s.bytes.iter().all(|&b| b == 0));
}

#[test]
fn quit_intent_is_found_anywhere_in_the_poll() {
    assert!(!wants_quit(&Vec::new()));
    assert!(!wants_quit(&vec![InputEvent::Other, InputEvent::KeyDown(None)]));
    assert!(!wants_quit(&vec![InputEvent::KeyDown(Some(5))]));
    assert!(wants_quit(&vec![InputEvent::Other, InputEvent::QuitRequested]));
    assert!(wants_quit(&vec![InputEvent::KeyDown(Some(KEY_ESCAPE))]));
}

#[test]
fn throughput_reports_frames_since_last_report() {
    let mut t = Throughput::new();
    t.record_frame();
    t.record_frame();
    t.record_frame();
    assert_eq!(t.take_frame_report(), 3);
    t.record_frame();
    assert_eq!(t.take_frame_report(), 1);
    assert_eq!(t.take_frame_report(), 0);
}

#[test]
fn throughput_pixel_counter_saturates() {
    let mut t = Throughput::new();
    t.record_pixels(10);
    assert_eq!(t.pixels, 10);
    t.record_pixels(u64::MAX);
    assert_eq!(t.pixels, u64::MAX);
    t.record_pixels(5);
    assert_eq!(t.pixels, u64::MAX);
}
