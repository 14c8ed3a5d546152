//! The consumer: owner of the render surface's backing buffer. Every frame
//! it drains all pending draw batches without blocking, writes their pixels
//! into the buffer, hands the buffer to the renderer, and watches the
//! polled input for a quit intent. This module holds the buffer itself and
//! the decision logic; the renderer calls and the channel plumbing stay
//! outside.

use crate::message::Pixel;
use vstd::prelude::*;

verus! {

/// Where each color channel of a pixel lands inside its
/// `bytes_per_pixel`-wide cell of the backing buffer.
#[derive(Clone, Copy, PartialEq, Eq, Structural, Debug)]
pub struct ChannelLayout {
    pub bytes_per_pixel: usize,
    pub red_offset: usize,
    pub green_offset: usize,
    pub blue_offset: usize,
}

impl ChannelLayout {
    /// A layout is usable when every channel lands inside the pixel's cell.
    pub open spec fn wf(self) -> bool {
        &&& self.bytes_per_pixel >= 1
        &&& self.red_offset < self.bytes_per_pixel
        &&& self.green_offset < self.bytes_per_pixel
        &&& self.blue_offset < self.bytes_per_pixel
    }

    /// A four-byte layout with red at offset 0 and green and blue both at
    /// offset 1: the blue write overwrites the green one and the byte at
    /// offset 2 is never touched. This mirrors a write path whose blue
    /// destination is off by one; it stays selectable as a documented
    /// quirk, so output can match that behavior exactly instead of being
    /// silently corrected.
    pub fn aliased_green_blue() -> (l: ChannelLayout)
        ensures
            l == (ChannelLayout {
                bytes_per_pixel: 4,
                red_offset: 0,
                green_offset: 1,
                blue_offset: 1,
            }),
            l.wf(),
    {
        ChannelLayout { bytes_per_pixel: 4, red_offset: 0, green_offset: 1, blue_offset: 1 }
    }

    /// The straightforward layout: red, green and blue in consecutive bytes
    /// of a four-byte cell.
    pub fn separate_channels() -> (l: ChannelLayout)
        ensures
            l == (ChannelLayout {
                bytes_per_pixel: 4,
                red_offset: 0,
                green_offset: 1,
                blue_offset: 2,
            }),
            l.wf(),
    {
        ChannelLayout { bytes_per_pixel: 4, red_offset: 0, green_offset: 1, blue_offset: 2 }
    }
}

/// The first byte of pixel `p`'s cell in a buffer whose rows are `pitch`
/// bytes apart.
pub open spec fn pixel_base(lay: ChannelLayout, pitch: int, p: Pixel) -> int {
    (p.x as int) * (lay.bytes_per_pixel as int) + (p.y as int) * pitch
}

/// One pixel written into the buffer: its three channel bytes stored at
/// their offsets — red first, then green, then blue.
pub open spec fn write_pixel(buf: Seq<u8>, lay: ChannelLayout, pitch: int, p: Pixel) -> Seq<u8> {
    buf.update(pixel_base(lay, pitch, p) + lay.red_offset, p.color.r).update(
        pixel_base(lay, pitch, p) + lay.green_offset,
        p.color.g,
    ).update(pixel_base(lay, pitch, p) + lay.blue_offset, p.color.b)
}

/// A whole batch applied to the buffer, first pixel first.
pub open spec fn apply_batch_spec(
    buf: Seq<u8>,
    lay: ChannelLayout,
    pitch: int,
    batch: Seq<Pixel>,
) -> Seq<u8>
    decreases batch.len(),
{
    if batch.len() == 0 {
        buf
    } else {
        apply_batch_spec(write_pixel(buf, lay, pitch, batch[0]), lay, pitch, batch.drop_first())
    }
}

/// Several batches applied to the buffer, in drain order.
pub open spec fn apply_batches_spec(
    buf: Seq<u8>,
    lay: ChannelLayout,
    pitch: int,
    batches: Seq<Seq<Pixel>>,
) -> Seq<u8>
    decreases batches.len(),
{
    if batches.len() == 0 {
        buf
    } else {
        apply_batches_spec(
            apply_batch_spec(buf, lay, pitch, batches[0]),
            lay,
            pitch,
            batches.drop_first(),
        )
    }
}

/// The byte that writing pixel `p` leaves at buffer position `k`, if `p`
/// writes there at all. The channels go out red, then green, then blue, so
/// when offsets collide the later channel wins.
pub open spec fn byte_written(lay: ChannelLayout, pitch: int, p: Pixel, k: int) -> Option<u8> {
    let base = pixel_base(lay, pitch, p);
    if k == base + lay.blue_offset {
        Some(p.color.b)
    } else if k == base + lay.green_offset {
        Some(p.color.g)
    } else if k == base + lay.red_offset {
        Some(p.color.r)
    } else {
        None
    }
}

/// The byte the latest writer in `batch` leaves at position `k`, if any
/// pixel of `batch` writes there at all.
pub open spec fn last_write(lay: ChannelLayout, pitch: int, batch: Seq<Pixel>, k: int) -> Option<
    u8,
>
    decreases batch.len(),
{
    if batch.len() == 0 {
        None
    } else {
        match last_write(lay, pitch, batch.drop_first(), k) {
            Some(v) => Some(v),
            None => byte_written(lay, pitch, batch[0], k),
        }
    }
}

/// Every write of the batch lands inside a buffer of length `len`.
pub open spec fn writes_in_bounds(
    lay: ChannelLayout,
    pitch: int,
    batch: Seq<Pixel>,
    len: int,
) -> bool {
    forall|i: int|
        0 <= i < batch.len() ==> {
            let base = pixel_base(lay, pitch, #[trigger] batch[i]);
            &&& 0 <= base
            &&& base + (lay.red_offset as int) < len
            &&& base + (lay.green_offset as int) < len
            &&& base + (lay.blue_offset as int) < len
        }
}

/// Appending one pixel to a batch applies it after the rest.
proof fn lemma_apply_batch_snoc(
    buf: Seq<u8>,
    lay: ChannelLayout,
    pitch: int,
    batch: Seq<Pixel>,
    p: Pixel,
)
    ensures
        apply_batch_spec(buf, lay, pitch, batch.push(p)) == write_pixel(
            apply_batch_spec(buf, lay, pitch, batch),
            lay,
            pitch,
            p,
        ),
    decreases batch.len(),
{
    let one = batch.push(p);
    assert(one.len() == batch.len() + 1);
    if batch.len() == 0 {
        assert(one[0] == p);
        assert(one.drop_first() =~= Seq::<Pixel>::empty());
        assert(apply_batch_spec(buf, lay, pitch, one) == apply_batch_spec(
            write_pixel(buf, lay, pitch, p),
            lay,
            pitch,
            one.drop_first(),
        ));
        assert(apply_batch_spec(write_pixel(buf, lay, pitch, p), lay, pitch, one.drop_first())
            == write_pixel(buf, lay, pitch, p));
        assert(apply_batch_spec(buf, lay, pitch, batch) == buf);
    } else {
        assert(one[0] == batch[0]);
        assert(one.drop_first() =~= batch.drop_first().push(p));
        let buf1 = write_pixel(buf, lay, pitch, batch[0]);
        assert(apply_batch_spec(buf, lay, pitch, one) == apply_batch_spec(
            buf1,
            lay,
            pitch,
            batch.drop_first().push(p),
        ));
        lemma_apply_batch_snoc(buf1, lay, pitch, batch.drop_first(), p);
        assert(apply_batch_spec(buf, lay, pitch, batch) == apply_batch_spec(
            buf1,
            lay,
            pitch,
            batch.drop_first(),
        ));
    }
}

/// Appending one batch to a drain applies it after the rest.
proof fn lemma_apply_batches_snoc(
    buf: Seq<u8>,
    lay: ChannelLayout,
    pitch: int,
    batches: Seq<Seq<Pixel>>,
    b1: Seq<Pixel>,
)
    ensures
        apply_batches_spec(buf, lay, pitch, batches.push(b1)) == apply_batch_spec(
            apply_batches_spec(buf, lay, pitch, batches),
            lay,
            pitch,
            b1,
        ),
    decreases batches.len(),
{
    let one = batches.push(b1);
    assert(one.len() == batches.len() + 1);
    if batches.len() == 0 {
        assert(one[0] == b1);
        assert(one.drop_first() =~= Seq::<Seq<Pixel>>::empty());
        assert(apply_batches_spec(buf, lay, pitch, one) == apply_batches_spec(
            apply_batch_spec(buf, lay, pitch, b1),
            lay,
            pitch,
            one.drop_first(),
        ));
        assert(apply_batches_spec(apply_batch_spec(buf, lay, pitch, b1), lay, pitch,
            one.drop_first()) == apply_batch_spec(buf, lay, pitch, b1));
        assert(apply_batches_spec(buf, lay, pitch, batches) == buf);
    } else {
        assert(one[0] == batches[0]);
        assert(one.drop_first() =~= batches.drop_first().push(b1));
        let buf1 = apply_batch_spec(buf, lay, pitch, batches[0]);
        assert(apply_batches_spec(buf, lay, pitch, one) == apply_batches_spec(
            buf1,
            lay,
            pitch,
            batches.drop_first().push(b1),
        ));
        lemma_apply_batches_snoc(buf1, lay, pitch, batches.drop_first(), b1);
        assert(apply_batches_spec(buf, lay, pitch, batches) == apply_batches_spec(
            buf1,
            lay,
            pitch,
            batches.drop_first(),
        ));
    }
}

/// Last-write-wins: after a batch is applied, each buffer position holds
/// the byte of the latest pixel in the batch that writes there, and every
/// position no pixel writes keeps its old byte. If two entries of one drain
/// touch the same position, the later one determines the final byte.
pub proof fn lemma_apply_batch_last_write_wins(
    buf: Seq<u8>,
    lay: ChannelLayout,
    pitch: int,
    batch: Seq<Pixel>,
)
    requires
        writes_in_bounds(lay, pitch, batch, buf.len() as int),
    ensures
        apply_batch_spec(buf, lay, pitch, batch).len() == buf.len(),
        forall|k: int|
            0 <= k < buf.len() ==> #[trigger] apply_batch_spec(buf, lay, pitch, batch)[k]
                == (match last_write(lay, pitch, batch, k) {
                Some(v) => v,
                None => buf[k],
            }),
    decreases batch.len(),
{
    if batch.len() == 0 {
    } else {
        let p = batch[0];
        let buf1 = write_pixel(buf, lay, pitch, p);
        assert(buf1.len() == buf.len());
        assert(writes_in_bounds(lay, pitch, batch.drop_first(), buf1.len() as int)) by {
            assert forall|i: int| 0 <= i < batch.drop_first().len() implies {
                let base = pixel_base(lay, pitch, #[trigger] batch.drop_first()[i]);
                &&& 0 <= base
                &&& base + (lay.red_offset as int) < buf1.len()
                &&& base + (lay.green_offset as int) < buf1.len()
                &&& base + (lay.blue_offset as int) < buf1.len()
            } by {
                assert(batch.drop_first()[i] == batch[i + 1]);
            }
        }
        lemma_apply_batch_last_write_wins(buf1, lay, pitch, batch.drop_first());
        assert forall|k: int| 0 <= k < buf.len() implies #[trigger] apply_batch_spec(
            buf,
            lay,
            pitch,
            batch,
        )[k] == (match last_write(lay, pitch, batch, k) {
            Some(v) => v,
            None => buf[k],
        }) by {
            assert(buf1[k] == (match byte_written(lay, pitch, p, k) {
                Some(v) => v,
                None => buf[k],
            }));
        }
    }
}

/// Idempotence: applying the same batch twice to a buffer leaves exactly
/// the buffer that applying it once leaves.
pub proof fn lemma_apply_batch_idempotent(
    buf: Seq<u8>,
    lay: ChannelLayout,
    pitch: int,
    batch: Seq<Pixel>,
)
    requires
        writes_in_bounds(lay, pitch, batch, buf.len() as int),
    ensures
        apply_batch_spec(apply_batch_spec(buf, lay, pitch, batch), lay, pitch, batch)
            == apply_batch_spec(buf, lay, pitch, batch),
{
    let once = apply_batch_spec(buf, lay, pitch, batch);
    lemma_apply_batch_last_write_wins(buf, lay, pitch, batch);
    lemma_apply_batch_last_write_wins(once, lay, pitch, batch);
    assert(apply_batch_spec(once, lay, pitch, batch) =~= once);
}

/// Every pixel of the batch addresses a cell of a `w` by `h` grid.
pub open spec fn batch_in_bounds(batch: Seq<Pixel>, w: u32, h: u32) -> bool {
    forall|i: int| 0 <= i < batch.len() ==> (#[trigger] batch[i]).x < w && batch[i].y < h
}

/// The consumer's backing buffer: a `width` by `height` grid of
/// `bytes_per_pixel`-wide cells, rows `width * bytes_per_pixel` bytes
/// apart. The consumer owns it exclusively; it is created once, mutated
/// only by draining draw batches, and uploaded to the renderer each frame.
pub struct Surface {
    pub width: u32,
    pub height: u32,
    pub layout: ChannelLayout,
    pub bytes: Vec<u8>,
}

impl Surface {
    /// Row stride of the buffer in bytes.
    pub open spec fn spec_pitch(self) -> int {
        (self.width as int) * (self.layout.bytes_per_pixel as int)
    }

    /// Well-formed: usable layout, buffer sized to the whole grid, grid
    /// small enough to address.
    pub open spec fn wf(self) -> bool {
        &&& self.layout.wf()
        &&& self.bytes@.len() == (self.width as int) * (self.height as int) * (
        self.layout.bytes_per_pixel as int)
        &&& (self.width as int) * (self.height as int) * (self.layout.bytes_per_pixel as int)
            <= usize::MAX as int
    }

    /// Create the backing buffer for a `width` by `height` surface, every
    /// byte zero.
    pub fn new(width: u32, height: u32, layout: ChannelLayout) -> (s: Surface)
        requires
            layout.wf(),
            (width as int) * (height as int) * (layout.bytes_per_pixel as int) <= usize::MAX
                as int,
        ensures
            s.wf(),
            s.width == width,
            s.height == height,
            s.layout == layout,
            s.bytes@.len() == (width as int) * (height as int) * (layout.bytes_per_pixel as int),
            forall|k: int| 0 <= k < s.bytes@.len() ==> s.bytes@[k] == 0u8,
    {
        proof {
            assert((width as int) * (height as int) <= (width as int) * (height as int) * (
            layout.bytes_per_pixel as int) && 0 <= (width as int) * (height as int))
                by (nonlinear_arith)
                requires
                    layout.bytes_per_pixel >= 1,
            ;
        }
        let cells = (width as usize) * (height as usize);
        let len = cells * layout.bytes_per_pixel;
        let mut bytes: Vec<u8> = Vec::new();
        let mut k: usize = 0;
        while k < len
            invariant
                k <= len,
                bytes@.len() == k as int,
                forall|j: int| 0 <= j < k as int ==> bytes@[j] == 0u8,
            decreases len - k,
        {
            bytes.push(0u8);
            k = k + 1;
        }
        Surface { width, height, layout, bytes }
    }

    /// Apply one drained batch to the backing buffer, writing each pixel's
    /// channel bytes at its cell, in batch order.
    pub fn apply_batch(&mut self, batch: &Vec<Pixel>)
        requires
            old(self).wf(),
            batch_in_bounds(batch@, old(self).width, old(self).height),
        ensures
            final(self).wf(),
            final(self).width == old(self).width,
            final(self).height == old(self).height,
            final(self).layout == old(self).layout,
            final(self).bytes@ == apply_batch_spec(
                old(self).bytes@,
                old(self).layout,
                old(self).spec_pitch(),
                batch@,
            ),
    {
        let ghost orig = self.bytes@;
        let ghost lay = self.layout;
        let ghost pitch_g = self.spec_pitch();
        let ghost w0 = self.width;
        let ghost h0 = self.height;
        if batch.len() == 0 {
            assert(batch@ =~= Seq::<Pixel>::empty());
            return ;
        }
        proof {
            assert(batch@[0].x < w0 && batch@[0].y < h0);
            assert((w0 as int) * (lay.bytes_per_pixel as int) <= (w0 as int) * (h0 as int) * (
            lay.bytes_per_pixel as int)) by (nonlinear_arith)
                requires
                    h0 as int >= 1,
                    w0 as int >= 0,
                    lay.bytes_per_pixel as int >= 0,
            ;
        }
        let bpp = self.layout.bytes_per_pixel;
        let pitch = (self.width as usize) * bpp;
        let mut i: usize = 0;
        while i < batch.len()
            invariant
                i <= batch@.len(),
                self.wf(),
                self.width == w0,
                self.height == h0,
                self.layout == lay,
                bpp == lay.bytes_per_pixel,
                pitch as int == pitch_g,
                pitch_g == (w0 as int) * (lay.bytes_per_pixel as int),
                batch_in_bounds(batch@, w0, h0),
                self.bytes@ == apply_batch_spec(orig, lay, pitch_g, batch@.subrange(0, i as int)),
                self.bytes@.len() == orig.len(),
            decreases batch@.len() - i as int,
        {
            let ghost before = self.bytes@;
            let p = batch[i];
            proof {
                assert(0 <= (p.x as int) * (bpp as int) && 0 <= (p.y as int) * (pitch as int) && (
                p.x as int) * (bpp as int) + (p.y as int) * (pitch as int) + (bpp as int) <= (
                w0 as int) * (h0 as int) * (bpp as int)) by (nonlinear_arith)
                    requires
                        0 <= (p.x as int) < (w0 as int),
                        0 <= (p.y as int) < (h0 as int),
                        1 <= (bpp as int),
                        pitch as int == (w0 as int) * (bpp as int),
                ;
            }
            let base = (p.x as usize) * bpp + (p.y as usize) * pitch;
            let c = p.color;
            self.bytes[base + self.layout.red_offset] = c.r;
            self.bytes[base + self.layout.green_offset] = c.g;
            self.bytes[base + self.layout.blue_offset] = c.b;
            proof {
                assert(self.bytes@ == write_pixel(before, lay, pitch_g, p));
                lemma_apply_batch_snoc(orig, lay, pitch_g, batch@.subrange(0, i as int), p);
                assert(batch@.subrange(0, i as int + 1) =~= batch@.subrange(0, i as int).push(p));
            }
            i = i + 1;
        }
        proof {
            assert(batch@.subrange(0, batch@.len() as int) =~= batch@);
        }
    }

    /// Drain: apply every pending batch to the backing buffer, in the order
    /// they were drained.
    pub fn apply_all(&mut self, batches: &Vec<Vec<Pixel>>)
        requires
            old(self).wf(),
            forall|i: int|
                0 <= i < batches@.len() ==> batch_in_bounds(
                    (#[trigger] batches@[i])@,
                    old(self).width,
                    old(self).height,
                ),
        ensures
            final(self).wf(),
            final(self).width == old(self).width,
            final(self).height == old(self).height,
            final(self).layout == old(self).layout,
            final(self).bytes@ == apply_batches_spec(
                old(self).bytes@,
                old(self).layout,
                old(self).spec_pitch(),
                crate::message::batch_views(batches@),
            ),
    {
        let ghost orig = self.bytes@;
        let ghost lay = self.layout;
        let ghost pitch_g = self.spec_pitch();
        let ghost w0 = self.width;
        let ghost h0 = self.height;
        let ghost views = crate::message::batch_views(batches@);
        let mut i: usize = 0;
        while i < batches.len()
            invariant
                i <= batches@.len(),
                self.wf(),
                self.width == w0,
                self.height == h0,
                self.layout == lay,
                pitch_g == self.spec_pitch(),
                views == crate::message::batch_views(batches@),
                forall|j: int|
                    0 <= j < batches@.len() ==> batch_in_bounds(
                        (#[trigger] batches@[j])@,
                        w0,
                        h0,
                    ),
                self.bytes@ == apply_batches_spec(orig, lay, pitch_g, views.subrange(0, i as int)),
            decreases batches@.len() - i as int,
        {
            self.apply_batch(&batches[i]);
            proof {
                lemma_apply_batches_snoc(orig, lay, pitch_g, views.subrange(0, i as int),
                    batches@[i as int]@);
                assert(views.subrange(0, i as int + 1) =~= views.subrange(0, i as int).push(
                    batches@[i as int]@));
            }
            i = i + 1;
        }
        proof {
            assert(views.subrange(0, views.len() as int) =~= views);
        }
    }
}

/// With a well-formed surface, every pixel that addresses a cell of its
/// grid writes inside its buffer.
pub proof fn lemma_surface_writes_in_bounds(s: Surface, batch: Seq<Pixel>)
    requires
        s.wf(),
        batch_in_bounds(batch, s.width, s.height),
    ensures
        writes_in_bounds(s.layout, s.spec_pitch(), batch, s.bytes@.len() as int),
{
    let lay = s.layout;
    let pitch = s.spec_pitch();
    assert forall|i: int| 0 <= i < batch.len() implies {
        let base = pixel_base(lay, pitch, #[trigger] batch[i]);
        &&& 0 <= base
        &&& base + (lay.red_offset as int) < s.bytes@.len()
        &&& base + (lay.green_offset as int) < s.bytes@.len()
        &&& base + (lay.blue_offset as int) < s.bytes@.len()
    } by {
        let p = batch[i];
        assert(0 <= (p.x as int) * (lay.bytes_per_pixel as int) + (p.y as int) * pitch && (
        p.x as int) * (lay.bytes_per_pixel as int) + (p.y as int) * pitch + (
        lay.bytes_per_pixel as int) <= (s.width as int) * (s.height as int) * (
        lay.bytes_per_pixel as int)) by (nonlinear_arith)
            requires
                0 <= (p.x as int) < (s.width as int),
                0 <= (p.y as int) < (s.height as int),
                1 <= (lay.bytes_per_pixel as int),
                pitch == (s.width as int) * (lay.bytes_per_pixel as int),
        ;
    }
}

/// Idempotence at the surface: applying the same batch twice to the
/// backing buffer yields the same final buffer as applying it once.
pub proof fn lemma_surface_apply_twice(s: Surface, batch: Seq<Pixel>)
    requires
        s.wf(),
        batch_in_bounds(batch, s.width, s.height),
    ensures
        apply_batch_spec(
            apply_batch_spec(s.bytes@, s.layout, s.spec_pitch(), batch),
            s.layout,
            s.spec_pitch(),
            batch,
        ) == apply_batch_spec(s.bytes@, s.layout, s.spec_pitch(), batch),
{
    lemma_surface_writes_in_bounds(s, batch);
    lemma_apply_batch_idempotent(s.bytes@, s.layout, s.spec_pitch(), batch);
}

/// Key code the windowing layer reports for the escape key.
pub const KEY_ESCAPE: u32 = 27;

/// One polled input happening, reduced to what the consumer reacts to.
#[derive(Clone, Copy, PartialEq, Eq, Structural, Debug)]
pub enum InputEvent {
    /// The windowing layer asked the process to quit.
    QuitRequested,
    /// A key went down, with its key code when the layer reports one.
    KeyDown(Option<u32>),
    /// Anything else.
    Other,
}

/// Whether one event expresses the intent to quit: an explicit quit request
/// or the escape key going down.
pub open spec fn is_quit_intent(e: InputEvent) -> bool {
    match e {
        InputEvent::QuitRequested => true,
        InputEvent::KeyDown(code) => code == Some(KEY_ESCAPE),
        InputEvent::Other => false,
    }
}

/// Scan one frame's polled events for a quit intent; on finding one the
/// consumer escalates `Quit` through the router.
pub fn wants_quit(events: &Vec<InputEvent>) -> (r: bool)
    ensures
        r == exists|i: int| 0 <= i < events@.len() && is_quit_intent(#[trigger] events@[i]),
{
    let mut i: usize = 0;
    while i < events.len()
        invariant
            i <= events@.len(),
            forall|j: int| 0 <= j < i as int ==> !is_quit_intent(#[trigger] events@[j]),
        decreases events@.len() - i as int,
    {
        let hit = match events[i] {
            InputEvent::QuitRequested => true,
            InputEvent::KeyDown(Some(code)) => code == KEY_ESCAPE,
            _ => false,
        };
        if hit {
            return true;
        }
        i = i + 1;
    }
    false
}

/// Frame and pixel counters behind the consumer's periodic throughput
/// report. The counters saturate instead of wrapping.
pub struct Throughput {
    pub frames: u64,
    pub pixels: u64,
    pub reported_frames: u64,
}

impl Throughput {
    /// Counters are consistent: no more frames reported than counted.
    pub open spec fn wf(self) -> bool {
        self.reported_frames <= self.frames
    }

    /// Fresh counters, everything zero.
    pub fn new() -> (t: Throughput)
        ensures
            t.wf(),
            t.frames == 0,
            t.pixels == 0,
            t.reported_frames == 0,
    {
        Throughput { frames: 0, pixels: 0, reported_frames: 0 }
    }

    /// Count one presented frame.
    pub fn record_frame(&mut self)
        requires
            old(self).wf(),
        ensures
            final(self).wf(),
            final(self).frames == (if old(self).frames < u64::MAX {
                old(self).frames + 1
            } else {
                old(self).frames as int
            }),
            final(self).pixels == old(self).pixels,
            final(self).reported_frames == old(self).reported_frames,
    {
        if self.frames < u64::MAX {
            self.frames = self.frames + 1;
        }
    }

    /// Count `n` applied pixels.
    pub fn record_pixels(&mut self, n: u64)
        requires
            old(self).wf(),
        ensures
            final(self).wf(),
            final(self).pixels == (if old(self).pixels + n <= u64::MAX {
                old(self).pixels + n
            } else {
                u64::MAX as int
            }),
            final(self).frames == old(self).frames,
            final(self).reported_frames == old(self).reported_frames,
    {
        if n <= u64::MAX - self.pixels {
            self.pixels = self.pixels + n;
        } else {
            self.pixels = u64::MAX;
        }
    }

    /// Frames presented since the last report; marks them reported.
    pub fn take_frame_report(&mut self) -> (r: u64)
        requires
            old(self).wf(),
        ensures
            final(self).wf(),
            r == old(self).frames - old(self).reported_frames,
            final(self).frames == old(self).frames,
            final(self).pixels == old(self).pixels,
            final(self).reported_frames == old(self).frames,
    {
        let r = self.frames - self.reported_frames;
        self.reported_frames = self.frames;
        r
    }
}

} // verus!
