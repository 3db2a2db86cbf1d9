//! The chunked bitmap renderer: a concrete `Renderer` for a one-bit-per-
//! pixel, page/column-addressed device that can only buffer one tile at a
//! time.
//!
//! The entire usable memory is one fixed byte buffer holding the active
//! chunk, laid out page-row by page-row: the byte at
//! `(row_group * chunk_width + x)` packs the eight vertically stacked pixels
//! at local column `x`, rows `8 * row_group ..= 8 * row_group + 7`, bit `n`
//! being local row `8 * row_group + n`. `flush` streams that buffer to the
//! device over a command channel, one page row at a time, each preceded by
//! its page and column address commands.

use vstd::math::max;
use vstd::math::min;
use vstd::prelude::*;
use vstd::slice::slice_subrange;

use crate::channel::ChannelCommand;
use crate::channel::ChannelError;
use crate::channel::ChannelEvent;
use crate::channel::CommandChannel;
use crate::display_list::next_origin;
use crate::model::BoundingBox;
use crate::model::Command;
use crate::model::CommandType;
use crate::model::RendererError;
use crate::model::lemma_emitted_is_proper_prefix;
use crate::model::lemma_plan_focus;
use crate::model::Rgb;
use crate::renderer::RenderEvent;
use crate::renderer::Renderer;

verus! {

/// A color is lit on a monochrome device exactly when any channel is
/// nonzero.
pub open spec fn spec_lit(rgb: Rgb) -> bool {
    rgb.r != 0 || rgb.g != 0 || rgb.b != 0
}

/// The pixel at local chunk coordinates `(x, y)` in a buffer laid out
/// `chunk_width` bytes per page row.
pub open spec fn spec_bit(buf: Seq<u8>, cw: int, x: int, y: int) -> bool {
    (buf[(y / 8) * cw + x] >> ((y % 8) as u8)) & 1 == 1
}

/// Local chunk coordinates `(x, y)` lie in the filled intersection of a
/// rectangle's bounds with the clip. The far edges are exclusive: the
/// renderer paints the half-open pixel grid of the box.
pub open spec fn spec_in_fill(clip: BoundingBox, bounds: BoundingBox, x: int, y: int) -> bool {
    let gx = clip.x1 as int + x;
    let gy = clip.y1 as int + y;
    max(bounds.x1 as int, clip.x1 as int) <= gx && gx < min(bounds.x2 as int, clip.x2 as int)
        && max(bounds.y1 as int, clip.y1 as int) <= gy && gy < min(
        bounds.y2 as int,
        clip.y2 as int,
    )
}

/// How drawing a filled rectangle changes the chunk buffer: every pixel of
/// the intersection with the clip becomes `lit`, every other pixel keeps
/// its value, and the bytes beyond the chunk area are untouched.
pub open spec fn spec_draw_post(
    old_buf: Seq<u8>,
    new_buf: Seq<u8>,
    clip: BoundingBox,
    bounds: BoundingBox,
    lit: bool,
    cw: int,
    ch: int,
) -> bool {
    &&& new_buf.len() == old_buf.len()
    &&& forall|x: int, y: int|
        0 <= x < cw && 0 <= y < ch ==> #[trigger] spec_bit(new_buf, cw, x, y) == (if spec_in_fill(
            clip,
            bounds,
            x,
            y,
        ) {
            lit
        } else {
            spec_bit(old_buf, cw, x, y)
        })
    &&& forall|i: int| cw * (ch / 8) <= i < old_buf.len() ==> #[trigger] new_buf[i] == old_buf[i]
}

/// Bit-packing round trip: drawing a lit rectangle sets exactly the bits of
/// its intersection with the clip, and drawing the same rectangle in black
/// afterwards clears that same pattern; bits outside the intersection are
/// untouched by both draws.
pub proof fn lemma_rect_round_trip(
    b0: Seq<u8>,
    b1: Seq<u8>,
    b2: Seq<u8>,
    clip: BoundingBox,
    bounds: BoundingBox,
    cw: int,
    ch: int,
)
    requires
        spec_draw_post(b0, b1, clip, bounds, true, cw, ch),
        spec_draw_post(b1, b2, clip, bounds, false, cw, ch),
    ensures
        forall|x: int, y: int|
            0 <= x < cw && 0 <= y < ch && spec_in_fill(clip, bounds, x, y) ==> #[trigger] spec_bit(
                b1,
                cw,
                x,
                y,
            ),
        forall|x: int, y: int|
            0 <= x < cw && 0 <= y < ch && !spec_in_fill(clip, bounds, x, y) ==> #[trigger] spec_bit(
                b1,
                cw,
                x,
                y,
            ) == spec_bit(b0, cw, x, y),
        forall|x: int, y: int|
            0 <= x < cw && 0 <= y < ch ==> #[trigger] spec_bit(b2, cw, x, y) == (if spec_in_fill(
                clip,
                bounds,
                x,
                y,
            ) {
                false
            } else {
                spec_bit(b0, cw, x, y)
            }),
{
}

/// The channel traffic of one page row of a flush: the page address, the
/// two column address nibbles of the clip's left pixel column, then that
/// row's packed bytes.
pub open spec fn spec_flush_row_events(
    clip: BoundingBox,
    cw: int,
    buf: Seq<u8>,
    row: int,
) -> Seq<ChannelEvent> {
    seq![
        ChannelEvent::Command(
            ChannelCommand::PageAddress((((clip.y1 as int) / 8 + row) % 256) as u8),
        ),
        ChannelEvent::Command(ChannelCommand::ColumnAddressLow(((clip.x1 as int) % 16) as u8)),
        ChannelEvent::Command(
            ChannelCommand::ColumnAddressHigh((((clip.x1 as int) / 16) % 16) as u8),
        ),
        ChannelEvent::Data(buf.subrange(row * cw, row * cw + cw)),
    ]
}

/// The channel traffic of the first `n` page rows of a flush, in order.
pub open spec fn spec_flush_events_upto(
    clip: BoundingBox,
    cw: int,
    buf: Seq<u8>,
    n: int,
) -> Seq<ChannelEvent>
    decreases n,
{
    if n <= 0 {
        Seq::<ChannelEvent>::empty()
    } else {
        spec_flush_events_upto(clip, cw, buf, n - 1) + spec_flush_row_events(clip, cw, buf, n - 1)
    }
}

/// The complete channel traffic of one flush of a `cw` by `ch` chunk:
/// every page row in order, each row's address commands strictly before its
/// data.
pub open spec fn spec_flush_events(
    clip: BoundingBox,
    cw: int,
    ch: int,
    buf: Seq<u8>,
) -> Seq<ChannelEvent> {
    spec_flush_events_upto(clip, cw, buf, ch / 8)
}

/// The channel traffic of page rows `i..m` of a flush, in order.
pub open spec fn spec_flush_events_between(
    clip: BoundingBox,
    cw: int,
    buf: Seq<u8>,
    i: int,
    m: int,
) -> Seq<ChannelEvent>
    decreases m - i,
{
    if i < m {
        spec_flush_row_events(clip, cw, buf, i) + spec_flush_events_between(clip, cw, buf, i + 1, m)
    } else {
        Seq::<ChannelEvent>::empty()
    }
}

proof fn lemma_flush_split(clip: BoundingBox, cw: int, buf: Seq<u8>, i: int, m: int)
    requires
        0 <= i <= m,
    ensures
        spec_flush_events_upto(clip, cw, buf, m) == spec_flush_events_upto(clip, cw, buf, i)
            + spec_flush_events_between(clip, cw, buf, i, m),
    decreases m - i,
{
    if i == m {
        assert(spec_flush_events_upto(clip, cw, buf, m) =~= spec_flush_events_upto(clip, cw, buf, i)
            + spec_flush_events_between(clip, cw, buf, i, m));
    } else {
        lemma_flush_split(clip, cw, buf, i + 1, m);
        assert(spec_flush_events_upto(clip, cw, buf, i + 1) == spec_flush_events_upto(
            clip,
            cw,
            buf,
            i,
        ) + spec_flush_row_events(clip, cw, buf, i));
        assert(spec_flush_events_upto(clip, cw, buf, m) =~= spec_flush_events_upto(clip, cw, buf, i)
            + spec_flush_events_between(clip, cw, buf, i, m));
    }
}

/// A buffer of `len` zero bytes: what the chunk buffer holds right after a
/// clear.
pub open spec fn spec_zero_buffer(len: int) -> Seq<u8> {
    Seq::new(len as nat, |i: int| 0u8)
}

/// The clip rectangle of the chunk whose top-left pixel is `(x, y)`.
pub open spec fn spec_clip_at(x: int, y: int, cw: int, ch: int) -> BoundingBox {
    BoundingBox { x1: x as u32, y1: y as u32, x2: (x + cw) as u32, y2: (y + ch) as u32 }
}

/// The bring-up command sequence: every configuration command strictly
/// precedes the final display-on.
pub open spec fn spec_init_commands(display_height: u8) -> Seq<ChannelEvent> {
    seq![
        ChannelEvent::Command(ChannelCommand::DisplayOn(false)),
        ChannelEvent::Command(ChannelCommand::DisplayClockDiv(8, 0)),
        ChannelEvent::Command(ChannelCommand::Multiplex((display_height - 1) as u8)),
        ChannelEvent::Command(ChannelCommand::StartLine(0)),
        ChannelEvent::Command(ChannelCommand::ChargePump(true)),
        ChannelEvent::Command(ChannelCommand::Contrast(128)),
        ChannelEvent::Command(ChannelCommand::PreChargePeriod(1, 15)),
        ChannelEvent::Command(ChannelCommand::VcomhDeselect(0)),
        ChannelEvent::Command(ChannelCommand::AllOn(false)),
        ChannelEvent::Command(ChannelCommand::Invert(false)),
        ChannelEvent::Command(ChannelCommand::DisplayOffset(0)),
        ChannelEvent::Command(ChannelCommand::ComPinConfig(true)),
        ChannelEvent::Command(ChannelCommand::DisplayOn(true)),
    ]
}

/// The channel traffic that blanks the tile column at `x`, from row origin
/// `y` downward: one flush of an all-zero buffer per chunk.
pub open spec fn spec_blank_column(
    w: int,
    h: int,
    cw: int,
    ch: int,
    len: int,
    x: int,
    y: int,
) -> Seq<ChannelEvent>
    decreases h - y + ch,
{
    if 0 <= y < h && 0 < cw && 0 < ch {
        spec_flush_events(spec_clip_at(x, y, cw, ch), cw, ch, spec_zero_buffer(len))
            + spec_blank_column(w, h, cw, ch, len, x, y + ch)
    } else {
        Seq::<ChannelEvent>::empty()
    }
}

/// The channel traffic that blanks every chunk of the canvas, column of
/// tiles by column of tiles from `x` rightward.
pub open spec fn spec_blank_frame(
    w: int,
    h: int,
    cw: int,
    ch: int,
    len: int,
    x: int,
) -> Seq<ChannelEvent>
    decreases w - x + cw,
{
    if 0 <= x < w && 0 < cw && 0 < ch {
        spec_blank_column(w, h, cw, ch, len, x, 0) + spec_blank_frame(w, h, cw, ch, len, x + cw)
    } else {
        Seq::<ChannelEvent>::empty()
    }
}

proof fn lemma_or_nonzero(r: u8, g: u8, b: u8)
    ensures
        ((r | g | b) == 0) == (r == 0 && g == 0 && b == 0),
{
    assert(((r | g | b) == 0) == (r == 0 && g == 0 && b == 0)) by (bit_vector);
}

proof fn lemma_set_bit(b: u8, j: u8, k: u8)
    requires
        j < 8,
        k < 8,
    ensures
        ((b | (1u8 << j)) >> k) & 1 == (if k == j {
            1u8
        } else {
            (b >> k) & 1
        }),
{
    assert(((b | (1u8 << j)) >> k) & 1 == (if k == j {
        1u8
    } else {
        (b >> k) & 1
    })) by (bit_vector)
        requires
            j < 8,
            k < 8,
    ;
}

proof fn lemma_clear_bit(b: u8, j: u8, k: u8)
    requires
        j < 8,
        k < 8,
    ensures
        ((b & !(1u8 << j)) >> k) & 1 == (if k == j {
            0u8
        } else {
            (b >> k) & 1
        }),
{
    assert(((b & !(1u8 << j)) >> k) & 1 == (if k == j {
        0u8
    } else {
        (b >> k) & 1
    })) by (bit_vector)
        requires
            j < 8,
            k < 8,
    ;
}

proof fn lemma_byte_index_bound(cw: int, ch: int, a: int, b: int)
    requires
        0 < cw,
        0 < ch,
        ch % 8 == 0,
        0 <= a < cw,
        0 <= b < ch,
    ensures
        0 <= (b / 8) * cw + a < cw * (ch / 8),
{
    assert(0 <= b / 8);
    assert(b / 8 <= ch / 8 - 1);
    assert((b / 8) * cw + a < cw * (ch / 8)) by (nonlinear_arith)
        requires
            0 <= b / 8 <= ch / 8 - 1,
            0 <= a < cw,
            0 < cw,
    ;
    assert(0 <= (b / 8) * cw + a) by (nonlinear_arith)
        requires
            0 <= b / 8,
            0 <= a,
            0 < cw,
    ;
}

proof fn lemma_byte_index_inj(cw: int, a: int, ra: int, x: int, rx: int)
    requires
        0 < cw,
        0 <= a < cw,
        0 <= x < cw,
        ra * cw + a == rx * cw + x,
    ensures
        a == x,
        ra == rx,
{
    assert(a == x && ra == rx) by (nonlinear_arith)
        requires
            0 < cw,
            0 <= a < cw,
            0 <= x < cw,
            ra * cw + a == rx * cw + x,
    ;
}

proof fn lemma_abort_in_blank(
    log0: Seq<ChannelEvent>,
    iplan: Seq<ChannelEvent>,
    tile_base: Seq<ChannelEvent>,
    cur: Seq<ChannelEvent>,
    ftile: Seq<ChannelEvent>,
    k0: int,
    rest_tile: Seq<ChannelEvent>,
)
    requires
        0 <= k0 < ftile.len(),
        cur == tile_base + ftile.subrange(0, k0),
        tile_base + (ftile + rest_tile) == log0 + iplan,
        log0.len() <= tile_base.len(),
    ensures
        exists|n: int| 0 <= n < iplan.len() && cur == log0 + iplan.subrange(0, n),
{
    let tail = ftile.subrange(k0, ftile.len() as int) + rest_tile;
    assert(ftile =~= ftile.subrange(0, k0) + ftile.subrange(k0, ftile.len() as int));
    assert(cur + tail =~= tile_base + (ftile + rest_tile));
    assert(cur.len() >= tile_base.len());
    assert(ftile.subrange(k0, ftile.len() as int).len() == ftile.len() - k0);
    assert(tail.len() > 0);
    lemma_emitted_is_proper_prefix(log0, cur, tail, iplan);
}

impl From<ChannelError> for RendererError {
    /// Every device-level transport failure is one opaque backing-store
    /// error to the engine.
    fn from(value: ChannelError) -> (r: Self)
        ensures
            r == RendererError::BackingError,
    {
        RendererError::BackingError
    }
}

impl vstd::std_specs::convert::FromSpecImpl<ChannelError> for RendererError {
    open spec fn obeys_from_spec() -> bool {
        true
    }

    open spec fn from_spec(value: ChannelError) -> Self {
        RendererError::BackingError
    }
}

/// A renderer that packs pixels into a fixed byte buffer sized for one
/// chunk and streams that buffer to a page/column-addressed device through
/// a command channel.
pub struct Sh1107Render<C: CommandChannel> {
    width: u32,
    height: u32,
    chunk_width: u32,
    chunk_height: u32,
    clip: BoundingBox,
    buffer: Vec<u8>,
    channel: C,
    trace: Ghost<Seq<RenderEvent>>,
}

impl<C: CommandChannel> Sh1107Render<C> {
    /// The chunk buffer's bytes.
    pub closed spec fn buffer_view(&self) -> Seq<u8> {
        self.buffer@
    }

    /// The current clip rectangle: always exactly one chunk.
    pub closed spec fn clip_spec(&self) -> BoundingBox {
        self.clip
    }

    /// Everything sent to the device so far.
    pub closed spec fn channel_log(&self) -> Seq<ChannelEvent> {
        self.channel.log()
    }

    /// A renderer over `channel` for a `width` by `height` canvas repainted
    /// in `chunk_width` by `chunk_height` chunks, buffering one chunk in
    /// `capacity` bytes. The chunk height is a whole number of eight-pixel
    /// page rows and the buffer holds at least one full chunk.
    pub fn new(
        channel: C,
        width: u32,
        height: u32,
        chunk_width: u32,
        chunk_height: u32,
        capacity: usize,
    ) -> (r: Self)
        requires
            chunk_width > 0,
            chunk_height > 0,
            chunk_height % 8 == 0,
            width as int + chunk_width as int <= u32::MAX as int,
            height as int + chunk_height as int <= u32::MAX as int,
            capacity as int >= chunk_width as int * (chunk_height as int / 8),
        ensures
            r.inv(),
            r.width_spec() == width,
            r.height_spec() == height,
            r.chunk_spec() == (chunk_width, chunk_height),
            r.events() == Seq::<RenderEvent>::empty(),
            r.channel_log() == channel.log(),
            r.clip_spec() == spec_clip_at(0, 0, chunk_width as int, chunk_height as int),
            r.buffer_view().len() == capacity,
            forall|i: int| 0 <= i < capacity ==> r.buffer_view()[i] == 0u8,
    {
        let mut buffer: Vec<u8> = Vec::new();
        let mut i: usize = 0;
        while i < capacity
            invariant
                i <= capacity,
                buffer@.len() == i,
                forall|j: int| 0 <= j < i ==> buffer@[j] == 0u8,
            decreases capacity - i,
        {
            buffer.push(0u8);
            i = i + 1;
        }
        Sh1107Render {
            width,
            height,
            chunk_width,
            chunk_height,
            clip: BoundingBox { x1: 0, y1: 0, x2: chunk_width, y2: chunk_height },
            buffer,
            channel,
            trace: Ghost(Seq::empty()),
        }
    }

    /// The channel this renderer sends to.
    pub fn channel(&self) -> (r: &C)
        ensures
            r.log() == self.channel_log(),
    {
        &self.channel
    }

    /// The channel itself, as a value.
    pub closed spec fn channel_spec(&self) -> C {
        self.channel
    }

    /// Mutable access to the channel, so that a caller can hand buffered
    /// traffic on (a collecting channel is drained through this). Nothing
    /// else of the renderer changes, whatever the caller does to the
    /// channel.
    pub fn channel_mut(&mut self) -> (r: &mut C)
        ensures
            *r == old(self).channel_spec(),
            final(self).channel_log() == final(r).log(),
            final(self).inv() == old(self).inv(),
            final(self).width_spec() == old(self).width_spec(),
            final(self).height_spec() == old(self).height_spec(),
            final(self).chunk_spec() == old(self).chunk_spec(),
            final(self).events() == old(self).events(),
            final(self).buffer_view() == old(self).buffer_view(),
            final(self).clip_spec() == old(self).clip_spec(),
    {
        &mut self.channel
    }

    /// One-time device bring-up: send the configuration sequence — display
    /// off first, display on strictly after every other configuration
    /// command — then blank the device by clipping, clearing and flushing
    /// every chunk of the full canvas exactly once.
    ///
    /// `dimensions` is the device's (width, height) in pixels; only the
    /// height is needed, for the multiplex ratio. On failure the channel
    /// carries the old traffic plus a proper prefix of the planned
    /// sequence: nothing is sent after the failing transfer.
    #[verifier::loop_isolation(false)]
    #[verifier::rlimit(80)]
    pub fn init(&mut self, dimensions: (u8, u8)) -> (r: Result<(), RendererError>)
        requires
            old(self).inv(),
            dimensions.1 >= 1,
        ensures
            final(self).inv(),
            final(self).width_spec() == old(self).width_spec(),
            final(self).height_spec() == old(self).height_spec(),
            final(self).chunk_spec() == old(self).chunk_spec(),
            r is Ok ==> final(self).channel_log() == old(self).channel_log()
                + spec_init_commands(dimensions.1) + spec_blank_frame(
                old(self).width_spec() as int,
                old(self).height_spec() as int,
                old(self).chunk_spec().0 as int,
                old(self).chunk_spec().1 as int,
                old(self).buffer_view().len() as int,
                0,
            ),
            r is Err ==> r->Err_0 == RendererError::BackingError && exists|n: int|
                0 <= n < (spec_init_commands(dimensions.1) + spec_blank_frame(
                    old(self).width_spec() as int,
                    old(self).height_spec() as int,
                    old(self).chunk_spec().0 as int,
                    old(self).chunk_spec().1 as int,
                    old(self).buffer_view().len() as int,
                    0,
                )).len() && final(self).channel_log() == old(self).channel_log() + (
                spec_init_commands(dimensions.1) + spec_blank_frame(
                    old(self).width_spec() as int,
                    old(self).height_spec() as int,
                    old(self).chunk_spec().0 as int,
                    old(self).chunk_spec().1 as int,
                    old(self).buffer_view().len() as int,
                    0,
                )).subrange(0, n),
    {
        let display_height = dimensions.1;
        let width = self.width;
        let height = self.height;
        let cw = self.chunk_width;
        let ch = self.chunk_height;
        let ghost log0 = self.channel.log();
        let ghost wi = width as int;
        let ghost hi = height as int;
        let ghost cwi = cw as int;
        let ghost chi = ch as int;
        let ghost len0 = self.buffer@.len() as int;
        let ghost cmds = spec_init_commands(display_height);
        let ghost bplan = spec_blank_frame(wi, hi, cwi, chi, len0, 0);
        let ghost iplan = cmds + bplan;
        proof {
            assert((log0 + cmds) + bplan =~= log0 + iplan);
            assert(cmds.len() == 13);
        }

        let mut setup: Vec<ChannelCommand> = Vec::new();
        setup.push(ChannelCommand::DisplayOn(false));
        setup.push(ChannelCommand::DisplayClockDiv(8, 0));
        setup.push(ChannelCommand::Multiplex(display_height - 1));
        setup.push(ChannelCommand::StartLine(0));
        setup.push(ChannelCommand::ChargePump(true));
        setup.push(ChannelCommand::Contrast(128));
        setup.push(ChannelCommand::PreChargePeriod(1, 15));
        setup.push(ChannelCommand::VcomhDeselect(0));
        setup.push(ChannelCommand::AllOn(false));
        setup.push(ChannelCommand::Invert(false));
        setup.push(ChannelCommand::DisplayOffset(0));
        setup.push(ChannelCommand::ComPinConfig(true));
        setup.push(ChannelCommand::DisplayOn(true));
        proof {
            assert(setup@.map_values(|c: ChannelCommand| ChannelEvent::Command(c)) =~= cmds);
        }

        let mut k: usize = 0;
        while k < setup.len()
            invariant
                k <= setup@.len(),
                self.width == width,
                self.height == height,
                self.chunk_width == cw,
                self.chunk_height == ch,
                self.clip == old(self).clip,
                self.buffer == old(self).buffer,
                self.trace == old(self).trace,
                self.channel.log() == log0 + cmds.subrange(0, k as int),
            decreases setup@.len() - k,
        {
            match self.channel.send_command(setup[k]) {
                Ok(()) => {},
                Err(e) => {
                    proof {
                        assert(iplan.subrange(0, k as int) =~= cmds.subrange(0, k as int));
                        assert(0 <= (k as int) && (k as int) < iplan.len());
                        assert(self.channel.log() == log0 + iplan.subrange(0, k as int));
                        assert(iplan == spec_init_commands(dimensions.1) + spec_blank_frame(
                            old(self).width_spec() as int,
                            old(self).height_spec() as int,
                            old(self).chunk_spec().0 as int,
                            old(self).chunk_spec().1 as int,
                            old(self).buffer_view().len() as int,
                            0,
                        ));
                        assert(self.channel.log() == old(self).channel_log() + (spec_init_commands(
                            dimensions.1,
                        ) + spec_blank_frame(
                            old(self).width_spec() as int,
                            old(self).height_spec() as int,
                            old(self).chunk_spec().0 as int,
                            old(self).chunk_spec().1 as int,
                            old(self).buffer_view().len() as int,
                            0,
                        )).subrange(0, k as int));
                    }
                    return Err(RendererError::from(e));
                },
            }
            proof {
                assert(cmds[k as int] == ChannelEvent::Command(setup@[k as int]));
                assert(self.channel.log() =~= log0 + cmds.subrange(0, k as int + 1));
            }
            k = k + 1;
        }
        proof {
            assert(cmds.subrange(0, setup@.len() as int) =~= cmds);
        }
        let ghost base = self.channel.log();

        let mut x: u32 = 0;
        while x < width
            invariant
                self.inv(),
                self.width == width,
                self.height == height,
                self.chunk_width == cw,
                self.chunk_height == ch,
                self.buffer@.len() as int == len0,
                x < width ==> x % cw == 0,
                log0.len() <= self.channel.log().len(),
                self.channel.log() + spec_blank_frame(wi, hi, cwi, chi, len0, x as int) == base
                    + spec_blank_frame(wi, hi, cwi, chi, len0, 0),
            decreases u32::MAX as int - x as int,
        {
            let ghost col_base = self.channel.log();
            proof {
                assert(col_base + spec_blank_frame(wi, hi, cwi, chi, len0, x as int) == log0
                    + iplan);
                assert(log0.len() <= col_base.len());
            }
            let mut y: u32 = 0;
            while y < height
                invariant
                    x < width,
                    x % cw == 0,
                    self.inv(),
                    self.width == width,
                    self.height == height,
                    self.chunk_width == cw,
                    self.chunk_height == ch,
                    self.buffer@.len() as int == len0,
                    y < height ==> y % ch == 0,
                    log0.len() <= self.channel.log().len(),
                    self.channel.log() + spec_blank_column(wi, hi, cwi, chi, len0, x as int, y as int)
                        == col_base + spec_blank_column(wi, hi, cwi, chi, len0, x as int, 0),
                decreases u32::MAX as int - y as int,
            {
                let ghost tile_base = self.channel.log();
                let ghost ftile = spec_flush_events(
                    spec_clip_at(x as int, y as int, cwi, chi),
                    cwi,
                    chi,
                    spec_zero_buffer(len0),
                );
                let ghost rest_tile = spec_blank_column(
                    wi,
                    hi,
                    cwi,
                    chi,
                    len0,
                    x as int,
                    y as int + chi,
                ) + spec_blank_frame(wi, hi, cwi, chi, len0, x as int + cwi);
                proof {
                    assert(tile_base + spec_blank_column(wi, hi, cwi, chi, len0, x as int, y as int)
                        == col_base + spec_blank_column(wi, hi, cwi, chi, len0, x as int, 0));
                    assert(log0.len() <= tile_base.len());
                    assert(spec_blank_column(wi, hi, cwi, chi, len0, x as int, y as int) == ftile
                        + spec_blank_column(wi, hi, cwi, chi, len0, x as int, y as int + chi));
                    assert(spec_blank_frame(wi, hi, cwi, chi, len0, x as int) == spec_blank_column(
                        wi,
                        hi,
                        cwi,
                        chi,
                        len0,
                        x as int,
                        0,
                    ) + spec_blank_frame(wi, hi, cwi, chi, len0, x as int + cwi));
                    lemma_plan_focus(
                        log0,
                        iplan,
                        col_base,
                        tile_base,
                        ftile,
                        spec_blank_column(wi, hi, cwi, chi, len0, x as int, y as int + chi),
                        spec_blank_frame(wi, hi, cwi, chi, len0, x as int + cwi),
                        spec_blank_column(wi, hi, cwi, chi, len0, x as int, y as int),
                        spec_blank_column(wi, hi, cwi, chi, len0, x as int, 0),
                        spec_blank_frame(wi, hi, cwi, chi, len0, x as int),
                    );
                    assert(tile_base + (ftile + rest_tile) == log0 + iplan);
                }
                match self.set_chunk(x, y) {
                    Ok(()) => {},
                    Err(_e) => {
                        return Err(RendererError::BackingError);
                    },
                }
                match self.clear() {
                    Ok(()) => {},
                    Err(_e) => {
                        return Err(RendererError::BackingError);
                    },
                }
                proof {
                    assert(self.buffer@ =~= spec_zero_buffer(len0));
                    assert(self.clip == spec_clip_at(x as int, y as int, cwi, chi));
                }
                match self.flush() {
                    Ok(()) => {},
                    Err(e) => {
                        proof {
                            let k0 = choose|n: int|
                                0 <= n < ftile.len() && self.channel.log() == tile_base
                                    + ftile.subrange(0, n);
                            lemma_abort_in_blank(
                                log0,
                                iplan,
                                tile_base,
                                self.channel.log(),
                                ftile,
                                k0,
                                rest_tile,
                            );
                            let n0 = choose|n: int|
                                0 <= n < iplan.len() && self.channel.log() == log0 + iplan.subrange(
                                    0,
                                    n,
                                );
                            assert(self.channel.log() == old(self).channel_log() + (
                            spec_init_commands(dimensions.1) + spec_blank_frame(
                                old(self).width_spec() as int,
                                old(self).height_spec() as int,
                                old(self).chunk_spec().0 as int,
                                old(self).chunk_spec().1 as int,
                                old(self).buffer_view().len() as int,
                                0,
                            )).subrange(0, n0));
                        }
                        return Err(e);
                    },
                }
                proof {
                    assert(self.channel.log() =~= tile_base + spec_flush_events(
                        spec_clip_at(x as int, y as int, cwi, chi),
                        cwi,
                        chi,
                        spec_zero_buffer(len0),
                    ));
                    assert(self.channel.log() + spec_blank_column(
                        wi,
                        hi,
                        cwi,
                        chi,
                        len0,
                        x as int,
                        y as int + chi,
                    ) =~= col_base + spec_blank_column(wi, hi, cwi, chi, len0, x as int, 0));
                }
                let ghost y_prev = y as int;
                y = next_origin(y, ch);
                proof {
                    if y as int != y_prev + chi {
                        assert(spec_blank_column(wi, hi, cwi, chi, len0, x as int, y_prev + chi)
                            =~= Seq::<ChannelEvent>::empty());
                        assert(spec_blank_column(wi, hi, cwi, chi, len0, x as int, y as int)
                            =~= Seq::<ChannelEvent>::empty());
                    }
                    assert((chi + y_prev) % chi == y_prev % chi) by {
                        vstd::arithmetic::div_mod::lemma_mod_add_multiples_vanish(y_prev, chi);
                    }
                }
            }
            proof {
                assert(spec_blank_column(wi, hi, cwi, chi, len0, x as int, y as int)
                    =~= Seq::<ChannelEvent>::empty());
                assert(self.channel.log() + spec_blank_frame(wi, hi, cwi, chi, len0, x as int + cwi)
                    =~= base + spec_blank_frame(wi, hi, cwi, chi, len0, 0));
            }
            let ghost x_prev = x as int;
            x = next_origin(x, cw);
            proof {
                if x as int != x_prev + cwi {
                    assert(spec_blank_frame(wi, hi, cwi, chi, len0, x_prev + cwi)
                        =~= Seq::<ChannelEvent>::empty());
                    assert(spec_blank_frame(wi, hi, cwi, chi, len0, x as int)
                        =~= Seq::<ChannelEvent>::empty());
                }
                assert((cwi + x_prev) % cwi == x_prev % cwi) by {
                    vstd::arithmetic::div_mod::lemma_mod_add_multiples_vanish(x_prev, cwi);
                }
            }
        }
        proof {
            assert(spec_blank_frame(wi, hi, cwi, chi, len0, x as int)
                =~= Seq::<ChannelEvent>::empty());
            assert(self.channel.log() =~= old(self).channel_log() + spec_init_commands(
                display_height,
            ) + spec_blank_frame(wi, hi, cwi, chi, len0, 0));
        }
        Ok(())
    }
}

impl<C: CommandChannel> Renderer for Sh1107Render<C> {
    closed spec fn width_spec(&self) -> u32 {
        self.width
    }

    closed spec fn height_spec(&self) -> u32 {
        self.height
    }

    closed spec fn chunk_spec(&self) -> (u32, u32) {
        (self.chunk_width, self.chunk_height)
    }

    closed spec fn events(&self) -> Seq<RenderEvent> {
        self.trace@
    }

    closed spec fn inv(&self) -> bool {
        &&& self.chunk_width > 0
        &&& self.chunk_height > 0
        &&& self.chunk_height % 8 == 0
        &&& self.width as int + self.chunk_width as int <= u32::MAX as int
        &&& self.height as int + self.chunk_height as int <= u32::MAX as int
        &&& self.buffer@.len() >= self.chunk_width as int * (self.chunk_height as int / 8)
        &&& self.clip.x2 as int == self.clip.x1 as int + self.chunk_width as int
        &&& self.clip.y2 as int == self.clip.y1 as int + self.chunk_height as int
    }

    proof fn inv_facts(&self) {
    }

    fn width(&self) -> (r: u32) {
        self.width
    }

    fn height(&self) -> (r: u32) {
        self.height
    }

    fn chunk_size(&self) -> (r: (u32, u32)) {
        (self.chunk_width, self.chunk_height)
    }

    fn set_chunk(&mut self, x: u32, y: u32) -> (r: Result<(), RendererError>)
        ensures
            r is Err <==> !(x % old(self).chunk_spec().0 == 0 && y % old(self).chunk_spec().1
                == 0),
            r is Err ==> r->Err_0 == (RendererError::InvalidChunkOffset { x, y }),
            final(self).buffer_view() == old(self).buffer_view(),
            final(self).channel_log() == old(self).channel_log(),
            r is Ok ==> final(self).clip_spec() == (BoundingBox {
                x1: x,
                y1: y,
                x2: ((x as int) + (old(self).chunk_spec().0 as int)) as u32,
                y2: ((y as int) + (old(self).chunk_spec().1 as int)) as u32,
            }),
            r is Err ==> final(self).clip_spec() == old(self).clip_spec(),
    {
        if (x % self.chunk_width != 0) || (y % self.chunk_height != 0) {
            return Err(RendererError::InvalidChunkOffset { x, y });
        }
        self.clip = BoundingBox {
            x1: x,
            y1: y,
            x2: x + self.chunk_width,
            y2: y + self.chunk_height,
        };
        self.trace = Ghost(self.trace@.push(RenderEvent::SetChunk(x, y)));
        Ok(())
    }

    #[verifier::loop_isolation(false)]
    fn draw(&mut self, command: &Command) -> (r: Result<(), RendererError>)
        ensures
            r is Ok,
            final(self).channel_log() == old(self).channel_log(),
            final(self).clip_spec() == old(self).clip_spec(),
            match command.flavor {
                CommandType::Null => final(self).buffer_view() == old(self).buffer_view(),
                CommandType::Rect(rgb) => spec_draw_post(
                    old(self).buffer_view(),
                    final(self).buffer_view(),
                    old(self).clip_spec(),
                    command.bounds,
                    spec_lit(rgb),
                    old(self).chunk_spec().0 as int,
                    old(self).chunk_spec().1 as int,
                ),
            },
    {
        match command.flavor {
            CommandType::Null => {
                self.trace = Ghost(self.trace@.push(RenderEvent::Draw(*command)));
                Ok(())
            },
            CommandType::Rect(rgb) => {
                let color: u8 = rgb.r | rgb.g | rgb.b;
                let lit = color > 0;
                proof {
                    lemma_or_nonzero(rgb.r, rgb.g, rgb.b);
                }
                let clip = self.clip;
                let bx = command.bounds;
                let cw = self.chunk_width;
                let ch = self.chunk_height;
                let ghost cwi = cw as int;
                let ghost chi = ch as int;
                let ghost buf0 = self.buffer@;

                let x1 = if bx.x1 > clip.x1 {
                    bx.x1
                } else {
                    clip.x1
                };
                let y1 = if bx.y1 > clip.y1 {
                    bx.y1
                } else {
                    clip.y1
                };
                let x2 = if bx.x2 < clip.x2 {
                    bx.x2
                } else {
                    clip.x2
                };
                let y2 = if bx.y2 < clip.y2 {
                    bx.y2
                } else {
                    clip.y2
                };

                let x0 = x1 - clip.x1;
                let x_end = if x2 >= clip.x1 {
                    x2 - clip.x1
                } else {
                    0
                };
                let y0 = y1 - clip.y1;
                let y_end = if y2 >= clip.y1 {
                    y2 - clip.y1
                } else {
                    0
                };

                proof {
                    assert(forall|a: int, b: int|
                        spec_in_fill(clip, bx, a, b) ==> x0 as int <= a < x_end as int
                            && y0 as int <= b < y_end as int);
                    assert(forall|a: int, b: int|
                        x0 as int <= a < x_end as int && y0 as int <= b < y_end as int
                            ==> spec_in_fill(clip, bx, a, b));
                }

                let mut xi = x0;
                while xi < x_end
                    invariant
                        x0 <= xi,
                        self.width == old(self).width,
                        self.height == old(self).height,
                        self.chunk_width == old(self).chunk_width,
                        self.chunk_height == old(self).chunk_height,
                        self.clip == old(self).clip,
                        self.channel == old(self).channel,
                        self.trace == old(self).trace,
                        self.buffer@.len() == buf0.len(),
                        forall|i: int|
                            cwi * (chi / 8) <= i < buf0.len() ==> #[trigger] self.buffer@[i]
                                == buf0[i],
                        forall|a: int, b: int|
                            0 <= a < cwi && 0 <= b < chi ==> #[trigger] spec_bit(
                                self.buffer@,
                                cwi,
                                a,
                                b,
                            ) == (if spec_in_fill(clip, bx, a, b) && a < xi as int {
                                lit
                            } else {
                                spec_bit(buf0, cwi, a, b)
                            }),
                    decreases x_end as int - xi as int,
                {
                    let mut yi = y0;
                    while yi < y_end
                        invariant
                            x0 <= xi < x_end,
                            y0 <= yi,
                            self.width == old(self).width,
                            self.height == old(self).height,
                            self.chunk_width == old(self).chunk_width,
                            self.chunk_height == old(self).chunk_height,
                            self.clip == old(self).clip,
                            self.channel == old(self).channel,
                            self.trace == old(self).trace,
                            self.buffer@.len() == buf0.len(),
                            forall|i: int|
                                cwi * (chi / 8) <= i < buf0.len() ==> #[trigger] self.buffer@[i]
                                    == buf0[i],
                            forall|a: int, b: int|
                                0 <= a < cwi && 0 <= b < chi ==> #[trigger] spec_bit(
                                    self.buffer@,
                                    cwi,
                                    a,
                                    b,
                                ) == (if spec_in_fill(clip, bx, a, b) && (a < xi as int || (a
                                    == xi as int && b < yi as int)) {
                                    lit
                                } else {
                                    spec_bit(buf0, cwi, a, b)
                                }),
                        decreases y_end as int - yi as int,
                    {
                        proof {
                            lemma_byte_index_bound(cwi, chi, xi as int, yi as int);
                            vstd::std_specs::vec::axiom_spec_len(&self.buffer);
                            assert(((yi as int / 8) * cwi + (xi as int)) < buf0.len());
                        }
                        let row: usize = (yi / 8) as usize;
                        let idx: usize = row * (cw as usize) + (xi as usize);
                        let byte = self.buffer[idx];
                        let bit: u8 = (yi % 8) as u8;
                        let mask: u8 = 1u8 << bit;
                        let nb = if lit {
                            byte | mask
                        } else {
                            byte & !mask
                        };
                        let ghost prev = self.buffer@;
                        self.buffer.set(idx, nb);
                        proof {
                            let xii = xi as int;
                            let yii = yi as int;
                            assert(idx as int == (yii / 8) * cwi + xii);
                            if lit {
                                lemma_set_bit(byte, bit, bit);
                            } else {
                                lemma_clear_bit(byte, bit, bit);
                            }
                            assert(spec_bit(self.buffer@, cwi, xii, yii) == lit);
                            assert forall|a: int, b: int|
                                0 <= a < cwi && 0 <= b < chi && !(a == xii && b == yii) implies #[trigger] spec_bit(
                                self.buffer@,
                                cwi,
                                a,
                                b,
                            ) == spec_bit(prev, cwi, a, b) by {
                                lemma_byte_index_bound(cwi, chi, a, b);
                                let ia = (b / 8) * cwi + a;
                                if ia == idx as int {
                                    lemma_byte_index_inj(cwi, a, b / 8, xii, yii / 8);
                                    assert(a == xii && b / 8 == yii / 8);
                                    assert(b % 8 != yii % 8);
                                    if lit {
                                        lemma_set_bit(byte, bit, (b % 8) as u8);
                                    } else {
                                        lemma_clear_bit(byte, bit, (b % 8) as u8);
                                    }
                                } else {
                                    assert(self.buffer@[ia] == prev[ia]);
                                }
                            }
                            assert(spec_in_fill(clip, bx, xii, yii));
                        }
                        yi = yi + 1;
                    }
                    xi = xi + 1;
                }
                self.trace = Ghost(self.trace@.push(RenderEvent::Draw(*command)));
                Ok(())
            },
        }
    }

    #[verifier::loop_isolation(false)]
    fn clear(&mut self) -> (r: Result<(), RendererError>)
        ensures
            r is Ok,
            final(self).channel_log() == old(self).channel_log(),
            final(self).clip_spec() == old(self).clip_spec(),
            final(self).buffer_view().len() == old(self).buffer_view().len(),
            forall|i: int|
                0 <= i < final(self).buffer_view().len() ==> final(self).buffer_view()[i] == 0u8,
    {
        let len = self.buffer.len();
        let mut i: usize = 0;
        while i < len
            invariant
                i <= len,
                self.width == old(self).width,
                self.height == old(self).height,
                self.chunk_width == old(self).chunk_width,
                self.chunk_height == old(self).chunk_height,
                self.clip == old(self).clip,
                self.channel == old(self).channel,
                self.trace == old(self).trace,
                self.buffer@.len() == len,
                forall|j: int| 0 <= j < i ==> self.buffer@[j] == 0u8,
            decreases len - i,
        {
            self.buffer.set(i, 0u8);
            i = i + 1;
        }
        self.trace = Ghost(self.trace@.push(RenderEvent::Clear));
        Ok(())
    }

    #[verifier::loop_isolation(false)]
    fn flush(&mut self) -> (r: Result<(), RendererError>)
        ensures
            final(self).buffer_view() == old(self).buffer_view(),
            final(self).clip_spec() == old(self).clip_spec(),
            r is Ok ==> final(self).channel_log() == old(self).channel_log() + spec_flush_events(
                old(self).clip_spec(),
                old(self).chunk_spec().0 as int,
                old(self).chunk_spec().1 as int,
                old(self).buffer_view(),
            ),
            r is Err ==> r->Err_0 == RendererError::BackingError && exists|n: int|
                0 <= n < spec_flush_events(
                    old(self).clip_spec(),
                    old(self).chunk_spec().0 as int,
                    old(self).chunk_spec().1 as int,
                    old(self).buffer_view(),
                ).len() && final(self).channel_log() == old(self).channel_log()
                    + spec_flush_events(
                    old(self).clip_spec(),
                    old(self).chunk_spec().0 as int,
                    old(self).chunk_spec().1 as int,
                    old(self).buffer_view(),
                ).subrange(0, n),
    {
        let cw = self.chunk_width;
        let rows = self.chunk_height / 8;
        let ghost log0 = self.channel.log();
        let ghost bufv = self.buffer@;
        let ghost clip0 = self.clip;
        let ghost cwi = cw as int;
        let ghost chi = self.chunk_height as int;

        let low: u8 = (self.clip.x1 % 16) as u8;
        let high: u8 = ((self.clip.x1 / 16) % 16) as u8;
        let ghost m = chi / 8;
        let ghost fplan = spec_flush_events_upto(clip0, cwi, bufv, m);

        let mut i: u32 = 0;
        while i < rows
            invariant
                i <= rows,
                rows == chi / 8,
                self.width == old(self).width,
                self.height == old(self).height,
                self.chunk_width == old(self).chunk_width,
                self.chunk_height == old(self).chunk_height,
                self.trace == old(self).trace,
                self.buffer@ == bufv,
                self.clip == clip0,
                self.chunk_width == cw,
                self.chunk_height as int == chi,
                cwi == cw as int,
                low as int == (clip0.x1 as int) % 16,
                high as int == ((clip0.x1 as int) / 16) % 16,
                self.channel.log() == log0 + spec_flush_events_upto(clip0, cwi, bufv, i as int),
                self.buffer@.len() >= cwi * (chi / 8),
            decreases rows - i,
        {
            let ghost log_row = self.channel.log();
            let ghost row = spec_flush_row_events(clip0, cwi, bufv, i as int);
            proof {
                lemma_flush_split(clip0, cwi, bufv, i as int, m);
                lemma_flush_split(clip0, cwi, bufv, i as int + 1, m);
                assert(spec_flush_events_upto(clip0, cwi, bufv, i as int + 1)
                    == spec_flush_events_upto(clip0, cwi, bufv, i as int) + row);
                assert(log_row + (row + spec_flush_events_between(clip0, cwi, bufv, i as int + 1, m))
                    =~= log0 + fplan);
            }
            let page: u8 = ((self.clip.y1 / 8 + i) % 256) as u8;
            match self.channel.send_command(ChannelCommand::PageAddress(page)) {
                Ok(()) => {},
                Err(e) => {
                    proof {
                        assert(row =~= row.subrange(0, 0) + row.subrange(0, 4));
                        assert(self.channel.log() + (row + spec_flush_events_between(
                            clip0,
                            cwi,
                            bufv,
                            i as int + 1,
                            m,
                        )) =~= log0 + fplan);
                        lemma_emitted_is_proper_prefix(
                            log0,
                            self.channel.log(),
                            row + spec_flush_events_between(clip0, cwi, bufv, i as int + 1, m),
                            fplan,
                        );
                        assert(fplan == spec_flush_events(
                            old(self).clip_spec(),
                            old(self).chunk_spec().0 as int,
                            old(self).chunk_spec().1 as int,
                            old(self).buffer_view(),
                        ));
                        let n0 = choose|n: int|
                            0 <= n < fplan.len() && self.channel.log() == log0 + fplan.subrange(
                                0,
                                n,
                            );
                        assert(self.channel.log() == old(self).channel_log() + spec_flush_events(
                            old(self).clip_spec(),
                            old(self).chunk_spec().0 as int,
                            old(self).chunk_spec().1 as int,
                            old(self).buffer_view(),
                        ).subrange(0, n0));
                    }
                    return Err(RendererError::from(e));
                },
            }
            match self.channel.send_command(ChannelCommand::ColumnAddressLow(low)) {
                Ok(()) => {},
                Err(e) => {
                    proof {
                        assert(self.channel.log() =~= log_row + row.subrange(0, 1));
                        assert(row =~= row.subrange(0, 1) + row.subrange(1, 4));
                        assert(self.channel.log() + (row.subrange(1, 4)
                            + spec_flush_events_between(clip0, cwi, bufv, i as int + 1, m)) =~= log0
                            + fplan);
                        lemma_emitted_is_proper_prefix(
                            log0,
                            self.channel.log(),
                            row.subrange(1, 4) + spec_flush_events_between(
                                clip0,
                                cwi,
                                bufv,
                                i as int + 1,
                                m,
                            ),
                            fplan,
                        );
                        assert(fplan == spec_flush_events(
                            old(self).clip_spec(),
                            old(self).chunk_spec().0 as int,
                            old(self).chunk_spec().1 as int,
                            old(self).buffer_view(),
                        ));
                        let n0 = choose|n: int|
                            0 <= n < fplan.len() && self.channel.log() == log0 + fplan.subrange(
                                0,
                                n,
                            );
                        assert(self.channel.log() == old(self).channel_log() + spec_flush_events(
                            old(self).clip_spec(),
                            old(self).chunk_spec().0 as int,
                            old(self).chunk_spec().1 as int,
                            old(self).buffer_view(),
                        ).subrange(0, n0));
                    }
                    return Err(RendererError::from(e));
                },
            }
            match self.channel.send_command(ChannelCommand::ColumnAddressHigh(high)) {
                Ok(()) => {},
                Err(e) => {
                    proof {
                        assert(self.channel.log() =~= log_row + row.subrange(0, 2));
                        assert(row =~= row.subrange(0, 2) + row.subrange(2, 4));
                        assert(self.channel.log() + (row.subrange(2, 4)
                            + spec_flush_events_between(clip0, cwi, bufv, i as int + 1, m)) =~= log0
                            + fplan);
                        lemma_emitted_is_proper_prefix(
                            log0,
                            self.channel.log(),
                            row.subrange(2, 4) + spec_flush_events_between(
                                clip0,
                                cwi,
                                bufv,
                                i as int + 1,
                                m,
                            ),
                            fplan,
                        );
                        assert(fplan == spec_flush_events(
                            old(self).clip_spec(),
                            old(self).chunk_spec().0 as int,
                            old(self).chunk_spec().1 as int,
                            old(self).buffer_view(),
                        ));
                        let n0 = choose|n: int|
                            0 <= n < fplan.len() && self.channel.log() == log0 + fplan.subrange(
                                0,
                                n,
                            );
                        assert(self.channel.log() == old(self).channel_log() + spec_flush_events(
                            old(self).clip_spec(),
                            old(self).chunk_spec().0 as int,
                            old(self).chunk_spec().1 as int,
                            old(self).buffer_view(),
                        ).subrange(0, n0));
                    }
                    return Err(RendererError::from(e));
                },
            }
            proof {
                assert((i as int + 1) * cwi <= (chi / 8) * cwi) by (nonlinear_arith)
                    requires
                        i as int + 1 <= chi / 8,
                        0 <= cwi,
                ;
                assert(cwi * (chi / 8) == (chi / 8) * cwi) by (nonlinear_arith);
                assert(i as int * cwi + cwi == (i as int + 1) * cwi) by (nonlinear_arith);
                vstd::std_specs::vec::axiom_spec_len(&self.buffer);
                assert(i as int * cwi + cwi <= self.buffer@.len());
            }
            let start: usize = (i as usize) * (cw as usize);
            let end: usize = start + cw as usize;
            let data = slice_subrange(self.buffer.as_slice(), start, end);
            match self.channel.send_data(data) {
                Ok(()) => {},
                Err(e) => {
                    proof {
                        assert(self.channel.log() =~= log_row + row.subrange(0, 3));
                        assert(row =~= row.subrange(0, 3) + row.subrange(3, 4));
                        assert(self.channel.log() + (row.subrange(3, 4)
                            + spec_flush_events_between(clip0, cwi, bufv, i as int + 1, m)) =~= log0
                            + fplan);
                        lemma_emitted_is_proper_prefix(
                            log0,
                            self.channel.log(),
                            row.subrange(3, 4) + spec_flush_events_between(
                                clip0,
                                cwi,
                                bufv,
                                i as int + 1,
                                m,
                            ),
                            fplan,
                        );
                        assert(fplan == spec_flush_events(
                            old(self).clip_spec(),
                            old(self).chunk_spec().0 as int,
                            old(self).chunk_spec().1 as int,
                            old(self).buffer_view(),
                        ));
                        let n0 = choose|n: int|
                            0 <= n < fplan.len() && self.channel.log() == log0 + fplan.subrange(
                                0,
                                n,
                            );
                        assert(self.channel.log() == old(self).channel_log() + spec_flush_events(
                            old(self).clip_spec(),
                            old(self).chunk_spec().0 as int,
                            old(self).chunk_spec().1 as int,
                            old(self).buffer_view(),
                        ).subrange(0, n0));
                    }
                    return Err(RendererError::from(e));
                },
            }
            proof {
                assert(self.channel.log() =~= log_row + spec_flush_row_events(
                    clip0,
                    cwi,
                    bufv,
                    i as int,
                ));
                assert(self.channel.log() =~= log0 + spec_flush_events_upto(
                    clip0,
                    cwi,
                    bufv,
                    i as int + 1,
                ));
            }
            i = i + 1;
        }
        self.trace = Ghost(self.trace@.push(RenderEvent::Flush));
        Ok(())
    }
}

} // verus!
