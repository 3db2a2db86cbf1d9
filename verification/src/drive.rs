//! The mathematical model of one frame of the damage engine.
//!
//! `spec_drive_events` gives, for a committed/pending pair of layer buffers
//! and a canvas geometry, the exact trace of renderer operations that a
//! successful frame issues: tiles are enumerated column by column, each tile
//! is scanned for an occlusion floor and for damage, and only damaged tiles
//! are cleared, repainted from the floor upward and flushed.
//! `DisplayList::draw` promises this trace, and the lemmas of the `laws`
//! module are proved against it.

use vstd::math::min;
use vstd::prelude::*;

use crate::model::BoundingBox;
use crate::model::Command;
use crate::model::spec_covers;
use crate::model::spec_intersects;
use crate::renderer::RenderEvent;

verus! {

/// Inclusive far edge of the tile starting at `start`: one chunk stride
/// away, clipped to the canvas edge.
pub open spec fn spec_tile_end(start: int, step: int, limit: int) -> int {
    min(limit - 1, start + step)
}

/// The tile with top-left pixel `(x1, y1)` on a `w` by `h` canvas repainted
/// in `cw` by `ch` chunks.
pub open spec fn spec_tile(x1: int, y1: int, w: int, h: int, cw: int, ch: int) -> BoundingBox {
    BoundingBox {
        x1: x1 as u32,
        y1: y1 as u32,
        x2: spec_tile_end(x1, cw, w) as u32,
        y2: spec_tile_end(y1, ch, h) as u32,
    }
}

/// One pass over layers `0..n` of a tile: the occlusion floor (the highest
/// layer whose pending bounds fully contain the tile, if any, else the
/// bottom) and whether the tile is damaged.
///
/// The two are independent. A layer whose generation stamps differ marks
/// the tile damaged when either its committed or its pending bounds overlap
/// the tile; a layer whose stamps agree contributes no damage, and
/// occlusion never withdraws damage found elsewhere.
pub open spec fn spec_scan(
    committed: Seq<Command>,
    pending: Seq<Command>,
    tile: BoundingBox,
    n: int,
) -> (int, bool)
    decreases n,
{
    if n <= 0 {
        (0, false)
    } else {
        let prev = spec_scan(committed, pending, tile, n - 1);
        let i = n - 1;
        let floor = if spec_covers(pending[i].bounds, tile) {
            i
        } else {
            prev.0
        };
        let dirty = committed[i].epoch != pending[i].epoch && (spec_intersects(
            committed[i].bounds,
            tile,
        ) || spec_intersects(pending[i].bounds, tile));
        (floor, prev.1 || dirty)
    }
}

/// The draw operations a damaged tile receives, from layer `i` upward: the
/// pending command where its bounds overlap the tile, else the committed
/// command where its bounds still do (content that must reappear after the
/// clear), else nothing for that layer.
pub open spec fn spec_layer_draws(
    committed: Seq<Command>,
    pending: Seq<Command>,
    tile: BoundingBox,
    i: int,
) -> Seq<RenderEvent>
    decreases committed.len() - i,
{
    if 0 <= i < committed.len() {
        let here = if spec_intersects(pending[i].bounds, tile) {
            seq![RenderEvent::Draw(pending[i])]
        } else if spec_intersects(committed[i].bounds, tile) {
            seq![RenderEvent::Draw(committed[i])]
        } else {
            Seq::<RenderEvent>::empty()
        };
        here + spec_layer_draws(committed, pending, tile, i + 1)
    } else {
        Seq::<RenderEvent>::empty()
    }
}

/// Everything one tile receives in a frame: its clip move always, then —
/// only when the tile is damaged — a clear, the repaint from the occlusion
/// floor upward, and a flush.
pub open spec fn spec_tile_events(
    committed: Seq<Command>,
    pending: Seq<Command>,
    tile: BoundingBox,
) -> Seq<RenderEvent> {
    let scan = spec_scan(committed, pending, tile, committed.len() as int);
    let head = seq![RenderEvent::SetChunk(tile.x1, tile.y1)];
    if scan.1 {
        head + seq![RenderEvent::Clear] + spec_layer_draws(committed, pending, tile, scan.0)
            + seq![RenderEvent::Flush]
    } else {
        head
    }
}

/// The trace of the tile column at `x1`, from row origin `y1` downward.
pub open spec fn spec_column_events(
    committed: Seq<Command>,
    pending: Seq<Command>,
    w: int,
    h: int,
    cw: int,
    ch: int,
    x1: int,
    y1: int,
) -> Seq<RenderEvent>
    decreases h - y1 + ch,
{
    if 0 <= y1 < h && 0 < cw && 0 < ch {
        spec_tile_events(committed, pending, spec_tile(x1, y1, w, h, cw, ch))
            + spec_column_events(committed, pending, w, h, cw, ch, x1, y1 + ch)
    } else {
        Seq::<RenderEvent>::empty()
    }
}

/// The trace of all tile columns from column origin `x1` rightward.
pub open spec fn spec_frame_events(
    committed: Seq<Command>,
    pending: Seq<Command>,
    w: int,
    h: int,
    cw: int,
    ch: int,
    x1: int,
) -> Seq<RenderEvent>
    decreases w - x1 + cw,
{
    if 0 <= x1 < w && 0 < cw && 0 < ch {
        spec_column_events(committed, pending, w, h, cw, ch, x1, 0) + spec_frame_events(
            committed,
            pending,
            w,
            h,
            cw,
            ch,
            x1 + cw,
        )
    } else {
        Seq::<RenderEvent>::empty()
    }
}

/// The exact trace of renderer operations one successful frame issues.
pub open spec fn spec_drive_events(
    committed: Seq<Command>,
    pending: Seq<Command>,
    w: int,
    h: int,
    cw: int,
    ch: int,
) -> Seq<RenderEvent> {
    spec_frame_events(committed, pending, w, h, cw, ch, 0)
}

/// A slot's committed command after a successful frame: the pending command
/// is promoted where the stamps differed, else the committed command stays;
/// either way it is re-stamped with the list's current generation.
pub open spec fn spec_commit_committed(c: Command, p: Command, epoch: u8) -> Command {
    if p.epoch != c.epoch {
        Command { epoch, ..p }
    } else {
        Command { epoch, ..c }
    }
}

/// A slot's pending command after a successful frame: unchanged but
/// re-stamped with the list's current generation.
pub open spec fn spec_commit_pending(c: Command, p: Command, epoch: u8) -> Command {
    Command { epoch, ..p }
}

/// The generation counter after a frame: a wrapping increment.
pub open spec fn spec_next_epoch(e: u8) -> u8 {
    ((e as int + 1) % 256) as u8
}

} // verus!
