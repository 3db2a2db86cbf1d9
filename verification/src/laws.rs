//! Frame-level laws of the damage engine, proved against the trace model
//! of the `drive` module.

use vstd::arithmetic::div_mod::lemma_basic_div;
use vstd::arithmetic::div_mod::lemma_div_plus_one;
use vstd::arithmetic::div_mod::lemma_mod_add_multiples_vanish;
use vstd::prelude::*;

use crate::drive::spec_column_events;
use crate::drive::spec_drive_events;
use crate::drive::spec_frame_events;
use crate::drive::spec_layer_draws;
use crate::drive::spec_scan;
use crate::drive::spec_tile;
use crate::drive::spec_tile_events;
use crate::model::BoundingBox;
use crate::model::Command;
use crate::model::spec_covers;
use crate::model::spec_intersects;
use crate::renderer::RenderEvent;

verus! {

/// Every event of `s` is a clip move: nothing was cleared, drawn or flushed.
pub open spec fn spec_only_chunk_moves(s: Seq<RenderEvent>) -> bool {
    forall|k: int| 0 <= k < s.len() ==> s[k] is SetChunk
}

/// How many tiles a trace visits: its number of clip moves.
pub open spec fn spec_chunk_moves(s: Seq<RenderEvent>) -> int
    decreases s.len(),
{
    if s.len() == 0 {
        0
    } else {
        spec_chunk_moves(s.drop_last()) + if s.last() is SetChunk {
            1int
        } else {
            0int
        }
    }
}

/// The number of chunk-sized strides needed to span `limit` pixels.
pub open spec fn spec_tile_count(limit: int, step: int) -> int {
    (limit + step - 1) / step
}

proof fn lemma_chunk_moves_distributes(a: Seq<RenderEvent>, b: Seq<RenderEvent>)
    ensures
        spec_chunk_moves(a + b) == spec_chunk_moves(a) + spec_chunk_moves(b),
    decreases b.len(),
{
    if b.len() == 0 {
        assert(a + b =~= a);
    } else {
        lemma_chunk_moves_distributes(a, b.drop_last());
        assert((a + b).drop_last() =~= a + b.drop_last());
        assert((a + b).last() == b.last());
    }
}

proof fn lemma_scan_no_drift(
    committed: Seq<Command>,
    pending: Seq<Command>,
    tile: BoundingBox,
    n: int,
)
    requires
        committed.len() == pending.len(),
        n <= committed.len(),
        forall|i: int| 0 <= i < committed.len() ==> committed[i].epoch == pending[i].epoch,
    ensures
        !spec_scan(committed, pending, tile, n).1,
    decreases n,
{
    if n > 0 {
        lemma_scan_no_drift(committed, pending, tile, n - 1);
    }
}

proof fn lemma_tile_quiet(committed: Seq<Command>, pending: Seq<Command>, tile: BoundingBox)
    requires
        committed.len() == pending.len(),
        forall|i: int| 0 <= i < committed.len() ==> committed[i].epoch == pending[i].epoch,
    ensures
        spec_tile_events(committed, pending, tile) =~= seq![
            RenderEvent::SetChunk(tile.x1, tile.y1),
        ],
{
    lemma_scan_no_drift(committed, pending, tile, committed.len() as int);
}

proof fn lemma_column_quiet(
    committed: Seq<Command>,
    pending: Seq<Command>,
    w: int,
    h: int,
    cw: int,
    ch: int,
    x1: int,
    y1: int,
)
    requires
        committed.len() == pending.len(),
        forall|i: int| 0 <= i < committed.len() ==> committed[i].epoch == pending[i].epoch,
    ensures
        spec_only_chunk_moves(spec_column_events(committed, pending, w, h, cw, ch, x1, y1)),
    decreases h - y1 + ch,
{
    if 0 <= y1 < h && 0 < cw && 0 < ch {
        lemma_tile_quiet(committed, pending, spec_tile(x1, y1, w, h, cw, ch));
        lemma_column_quiet(committed, pending, w, h, cw, ch, x1, y1 + ch);
    }
}

proof fn lemma_frame_quiet(
    committed: Seq<Command>,
    pending: Seq<Command>,
    w: int,
    h: int,
    cw: int,
    ch: int,
    x1: int,
)
    requires
        committed.len() == pending.len(),
        forall|i: int| 0 <= i < committed.len() ==> committed[i].epoch == pending[i].epoch,
    ensures
        spec_only_chunk_moves(spec_frame_events(committed, pending, w, h, cw, ch, x1)),
    decreases w - x1 + cw,
{
    if 0 <= x1 < w && 0 < cw && 0 < ch {
        lemma_column_quiet(committed, pending, w, h, cw, ch, x1, 0);
        lemma_frame_quiet(committed, pending, w, h, cw, ch, x1 + cw);
    }
}

/// A tile is damaged exactly when some layer's generation stamps differ and
/// either its committed or its pending bounds overlap the tile — the damage
/// test is independent of the occlusion floor.
pub proof fn lemma_dirty_characterization(
    committed: Seq<Command>,
    pending: Seq<Command>,
    tile: BoundingBox,
    n: int,
)
    ensures
        spec_scan(committed, pending, tile, n).1 <==> exists|i: int|
            0 <= i < n && (#[trigger] committed[i].epoch) != pending[i].epoch && (spec_intersects(
                committed[i].bounds,
                tile,
            ) || spec_intersects(pending[i].bounds, tile)),
    decreases n,
{
    if n > 0 {
        lemma_dirty_characterization(committed, pending, tile, n - 1);
        let drifted = |i: int|
            0 <= i < n && committed[i].epoch != pending[i].epoch && (spec_intersects(
                committed[i].bounds,
                tile,
            ) || spec_intersects(pending[i].bounds, tile));
        if spec_scan(committed, pending, tile, n).1 {
            if spec_scan(committed, pending, tile, n - 1).1 {
                let i = choose|i: int|
                    0 <= i < n - 1 && (#[trigger] committed[i].epoch) != pending[i].epoch && (
                    spec_intersects(committed[i].bounds, tile) || spec_intersects(
                        pending[i].bounds,
                        tile,
                    ));
                assert(committed[i].epoch != pending[i].epoch);
            } else {
                assert(committed[n - 1].epoch != pending[n - 1].epoch);
            }
        }
    }
}

/// After a successful frame, both of a slot's commands carry the frame's
/// generation stamp — so every slot's stamps agree, and by
/// `lemma_quiet_frame` the next frame issues no clear, draw or flush.
pub proof fn lemma_commit_synchronizes(c: Command, p: Command, epoch: u8)
    ensures
        crate::drive::spec_commit_committed(c, p, epoch).epoch == epoch,
        crate::drive::spec_commit_pending(c, p, epoch).epoch == epoch,
{
}

/// Idempotence: when every slot's committed and pending generation stamps
/// agree — as they do immediately after any successful frame — the next
/// frame issues only clip moves: not a single clear, draw or flush.
pub proof fn lemma_quiet_frame(
    committed: Seq<Command>,
    pending: Seq<Command>,
    w: int,
    h: int,
    cw: int,
    ch: int,
)
    requires
        committed.len() == pending.len(),
        forall|i: int| 0 <= i < committed.len() ==> committed[i].epoch == pending[i].epoch,
    ensures
        spec_only_chunk_moves(spec_drive_events(committed, pending, w, h, cw, ch)),
{
    lemma_frame_quiet(committed, pending, w, h, cw, ch, 0);
}

proof fn lemma_draws_are_draws(
    committed: Seq<Command>,
    pending: Seq<Command>,
    tile: BoundingBox,
    i: int,
)
    ensures
        forall|k: int|
            0 <= k < spec_layer_draws(committed, pending, tile, i).len() ==> spec_layer_draws(
                committed,
                pending,
                tile,
                i,
            )[k] is Draw,
    decreases committed.len() - i,
{
    if 0 <= i < committed.len() {
        lemma_draws_are_draws(committed, pending, tile, i + 1);
    }
}

proof fn lemma_chunk_moves_single(e: RenderEvent)
    ensures
        spec_chunk_moves(seq![e]) == if e is SetChunk {
            1int
        } else {
            0int
        },
{
    assert(seq![e].drop_last() =~= Seq::<RenderEvent>::empty());
    assert(spec_chunk_moves(Seq::<RenderEvent>::empty()) == 0);
    assert(seq![e].last() == e);
}

proof fn lemma_tile_one_move(committed: Seq<Command>, pending: Seq<Command>, tile: BoundingBox)
    ensures
        spec_chunk_moves(spec_tile_events(committed, pending, tile)) == 1,
{
    let scan = spec_scan(committed, pending, tile, committed.len() as int);
    let head = seq![RenderEvent::SetChunk(tile.x1, tile.y1)];
    lemma_chunk_moves_single(RenderEvent::SetChunk(tile.x1, tile.y1));
    lemma_chunk_moves_single(RenderEvent::Clear);
    lemma_chunk_moves_single(RenderEvent::Flush);
    if scan.1 {
        let draws = spec_layer_draws(committed, pending, tile, scan.0);
        lemma_draws_are_draws(committed, pending, tile, scan.0);
        lemma_no_moves_when_no_chunks(draws);
        lemma_chunk_moves_distributes(head, seq![RenderEvent::Clear]);
        lemma_chunk_moves_distributes(head + seq![RenderEvent::Clear], draws);
        lemma_chunk_moves_distributes(head + seq![RenderEvent::Clear] + draws, seq![
            RenderEvent::Flush,
        ]);
    }
}

proof fn lemma_no_moves_when_no_chunks(s: Seq<RenderEvent>)
    requires
        forall|k: int| 0 <= k < s.len() ==> !(s[k] is SetChunk),
    ensures
        spec_chunk_moves(s) == 0,
    decreases s.len(),
{
    if s.len() > 0 {
        lemma_no_moves_when_no_chunks(s.drop_last());
    }
}

proof fn lemma_column_count(
    committed: Seq<Command>,
    pending: Seq<Command>,
    w: int,
    h: int,
    cw: int,
    ch: int,
    x1: int,
    y1: int,
)
    requires
        0 < cw,
        0 < ch,
        0 <= y1,
    ensures
        spec_chunk_moves(spec_column_events(committed, pending, w, h, cw, ch, x1, y1)) == if y1
            < h {
            spec_tile_count(h - y1, ch)
        } else {
            0int
        },
    decreases h - y1 + ch,
{
    if y1 < h {
        let tile = spec_tile(x1, y1, w, h, cw, ch);
        lemma_tile_one_move(committed, pending, tile);
        lemma_column_count(committed, pending, w, h, cw, ch, x1, y1 + ch);
        lemma_chunk_moves_distributes(
            spec_tile_events(committed, pending, tile),
            spec_column_events(committed, pending, w, h, cw, ch, x1, y1 + ch),
        );
        let d = h - y1;
        assert(spec_tile_count(d, ch) == 1 + (d - 1) / ch) by {
            lemma_div_plus_one(d - 1, ch);
        }
        if y1 + ch < h {
            assert(spec_tile_count(d - ch, ch) == (d - 1) / ch);
        } else {
            assert((d - 1) / ch == 0) by {
                lemma_basic_div(d - 1, ch);
            }
        }
    } else {
        assert(spec_column_events(committed, pending, w, h, cw, ch, x1, y1)
            =~= Seq::<RenderEvent>::empty());
    }
}

proof fn lemma_frame_count(
    committed: Seq<Command>,
    pending: Seq<Command>,
    w: int,
    h: int,
    cw: int,
    ch: int,
    x1: int,
)
    requires
        0 < cw,
        0 < ch,
        0 <= x1,
        0 <= h,
    ensures
        spec_chunk_moves(spec_frame_events(committed, pending, w, h, cw, ch, x1)) == if x1 < w {
            spec_tile_count(w - x1, cw) * spec_tile_count(h, ch)
        } else {
            0int
        },
    decreases w - x1 + cw,
{
    if x1 < w {
        lemma_column_count(committed, pending, w, h, cw, ch, x1, 0);
        lemma_frame_count(committed, pending, w, h, cw, ch, x1 + cw);
        let col = spec_column_events(committed, pending, w, h, cw, ch, x1, 0);
        let rest = spec_frame_events(committed, pending, w, h, cw, ch, x1 + cw);
        let fe = spec_frame_events(committed, pending, w, h, cw, ch, x1);
        assert(fe == col + rest);
        lemma_chunk_moves_distributes(col, rest);
        let t = spec_tile_count(h, ch);
        if h == 0 {
            assert(t == 0) by {
                lemma_basic_div(ch - 1, ch);
            }
            assert(spec_chunk_moves(col) == 0);
            if x1 + cw < w {
                assert(spec_tile_count(w - x1 - cw, cw) * t == 0) by (nonlinear_arith)
                    requires
                        t == 0,
                ;
            }
            assert(spec_tile_count(w - x1, cw) * t == 0) by (nonlinear_arith)
                requires
                    t == 0,
            ;
        } else {
            assert(spec_chunk_moves(col) == t);
            let q = (w - x1 - 1) / cw;
            assert(spec_tile_count(w - x1, cw) == 1 + q) by {
                lemma_div_plus_one(w - x1 - 1, cw);
            }
            if x1 + cw < w {
                assert(spec_tile_count(w - x1 - cw, cw) == q);
                assert(spec_chunk_moves(rest) == q * t);
            } else {
                assert(q == 0) by {
                    lemma_basic_div(w - x1 - 1, cw);
                }
                assert(spec_chunk_moves(rest) == 0);
                assert(q * t == 0) by (nonlinear_arith)
                    requires
                        q == 0,
                ;
            }
            assert((1 + q) * t == t + q * t) by (nonlinear_arith);
        }
    } else {
        assert(spec_frame_events(committed, pending, w, h, cw, ch, x1)
            =~= Seq::<RenderEvent>::empty());
    }
}

proof fn lemma_column_moves_aligned(
    committed: Seq<Command>,
    pending: Seq<Command>,
    w: int,
    h: int,
    cw: int,
    ch: int,
    x1: int,
    y1: int,
)
    requires
        0 < cw,
        0 < ch,
        0 <= x1 < w <= u32::MAX as int,
        0 <= y1,
        h <= u32::MAX as int,
        x1 % cw == 0,
        y1 % ch == 0,
    ensures
        forall|k: int|
            #![auto]
            0 <= k < spec_column_events(committed, pending, w, h, cw, ch, x1, y1).len()
                && spec_column_events(committed, pending, w, h, cw, ch, x1, y1)[k] is SetChunk ==> {
                let e = spec_column_events(committed, pending, w, h, cw, ch, x1, y1)[k];
                (e->SetChunk_0 as int) % cw == 0 && (e->SetChunk_0 as int) < w && (
                e->SetChunk_1 as int) % ch == 0 && (e->SetChunk_1 as int) < h
            },
    decreases h - y1 + ch,
{
    if 0 <= y1 < h && 0 < cw && 0 < ch {
        assert((ch + y1) % ch == y1 % ch) by {
            lemma_mod_add_multiples_vanish(y1, ch);
        }
        lemma_column_moves_aligned(committed, pending, w, h, cw, ch, x1, y1 + ch);
        let tile = spec_tile(x1, y1, w, h, cw, ch);
        let scan = spec_scan(committed, pending, tile, committed.len() as int);
        lemma_draws_are_draws(committed, pending, tile, scan.0);
        let te = spec_tile_events(committed, pending, tile);
        let rest = spec_column_events(committed, pending, w, h, cw, ch, x1, y1 + ch);
        let ce = spec_column_events(committed, pending, w, h, cw, ch, x1, y1);
        assert(ce == te + rest);
        assert forall|k: int|
            0 <= k < te.len() && (#[trigger] te[k]) is SetChunk implies te[k]
            == RenderEvent::SetChunk(x1 as u32, y1 as u32) by {
            let head = seq![RenderEvent::SetChunk(tile.x1, tile.y1)];
            if scan.1 {
                let draws = spec_layer_draws(committed, pending, tile, scan.0);
                assert(te == head + seq![RenderEvent::Clear] + draws + seq![RenderEvent::Flush]);
                if k == 0 {
                    assert(te[k] == head[0]);
                } else if k < 2 + draws.len() {
                    assert(!(te[k] is SetChunk));
                } else {
                    assert(te[k] == RenderEvent::Flush);
                }
            } else {
                assert(te == head);
            }
        }
        assert forall|k: int|
            0 <= k < ce.len() && (#[trigger] ce[k]) is SetChunk implies {
            let e = ce[k];
            (e->SetChunk_0 as int) % cw == 0 && (e->SetChunk_0 as int) < w && (
            e->SetChunk_1 as int) % ch == 0 && (e->SetChunk_1 as int) < h
        } by {
            if k < te.len() {
                assert(ce[k] == te[k]);
            } else {
                assert(ce[k] == rest[k - te.len()]);
            }
        }
    }
}

proof fn lemma_frame_moves_aligned(
    committed: Seq<Command>,
    pending: Seq<Command>,
    w: int,
    h: int,
    cw: int,
    ch: int,
    x1: int,
)
    requires
        0 < cw,
        0 < ch,
        0 <= x1,
        w <= u32::MAX as int,
        h <= u32::MAX as int,
        x1 % cw == 0,
    ensures
        forall|k: int|
            #![auto]
            0 <= k < spec_frame_events(committed, pending, w, h, cw, ch, x1).len()
                && spec_frame_events(committed, pending, w, h, cw, ch, x1)[k] is SetChunk ==> {
                let e = spec_frame_events(committed, pending, w, h, cw, ch, x1)[k];
                (e->SetChunk_0 as int) % cw == 0 && (e->SetChunk_0 as int) < w && (
                e->SetChunk_1 as int) % ch == 0 && (e->SetChunk_1 as int) < h
            },
    decreases w - x1 + cw,
{
    if 0 <= x1 < w && 0 < cw && 0 < ch {
        assert((cw + x1) % cw == x1 % cw) by {
            lemma_mod_add_multiples_vanish(x1, cw);
        }
        lemma_column_moves_aligned(committed, pending, w, h, cw, ch, x1, 0);
        lemma_frame_moves_aligned(committed, pending, w, h, cw, ch, x1 + cw);
        let col = spec_column_events(committed, pending, w, h, cw, ch, x1, 0);
        let rest = spec_frame_events(committed, pending, w, h, cw, ch, x1 + cw);
        let fe = spec_frame_events(committed, pending, w, h, cw, ch, x1);
        assert(fe == col + rest);
        assert forall|k: int|
            0 <= k < fe.len() && (#[trigger] fe[k]) is SetChunk implies {
            let e = fe[k];
            (e->SetChunk_0 as int) % cw == 0 && (e->SetChunk_0 as int) < w && (
            e->SetChunk_1 as int) % ch == 0 && (e->SetChunk_1 as int) < h
        } by {
            if k < col.len() {
                assert(fe[k] == col[k]);
            } else {
                assert(fe[k] == rest[k - col.len()]);
            }
        }
    }
}

/// Tile coverage: a frame over a `w` by `h` canvas in `cw` by `ch` chunks
/// visits exactly `ceil(w/cw) * ceil(h/ch)` tiles, and every clip origin it
/// issues is chunk-aligned and strictly within the canvas.
pub proof fn lemma_tile_coverage(
    committed: Seq<Command>,
    pending: Seq<Command>,
    w: int,
    h: int,
    cw: int,
    ch: int,
)
    requires
        0 < cw,
        0 < ch,
        0 < w <= u32::MAX as int,
        0 <= h <= u32::MAX as int,
    ensures
        spec_chunk_moves(spec_drive_events(committed, pending, w, h, cw, ch)) == spec_tile_count(
            w,
            cw,
        ) * spec_tile_count(h, ch),
        forall|k: int|
            #![auto]
            0 <= k < spec_drive_events(committed, pending, w, h, cw, ch).len()
                && spec_drive_events(committed, pending, w, h, cw, ch)[k] is SetChunk ==> {
                let e = spec_drive_events(committed, pending, w, h, cw, ch)[k];
                (e->SetChunk_0 as int) % cw == 0 && (e->SetChunk_0 as int) < w && (
                e->SetChunk_1 as int) % ch == 0 && (e->SetChunk_1 as int) < h
            },
{
    lemma_frame_count(committed, pending, w, h, cw, ch, 0);
    lemma_frame_moves_aligned(committed, pending, w, h, cw, ch, 0);
}

/// `e` is a draw of some layer at index `lo` or above: either that layer's
/// pending command or its committed one.
pub open spec fn spec_draw_from_above(
    committed: Seq<Command>,
    pending: Seq<Command>,
    e: RenderEvent,
    lo: int,
) -> bool {
    exists|j: int|
        lo <= j < committed.len() && (e == RenderEvent::Draw(#[trigger] pending[j]) || e
            == RenderEvent::Draw(committed[j]))
}

proof fn lemma_scan_floor_low(
    committed: Seq<Command>,
    pending: Seq<Command>,
    tile: BoundingBox,
    n: int,
)
    ensures
        0 <= spec_scan(committed, pending, tile, n).0,
        spec_scan(committed, pending, tile, n).0 == 0 || spec_scan(committed, pending, tile, n).0
            < n,
    decreases n,
{
    if n > 0 {
        lemma_scan_floor_low(committed, pending, tile, n - 1);
    }
}

proof fn lemma_scan_floor_above(
    committed: Seq<Command>,
    pending: Seq<Command>,
    tile: BoundingBox,
    k: int,
    n: int,
)
    requires
        0 <= k < n,
        spec_covers(pending[k].bounds, tile),
    ensures
        spec_scan(committed, pending, tile, n).0 >= k,
    decreases n,
{
    if k < n - 1 {
        lemma_scan_floor_above(committed, pending, tile, k, n - 1);
    }
}

proof fn lemma_draws_from(committed: Seq<Command>, pending: Seq<Command>, tile: BoundingBox, i: int)
    ensures
        forall|k: int|
            0 <= k < spec_layer_draws(committed, pending, tile, i).len() ==> spec_draw_from_above(
                committed,
                pending,
                #[trigger] spec_layer_draws(committed, pending, tile, i)[k],
                i,
            ),
    decreases committed.len() - i,
{
    if 0 <= i < committed.len() {
        lemma_draws_from(committed, pending, tile, i + 1);
        let here = if spec_intersects(pending[i].bounds, tile) {
            seq![RenderEvent::Draw(pending[i])]
        } else if spec_intersects(committed[i].bounds, tile) {
            seq![RenderEvent::Draw(committed[i])]
        } else {
            Seq::<RenderEvent>::empty()
        };
        let rest = spec_layer_draws(committed, pending, tile, i + 1);
        assert forall|k: int|
            0 <= k < spec_layer_draws(committed, pending, tile, i).len() implies spec_draw_from_above(
            committed,
            pending,
            #[trigger] spec_layer_draws(committed, pending, tile, i)[k],
            i,
        ) by {
            if k < here.len() {
                assert(spec_layer_draws(committed, pending, tile, i)[k] == here[k]);
                assert(here[k] == RenderEvent::Draw(pending[i]) || here[k] == RenderEvent::Draw(
                    committed[i],
                ));
            } else {
                assert(spec_layer_draws(committed, pending, tile, i)[k] == rest[k - here.len()]);
                assert(spec_draw_from_above(committed, pending, rest[k - here.len()], i + 1));
                let j = choose|j: int|
                    i + 1 <= j < committed.len() && (rest[k - here.len()] == RenderEvent::Draw(
                        #[trigger] pending[j],
                    ) || rest[k - here.len()] == RenderEvent::Draw(committed[j]));
                assert(i <= j < committed.len());
                assert(spec_draw_from_above(committed, pending, rest[k - here.len()], i));
            }
        }
    }
}

/// Occlusion: when some layer `k`'s pending bounds fully contain a tile,
/// every draw that tile receives carries the command of a layer at or above
/// `k`; nothing below the occlusion floor is painted.
pub proof fn lemma_occlusion(
    committed: Seq<Command>,
    pending: Seq<Command>,
    tile: BoundingBox,
    k: int,
)
    requires
        committed.len() == pending.len(),
        0 <= k < committed.len(),
        spec_covers(pending[k].bounds, tile),
    ensures
        forall|j: int|
            0 <= j < spec_tile_events(committed, pending, tile).len() && (#[trigger] spec_tile_events(
                committed,
                pending,
                tile,
            )[j]) is Draw ==> spec_draw_from_above(
                committed,
                pending,
                spec_tile_events(committed, pending, tile)[j],
                k,
            ),
{
    let n = committed.len() as int;
    let scan = spec_scan(committed, pending, tile, n);
    lemma_scan_floor_above(committed, pending, tile, k, n);
    lemma_draws_from(committed, pending, tile, scan.0);
    if scan.1 {
        let head = seq![RenderEvent::SetChunk(tile.x1, tile.y1)];
        let body = seq![RenderEvent::Clear];
        let draws = spec_layer_draws(committed, pending, tile, scan.0);
        let all = head + body + draws + seq![RenderEvent::Flush];
        assert forall|j: int|
            0 <= j < all.len() && (#[trigger] all[j]) is Draw implies spec_draw_from_above(
            committed,
            pending,
            all[j],
            k,
        ) by {
            if 2 <= j < 2 + draws.len() {
                assert(all[j] == draws[j - 2]);
                assert(spec_draw_from_above(committed, pending, draws[j - 2], scan.0));
                let i = choose|i: int|
                    scan.0 <= i < committed.len() && (draws[j - 2] == RenderEvent::Draw(
                        #[trigger] pending[i],
                    ) || draws[j - 2] == RenderEvent::Draw(committed[i]));
                assert(k <= i < committed.len());
                assert(spec_draw_from_above(committed, pending, all[j], k));
            } else {
                assert(!(all[j] is Draw));
            }
        }
    }
}

proof fn lemma_scan_single_disjoint(
    committed: Seq<Command>,
    pending: Seq<Command>,
    tile: BoundingBox,
    changed: int,
    n: int,
)
    requires
        committed.len() == pending.len(),
        n <= committed.len(),
        0 <= changed < committed.len(),
        forall|j: int|
            0 <= j < committed.len() && j != changed ==> committed[j].epoch == pending[j].epoch,
        !spec_intersects(committed[changed].bounds, tile),
        !spec_intersects(pending[changed].bounds, tile),
    ensures
        !spec_scan(committed, pending, tile, n).1,
    decreases n,
{
    if n > 0 {
        lemma_scan_single_disjoint(committed, pending, tile, changed, n - 1);
    }
}

/// Damage minimality: when only one layer's stamps differ between committed
/// and pending, and both its old and its new bounds are disjoint from a
/// tile, that tile receives its clip move and nothing else: no clear, no
/// draw, no flush.
pub proof fn lemma_damage_minimality(
    committed: Seq<Command>,
    pending: Seq<Command>,
    tile: BoundingBox,
    changed: int,
)
    requires
        committed.len() == pending.len(),
        0 <= changed < committed.len(),
        forall|j: int|
            0 <= j < committed.len() && j != changed ==> committed[j].epoch == pending[j].epoch,
        !spec_intersects(committed[changed].bounds, tile),
        !spec_intersects(pending[changed].bounds, tile),
    ensures
        spec_tile_events(committed, pending, tile) =~= seq![
            RenderEvent::SetChunk(tile.x1, tile.y1),
        ],
{
    lemma_scan_single_disjoint(committed, pending, tile, changed, committed.len() as int);
}

} // verus!
