//! The display list: a fixed-capacity, double-buffered collection of layered
//! draw commands.
//!
//! Each of the `LENGTH` slots owns a committed command (the last frame's
//! state) and a pending command (the next frame's intended state). Slot index
//! is paint order: ascending index paints later, on top. The per-frame drive
//! operation that diffs the two buffers lives in the `drive` module.

use vstd::math::min;
use vstd::prelude::*;

use crate::drive::spec_commit_committed;
use crate::laws::spec_only_chunk_moves;
use crate::drive::spec_commit_pending;
use crate::drive::spec_column_events;
use crate::drive::spec_drive_events;
use crate::drive::spec_frame_events;
use crate::drive::spec_layer_draws;
use crate::drive::spec_next_epoch;
use crate::drive::spec_scan;
use crate::drive::spec_tile;
use crate::drive::spec_tile_end;
use crate::drive::spec_tile_events;
use crate::model::BoundingBox;
use crate::model::Command;
use crate::model::DisplayListError;
use crate::model::lemma_emitted_is_proper_prefix;
use crate::model::lemma_plan_focus;
use crate::model::same_flavor;
use crate::model::spec_null_command;
use crate::model::spec_same_flavor;
use crate::renderer::RenderEvent;
use crate::renderer::Renderer;

verus! {

/// Inclusive far edge of the tile starting at `start`: one chunk stride
/// away, clipped to the canvas edge.
fn tile_end(start: u32, step: u32, limit: u32) -> (r: u32)
    requires
        start < limit,
        limit as int + step as int <= u32::MAX as int,
    ensures
        r as int == spec_tile_end(start as int, step as int, limit as int),
{
    let far = start + step;
    if far <= limit - 1 {
        far
    } else {
        limit - 1
    }
}

/// The next tile origin along one axis, saturating so that a stride past the
/// coordinate range still terminates the enumeration.
pub(crate) fn next_origin(start: u32, step: u32) -> (r: u32)
    requires
        step > 0,
        start < u32::MAX,
    ensures
        r as int == min(start as int + step as int, u32::MAX as int),
        r > start,
{
    if start > u32::MAX - step {
        u32::MAX
    } else {
        start + step
    }
}

proof fn lemma_dirty_not_quiet(
    e0: Seq<RenderEvent>,
    plan: Seq<RenderEvent>,
    tile_start: Seq<RenderEvent>,
    te: Seq<RenderEvent>,
    rest_after: Seq<RenderEvent>,
)
    requires
        tile_start + (te + rest_after) == e0 + plan,
        e0.len() <= tile_start.len(),
        1 < te.len(),
        !(te[1] is SetChunk),
    ensures
        !spec_only_chunk_moves(plan),
{
    let idx = tile_start.len() - e0.len() + 1;
    assert((te + rest_after).len() == te.len() + rest_after.len());
    assert((tile_start + (te + rest_after)).len() == tile_start.len() + (te + rest_after).len());
    assert((e0 + plan).len() == e0.len() + plan.len());
    assert((tile_start + (te + rest_after))[tile_start.len() as int + 1] == te[1]);
    assert((e0 + plan)[tile_start.len() as int + 1] == plan[idx]);
    assert(0 <= idx < plan.len());
    assert(!(plan[idx] is SetChunk));
}

proof fn lemma_abort_at_move(
    e0: Seq<RenderEvent>,
    plan: Seq<RenderEvent>,
    tile_start: Seq<RenderEvent>,
    te: Seq<RenderEvent>,
    rest_after: Seq<RenderEvent>,
)
    requires
        tile_start + (te + rest_after) == e0 + plan,
        e0.len() <= tile_start.len(),
        te.len() > 0,
    ensures
        exists|n: int| 0 <= n < plan.len() && tile_start == e0 + plan.subrange(0, n),
{
    assert((te + rest_after).len() > 0);
    lemma_emitted_is_proper_prefix(e0, tile_start, te + rest_after, plan);
}

proof fn lemma_abort_at_clear(
    e0: Seq<RenderEvent>,
    plan: Seq<RenderEvent>,
    tile_start: Seq<RenderEvent>,
    cur: Seq<RenderEvent>,
    te: Seq<RenderEvent>,
    sld: Seq<RenderEvent>,
    rest_after: Seq<RenderEvent>,
    sc: RenderEvent,
)
    requires
        te == seq![sc] + seq![RenderEvent::Clear] + sld + seq![RenderEvent::Flush],
        tile_start + (te + rest_after) == e0 + plan,
        cur == tile_start + seq![sc],
        e0.len() <= tile_start.len(),
    ensures
        exists|n: int| 0 <= n < plan.len() && cur == e0 + plan.subrange(0, n),
{
    let tail = ((seq![RenderEvent::Clear] + sld) + seq![RenderEvent::Flush]) + rest_after;
    assert(cur + tail =~= tile_start + (te + rest_after));
    assert(cur.len() == tile_start.len() + 1);
    assert(tail.len() > 0);
    lemma_emitted_is_proper_prefix(e0, cur, tail, plan);
}

proof fn lemma_dirty_tile_shape(
    e0: Seq<RenderEvent>,
    plan: Seq<RenderEvent>,
    tile_start: Seq<RenderEvent>,
    after_clear: Seq<RenderEvent>,
    te: Seq<RenderEvent>,
    sld: Seq<RenderEvent>,
    rest_after: Seq<RenderEvent>,
    sc: RenderEvent,
)
    requires
        te == seq![sc] + seq![RenderEvent::Clear] + sld + seq![RenderEvent::Flush],
        tile_start + (te + rest_after) == e0 + plan,
        after_clear == (tile_start + seq![sc]) + seq![RenderEvent::Clear],
    ensures
        after_clear + ((sld + seq![RenderEvent::Flush]) + rest_after) == e0 + plan,
{
    assert(after_clear + ((sld + seq![RenderEvent::Flush]) + rest_after) =~= tile_start + (te
        + rest_after));
}

proof fn lemma_abort_in_draws(
    e0: Seq<RenderEvent>,
    plan: Seq<RenderEvent>,
    after_clear: Seq<RenderEvent>,
    cur: Seq<RenderEvent>,
    sld_bottom: Seq<RenderEvent>,
    sld_here: Seq<RenderEvent>,
    rest_after: Seq<RenderEvent>,
)
    requires
        cur + sld_here == after_clear + sld_bottom,
        after_clear + ((sld_bottom + seq![RenderEvent::Flush]) + rest_after) == e0 + plan,
        e0.len() <= cur.len(),
    ensures
        exists|n: int| 0 <= n < plan.len() && cur == e0 + plan.subrange(0, n),
{
    let tail = (sld_here + seq![RenderEvent::Flush]) + rest_after;
    assert(cur + tail =~= ((cur + sld_here) + seq![RenderEvent::Flush]) + rest_after);
    assert(((after_clear + sld_bottom) + seq![RenderEvent::Flush]) + rest_after =~= after_clear + ((
    sld_bottom + seq![RenderEvent::Flush]) + rest_after));
    assert(cur + tail == e0 + plan);
    assert((sld_here + seq![RenderEvent::Flush]).len() == sld_here.len() + 1);
    assert(tail.len() > 0);
    lemma_emitted_is_proper_prefix(e0, cur, tail, plan);
}

/// A fixed-capacity list of layer slots plus a list-wide wrapping generation
/// counter, stamped on every command as it is written into a slot.
pub struct DisplayList<const LENGTH: usize> {
    epoch: u8,
    committed: Vec<Command>,
    pending: Vec<Command>,
}

impl<const LENGTH: usize> DisplayList<LENGTH> {
    /// The committed command of each slot, bottom layer first.
    pub closed spec fn committed_spec(&self) -> Seq<Command> {
        self.committed@
    }

    /// The pending command of each slot, bottom layer first.
    pub closed spec fn pending_spec(&self) -> Seq<Command> {
        self.pending@
    }

    /// The list-wide current generation value.
    pub closed spec fn epoch_spec(&self) -> u8 {
        self.epoch
    }

    /// Both buffers hold exactly one command per slot.
    pub open spec fn wf(&self) -> bool {
        self.committed_spec().len() == LENGTH && self.pending_spec().len() == LENGTH
    }

    /// An empty list: every slot holds the null command in both buffers, and
    /// the generation counter starts at one, so that the first write to any
    /// slot already differs from that slot's committed stamp.
    pub fn new() -> (r: Self)
        ensures
            r.wf(),
            r.epoch_spec() == 1u8,
            forall|i: int|
                0 <= i < LENGTH ==> r.committed_spec()[i] == spec_null_command()
                    && r.pending_spec()[i] == spec_null_command(),
    {
        let mut committed: Vec<Command> = Vec::new();
        let mut pending: Vec<Command> = Vec::new();
        let mut i: usize = 0;
        while i < LENGTH
            invariant
                i <= LENGTH,
                committed@.len() == i,
                pending@.len() == i,
                forall|j: int|
                    0 <= j < i ==> committed@[j] == spec_null_command() && pending@[j]
                        == spec_null_command(),
            decreases LENGTH - i,
        {
            committed.push(Command::null());
            pending.push(Command::null());
            i = i + 1;
        }
        DisplayList { epoch: 1, committed, pending }
    }

    /// The list's current generation value, the stamp the next write gets.
    pub fn generation(&self) -> (r: u8)
        ensures
            r == self.epoch_spec(),
    {
        self.epoch
    }

    /// Unconditionally overwrite the pending command at `index` (any change
    /// of shape kind permitted), stamping it with the current generation.
    /// Fails out-of-range when `index >= LENGTH`, leaving the slot alone.
    pub fn set(&mut self, index: usize, command: Command) -> (r: Result<(), DisplayListError>)
        requires
            old(self).wf(),
        ensures
            final(self).wf(),
            final(self).epoch_spec() == old(self).epoch_spec(),
            final(self).committed_spec() == old(self).committed_spec(),
            index < LENGTH ==> r is Ok && final(self).pending_spec() == old(
                self,
            ).pending_spec().update(
                index as int,
                Command { epoch: old(self).epoch_spec(), ..command },
            ),
            index >= LENGTH ==> r == Err::<(), DisplayListError>(
                DisplayListError::IndexOutOfRange,
            ) && final(self).pending_spec() == old(self).pending_spec(),
    {
        if index >= LENGTH {
            return Err(DisplayListError::IndexOutOfRange);
        }
        let mut stamped = command;
        stamped.epoch = self.epoch;
        self.pending.set(index, stamped);
        Ok(())
    }

    /// Read back the pending command at `index`; fails out-of-range
    /// identically to `set`.
    pub fn get(&self, index: usize) -> (r: Result<Command, DisplayListError>)
        requires
            self.wf(),
        ensures
            index < LENGTH ==> r == Ok::<Command, DisplayListError>(
                self.pending_spec()[index as int],
            ),
            index >= LENGTH ==> r == Err::<Command, DisplayListError>(
                DisplayListError::IndexOutOfRange,
            ),
    {
        if index >= LENGTH {
            return Err(DisplayListError::IndexOutOfRange);
        }
        Ok(self.pending[index])
    }

    /// Like `set`, but only for the same visual element: the new command's
    /// shape kind must match the slot's committed (not pending) kind.
    /// A mismatch fails with both kinds and leaves the pending command at
    /// its prior value.
    pub fn update(&mut self, index: usize, command: Command) -> (r: Result<(), DisplayListError>)
        requires
            old(self).wf(),
        ensures
            final(self).wf(),
            final(self).epoch_spec() == old(self).epoch_spec(),
            final(self).committed_spec() == old(self).committed_spec(),
            index >= LENGTH ==> r == Err::<(), DisplayListError>(
                DisplayListError::IndexOutOfRange,
            ) && final(self).pending_spec() == old(self).pending_spec(),
            index < LENGTH && !spec_same_flavor(
                old(self).committed_spec()[index as int].flavor,
                command.flavor,
            ) ==> r == Err::<(), DisplayListError>(
                DisplayListError::UpdateFlavorMismatch(
                    old(self).committed_spec()[index as int].flavor,
                    command.flavor,
                ),
            ) && final(self).pending_spec() == old(self).pending_spec(),
            index < LENGTH && spec_same_flavor(
                old(self).committed_spec()[index as int].flavor,
                command.flavor,
            ) ==> r is Ok && final(self).pending_spec() == old(self).pending_spec().update(
                index as int,
                Command { epoch: old(self).epoch_spec(), ..command },
            ),
    {
        if index >= LENGTH {
            return Err(DisplayListError::IndexOutOfRange);
        }
        let committed_flavor = self.committed[index].flavor;
        if !same_flavor(committed_flavor, command.flavor) {
            return Err(DisplayListError::UpdateFlavorMismatch(committed_flavor, command.flavor));
        }
        let mut stamped = command;
        stamped.epoch = self.epoch;
        self.pending.set(index, stamped);
        Ok(())
    }

    /// Drive one frame: enumerate the tiles spanning the renderer's canvas,
    /// repaint exactly the damaged ones, then promote pending state into
    /// committed state and advance the generation counter.
    ///
    /// On success the renderer's trace grows by exactly
    /// `spec_drive_events` of the pre-frame state, and every slot is
    /// committed and re-stamped. The first renderer failure aborts the
    /// remaining tiles and is returned as it came; the commit step is then
    /// skipped entirely, so the next successful frame re-evaluates the same
    /// damage.
    #[verifier::loop_isolation(false)]
    #[verifier::rlimit(80)]
    pub fn draw<R: Renderer>(&mut self, renderer: &mut R) -> (r: Result<(), DisplayListError>)
        requires
            old(self).wf(),
            old(renderer).inv(),
        ensures
            final(self).wf(),
            final(renderer).inv(),
            final(renderer).width_spec() == old(renderer).width_spec(),
            final(renderer).height_spec() == old(renderer).height_spec(),
            final(renderer).chunk_spec() == old(renderer).chunk_spec(),
            r is Err ==> {
                &&& final(self).epoch_spec() == old(self).epoch_spec()
                &&& final(self).committed_spec() == old(self).committed_spec()
                &&& final(self).pending_spec() == old(self).pending_spec()
                &&& r->Err_0 is RenderError
            },
            old(renderer).width_spec() == 0 || old(renderer).height_spec() == 0 ==> r is Ok,
            spec_only_chunk_moves(
                spec_drive_events(
                    old(self).committed_spec(),
                    old(self).pending_spec(),
                    old(renderer).width_spec() as int,
                    old(renderer).height_spec() as int,
                    old(renderer).chunk_spec().0 as int,
                    old(renderer).chunk_spec().1 as int,
                ),
            ) ==> r is Ok,
            r is Err ==> exists|n: int|
                0 <= n < spec_drive_events(
                    old(self).committed_spec(),
                    old(self).pending_spec(),
                    old(renderer).width_spec() as int,
                    old(renderer).height_spec() as int,
                    old(renderer).chunk_spec().0 as int,
                    old(renderer).chunk_spec().1 as int,
                ).len() && final(renderer).events() == old(renderer).events() + spec_drive_events(
                    old(self).committed_spec(),
                    old(self).pending_spec(),
                    old(renderer).width_spec() as int,
                    old(renderer).height_spec() as int,
                    old(renderer).chunk_spec().0 as int,
                    old(renderer).chunk_spec().1 as int,
                ).subrange(0, n),
            r is Ok ==> final(renderer).events() == old(renderer).events() + spec_drive_events(
                old(self).committed_spec(),
                old(self).pending_spec(),
                old(renderer).width_spec() as int,
                old(renderer).height_spec() as int,
                old(renderer).chunk_spec().0 as int,
                old(renderer).chunk_spec().1 as int,
            ),
            r is Ok ==> final(self).epoch_spec() == spec_next_epoch(old(self).epoch_spec()) && (
            forall|i: int|
                0 <= i < LENGTH ==> final(self).committed_spec()[i] == spec_commit_committed(
                    old(self).committed_spec()[i],
                    old(self).pending_spec()[i],
                    old(self).epoch_spec(),
                ) && final(self).pending_spec()[i] == spec_commit_pending(
                    old(self).committed_spec()[i],
                    old(self).pending_spec()[i],
                    old(self).epoch_spec(),
                )),
    {
        let width = renderer.width();
        let height = renderer.height();
        let step = renderer.chunk_size();
        let cw = step.0;
        let ch = step.1;
        proof {
            renderer.inv_facts();
        }

        let ghost c0 = self.committed@;
        let ghost p0 = self.pending@;
        let ghost e0 = renderer.events();
        let ghost wi = width as int;
        let ghost hi = height as int;
        let ghost cwi = cw as int;
        let ghost chi = ch as int;
        let ghost plan = spec_frame_events(c0, p0, wi, hi, cwi, chi, 0);
        proof {
            assert(c0.len() == LENGTH && p0.len() == LENGTH);
        }

        let mut x1: u32 = 0;
        while x1 < width
            invariant
                self.committed@ == c0,
                self.pending@ == p0,
                self.epoch == old(self).epoch_spec(),
                renderer.inv(),
                renderer.width_spec() == width,
                renderer.height_spec() == height,
                renderer.chunk_spec() == (cw, ch),
                x1 < width ==> x1 % cw == 0,
                e0.len() <= renderer.events().len(),
                renderer.events() + spec_frame_events(c0, p0, wi, hi, cwi, chi, x1 as int) == e0
                    + spec_frame_events(c0, p0, wi, hi, cwi, chi, 0),
            decreases u32::MAX as int - x1 as int,
        {
            let ghost col_start = renderer.events();
            proof {
                assert(col_start + spec_frame_events(c0, p0, wi, hi, cwi, chi, x1 as int) == e0
                    + plan);
                assert(e0.len() <= col_start.len());
            }
            let mut y1: u32 = 0;
            while y1 < height
                invariant
                    x1 < width,
                    x1 % cw == 0,
                    y1 < height ==> y1 % ch == 0,
                    self.committed@ == c0,
                    self.pending@ == p0,
                    self.epoch == old(self).epoch_spec(),
                    renderer.inv(),
                    renderer.width_spec() == width,
                    renderer.height_spec() == height,
                    renderer.chunk_spec() == (cw, ch),
                    e0.len() <= renderer.events().len(),
                    renderer.events() + spec_column_events(
                        c0,
                        p0,
                        wi,
                        hi,
                        cwi,
                        chi,
                        x1 as int,
                        y1 as int,
                    ) == col_start + spec_column_events(c0, p0, wi, hi, cwi, chi, x1 as int, 0),
                decreases u32::MAX as int - y1 as int,
            {
                let x2 = tile_end(x1, cw, width);
                let y2 = tile_end(y1, ch, height);
                let bounds = BoundingBox { x1, y1, x2, y2 };
                proof {
                    assert(bounds == spec_tile(x1 as int, y1 as int, wi, hi, cwi, chi));
                }
                let ghost tile_start = renderer.events();
                let ghost te_tile = spec_tile_events(c0, p0, bounds);
                let ghost rest_after = spec_column_events(
                    c0,
                    p0,
                    wi,
                    hi,
                    cwi,
                    chi,
                    x1 as int,
                    y1 as int + chi,
                ) + spec_frame_events(c0, p0, wi, hi, cwi, chi, x1 as int + cwi);
                proof {
                    assert(tile_start + spec_column_events(
                        c0,
                        p0,
                        wi,
                        hi,
                        cwi,
                        chi,
                        x1 as int,
                        y1 as int,
                    ) == col_start + spec_column_events(c0, p0, wi, hi, cwi, chi, x1 as int, 0));
                    assert(e0.len() <= tile_start.len());
                    assert(spec_column_events(c0, p0, wi, hi, cwi, chi, x1 as int, y1 as int)
                        == te_tile + spec_column_events(
                        c0,
                        p0,
                        wi,
                        hi,
                        cwi,
                        chi,
                        x1 as int,
                        y1 as int + chi,
                    ));
                    assert(spec_frame_events(c0, p0, wi, hi, cwi, chi, x1 as int)
                        == spec_column_events(c0, p0, wi, hi, cwi, chi, x1 as int, 0)
                        + spec_frame_events(c0, p0, wi, hi, cwi, chi, x1 as int + cwi));
                    assert(col_start + spec_frame_events(c0, p0, wi, hi, cwi, chi, x1 as int) == e0
                        + plan);
                    lemma_plan_focus(
                        e0,
                        plan,
                        col_start,
                        tile_start,
                        te_tile,
                        spec_column_events(c0, p0, wi, hi, cwi, chi, x1 as int, y1 as int + chi),
                        spec_frame_events(c0, p0, wi, hi, cwi, chi, x1 as int + cwi),
                        spec_column_events(c0, p0, wi, hi, cwi, chi, x1 as int, y1 as int),
                        spec_column_events(c0, p0, wi, hi, cwi, chi, x1 as int, 0),
                        spec_frame_events(c0, p0, wi, hi, cwi, chi, x1 as int),
                    );
                    assert(tile_start + (te_tile + rest_after) == e0 + plan);
                    assert(te_tile.len() > 0);
                }

                match renderer.set_chunk(x1, y1) {
                    Ok(()) => {},
                    Err(e) => {
                        proof {
                            lemma_abort_at_move(e0, plan, tile_start, te_tile, rest_after);
                            assert(renderer.events() == tile_start);
                        let n0 = choose|n: int|
                            0 <= n < plan.len() && renderer.events() == e0 + plan.subrange(0, n);
                        assert(renderer.events() == old(renderer).events() + spec_drive_events(
                            old(self).committed_spec(),
                            old(self).pending_spec(),
                            old(renderer).width_spec() as int,
                            old(renderer).height_spec() as int,
                            old(renderer).chunk_spec().0 as int,
                            old(renderer).chunk_spec().1 as int,
                        ).subrange(0, n0));
                        assert(n0 < spec_drive_events(
                            old(self).committed_spec(),
                            old(self).pending_spec(),
                            old(renderer).width_spec() as int,
                            old(renderer).height_spec() as int,
                            old(renderer).chunk_spec().0 as int,
                            old(renderer).chunk_spec().1 as int,
                        ).len());
                        }
                        return Err(DisplayListError::RenderError(e));
                    },
                }
                let ghost after_move = renderer.events();
                proof {
                    assert(after_move =~= tile_start + seq![RenderEvent::SetChunk(x1, y1)]);
                }

                let mut bottom: usize = 0;
                let mut has_change: bool = false;
                let mut i: usize = 0;
                while i < LENGTH
                    invariant
                        i <= LENGTH,
                        bottom == 0 || bottom < i,
                        bottom as int == spec_scan(c0, p0, bounds, i as int).0,
                        has_change == spec_scan(c0, p0, bounds, i as int).1,
                    decreases LENGTH - i,
                {
                    let pending_cmd = self.pending[i];
                    let committed_cmd = self.committed[i];
                    let covers = match pending_cmd.covers(&bounds) {
                        Ok(b) => b,
                        Err(e) => {
                            return Err(DisplayListError::RenderError(e));
                        },
                    };
                    if covers {
                        bottom = i;
                    }
                    if committed_cmd.epoch != pending_cmd.epoch {
                        let hit = match committed_cmd.intersects(&bounds) {
                            Ok(b) => b,
                            Err(e) => {
                                return Err(DisplayListError::RenderError(e));
                            },
                        };
                        if hit {
                            has_change = true;
                        } else {
                            let hit2 = match pending_cmd.intersects(&bounds) {
                                Ok(b) => b,
                                Err(e) => {
                                    return Err(DisplayListError::RenderError(e));
                                },
                            };
                            if hit2 {
                                has_change = true;
                            }
                        }
                    }
                    i = i + 1;
                }

                if has_change {
                    proof {
                        assert(te_tile == seq![RenderEvent::SetChunk(bounds.x1, bounds.y1)]
                            + seq![RenderEvent::Clear] + spec_layer_draws(
                            c0,
                            p0,
                            bounds,
                            bottom as int,
                        ) + seq![RenderEvent::Flush]);
                        assert(te_tile[1] == RenderEvent::Clear);
                        lemma_dirty_not_quiet(e0, plan, tile_start, te_tile, rest_after);
                    }
                    match renderer.clear() {
                        Ok(()) => {},
                        Err(e) => {
                            proof {
                                assert(renderer.events() == tile_start + seq![
                                    RenderEvent::SetChunk(x1, y1),
                                ]);
                                lemma_abort_at_clear(
                                    e0,
                                    plan,
                                    tile_start,
                                    renderer.events(),
                                    te_tile,
                                    spec_layer_draws(c0, p0, bounds, bottom as int),
                                    rest_after,
                                    RenderEvent::SetChunk(x1, y1),
                                );
                            let n0 = choose|n: int|
                                0 <= n < plan.len() && renderer.events() == e0 + plan.subrange(0, n);
                            assert(renderer.events() == old(renderer).events() + spec_drive_events(
                                old(self).committed_spec(),
                                old(self).pending_spec(),
                                old(renderer).width_spec() as int,
                                old(renderer).height_spec() as int,
                                old(renderer).chunk_spec().0 as int,
                                old(renderer).chunk_spec().1 as int,
                            ).subrange(0, n0));
                            assert(n0 < spec_drive_events(
                                old(self).committed_spec(),
                                old(self).pending_spec(),
                                old(renderer).width_spec() as int,
                                old(renderer).height_spec() as int,
                                old(renderer).chunk_spec().0 as int,
                                old(renderer).chunk_spec().1 as int,
                            ).len());
                            }
                            return Err(DisplayListError::RenderError(e));
                        },
                    }
                    let ghost after_clear = renderer.events();
                    proof {
                        assert(after_clear =~= (tile_start + seq![RenderEvent::SetChunk(x1, y1)])
                            + seq![RenderEvent::Clear]);
                        lemma_dirty_tile_shape(
                            e0,
                            plan,
                            tile_start,
                            after_clear,
                            te_tile,
                            spec_layer_draws(c0, p0, bounds, bottom as int),
                            rest_after,
                            RenderEvent::SetChunk(x1, y1),
                        );
                    }

                    let mut i = bottom;
                    while i < LENGTH
                        invariant
                            i <= LENGTH,
                            renderer.inv(),
                            renderer.width_spec() == width,
                            renderer.height_spec() == height,
                            renderer.chunk_spec() == (cw, ch),
                            e0.len() <= renderer.events().len(),
                            renderer.events() + spec_layer_draws(c0, p0, bounds, i as int)
                                == after_clear + spec_layer_draws(c0, p0, bounds, bottom as int),
                        decreases LENGTH - i,
                    {
                        let pending_cmd = self.pending[i];
                        let ghost before = renderer.events();
                        let hit = match pending_cmd.intersects(&bounds) {
                            Ok(b) => b,
                            Err(e) => {
                                return Err(DisplayListError::RenderError(e));
                            },
                        };
                        if hit {
                            match renderer.draw(&pending_cmd) {
                                Ok(()) => {},
                                Err(e) => {
                                    proof {
                                        lemma_abort_in_draws(
                                            e0,
                                            plan,
                                            after_clear,
                                            renderer.events(),
                                            spec_layer_draws(c0, p0, bounds, bottom as int),
                                            spec_layer_draws(c0, p0, bounds, i as int),
                                            rest_after,
                                        );
                                        let n0 = choose|n: int|
                                            0 <= n < plan.len() && renderer.events() == e0 + plan.subrange(0, n);
                                        assert(renderer.events() == old(renderer).events() + spec_drive_events(
                                            old(self).committed_spec(),
                                            old(self).pending_spec(),
                                            old(renderer).width_spec() as int,
                                            old(renderer).height_spec() as int,
                                            old(renderer).chunk_spec().0 as int,
                                            old(renderer).chunk_spec().1 as int,
                                        ).subrange(0, n0));
                                        assert(n0 < spec_drive_events(
                                            old(self).committed_spec(),
                                            old(self).pending_spec(),
                                            old(renderer).width_spec() as int,
                                            old(renderer).height_spec() as int,
                                            old(renderer).chunk_spec().0 as int,
                                            old(renderer).chunk_spec().1 as int,
                                        ).len());
                                    }
                                    return Err(DisplayListError::RenderError(e));
                                },
                            }
                            proof {
                                assert(renderer.events() =~= before + seq![
                                    RenderEvent::Draw(p0[i as int]),
                                ]);
                            }
                        } else {
                            let committed_cmd = self.committed[i];
                            let hit2 = match committed_cmd.intersects(&bounds) {
                                Ok(b) => b,
                                Err(e) => {
                                    return Err(DisplayListError::RenderError(e));
                                },
                            };
                            if hit2 {
                                match renderer.draw(&committed_cmd) {
                                    Ok(()) => {},
                                    Err(e) => {
                                        proof {
                                            lemma_abort_in_draws(
                                                e0,
                                                plan,
                                                after_clear,
                                                renderer.events(),
                                                spec_layer_draws(c0, p0, bounds, bottom as int),
                                                spec_layer_draws(c0, p0, bounds, i as int),
                                                rest_after,
                                            );
                                            let n0 = choose|n: int|
                                                0 <= n < plan.len() && renderer.events() == e0 + plan.subrange(0, n);
                                            assert(renderer.events() == old(renderer).events() + spec_drive_events(
                                                old(self).committed_spec(),
                                                old(self).pending_spec(),
                                                old(renderer).width_spec() as int,
                                                old(renderer).height_spec() as int,
                                                old(renderer).chunk_spec().0 as int,
                                                old(renderer).chunk_spec().1 as int,
                                            ).subrange(0, n0));
                                            assert(n0 < spec_drive_events(
                                                old(self).committed_spec(),
                                                old(self).pending_spec(),
                                                old(renderer).width_spec() as int,
                                                old(renderer).height_spec() as int,
                                                old(renderer).chunk_spec().0 as int,
                                                old(renderer).chunk_spec().1 as int,
                                            ).len());
                                        }
                                        return Err(DisplayListError::RenderError(e));
                                    },
                                }
                                proof {
                                    assert(renderer.events() =~= before + seq![
                                        RenderEvent::Draw(c0[i as int]),
                                    ]);
                                }
                            }
                        }
                        proof {
                            assert(renderer.events() + spec_layer_draws(
                                c0,
                                p0,
                                bounds,
                                i as int + 1,
                            ) =~= after_clear + spec_layer_draws(c0, p0, bounds, bottom as int));
                        }
                        i = i + 1;
                    }

                    proof {
                        assert(spec_layer_draws(c0, p0, bounds, LENGTH as int)
                            =~= Seq::<RenderEvent>::empty());
                    }
                    match renderer.flush() {
                        Ok(()) => {},
                        Err(e) => {
                            proof {
                                lemma_abort_in_draws(
                                    e0,
                                    plan,
                                    after_clear,
                                    renderer.events(),
                                    spec_layer_draws(c0, p0, bounds, bottom as int),
                                    spec_layer_draws(c0, p0, bounds, LENGTH as int),
                                    rest_after,
                                );
                            let n0 = choose|n: int|
                                0 <= n < plan.len() && renderer.events() == e0 + plan.subrange(0, n);
                            assert(renderer.events() == old(renderer).events() + spec_drive_events(
                                old(self).committed_spec(),
                                old(self).pending_spec(),
                                old(renderer).width_spec() as int,
                                old(renderer).height_spec() as int,
                                old(renderer).chunk_spec().0 as int,
                                old(renderer).chunk_spec().1 as int,
                            ).subrange(0, n0));
                            assert(n0 < spec_drive_events(
                                old(self).committed_spec(),
                                old(self).pending_spec(),
                                old(renderer).width_spec() as int,
                                old(renderer).height_spec() as int,
                                old(renderer).chunk_spec().0 as int,
                                old(renderer).chunk_spec().1 as int,
                            ).len());
                            }
                            return Err(DisplayListError::RenderError(e));
                        },
                    }
                    proof {
                        assert(spec_layer_draws(c0, p0, bounds, LENGTH as int)
                            =~= Seq::<RenderEvent>::empty());
                        assert(renderer.events() =~= tile_start + spec_tile_events(
                            c0,
                            p0,
                            bounds,
                        ));
                    }
                } else {
                    proof {
                        assert(renderer.events() =~= tile_start + spec_tile_events(
                            c0,
                            p0,
                            bounds,
                        ));
                    }
                }

                proof {
                    assert(renderer.events() + spec_column_events(
                        c0,
                        p0,
                        wi,
                        hi,
                        cwi,
                        chi,
                        x1 as int,
                        y1 as int + chi,
                    ) =~= col_start + spec_column_events(c0, p0, wi, hi, cwi, chi, x1 as int, 0));
                }
                let ghost y_prev = y1 as int;
                y1 = next_origin(y1, ch);
                proof {
                    assert((chi + y_prev) % chi == y_prev % chi) by {
                        vstd::arithmetic::div_mod::lemma_mod_add_multiples_vanish(y_prev, chi);
                    }
                    if y1 as int != y_prev + chi {
                        assert(spec_column_events(c0, p0, wi, hi, cwi, chi, x1 as int, y_prev + chi)
                            =~= Seq::<RenderEvent>::empty());
                        assert(spec_column_events(c0, p0, wi, hi, cwi, chi, x1 as int, y1 as int)
                            =~= Seq::<RenderEvent>::empty());
                    }
                }
            }
            proof {
                assert(spec_column_events(c0, p0, wi, hi, cwi, chi, x1 as int, y1 as int)
                    =~= Seq::<RenderEvent>::empty());
                assert(renderer.events() + spec_frame_events(
                    c0,
                    p0,
                    wi,
                    hi,
                    cwi,
                    chi,
                    x1 as int + cwi,
                ) =~= e0 + spec_frame_events(c0, p0, wi, hi, cwi, chi, 0));
            }
            let ghost x_prev = x1 as int;
            x1 = next_origin(x1, cw);
            proof {
                assert((cwi + x_prev) % cwi == x_prev % cwi) by {
                    vstd::arithmetic::div_mod::lemma_mod_add_multiples_vanish(x_prev, cwi);
                }
                if x1 as int != x_prev + cwi {
                    assert(spec_frame_events(c0, p0, wi, hi, cwi, chi, x_prev + cwi)
                        =~= Seq::<RenderEvent>::empty());
                    assert(spec_frame_events(c0, p0, wi, hi, cwi, chi, x1 as int)
                        =~= Seq::<RenderEvent>::empty());
                }
            }
        }
        proof {
            assert(spec_frame_events(c0, p0, wi, hi, cwi, chi, x1 as int)
                =~= Seq::<RenderEvent>::empty());
            assert(renderer.events() =~= e0 + spec_drive_events(c0, p0, wi, hi, cwi, chi));
        }

        let ghost ep0 = self.epoch;
        let mut i: usize = 0;
        while i < LENGTH
            invariant
                i <= LENGTH,
                self.epoch == ep0,
                self.committed@.len() == LENGTH,
                self.pending@.len() == LENGTH,
                forall|j: int| i <= j < LENGTH ==> self.committed@[j] == c0[j] && self.pending@[j] == p0[j],
                forall|j: int|
                    0 <= j < i ==> self.committed@[j] == spec_commit_committed(c0[j], p0[j], ep0)
                        && self.pending@[j] == spec_commit_pending(c0[j], p0[j], ep0),
            decreases LENGTH - i,
        {
            let committed_cmd = self.committed[i];
            let mut pending_cmd = self.pending[i];
            if pending_cmd.epoch != committed_cmd.epoch {
                pending_cmd.epoch = self.epoch;
                self.pending.set(i, pending_cmd);
                self.committed.set(i, pending_cmd);
            } else {
                pending_cmd.epoch = self.epoch;
                self.pending.set(i, pending_cmd);
                let mut resynced = committed_cmd;
                resynced.epoch = self.epoch;
                self.committed.set(i, resynced);
            }
            i = i + 1;
        }

        if self.epoch == 255 {
            self.epoch = 0;
        } else {
            self.epoch = self.epoch + 1;
        }
        Ok(())
    }
}

} // verus!
