//! The contract a backing store must expose so the display list can drive it
//! tile by tile.
//!
//! Besides the canvas geometry, every renderer carries a ghost trace of the
//! operations issued to it, in order. The display list's per-frame contract is
//! stated over that trace: which tiles were visited, which were cleared,
//! which commands were painted and when the tile was flushed.

use vstd::prelude::*;

use crate::model::Command;
use crate::model::RendererError;

verus! {

/// One operation issued to a renderer, as it appears in the renderer's trace.
#[derive(Clone, Copy, PartialEq, Eq, Structural, Debug)]
pub enum RenderEvent {
    /// The clip was moved to the chunk whose top-left pixel is `(x, y)`.
    SetChunk(u32, u32),
    /// Every pixel of the current clip was reset to background.
    Clear,
    /// The command was painted, restricted to the current clip.
    Draw(Command),
    /// The current clip's buffered content was committed to its destination.
    Flush,
}

/// What a backing store must expose: canvas geometry, a movable chunk clip,
/// and clear/draw/flush primitives.
///
/// Each fallible operation appends its event to the trace exactly when it
/// succeeds and leaves the trace alone when it fails; geometry never changes.
pub trait Renderer: Sized {
    /// Total addressable canvas width in pixels.
    spec fn width_spec(&self) -> u32;

    /// Total addressable canvas height in pixels.
    spec fn height_spec(&self) -> u32;

    /// Fixed chunk (tile) dimensions used for every partial update.
    spec fn chunk_spec(&self) -> (u32, u32);

    /// The operations issued to this renderer so far, oldest first.
    spec fn events(&self) -> Seq<RenderEvent>;

    /// The renderer's own well-formedness condition.
    spec fn inv(&self) -> bool;

    /// Well-formedness bounds the geometry: chunks are non-empty and one
    /// chunk stride past the canvas still fits in the coordinate type.
    proof fn inv_facts(&self)
        requires
            self.inv(),
        ensures
            self.chunk_spec().0 > 0,
            self.chunk_spec().1 > 0,
            self.width_spec() as int + self.chunk_spec().0 as int <= u32::MAX as int,
            self.height_spec() as int + self.chunk_spec().1 as int <= u32::MAX as int,
    ;

    fn width(&self) -> (r: u32)
        requires
            self.inv(),
        ensures
            r == self.width_spec(),
    ;

    fn height(&self) -> (r: u32)
        requires
            self.inv(),
        ensures
            r == self.height_spec(),
    ;

    fn chunk_size(&self) -> (r: (u32, u32))
        requires
            self.inv(),
        ensures
            r == self.chunk_spec(),
    ;

    /// Restrict all following clear/draw calls to the chunk with top-left
    /// `(x, y)`. Moving the clip is a local operation: it fails only when
    /// `(x, y)` is not aligned to the chunk dimensions, with an
    /// invalid-offset error.
    fn set_chunk(&mut self, x: u32, y: u32) -> (r: Result<(), RendererError>)
        requires
            old(self).inv(),
            x < old(self).width_spec(),
            y < old(self).height_spec(),
        ensures
            final(self).inv(),
            final(self).width_spec() == old(self).width_spec(),
            final(self).height_spec() == old(self).height_spec(),
            final(self).chunk_spec() == old(self).chunk_spec(),
            r is Ok ==> final(self).events() == old(self).events().push(
                RenderEvent::SetChunk(x, y),
            ),
            r is Err ==> final(self).events() == old(self).events() && !(x % old(
                self,
            ).chunk_spec().0 == 0 && y % old(self).chunk_spec().1 == 0),
    ;

    /// Reset every pixel within the current clip to background.
    fn clear(&mut self) -> (r: Result<(), RendererError>)
        requires
            old(self).inv(),
        ensures
            final(self).inv(),
            final(self).width_spec() == old(self).width_spec(),
            final(self).height_spec() == old(self).height_spec(),
            final(self).chunk_spec() == old(self).chunk_spec(),
            r is Ok ==> final(self).events() == old(self).events().push(RenderEvent::Clear),
            r is Err ==> final(self).events() == old(self).events(),
    ;

    /// Paint `command` clipped to the current clip rectangle. The empty
    /// kind is a no-op that still counts as a draw in the trace.
    fn draw(&mut self, command: &Command) -> (r: Result<(), RendererError>)
        requires
            old(self).inv(),
        ensures
            final(self).inv(),
            final(self).width_spec() == old(self).width_spec(),
            final(self).height_spec() == old(self).height_spec(),
            final(self).chunk_spec() == old(self).chunk_spec(),
            r is Ok ==> final(self).events() == old(self).events().push(
                RenderEvent::Draw(*command),
            ),
            r is Err ==> final(self).events() == old(self).events(),
    ;

    /// Commit the current clip's buffered content to its real destination.
    /// The one operation that may perform device I/O.
    fn flush(&mut self) -> (r: Result<(), RendererError>)
        requires
            old(self).inv(),
        ensures
            final(self).inv(),
            final(self).width_spec() == old(self).width_spec(),
            final(self).height_spec() == old(self).height_spec(),
            final(self).chunk_spec() == old(self).chunk_spec(),
            r is Ok ==> final(self).events() == old(self).events().push(RenderEvent::Flush),
            r is Err ==> final(self).events() == old(self).events(),
    ;
}

} // verus!
