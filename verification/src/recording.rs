//! A renderer whose only backing store is its own trace.
//!
//! It paints nothing; it keeps the exact sequence of operations issued to it
//! as a value that callers can read back. That makes the per-frame damage
//! contract of the display list observable from ordinary code and from tests.

use vstd::prelude::*;

use crate::model::Command;
use crate::model::RendererError;
use crate::renderer::RenderEvent;
use crate::renderer::Renderer;

verus! {

/// A renderer that records every operation issued to it and succeeds always,
/// except for the misaligned clip offsets every renderer must reject.
pub struct RecordingRenderer {
    width: u32,
    height: u32,
    chunk_width: u32,
    chunk_height: u32,
    log: Vec<RenderEvent>,
}

impl RecordingRenderer {
    /// A recording renderer for a `width` by `height` canvas repainted in
    /// `chunk_width` by `chunk_height` tiles.
    pub fn new(width: u32, height: u32, chunk_width: u32, chunk_height: u32) -> (r: Self)
        requires
            chunk_width > 0,
            chunk_height > 0,
            width as int + chunk_width as int <= u32::MAX as int,
            height as int + chunk_height as int <= u32::MAX as int,
        ensures
            r.inv(),
            r.width_spec() == width,
            r.height_spec() == height,
            r.chunk_spec() == (chunk_width, chunk_height),
            r.events() == Seq::<RenderEvent>::empty(),
    {
        let r = RecordingRenderer { width, height, chunk_width, chunk_height, log: Vec::new() };
        proof {
            assert(r.events() =~= Seq::<RenderEvent>::empty());
        }
        r
    }

    /// The operations recorded so far, oldest first.
    pub fn recorded(&self) -> (r: &Vec<RenderEvent>)
        ensures
            r@ == self.events(),
    {
        &self.log
    }
}

impl Renderer for RecordingRenderer {
    closed spec fn width_spec(&self) -> u32 {
        self.width
    }

    closed spec fn height_spec(&self) -> u32 {
        self.height
    }

    closed spec fn chunk_spec(&self) -> (u32, u32) {
        (self.chunk_width, self.chunk_height)
    }

    closed spec fn events(&self) -> Seq<RenderEvent> {
        self.log@
    }

    closed spec fn inv(&self) -> bool {
        self.chunk_width > 0 && self.chunk_height > 0
            && self.width as int + self.chunk_width as int <= u32::MAX as int
            && self.height as int + self.chunk_height as int <= u32::MAX as int
    }

    proof fn inv_facts(&self) {
    }

    fn width(&self) -> (r: u32) {
        self.width
    }

    fn height(&self) -> (r: u32) {
        self.height
    }

    fn chunk_size(&self) -> (r: (u32, u32)) {
        (self.chunk_width, self.chunk_height)
    }

    fn set_chunk(&mut self, x: u32, y: u32) -> (r: Result<(), RendererError>)
        ensures
            r is Err <==> !(x % old(self).chunk_spec().0 == 0 && y % old(self).chunk_spec().1
                == 0),
            r is Err ==> r->Err_0 == (RendererError::InvalidChunkOffset { x, y }),
    {
        if (x % self.chunk_width != 0) || (y % self.chunk_height != 0) {
            return Err(RendererError::InvalidChunkOffset { x, y });
        }
        self.log.push(RenderEvent::SetChunk(x, y));
        Ok(())
    }

    fn clear(&mut self) -> (r: Result<(), RendererError>)
        ensures
            r is Ok,
    {
        self.log.push(RenderEvent::Clear);
        Ok(())
    }

    fn draw(&mut self, command: &Command) -> (r: Result<(), RendererError>)
        ensures
            r is Ok,
    {
        self.log.push(RenderEvent::Draw(*command));
        Ok(())
    }

    fn flush(&mut self) -> (r: Result<(), RendererError>)
        ensures
            r is Ok,
    {
        self.log.push(RenderEvent::Flush);
        Ok(())
    }
}

} // verus!
