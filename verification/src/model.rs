//! Plain data carried through the engine: rectangles, colors, draw commands
//! and the error taxonomy shared by the display list and its renderers.

use vstd::prelude::*;

verus! {

/// Failure of a backing store behind a generic renderer.
#[derive(Clone, Copy, PartialEq, Eq, Structural, Debug)]
pub enum RenderError {
    BackingError,
}

/// An axis-aligned rectangle in pixel coordinates. Callers are expected to
/// keep `x1 <= x2` and `y1 <= y2`; the type itself does not enforce it.
#[derive(Clone, Copy, PartialEq, Eq, Structural, Debug)]
pub struct BoundingBox {
    pub x1: u32,
    pub y1: u32,
    pub x2: u32,
    pub y2: u32,
}

impl BoundingBox {
    pub fn new(x1: u32, y1: u32, x2: u32, y2: u32) -> (r: Self)
        ensures
            r == (BoundingBox { x1, y1, x2, y2 }),
    {
        Self { x1, y1, x2, y2 }
    }
}

/// `b` fully contains `clip`: every pixel of `clip` lies inside `b`.
/// This is a bounding-box test only; it is exact for filled rectangles.
pub open spec fn spec_covers(b: BoundingBox, clip: BoundingBox) -> bool {
    b.x1 <= clip.x1 && b.x2 >= clip.x2 && b.y1 <= clip.y1 && b.y2 >= clip.y2
}

/// `b` and `clip` share at least one point (for non-inverted boxes).
/// This too is a bounding-box approximation, as the design intends.
pub open spec fn spec_intersects(b: BoundingBox, clip: BoundingBox) -> bool {
    b.x1 <= clip.x2 && b.x2 >= clip.x1 && b.y1 <= clip.y2 && b.y2 >= clip.y1
}

/// An RGB triple of 8-bit channels. Monochrome renderers threshold it:
/// any nonzero channel paints a lit pixel.
#[derive(Clone, Copy, PartialEq, Eq, Structural, Debug)]
pub struct Rgb {
    pub r: u8,
    pub g: u8,
    pub b: u8,
}

impl Rgb {
    pub fn new(r: u8, b: u8, g: u8) -> (c: Self)
        ensures
            c == (Rgb { r, g, b }),
    {
        Self { r, g, b }
    }
}

/// The closed set of shape kinds a command can carry.
#[derive(Clone, Copy, PartialEq, Eq, Structural, Debug)]
pub enum CommandType {
    Null,
    Rect(Rgb),
}

/// The two shape kinds agree on their variant alone, payloads aside.
pub open spec fn spec_same_flavor(a: CommandType, b: CommandType) -> bool {
    (a is Null && b is Null) || (a is Rect && b is Rect)
}

/// One layered draw command: a generation stamp, a bounding box and a shape.
#[derive(Clone, Copy, PartialEq, Eq, Structural, Debug)]
pub struct Command {
    pub epoch: u8,
    pub bounds: BoundingBox,
    pub flavor: CommandType,
}

impl Command {
    /// The command every slot starts from: an empty shape at the origin,
    /// stamped with generation zero.
    pub fn null() -> (c: Self)
        ensures
            c == spec_null_command(),
    {
        Command {
            epoch: 0,
            bounds: BoundingBox { x1: 0, y1: 0, x2: 0, y2: 0 },
            flavor: CommandType::Null,
        }
    }

    /// A solid filled rectangle, not yet stamped with a generation.
    pub fn new_rect(bounds: BoundingBox, rgb: Rgb) -> (c: Self)
        ensures
            c == (Command { epoch: 0, bounds, flavor: CommandType::Rect(rgb) }),
    {
        Command { epoch: 0, bounds, flavor: CommandType::Rect(rgb) }
    }

    /// Whether this command's bounds fully contain `clip`. Exact only for
    /// shapes that fill their bounds, which all current kinds do.
    pub fn covers(&self, clip: &BoundingBox) -> (r: Result<bool, RendererError>)
        ensures
            r is Ok && r->Ok_0 == spec_covers(self.bounds, *clip),
    {
        let covers = (self.bounds.x1 <= clip.x1) && (self.bounds.x2 >= clip.x2)
            && (self.bounds.y1 <= clip.y1) && (self.bounds.y2 >= clip.y2);
        Ok(covers)
    }

    /// Whether this command's bounds overlap `clip` at all.
    pub fn intersects(&self, clip: &BoundingBox) -> (r: Result<bool, RendererError>)
        ensures
            r is Ok && r->Ok_0 == spec_intersects(self.bounds, *clip),
    {
        let intersects = (self.bounds.x1 <= clip.x2) && (self.bounds.x2 >= clip.x1)
            && (self.bounds.y1 <= clip.y2) && (self.bounds.y2 >= clip.y1);
        Ok(intersects)
    }
}

/// Decide variant equality of two shape kinds, payloads aside.
pub fn same_flavor(a: CommandType, b: CommandType) -> (r: bool)
    ensures
        r == spec_same_flavor(a, b),
{
    match (a, b) {
        (CommandType::Null, CommandType::Null) => true,
        (CommandType::Rect(_), CommandType::Rect(_)) => true,
        _ => false,
    }
}

pub open spec fn spec_null_command() -> Command {
    Command {
        epoch: 0,
        bounds: BoundingBox { x1: 0, y1: 0, x2: 0, y2: 0 },
        flavor: CommandType::Null,
    }
}

/// When what a run emitted so far plus what remains of the plan equals the
/// base trace plus the whole plan, and something does remain, the emitted
/// part is the base plus a proper prefix of the plan. Every aborted frame
/// or flush leaves its trace in this shape: nothing follows the failing
/// operation.
pub proof fn lemma_emitted_is_proper_prefix<T>(
    base: Seq<T>,
    emitted: Seq<T>,
    rest: Seq<T>,
    plan: Seq<T>,
)
    requires
        emitted + rest == base + plan,
        base.len() <= emitted.len(),
        rest.len() > 0,
    ensures
        exists|n: int| 0 <= n < plan.len() && emitted == base + plan.subrange(0, n),
{
    let n = emitted.len() - base.len();
    assert((emitted + rest).len() == emitted.len() + rest.len());
    assert((base + plan).len() == base.len() + plan.len());
    assert(emitted.len() + rest.len() == base.len() + plan.len());
    assert(emitted =~= base + plan.subrange(0, n)) by {
        assert forall|k: int| 0 <= k < emitted.len() implies emitted[k] == (base + plan.subrange(
            0,
            n,
        ))[k] by {
            assert(emitted[k] == (emitted + rest)[k]);
            assert((emitted + rest)[k] == (base + plan)[k]);
        }
    }
    assert(0 <= n < plan.len() && emitted == base + plan.subrange(0, n));
}

/// Focus a whole-plan trace equation on one tile: when the emitted trace at
/// the start of a tile plus the remaining columns equals the base plus the
/// whole plan, the tile's own events followed by everything after it make
/// up exactly the rest of the plan.
pub proof fn lemma_plan_focus<T>(
    e0: Seq<T>,
    plan: Seq<T>,
    col_start: Seq<T>,
    tile_start: Seq<T>,
    te: Seq<T>,
    ce_next: Seq<T>,
    fe_next: Seq<T>,
    ce_here: Seq<T>,
    ce_first: Seq<T>,
    fe_here: Seq<T>,
)
    requires
        col_start + fe_here == e0 + plan,
        fe_here == ce_first + fe_next,
        tile_start + ce_here == col_start + ce_first,
        ce_here == te + ce_next,
    ensures
        tile_start + (te + (ce_next + fe_next)) == e0 + plan,
{
    assert(tile_start + (te + (ce_next + fe_next)) =~= (tile_start + ce_here) + fe_next);
    assert((col_start + ce_first) + fe_next =~= col_start + (ce_first + fe_next));
}

/// Failure of a renderer operation.
#[derive(Clone, Copy, PartialEq, Eq, Structural, Debug)]
pub enum RendererError {
    BackingError,
    InvalidChunkOffset { x: u32, y: u32 },
}

/// Failure of a display-list operation.
#[derive(Clone, Copy, PartialEq, Eq, Structural, Debug)]
pub enum DisplayListError {
    IndexOutOfRange,
    UpdateFlavorMismatch(CommandType, CommandType),
    RenderError(RendererError),
}

impl From<RendererError> for DisplayListError {
    fn from(value: RendererError) -> (r: Self)
        ensures
            r == DisplayListError::RenderError(value),
    {
        DisplayListError::RenderError(value)
    }
}

impl vstd::std_specs::convert::FromSpecImpl<RendererError> for DisplayListError {
    open spec fn obeys_from_spec() -> bool {
        true
    }

    open spec fn from_spec(value: RendererError) -> Self {
        DisplayListError::RenderError(value)
    }
}

} // verus!
