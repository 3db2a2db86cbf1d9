//! A retained-mode rendering engine for memory-constrained displays.
//!
//! A fixed-capacity, double-buffered display list of layered draw commands is
//! diffed frame over frame and repainted tile by tile through a renderer
//! contract, so that a device without a full frame buffer can be driven from
//! a single small chunk buffer.

pub mod channel;
pub mod chunked;
pub mod display_list;
pub mod drive;
pub mod laws;
pub mod model;
pub mod recording;
pub mod renderer;

pub use channel::ChannelCommand;
pub use channel::ChannelError;
pub use channel::ChannelItem;
pub use channel::CollectingChannel;
pub use channel::CommandChannel;
pub use chunked::Sh1107Render;
pub use display_list::DisplayList;
pub use recording::RecordingRenderer;
pub use renderer::RenderEvent;
pub use renderer::Renderer;
pub use model::BoundingBox;
pub use model::Command;
pub use model::CommandType;
pub use model::DisplayListError;
pub use model::RenderError;
pub use model::RendererError;
pub use model::Rgb;
