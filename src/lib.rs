//! Widget composition and pixel compositing for a horizontal status bar.
//!
//! Components render into local buffers of optional pixels, a row lays them out on a
//! canvas, and the compositor flattens the canvas onto an opaque background. Pixels are
//! packed ARGB8888 values (`alpha << 24 | red << 16 | green << 8 | blue`).
pub mod colors;
pub mod components;
pub mod compositor;
pub mod configuration;
pub mod widgets;

pub use colors::{ArgbColor, RgbColor};
pub use components::{
    BoundingBox, Component, Element, GlyphCoverage, Item, Label, Padding, TextRaster,
};
pub use compositor::{blend_pixels, flatten, frame_bytes};
pub use configuration::{frame_due, SimbarConfig, ThemeConfig};
pub use widgets::{
    compose_row, Anchor, CenterWidgets, DrawSize, LeftWidgets, RightWidgets, SimbarWidgets,
    Widgets,
};
