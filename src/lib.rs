//! A terminal user-interface toolkit: a layout engine that divides a grid of
//! cells into a tree of panes, and a styled-text document model rendered into
//! those panes with cursor and selection overlays.

mod atext;
mod buffer;
mod document;
mod geometry;
mod handler;
mod splittree;
mod style;

pub use atext::{AText, StyledChar};
pub use buffer::{
    adjust_for_seletions, get_line_ranges, to_line_range, RenderLine, RenderPlan, Selection,
    TextPosition, View,
};
pub use document::Document;
pub use geometry::{
    range, rect, BufferPosition, BufferType, Orientation, OverlapDescription,
    RangeCompatibleNumber, Range, Rect, Size,
};
pub use handler::{InputEvent, KeyCode, SimpleLineHandler, SimpleLineHandlerResult};
pub use splittree::{BorderInfo, BorderMap, Split, SplitContent, SplitMap, SplitSize, SplitTree};
pub use style::{Color, Style, StyledRange, REVERSE_ATTRIBUTE};
