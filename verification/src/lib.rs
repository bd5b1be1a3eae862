//! Finds the boxes and the connector lines of a text diagram drawn with the
//! glyphs `| - . , ' < >`, and decides how a viewer of such a diagram moves.

pub mod geometry;
pub mod grid;
pub mod scan;
pub mod path;
pub mod edges;
pub mod render;
pub mod viewer;

pub use edges::edges;
pub use geometry::{border, border_in_dir, path_contains, Direction, Point, TBox};
pub use grid::{can_go, Lines};
pub use path::{scan_path, PathIter};
pub use render::{simp_draw, style_at, Style, Token};
pub use scan::{boxes, scan_dir, top_lefts};
pub use viewer::{command_for, find_box, move_inside, Command, Event, Viewer};
