pub mod pane_view;
pub mod split_tree;

pub use split_tree::{Direction, Orientation, PaneId, Rect, SplitId, SplitTree};
