//! A lazily materialised directory tree, kept as one flat sequence of
//! depth-tagged entries, with a selection cursor and a stack of the
//! directories descended through.
pub mod app;
pub mod file_tree_state;
pub mod file_tree_widget;
pub mod flat;
pub mod laws;
pub mod paths;
pub mod preview_pane_widget;
pub mod tree;
