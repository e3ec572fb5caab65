//! Split-pane layout state: a binary tree of splits over panes, with
//! collapsing, maximizing, resizing and pane drag-and-drop.
pub mod handle;
pub mod state;
pub mod widget;
