//! Core logic of a terminal viewer for git diffs: argument parsing, diff
//! and status parsing, the file tree, search and the navigation state.

pub mod text;
pub mod order;
pub mod git;
pub mod cli;
pub mod search;
pub mod app;
pub mod view;
