//! The small value types of the viewer state.

use vstd::prelude::*;
use crate::git::LineType;

verus! {

/// Which input the key handler serves.
#[derive(Debug, Clone, Copy, PartialEq, Eq, Structural)]
pub enum Mode {
    Normal,
    SearchContent,
    SearchFilename,
    GlobalSearch,
    BranchSelect,
    CommitSelect,
    Help,
}

/// Which pane has the focus.
#[derive(Debug, Clone, Copy, PartialEq, Eq, Structural)]
pub enum Focus {
    Files,
    Diff,
}

/// Which files the tree shows.
#[derive(Debug, Clone, Copy, PartialEq, Eq, Structural)]
pub enum Filter {
    All,
    Staged,
    Unstaged,
}

/// How far one scroll step in the diff moves.
#[derive(Debug, Clone, Copy, PartialEq, Eq, Structural)]
pub enum ScrollStep {
    Hunk,
    Line,
    Page,
}

/// The step after `s` in the cycle hunk, line, page.
pub open spec fn next_step(s: ScrollStep) -> ScrollStep {
    match s {
        ScrollStep::Hunk => ScrollStep::Line,
        ScrollStep::Line => ScrollStep::Page,
        ScrollStep::Page => ScrollStep::Hunk,
    }
}

/// The label of a scroll step.
pub open spec fn step_label(s: ScrollStep) -> Seq<char> {
    match s {
        ScrollStep::Hunk => "hunk"@,
        ScrollStep::Line => "line"@,
        ScrollStep::Page => "page"@,
    }
}

impl ScrollStep {
    /// The next scroll step in the cycle hunk, line, page.
    pub fn next(self) -> (r: Self)
        ensures
            r == next_step(self),
    {
        match self {
            ScrollStep::Hunk => ScrollStep::Line,
            ScrollStep::Line => ScrollStep::Page,
            ScrollStep::Page => ScrollStep::Hunk,
        }
    }

    /// The name of the scroll step.
    pub fn label(self) -> (r: &'static str)
        ensures
            r@ == step_label(self),
    {
        match self {
            ScrollStep::Hunk => "hunk",
            ScrollStep::Line => "line",
            ScrollStep::Page => "page",
        }
    }
}

/// Cycling the scroll step three times comes back to where it started, and
/// no fewer steps do.
pub proof fn law_scroll_step_cycle(s: ScrollStep)
    ensures
        next_step(next_step(next_step(s))) == s,
        next_step(s) != s,
        next_step(next_step(s)) != s,
{
}

/// One line of the diff view.
#[derive(Debug, Clone)]
pub struct DiffLine {
    pub content: String,
    pub line_type: LineType,
    pub hunk_index: usize,
}

/// One row of the file tree.
#[derive(Debug, Clone)]
pub struct TreeEntry {
    pub name: String,
    pub full_path: String,
    pub depth: usize,
    pub is_dir: bool,
    pub expanded: bool,
    pub file_index: Option<usize>,
    pub status: Option<char>,
    pub added: usize,
    pub removed: usize,
}

} // verus!
