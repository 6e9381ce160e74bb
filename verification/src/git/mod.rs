//! What git reports about changed files: the data model, the parsers of git's
//! output and the command lines the library asks for.

use vstd::prelude::*;
use crate::text::{chars_of, string_of_range, trim, trim_span};

pub mod parse;
pub mod status;

verus! {

/// The kind of one line of a diff.
#[derive(Debug, Clone, Copy, PartialEq, Eq, Structural)]
pub enum LineType {
    Added,
    Removed,
    Context,
    Header,
    NoNewline,
}

/// One line of a hunk, with its leading marker kept in `content`.
#[derive(Debug, Clone)]
pub struct HunkLine {
    pub content: String,
    pub line_type: LineType,
}

/// A hunk: its `@@` header and the lines that follow it.
#[derive(Debug, Clone)]
pub struct Hunk {
    pub header: String,
    pub lines: Vec<HunkLine>,
}

/// A changed file with its diff.
#[derive(Debug, Clone)]
pub struct FileChange {
    pub path: String,
    pub status: char,
    pub staged_status: Option<char>,
    pub unstaged_status: Option<char>,
    pub hunks: Vec<Hunk>,
    pub is_binary: bool,
}

impl View for HunkLine {
    type V = (Seq<char>, LineType);

    open spec fn view(&self) -> (Seq<char>, LineType) {
        (self.content@, self.line_type)
    }
}

impl View for Hunk {
    type V = (Seq<char>, Seq<(Seq<char>, LineType)>);

    open spec fn view(&self) -> (Seq<char>, Seq<(Seq<char>, LineType)>) {
        (self.header@, self.lines@.map_values(|l: HunkLine| l@))
    }
}

/// The views of a sequence of hunks.
pub open spec fn hunks_view(hs: Seq<Hunk>) -> Seq<(Seq<char>, Seq<(Seq<char>, LineType)>)> {
    hs.map_values(|h: Hunk| h@)
}

/// The views of a sequence of strings.
pub open spec fn strings_view(v: Seq<String>) -> Seq<Seq<char>> {
    v.map_values(|s: String| s@)
}

/// A failed git command.
#[derive(Debug)]
pub enum GitError {
    /// git exited unsuccessfully; the message holds its trimmed standard error.
    CommandFailed(String),
}

/// The message of a failed command with standard error `stderr`.
pub open spec fn failure_message(stderr: Seq<char>) -> Seq<char> {
    "git command failed: "@ + trim(stderr)
}

/// Checks a finished git command: success gives `Ok`, failure an error that
/// quotes its trimmed standard error.
pub fn check_git_output(success: bool, stderr: &str) -> (r: Result<(), GitError>)
    ensures
        success <==> r is Ok,
        r matches Err(GitError::CommandFailed(m)) ==> m@ == failure_message(stderr@),
{
    if success {
        return Ok(());
    }
    let v = chars_of(stderr);
    let (a, b) = trim_span(v.as_slice(), 0, v.len());
    assert(v@.subrange(0, v@.len() as int) == v@);
    let t = string_of_range(v.as_slice(), a, b);
    let mut m = "git command failed: ".to_owned();
    let mut i: usize = 0;
    let tv = chars_of(t.as_str());
    while i < tv.len()
        invariant
            i <= tv.len(),
            tv@ == trim(stderr@),
            m@ == "git command failed: "@ + tv@.take(i as int),
        decreases tv.len() - i,
    {
        m.push(tv[i]);
        i = i + 1;
        assert(tv@.take(i as int) == tv@.take(i - 1).push(tv@[i - 1]));
    }
    assert(tv@.take(tv@.len() as int) == tv@);
    Err(GitError::CommandFailed(m))
}

} // verus!
