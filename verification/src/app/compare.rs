//! Comparing against a branch, a commit or a range: picking one, and
//! taking the files that git lists for it.

use vstd::prelude::*;
use crate::git::FileChange;
use super::{App, files_fit, view_reset};
use super::mode::Mode;

verus! {

/// `b` is `a` with the branch picker open on `branches`, or, when there are
/// none, with that said in the status bar.
pub open spec fn branches_opened(a: App, branches: Vec<String>, b: App) -> bool {
    if branches@.len() == 0 {
        b.message matches Some(m) && m@ == "No branches found"@ && b == (App {
            branches,
            selected_branch: 0,
            message: b.message,
            ..a
        })
    } else {
        b == (App { branches, selected_branch: 0, mode: Mode::BranchSelect, ..a })
    }
}

/// `b` is `a` with the commit picker open on `commits`, or, when there are
/// none, with that said in the status bar.
pub open spec fn commits_opened(a: App, commits: Vec<(String, String)>, b: App) -> bool {
    if commits@.len() == 0 {
        b.message matches Some(m) && m@ == "No commits found"@ && b == (App {
            commits,
            selected_commit: 0,
            message: b.message,
            ..a
        })
    } else {
        b == (App { commits, selected_commit: 0, mode: Mode::CommitSelect, ..a })
    }
}

/// Opens the branch picker on the fetched `branches`, or reports that there
/// are none.
pub fn enter_branch_select(app: &mut App, branches: Vec<String>)
    requires
        old(app).wf(),
    ensures
        final(app).wf(),
        branches_opened(*old(app), branches, *final(app)),
{
    let empty = branches.len() == 0;
    app.branches = branches;
    app.selected_branch = 0;
    if empty {
        app.show_message("No branches found".to_owned());
    } else {
        app.mode = Mode::BranchSelect;
    }
}

/// Opens the commit picker on the fetched `commits`, or reports that there
/// are none.
pub fn enter_commit_select(app: &mut App, commits: Vec<(String, String)>)
    requires
        old(app).wf(),
    ensures
        final(app).wf(),
        commits_opened(*old(app), commits, *final(app)),
{
    let empty = commits.len() == 0;
    app.commits = commits;
    app.selected_commit = 0;
    if empty {
        app.show_message("No commits found".to_owned());
    } else {
        app.mode = Mode::CommitSelect;
    }
}

/// `b` is `a` with the new `files` and comparison fields shown as a reset
/// view, and the message `msg`.
pub open spec fn switched(a: App, files: Seq<FileChange>, b: App, msg: Seq<char>) -> bool {
    &&& b.files@ == files
    &&& b.message matches Some(m) && m@ == msg
    &&& exists|r: App|
        view_reset(
            App {
                files: b.files,
                compare_branch: b.compare_branch,
                compare_commit: b.compare_commit,
                compare_range: b.compare_range,
                ..a
            },
            r,
        ) && b == (App { message: b.message, ..r })
}

/// `b` compares `HEAD` against `branch`, with `files`.
pub open spec fn branch_set(a: App, branch: Seq<char>, files: Seq<FileChange>, b: App) -> bool {
    &&& b.compare_commit is None
    &&& b.compare_range is None
    &&& b.compare_branch matches Some(x) && x@ == branch
    &&& switched(a, files, b, "Comparing against: "@ + branch)
}

/// `b` is back on the working tree from a branch comparison, with `files`.
pub open spec fn branch_cleared(a: App, files: Seq<FileChange>, b: App) -> bool {
    &&& b.compare_branch is None
    &&& b.compare_range is None
    &&& b.compare_commit == a.compare_commit
    &&& switched(a, files, b, "Cleared branch comparison"@)
}

/// `b` shows the commit `commit`, with `files`.
pub open spec fn commit_set(a: App, commit: Seq<char>, files: Seq<FileChange>, b: App) -> bool {
    &&& b.compare_branch is None
    &&& b.compare_range is None
    &&& b.compare_commit matches Some(x) && x@ == commit
    &&& switched(a, files, b, "Showing commit: "@ + commit)
}

/// `b` is back on the working tree from a commit, with `files`.
pub open spec fn commit_cleared(a: App, files: Seq<FileChange>, b: App) -> bool {
    &&& b.compare_commit is None
    &&& b.compare_range is None
    &&& b.compare_branch == a.compare_branch
    &&& switched(a, files, b, "Cleared commit view"@)
}

/// `b` compares the range `left..right`, with `files`.
pub open spec fn range_set(a: App, left: Seq<char>, right: Seq<char>, files: Seq<FileChange>, b: App) -> bool {
    &&& b.compare_branch is None
    &&& b.compare_commit is None
    &&& b.compare_range matches Some((l, r)) && l@ == left && r@ == right
    &&& switched(a, files, b, "Comparing range: "@ + left + ".."@ + right)
}

/// `b` is back on the working tree from a range, with `files`.
pub open spec fn range_cleared(a: App, files: Seq<FileChange>, b: App) -> bool {
    &&& b.compare_range is None
    &&& b.compare_branch == a.compare_branch
    &&& b.compare_commit == a.compare_commit
    &&& switched(a, files, b, "Cleared range comparison"@)
}

/// Compares `HEAD` against `branch`, with the files git listed for it.
pub fn set_compare_branch(app: &mut App, branch: &str, files: Vec<FileChange>)
    requires
        old(app).wf(),
        files_fit(files@),
    ensures
        final(app).wf(),
        branch_set(*old(app), branch@, files@, *final(app)),
{
    app.compare_commit = None;
    app.compare_range = None;
    app.files = files;
    app.compare_branch = Some(branch.to_owned());
    app.selected_file = 0;
    let ghost pre = App { selected_file: old(app).selected_file, ..*app };
    app.reset_view_to_files();
    let ghost r = *app;
    app.show_message(crate::text::concat("Comparing against: ", branch));
    assert(view_reset(pre, r));
}

/// Goes back to the working tree from a branch comparison.
pub fn clear_compare_branch(app: &mut App, files: Vec<FileChange>)
    requires
        old(app).wf(),
        files_fit(files@),
    ensures
        final(app).wf(),
        branch_cleared(*old(app), files@, *final(app)),
{
    app.compare_branch = None;
    app.compare_range = None;
    app.files = files;
    app.selected_file = 0;
    let ghost pre = App { selected_file: old(app).selected_file, ..*app };
    app.reset_view_to_files();
    let ghost r = *app;
    app.show_message("Cleared branch comparison".to_owned());
    assert(view_reset(pre, r));
}

/// Shows one commit, with the files git listed for it.
pub fn set_compare_commit(app: &mut App, commit: &str, files: Vec<FileChange>)
    requires
        old(app).wf(),
        files_fit(files@),
    ensures
        final(app).wf(),
        commit_set(*old(app), commit@, files@, *final(app)),
{
    app.compare_branch = None;
    app.compare_range = None;
    app.files = files;
    app.compare_commit = Some(commit.to_owned());
    app.selected_file = 0;
    let ghost pre = App { selected_file: old(app).selected_file, ..*app };
    app.reset_view_to_files();
    let ghost r = *app;
    app.show_message(crate::text::concat("Showing commit: ", commit));
    assert(view_reset(pre, r));
}

/// Goes back to the working tree from a commit.
pub fn clear_compare_commit(app: &mut App, files: Vec<FileChange>)
    requires
        old(app).wf(),
        files_fit(files@),
    ensures
        final(app).wf(),
        commit_cleared(*old(app), files@, *final(app)),
{
    app.compare_commit = None;
    app.compare_range = None;
    app.files = files;
    app.selected_file = 0;
    let ghost pre = App { selected_file: old(app).selected_file, ..*app };
    app.reset_view_to_files();
    let ghost r = *app;
    app.show_message("Cleared commit view".to_owned());
    assert(view_reset(pre, r));
}

/// Compares the range `left..right`, with the files git listed for it.
pub fn set_compare_range(app: &mut App, left: &str, right: &str, files: Vec<FileChange>)
    requires
        old(app).wf(),
        files_fit(files@),
    ensures
        final(app).wf(),
        range_set(*old(app), left@, right@, files@, *final(app)),
{
    app.compare_branch = None;
    app.compare_commit = None;
    app.files = files;
    app.compare_range = Some((left.to_owned(), right.to_owned()));
    app.selected_file = 0;
    let ghost pre = App { selected_file: old(app).selected_file, ..*app };
    app.reset_view_to_files();
    let ghost r = *app;
    let m = crate::text::concat("Comparing range: ", left);
    let m = crate::text::concat(m.as_str(), "..");
    let m = crate::text::concat(m.as_str(), right);
    app.show_message(m);
    assert(view_reset(pre, r));
}

/// Goes back to the working tree from a range.
pub fn clear_compare_range(app: &mut App, files: Vec<FileChange>)
    requires
        old(app).wf(),
        files_fit(files@),
    ensures
        final(app).wf(),
        range_cleared(*old(app), files@, *final(app)),
{
    app.compare_range = None;
    app.files = files;
    app.selected_file = 0;
    let ghost pre = App { selected_file: old(app).selected_file, ..*app };
    app.reset_view_to_files();
    let ghost r = *app;
    app.show_message("Cleared range comparison".to_owned());
    assert(view_reset(pre, r));
}


/// Reports in the status bar that the files of the comparison asked for on
/// the command line could not be loaded, with the reason `err`.
pub fn report_target_failure(app: &mut App, err: &str)
    ensures
        final(app).message matches Some(m) && m@ == "Failed to load target: "@ + err@,
        *final(app) == (App { message: final(app).message, ..*old(app) }),
{
    app.show_message(crate::text::concat("Failed to load target: ", err));
}

} // verus!
