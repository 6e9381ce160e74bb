//! The text of the status bar.

use vstd::prelude::*;
use vstd::string::StringExecFns;
use crate::git::LineType;
use crate::text::{decimal, push_decimal};
use super::{App, filter_label, filter_label_exec, shown_count};
use super::mode::{Focus, Mode, step_label};

verus! {

/// The line counts and the filter, as the status bar starts them.
pub open spec fn stats_text(app: App) -> Seq<char> {
    let n = app.files.len() as int;
    "+"@ + decimal(shown_count(app.files@, app.filter, LineType::Added, n)) + " -"@ + decimal(
        shown_count(app.files@, app.filter, LineType::Removed, n),
    ) + " ["@ + filter_label(app.filter) + "]  "@
}

/// The key help of the file pane.
pub open spec fn files_help() -> Seq<char> {
    "q:quit  h/l:focus  j/k:nav  ]/[:file  d/u:page  enter:open  space:toggle  s:filter  U:untracked  b:branch  c:commit  |:split  S:global  r:refresh"@
}

/// The key help of the diff pane, around the name of the scroll step.
pub open spec fn diff_help(step: Seq<char>) -> Seq<char> {
    "q:quit  h:focus  j/k:"@ + step
        + "  J/K:line  d/u:page  g/G:top/bot  y:copy  Y:clean  /:search  s:filter  v:scroll  U:untracked  b:branch  c:commit  |:split  S:global  r:refresh"@
}

/// What the status bar shows: the keys of a popup; else the message; else
/// the position among the search results; else the line counts, the filter
/// and the keys of the focused pane.
pub open spec fn status_line(app: App) -> Seq<char> {
    match app.mode {
        Mode::BranchSelect | Mode::CommitSelect => "j/k:nav  Enter:select  Esc:cancel"@,
        Mode::SearchContent | Mode::SearchFilename | Mode::GlobalSearch => "Enter:confirm  Esc:cancel"@,
        Mode::Help => "q/Esc:close"@,
        Mode::Normal => match app.message {
            Some(m) => m@,
            None => if app.search_results.len() > 0 {
                "Result "@ + decimal((app.selected_search_result + 1) as nat) + "/"@ + decimal(
                    app.search_results.len() as nat,
                ) + "    n:next  N:prev  Esc:clear"@
            } else {
                match app.focus {
                    Focus::Files => stats_text(app) + files_help(),
                    Focus::Diff => stats_text(app) + diff_help(step_label(app.scroll_step)),
                }
            },
        },
    }
}

/// The text of the status bar (see `status_line`).
pub fn status_text(app: &App) -> (r: String)
    requires
        app.sizes_ok(),
    ensures
        r@ == status_line(*app),
{
    match app.mode {
        Mode::BranchSelect | Mode::CommitSelect => {
            return "j/k:nav  Enter:select  Esc:cancel".to_owned();
        },
        Mode::SearchContent | Mode::SearchFilename | Mode::GlobalSearch => {
            return "Enter:confirm  Esc:cancel".to_owned();
        },
        Mode::Help => {
            return "q/Esc:close".to_owned();
        },
        Mode::Normal => {},
    }
    match &app.message {
        Some(m) => {
            return m.clone();
        },
        None => {},
    }
    if app.search_results.len() > 0 {
        let mut s = "Result ".to_owned();
        push_decimal(&mut s, app.selected_search_result + 1);
        s.append("/");
        push_decimal(&mut s, app.search_results.len());
        s.append("    n:next  N:prev  Esc:clear");
        return s;
    }
    let (added, removed) = app.total_stats();
    let mut s = "+".to_owned();
    push_decimal(&mut s, added);
    s.append(" -");
    push_decimal(&mut s, removed);
    s.append(" [");
    s.append(filter_label_exec(app.filter));
    s.append("]  ");
    assert(s@ == stats_text(*app));
    match app.focus {
        Focus::Files => {
            s.append(
                "q:quit  h/l:focus  j/k:nav  ]/[:file  d/u:page  enter:open  space:toggle  s:filter  U:untracked  b:branch  c:commit  |:split  S:global  r:refresh",
            );
        },
        Focus::Diff => {
            s.append("q:quit  h:focus  j/k:");
            s.append(app.scroll_step.label());
            s.append(
                "  J/K:line  d/u:page  g/G:top/bot  y:copy  Y:clean  /:search  s:filter  v:scroll  U:untracked  b:branch  c:commit  |:split  S:global  r:refresh",
            );
        },
    }
    s
}

impl App {
    /// The text of the status bar (see `status_line`).
    pub fn status_text(&self) -> (r: String)
        requires
            self.sizes_ok(),
        ensures
            r@ == status_line(*self),
    {
        status_text(self)
    }
}

} // verus!
