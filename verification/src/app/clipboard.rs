//! The text of the hunk under the diff cursor, for the clipboard, and the
//! message that reports the copy.

use vstd::prelude::*;
use crate::git::{FileChange, Hunk, HunkLine, LineType};
use crate::git::status::{utf8_width, utf8_width_exec};
use crate::text::chars_of;
use super::App;

verus! {

/// The index of the hunk under the diff cursor (the cursor taken at most at
/// the last row), when the selected file has such a hunk.
pub open spec fn cursor_hunk_index(app: App) -> Option<usize> {
    let rows = app.diff_view();
    if app.files.len() == 0 || rows.len() == 0 {
        None
    } else {
        let c = if (app.diff_cursor as int) < rows.len() {
            app.diff_cursor as int
        } else {
            rows.len() - 1
        };
        let h = rows[c].2;
        if (h as int) < app.files@[app.selected_file as int].hunks.len() {
            Some(h)
        } else {
            None
        }
    }
}

/// Each line's content followed by a newline.
pub open spec fn lines_text(ls: Seq<HunkLine>) -> Seq<char>
    decreases ls.len(),
{
    if ls.len() == 0 {
        Seq::empty()
    } else {
        lines_text(ls.drop_last()) + ls.last().content@ + seq!['\n']
    }
}

/// A hunk as text: its header, then its lines, each line ended by a newline.
pub open spec fn hunk_text(h: Hunk) -> Seq<char> {
    h.header@ + seq!['\n'] + lines_text(h.lines@)
}

/// The code of a line: its content without the leading marker when that
/// marker is a one-byte character, else the whole content.
pub open spec fn line_code(c: Seq<char>) -> Seq<char> {
    if c.len() > 0 && utf8_width(c[0]) == 1 {
        c.drop_first()
    } else {
        c
    }
}

/// The code of the added, removed and context lines, each ended by a
/// newline; header and no-newline lines are left out.
pub open spec fn code_text(ls: Seq<HunkLine>) -> Seq<char>
    decreases ls.len(),
{
    if ls.len() == 0 {
        Seq::empty()
    } else {
        let l = ls.last();
        match l.line_type {
            LineType::Header | LineType::NoNewline => code_text(ls.drop_last()),
            _ => code_text(ls.drop_last()) + line_code(l.content@) + seq!['\n'],
        }
    }
}

/// The hunk under the cursor, if any.
fn hunk_at_cursor(app: &App) -> (r: Option<&Hunk>)
    requires
        app.selection_ok(),
    ensures
        match cursor_hunk_index(*app) {
            Some(h) => r matches Some(hk) && *hk == app.files@[app.selected_file as int].hunks@[h as int],
            None => r is None,
        },
{
    if app.files.len() == 0 {
        return None;
    }
    let lines = app.diff_lines();
    if lines.len() == 0 {
        return None;
    }
    let cursor = if app.diff_cursor < lines.len() {
        app.diff_cursor
    } else {
        lines.len() - 1
    };
    assert(super::row_view(lines@[cursor as int]) == app.diff_view()[cursor as int]);
    let hunk_idx = lines[cursor].hunk_index;
    let file = &app.files[app.selected_file];
    if hunk_idx < file.hunks.len() {
        Some(&file.hunks[hunk_idx])
    } else {
        None
    }
}

/// Appends `s` and a newline to `text`.
fn push_line(text: &mut String, s: &str)
    ensures
        final(text)@ == old(text)@ + s@ + seq!['\n'],
{
    let v = chars_of(s);
    let mut i: usize = 0;
    while i < v.len()
        invariant
            i <= v.len(),
            v@ == s@,
            text@ == old(text)@ + s@.take(i as int),
        decreases v.len() - i,
    {
        text.push(v[i]);
        i = i + 1;
        assert(s@.take(i as int) == s@.take(i - 1).push(s@[i - 1]));
    }
    assert(s@.take(s@.len() as int) == s@);
    text.push('\n');
}

/// Appends the code of the line content `s` and a newline to `text`.
fn push_code_line(text: &mut String, s: &str)
    ensures
        final(text)@ == old(text)@ + line_code(s@) + seq!['\n'],
{
    let v = chars_of(s);
    let start: usize = if v.len() > 0 && utf8_width_exec(v[0]) == 1 {
        1
    } else {
        0
    };
    assert(line_code(s@) == v@.subrange(start as int, v@.len() as int));
    let mut i: usize = start;
    while i < v.len()
        invariant
            start <= i <= v.len(),
            text@ == old(text)@ + v@.subrange(start as int, i as int),
        decreases v.len() - i,
    {
        text.push(v[i]);
        i = i + 1;
        assert(v@.subrange(start as int, i as int) == v@.subrange(start as int, i - 1).push(v@[i - 1]));
    }
    text.push('\n');
}

/// The text of the hunk under the diff cursor, header included, or `None`
/// when there is no such hunk.
pub fn copy_hunk(app: &App) -> (r: Option<String>)
    requires
        app.selection_ok(),
    ensures
        match cursor_hunk_index(*app) {
            Some(h) => r matches Some(t) && t@ == hunk_text(app.files@[app.selected_file as int].hunks@[h as int]),
            None => r is None,
        },
{
    let hunk = match hunk_at_cursor(app) {
        Some(h) => h,
        None => {
            return None;
        },
    };
    let mut text = String::new();
    push_line(&mut text, hunk.header.as_str());
    assert(text@ == hunk.header@ + seq!['\n'] + lines_text(hunk.lines@.take(0)));
    let mut k: usize = 0;
    while k < hunk.lines.len()
        invariant
            k <= hunk.lines.len(),
            text@ == hunk.header@ + seq!['\n'] + lines_text(hunk.lines@.take(k as int)),
        decreases hunk.lines.len() - k,
    {
        assert(hunk.lines@.take(k + 1).drop_last() == hunk.lines@.take(k as int));
        push_line(&mut text, hunk.lines[k].content.as_str());
        k = k + 1;
    }
    assert(hunk.lines@.take(hunk.lines.len() as int) == hunk.lines@);
    Some(text)
}

/// The code of the hunk under the diff cursor: no header, no markers, no
/// no-newline notes; `None` when there is no such hunk.
pub fn copy_hunk_clean(app: &App) -> (r: Option<String>)
    requires
        app.selection_ok(),
    ensures
        match cursor_hunk_index(*app) {
            Some(h) => r matches Some(t) && t@ == code_text(app.files@[app.selected_file as int].hunks@[h as int].lines@),
            None => r is None,
        },
{
    let hunk = match hunk_at_cursor(app) {
        Some(h) => h,
        None => {
            return None;
        },
    };
    let mut text = String::new();
    assert(text@ == code_text(hunk.lines@.take(0)));
    let mut k: usize = 0;
    while k < hunk.lines.len()
        invariant
            k <= hunk.lines.len(),
            text@ == code_text(hunk.lines@.take(k as int)),
        decreases hunk.lines.len() - k,
    {
        assert(hunk.lines@.take(k + 1).drop_last() == hunk.lines@.take(k as int));
        let line = &hunk.lines[k];
        match line.line_type {
            LineType::Header | LineType::NoNewline => {},
            _ => {
                push_code_line(&mut text, line.content.as_str());
            },
        }
        k = k + 1;
    }
    assert(hunk.lines@.take(hunk.lines.len() as int) == hunk.lines@);
    Some(text)
}

/// The status message after a copy: what was copied when the clipboard took
/// the text, else that there is no clipboard.
pub open spec fn copy_message(clean: bool, copied: bool) -> Seq<char> {
    if !copied {
        "Clipboard not available"@
    } else if clean {
        "Code copied to clipboard"@
    } else {
        "Hunk copied to clipboard"@
    }
}

/// Reports a copy in the status bar: `clean` for the code-only copy,
/// `copied` when the clipboard took the text.
pub fn report_copy(app: &mut App, clean: bool, copied: bool)
    ensures
        final(app).message matches Some(m) && m@ == copy_message(clean, copied),
        *final(app) == (App { message: final(app).message, ..*old(app) }),
{
    let msg = if !copied {
        "Clipboard not available"
    } else if clean {
        "Code copied to clipboard"
    } else {
        "Hunk copied to clipboard"
    };
    app.show_message(msg.to_owned());
}

} // verus!
