//! What the panes show, computed from the viewer state: titles, the
//! visible rows, and the marked pieces of each row. Drawing them is left
//! to the terminal front end.

use vstd::prelude::*;
use crate::app::App;
use crate::app::navigation::sat_sub;

pub mod pieces;
pub mod diff_pane;
pub mod panels;

verus! {

/// Sets the heights of the file pane and of the diff pane from the heights
/// of their areas, less the two border rows.
pub fn set_pane_heights(app: &mut App, tree_area: u16, diff_area: u16)
    requires
        old(app).wf(),
    ensures
        final(app).wf(),
        *final(app) == (App {
            tree_visible_height: sat_sub(tree_area as int, 2) as usize,
            diff_visible_height: sat_sub(diff_area as int, 2) as usize,
            ..*old(app)
        }),
{
    app.tree_visible_height = if tree_area >= 2 {
        (tree_area - 2) as usize
    } else {
        0
    };
    app.diff_visible_height = if diff_area >= 2 {
        (diff_area - 2) as usize
    } else {
        0
    };
}

} // verus!
