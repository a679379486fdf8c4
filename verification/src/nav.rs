//! Per-frame glue between the search cursor and the view: deciding which
//! offsets must move so a found record becomes visible, and moving them.

use vstd::prelude::*;

use crate::errors::ViewerError;
use crate::find::Finder;
use crate::find::FoundRecord;
use crate::rows_view::RowsView;

verus! {

/// The table widget's scroll state that the core coordinates with: first
/// column rendered, how many columns the last frame rendered, and the row
/// offset the widget displays.
pub struct TableState {
    pub cols_offset: usize,
    pub num_cols_rendered: usize,
    pub rows_offset: usize,
}

impl TableState {
    /// A fresh state at the origin; `num_cols_rendered` is updated by the
    /// widget after each frame.
    pub fn new() -> (r: TableState)
        ensures
            r.cols_offset == 0,
            r.num_cols_rendered == 0,
            r.rows_offset == 0,
    {
        TableState { cols_offset: 0, num_cols_rendered: 0, rows_offset: 0 }
    }

    /// Records the row offset the view scrolled to.
    pub fn set_rows_offset(&mut self, n: usize)
        ensures
            *final(self) == (TableState { rows_offset: n, ..*old(self) }),
    {
        self.rows_offset = n;
    }

    /// Moves the first rendered column.
    pub fn set_cols_offset(&mut self, n: usize)
        ensures
            *final(self) == (TableState { cols_offset: n, ..*old(self) }),
    {
        self.cols_offset = n;
    }
}

/// The first column past the rendered range, as the widget computes it: the
/// sum saturated at the integer maximum.
pub open spec fn last_rendered_col(cols_offset: usize, num_cols_rendered: usize) -> int {
    if cols_offset + num_cols_rendered <= usize::MAX {
        cols_offset + num_cols_rendered
    } else {
        usize::MAX as int
    }
}

/// Which offsets must change to bring `found_record` into view: the row
/// offset exactly when its row is outside the current window, and the column
/// offset exactly when its column is outside the rendered column range.
pub fn get_offsets_to_make_visible(
    found_record: FoundRecord,
    rows_view: &RowsView,
    table_state: &TableState,
) -> (r: (Option<usize>, Option<usize>))
    ensures
        r.0 == (if rows_view.window_from() <= found_record.row_index && (
        found_record.row_index as int) < rows_view.window_from() + rows_view.window_height() {
            Option::<usize>::None
        } else {
            Some(found_record.row_index)
        }),
        r.1 == (if table_state.cols_offset <= found_record.column_index && (
        found_record.column_index as int) < last_rendered_col(
            table_state.cols_offset,
            table_state.num_cols_rendered,
        ) {
            Option::<usize>::None
        } else {
            Some(found_record.column_index)
        }),
{
    let new_rows_offset: Option<usize> = if rows_view.in_view(found_record.row_index()) {
        None
    } else {
        Some(found_record.row_index())
    };

    let cols_offset = table_state.cols_offset;
    let num_rendered = table_state.num_cols_rendered;
    let last: usize = if cols_offset > usize::MAX - num_rendered {
        usize::MAX
    } else {
        cols_offset + num_rendered
    };
    let column_index = found_record.first_column();
    let in_cols = column_index >= cols_offset && column_index < last;
    let new_cols_offset: Option<usize> = if in_cols {
        None
    } else {
        Some(column_index)
    };

    (new_rows_offset, new_cols_offset)
}

/// Scrolls the view and the widget state so that `found_record` is visible:
/// the window jumps to the record's row when that row is out of view
/// (saturating against the known bound), and the column offset jumps to the
/// record's column when that column is not rendered. A record already fully
/// visible changes nothing.
pub fn scroll_to_found_record(
    found_record: FoundRecord,
    rows_view: &mut RowsView,
    table_state: &mut TableState,
) -> (r: Result<(), ViewerError>)
    requires
        old(rows_view).wf(),
    ensures
        r is Ok,
        final(rows_view).wf(),
        final(rows_view).src() == old(rows_view).src(),
        final(rows_view).delim() == old(rows_view).delim(),
        final(rows_view).window_height() == old(rows_view).window_height(),
        final(rows_view).cols() == old(rows_view).cols(),
        final(rows_view).filter_spec() == old(rows_view).filter_spec(),
        final(rows_view).exact() == old(rows_view).exact(),
        final(rows_view).sel() == old(rows_view).sel(),
        if old(rows_view).window_from() <= found_record.row_index && (
        found_record.row_index as int) < old(rows_view).window_from() + old(
            rows_view,
        ).window_height() {
            &&& final(rows_view).window_from() == old(rows_view).window_from()
            &&& final(table_state).rows_offset == old(table_state).rows_offset
        } else {
            &&& final(rows_view).window_from() == old(rows_view).clamped_from(
                found_record.row_index as int,
            )
            &&& final(table_state).rows_offset == found_record.row_index
        },
        if old(table_state).cols_offset <= found_record.column_index && (
        found_record.column_index as int) < last_rendered_col(
            old(table_state).cols_offset,
            old(table_state).num_cols_rendered,
        ) {
            final(table_state).cols_offset == old(table_state).cols_offset
        } else {
            final(table_state).cols_offset == found_record.column_index
        },
        final(table_state).num_cols_rendered == old(table_state).num_cols_rendered,
{
    let (new_rows_offset, new_cols_offset) = get_offsets_to_make_visible(
        found_record,
        rows_view,
        table_state,
    );

    if let Some(rows_offset) = new_rows_offset {
        rows_view.set_rows_from(rows_offset)?;
        table_state.set_rows_offset(rows_offset);
    }

    if let Some(cols_offset) = new_cols_offset {
        table_state.set_cols_offset(cols_offset);
    }

    Ok(())
}

/// One frame's cursor upkeep in find mode: a cursor pointing at a match that
/// has scrolled out of view is cleared, and the row hint follows the window's
/// first visible row, so the next navigation re-anchors near the viewport
/// instead of an offscreen match.
pub fn sync_cursor_to_view(finder: &mut Finder, rows_view: &RowsView)
    requires
        old(finder).wf(),
    ensures
        final(finder).wf(),
        final(finder).src() == old(finder).src(),
        final(finder).delim() == old(finder).delim(),
        final(finder).pat() == old(finder).pat(),
        final(finder).scanned() == old(finder).scanned(),
        final(finder).matches_found() == old(finder).matches_found(),
        final(finder).is_done() == old(finder).is_done(),
        final(finder).hint() == rows_view.window_from(),
        final(finder).cur() == (match old(finder).cur() {
            Some(j) => {
                let row = old(finder).matches_found()[j as int].row_index;
                if rows_view.window_from() <= row && (row as int) < rows_view.window_from()
                    + rows_view.window_height() {
                    Some(j)
                } else {
                    None
                }
            },
            None => None,
        }),
{
    match finder.cursor_row_index() {
        Some(row) => {
            if !rows_view.in_view(row) {
                finder.reset_cursor();
            }
        },
        None => {},
    }
    finder.set_row_hint(rows_view.rows_from());
}

} // verus!
