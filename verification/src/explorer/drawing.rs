//! What holds of all that the explorer draws.

use vstd::prelude::*;

use super::render::{cell_at, columns_of, has_room, inner_width, laid_out, last_flag, Rect};
use super::ExplorerView;
use crate::distinct::apart;
use crate::guides::{flags_tell_last, has_next};
use crate::path::same_path;
use crate::tree::tree_last_flags;
use crate::width::char_columns;

verus! {

/// Drawing the explorer leaves its cursor in view, and leaves no row empty while there are
/// items above the first row. Nothing but the scroll offset changes.
pub proof fn render_shows_cursor(e: ExplorerView, area: Rect)
    requires
        has_room(area),
        e.cursor < e.items().len(),
    ensures
        ({
            let after = e.after_render(area);
            &&& after == (ExplorerView { scroll_offset: after.scroll_offset, ..e })
            &&& after.scroll_offset <= after.cursor < after.scroll_offset + area.height
            &&& after.scroll_offset == 0 || after.scroll_offset + area.height <= e.items().len()
        }),
{
}

/// Drawing the explorer again in the same area changes nothing, wherever its cursor is.
pub proof fn render_twice(e: ExplorerView, area: Rect)
    ensures
        e.after_render(area).after_render(area) == e.after_render(area),
{
}

/// The rows are as many as there is room and items for, from the top of the area down, and
/// just one of them is that of the cursor. It alone is filled, and it has the style of a
/// selection.
pub proof fn rows_in_order(e: ExplorerView, area: Rect)
    requires
        has_room(area),
        e.cursor < e.items().len(),
    ensures
        ({
            let after = e.after_render(area);
            let rows = after.rows_in(area);
            let selected = after.cursor - after.scroll_offset;
            &&& rows.len() == if e.items().len() < area.height {
                e.items().len() as int
            } else {
                area.height as int
            }
            &&& 0 <= selected < rows.len()
            &&& forall|k: int|
                0 <= k < rows.len() ==> (#[trigger] rows[k]).y == area.y + k && rows[k].fill == (k
                    == selected) && (rows[k].style.scope is Text) == (k != selected)
        }),
{
    render_shows_cursor(e, area);
}

proof fn lemma_laid_out(text: Seq<char>, widths: Seq<Option<usize>>, column: int, end: int)
    requires
        text.len() == widths.len(),
        0 <= column,
        end <= 0x10000,
    ensures
        laid_out(text, widths, column, end).len() <= text.len(),
        forall|i: int|
            0 <= i < laid_out(text, widths, column, end).len() ==> column <= (#[trigger] laid_out(
                text,
                widths,
                column,
                end,
            )[i]).column < end && laid_out(text, widths, column, end)[i].symbol == text[i],
    decreases text.len(),
{
    let cells = laid_out(text, widths, column, end);
    if text.len() == 0 || column >= end || column + columns_of(widths[0]) > end {
    } else {
        let next = column + columns_of(widths[0]);
        let rest = laid_out(text.drop_first(), widths.drop_first(), next, end);
        lemma_laid_out(text.drop_first(), widths.drop_first(), next, end);
        assert(cells == seq![cell_at(column, text[0])] + rest);
        assert forall|i: int| 0 <= i < cells.len() implies column <= (#[trigger] cells[i]).column
            < end && cells[i].symbol == text[i] by {
            if i > 0 {
                assert(cells[i] == rest[i - 1]);
                assert(text.drop_first()[i - 1] == text[i]);
            }
        }
    }
}

/// A row shows the beginning of its text, and no character outside of the area or on its
/// border.
pub proof fn row_inside_area(e: ExplorerView, area: Rect, i: int)
    requires
        area.x + area.width <= 0x10000,
        0 <= i < e.items().len(),
    ensures
        ({
            let text = e.row_text(e.items()[i]);
            let cells = e.row_for(area, i).cells;
            &&& cells.len() <= text.len()
            &&& forall|k: int|
                0 <= k < cells.len() ==> area.x <= (#[trigger] cells[k]).column < area.x
                    + inner_width(area) && cells[k].symbol == text[k]
        }),
{
    let text = e.row_text(e.items()[i]);
    lemma_laid_out(
        text,
        text.map_values(|c: char| char_columns(c)),
        area.x as int,
        area.x + inner_width(area),
    );
}

proof fn lemma_last_flag(flags: Seq<(Seq<u8>, bool)>, path: Seq<u8>, i: int)
    requires
        0 <= i < flags.len(),
        same_path(flags[i].0, path),
        forall|j: int| i < j < flags.len() ==> !same_path((#[trigger] flags[j]).0, path),
    ensures
        last_flag(flags, path) == flags[i].1,
    decreases flags.len(),
{
    if i < flags.len() - 1 {
        let ahead = flags.drop_last();
        assert(!same_path(flags[flags.len() - 1].0, path));
        assert forall|j: int| i < j < ahead.len() implies !same_path((#[trigger] ahead[j]).0, path) by {
            assert(ahead[j] == flags[j]);
        }
        lemma_last_flag(ahead, path, i);
    }
}

/// The branch that leads to a row ends there if no sibling follows, and else goes on.
pub proof fn guide_ends_at_last(e: ExplorerView, i: int)
    requires
        e.well_formed(),
        apart(e.items()),
        0 <= i < e.items().len(),
    ensures
        last_flag(tree_last_flags(e.root), e.items()[i].path) == !has_next(e.items(), i),
{
    let flags = tree_last_flags(e.root);
    let all = e.items();
    flags_tell_last(e.root);
    assert(flags[i].0 == all[i].path);
    assert forall|j: int| i < j < flags.len() implies !same_path(
        (#[trigger] flags[j]).0,
        all[i].path,
    ) by {
        assert(flags[j].0 == all[j].path);
        assert(!same_path(all[i].path, all[j].path));
    }
    lemma_last_flag(flags, all[i].path, i);
}

}
