//! Moving the cursor, and keeping it in view.

use vstd::prelude::*;

use super::{ExplorerView, TreeExplorer};

verus! {

/// Where the cursor goes from a position among `len` items: down, but not past the last
/// one, or up, but not past the first.
pub open spec fn moved_cursor(cursor: int, delta: int, len: int) -> int {
    if delta > 0 {
        if cursor + delta < len - 1 {
            cursor + delta
        } else {
            len - 1
        }
    } else if cursor + delta > 0 {
        cursor + delta
    } else {
        0
    }
}

/// The scroll offset that keeps the cursor in view in a number of rows: the nearest one.
pub open spec fn scrolled_to(scroll_offset: int, cursor: int, rows: int) -> int {
    if cursor < scroll_offset {
        cursor
    } else if cursor >= scroll_offset + rows {
        cursor - (rows - 1)
    } else {
        scroll_offset
    }
}

/// The rows of an area inside its border.
pub open spec fn rows_inside(area_height: int) -> int {
    if area_height > 2 {
        area_height - 2
    } else {
        0
    }
}

impl ExplorerView {
    /// The explorer after its cursor moved in an area of some height.
    pub open spec fn after_move(self, delta: int, area_height: int) -> ExplorerView {
        let cursor = moved_cursor(self.cursor as int, delta, self.items().len() as int);
        ExplorerView {
            cursor: cursor as nat,
            scroll_offset: scrolled_to(
                self.scroll_offset as int,
                cursor,
                rows_inside(area_height),
            ) as nat,
            ..self
        }
    }
}

impl TreeExplorer {
    /// Moves the cursor, and scrolls just as far as it takes to keep it in view. An area
    /// without a row inside its border can only show a cursor that is above it.
    pub fn move_cursor(&mut self, delta: i32, area_height: u16)
        requires
            area_height > 2 || moved_cursor(
                old(self)@.cursor as int,
                delta as int,
                old(self)@.items().len() as int,
            ) < old(self)@.scroll_offset,
        ensures
            final(self)@ == old(self)@.after_move(delta as int, area_height as int),
            final(self).status_map() == old(self).status_map(),
            final(self)@.scroll_offset <= final(self)@.cursor,
            area_height > 2 ==> final(self)@.cursor < final(self)@.scroll_offset + rows_inside(
                area_height as int,
            ),
            delta > 0 || old(self)@.cursor < old(self)@.items().len() ==> final(self)@.cursor
                < old(self)@.items().len(),
    {
        let len = self.visible_items().len();
        assert(len == self@.items().len());
        let cursor: usize = if delta > 0 {
            let target = self.cursor.saturating_add(delta as usize);
            if target < len - 1 {
                target
            } else {
                len - 1
            }
        } else {
            let back = (-(delta as i64)) as usize;
            self.cursor.saturating_sub(back)
        };
        self.cursor = cursor;
        let rows = area_height.saturating_sub(2) as usize;
        if cursor < self.scroll_offset {
            self.scroll_offset = cursor;
        } else if cursor - self.scroll_offset >= rows {
            self.scroll_offset = cursor - (rows - 1);
        }
    }
}

}
