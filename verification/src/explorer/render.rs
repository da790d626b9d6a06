//! What the explorer looks like.

use vstd::prelude::*;
use vstd::string::*;

use super::motion::scrolled_to;
use super::{flag_views, ExplorerView, TreeExplorer};
use crate::icon::icon_of;
use crate::node::{ref_views, TreeNode};
use crate::path::{components_of, same_path, TreePath};
use crate::text::to_chars;
use crate::tree::{tree_last_flags, NodeView};
use crate::width::{char_columns, char_widths};

verus! {

/// A rectangle of the screen.
#[derive(Clone, Copy, PartialEq, Eq, Debug)]
pub struct Rect {
    pub x: u16,
    pub y: u16,
    pub width: u16,
    pub height: u16,
}

/// A place on the screen.
#[derive(Clone, Copy, PartialEq, Eq, Debug)]
pub struct Position {
    pub row: usize,
    pub col: usize,
}

/// How the terminal's cursor looks.
#[derive(Clone, Copy, PartialEq, Eq, Debug)]
pub enum CursorKind {
    Block,
    Bar,
    Underline,
    Hidden,
}

/// A colour of the foreground.
#[derive(Clone, Copy, PartialEq, Eq, Debug)]
pub enum Color {
    Yellow,
    Green,
    Cyan,
    /// A colour of the terminal's palette.
    Indexed(u8),
}

/// The part of a theme that a style comes from.
#[derive(Clone, Copy, PartialEq, Eq, Debug)]
pub enum Scope {
    Text,
    MenuSelected,
    StatuslineInactive,
}

/// A style: that of a scope, in the colour of the foreground that is given, if any.
#[derive(Clone, Copy, PartialEq, Eq, Debug)]
pub struct Style {
    pub scope: Scope,
    pub fg: Option<Color>,
}

/// A character at a column.
#[derive(Clone, Copy, PartialEq, Eq, Debug)]
pub struct Cell {
    pub column: u16,
    pub symbol: char,
}

/// A row to be drawn. Where `fill` is set, the whole row is first filled with blanks in
/// its style.
#[derive(Debug)]
pub struct Row {
    pub y: u16,
    pub style: Style,
    pub fill: bool,
    /// The characters of the row, in the order in which they are drawn.
    pub cells: Vec<Cell>,
}

/// The mathematical value of a [`Row`].
pub struct RowView {
    pub y: int,
    pub style: Style,
    pub fill: bool,
    pub cells: Seq<Cell>,
}

impl Row {
    pub open spec fn view(&self) -> RowView {
        RowView { y: self.y as int, style: self.style, fill: self.fill, cells: self.cells@ }
    }
}

/// The values of a list of rows.
pub open spec fn row_views(rows: Seq<Row>) -> Seq<RowView> {
    rows.map_values(|r: Row| r.view())
}

impl Scope {
    pub open spec fn key_of(self) -> Seq<char> {
        match self {
            Scope::Text => "ui.text"@,
            Scope::MenuSelected => "ui.menu.selected"@,
            Scope::StatuslineInactive => "ui.statusline.inactive"@,
        }
    }

    /// The key of this scope in a theme.
    pub fn key(&self) -> (key: &'static str)
        ensures
            key@ == self.key_of(),
    {
        match self {
            Scope::Text => "ui.text",
            Scope::MenuSelected => "ui.menu.selected",
            Scope::StatuslineInactive => "ui.statusline.inactive",
        }
    }
}

/// The width of an area without the border on its right.
pub open spec fn inner_width(area: Rect) -> int {
    if area.width > 0 {
        area.width - 1
    } else {
        0
    }
}

/// Whether an area has a row and a column inside its border.
pub open spec fn has_room(area: Rect) -> bool {
    inner_width(area) > 0 && area.height > 0
}

/// A scroll offset that leaves no row empty while items are above the first one.
pub open spec fn scrolled_back(scroll_offset: int, count: int, rows: int) -> int {
    let most = if count > rows {
        count - rows
    } else {
        0
    };
    if scroll_offset > most {
        most
    } else {
        scroll_offset
    }
}

/// The columns that a character takes; a control character takes one.
pub open spec fn columns_of(columns: Option<usize>) -> int {
    match columns {
        Some(n) => n as int,
        None => 1,
    }
}

/// A character at a column.
pub open spec fn cell_at(column: int, symbol: char) -> Cell {
    Cell { column: column as u16, symbol }
}

/// The characters of a text that fit between two columns, each at its column.
pub open spec fn laid_out(
    text: Seq<char>,
    widths: Seq<Option<usize>>,
    column: int,
    end: int,
) -> Seq<Cell>
    decreases text.len(),
{
    if text.len() == 0 || column >= end || column + columns_of(widths[0]) > end {
        seq![]
    } else {
        seq![cell_at(column, text[0])] + laid_out(
            text.drop_first(),
            widths.drop_first(),
            column + columns_of(widths[0]),
            end,
        )
    }
}

/// Lays out a text whose characters have these widths.
pub fn lay_out(text: &Vec<char>, widths: &Vec<Option<usize>>, column: u16, end: u16) -> (cells: Vec<
    Cell,
>)
    requires
        widths@.len() == text@.len(),
        forall|i: int|
            0 <= i < widths@.len() ==> (#[trigger] widths@[i] matches Some(n) ==> n <= u16::MAX),
    ensures
        cells@ == laid_out(text@, widths@, column as int, end as int),
{
    let ghost all = laid_out(text@, widths@, column as int, end as int);
    let mut cells: Vec<Cell> = Vec::new();
    let mut at: u16 = column;
    let mut i: usize = 0;
    assert(text@.skip(0) =~= text@);
    assert(widths@.skip(0) =~= widths@);
    assert(all =~= cells@ + all);
    while i < text.len()
        invariant_except_break
            all == cells@ + laid_out(
                text@.skip(i as int),
                widths@.skip(i as int),
                at as int,
                end as int,
            ),
        invariant
            i <= text@.len() == widths@.len(),
            forall|j: int|
                0 <= j < widths@.len() ==> (#[trigger] widths@[j] matches Some(n) ==> n
                    <= u16::MAX),
        ensures
            all == cells@,
        decreases text@.len() - i,
    {
        let ghost before = cells@;
        let ghost rest = laid_out(
            text@.skip(i as int),
            widths@.skip(i as int),
            at as int,
            end as int,
        );
        let columns: usize = match widths[i] {
            Some(n) => n,
            None => 1,
        };
        assert(widths@.skip(i as int)[0] == widths@[i as int]);
        if at >= end || columns > (end - at) as usize {
            assert(before + rest =~= before);
            break;
        }
        proof {
            assert(text@.skip(i as int).drop_first() =~= text@.skip(i + 1));
            assert(widths@.skip(i as int).drop_first() =~= widths@.skip(i + 1));
        }
        let cell = Cell { column: at, symbol: text[i] };
        cells.push(cell);
        at = at + columns as u16;
        i = i + 1;
        assert(rest =~= seq![cell] + laid_out(
            text@.skip(i as int),
            widths@.skip(i as int),
            at as int,
            end as int,
        ));
        assert(before + rest =~= cells@ + laid_out(
            text@.skip(i as int),
            widths@.skip(i as int),
            at as int,
            end as int,
        ));
        proof {
            if i == text@.len() {
                assert(cells@ + laid_out(
                    text@.skip(i as int),
                    widths@.skip(i as int),
                    at as int,
                    end as int,
                ) =~= cells@);
            }
        }
    }
    cells
}

/// The lines that lead down past a node from the directories above it.
pub open spec fn guide_lines(n: int) -> Seq<char>
    decreases n,
{
    if n <= 0 {
        seq![]
    } else {
        guide_lines(n - 1) + "\u{2502} "@
    }
}

/// What stands before the icon of a node: nothing for the root, and else the lines from
/// above and the branch to the node, which ends there if the node is the last of its
/// siblings.
pub open spec fn guide_of(depth: int, is_last: bool) -> Seq<char> {
    if depth == 0 {
        seq![]
    } else if is_last {
        guide_lines(depth - 1) + "\u{2570}\u{2500}"@ + " "@
    } else {
        guide_lines(depth - 1) + "\u{251c}\u{2500}"@ + " "@
    }
}

/// Whether a path is the last of its siblings, by the last flag that it has. A path
/// without one counts as the last.
pub open spec fn last_flag(flags: Seq<(Seq<u8>, bool)>, path: Seq<u8>) -> bool
    decreases flags.len(),
{
    if flags.len() == 0 {
        true
    } else if same_path(flags.last().0, path) {
        flags.last().1
    } else {
        last_flag(flags.drop_last(), path)
    }
}

/// What stands after the name of a node.
pub open spec fn suffix_of(mark: Option<char>) -> Seq<char> {
    match mark {
        Some(c) => " ["@.push(c) + "]"@,
        None => seq![],
    }
}

/// The colour of a mark, if it has one.
pub open spec fn mark_color(mark: Option<char>) -> Option<Color> {
    match mark {
        Some(c) => if c == 'M' {
            Some(Color::Yellow)
        } else if c == 'A' {
            Some(Color::Green)
        } else if c == '?' {
            Some(Color::Indexed(8))
        } else if c == 'R' {
            Some(Color::Cyan)
        } else {
            None
        },
        None => None,
    }
}

/// The style of a row: that of a selection, by whether the explorer has the focus, or that
/// of text, in the colour of the node's mark, or else of its kind.
pub open spec fn style_of(
    is_dir: bool,
    selected: bool,
    focused: bool,
    mark: Option<char>,
) -> Style {
    if selected {
        Style {
            scope: if focused {
                Scope::MenuSelected
            } else {
                Scope::StatuslineInactive
            },
            fg: None,
        }
    } else {
        Style {
            scope: Scope::Text,
            fg: match mark_color(mark) {
                Some(color) => Some(color),
                None => if is_dir {
                    Some(Color::Cyan)
                } else {
                    None
                },
            },
        }
    }
}

impl ExplorerView {
    /// The mark of a path, if it has one.
    pub open spec fn mark_for(self, path: Seq<u8>) -> Option<char> {
        let key = components_of(path);
        if self.git_statuses.contains_key(key) {
            Some(self.git_statuses[key])
        } else {
            None
        }
    }

    /// The text of a row: the guide, the icon, the name and the mark of a node.
    pub open spec fn row_text(self, node: NodeView) -> Seq<char> {
        guide_of(node.depth as int, last_flag(tree_last_flags(self.root), node.path)) + icon_of(node)
            + node.name + suffix_of(self.mark_for(node.path))
    }

    /// The row of an item, in an area.
    pub open spec fn row_for(self, area: Rect, i: int) -> RowView {
        let node = self.items()[i];
        let text = self.row_text(node);
        RowView {
            y: area.y + (i - self.scroll_offset),
            style: style_of(node.is_dir, i == self.cursor, self.focused, self.mark_for(node.path)),
            fill: i == self.cursor,
            cells: laid_out(
                text,
                text.map_values(|c: char| char_columns(c)),
                area.x as int,
                area.x + inner_width(area),
            ),
        }
    }

    /// The explorer after it was drawn in an area: scrolled to its cursor, and back if
    /// that leaves rows empty.
    pub open spec fn after_render(self, area: Rect) -> ExplorerView {
        if has_room(area) {
            let rows = area.height as int;
            let offset = scrolled_to(self.scroll_offset as int, self.cursor as int, rows);
            ExplorerView {
                scroll_offset: scrolled_back(offset, self.items().len() as int, rows) as nat,
                ..self
            }
        } else {
            self
        }
    }

    /// How many items are shown in an area, from the scroll offset on.
    pub open spec fn rows_shown(self, area: Rect) -> int {
        let rest = self.items().len() - self.scroll_offset;
        if !has_room(area) || rest <= 0 {
            0
        } else if rest < area.height {
            rest
        } else {
            area.height as int
        }
    }

    /// The rows of an area.
    pub open spec fn rows_in(self, area: Rect) -> Seq<RowView> {
        Seq::new(
            self.rows_shown(area) as nat,
            |k: int| self.row_for(area, self.scroll_offset + k),
        )
    }
}

/// Adds the characters of a string.
fn push_text(chars: &mut Vec<char>, text: &str)
    ensures
        final(chars)@ == old(chars)@ + text@,
{
    let mut more = to_chars(text);
    chars.append(&mut more);
}

/// Adds what stands before the icon of a node.
fn push_guide(chars: &mut Vec<char>, depth: usize, is_last: bool)
    ensures
        final(chars)@ == old(chars)@ + guide_of(depth as int, is_last),
{
    let ghost start = chars@;
    if depth == 0 {
        assert(chars@ =~= start + guide_of(0, is_last));
        return;
    }
    let mut i: usize = 0;
    assert(chars@ =~= start + guide_lines(0));
    while i < depth - 1
        invariant
            i <= depth - 1,
            chars@ == start + guide_lines(i as int),
        decreases depth - i,
    {
        push_text(chars, "\u{2502} ");
        i = i + 1;
        assert(chars@ =~= start + guide_lines(i as int));
    }
    if is_last {
        push_text(chars, "\u{2570}\u{2500}");
    } else {
        push_text(chars, "\u{251c}\u{2500}");
    }
    push_text(chars, " ");
    assert(chars@ =~= start + guide_of(depth as int, is_last));
}

/// Whether a path is the last of its siblings.
fn find_last_flag(flags: &Vec<(TreePath, bool)>, path: &TreePath) -> (r: bool)
    ensures
        r == last_flag(flag_views(flags@), path@),
{
    let ghost all = flag_views(flags@);
    let mut i: usize = flags.len();
    assert(all.take(i as int) =~= all);
    while i > 0
        invariant
            i <= flags@.len(),
            all == flag_views(flags@),
            last_flag(all, path@) == last_flag(all.take(i as int), path@),
        decreases i,
    {
        proof {
            assert(all.take(i as int).last() == all[i - 1]);
            assert(all.take(i as int).drop_last() =~= all.take(i - 1));
        }
        if flags[i - 1].0.same(path) {
            return flags[i - 1].1;
        }
        i = i - 1;
    }
    true
}

/// The colour of a mark, if it has one.
fn color_for(mark: Option<char>) -> (r: Option<Color>)
    ensures
        r == mark_color(mark),
{
    match mark {
        Some('M') => Some(Color::Yellow),
        Some('A') => Some(Color::Green),
        Some('?') => Some(Color::Indexed(8)),
        Some('R') => Some(Color::Cyan),
        _ => None,
    }
}

/// The style of a row.
fn row_style(is_dir: bool, selected: bool, focused: bool, mark: Option<char>) -> (style: Style)
    ensures
        style == style_of(is_dir, selected, focused, mark),
{
    if selected {
        let scope = if focused {
            Scope::MenuSelected
        } else {
            Scope::StatuslineInactive
        };
        Style { scope, fg: None }
    } else {
        let fg = match color_for(mark) {
            Some(color) => Some(color),
            None => if is_dir {
                Some(Color::Cyan)
            } else {
                None
            },
        };
        Style { scope: Scope::Text, fg }
    }
}

impl TreeExplorer {
    /// The mark of a path, if it has one.
    pub fn mark_for(&self, path: &TreePath) -> (mark: Option<char>)
        ensures
            mark == self@.mark_for(path@),
    {
        match self.git_statuses.get(path) {
            Some(c) => Some(*c),
            None => None,
        }
    }

    /// The text of a row.
    fn row_text(&self, node: &TreeNode, flags: &Vec<(TreePath, bool)>) -> (chars: Vec<char>)
        requires
            flag_views(flags@) == tree_last_flags(self@.root),
        ensures
            chars@ == self@.row_text(node@),
    {
        let mut chars: Vec<char> = Vec::new();
        push_guide(&mut chars, node.depth, find_last_flag(flags, &node.path));
        push_text(&mut chars, node.icon());
        push_text(&mut chars, node.name.as_str());
        match self.mark_for(&node.path) {
            Some(c) => {
                push_text(&mut chars, " [");
                chars.push(c);
                push_text(&mut chars, "]");
            },
            None => {},
        }
        assert(chars@ =~= self@.row_text(node@));
        chars
    }

    /// Scrolls to where the explorer is drawn from.
    fn scroll_for(&mut self, rows: usize)
        requires
            rows > 0,
        ensures
            final(self)@ == (ExplorerView {
                scroll_offset: scrolled_back(
                    scrolled_to(
                        old(self)@.scroll_offset as int,
                        old(self)@.cursor as int,
                        rows as int,
                    ),
                    old(self)@.items().len() as int,
                    rows as int,
                ) as nat,
                ..old(self)@
            }),
            final(self).status_map() == old(self).status_map(),
    {
        let count = self.visible_items().len();
        assert(count == self@.items().len());
        if self.cursor < self.scroll_offset {
            self.scroll_offset = self.cursor;
        } else if self.cursor - self.scroll_offset >= rows {
            self.scroll_offset = self.cursor - (rows - 1);
        }
        let most = count.saturating_sub(rows);
        if self.scroll_offset > most {
            self.scroll_offset = most;
        }
    }

    /// Where the terminal's cursor goes: it is hidden, since the selected row stands out.
    pub fn cursor(&self, _area: Rect) -> (r: (Option<Position>, CursorKind))
        ensures
            r.0 is None,
            r.1 is Hidden,
    {
        (None, CursorKind::Hidden)
    }

    /// Draws the explorer in an area with a border on its right: scrolls, and gives the
    /// rows to draw.
    pub fn render(&mut self, area: Rect) -> (rows: Vec<Row>)
        requires
            area.x + area.width <= 0x10000,
            area.y + area.height <= 0x10000,
        ensures
            final(self)@ == old(self)@.after_render(area),
            final(self).status_map() == old(self).status_map(),
            row_views(rows@) == final(self)@.rows_in(area),
    {
        let mut rows: Vec<Row> = Vec::new();
        let width = area.width.saturating_sub(1);
        if width == 0 || area.height == 0 {
            assert(row_views(rows@) =~= self@.rows_in(area));
            return rows;
        }
        let height = area.height as usize;
        self.scroll_for(height);
        let items = self.visible_items();
        let flags = Self::get_is_last_map(&self.root);
        let offset = self.scroll_offset;
        let mut i: usize = offset;
        let ghost shown = self@.rows_shown(area);
        while i < items.len() && i - offset < height
            invariant
                has_room(area),
                width == inner_width(area),
                height == area.height,
                area.x + area.width <= 0x10000,
                area.y + area.height <= 0x10000,
                ref_views(items@) == self@.items(),
                flag_views(flags@) == tree_last_flags(self@.root),
                offset == self@.scroll_offset,
                offset <= i,
                i - offset <= shown,
                shown == self@.rows_shown(area),
                rows@.len() == i - offset,
                forall|k: int|
                    0 <= k < rows@.len() ==> (#[trigger] rows@[k])@ == self@.row_for(
                        area,
                        offset + k,
                    ),
            decreases items@.len() - i,
        {
            let node = items[i];
            assert(self@.items()[i as int] == node@);
            let selected = i == self.cursor;
            let text = self.row_text(node, &flags);
            let widths = char_widths(&text);
            let cells = lay_out(&text, &widths, area.x, area.x + width);
            let row = Row {
                y: area.y + (i - offset) as u16,
                style: row_style(node.is_dir, selected, self.focused, self.mark_for(&node.path)),
                fill: selected,
                cells,
            };
            assert(row@ == self@.row_for(area, i as int));
            rows.push(row);
            i = i + 1;
        }
        assert(row_views(rows@) =~= self@.rows_in(area));
        rows
    }
}

}
