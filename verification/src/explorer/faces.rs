//! What a row shows of its item: guide, icon, name, mark and colours, column by column.

use vstd::prelude::*;
use vstd::string::*;
use vstd::utf8::*;

use super::drawing::guide_ends_at_last;
use super::render::{
    cell_at, columns_of, guide_lines, guide_of, inner_width, laid_out, last_flag, suffix_of, Color,
    Rect, Scope,
};
use super::ExplorerView;
use crate::distinct::apart;
use crate::guides::has_next;
use crate::icon::icon_of;
use crate::path::{components_of, join_of, valid_name};
use crate::spelling::extension_of_entry;
use crate::tree::{tree_last_flags, NodeView};
use crate::width::char_columns;

verus! {

/// A row ends in the name of its item and, if the item's path has a mark, whatever it is, in
/// a blank and the mark in square brackets behind the name.
pub proof fn row_ends_in_name_and_mark(e: ExplorerView, node: NodeView)
    ensures
        ({
            let text = e.row_text(node);
            let key = components_of(node.path);
            let (n, m) = (text.len() as int, node.name.len() as int);
            if e.git_statuses.contains_key(key) {
                &&& n >= m + 4
                &&& text[n - 4] == ' '
                &&& text[n - 3] == '['
                &&& text[n - 2] == e.git_statuses[key]
                &&& text[n - 1] == ']'
                &&& text.subrange(n - 4 - m, n - 4) == node.name
            } else {
                &&& n >= m
                &&& text.subrange(n - m, n) == node.name
            }
        }),
{
    reveal_strlit(" [");
    reveal_strlit("]");
    let text = e.row_text(node);
    let key = components_of(node.path);
    let (n, m) = (text.len() as int, node.name.len() as int);
    let suffix = suffix_of(e.mark_for(node.path));
    if e.git_statuses.contains_key(key) {
        assert(suffix.len() == 4);
        assert(suffix[0] == ' ' && suffix[1] == '[' && suffix[2] == e.git_statuses[key]
            && suffix[3] == ']');
        assert(text.subrange(n - 4 - m, n - 4) =~= node.name);
    } else {
        assert(suffix.len() == 0);
        assert(text.subrange(n - m, n) =~= node.name);
    }
}

proof fn lemma_guide_lines(n: int)
    requires
        0 <= n,
    ensures
        guide_lines(n).len() == 2 * n,
        forall|j: int|
            0 <= j < 2 * n ==> #[trigger] guide_lines(n)[j] == if j % 2 == 0 {
                '\u{2502}'
            } else {
                ' '
            },
    decreases n,
{
    reveal_strlit("\u{2502} ");
    if n > 0 {
        lemma_guide_lines(n - 1);
        let before = guide_lines(n - 1);
        let all = guide_lines(n);
        assert(all == before + "\u{2502} "@);
        assert forall|j: int| 0 <= j < 2 * n implies #[trigger] all[j] == if j % 2 == 0 {
            '\u{2502}'
        } else {
            ' '
        } by {
            if j < 2 * (n - 1) {
                assert(all[j] == before[j]);
            }
        }
    }
}

/// How many columns of a row stand before the icon of an item.
pub open spec fn indent_of(depth: nat) -> int {
    if depth == 0 {
        0
    } else {
        2 * (depth - 1) + 3
    }
}

/// A row begins with a line and a blank for each directory above the item's own, but for the
/// root, and with a branch to the item that goes on if a sibling follows and else bends.
/// The icon stands behind that, then the name and the mark. The root has no branch.
pub proof fn row_begins_with_branch(e: ExplorerView, i: int)
    requires
        e.well_formed(),
        apart(e.items()),
        0 <= i < e.items().len(),
    ensures
        ({
            let node = e.items()[i];
            let text = e.row_text(node);
            let start = indent_of(node.depth);
            let icon = icon_of(node);
            &&& text.len() == start + icon.len() + node.name.len()
                + if e.git_statuses.contains_key(components_of(node.path)) {
                4int
            } else {
                0
            }
            &&& text.subrange(start, start + icon.len()) == icon
            &&& forall|j: int|
                0 <= j < start - 3 ==> #[trigger] text[j] == if j % 2 == 0 {
                    '\u{2502}'
                } else {
                    ' '
                }
            &&& node.depth > 0 ==> text[start - 3] == if has_next(e.items(), i) {
                '\u{251c}'
            } else {
                '\u{2570}'
            } && text[start - 2] == '\u{2500}' && text[start - 1] == ' '
        }),
{
    let node = e.items()[i];
    let text = e.row_text(node);
    let start = indent_of(node.depth);
    let icon = icon_of(node);
    let last = last_flag(tree_last_flags(e.root), node.path);
    let guide = guide_of(node.depth as int, last);
    reveal_strlit(" [");
    reveal_strlit("]");
    reveal_strlit("\u{251c}\u{2500}");
    reveal_strlit("\u{2570}\u{2500}");
    reveal_strlit(" ");
    guide_ends_at_last(e, i);
    if node.depth > 0 {
        lemma_guide_lines(node.depth - 1);
        assert(guide.len() == start);
        assert forall|j: int| 0 <= j < start - 3 implies #[trigger] text[j] == if j % 2 == 0 {
            '\u{2502}'
        } else {
            ' '
        } by {
            assert(text[j] == guide_lines(node.depth - 1)[j]);
        }
    }
    assert(text.subrange(start, start + icon.len()) =~= icon);
}

/// A directory has an open folder while it is expanded, and a closed one else.
pub proof fn icons_of_directories(n: NodeView)
    requires
        n.is_dir,
    ensures
        n.expanded ==> icon_of(n) == "\u{f0770} "@,
        !n.expanded ==> icon_of(n) == "\u{f024b} "@,
{
}

/// The icon of a file goes by what stands behind the last dot of its name.
pub proof fn icons_of_files(n: NodeView, dir: Seq<u8>, stem: Seq<u8>, ext: Seq<char>)
    requires
        !n.is_dir,
        stem.len() > 0,
        !encode_utf8(ext).contains(46u8),
        valid_name(stem.push(46u8) + encode_utf8(ext)),
        n.path == join_of(dir, stem.push(46u8) + encode_utf8(ext)),
    ensures
        ext == "rs"@ ==> icon_of(n) == "\u{f1617} "@,
        ext == "js"@ || ext == "jsx"@ ==> icon_of(n) == "\u{f031e} "@,
        ext == "go"@ ==> icon_of(n) == "\u{f07d3} "@,
        ext == "txt"@ ==> icon_of(n) == "\u{f0219} "@,
        ext == "toml"@ || ext == "md"@ || ext == "json"@ || ext == "yaml"@ || ext == "yml"@ || ext
            == "ts"@ || ext == "tsx"@ || ext == "py"@ || ext == "lua"@ || ext == "sh"@ || ext
            == "bash"@ || ext == "zsh"@ || ext == "lock"@ || ext == "gitignore"@ ==> icon_of(n)
            == " "@,
        ext != "rs"@ && ext != "js"@ && ext != "jsx"@ && ext != "go"@ && ext != "txt"@ && ext
            != "toml"@ && ext != "md"@ && ext != "json"@ && ext != "yaml"@ && ext != "yml"@ && ext
            != "ts"@ && ext != "tsx"@ && ext != "py"@ && ext != "lua"@ && ext != "sh"@ && ext
            != "bash"@ && ext != "zsh"@ && ext != "lock"@ && ext != "gitignore"@ ==> icon_of(n)
            == "\u{f0214} "@,
{
    extension_of_entry(dir, stem.push(46u8) + encode_utf8(ext), stem, encode_utf8(ext));
    encode_utf8_decode_utf8(ext);
    encode_utf8_valid_utf8(ext);
    lemma_extensions_differ();
}

proof fn lemma_extensions_differ()
    ensures
        "rs"@ != "js"@,
        "rs"@ != "jsx"@,
        "rs"@ != "go"@,
        "rs"@ != "txt"@,
        "js"@ != "go"@,
        "js"@ != "txt"@,
        "jsx"@ != "go"@,
        "jsx"@ != "txt"@,
        "go"@ != "txt"@,
        forall|t: Seq<char>|
            t == "toml"@ || t == "md"@ || t == "json"@ || t == "yaml"@ || t == "yml"@ || t == "ts"@
                || t == "tsx"@ || t == "py"@ || t == "lua"@ || t == "sh"@ || t == "bash"@ || t
                == "zsh"@ || t == "lock"@ || t == "gitignore"@ ==> #[trigger] t.len() > 0 && t
                != "rs"@ && t != "js"@ && t != "jsx"@ && t != "go"@ && t != "txt"@,
{
    reveal_strlit("rs");
    reveal_strlit("js");
    reveal_strlit("jsx");
    reveal_strlit("go");
    reveal_strlit("txt");
    reveal_strlit("toml");
    reveal_strlit("md");
    reveal_strlit("json");
    reveal_strlit("yaml");
    reveal_strlit("yml");
    reveal_strlit("ts");
    reveal_strlit("tsx");
    reveal_strlit("py");
    reveal_strlit("lua");
    reveal_strlit("sh");
    reveal_strlit("bash");
    reveal_strlit("zsh");
    reveal_strlit("lock");
    reveal_strlit("gitignore");
    assert("rs"@[0] != "js"@[0]);
    assert("rs"@[0] != "go"@[0]);
    assert("js"@[0] != "go"@[0]);
    assert("jsx"@[0] != "txt"@[0]);
    assert("md"@[0] == 'm' && "ts"@[0] == 't' && "py"@[0] == 'p' && "sh"@[0] == 's');
    assert("yml"@[0] == 'y' && "tsx"@[1] == 's' && "lua"@[0] == 'l' && "zsh"@[0] == 'z');
    assert("rs"@[0] == 'r' && "js"@[0] == 'j' && "go"@[0] == 'g' && "jsx"@[0] == 'j');
    assert("txt"@[0] == 't' && "txt"@[1] == 'x');
}

/// A file whose name has no dot, or only a leading one, or something behind its last dot
/// that is not text, has the icon of any other file.
pub proof fn icons_of_other_files(n: NodeView, dir: Seq<u8>, stem: Seq<u8>, ext: Seq<u8>)
    requires
        !n.is_dir,
        !ext.contains(46u8),
    ensures
        valid_name(ext) && n.path == join_of(dir, ext) ==> icon_of(n) == "\u{f0214} "@,
        valid_name(seq![46u8] + ext) && n.path == join_of(dir, seq![46u8] + ext) ==> icon_of(n)
            == "\u{f0214} "@,
        valid_name(stem.push(46u8) + ext) && n.path == join_of(dir, stem.push(46u8) + ext)
            && !valid_utf8(ext) ==> icon_of(n) == "\u{f0214} "@,
{
    let empty: Seq<u8> = seq![];
    lemma_extensions_differ();
    if valid_name(ext) {
        extension_of_entry(dir, ext, stem, ext);
    }
    if valid_name(seq![46u8] + ext) {
        assert(empty.push(46u8) + ext =~= seq![46u8] + ext);
        extension_of_entry(dir, seq![46u8] + ext, empty, ext);
    }
    if valid_name(stem.push(46u8) + ext) {
        extension_of_entry(dir, stem.push(46u8) + ext, stem, ext);
    }
}

/// The row of the cursor has the style of a selection, and no other colour: that of menus
/// with the focus, and that of an inactive status line without it.
pub proof fn style_of_selected(e: ExplorerView, area: Rect)
    ensures
        ({
            let row = e.row_for(area, e.cursor as int);
            &&& row.fill
            &&& row.style.fg is None
            &&& e.focused ==> row.style.scope is MenuSelected
            &&& !e.focused ==> row.style.scope is StatuslineInactive
        }),
{
}

/// Every other row has the style of text. Its colour is yellow where its item is marked `M`,
/// green for `A`, the palette's eighth for `?` and cyan for `R`; with another mark or none
/// it is cyan for a directory and that of text for a file.
pub proof fn style_of_others(e: ExplorerView, area: Rect, i: int)
    requires
        i != e.cursor,
    ensures
        ({
            let row = e.row_for(area, i);
            let node = e.items()[i];
            let key = components_of(node.path);
            let mark = e.git_statuses[key];
            &&& !row.fill
            &&& row.style.scope is Text
            &&& if e.git_statuses.contains_key(key) && mark == 'M' {
                row.style.fg == Some(Color::Yellow)
            } else if e.git_statuses.contains_key(key) && mark == 'A' {
                row.style.fg == Some(Color::Green)
            } else if e.git_statuses.contains_key(key) && mark == '?' {
                row.style.fg == Some(Color::Indexed(8))
            } else if (e.git_statuses.contains_key(key) && mark == 'R') || node.is_dir {
                row.style.fg == Some(Color::Cyan)
            } else {
                row.style.fg is None
            }
        }),
{
}

/// The keys under which a theme has the styles.
pub proof fn keys_of_scopes()
    ensures
        Scope::Text.key_of() == "ui.text"@,
        Scope::MenuSelected.key_of() == "ui.menu.selected"@,
        Scope::StatuslineInactive.key_of() == "ui.statusline.inactive"@,
{
}

/// The columns that the first characters of a text take together; a character without a
/// width takes one.
pub open spec fn columns_before(text: Seq<char>, k: int) -> int
    decreases k,
{
    if k <= 0 {
        0
    } else {
        columns_before(text, k - 1) + match char_columns(text[k - 1]) {
            Some(n) => n as int,
            None => 1,
        }
    }
}

proof fn lemma_columns_before_shift(text: Seq<char>, k: int)
    requires
        1 <= k <= text.len(),
    ensures
        columns_before(text, k) == columns_of(char_columns(text[0])) + columns_before(
            text.drop_first(),
            k - 1,
        ),
    decreases k,
{
    if k == 1 {
        assert(columns_before(text, 0) == 0);
    } else {
        lemma_columns_before_shift(text, k - 1);
        assert(text.drop_first()[k - 2] == text[k - 1]);
    }
}

proof fn lemma_laid_out_exact(
    text: Seq<char>,
    widths: Seq<Option<usize>>,
    column: int,
    end: int,
)
    requires
        widths == text.map_values(|c: char| char_columns(c)),
        0 <= column,
        end <= 0x10000,
    ensures
        ({
            let cells = laid_out(text, widths, column, end);
            let n = cells.len() as int;
            &&& n <= text.len()
            &&& forall|k: int|
                0 <= k < n ==> (#[trigger] cells[k]).column == column + columns_before(text, k)
                    && cells[k].symbol == text[k] && column + columns_before(text, k) < end
                    && column + columns_before(text, k + 1) <= end
            &&& n < text.len() ==> column + columns_before(text, n) >= end || column
                + columns_before(text, n + 1) > end
        }),
    decreases text.len(),
{
    let cells = laid_out(text, widths, column, end);
    let n = cells.len() as int;
    if text.len() == 0 {
    } else if column >= end || column + columns_of(widths[0]) > end {
        assert(columns_before(text, 0) == 0);
        lemma_columns_before_shift(text, 1);
        assert(columns_before(text.drop_first(), 0) == 0);
    } else {
        let next = column + columns_of(widths[0]);
        let (t, w) = (text.drop_first(), widths.drop_first());
        assert(w =~= t.map_values(|c: char| char_columns(c)));
        lemma_laid_out_exact(t, w, next, end);
        let rest = laid_out(t, w, next, end);
        assert(cells == seq![cell_at(column, text[0])] + rest);
        assert forall|k: int| 0 <= k < n implies (#[trigger] cells[k]).column == column
            + columns_before(text, k) && cells[k].symbol == text[k] && column + columns_before(
            text,
            k,
        ) < end && column + columns_before(text, k + 1) <= end by {
            lemma_columns_before_shift(text, k + 1);
            if k > 0 {
                lemma_columns_before_shift(text, k);
                assert(cells[k] == rest[k - 1]);
                assert(t[k - 1] == text[k]);
            } else {
                assert(columns_before(text, 0) == 0);
                assert(columns_before(t, 0) == 0);
            }
        }
        if n < text.len() {
            lemma_columns_before_shift(text, n + 1);
            lemma_columns_before_shift(text, n);
        }
    }
}

/// A row shows the characters of its text from the left edge of the area on, each behind the
/// columns of those before it, up to the first that does not fit left of the border in the
/// last column.
pub proof fn row_shows_all_that_fits(e: ExplorerView, area: Rect, i: int)
    requires
        0 < area.width,
        area.x + area.width <= 0x10000,
    ensures
        ({
            let text = e.row_text(e.items()[i]);
            let cells = e.row_for(area, i).cells;
            let end = area.x + (area.width - 1);
            let n = cells.len() as int;
            &&& n <= text.len()
            &&& forall|k: int|
                0 <= k < n ==> (#[trigger] cells[k]).symbol == text[k] && cells[k].column == area.x
                    + columns_before(text, k) && cells[k].column < end && area.x + columns_before(
                    text,
                    k + 1,
                ) <= end
            &&& n < text.len() ==> area.x + columns_before(text, n) >= end || area.x
                + columns_before(text, n + 1) > end
        }),
{
    let text = e.row_text(e.items()[i]);
    lemma_laid_out_exact(
        text,
        text.map_values(|c: char| char_columns(c)),
        area.x as int,
        area.x + inner_width(area),
    );
}

/// The rows are those of the items from the scroll offset on, one below the other from the
/// top of the area.
pub proof fn rows_show_items(e: ExplorerView, area: Rect, k: int)
    requires
        0 <= k < e.rows_in(area).len(),
    ensures
        e.scroll_offset + k < e.items().len(),
        k < area.height,
        e.rows_in(area)[k] == e.row_for(area, e.scroll_offset + k),
        e.rows_in(area)[k].y == area.y + k,
{
}

/// Nothing is drawn, and nothing changes, if and only if the area has no column beside its
/// border or no row.
pub proof fn rows_need_room(e: ExplorerView, area: Rect)
    ensures
        area.width < 2 || area.height == 0 ==> e.rows_in(area).len() == 0 && e.after_render(area)
            == e,
        area.width >= 2 && area.height > 0 ==> e.after_render(area).rows_in(area).len() > 0,
{
}

/// How far one scroll offset is from another.
pub open spec fn distance(a: int, b: int) -> int {
    if a < b {
        b - a
    } else {
        a - b
    }
}

/// Drawing scrolls no further than it takes to have the cursor in view and no row empty that
/// an item could fill: of all offsets that do so, it takes the one nearest to the former.
/// Where the cursor is behind the items, it goes to their end.
pub proof fn render_scrolls_least(e: ExplorerView, area: Rect, other: int)
    requires
        area.width >= 2,
        area.height > 0,
    ensures
        ({
            let after = e.after_render(area);
            let (count, rows) = (e.items().len() as int, area.height as int);
            let end = if count > rows {
                count - rows
            } else {
                0
            };
            &&& 0 <= other <= end && other <= e.cursor < other + rows && e.cursor < count
                ==> distance(after.scroll_offset as int, e.scroll_offset as int) <= distance(
                other,
                e.scroll_offset as int,
            )
            &&& after.scroll_offset <= end
            &&& e.cursor < count ==> after.scroll_offset <= e.cursor < after.scroll_offset + rows
            &&& e.cursor >= count ==> after.scroll_offset == end
        }),
{
}

}
