//! What the lines of `git status` come to, line by line and as a whole.

use vstd::prelude::*;
use vstd::utf8::*;

use crate::git::{
    after_arrows, after_marks, all_divide, arrow_at, between, divides, first_arrow, first_named,
    first_of, full_path_of, has_path, holds_changed, holds_marked, lemma_first_arrow,
    lemma_first_of, lines_of, mark_of, marks_of, statuses_of, unquoted_end, unquoted_start,
};
use crate::path::{components_of, join_of, Step};

verus! {

/// The mark in the first two columns of a line: the first, unless it is blank.
pub open spec fn column_mark(line: Seq<char>) -> char {
    if line[0] == ' ' {
        line[1]
    } else {
        line[0]
    }
}

/// Whether a text neither begins nor ends in a double quote.
pub open spec fn bare(text: Seq<char>) -> bool {
    text.len() > 0 && text[0] != '"' && text[text.len() - 1] != '"'
}

/// Whether ` -> ` stands at a position of a text.
pub open spec fn arrow_stands(text: Seq<char>, i: int) -> bool {
    0 <= i && i + 4 <= text.len() && text.subrange(i, i + 4) == seq![' ', '-', '>', ' ']
}

/// Whether ` -> ` stands nowhere in a text.
pub open spec fn arrowless(text: Seq<char>) -> bool {
    forall|i: int| !arrow_stands(text, i)
}

proof fn lemma_arrow_same(text: Seq<char>, i: int)
    requires
        0 <= i,
    ensures
        arrow_stands(text, i) == arrow_at(text, i),
{
    if i + 4 <= text.len() {
        let part = text.subrange(i, i + 4);
        let arrow = seq![' ', '-', '>', ' '];
        assert(part[0] == text[i] && part[1] == text[i + 1] && part[2] == text[i + 2] && part[3]
            == text[i + 3]);
        assert(arrow[0] == ' ' && arrow[1] == '-' && arrow[2] == '>' && arrow[3] == ' ');
        if arrow_at(text, i) {
            assert(part =~= arrow);
        }
    }
}

/// Two texts are encoded one after the other.
pub proof fn lemma_encode_append(a: Seq<char>, b: Seq<char>)
    ensures
        encode_utf8(a + b) == encode_utf8(a) + encode_utf8(b),
    decreases a.len(),
{
    if a.len() == 0 {
        assert(a + b =~= b);
        assert(encode_utf8(a) + encode_utf8(b) =~= encode_utf8(b));
    } else {
        assert((a + b).drop_first() =~= a.drop_first() + b);
        lemma_encode_append(a.drop_first(), b);
        assert(encode_utf8(a + b) =~= encode_utf8(a) + encode_utf8(b));
    }
}

/// Every character takes at least one byte.
pub proof fn lemma_encode_len(text: Seq<char>)
    ensures
        encode_utf8(text).len() >= text.len(),
    decreases text.len(),
{
    if text.len() > 0 {
        lemma_encode_len(text.drop_first());
    }
}

/// A line whose first three bytes are followed by a path.
proof fn lemma_columns(head: Seq<char>, rest: Seq<char>)
    requires
        encode_utf8(head).len() == 3,
        rest.len() > 0,
    ensures
        has_path(head + rest),
        after_marks(head + rest) == rest,
        head.len() > 0,
        head[0] == ' ' ==> head.len() > 1,
        (head + rest)[0] == head[0],
        mark_of(head + rest) == column_mark(head + rest),
        head[0] != ' ' ==> mark_of(head + rest) == head[0],
        head[0] == ' ' ==> mark_of(head + rest) == head[1],
{
    let line = head + rest;
    lemma_encode_append(head, rest);
    lemma_encode_len(rest);
    assert(encode_utf8(line).skip(3) =~= encode_utf8(rest));
    encode_utf8_decode_utf8(rest);
    if head.len() == 1 && head[0] == ' ' {
        assert(head =~= seq![' ']);
        assert(encode_utf8(head.drop_first()).len() == 0);
        assert(encode_scalar(' ' as u32).len() == 1);
    }
}

proof fn lemma_bare(text: Seq<char>)
    requires
        bare(text),
    ensures
        unquoted_end(unquoted_start(text)) == text,
{
}

proof fn lemma_arrowless(text: Seq<char>)
    requires
        arrowless(text),
    ensures
        after_arrows(text) == text,
{
    lemma_first_arrow(text);
    let k = first_arrow(text);
    if k < text.len() {
        lemma_arrow_same(text, k);
    }
}

/// A line that holds a path gives it a mark: the line's first character, or its second where
/// the first is a blank.
pub proof fn line_mark_is_first_column(root: Seq<u8>, lines: Seq<Seq<char>>, line: Seq<char>)
    requires
        encode_utf8(line).len() > 3,
        line.len() >= 2,
    ensures
        marks_of(root, lines.push(line)) == marks_of(root, lines).insert(
            components_of(full_path_of(root, line)),
            if line[0] != ' ' {
                line[0]
            } else {
                line[1]
            },
        ),
{
    assert(lines.push(line).drop_last() =~= lines);
    assert(lines.push(line).last() == line);
}

/// A line whose path follows three bytes gives that path, in the root, the mark in its
/// columns, in place of what earlier lines gave it. This is so of every path without
/// quotes around it and, where a file was renamed, without an arrow.
pub proof fn line_marks_path(
    root: Seq<u8>,
    lines: Seq<Seq<char>>,
    head: Seq<char>,
    rest: Seq<char>,
)
    requires
        encode_utf8(head).len() == 3,
        bare(rest),
        column_mark(head + rest) == 'R' ==> arrowless(rest),
    ensures
        marks_of(root, lines.push(head + rest)) == marks_of(root, lines).insert(
            components_of(join_of(root, encode_utf8(rest))),
            column_mark(head + rest),
        ),
{
    let line = head + rest;
    lemma_columns(head, rest);
    lemma_bare(rest);
    if column_mark(line) == 'R' {
        lemma_arrowless(rest);
    }
    assert(lines.push(line).drop_last() =~= lines);
    assert(lines.push(line).last() == line);
}

/// A line of at most three bytes gives no mark.
pub proof fn short_line_marks_nothing(root: Seq<u8>, lines: Seq<Seq<char>>, line: Seq<char>)
    requires
        encode_utf8(line).len() <= 3,
    ensures
        marks_of(root, lines.push(line)) == marks_of(root, lines),
{
    assert(lines.push(line).drop_last() =~= lines);
    assert(lines.push(line).last() == line);
}

proof fn lemma_unquoted_start_push(text: Seq<char>)
    ensures
        unquoted_end(unquoted_start(text.push('"'))) == unquoted_end(unquoted_start(text)),
    decreases text.len(),
{
    let more = text.push('"');
    if text.len() > 0 && text[0] == '"' {
        assert(more.drop_first() =~= text.drop_first().push('"'));
        lemma_unquoted_start_push(text.drop_first());
    } else if text.len() > 0 {
        assert(more.drop_last() =~= text);
        assert(unquoted_end(more) == unquoted_end(text));
    } else {
        assert(more.drop_first() =~= text);
    }
}

proof fn lemma_arrowless_quoted(text: Seq<char>)
    requires
        arrowless(text),
    ensures
        arrowless(seq!['"'] + text),
        arrowless(text.push('"')),
{
    let (a, b) = (seq!['"'] + text, text.push('"'));
    assert forall|i: int| !arrow_stands(a, i) by {
        if arrow_stands(a, i) {
            lemma_arrow_same(a, i);
            assert(i > 0);
            lemma_arrow_same(text, i - 1);
            assert(arrow_at(text, i - 1));
            assert(arrow_stands(text, i - 1));
        }
    }
    assert forall|i: int| !arrow_stands(b, i) by {
        if arrow_stands(b, i) {
            lemma_arrow_same(b, i);
            assert(i + 4 < b.len());
            lemma_arrow_same(text, i);
            assert(arrow_at(text, i));
            assert(arrow_stands(text, i));
        }
    }
}

/// One more double quote before the path of a line, or after it, makes no difference. This
/// is so of every path and, where a file was renamed, of every one without an arrow.
pub proof fn quotes_do_not_count(
    root: Seq<u8>,
    lines: Seq<Seq<char>>,
    head: Seq<char>,
    rest: Seq<char>,
)
    requires
        encode_utf8(head).len() == 3,
        rest.len() > 0,
        column_mark(head + rest) == 'R' ==> arrowless(rest),
    ensures
        marks_of(root, lines.push(head + (seq!['"'] + rest))) == marks_of(
            root,
            lines.push(head + rest),
        ),
        marks_of(root, lines.push(head + rest.push('"'))) == marks_of(
            root,
            lines.push(head + rest),
        ),
{
    let (a, b) = (seq!['"'] + rest, rest.push('"'));
    lemma_columns(head, rest);
    lemma_columns(head, a);
    lemma_columns(head, b);
    if column_mark(head + rest) == 'R' {
        lemma_arrowless_quoted(rest);
        lemma_arrowless(rest);
        lemma_arrowless(a);
        lemma_arrowless(b);
    }
    assert(a.drop_first() =~= rest);
    lemma_unquoted_start_push(rest);
    assert(lines.push(head + a).drop_last() =~= lines);
    assert(lines.push(head + b).drop_last() =~= lines);
    assert(lines.push(head + rest).drop_last() =~= lines);
}

/// Where a file was renamed, what stands up to the first arrow makes no difference.
pub proof fn renamed_from_does_not_count(
    root: Seq<u8>,
    lines: Seq<Seq<char>>,
    head: Seq<char>,
    from: Seq<char>,
    to: Seq<char>,
)
    requires
        encode_utf8(head).len() == 3,
        to.len() > 0,
        column_mark(head + to) == 'R',
        forall|i: int| 0 <= i < from.len() ==> !arrow_stands(from + seq![' ', '-', '>', ' '] + to, i),
    ensures
        marks_of(root, lines.push(head + (from + seq![' ', '-', '>', ' '] + to))) == marks_of(
            root,
            lines.push(head + to),
        ),
{
    let arrow = seq![' ', '-', '>', ' '];
    let both = from + arrow + to;
    lemma_columns(head, to);
    lemma_columns(head, both);
    assert(both.subrange(from.len() as int, from.len() as int + 4) =~= arrow);
    lemma_arrow_same(both, from.len() as int);
    lemma_first_arrow(both);
    let k = first_arrow(both);
    if k < from.len() {
        lemma_arrow_same(both, k);
    } else if k > from.len() {
        assert(!arrow_at(both, from.len() as int));
    }
    assert(both.skip(k + 4) =~= to);
    assert(after_arrows(both) == after_arrows(to));
    assert(lines.push(head + both).drop_last() =~= lines);
    assert(lines.push(head + to).drop_last() =~= lines);
    assert(lines.push(head + both).last() == head + both);
    assert(lines.push(head + to).last() == head + to);
}

/// A line feed ends a line, together with a carriage return before it.
pub proof fn line_feed_ends_line(line: Seq<char>, rest: Seq<char>)
    requires
        !line.contains('\n'),
    ensures
        lines_of(line.push('\n') + rest) == seq![
            if line.len() > 0 && line[line.len() - 1] == '\r' {
                line.take(line.len() - 1)
            } else {
                line
            },
        ] + lines_of(rest),
{
    let text = line.push('\n') + rest;
    lemma_first_of(text, '\n');
    let k = first_of(text, '\n');
    assert(text[line.len() as int] == '\n');
    if k < line.len() {
        assert(line[k] == '\n');
        assert(line.contains(line[k]));
    }
    assert(k == line.len());
    assert(text.take(k) =~= line);
    assert(text.skip(k + 1) =~= rest);
    if line.len() > 0 {
        assert(line.drop_last() =~= line.take(line.len() - 1));
    }
}

/// A text without a line feed is one line, and the empty text none.
pub proof fn text_without_line_feed(text: Seq<char>)
    requires
        !text.contains('\n'),
    ensures
        lines_of(text) == if text.len() == 0 {
            seq![]
        } else {
            seq![text]
        },
{
    lemma_first_of(text, '\n');
    let k = first_of(text, '\n');
    if k < text.len() {
        assert(text.contains(text[k]));
    }
}

/// Whether a directory lies below the root and above a path, by their components.
pub open spec fn lies_between(root: Seq<Step>, dir: Seq<Step>, path: Seq<Step>) -> bool {
    root.len() < dir.len() < path.len() && dir == path.take(dir.len() as int) && root == path.take(
        root.len() as int,
    )
}

/// What bears a mark in the end: what lines give one to, and the directories above that, up
/// to the root but without it. A directory above something that is not untracked is marked
/// `M`, one above untracked files only `?`, and all else keeps its line's mark.
pub proof fn statuses_exact(root: Seq<u8>, text: Seq<char>, p: Seq<Step>)
    ensures
        ({
            let top = components_of(root);
            let marks = marks_of(root, lines_of(text));
            let above = exists|q: Seq<Step>| #[trigger]
                marks.contains_key(q) && lies_between(top, p, q);
            let changed = exists|q: Seq<Step>| #[trigger]
                marks.contains_key(q) && lies_between(top, p, q) && marks[q] != '?';
            &&& statuses_of(root, text).contains_key(p) <==> marks.contains_key(p) || above
            &&& changed ==> statuses_of(root, text)[p] == 'M'
            &&& above && !changed ==> statuses_of(root, text)[p] == '?'
            &&& marks.contains_key(p) && !above ==> statuses_of(root, text)[p] == marks[p]
        }),
{
    let top = components_of(root);
    let marks = marks_of(root, lines_of(text));
    assert forall|q: Seq<Step>|
        lies_between(top, p, q) == #[trigger] between(top, p, q) by {
        if top.len() < p.len() < q.len() {
            if lies_between(top, p, q) {
                assert(top =~= p.take(top.len() as int));
            }
            if between(top, p, q) {
                assert(p =~= q.take(p.len() as int));
                assert(top =~= q.take(top.len() as int));
            }
        }
    }
    assert(holds_marked(top, marks, p) == exists|q: Seq<Step>| #[trigger]
        marks.contains_key(q) && lies_between(top, p, q)) by {
        if holds_marked(top, marks, p) {
            let q = choose|q: Seq<Step>| #[trigger]
                marks.contains_key(q) && between(top, p, q);
            assert(marks.contains_key(q) && lies_between(top, p, q));
        }
        if exists|q: Seq<Step>| #[trigger] marks.contains_key(q) && lies_between(top, p, q) {
            let q = choose|q: Seq<Step>| #[trigger]
                marks.contains_key(q) && lies_between(top, p, q);
            assert(between(top, p, q));
        }
    }
    assert(holds_changed(top, marks, p) == exists|q: Seq<Step>| #[trigger]
        marks.contains_key(q) && lies_between(top, p, q) && marks[q] != '?') by {
        if holds_changed(top, marks, p) {
            let q = choose|q: Seq<Step>| #[trigger]
                marks.contains_key(q) && between(top, p, q) && marks[q] != '?';
            assert(marks.contains_key(q) && lies_between(top, p, q));
        }
        if exists|q: Seq<Step>| #[trigger]
            marks.contains_key(q) && lies_between(top, p, q) && marks[q] != '?' {
            let q = choose|q: Seq<Step>| #[trigger]
                marks.contains_key(q) && lies_between(top, p, q) && marks[q] != '?';
            assert(between(top, p, q));
        }
    }
}

/// What one line comes to: its path has the mark in its columns, the directories between
/// the root and the path are marked `M`, or `?` for an untracked file, and nothing else is
/// marked.
pub proof fn one_line_status(root: Seq<u8>, head: Seq<char>, rest: Seq<char>, p: Seq<Step>)
    requires
        encode_utf8(head).len() == 3,
        bare(rest),
        !(head + rest).contains('\n'),
        column_mark(head + rest) == 'R' ==> arrowless(rest),
    ensures
        ({
            let path = components_of(join_of(root, encode_utf8(rest)));
            let all = statuses_of(root, head + rest);
            let mark = if head[0] != ' ' {
                head[0]
            } else {
                head[1]
            };
            &&& all.contains_key(p) <==> p == path || lies_between(components_of(root), p, path)
            &&& all[path] == mark
            &&& lies_between(components_of(root), p, path) ==> all[p] == if mark == '?' {
                '?'
            } else {
                'M'
            }
        }),
{
    let text = head + rest;
    let path = components_of(join_of(root, encode_utf8(rest)));
    let none: Seq<Seq<char>> = seq![];
    lemma_columns(head, rest);
    text_without_line_feed(text);
    line_marks_path(root, none, head, rest);
    assert(none.push(text) =~= seq![text]);
    let marks = marks_of(root, lines_of(text));
    assert(marks == Map::<Seq<Step>, char>::empty().insert(path, mark_of(text)));
    assert(marks.contains_key(path));
    statuses_exact(root, text, p);
    statuses_exact(root, text, path);
}

/// Output can be read if and only if no line has a fourth byte that continues a character.
pub proof fn readable_by_fourth_byte(lines: Seq<Seq<char>>)
    ensures
        all_divide(lines) <==> forall|i: int|
            0 <= i < lines.len() && encode_utf8(#[trigger] lines[i]).len() > 3 ==> !(0x80
                <= encode_utf8(lines[i])[3] <= 0xbf),
{
    assert forall|i: int| 0 <= i < lines.len() implies divides(#[trigger] lines[i]) == (encode_utf8(
        lines[i],
    ).len() > 3 ==> !(0x80 <= encode_utf8(lines[i])[3] <= 0xbf)) by {
        let bytes = encode_utf8(lines[i]);
        encode_utf8_valid_utf8(lines[i]);
        if bytes.len() > 3 {
            is_char_boundary_iff_not_is_continuation_byte(bytes, 3);
        }
    }
}

/// A path that lines name keeps the bytes of the first of them.
pub proof fn first_name_stays(
    root: Seq<u8>,
    lines: Seq<Seq<char>>,
    line: Seq<char>,
    head: Seq<char>,
    rest: Seq<char>,
)
    requires
        encode_utf8(head).len() == 3,
        bare(rest),
        column_mark(head + rest) == 'R' ==> arrowless(rest),
    ensures
        forall|p: Seq<Step>| #[trigger]
            marks_of(root, lines).contains_key(p) ==> first_named(root, lines.push(line), p)
                == first_named(root, lines, p),
        ({
            let p = components_of(join_of(root, encode_utf8(rest)));
            !marks_of(root, lines).contains_key(p) ==> first_named(
                root,
                lines.push(head + rest),
                p,
            ) == join_of(root, encode_utf8(rest))
        }),
{
    assert(lines.push(line).drop_last() =~= lines);
    assert(lines.push(head + rest).drop_last() =~= lines);
    assert(lines.push(head + rest).last() == head + rest);
    lemma_columns(head, rest);
    lemma_bare(rest);
    if column_mark(head + rest) == 'R' {
        lemma_arrowless(rest);
    }
}

}
