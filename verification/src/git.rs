//! What `git status` says of the files in the tree.

use vstd::prelude::*;
use vstd::string::*;
use vstd::utf8::*;

use crate::path::{components_of, join_of, parent_drops_last, same_path, Step, TreePath};
use crate::path_map::{entries_map, entries_with, holds_key, keys_distinct, lemma_entry, PathMap};
use crate::text::{from_chars, to_chars};

verus! {

/// The first position of a character in a text, or the text's length.
pub open spec fn first_of(text: Seq<char>, c: char) -> int
    decreases text.len(),
{
    if text.len() == 0 || text[0] == c {
        0
    } else {
        1 + first_of(text.drop_first(), c)
    }
}

/// It is the first: nothing before it is the character.
pub proof fn lemma_first_of(text: Seq<char>, c: char)
    ensures
        0 <= first_of(text, c) <= text.len(),
        first_of(text, c) < text.len() ==> text[first_of(text, c)] == c,
        forall|i: int| 0 <= i < first_of(text, c) ==> text[i] != c,
    decreases text.len(),
{
    if text.len() > 0 && text[0] != c {
        let rest = text.drop_first();
        lemma_first_of(rest, c);
        assert forall|i: int| 0 <= i < first_of(text, c) implies text[i] != c by {
            if i > 0 {
                assert(rest[i - 1] == text[i]);
            }
        }
    }
}

/// A line without the carriage return before its line feed.
pub open spec fn chomped(line: Seq<char>) -> Seq<char> {
    if line.len() > 0 && line.last() == '\r' {
        line.drop_last()
    } else {
        line
    }
}

/// The lines of a text. The last one need not end in a line feed.
pub open spec fn lines_of(text: Seq<char>) -> Seq<Seq<char>>
    decreases text.len(),
{
    let k = first_of(text, '\n');
    proof {
        lemma_first_of(text, '\n');
    }
    if text.len() == 0 {
        seq![]
    } else if k == text.len() {
        seq![text]
    } else {
        seq![chomped(text.take(k))] + lines_of(text.skip(k + 1))
    }
}

/// Whether a line is long enough, in bytes, to hold two marks, a space and a path.
pub open spec fn has_path(line: Seq<char>) -> bool {
    encode_utf8(line).len() > 3
}

/// Whether the path of a line, if it has one, begins between two characters.
pub open spec fn divides(line: Seq<char>) -> bool {
    has_path(line) ==> is_char_boundary(encode_utf8(line), 3)
}

/// Whether every line can be divided into its marks and its path.
pub open spec fn all_divide(lines: Seq<Seq<char>>) -> bool {
    forall|i: int| 0 <= i < lines.len() ==> divides(#[trigger] lines[i])
}

/// The mark of a line: the index's, or the working tree's where that is blank.
pub open spec fn mark_of(line: Seq<char>) -> char {
    let index = if line.len() > 0 {
        line[0]
    } else {
        ' '
    };
    let tree = if line.len() > 1 {
        line[1]
    } else {
        ' '
    };
    if index != ' ' {
        index
    } else {
        tree
    }
}

/// What a line holds after the marks and the space.
pub open spec fn after_marks(line: Seq<char>) -> Seq<char> {
    decode_utf8(encode_utf8(line).skip(3))
}

/// Whether an arrow between two paths stands at a position.
pub open spec fn arrow_at(text: Seq<char>, i: int) -> bool {
    i + 4 <= text.len() && text[i] == ' ' && text[i + 1] == '-' && text[i + 2] == '>' && text[i + 3]
        == ' '
}

/// The position of the first arrow, or the text's length.
pub open spec fn first_arrow(text: Seq<char>) -> int
    decreases text.len(),
{
    if text.len() == 0 || arrow_at(text, 0) {
        0
    } else {
        1 + first_arrow(text.drop_first())
    }
}

/// It is the first: no arrow stands before it.
pub proof fn lemma_first_arrow(text: Seq<char>)
    ensures
        0 <= first_arrow(text) <= text.len(),
        first_arrow(text) < text.len() ==> arrow_at(text, first_arrow(text)),
        forall|i: int| 0 <= i < first_arrow(text) ==> !arrow_at(text, i),
    decreases text.len(),
{
    if text.len() > 0 && !arrow_at(text, 0) {
        let rest = text.drop_first();
        lemma_first_arrow(rest);
        assert forall|i: int| 0 <= i < first_arrow(text) implies !arrow_at(text, i) by {
            if i > 0 {
                assert(!arrow_at(rest, i - 1));
            }
        }
    }
}

/// What stands after the last arrow; arrows do not share characters, the first one
/// having the choice.
pub open spec fn after_arrows(text: Seq<char>) -> Seq<char>
    decreases text.len(),
{
    let k = first_arrow(text);
    proof {
        lemma_first_arrow(text);
    }
    if k < text.len() {
        after_arrows(text.skip(k + 4))
    } else {
        text
    }
}

/// A text without the double quotes at its beginning.
pub open spec fn unquoted_start(text: Seq<char>) -> Seq<char>
    decreases text.len(),
{
    if text.len() > 0 && text[0] == '"' {
        unquoted_start(text.drop_first())
    } else {
        text
    }
}

/// A text without the double quotes at its end.
pub open spec fn unquoted_end(text: Seq<char>) -> Seq<char>
    decreases text.len(),
{
    if text.len() > 0 && text.last() == '"' {
        unquoted_end(text.drop_last())
    } else {
        text
    }
}

/// The path that a line speaks of, below the repository's root: that of the new name
/// where a file was renamed.
pub open spec fn path_of(line: Seq<char>) -> Seq<char> {
    let rest = after_marks(line);
    let named = if mark_of(line) == 'R' {
        after_arrows(rest)
    } else {
        rest
    };
    unquoted_end(unquoted_start(named))
}

/// The path that a line speaks of, with the repository's root.
pub open spec fn full_path_of(root: Seq<u8>, line: Seq<char>) -> Seq<u8> {
    join_of(root, encode_utf8(path_of(line)))
}

/// The marks that lines give to paths. A later line has the last word.
pub open spec fn marks_of(root: Seq<u8>, lines: Seq<Seq<char>>) -> Map<Seq<Step>, char>
    decreases lines.len(),
{
    if lines.len() == 0 {
        Map::empty()
    } else {
        let line = lines.last();
        let before = marks_of(root, lines.drop_last());
        if has_path(line) {
            before.insert(components_of(full_path_of(root, line)), mark_of(line))
        } else {
            before
        }
    }
}

/// The bytes of a path that lines give a mark to: those of the first line that does.
pub open spec fn first_named(root: Seq<u8>, lines: Seq<Seq<char>>, path: Seq<Step>) -> Seq<u8>
    decreases lines.len(),
{
    if lines.len() == 0 {
        seq![]
    } else {
        let line = lines.last();
        let before = lines.drop_last();
        if marks_of(root, before).contains_key(path) || !has_path(line) {
            first_named(root, before, path)
        } else {
            full_path_of(root, line)
        }
    }
}

/// Whether the keys that lines give a mark to have the bytes of the first line that does.
pub open spec fn keys_named(
    entries: Seq<(TreePath, char)>,
    root: Seq<u8>,
    lines: Seq<Seq<char>>,
) -> bool {
    forall|i: int|
        0 <= i < entries.len() && marks_of(root, lines).contains_key(
            components_of((#[trigger] entries[i]).0@),
        ) ==> entries[i].0@ == first_named(root, lines, components_of(entries[i].0@))
}

/// Whether a path lies below the root and above another path.
pub open spec fn between(root: Seq<Step>, dir: Seq<Step>, path: Seq<Step>) -> bool {
    &&& root.len() < dir.len() < path.len()
    &&& root.is_prefix_of(dir)
    &&& dir.is_prefix_of(path)
}

/// Whether a directory below the root has something with a mark in it.
pub open spec fn holds_marked(
    root: Seq<Step>,
    marks: Map<Seq<Step>, char>,
    dir: Seq<Step>,
) -> bool {
    exists|path: Seq<Step>| #[trigger] marks.contains_key(path) && between(root, dir, path)
}

/// Whether a directory below the root has something in it with a mark other than that
/// of untracked files.
pub open spec fn holds_changed(
    root: Seq<Step>,
    marks: Map<Seq<Step>, char>,
    dir: Seq<Step>,
) -> bool {
    exists|path: Seq<Step>|
        #[trigger] marks.contains_key(path) && between(root, dir, path) && marks[path] != '?'
}

/// Marks, with those of the directories: one that holds changes is marked `M`, and one
/// that holds nothing but untracked files `?`.
pub open spec fn propagated(root: Seq<Step>, marks: Map<Seq<Step>, char>) -> Map<Seq<Step>, char> {
    Map::new(
        |p: Seq<Step>| marks.contains_key(p) || holds_marked(root, marks, p),
        |p: Seq<Step>|
            if holds_changed(root, marks, p) {
                'M'
            } else if holds_marked(root, marks, p) {
                '?'
            } else {
                marks[p]
            },
    )
}

/// The marks of the files and directories below a repository's root, from what
/// `git status --porcelain` printed.
pub open spec fn statuses_of(root: Seq<u8>, text: Seq<char>) -> Map<Seq<Step>, char> {
    propagated(components_of(root), marks_of(root, lines_of(text)))
}

/// A mark reaches every directory between the root and what bears it. Such a directory is
/// marked `M` if any mark in it is other than that of untracked files, and else `?`,
/// whatever its own mark was.
pub proof fn marks_reach_directories(
    root: Seq<u8>,
    text: Seq<char>,
    path: Seq<Step>,
    dir: Seq<Step>,
)
    requires
        marks_of(root, lines_of(text)).contains_key(path),
        between(components_of(root), dir, path),
    ensures
        statuses_of(root, text).contains_key(dir),
        statuses_of(root, text)[dir] == 'M' || statuses_of(root, text)[dir] == '?',
        statuses_of(root, text)[dir] == 'M' <==> holds_changed(
            components_of(root),
            marks_of(root, lines_of(text)),
            dir,
        ),
        marks_of(root, lines_of(text))[path] != '?' ==> statuses_of(root, text)[dir] == 'M',
{
    assert(holds_marked(components_of(root), marks_of(root, lines_of(text)), dir));
}

/// What has nothing marked below it has the mark that its line gives it, and none without
/// a line.
pub proof fn marks_of_files(root: Seq<u8>, text: Seq<char>, path: Seq<Step>)
    requires
        !holds_marked(components_of(root), marks_of(root, lines_of(text)), path),
    ensures
        statuses_of(root, text).contains_key(path) == marks_of(root, lines_of(text)).contains_key(
            path,
        ),
        statuses_of(root, text).contains_key(path) ==> statuses_of(root, text)[path] == marks_of(
            root,
            lines_of(text),
        )[path],
{
    let marks = marks_of(root, lines_of(text));
    if holds_changed(components_of(root), marks, path) {
        let p = choose|p: Seq<Step>| #[trigger]
            marks.contains_key(p) && between(components_of(root), path, p) && marks[p] != '?';
        assert(marks.contains_key(p) && between(components_of(root), path, p));
    }
}

/// A mark that lines give to a path is that of one of them.
proof fn lemma_marks_from(root: Seq<u8>, lines: Seq<Seq<char>>, path: Seq<Step>) -> (i: int)
    requires
        marks_of(root, lines).contains_key(path),
    ensures
        0 <= i < lines.len(),
        has_path(lines[i]),
        components_of(full_path_of(root, lines[i])) == path,
        marks_of(root, lines)[path] == mark_of(lines[i]),
    decreases lines.len(),
{
    let last = lines.len() - 1;
    if has_path(lines[last]) && components_of(full_path_of(root, lines[last])) == path {
        last
    } else {
        lemma_marks_from(root, lines.drop_last(), path)
    }
}

/// Every line that has a path gives it a mark.
proof fn lemma_marks_has(root: Seq<u8>, lines: Seq<Seq<char>>, i: int)
    requires
        0 <= i < lines.len(),
        has_path(lines[i]),
    ensures
        marks_of(root, lines).contains_key(components_of(full_path_of(root, lines[i]))),
    decreases lines.len(),
{
    if i < lines.len() - 1 {
        assert(lines.drop_last()[i] == lines[i]);
        lemma_marks_has(root, lines.drop_last(), i);
    }
}

/// Whether no two lines speak of one path.
pub open spec fn paths_differ(root: Seq<u8>, lines: Seq<Seq<char>>) -> bool {
    forall|i: int, j: int|
        0 <= i < j < lines.len() && has_path(#[trigger] lines[i]) && has_path(#[trigger] lines[j])
            ==> !same_path(full_path_of(root, lines[i]), full_path_of(root, lines[j]))
}

proof fn lemma_marks_reordered(
    root: Seq<u8>,
    lines: Seq<Seq<char>>,
    other: Seq<Seq<char>>,
    path: Seq<Step>,
)
    requires
        lines.to_multiset() == other.to_multiset(),
        paths_differ(root, lines),
    ensures
        marks_of(root, lines).contains_key(path) == marks_of(root, other).contains_key(path),
        marks_of(root, lines).contains_key(path) ==> marks_of(root, lines)[path] == marks_of(
            root,
            other,
        )[path],
{
    broadcast use vstd::seq_lib::group_to_multiset_ensures;

    if marks_of(root, lines).contains_key(path) {
        let i = lemma_marks_from(root, lines, path);
        assert(lines.contains(lines[i]));
        assert(other.to_multiset().count(lines[i]) > 0);
        let j = choose|j: int| 0 <= j < other.len() && other[j] == lines[i];
        lemma_marks_has(root, other, j);
    }
    if marks_of(root, other).contains_key(path) {
        let j = lemma_marks_from(root, other, path);
        assert(other.contains(other[j]));
        assert(lines.to_multiset().count(other[j]) > 0);
        let k = choose|k: int| 0 <= k < lines.len() && lines[k] == other[j];
        lemma_marks_has(root, lines, k);
        let i = lemma_marks_from(root, lines, path);
        assert(same_path(full_path_of(root, lines[i]), full_path_of(root, lines[k])));
        if i < k {
            assert(!same_path(full_path_of(root, lines[i]), full_path_of(root, lines[k])));
        } else if k < i {
            assert(!same_path(full_path_of(root, lines[k]), full_path_of(root, lines[i])));
        }
    }
}

/// Where no two lines speak of one path, their order is of no account.
pub proof fn line_order_is_free(root: Seq<u8>, text: Seq<char>, other: Seq<char>)
    requires
        lines_of(text).to_multiset() == lines_of(other).to_multiset(),
        paths_differ(root, lines_of(text)),
    ensures
        statuses_of(root, text) == statuses_of(root, other),
{
    let (a, b) = (marks_of(root, lines_of(text)), marks_of(root, lines_of(other)));
    assert forall|path: Seq<Step>| #[trigger]
        a.dom().contains(path) == b.dom().contains(path) by {
        lemma_marks_reordered(root, lines_of(text), lines_of(other), path);
    }
    assert forall|path: Seq<Step>| a.dom().contains(path) implies #[trigger] a[path] == b[path] by {
        lemma_marks_reordered(root, lines_of(text), lines_of(other), path);
    }
    assert(a =~= b);
}

/// The lines of a text.
fn split_lines(text: &str) -> (lines: Vec<String>)
    ensures
        lines@.map_values(|l: String| l@) == lines_of(text@),
{
    let chars = to_chars(text);
    let mut lines: Vec<String> = Vec::new();
    let mut start: usize = 0;
    let ghost all = lines_of(text@);
    assert(chars@.skip(0) =~= text@);
    assert(lines@.map_values(|l: String| l@) =~= seq![]);
    while start < chars.len()
        invariant
            start <= chars@.len(),
            all == lines@.map_values(|l: String| l@) + lines_of(chars@.skip(start as int)),
        decreases chars@.len() - start,
    {
        let ghost rest = chars@.skip(start as int);
        let ghost before = lines@;
        let end = find_char(&chars, start, '\n');
        proof {
            lemma_first_of(rest, '\n');
        }
        if end == chars.len() {
            let line = from_chars(&chars, start, end);
            assert(line@ =~= rest);
            lines.push(line);
            start = end;
            assert(chars@.skip(start as int) =~= seq![]);
        } else {
            let stop = if end > start && chars[end - 1] == '\r' {
                end - 1
            } else {
                end
            };
            let line = from_chars(&chars, start, stop);
            assert(line@ =~= chomped(rest.take(end - start)));
            lines.push(line);
            start = end + 1;
            assert(chars@.skip(start as int) =~= rest.skip(first_of(rest, '\n') + 1));
        }
        assert(lines@.map_values(|l: String| l@) =~= before.map_values(|l: String| l@).push(
            lines@.last()@,
        ));
        assert(all =~= lines@.map_values(|l: String| l@) + lines_of(chars@.skip(start as int)));
    }
    assert(chars@.skip(start as int) =~= seq![]);
    assert(lines@.map_values(|l: String| l@) =~= all);
    lines
}

/// The first position of a character from `start` on, or the text's length.
fn find_char(chars: &Vec<char>, start: usize, c: char) -> (i: usize)
    requires
        start <= chars@.len(),
    ensures
        start <= i <= chars@.len(),
        i == start + first_of(chars@.skip(start as int), c),
{
    let ghost rest = chars@.skip(start as int);
    let mut i: usize = start;
    while i < chars.len() && chars[i] != c
        invariant
            start <= i <= chars@.len(),
            rest == chars@.skip(start as int),
            forall|j: int| 0 <= j < i - start ==> rest[j] != c,
        decreases chars@.len() - i,
    {
        i = i + 1;
    }
    proof {
        lemma_first_of(rest, c);
        let k = first_of(rest, c);
        if k < i - start {
            assert(rest[k] == c);
        }
        if i < chars@.len() {
            assert(rest[i - start] == c);
        }
    }
    i
}

/// Where what stands after the last arrow begins.
fn skip_arrows(chars: &Vec<char>) -> (start: usize)
    ensures
        start <= chars@.len(),
        chars@.skip(start as int) == after_arrows(chars@),
{
    let mut start: usize = 0;
    assert(chars@.skip(0) =~= chars@);
    loop
        invariant
            start <= chars@.len(),
            after_arrows(chars@) == after_arrows(chars@.skip(start as int)),
        decreases chars@.len() - start,
    {
        let ghost rest = chars@.skip(start as int);
        let mut i: usize = start;
        while i < chars.len() && !(chars.len() - i >= 4 && chars[i] == ' ' && chars[i + 1] == '-'
            && chars[i + 2] == '>' && chars[i + 3] == ' ')
            invariant
                start <= i <= chars@.len(),
                rest == chars@.skip(start as int),
                forall|j: int| 0 <= j < i - start ==> !arrow_at(rest, j),
            decreases chars@.len() - i,
        {
            i = i + 1;
        }
        proof {
            lemma_first_arrow(rest);
            let k = first_arrow(rest);
            if i < chars@.len() {
                assert(arrow_at(rest, i - start));
            }
            if k < i - start {
                assert(!arrow_at(rest, k));
            }
            assert(k == i - start);
        }
        if i >= chars.len() {
            return start;
        }
        assert(rest.skip(i - start + 4) =~= chars@.skip(i + 4));
        start = i + 4;
    }
}

/// The part of a text, from `start` on, without the double quotes around it.
fn unquote(chars: &Vec<char>, start: usize) -> (text: String)
    requires
        start <= chars@.len(),
    ensures
        text@ == unquoted_end(unquoted_start(chars@.skip(start as int))),
{
    let mut from: usize = start;
    while from < chars.len() && chars[from] == '"'
        invariant
            start <= from <= chars@.len(),
            unquoted_start(chars@.skip(start as int)) == unquoted_start(chars@.skip(from as int)),
        decreases chars@.len() - from,
    {
        assert(chars@.skip(from as int).drop_first() =~= chars@.skip(from + 1));
        from = from + 1;
    }
    let ghost rest = chars@.skip(from as int);
    let mut to: usize = chars.len();
    assert(rest =~= chars@.subrange(from as int, to as int));
    while to > from && chars[to - 1] == '"'
        invariant
            from <= to <= chars@.len(),
            unquoted_end(rest) == unquoted_end(chars@.subrange(from as int, to as int)),
        decreases to,
    {
        assert(chars@.subrange(from as int, to as int).drop_last() =~= chars@.subrange(
            from as int,
            to - 1,
        ));
        to = to - 1;
    }
    from_chars(chars, from, to)
}

/// The mark of a line of characters.
fn line_mark(chars: &Vec<char>) -> (mark: char)
    ensures
        mark == mark_of(chars@),
{
    let index = if chars.len() > 0 {
        chars[0]
    } else {
        ' '
    };
    let tree = if chars.len() > 1 {
        chars[1]
    } else {
        ' '
    };
    if index != ' ' {
        index
    } else {
        tree
    }
}

/// Whether every line of a text can be divided into its marks and its path.
pub fn status_divides(text: &str) -> (r: bool)
    ensures
        r == all_divide(lines_of(text@)),
{
    let lines = split_lines(text);
    let ghost all = lines_of(text@);
    let mut i: usize = 0;
    while i < lines.len()
        invariant
            i <= lines@.len(),
            all == lines_of(text@),
            lines@.map_values(|l: String| l@) == all,
            forall|j: int| 0 <= j < i ==> divides(#[trigger] all[j]),
        decreases lines@.len() - i,
    {
        let line = lines[i].as_str();
        assert(line@ == all[i as int]);
        if line.as_bytes().len() > 3 && !line.is_char_boundary(3) {
            assert(!divides(all[i as int]));
            return false;
        }
        i = i + 1;
    }
    true
}

/// The path that a line speaks of.
fn line_path(line: &str, chars: &Vec<char>) -> (text: String)
    requires
        chars@ == line@,
        has_path(line@),
        divides(line@),
    ensures
        text@ == path_of(line@),
{
    let rest = line.split_at(3).1;
    let chars_left = to_chars(rest);
    proof {
        encode_utf8_decode_utf8(rest@);
        assert(encode_utf8(line@).subrange(3, encode_utf8(line@).len() as int) =~= encode_utf8(
            line@,
        ).skip(3));
        assert(chars_left@ == after_marks(line@));
        assert(chars_left@.skip(0) =~= chars_left@);
    }
    let start = if line_mark(chars) == 'R' {
        skip_arrows(&chars_left)
    } else {
        0
    };
    unquote(&chars_left, start)
}

/// Keys stay named after their first line when the last line's path is added.
proof fn lemma_keys_named_insert(
    before: Seq<(TreePath, char)>,
    root: Seq<u8>,
    lines: Seq<Seq<char>>,
    path: TreePath,
)
    requires
        keys_distinct(before),
        lines.len() > 0,
        has_path(lines.last()),
        path@ == full_path_of(root, lines.last()),
        entries_map(before) == marks_of(root, lines.drop_last()),
        keys_named(before, root, lines.drop_last()),
    ensures
        keys_named(entries_with(before, path, mark_of(lines.last())), root, lines),
{
    let ahead = lines.drop_last();
    let key = components_of(path@);
    let now = entries_with(before, path, mark_of(lines.last()));
    assert forall|i: int|
        0 <= i < now.len() && marks_of(root, lines).contains_key(
            components_of((#[trigger] now[i]).0@),
        ) implies now[i].0@ == first_named(root, lines, components_of(now[i].0@)) by {
        if i < before.len() {
            assert(now[i].0 == before[i].0);
            lemma_entry(before, i);
        } else if marks_of(root, ahead).contains_key(key) {
            assert(exists|j: int| holds_key(before, j, key));
        }
    }
}

/// The marks that the lines of a text give to paths.
fn read_marks(root: &TreePath, text: &str) -> (marks: PathMap<char>)
    requires
        all_divide(lines_of(text@)),
    ensures
        marks@ == marks_of(root@, lines_of(text@)),
        keys_named(marks.entries(), root@, lines_of(text@)),
{
    let lines = split_lines(text);
    let ghost all = lines_of(text@);
    let mut marks: PathMap<char> = PathMap::new();
    let mut i: usize = 0;
    assert(all.take(0) =~= seq![]);
    while i < lines.len()
        invariant
            i <= lines@.len(),
            lines@.map_values(|l: String| l@) == all,
            all_divide(all),
            marks@ == marks_of(root@, all.take(i as int)),
            keys_named(marks.entries(), root@, all.take(i as int)),
        decreases lines@.len() - i,
    {
        let line = lines[i].as_str();
        proof {
            assert(line@ == all[i as int]);
            assert(divides(all[i as int]));
            assert(all.take(i + 1).drop_last() =~= all.take(i as int));
            assert(all.take(i + 1).last() == line@);
        }
        if line.as_bytes().len() > 3 {
            let chars = to_chars(line);
            let named = line_path(line, &chars);
            let bytes = named.as_str().as_bytes_vec();
            let path = root.join(&bytes);
            let ghost before = marks.entries();
            proof {
                use_type_invariant(&marks);
            }
            marks.insert(path, line_mark(&chars));
            proof {
                lemma_keys_named_insert(before, root@, all.take(i + 1), path);
            }
        }
        i = i + 1;
    }
    assert(all.take(i as int) =~= all);
    marks
}

/// Whether one of the first `n` entries lies in a directory below the root.
spec fn some_in(
    root: Seq<Step>,
    entries: Seq<(TreePath, char)>,
    n: int,
    dir: Seq<Step>,
) -> bool {
    exists|j: int|
        0 <= j < n && between(root, dir, components_of((#[trigger] entries[j]).0@))
}

/// Whether one of the first `n` entries lies in a directory below the root and is not
/// untracked.
spec fn some_changed_in(
    root: Seq<Step>,
    entries: Seq<(TreePath, char)>,
    n: int,
    dir: Seq<Step>,
) -> bool {
    exists|j: int|
        0 <= j < n && between(root, dir, components_of((#[trigger] entries[j]).0@)) && entries[j].1
            != '?'
}

/// Whether `dirs` has the marks that the first `n` entries give to directories, and
/// those that the entry after them gives to directories of more than `above`
/// components.
spec fn dirs_marked(
    dirs: Map<Seq<Step>, char>,
    root: Seq<Step>,
    entries: Seq<(TreePath, char)>,
    n: int,
    above: int,
) -> bool {
    forall|dir: Seq<Step>| #[trigger]
        dirs.contains_key(dir) == (some_in(root, entries, n, dir) || marks_above(
            root,
            entries,
            n,
            above,
            dir,
        )) && (dirs.contains_key(dir) ==> dirs[dir] == if some_changed_in(root, entries, n, dir)
            || (marks_above(root, entries, n, above, dir) && entries[n].1 != '?') {
            'M'
        } else {
            '?'
        })
}

/// Whether entry `n` lies in a directory of more than `above` components below the root.
spec fn marks_above(
    root: Seq<Step>,
    entries: Seq<(TreePath, char)>,
    n: int,
    above: int,
    dir: Seq<Step>,
) -> bool {
    0 <= n < entries.len() && dir.len() > above && between(
        root,
        dir,
        components_of(entries[n].0@),
    )
}

/// Adds the marks that one entry gives to the directories above it.
fn mark_parents(
    dirs: &mut PathMap<char>,
    root: &TreePath,
    path: &TreePath,
    mark: char,
    Ghost(entries): Ghost<Seq<(TreePath, char)>>,
    Ghost(n): Ghost<int>,
)
    requires
        0 <= n < entries.len(),
        entries[n].0@ == path@,
        entries[n].1 == mark,
        dirs_marked(
            old(dirs)@,
            components_of(root@),
            entries,
            n,
            components_of(path@).len() as int,
        ),
    ensures
        dirs_marked(final(dirs)@, components_of(root@), entries, n, 0),
{
    let ghost top = components_of(root@);
    let ghost full = components_of(path@);
    let ghost mut above = full.len() as int;
    let mut parent = path.parent();
    proof {
        parent_drops_last(path@);
        assert(dirs_marked(dirs@, top, entries, n, full.len() - 1)) by {
            assert forall|dir: Seq<Step>|
                marks_above(top, entries, n, full.len() - 1, dir) == marks_above(
                    top,
                    entries,
                    n,
                    full.len() as int,
                    dir,
                ) by {}
        }
        above = full.len() - 1;
    }
    loop
        invariant
            0 <= n < entries.len(),
            entries[n].0@ == path@,
            entries[n].1 == mark,
            top == components_of(root@),
            full == components_of(path@),
            dirs_marked(dirs@, top, entries, n, above),
            match parent {
                Some(p) => 0 <= above < full.len() && components_of(p@) == full.take(above),
                None => above <= 0,
            },
        ensures
            dirs_marked(dirs@, top, entries, n, 0),
        decreases above + 1,
    {
        match parent {
            None => {
                proof {
                    assert forall|dir: Seq<Step>|
                        marks_above(top, entries, n, 0, dir) == marks_above(
                            top,
                            entries,
                            n,
                            above,
                            dir,
                        ) by {}
                }
                break;
            },
            Some(p) => {
                let ghost dir = components_of(p@);
                if p.same(root) || !p.starts_with(root) {
                    proof {
                        assert forall|d: Seq<Step>|
                            marks_above(top, entries, n, 0, d) == marks_above(
                                top,
                                entries,
                                n,
                                above,
                                d,
                            ) by {
                            if marks_above(top, entries, n, 0, d) && d.len() <= above {
                                assert(d =~= full.take(d.len() as int));
                                assert(top =~= dir.take(top.len() as int));
                            }
                        }
                    }
                    break;
                }
                let ghost before = dirs@;
                let current = match dirs.get(&p) {
                    Some(c) => *c,
                    None => ' ',
                };
                parent = p.parent();
                proof {
                    parent_drops_last(p@);
                    assert(above > 0) by {
                        if top.len() == dir.len() {
                            assert(top =~= dir);
                        }
                    }
                    assert(before.contains_key(dir) ==> before[dir] == 'M' || before[dir] == '?');
                }
                if mark == '?' {
                    if current == ' ' {
                        dirs.insert(p, '?');
                    }
                } else {
                    dirs.insert(p, 'M');
                }
                proof {
                    assert(between(top, dir, full)) by {
                        if top.len() == dir.len() {
                            assert(top =~= dir);
                        }
                        assert(dir =~= full.take(dir.len() as int));
                    }
                    assert(marks_above(top, entries, n, above - 1, dir));
                    assert(!marks_above(top, entries, n, above, dir));
                    assert forall|d: Seq<Step>| d != dir implies marks_above(
                        top,
                        entries,
                        n,
                        above - 1,
                        d,
                    ) == marks_above(top, entries, n, above, d) by {
                        if marks_above(top, entries, n, above - 1, d) && d.len() == above {
                            assert(d =~= full.take(above));
                        }
                    }
                    assert forall|d: Seq<Step>| #[trigger]
                        dirs@.contains_key(d) == (some_in(top, entries, n, d) || marks_above(
                            top,
                            entries,
                            n,
                            above - 1,
                            d,
                        )) && (dirs@.contains_key(d) ==> dirs@[d] == if some_changed_in(
                            top,
                            entries,
                            n,
                            d,
                        ) || (marks_above(top, entries, n, above - 1, d) && entries[n].1 != '?') {
                            'M'
                        } else {
                            '?'
                        }) by {
                        assert(before.contains_key(d) == (some_in(top, entries, n, d)
                            || marks_above(top, entries, n, above, d)));
                    }
                    assert(dirs_marked(dirs@, top, entries, n, above - 1));
                    if parent is Some {
                        assert(dir.drop_last() =~= full.take(above - 1));
                    } else {
                        assert(dir.len() <= 1);
                    }
                    above = above - 1;
                }
            },
        }
    }
}

/// Whether `dirs` has the marks that the first `n` entries give to directories.
spec fn dirs_marked_by(
    dirs: Map<Seq<Step>, char>,
    root: Seq<Step>,
    entries: Seq<(TreePath, char)>,
    n: int,
) -> bool {
    forall|dir: Seq<Step>| #[trigger]
        dirs.contains_key(dir) == some_in(root, entries, n, dir) && (dirs.contains_key(dir)
            ==> dirs[dir] == if some_changed_in(root, entries, n, dir) {
            'M'
        } else {
            '?'
        })
}

/// Once an entry's marks are all there, it counts among the entries before.
proof fn lemma_next_entry(
    dirs: Map<Seq<Step>, char>,
    root: Seq<Step>,
    entries: Seq<(TreePath, char)>,
    n: int,
)
    requires
        0 <= n < entries.len(),
        dirs_marked(dirs, root, entries, n, 0),
    ensures
        dirs_marked_by(dirs, root, entries, n + 1),
{
    assert forall|dir: Seq<Step>| #[trigger]
        dirs.contains_key(dir) == some_in(root, entries, n + 1, dir) && (dirs.contains_key(dir)
            ==> dirs[dir] == if some_changed_in(root, entries, n + 1, dir) {
            'M'
        } else {
            '?'
        }) by {
        let path = components_of(entries[n].0@);
        assert(marks_above(root, entries, n, 0, dir) == between(root, dir, path));
        if some_in(root, entries, n + 1, dir) {
            let j = choose|j: int|
                0 <= j < n + 1 && between(root, dir, components_of((#[trigger] entries[j]).0@));
            assert(j < n ==> some_in(root, entries, n, dir));
        }
        if some_changed_in(root, entries, n + 1, dir) {
            let j = choose|j: int|
                0 <= j < n + 1 && between(root, dir, components_of((#[trigger] entries[j]).0@))
                    && entries[j].1 != '?';
            assert(j < n ==> some_changed_in(root, entries, n, dir));
        }
        if between(root, dir, path) {
            assert(some_in(root, entries, n + 1, dir));
        }
    }
}

/// The marks of the directories that hold what is marked.
fn mark_dirs(root: &TreePath, marks: &PathMap<char>) -> (dirs: PathMap<char>)
    ensures
        dirs_marked_by(
            dirs@,
            components_of(root@),
            marks.entries(),
            marks.entries().len() as int,
        ),
{
    let ghost entries = marks.entries();
    let ghost top = components_of(root@);
    let mut dirs: PathMap<char> = PathMap::new();
    let mut i: usize = 0;
    while i < marks.len()
        invariant
            i <= entries.len(),
            entries == marks.entries(),
            top == components_of(root@),
            dirs_marked_by(dirs@, top, entries, i as int),
        decreases entries.len() - i,
    {
        let entry = marks.entry(i);
        proof {
            let len = components_of(entry.0@).len() as int;
            assert forall|dir: Seq<Step>| !marks_above(top, entries, i as int, len, dir) by {}
            assert forall|dir: Seq<Step>| #[trigger]
                dirs@.contains_key(dir) == (some_in(top, entries, i as int, dir) || marks_above(
                    top,
                    entries,
                    i as int,
                    len,
                    dir,
                )) && (dirs@.contains_key(dir) ==> dirs@[dir] == if some_changed_in(
                    top,
                    entries,
                    i as int,
                    dir,
                ) || (marks_above(top, entries, i as int, len, dir) && entries[i as int].1 != '?') {
                    'M'
                } else {
                    '?'
                }) by {
                assert(!marks_above(top, entries, i as int, len, dir));
            }
        }
        mark_parents(&mut dirs, root, &entry.0, entry.1, Ghost(entries), Ghost(i as int));
        proof {
            lemma_next_entry(dirs@, top, entries, i as int);
        }
        i = i + 1;
    }
    dirs
}

/// Whether one of the first `n` entries has a key.
spec fn among(entries: Seq<(TreePath, char)>, n: int, k: Seq<Step>) -> bool {
    exists|j: int| j < n && holds_key(entries, j, k)
}

/// Adds the marks of the directories that hold what is marked.
fn propagate(root: &TreePath, marks: PathMap<char>) -> (r: PathMap<char>)
    ensures
        r@ == propagated(components_of(root@), marks@),
        marks.entries().len() <= r.entries().len(),
        forall|j: int|
            0 <= j < marks.entries().len() ==> (#[trigger] r.entries()[j]).0
                == marks.entries()[j].0,
{
    let dirs = mark_dirs(root, &marks);
    let ghost top = components_of(root@);
    let ghost entries = marks.entries();
    let ghost own = marks@;
    proof {
        use_type_invariant(&marks);
        use_type_invariant(&dirs);
        assert forall|dir: Seq<Step>| #[trigger]
            dirs@.contains_key(dir) == holds_marked(top, own, dir) && (dirs@.contains_key(dir)
                ==> dirs@[dir] == if holds_changed(top, own, dir) {
                'M'
            } else {
                '?'
            }) by {
            let n = entries.len() as int;
            assert forall|j: int| 0 <= j < n implies own.contains_key(
                components_of((#[trigger] entries[j]).0@),
            ) && own[components_of(entries[j].0@)] == entries[j].1 by {
                lemma_entry(entries, j);
            }
            if holds_marked(top, own, dir) {
                let path = choose|path: Seq<Step>| #[trigger]
                    own.contains_key(path) && between(top, dir, path);
                let j = choose|j: int| holds_key(entries, j, path);
                assert(between(top, dir, components_of(entries[j].0@)));
            }
            if holds_changed(top, own, dir) {
                let path = choose|path: Seq<Step>| #[trigger]
                    own.contains_key(path) && between(top, dir, path) && own[path] != '?';
                let j = choose|j: int| holds_key(entries, j, path);
                assert(between(top, dir, components_of(entries[j].0@)) && entries[j].1 != '?');
            }
            if some_in(top, entries, n, dir) {
                let j = choose|j: int|
                    0 <= j < n && between(top, dir, components_of((#[trigger] entries[j]).0@));
                assert(own.contains_key(components_of(entries[j].0@)));
            }
            if some_changed_in(top, entries, n, dir) {
                let j = choose|j: int|
                    0 <= j < n && between(top, dir, components_of((#[trigger] entries[j]).0@))
                        && entries[j].1 != '?';
                assert(own.contains_key(components_of(entries[j].0@)));
            }
        }
    }
    let mut r = marks;
    let ghost added = dirs.entries();
    let mut i: usize = 0;
    while i < dirs.len()
        invariant
            i <= added.len(),
            added == dirs.entries(),
            dirs@ == entries_map(added),
            entries == marks.entries(),
            entries.len() <= r.entries().len(),
            forall|j: int|
                0 <= j < entries.len() ==> (#[trigger] r.entries()[j]).0 == entries[j].0,
            forall|k: Seq<Step>| #[trigger]
                r@.contains_key(k) == (own.contains_key(k) || among(added, i as int, k)),
            forall|k: Seq<Step>| #[trigger]
                r@.contains_key(k) ==> r@[k] == if among(added, i as int, k) {
                    dirs@[k]
                } else {
                    own[k]
                },
        decreases added.len() - i,
    {
        let ghost before = r@;
        let entry = dirs.entry(i);
        let ghost key = components_of(entry.0@);
        r.insert(entry.0.clone(), entry.1);
        proof {
            assert(holds_key(added, i as int, key));
            assert forall|k: Seq<Step>| #[trigger]
                among(added, i + 1, k) == (k == key || among(added, i as int, k)) by {
                if among(added, i + 1, k) {
                    let j = choose|j: int| j < i + 1 && holds_key(added, j, k);
                    assert(j == i ==> k == key);
                }
            }
        }
        i = i + 1;
    }
    proof {
        assert forall|k: Seq<Step>| #[trigger]
            among(added, i as int, k) == dirs@.contains_key(k) by {
            if dirs@.contains_key(k) {
                let j = choose|j: int| holds_key(added, j, k);
                assert(j < i && holds_key(added, j, k));
            }
        }
        assert forall|k: Seq<Step>| holds_changed(top, own, k) implies holds_marked(top, own, k) by {
            let path = choose|path: Seq<Step>| #[trigger]
                own.contains_key(path) && between(top, k, path) && own[path] != '?';
            assert(own.contains_key(path) && between(top, k, path));
        }
        let want = propagated(top, own);
        assert forall|k: Seq<Step>| r@.contains_key(k) == want.contains_key(k) by {
            assert(dirs@.contains_key(k) == holds_marked(top, own, k));
        }
        assert forall|k: Seq<Step>| r@.contains_key(k) implies r@[k] == want[k] by {
            assert(dirs@.contains_key(k) == holds_marked(top, own, k));
        }
        assert(r@ =~= want);
    }
    r
}

/// The marks of the files and directories below a repository's root, from the text that
/// `git status --porcelain` printed.
pub fn read_statuses(root: &TreePath, text: &str) -> (statuses: PathMap<char>)
    requires
        all_divide(lines_of(text@)),
    ensures
        statuses@ == statuses_of(root@, text@),
        keys_named(statuses.entries(), root@, lines_of(text@)),
{
    let marks = read_marks(root, text);
    let ghost named = marks.entries();
    let ghost lines = lines_of(text@);
    let statuses = propagate(root, marks);
    proof {
        use_type_invariant(&statuses);
        let entries = statuses.entries();
        assert forall|i: int|
            0 <= i < entries.len() && marks_of(root@, lines).contains_key(
                components_of((#[trigger] entries[i]).0@),
            ) implies entries[i].0@ == first_named(
            root@,
            lines,
            components_of(entries[i].0@),
        ) by {
            let key = components_of(entries[i].0@);
            let j = choose|j: int| holds_key(named, j, key);
            assert(entries[j].0 == named[j].0);
            assert(same_path(entries[i].0@, entries[j].0@));
            assert(same_path(entries[j].0@, entries[i].0@));
            assert(i == j);
        }
    }
    statuses
}

}
