//! What is asked, what follows, and where the explorer begins.

use vstd::prelude::*;
use vstd::utf8::*;

use super::events::{ActionView, Event, KeyCode, KeyEvent, ResultView};
use super::laws::{lemma_parent_shown, opened_shows_root};
use super::prompts::{
    create_of, delete_of, outcome_for, question_of, rename_of, CreateView, DeleteView, OutcomeView,
    PromptEvent,
};
use super::{opened, opened_explorer, output_readable, output_statuses, ExplorerView};
use crate::git::{lines_of, statuses_of};
use crate::listing::Disk;
use crate::marks::readable_by_fourth_byte;
use crate::path::{
    components_of, entry_path, file_name_of, join_of, parent_drops_last, parent_of, valid_name,
    Step,
};
use crate::spelling::parent_of_root;
use crate::text::lossy_text;
use crate::tree::refreshed;

verus! {

/// The question about a file has its name between the words of the question.
pub proof fn questions_hold_names(action: ActionView)
    ensures
        action is Create ==> question_of(action) == Some("create: "@),
        action matches ActionView::Delete { path, is_dir, name } ==> question_of(action) == Some(
            "delete "@ + name + "? (y/n): "@,
        ),
        action matches ActionView::Rename { path, name } ==> question_of(action) == Some(
            "rename "@ + name + " to: "@,
        ),
        action is Close || action is Open ==> question_of(action) is None,
{
}

/// A change of files that went well is followed by a refresh, and only a deletion sets the
/// cursor right. One that failed is reported under its own name, with the reason.
pub proof fn changes_are_followed(action: ActionView, reason: Seq<char>)
    ensures
        action is Create || action is Rename ==> outcome_for(action, None) == Some(
            OutcomeView::Refresh,
        ),
        action is Delete ==> outcome_for(action, None) == Some(OutcomeView::RefreshAndClamp),
        action is Create ==> outcome_for(action, Some(reason)) == Some(
            OutcomeView::Report("Create failed: "@ + reason),
        ),
        action is Delete ==> outcome_for(action, Some(reason)) == Some(
            OutcomeView::Report("Delete failed: "@ + reason),
        ),
        action is Rename ==> outcome_for(action, Some(reason)) == Some(
            OutcomeView::Report("Rename failed: "@ + reason),
        ),
        action is Close || action is Open ==> outcome_for(action, None) is None && outcome_for(
            action,
            Some(reason),
        ) is None,
{
}

/// Setting the cursor right moves it to the last item if it was behind that, and changes
/// nothing else.
pub proof fn clamped_to_last(e: ExplorerView)
    ensures
        e.clamped() == (ExplorerView { cursor: e.clamped().cursor, ..e }),
        e.cursor < e.items().len() ==> e.clamped().cursor == e.cursor,
        e.cursor >= e.items().len() ==> e.clamped().cursor + 1 == e.items().len(),
{
}

/// Moving goes as far as there are items, and keeps the cursor in the rows of the area, of
/// which two are not the explorer's; the scroll offset moves only if it has to, and then
/// just as far as it has to.
pub proof fn moving_in_area(e: ExplorerView, delta: int, height: int)
    requires
        height > 2,
    ensures
        ({
            let after = e.after_move(delta, height);
            let last = e.items().len() - 1;
            &&& after == (ExplorerView {
                cursor: after.cursor,
                scroll_offset: after.scroll_offset,
                ..e
            })
            &&& delta > 0 && e.cursor + delta <= last ==> after.cursor == e.cursor + delta
            &&& delta > 0 && e.cursor + delta > last ==> after.cursor == last
            &&& delta <= 0 && e.cursor + delta >= 0 ==> after.cursor == e.cursor + delta
            &&& delta <= 0 && e.cursor + delta < 0 ==> after.cursor == 0
            &&& after.scroll_offset <= after.cursor <= after.scroll_offset + (height - 3)
            &&& after.scroll_offset < e.scroll_offset ==> after.scroll_offset == after.cursor
            &&& after.scroll_offset > e.scroll_offset ==> after.scroll_offset + (height - 3)
                == after.cursor
        }),
{
}

/// Without output of `git status` nothing is marked, and that is no failure.
pub proof fn no_output_no_marks(root: Seq<u8>)
    ensures
        output_readable(None),
        output_statuses(root, None) == Map::<Seq<Step>, char>::empty(),
{
}

/// Output of `git status` can be read if and only if no line of it has a fourth byte that
/// continues a character.
pub proof fn output_readable_exactly(output: Seq<u8>)
    ensures
        output_readable(Some(output)) <==> forall|i: int|
            0 <= i < lines_of(lossy_text(output)).len() && encode_utf8(
                #[trigger] lines_of(lossy_text(output))[i],
            ).len() > 3 ==> !(0x80 <= encode_utf8(lines_of(lossy_text(output))[i])[3] <= 0xbf),
{
    readable_by_fourth_byte(lines_of(lossy_text(output)));
}

/// The root of an explorer that was just opened: it has the path that was asked for, is at
/// depth 0 and expanded, and is named after the last component of its path or, where that
/// is no name, after all of it.
pub proof fn opened_root(path: Seq<u8>, is_dir: bool, disk: Disk)
    ensures
        ({
            let root = opened(path, is_dir, disk);
            &&& root.path == path
            &&& root.is_dir == is_dir
            &&& root.depth == 0
            &&& root.expanded
            &&& root.children_loaded == is_dir
            &&& root.name == match file_name_of(path) {
                Some(name) => lossy_text(name),
                None => lossy_text(path),
            }
        }),
{
}

/// Only an answer that is confirmed and not empty creates something: a directory if it ends
/// in a slash, and else a file, with the directory that the file lies in.
pub proof fn create_answers(base: Seq<u8>, input: Seq<char>, event: PromptEvent)
    ensures
        event is Update || event is Abort ==> create_of(base, input, event) is None,
        input.len() == 0 ==> create_of(base, input, event) is None,
        event is Validate && input.len() > 0 && input[input.len() - 1] == '/' ==> create_of(
            base,
            input,
            event,
        ) == Some(CreateView::Directory(join_of(base, encode_utf8(input)))),
        event is Validate && input.len() > 0 && input[input.len() - 1] != '/' ==> (create_of(
            base,
            input,
            event,
        ) matches Some(CreateView::File { path, parent }) && path == join_of(
            base,
            encode_utf8(input),
        ) && match parent {
            Some(dir) => components_of(dir) == components_of(path).drop_last(),
            None => components_of(path).len() == 0 || components_of(path) == seq![Step::Root],
        }),
{
    parent_drops_last(join_of(base, encode_utf8(input)));
}

/// A name given for something new next to a selected file becomes a file in the directory
/// that the selected one lies in.
pub proof fn created_next_to_file(e: ExplorerView, control: bool, name: Seq<char>)
    requires
        e.focused,
        e.well_formed(),
        0 < e.cursor < e.items().len(),
        !e.items()[e.cursor as int].is_dir,
        valid_name(encode_utf8(name)),
        name.len() > 0,
        name[name.len() - 1] != '/',
    ensures
        ({
            let key = Event::Key(KeyEvent { code: KeyCode::Char('a'), control });
            let steps = components_of(e.items()[e.cursor as int].path);
            e.result_of(key) matches ResultView::Consumed(Some(ActionView::Create { base_dir })) && (
            create_of(base_dir, name, PromptEvent::Validate) matches Some(
                CreateView::File { path, parent },
            ) && components_of(path) == steps.drop_last().push(Step::Normal(encode_utf8(name))))
        }),
{
    let node = e.items()[e.cursor as int];
    let steps = components_of(node.path);
    let base = e.create_dir(node);
    let j = lemma_parent_shown(e.root, e.cursor as int);
    parent_drops_last(node.path);
    entry_path(base, encode_utf8(name));
}

/// A name given for something new in a selected directory becomes a file in it.
pub proof fn created_in_directory(e: ExplorerView, control: bool, name: Seq<char>)
    requires
        e.focused,
        e.cursor < e.items().len(),
        e.items()[e.cursor as int].is_dir,
        valid_name(encode_utf8(name)),
        name.len() > 0,
        name[name.len() - 1] != '/',
    ensures
        ({
            let key = Event::Key(KeyEvent { code: KeyCode::Char('a'), control });
            let steps = components_of(e.items()[e.cursor as int].path);
            e.result_of(key) matches ResultView::Consumed(Some(ActionView::Create { base_dir })) && (
            create_of(base_dir, name, PromptEvent::Validate) matches Some(
                CreateView::File { path, parent },
            ) && components_of(path) == steps.push(Step::Normal(encode_utf8(name))))
        }),
{
    entry_path(e.items()[e.cursor as int].path, encode_utf8(name));
}

/// Only `y` and `yes`, confirmed, delete; and what they delete is what was asked about, as a
/// directory if it is one.
pub proof fn delete_answers(path: Seq<u8>, is_dir: bool, input: Seq<char>, event: PromptEvent)
    ensures
        delete_of(path, is_dir, input, event) is Some <==> event is Validate && (input == "y"@
            || input == "yes"@),
        delete_of(path, is_dir, input, event) matches Some(request) ==> request == if is_dir {
            DeleteView::Directory(path)
        } else {
            DeleteView::File(path)
        },
{
}

/// A confirmed yes to the question that `d` puts removes the item under the cursor, with all
/// that is in it exactly if it is a directory.
pub proof fn confirmed_delete(e: ExplorerView, input: Seq<char>)
    requires
        e.focused,
        e.cursor < e.items().len(),
        input == "y"@ || input == "yes"@,
    ensures
        ({
            let key = Event::Key(KeyEvent { code: KeyCode::Char('d'), control: false });
            let node = e.items()[e.cursor as int];
            e.result_of(key) matches ResultView::Consumed(
                Some(ActionView::Delete { path, is_dir, name }),
            ) && delete_of(path, is_dir, input, PromptEvent::Validate) == Some(
                if node.is_dir {
                    DeleteView::Directory(node.path)
                } else {
                    DeleteView::File(node.path)
                },
            )
        }),
{
}

/// Only an answer that is confirmed and not empty renames, and only what lies in a
/// directory. The new path is the answer, in that directory.
pub proof fn rename_answers(path: Seq<u8>, input: Seq<char>, event: PromptEvent)
    ensures
        ({
            let steps = components_of(path);
            &&& rename_of(path, input, event) is Some <==> event is Validate && input.len() > 0
                && steps.len() > 0 && steps != seq![Step::Root]
            &&& rename_of(path, input, event) matches Some(request) ==> request.from == path && (
            valid_name(encode_utf8(input)) ==> components_of(request.to)
                == steps.drop_last().push(Step::Normal(encode_utf8(input)))) && exists|dir: Seq<u8>|
                components_of(dir) == steps.drop_last() && request.to == #[trigger] join_of(
                    dir,
                    encode_utf8(input),
                )
        }),
{
    parent_drops_last(path);
    parent_of_root(path);
    if parent_of(path) is Some {
        let dir = parent_of(path).unwrap();
        if valid_name(encode_utf8(input)) {
            entry_path(dir, encode_utf8(input));
        }
        assert(join_of(dir, encode_utf8(input)) == join_of(dir, encode_utf8(input)));
    }
}

/// Reading again keeps the cursor, the scroll offset and the focus, and takes the marks from
/// the new output alone, in the root of the tree.
pub proof fn refresh_keeps_place(e: ExplorerView, disk: Disk, output: Seq<u8>)
    ensures
        ({
            let after = e.after_refresh(disk, Some(output));
            &&& after.cursor == e.cursor
            &&& after.scroll_offset == e.scroll_offset
            &&& after.focused == e.focused
            &&& after.root == refreshed(e.root, disk)
            &&& after.git_statuses == statuses_of(e.root.path, lossy_text(output))
            &&& e.after_refresh(disk, None).git_statuses == Map::<Seq<Step>, char>::empty()
        }),
{
}

/// An explorer opens with the focus, at the top of its tree, and with the marks of the
/// output.
pub proof fn opens_at_top(path: Seq<u8>, is_dir: bool, disk: Disk, output: Seq<u8>)
    ensures
        ({
            let e = opened_explorer(path, is_dir, disk, Some(output));
            &&& e.cursor == 0
            &&& e.scroll_offset == 0
            &&& e.focused
            &&& e.root == opened(path, is_dir, disk)
            &&& e.git_statuses == statuses_of(path, lossy_text(output))
        }),
{
    let e = opened_explorer(path, is_dir, disk, Some(output));
    opened_shows_root(e, path, is_dir, disk);
}

}
