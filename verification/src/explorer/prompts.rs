//! What is asked before files are created, deleted or renamed, and what the answers
//! come to.

use vstd::prelude::*;
use vstd::string::*;
use vstd::utf8::*;

use super::events::{Action, ActionView};
use super::{
    output_named, output_plain, output_readable, output_statuses, output_view, ExplorerView,
    TreeExplorer,
};
use crate::listing::{names_plain, Snapshot};
use crate::path::{join_of, parent_of, TreePath};
use crate::text::{same_text, to_chars};
use crate::tree::refreshed;

verus! {

/// What happens to a prompt.
#[derive(Clone, Copy, PartialEq, Eq, Debug)]
pub enum PromptEvent {
    /// The input changed.
    Update,
    /// The input was confirmed.
    Validate,
    /// The prompt was left.
    Abort,
}

/// Something to create.
#[derive(Debug)]
pub enum CreateRequest {
    /// A directory, with those above it.
    Directory(TreePath),
    /// An empty file, after the directory it goes into.
    File { path: TreePath, parent: Option<TreePath> },
}

/// Something to delete.
#[derive(Debug)]
pub enum DeleteRequest {
    /// A directory, with all that is in it.
    Directory(TreePath),
    File(TreePath),
}

/// A file or directory to move.
#[derive(Debug)]
pub struct RenameRequest {
    pub from: TreePath,
    pub to: TreePath,
}

/// The mathematical value of a [`CreateRequest`].
pub enum CreateView {
    Directory(Seq<u8>),
    File { path: Seq<u8>, parent: Option<Seq<u8>> },
}

impl CreateRequest {
    pub open spec fn view(&self) -> CreateView {
        match self {
            CreateRequest::Directory(path) => CreateView::Directory(path@),
            CreateRequest::File { path, parent } => CreateView::File {
                path: path@,
                parent: match parent {
                    Some(dir) => Some(dir@),
                    None => None,
                },
            },
        }
    }
}

/// The mathematical value of a [`DeleteRequest`].
pub enum DeleteView {
    Directory(Seq<u8>),
    File(Seq<u8>),
}

impl DeleteRequest {
    pub open spec fn view(&self) -> DeleteView {
        match self {
            DeleteRequest::Directory(path) => DeleteView::Directory(path@),
            DeleteRequest::File(path) => DeleteView::File(path@),
        }
    }
}

/// The mathematical value of a [`RenameRequest`].
pub struct RenameView {
    pub from: Seq<u8>,
    pub to: Seq<u8>,
}

impl RenameRequest {
    pub open spec fn view(&self) -> RenameView {
        RenameView { from: self.from@, to: self.to@ }
    }
}

/// What an answer asks to be created in a directory.
pub open spec fn create_of(base_dir: Seq<u8>, input: Seq<char>, event: PromptEvent) -> Option<
    CreateView,
> {
    let path = join_of(base_dir, encode_utf8(input));
    if !(event is Validate) || input.len() == 0 {
        None
    } else if input.last() == '/' {
        Some(CreateView::Directory(path))
    } else {
        Some(CreateView::File { path, parent: parent_of(path) })
    }
}

/// What an answer asks to be deleted.
pub open spec fn delete_of(
    path: Seq<u8>,
    is_dir: bool,
    input: Seq<char>,
    event: PromptEvent,
) -> Option<DeleteView> {
    if !(event is Validate) || (input != "y"@ && input != "yes"@) {
        None
    } else if is_dir {
        Some(DeleteView::Directory(path))
    } else {
        Some(DeleteView::File(path))
    }
}

/// What an answer asks to be renamed.
pub open spec fn rename_of(path: Seq<u8>, input: Seq<char>, event: PromptEvent) -> Option<
    RenameView,
> {
    match parent_of(path) {
        Some(parent) => if event is Validate && input.len() > 0 {
            Some(RenameView { from: path, to: join_of(parent, encode_utf8(input)) })
        } else {
            None
        },
        None => None,
    }
}

/// The question that an action asks, if it asks one.
pub open spec fn question_of(action: ActionView) -> Option<Seq<char>> {
    match action {
        ActionView::Create { base_dir } => Some("create: "@),
        ActionView::Delete { path, is_dir, name } => Some("delete "@ + name + "? (y/n): "@),
        ActionView::Rename { path, name } => Some("rename "@ + name + " to: "@),
        _ => None,
    }
}

impl Action {
    /// The question that this action asks, if it asks one.
    pub fn question(&self) -> (r: Option<String>)
        ensures
            match r {
                Some(text) => question_of(self@) == Some(text@),
                None => question_of(self@) is None,
            },
    {
        match self {
            Action::Create { .. } => Some("create: ".to_owned()),
            Action::Delete { name, .. } => {
                let mut text = "delete ".to_owned();
                text.append(name.as_str());
                text.append("? (y/n): ");
                Some(text)
            },
            Action::Rename { name, .. } => {
                let mut text = "rename ".to_owned();
                text.append(name.as_str());
                text.append(" to: ");
                Some(text)
            },
            _ => None,
        }
    }
}

/// What an answer asks to be created: nothing before it is confirmed, a directory where
/// it ends in a slash, and else a file.
pub fn create_request(base_dir: &TreePath, input: &str, event: &PromptEvent) -> (r: Option<
    CreateRequest,
>)
    ensures
        r is Some <==> event is Validate && input@.len() > 0,
        r matches Some(CreateRequest::Directory(path)) ==> input@.last() == '/' && path@ == join_of(
            base_dir@,
            encode_utf8(input@),
        ),
        r matches Some(CreateRequest::File { path, parent }) ==> input@.last() != '/' && path@
            == join_of(base_dir@, encode_utf8(input@)) && match parent {
            Some(dir) => parent_of(path@) == Some(dir@),
            None => parent_of(path@) is None,
        },
        match r {
            Some(request) => create_of(base_dir@, input@, *event) == Some(request@),
            None => create_of(base_dir@, input@, *event) is None,
        },
{
    match event {
        PromptEvent::Validate => {
            let chars = to_chars(input);
            if chars.len() == 0 {
                return None;
            }
            let path = base_dir.join(&input.as_bytes_vec());
            if chars[chars.len() - 1] == '/' {
                Some(CreateRequest::Directory(path))
            } else {
                let parent = path.parent();
                Some(CreateRequest::File { path, parent })
            }
        },
        _ => None,
    }
}

/// What an answer asks to be deleted: nothing unless it is a confirmed yes.
pub fn delete_request(path: &TreePath, is_dir: bool, input: &str, event: &PromptEvent) -> (r: Option<
    DeleteRequest,
>)
    ensures
        r is Some <==> event is Validate && (input@ == "y"@ || input@ == "yes"@),
        r matches Some(DeleteRequest::Directory(p)) ==> is_dir && p@ == path@,
        r matches Some(DeleteRequest::File(p)) ==> !is_dir && p@ == path@,
        match r {
            Some(request) => delete_of(path@, is_dir, input@, *event) == Some(request@),
            None => delete_of(path@, is_dir, input@, *event) is None,
        },
{
    match event {
        PromptEvent::Validate => if same_text(input, "y") || same_text(input, "yes") {
            if is_dir {
                Some(DeleteRequest::Directory(path.clone()))
            } else {
                Some(DeleteRequest::File(path.clone()))
            }
        } else {
            None
        },
        _ => None,
    }
}

/// What an answer asks to be renamed: nothing before it is confirmed, and nothing for a
/// path without a parent.
pub fn rename_request(path: &TreePath, input: &str, event: &PromptEvent) -> (r: Option<
    RenameRequest,
>)
    ensures
        r is Some <==> event is Validate && input@.len() > 0 && parent_of(path@) is Some,
        r matches Some(request) ==> request.from@ == path@ && request.to@ == join_of(
            parent_of(path@).unwrap(),
            encode_utf8(input@),
        ),
        match r {
            Some(request) => rename_of(path@, input@, *event) == Some(request@),
            None => rename_of(path@, input@, *event) is None,
        },
{
    match event {
        PromptEvent::Validate => {
            if input.is_empty() {
                return None;
            }
            match path.parent() {
                Some(parent) => Some(
                    RenameRequest { from: path.clone(), to: parent.join(&input.as_bytes_vec()) },
                ),
                None => None,
            }
        },
        _ => None,
    }
}

/// What follows once files were changed, or could not be.
#[derive(Debug)]
pub enum Outcome {
    /// Read the tree again.
    Refresh,
    /// Read the tree again, and keep the cursor on an item.
    RefreshAndClamp,
    /// Show that something went wrong.
    Report(String),
}

/// The mathematical value of an [`Outcome`].
pub enum OutcomeView {
    Refresh,
    RefreshAndClamp,
    Report(Seq<char>),
}

impl Outcome {
    pub open spec fn view(&self) -> OutcomeView {
        match self {
            Outcome::Refresh => OutcomeView::Refresh,
            Outcome::RefreshAndClamp => OutcomeView::RefreshAndClamp,
            Outcome::Report(message) => OutcomeView::Report(message@),
        }
    }
}

/// What follows once an action has changed files, or could not for a reason. An action
/// that changes no files has nothing to follow.
pub open spec fn outcome_for(action: ActionView, error: Option<Seq<char>>) -> Option<OutcomeView> {
    match (action, error) {
        (ActionView::Create { base_dir }, None) => Some(OutcomeView::Refresh),
        (ActionView::Create { base_dir }, Some(e)) => Some(
            OutcomeView::Report("Create failed: "@ + e),
        ),
        (ActionView::Delete { path, is_dir, name }, None) => Some(OutcomeView::RefreshAndClamp),
        (ActionView::Delete { path, is_dir, name }, Some(e)) => Some(
            OutcomeView::Report("Delete failed: "@ + e),
        ),
        (ActionView::Rename { path, name }, None) => Some(OutcomeView::Refresh),
        (ActionView::Rename { path, name }, Some(e)) => Some(
            OutcomeView::Report("Rename failed: "@ + e),
        ),
        _ => None,
    }
}

/// The text of an error, if there is one.
pub open spec fn error_view(error: Option<&str>) -> Option<Seq<char>> {
    match error {
        Some(e) => Some(e@),
        None => None,
    }
}

/// What follows once an action has changed files, or could not for a reason.
pub fn outcome_of(action: &Action, error: Option<&str>) -> (r: Option<Outcome>)
    ensures
        match r {
            Some(outcome) => outcome_for(action@, error_view(error)) == Some(outcome@),
            None => outcome_for(action@, error_view(error)) is None,
        },
{
    let failed = match action {
        Action::Create { .. } => "Create failed: ",
        Action::Delete { .. } => "Delete failed: ",
        Action::Rename { .. } => "Rename failed: ",
        _ => {
            return None;
        },
    };
    match error {
        Some(e) => {
            let mut message = failed.to_owned();
            message.append(e);
            Some(Outcome::Report(message))
        },
        None => match action {
            Action::Delete { .. } => Some(Outcome::RefreshAndClamp),
            _ => Some(Outcome::Refresh),
        },
    }
}

impl ExplorerView {
    /// The explorer with its cursor on the last item if it was behind that.
    pub open spec fn clamped(self) -> ExplorerView {
        if self.cursor >= self.items().len() {
            ExplorerView { cursor: (self.items().len() - 1) as nat, ..self }
        } else {
            self
        }
    }
}

impl TreeExplorer {
    /// Reads the tree again after something was deleted, and keeps the cursor on an item.
    /// Does nothing if what `git status` printed cannot be read.
    pub fn refresh_after_delete(&mut self, disk: &Snapshot, git_output: Option<&Vec<u8>>) -> (r: bool)
        requires
            old(self)@.well_formed(),
        ensures
            r == output_readable(output_view(git_output)),
            r ==> final(self)@ == (ExplorerView {
                root: refreshed(old(self)@.root, disk@),
                git_statuses: output_statuses(old(self)@.root.path, output_view(git_output)),
                ..old(self)@
            }).clamped(),
            r ==> final(self)@ == old(self)@.after_refresh(disk@, output_view(git_output)).clamped(),
            r ==> final(self)@.cursor < final(self)@.items().len(),
            r ==> output_named(
                final(self).status_map(),
                old(self)@.root.path,
                output_view(git_output),
            ),
            !r ==> final(self)@ == old(self)@ && final(self).status_map() == old(
                self,
            ).status_map(),
            final(self)@.well_formed(),
            names_plain(disk@),
            output_plain(output_view(git_output)),
    {
        if !self.refresh(disk, git_output) {
            return false;
        }
        let len = self.visible_items().len();
        assert(len == self@.items().len());
        if self.cursor >= len {
            self.cursor = len - 1;
        }
        true
    }
}

}
