//! How open buffers follow changes on disk.

use vstd::prelude::*;

use crate::file_watcher::{ChangeView, FileWatcherEvent};
use crate::path::{FilePath, PathView};

verus! {

/// Identifies an open document.
#[derive(Debug, Clone, Copy, PartialEq, Eq, Structural)]
pub struct DocumentId(pub u64);

/// An open document. `modified` says whether it has unsaved changes,
/// `deleted_on_disk` that its file is gone, and `disk_changed_unresolved` that
/// its file changed as well.
pub struct Document {
    pub id: DocumentId,
    pub path: Option<FilePath>,
    pub display_name: String,
    pub modified: bool,
    pub deleted_on_disk: bool,
    pub disk_changed_unresolved: bool,
}

/// What the editor knows: whether documents follow changes on disk, the open
/// documents, and the error that the status line shows.
pub struct Editor {
    pub auto_reload: bool,
    pub documents: Vec<Document>,
    pub error: Option<String>,
}

/// An open document, by what it says.
#[verifier::ext_equal]
pub struct DocumentView {
    pub id: DocumentId,
    pub path: Option<PathView>,
    pub display_name: Seq<char>,
    pub modified: bool,
    pub deleted_on_disk: bool,
    pub disk_changed_unresolved: bool,
}

/// What the editor knows, by what it says.
#[verifier::ext_equal]
pub struct EditorView {
    pub auto_reload: bool,
    pub documents: Seq<DocumentView>,
    pub error: Option<Seq<char>>,
}

impl View for Document {
    type V = DocumentView;

    open spec fn view(&self) -> DocumentView {
        DocumentView {
            id: self.id,
            path: match self.path {
                Some(path) => Some(path@),
                None => None,
            },
            display_name: self.display_name@,
            modified: self.modified,
            deleted_on_disk: self.deleted_on_disk,
            disk_changed_unresolved: self.disk_changed_unresolved,
        }
    }
}

/// The documents, each by what it says.
pub open spec fn document_views(documents: Seq<Document>) -> Seq<DocumentView> {
    documents.map_values(|d: Document| d@)
}

impl View for Editor {
    type V = EditorView;

    open spec fn view(&self) -> EditorView {
        EditorView {
            auto_reload: self.auto_reload,
            documents: document_views(self.documents@),
            error: match self.error {
                Some(error) => Some(error@),
                None => None,
            },
        }
    }
}

/// What is left to do to an open document.
#[derive(Debug, PartialEq, Eq)]
pub enum Reaction {
    /// There is nothing to do.
    Nothing,
    /// The document has been flagged: it has unsaved changes and its file
    /// changed or is gone.
    Flagged(DocumentId),
    /// The document is to be reloaded. The name is what an error is reported
    /// under.
    Reload { id: DocumentId, name: String },
    /// The document has been closed.
    Closed(DocumentId),
    /// The document has followed its file to another path.
    Followed(DocumentId),
}

/// What is left to do, by what it says.
#[verifier::ext_equal]
pub enum ReactionView {
    Nothing,
    Flagged(DocumentId),
    Reload { id: DocumentId, name: Seq<char> },
    Closed(DocumentId),
    Followed(DocumentId),
}

impl View for Reaction {
    type V = ReactionView;

    open spec fn view(&self) -> ReactionView {
        match *self {
            Reaction::Nothing => ReactionView::Nothing,
            Reaction::Flagged(id) => ReactionView::Flagged(id),
            Reaction::Reload { id, name } => ReactionView::Reload { id, name: name@ },
            Reaction::Closed(id) => ReactionView::Closed(id),
            Reaction::Followed(id) => ReactionView::Followed(id),
        }
    }
}

/// Why a document was not closed.
#[derive(Debug, Clone, Copy, PartialEq, Eq, Structural)]
pub enum CloseError {
    /// There is no such document.
    DoesNotExist,
    /// It has unsaved changes.
    BufferModified,
}

/// Where the first of the documents at `path` is.
pub open spec fn first_at(documents: Seq<DocumentView>, path: PathView) -> Option<int>
    decreases documents.len(),
{
    if documents.len() == 0 {
        None
    } else {
        match first_at(documents.drop_last(), path) {
            Some(i) => Some(i),
            None => if documents.last().path == Some(path) {
                Some(documents.len() - 1)
            } else {
                None
            },
        }
    }
}

impl EditorView {
    /// No two documents share an id.
    pub open spec fn wf(self) -> bool {
        forall|i: int, j: int|
            0 <= i < j < self.documents.len() ==> (#[trigger] self.documents[i]).id != (
            #[trigger] self.documents[j]).id
    }

    /// The editor with another document in the place of one.
    pub open spec fn with_document(self, i: int, document: DocumentView) -> EditorView {
        EditorView { documents: self.documents.update(i, document), ..self }
    }

    /// The editor without one of the documents.
    pub open spec fn without_document(self, i: int) -> EditorView {
        EditorView { documents: self.documents.remove(i), ..self }
    }

    /// What happens when the file at `path` was modified, given whether it
    /// exists: without unsaved changes the document is reloaded, with some it is
    /// flagged.
    pub open spec fn file_modified(self, path: PathView, exists: bool) -> (
        EditorView,
        ReactionView,
    ) {
        match first_at(self.documents, path) {
            Some(i) => {
                let document = self.documents[i];
                if !exists {
                    (self, ReactionView::Nothing)
                } else if document.modified {
                    (
                        self.with_document(
                            i,
                            DocumentView {
                                deleted_on_disk: false,
                                disk_changed_unresolved: true,
                                ..document
                            },
                        ),
                        ReactionView::Flagged(document.id),
                    )
                } else {
                    (
                        self,
                        ReactionView::Reload { id: document.id, name: document.display_name },
                    )
                }
            },
            None => (self, ReactionView::Nothing),
        }
    }

    /// What happens when the file at `path` was removed: without unsaved changes
    /// the document is closed, with some it is flagged.
    pub open spec fn file_removed(self, path: PathView) -> (EditorView, ReactionView) {
        match first_at(self.documents, path) {
            Some(i) => {
                let document = self.documents[i];
                if document.modified {
                    (
                        self.with_document(
                            i,
                            DocumentView { deleted_on_disk: true, ..document },
                        ),
                        ReactionView::Flagged(document.id),
                    )
                } else {
                    (self.without_document(i), ReactionView::Closed(document.id))
                }
            },
            None => (self, ReactionView::Nothing),
        }
    }

    /// What happens when a file was renamed: the document follows it, with
    /// unsaved changes or without, and is called `name` from then on.
    pub open spec fn file_renamed(self, from: PathView, to: PathView, name: Seq<char>) -> (
        EditorView,
        ReactionView,
    ) {
        match first_at(self.documents, from) {
            Some(i) => {
                let document = self.documents[i];
                (
                    self.with_document(
                        i,
                        DocumentView { path: Some(to), display_name: name, ..document },
                    ),
                    ReactionView::Followed(document.id),
                )
            },
            None => (self, ReactionView::Nothing),
        }
    }

    /// What happens on a change on disk; nothing, unless documents follow
    /// changes.
    pub open spec fn handled(self, change: ChangeView, exists: bool, name: Seq<char>) -> (
        EditorView,
        ReactionView,
    ) {
        if !self.auto_reload {
            (self, ReactionView::Nothing)
        } else {
            match change {
                ChangeView::Modified(path) => self.file_modified(path, exists),
                ChangeView::Removed(path) => self.file_removed(path),
                ChangeView::Renamed { from, to } => self.file_renamed(from, to, name),
            }
        }
    }
}

/// The first document at a path is at it, and no earlier one is.
pub proof fn lemma_first_at(documents: Seq<DocumentView>, path: PathView)
    ensures
        match first_at(documents, path) {
            Some(i) => 0 <= i < documents.len() && documents[i].path == Some(path) && forall|j: int|
                0 <= j < i ==> (#[trigger] documents[j]).path != Some(path),
            None => forall|j: int|
                0 <= j < documents.len() ==> (#[trigger] documents[j]).path != Some(path),
        },
    decreases documents.len(),
{
    if documents.len() > 0 {
        let front = documents.drop_last();
        lemma_first_at(front, path);
        assert(forall|j: int| 0 <= j < front.len() ==> #[trigger] documents[j] == front[j]);
    }
}

impl Editor {
    /// Where the first document at `path` is.
    fn position(&self, path: &FilePath) -> (position: Option<usize>)
        ensures
            match position {
                Some(i) => i < self.documents@.len() && first_at(self@.documents, path@) == Some(
                    i as int,
                ),
                None => first_at(self@.documents, path@) is None,
            },
    {
        let ghost all = self@.documents;
        proof {
            lemma_first_at(all, path@);
        }
        let mut i: usize = 0;
        while i < self.documents.len()
            invariant
                i <= self.documents@.len(),
                all == self@.documents,
                forall|j: int| 0 <= j < i ==> (#[trigger] all[j]).path != Some(path@),
                match first_at(all, path@) {
                    Some(k) => 0 <= k < all.len() && all[k].path == Some(path@) && forall|j: int|
                        0 <= j < k ==> (#[trigger] all[j]).path != Some(path@),
                    None => forall|j: int|
                        0 <= j < all.len() ==> (#[trigger] all[j]).path != Some(path@),
                },
            decreases self.documents@.len() - i,
        {
            let here = match &self.documents[i].path {
                Some(p) => p.same(path),
                None => false,
            };
            proof {
                assert(here == (all[i as int].path == Some(path@)));
            }
            if here {
                return Some(i);
            }
            i = i + 1;
        }
        None
    }

    /// Closes a document, unless it has unsaved changes and is not forced to.
    pub fn close_document(&mut self, id: DocumentId, force: bool) -> (result: Result<
        (),
        CloseError,
    >)
        requires
            old(self)@.wf(),
        ensures
            final(self)@.wf(),
            match result {
                Ok(()) => exists|i: int|
                    0 <= i < old(self)@.documents.len() && (#[trigger] old(
                        self,
                    )@.documents[i]).id == id && (force || !old(self)@.documents[i].modified)
                        && final(self)@ == old(self)@.without_document(i),
                Err(CloseError::BufferModified) => *final(self) == *old(self) && !force && exists|
                    i: int,
                |
                    0 <= i < old(self)@.documents.len() && (#[trigger] old(
                        self,
                    )@.documents[i]).id == id && old(self)@.documents[i].modified,
                Err(CloseError::DoesNotExist) => *final(self) == *old(self) && forall|i: int|
                    0 <= i < old(self)@.documents.len() ==> (#[trigger] old(
                        self,
                    )@.documents[i]).id != id,
            },
    {
        let ghost all = self@.documents;
        let mut i: usize = 0;
        while i < self.documents.len()
            invariant
                *self == *old(self),
                i <= self.documents@.len(),
                all == old(self)@.documents,
                old(self)@.wf(),
                forall|j: int| 0 <= j < i ==> (#[trigger] all[j]).id != id,
            decreases self.documents@.len() - i,
        {
            proof {
                assert(all[i as int] == self.documents@[i as int]@);
            }
            if self.documents[i].id == id {
                if self.documents[i].modified && !force {
                    return Err(CloseError::BufferModified);
                }
                self.documents.remove(i);
                proof {
                    assert(self@.documents =~= all.remove(i as int));
                    assert(self@ =~= old(self)@.without_document(i as int));
                    lemma_remove_wf(old(self)@, i as int);
                }
                return Ok(());
            }
            i = i + 1;
        }
        Err(CloseError::DoesNotExist)
    }
}

/// Without one of the documents the ids are still distinct.
proof fn lemma_remove_wf(editor: EditorView, i: int)
    requires
        editor.wf(),
        0 <= i < editor.documents.len(),
    ensures
        editor.without_document(i).wf(),
{
    let left = editor.without_document(i).documents;
    assert forall|j: int| 0 <= j < left.len() implies #[trigger] left[j]
        == editor.documents[if j < i {
        j
    } else {
        j + 1
    }] by {}
}

/// The document at `path`, with the path.
fn lookup(path: FilePath, editor: &Editor) -> (found: Option<(usize, FilePath)>)
    ensures
        match found {
            Some((i, found)) => i < editor.documents@.len() && first_at(
                editor@.documents,
                path@,
            ) == Some(i as int) && found@ == path@,
            None => first_at(editor@.documents, path@) is None,
        },
{
    match editor.position(&path) {
        Some(i) => Some((i, path)),
        None => None,
    }
}

/// Handles the modification of the file at `path`; `exists` says whether the
/// file is there. A report on a file that is gone is out of date.
pub fn handle_modified(path: FilePath, exists: bool, editor: &mut Editor) -> (reaction: Reaction)
    requires
        old(editor)@.wf(),
    ensures
        final(editor)@.wf(),
        (final(editor)@, reaction@) == old(editor)@.file_modified(path@, exists),
{
    let i: usize = match lookup(path, editor) {
        Some((i, _)) => i,
        None => {
            return Reaction::Nothing;
        },
    };
    if !exists {
        return Reaction::Nothing;
    }
    let id = editor.documents[i].id;
    if editor.documents[i].modified {
        editor.documents[i].deleted_on_disk = false;
        editor.documents[i].disk_changed_unresolved = true;
        proof {
            let document = old(editor)@.documents[i as int];
            assert(editor@ =~= old(editor)@.with_document(
                i as int,
                DocumentView {
                    deleted_on_disk: false,
                    disk_changed_unresolved: true,
                    ..document
                },
            ));
        }
        return Reaction::Flagged(id);
    }
    let name = editor.documents[i].display_name.clone();
    Reaction::Reload { id, name }
}

/// Handles the removal of the file at `path`.
pub fn handle_removed(path: FilePath, editor: &mut Editor) -> (reaction: Reaction)
    requires
        old(editor)@.wf(),
    ensures
        final(editor)@.wf(),
        (final(editor)@, reaction@) == old(editor)@.file_removed(path@),
{
    let i: usize = match lookup(path, editor) {
        Some((i, _)) => i,
        None => {
            return Reaction::Nothing;
        },
    };
    let ghost document = old(editor)@.documents[i as int];
    let id = editor.documents[i].id;
    if editor.documents[i].modified {
        editor.documents[i].deleted_on_disk = true;
        proof {
            assert(editor@ =~= old(editor)@.with_document(
                i as int,
                DocumentView { deleted_on_disk: true, ..document },
            ));
        }
        return Reaction::Flagged(id);
    }
    let closed = editor.close_document(id, false);
    proof {
        assert(document.id == id && !document.modified);
        assert(forall|j: int|
            0 <= j < old(editor)@.documents.len() && (#[trigger] old(editor)@.documents[j]).id
                == id ==> j == i);
        assert(closed is Ok);
    }
    Reaction::Closed(id)
}

/// Handles the renaming of a file; `name` is what a document at the new path is
/// called.
pub fn handle_renamed(from: FilePath, to: FilePath, name: String, editor: &mut Editor) -> (reaction:
    Reaction)
    requires
        old(editor)@.wf(),
    ensures
        final(editor)@.wf(),
        (final(editor)@, reaction@) == old(editor)@.file_renamed(from@, to@, name@),
{
    match editor.position(&from) {
        Some(i) => {
            let id = editor.documents[i].id;
            editor.documents[i].path = Some(to);
            editor.documents[i].display_name = name;
            proof {
                let document = old(editor)@.documents[i as int];
                assert(editor@ =~= old(editor)@.with_document(
                    i as int,
                    DocumentView { path: Some(to@), display_name: name@, ..document },
                ));
            }
            Reaction::Followed(id)
        },
        None => Reaction::Nothing,
    }
}

/// Handles one change on disk. Its paths are in the form in which the editor
/// knows documents; `exists` says whether there is a file at the path of a
/// modification, and `name` is what a document at the target of a rename is
/// called.
pub fn handle(event: FileWatcherEvent, exists: bool, name: String, editor: &mut Editor) -> (reaction:
    Reaction)
    requires
        old(editor)@.wf(),
    ensures
        final(editor)@.wf(),
        (final(editor)@, reaction@) == old(editor)@.handled(event@, exists, name@),
{
    if !editor.auto_reload {
        return Reaction::Nothing;
    }
    match event {
        FileWatcherEvent::Modified(path) => handle_modified(path, exists, editor),
        FileWatcherEvent::Removed(path) => handle_removed(path, editor),
        FileWatcherEvent::Renamed { from, to } => handle_renamed(from, to, name, editor),
    }
}

/// Notes how reloading the document called `name` went: a failure is shown
/// under its name.
pub fn reload_finished(name: String, result: Result<(), String>, editor: &mut Editor)
    requires
        old(editor)@.wf(),
    ensures
        final(editor)@.wf(),
        final(editor)@ == (match result {
            Ok(()) => old(editor)@,
            Err(err) => EditorView { error: Some(name@ + ": "@ + err@), ..old(editor)@ },
        }),
{
    match result {
        Ok(()) => {},
        Err(err) => {
            let mut message = name;
            message.append(": ");
            message.append(err.as_str());
            editor.error = Some(message);
        },
    }
}

/// Unless documents follow changes, nothing happens.
pub proof fn nothing_happens_when_switched_off(
    editor: EditorView,
    change: ChangeView,
    exists: bool,
    name: Seq<char>,
)
    requires
        !editor.auto_reload,
    ensures
        editor.handled(change, exists, name) == (editor, ReactionView::Nothing),
{
}

/// Unsaved changes are never lost: a document that has some stays open with
/// them, and is neither reloaded nor closed. Only its flags may differ then and,
/// where its file was renamed, its path and with it its name.
pub proof fn unsaved_changes_are_kept(
    editor: EditorView,
    change: ChangeView,
    exists: bool,
    name: Seq<char>,
    i: int,
)
    requires
        editor.wf(),
        0 <= i < editor.documents.len(),
        editor.documents[i].modified,
    ensures
        ({
            let (after, reaction) = editor.handled(change, exists, name);
            let document = editor.documents[i];
            &&& exists|j: int|
                0 <= j < after.documents.len() && only_flags_or_path_differ(
                    document,
                    #[trigger] after.documents[j],
                    change,
                    name,
                )
            &&& !(reaction matches ReactionView::Reload { id, .. } && id == document.id)
            &&& reaction != ReactionView::Closed(document.id)
        }),
{
    let (after, reaction) = editor.handled(change, exists, name);
    let path = concerned(change);
    let document = editor.documents[i];
    lemma_first_at(editor.documents, path);
    if first_at(editor.documents, path) == Some(i) {
        assert(only_flags_or_path_differ(document, after.documents[i], change, name));
    } else {
        lemma_documents_elsewhere(editor, change, exists, name, i);
        let j = choose|j: int| 0 <= j < after.documents.len() && after.documents[j] == document;
        assert(only_flags_or_path_differ(document, after.documents[j], change, name));
        match first_at(editor.documents, path) {
            Some(k) => {
                if k < i {
                    assert(editor.documents[k].id != editor.documents[i].id);
                } else {
                    assert(editor.documents[i].id != editor.documents[k].id);
                }
            },
            None => {},
        }
    }
}

/// Whether a document is the same after a change but for its flags and, where it
/// followed a rename, its path and name.
pub open spec fn only_flags_or_path_differ(
    before: DocumentView,
    after: DocumentView,
    change: ChangeView,
    name: Seq<char>,
) -> bool {
    let flagged = DocumentView {
        deleted_on_disk: after.deleted_on_disk,
        disk_changed_unresolved: after.disk_changed_unresolved,
        ..before
    };
    ||| after == flagged
    ||| change matches ChangeView::Renamed { from, to } && before.path == Some(from) && after == (
    DocumentView { path: Some(to), display_name: name, ..before })
}

/// The path whose document a change concerns.
pub open spec fn concerned(change: ChangeView) -> PathView {
    match change {
        ChangeView::Modified(path) => path,
        ChangeView::Removed(path) => path,
        ChangeView::Renamed { from, .. } => from,
    }
}

/// A document other than the one that a change concerns is still there.
proof fn lemma_documents_elsewhere(
    editor: EditorView,
    change: ChangeView,
    exists: bool,
    name: Seq<char>,
    i: int,
)
    requires
        0 <= i < editor.documents.len(),
        first_at(editor.documents, concerned(change)) != Some(i),
    ensures
        editor.handled(change, exists, name).0.documents.contains(editor.documents[i]),
{
    let after = editor.handled(change, exists, name).0;
    let path = concerned(change);
    lemma_first_at(editor.documents, path);
    match first_at(editor.documents, path) {
        Some(k) => {
            if after.documents.len() < editor.documents.len() {
                assert(after.documents[if i < k {
                    i
                } else {
                    i - 1
                }] == editor.documents[i]);
            } else {
                assert(after.documents[i] == editor.documents[i]);
            }
        },
        None => {
            assert(after.documents[i] == editor.documents[i]);
        },
    }
}

/// A change leaves the documents at other paths as they are.
pub proof fn other_documents_are_unchanged(
    editor: EditorView,
    change: ChangeView,
    exists: bool,
    name: Seq<char>,
    i: int,
)
    requires
        0 <= i < editor.documents.len(),
        editor.documents[i].path != Some(concerned(change)),
    ensures
        editor.handled(change, exists, name).0.documents.contains(editor.documents[i]),
{
    lemma_first_at(editor.documents, concerned(change));
    lemma_documents_elsewhere(editor, change, exists, name, i);
}

/// A report on a file that is gone neither reloads a document nor clears what
/// it is flagged with.
pub proof fn outdated_modifications_change_nothing(
    editor: EditorView,
    path: PathView,
    name: Seq<char>,
)
    ensures
        editor.handled(ChangeView::Modified(path), false, name) == (editor, ReactionView::Nothing),
{
}

/// A document with unsaved changes whose file was deleted and then made again
/// is no longer flagged as deleted, but as changed on disk.
pub proof fn recreation_clears_deletion(
    editor: EditorView,
    path: PathView,
    name: Seq<char>,
    i: int,
)
    requires
        editor.auto_reload,
        first_at(editor.documents, path) == Some(i),
        editor.documents[i].modified,
    ensures
        ({
            let (deleted, _) = editor.handled(ChangeView::Removed(path), false, name);
            let (after, _) = deleted.handled(ChangeView::Modified(path), true, name);
            &&& deleted.documents[i].deleted_on_disk
            &&& after.documents[i] == (DocumentView {
                deleted_on_disk: false,
                disk_changed_unresolved: true,
                ..editor.documents[i]
            })
        }),
{
    lemma_first_at(editor.documents, path);
    let (deleted, _) = editor.handled(ChangeView::Removed(path), false, name);
    assert(deleted.documents[i].path == Some(path));
    lemma_first_at(deleted.documents, path);
    let k = first_at(deleted.documents, path)->0;
    if k < i {
        assert(deleted.documents[k] == editor.documents[k]);
    }
    if i < k {
        assert(deleted.documents[i].path != Some(path));
    }
}

/// Whether the document at `path`, if any, is the only one there.
pub open spec fn only_one_at(documents: Seq<DocumentView>, path: PathView) -> bool {
    forall|i: int, j: int|
        0 <= i < j < documents.len() ==> !((#[trigger] documents[i]).path == Some(path) && (
        #[trigger] documents[j]).path == Some(path))
}

/// A document follows its file, unsaved changes and all, and nothing but its path
/// and name differs. Where there was no document at the new path, it is the one
/// found there; where it was the only one at the old path, none is left there.
pub proof fn documents_follow_renames(
    editor: EditorView,
    from: PathView,
    to: PathView,
    exists: bool,
    name: Seq<char>,
    i: int,
)
    requires
        editor.auto_reload,
        first_at(editor.documents, from) == Some(i),
    ensures
        ({
            let (after, reaction) = editor.handled(ChangeView::Renamed { from, to }, exists, name);
            &&& reaction == ReactionView::Followed(editor.documents[i].id)
            &&& after == editor.with_document(
                i,
                DocumentView { path: Some(to), display_name: name, ..editor.documents[i] },
            )
            &&& first_at(after.documents, to) is Some
            &&& first_at(editor.documents, to) is None ==> first_at(after.documents, to) == Some(i)
            &&& from != to && only_one_at(editor.documents, from) ==> first_at(
                after.documents,
                from,
            ) is None
        }),
{
    lemma_first_at(editor.documents, from);
    lemma_first_at(editor.documents, to);
    let (after, _) = editor.handled(ChangeView::Renamed { from, to }, exists, name);
    assert(after.documents[i].path == Some(to));
    lemma_first_at(after.documents, to);
    lemma_first_at(after.documents, from);
    if first_at(editor.documents, to) is None {
        let k = first_at(after.documents, to)->0;
        if k != i {
            assert(after.documents[k] == editor.documents[k]);
        }
    }
    if from != to && only_one_at(editor.documents, from) {
        match first_at(after.documents, from) {
            Some(k) => {
                assert(after.documents[k] == editor.documents[k]);
                if k < i {
                    assert(editor.documents[k].path != Some(from));
                } else {
                    assert(editor.documents[i].path != Some(from) || editor.documents[k].path
                        != Some(from));
                }
            },
            None => {},
        }
    }
}

/// Renaming a file and renaming it back leaves all documents as they were, with
/// none at the new path. In between, the document is the one at the new path
/// and, where it was the only one at the old path, none is left there.
pub proof fn renaming_back_restores_documents(
    editor: EditorView,
    from: PathView,
    to: PathView,
    exists: bool,
    name: Seq<char>,
    i: int,
)
    requires
        editor.auto_reload,
        from != to,
        first_at(editor.documents, from) == Some(i),
        first_at(editor.documents, to) is None,
    ensures
        ({
            let (there, _) = editor.handled(ChangeView::Renamed { from, to }, exists, name);
            let (back, _) = there.handled(
                ChangeView::Renamed { from: to, to: from },
                exists,
                editor.documents[i].display_name,
            );
            &&& first_at(there.documents, to) == Some(i)
            &&& there.documents[i].id == editor.documents[i].id
            &&& only_one_at(editor.documents, from) ==> first_at(there.documents, from) is None
            &&& back == editor
        }),
{
    documents_follow_renames(editor, from, to, exists, name, i);
    lemma_first_at(editor.documents, from);
    let (there, _) = editor.handled(ChangeView::Renamed { from, to }, exists, name);
    let (back, _) = there.handled(
        ChangeView::Renamed { from: to, to: from },
        exists,
        editor.documents[i].display_name,
    );
    assert(back.documents =~= editor.documents);
    assert(back =~= editor);
}

} // verus!
