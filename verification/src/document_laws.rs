//! What becomes of open documents, told by what is open.
//!
//! The document that a change concerns is the first one at its path. The laws
//! name it by its place: a document is there, and none of the earlier ones is.

use vstd::prelude::*;

use crate::auto_reload::{
    document_views, first_at, lemma_first_at, Document, DocumentView, Editor, EditorView, Reaction,
    ReactionView,
};
use crate::file_watcher::ChangeView;
use crate::path::PathView;

verus! {

/// Whether the document in place `i` is the first one at `path`.
pub open spec fn is_first_at(documents: Seq<DocumentView>, path: PathView, i: int) -> bool {
    &&& 0 <= i < documents.len()
    &&& documents[i].path == Some(path)
    &&& forall|j: int| 0 <= j < i ==> (#[trigger] documents[j]).path != Some(path)
}

/// The first document at a path is found where it is.
pub proof fn documents_are_found(documents: Seq<DocumentView>, path: PathView, i: int)
    ensures
        first_at(documents, path) == Some(i) <==> is_first_at(documents, path, i),
        first_at(documents, path) is None <==> forall|j: int|
            0 <= j < documents.len() ==> (#[trigger] documents[j]).path != Some(path),
{
    lemma_first_at(documents, path);
    match first_at(documents, path) {
        Some(k) => {
            assert(documents[k].path == Some(path));
            if is_first_at(documents, path, i) {
                if k < i {
                    assert(documents[k].path != Some(path));
                }
                if i < k {
                    assert(documents[i].path != Some(path));
                }
            }
        },
        None => {},
    }
}

/// Whether two editors differ in their documents at most.
pub open spec fn same_but_documents(a: EditorView, b: EditorView) -> bool {
    a.auto_reload == b.auto_reload && a.error == b.error
}

/// Whether the documents are the same but for the one in place `i`.
pub open spec fn same_elsewhere(a: Seq<DocumentView>, b: Seq<DocumentView>, i: int) -> bool {
    &&& a.len() == b.len()
    &&& forall|j: int| 0 <= j < a.len() && j != i ==> #[trigger] a[j] == b[j]
}

/// When the file of a document without unsaved changes is removed, the document
/// is closed, however many there are: just the others are left, in order.
pub proof fn clean_documents_are_closed(editor: EditorView, path: PathView, i: int)
    requires
        is_first_at(editor.documents, path, i),
        !editor.documents[i].modified,
    ensures
        ({
            let (after, reaction) = editor.file_removed(path);
            &&& reaction == ReactionView::Closed(editor.documents[i].id)
            &&& same_but_documents(after, editor)
            &&& after.documents.len() + 1 == editor.documents.len()
            &&& forall|j: int| 0 <= j < i ==> #[trigger] after.documents[j] == editor.documents[j]
            &&& forall|j: int|
                i <= j < after.documents.len() ==> #[trigger] after.documents[j]
                    == editor.documents[j + 1]
        }),
{
    documents_are_found(editor.documents, path, i);
}

/// When the file of a document with unsaved changes is removed, the document is
/// flagged as deleted and nothing else changes.
pub proof fn unsaved_documents_are_flagged_as_deleted(editor: EditorView, path: PathView, i: int)
    requires
        is_first_at(editor.documents, path, i),
        editor.documents[i].modified,
    ensures
        ({
            let (after, reaction) = editor.file_removed(path);
            let (old, new) = (editor.documents[i], after.documents[i]);
            &&& reaction == ReactionView::Flagged(old.id)
            &&& same_but_documents(after, editor)
            &&& same_elsewhere(after.documents, editor.documents, i)
            &&& new.deleted_on_disk
            &&& new.id == old.id && new.path == old.path && new.display_name == old.display_name
            &&& new.modified && new.disk_changed_unresolved == old.disk_changed_unresolved
        }),
{
    documents_are_found(editor.documents, path, i);
}

/// When the file of a document without unsaved changes is modified and there, the
/// document is to be reloaded under its name, and nothing changes until it is.
pub proof fn clean_documents_are_reloaded(editor: EditorView, path: PathView, i: int)
    requires
        is_first_at(editor.documents, path, i),
        !editor.documents[i].modified,
    ensures
        editor.file_modified(path, true).1 == (ReactionView::Reload {
            id: editor.documents[i].id,
            name: editor.documents[i].display_name,
        }),
        editor.file_modified(path, true).0 == editor,
{
    documents_are_found(editor.documents, path, i);
}

/// When the file of a document with unsaved changes is modified and there, the
/// document is flagged as changed on disk, is no longer flagged as deleted, and
/// nothing else changes.
pub proof fn unsaved_documents_are_flagged_as_changed(editor: EditorView, path: PathView, i: int)
    requires
        is_first_at(editor.documents, path, i),
        editor.documents[i].modified,
    ensures
        ({
            let (after, reaction) = editor.file_modified(path, true);
            let (old, new) = (editor.documents[i], after.documents[i]);
            &&& reaction == ReactionView::Flagged(old.id)
            &&& same_but_documents(after, editor)
            &&& same_elsewhere(after.documents, editor.documents, i)
            &&& !new.deleted_on_disk && new.disk_changed_unresolved
            &&& new.id == old.id && new.path == old.path && new.display_name == old.display_name
            &&& new.modified
        }),
{
    documents_are_found(editor.documents, path, i);
}

/// When a file is renamed, its document goes by the new path and name, with
/// unsaved changes or without, and nothing else changes.
pub proof fn renamed_documents_go_along(
    editor: EditorView,
    from: PathView,
    to: PathView,
    name: Seq<char>,
    i: int,
)
    requires
        is_first_at(editor.documents, from, i),
    ensures
        ({
            let (after, reaction) = editor.file_renamed(from, to, name);
            let (old, new) = (editor.documents[i], after.documents[i]);
            &&& reaction == ReactionView::Followed(old.id)
            &&& same_but_documents(after, editor)
            &&& same_elsewhere(after.documents, editor.documents, i)
            &&& new.path == Some(to) && new.display_name == name
            &&& new.id == old.id && new.modified == old.modified
            &&& new.deleted_on_disk == old.deleted_on_disk
            &&& new.disk_changed_unresolved == old.disk_changed_unresolved
        }),
{
    documents_are_found(editor.documents, from, i);
}

/// A file without a document matters to none, and neither does a modification of
/// a file that is gone.
pub proof fn other_files_do_not_matter(
    editor: EditorView,
    path: PathView,
    to: PathView,
    exists: bool,
    name: Seq<char>,
)
    ensures
        editor.file_modified(path, false) == (editor, ReactionView::Nothing),
        (forall|j: int|
            0 <= j < editor.documents.len() ==> (#[trigger] editor.documents[j]).path != Some(path))
            ==> {
            &&& editor.file_modified(path, exists) == (editor, ReactionView::Nothing)
            &&& editor.file_removed(path) == (editor, ReactionView::Nothing)
            &&& editor.file_renamed(path, to, name) == (editor, ReactionView::Nothing)
        },
{
    documents_are_found(editor.documents, path, 0);
}

/// Every change is handled as what it is, unless documents do not follow changes:
/// then none is.
pub proof fn changes_are_handled_as_what_they_are(
    editor: EditorView,
    path: PathView,
    to: PathView,
    exists: bool,
    name: Seq<char>,
)
    ensures
        editor.auto_reload ==> {
            &&& editor.handled(ChangeView::Modified(path), exists, name) == editor.file_modified(
                path,
                exists,
            )
            &&& editor.handled(ChangeView::Removed(path), exists, name) == editor.file_removed(path)
            &&& editor.handled(ChangeView::Renamed { from: path, to }, exists, name)
                == editor.file_renamed(path, to, name)
        },
        !editor.auto_reload ==> {
            &&& editor.handled(ChangeView::Modified(path), exists, name) == (
                editor,
                ReactionView::Nothing,
            )
            &&& editor.handled(ChangeView::Removed(path), exists, name) == (
                editor,
                ReactionView::Nothing,
            )
            &&& editor.handled(ChangeView::Renamed { from: path, to }, exists, name) == (
                editor,
                ReactionView::Nothing,
            )
        },
{
}

/// Once the file of a clean document is removed, a document of the same id is
/// not open any more, and every other one is.
pub proof fn closed_documents_are_gone(
    editor: EditorView,
    path: PathView,
    exists: bool,
    name: Seq<char>,
    i: int,
)
    requires
        editor.auto_reload,
        forall|a: int, b: int|
            0 <= a < b < editor.documents.len() ==> (#[trigger] editor.documents[a]).id != (
            #[trigger] editor.documents[b]).id,
        is_first_at(editor.documents, path, i),
        !editor.documents[i].modified,
    ensures
        ({
            let after = editor.handled(ChangeView::Removed(path), exists, name).0.documents;
            &&& forall|j: int|
                0 <= j < after.len() ==> (#[trigger] after[j]).id != editor.documents[i].id
            &&& forall|j: int|
                0 <= j < editor.documents.len() && j != i ==> after.contains(
                    #[trigger] editor.documents[j],
                )
        }),
{
    clean_documents_are_closed(editor, path, i);
    let after = editor.handled(ChangeView::Removed(path), exists, name).0.documents;
    assert forall|j: int| 0 <= j < after.len() implies (#[trigger] after[j]).id
        != editor.documents[i].id by {
        if j < i {
            assert(editor.documents[j].id != editor.documents[i].id);
        } else {
            assert(editor.documents[i].id != editor.documents[j + 1].id);
        }
    }
    assert forall|j: int| 0 <= j < editor.documents.len() && j != i implies after.contains(
        #[trigger] editor.documents[j],
    ) by {
        if j < i {
            assert(after[j] == editor.documents[j]);
        } else {
            assert(after[j - 1] == editor.documents[j]);
        }
    }
}

/// Taking a document out leaves the others in order, and putting another in its
/// place leaves the others where they are. Only the documents are concerned.
pub proof fn documents_are_taken_out_and_replaced(
    editor: EditorView,
    i: int,
    document: DocumentView,
    j: int,
)
    requires
        0 <= i < editor.documents.len(),
        0 <= j < editor.documents.len(),
    ensures
        ({
            let (less, other) = (editor.without_document(i), editor.with_document(i, document));
            &&& same_but_documents(less, editor) && same_but_documents(other, editor)
            &&& less.documents.len() + 1 == editor.documents.len()
            &&& j < i ==> less.documents[j] == editor.documents[j]
            &&& j > i ==> less.documents[j - 1] == editor.documents[j]
            &&& other.documents.len() == editor.documents.len()
            &&& other.documents[i] == document
            &&& j != i ==> other.documents[j] == editor.documents[j]
        }),
{
}

/// An editor is in order just where no two of its documents share an id.
pub proof fn editors_are_in_order(editor: EditorView)
    ensures
        editor.wf() <==> forall|i: int, j: int|
            0 <= i < editor.documents.len() && 0 <= j < editor.documents.len() && (
            #[trigger] editor.documents[i]).id == (#[trigger] editor.documents[j]).id ==> i == j,
{
    if editor.wf() {
        assert forall|i: int, j: int|
            0 <= i < editor.documents.len() && 0 <= j < editor.documents.len() && (
            #[trigger] editor.documents[i]).id == (
            #[trigger] editor.documents[j]).id implies i == j by {
            if i < j {
                assert(editor.documents[i].id != editor.documents[j].id);
            }
            if j < i {
                assert(editor.documents[j].id != editor.documents[i].id);
            }
        }
    }
}

/// What is told of an editor and its reactions is what they hold, each document
/// in its place.
pub proof fn editor_models_hold_what_is_there(
    editor: Editor,
    documents: Seq<Document>,
    reaction: Reaction,
    i: int,
)
    ensures
        editor@.auto_reload == editor.auto_reload,
        editor@.documents == document_views(editor.documents@),
        editor.error is None <==> editor@.error is None,
        editor.error matches Some(error) ==> editor@.error == Some(error@),
        document_views(documents).len() == documents.len(),
        0 <= i < documents.len() ==> {
            let (document, told) = (documents[i], document_views(documents)[i]);
            &&& told.id == document.id
            &&& document.path is None <==> told.path is None
            &&& document.path matches Some(path) ==> told.path == Some(path@)
            &&& told.display_name == document.display_name@
            &&& told.modified == document.modified
            &&& told.deleted_on_disk == document.deleted_on_disk
            &&& told.disk_changed_unresolved == document.disk_changed_unresolved
        },
        reaction is Nothing ==> reaction@ is Nothing,
        reaction matches Reaction::Flagged(id) ==> reaction@ == ReactionView::Flagged(id),
        reaction matches Reaction::Closed(id) ==> reaction@ == ReactionView::Closed(id),
        reaction matches Reaction::Followed(id) ==> reaction@ == ReactionView::Followed(id),
        reaction matches Reaction::Reload { id, name } ==> reaction@ == (ReactionView::Reload {
            id,
            name: name@,
        }),
{
}

} // verus!
