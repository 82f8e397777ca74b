use file_watch::auto_reload::{
    handle, handle_modified, handle_removed, handle_renamed, reload_finished, CloseError, Document,
    DocumentId, Editor, Reaction,
};
use file_watch::file_watcher::FileWatcherEvent;
use file_watch::path::FilePath;

fn at(path: &str) -> FilePath {
    FilePath::parse(path)
}

fn document(id: u64, path: Option<&str>, modified: bool) -> Document {
    Document {
        id: DocumentId(id),
        path: path.map(FilePath::parse),
        display_name: format!("doc {}", id),
        modified,
        deleted_on_disk: false,
        disk_changed_unresolved: false,
    }
}

fn editor(documents: Vec<Document>) -> Editor {
    Editor { auto_reload: true, documents, error: None }
}

fn ids(editor: &Editor) -> Vec<u64> {
    editor.documents.iter().map(|d| d.id.0).collect()
}

fn flags(editor: &Editor, i: usize) -> (bool, bool) {
    (editor.documents[i].deleted_on_disk, editor.documents[i].disk_changed_unresolved)
}

#[test]
fn clean_documents_are_reloaded() {
    let mut e = editor(vec![document(1, None, false), document(2, Some("/a"), false)]);
    let reaction = handle(FileWatcherEvent::Modified(at("/a")), true, String::new(), &mut e);
    assert_eq!(reaction, Reaction::Reload { id: DocumentId(2), name: "doc 2".to_owned() });
    assert_eq!(flags(&e, 1), (false, false));
}

#[test]
fn dirty_documents_are_flagged_as_diverged() {
    let mut e = editor(vec![document(1, Some("/b"), true), document(2, Some("/a"), true)]);
    let reaction = handle(FileWatcherEvent::Modified(at("/a")), true, String::new(), &mut e);
    assert_eq!(reaction, Reaction::Flagged(DocumentId(2)));
    assert_eq!(flags(&e, 0), (false, false));
    assert_eq!(flags(&e, 1), (false, true));
}

#[test]
fn stale_modifications_are_dropped() {
    let mut e = editor(vec![document(1, Some("/a"), true)]);
    e.documents[0].deleted_on_disk = true;
    assert_eq!(handle_modified(at("/a"), false, &mut e), Reaction::Nothing);
    assert_eq!(flags(&e, 0), (true, false));
}

#[test]
fn clean_documents_are_closed_with_their_file() {
    let mut e = editor(vec![
        document(1, Some("/b"), false),
        document(2, Some("/a"), false),
        document(3, Some("/c"), false),
    ]);
    let reaction = handle(FileWatcherEvent::Removed(at("/a")), false, String::new(), &mut e);
    assert_eq!(reaction, Reaction::Closed(DocumentId(2)));
    assert_eq!(ids(&e), vec![1, 3]);
}

#[test]
fn dirty_documents_outlive_their_file() {
    let mut e = editor(vec![document(1, Some("/a"), true)]);
    assert_eq!(handle_removed(at("/a"), &mut e), Reaction::Flagged(DocumentId(1)));
    assert_eq!(flags(&e, 0), (true, false));
    let reaction = handle(FileWatcherEvent::Modified(at("/a")), true, String::new(), &mut e);
    assert_eq!(reaction, Reaction::Flagged(DocumentId(1)));
    assert_eq!(flags(&e, 0), (false, true));
    assert!(e.documents[0].modified);
}

#[test]
fn documents_follow_their_file() {
    let mut e = editor(vec![document(1, Some("/a"), true), document(2, Some("/c"), false)]);
    let rename = FileWatcherEvent::Renamed { from: at("/a"), to: at("/b") };
    let reaction = handle(rename, false, "doc b".to_owned(), &mut e);
    assert_eq!(reaction, Reaction::Followed(DocumentId(1)));
    assert_eq!(e.documents[0].path, Some(at("/b")));
    assert_eq!(e.documents[0].display_name, "doc b");
    assert!(e.documents[0].modified);
    let reaction = handle_renamed(at("/a"), at("/d"), "doc d".to_owned(), &mut e);
    assert_eq!(reaction, Reaction::Nothing);
    assert_eq!(e.documents[1].path, Some(at("/c")));
}

#[test]
fn files_without_document_do_not_matter() {
    let mut e = editor(vec![document(1, Some("/a"), false), document(2, None, false)]);
    let reaction = handle(FileWatcherEvent::Modified(at("/b")), true, String::new(), &mut e);
    assert_eq!(reaction, Reaction::Nothing);
    let reaction = handle(FileWatcherEvent::Removed(at("/b")), true, String::new(), &mut e);
    assert_eq!(reaction, Reaction::Nothing);
    assert_eq!(ids(&e), vec![1, 2]);
}

#[test]
fn nothing_is_followed_when_switched_off() {
    let mut e = editor(vec![document(1, Some("/a"), false)]);
    e.auto_reload = false;
    let reaction = handle(FileWatcherEvent::Removed(at("/a")), false, String::new(), &mut e);
    assert_eq!(reaction, Reaction::Nothing);
    assert_eq!(ids(&e), vec![1]);
}

#[test]
fn closing_needs_a_document_without_unsaved_changes() {
    let mut e = editor(vec![document(1, Some("/a"), true), document(2, None, false)]);
    assert_eq!(e.close_document(DocumentId(3), true), Err(CloseError::DoesNotExist));
    assert_eq!(e.close_document(DocumentId(1), false), Err(CloseError::BufferModified));
    assert_eq!(ids(&e), vec![1, 2]);
    assert_eq!(e.close_document(DocumentId(1), true), Ok(()));
    assert_eq!(e.close_document(DocumentId(2), false), Ok(()));
    assert_eq!(ids(&e), Vec::<u64>::new());
}

#[test]
fn failed_reloads_are_shown_under_the_name() {
    let mut e = editor(vec![document(1, Some("/a"), false)]);
    reload_finished("a.rs".to_owned(), Ok(()), &mut e);
    assert_eq!(e.error, None);
    reload_finished("a.rs".to_owned(), Err("no permission".to_owned()), &mut e);
    assert_eq!(e.error.as_deref(), Some("a.rs: no permission"));
}

#[test]
fn reloads_after_a_rename_go_by_the_new_name() {
    let mut e = editor(vec![document(1, Some("/a"), false)]);
    handle_renamed(at("/a"), at("/b"), "b".to_owned(), &mut e);
    let reaction = handle_modified(at("/b"), true, &mut e);
    assert_eq!(reaction, Reaction::Reload { id: DocumentId(1), name: "b".to_owned() });
    assert_eq!(handle_modified(at("/a"), true, &mut e), Reaction::Nothing);
}

#[test]
fn renaming_back_restores_the_documents() {
    let mut e = editor(vec![document(1, Some("/c"), false), document(2, Some("/a"), true)]);
    handle_renamed(at("/a"), at("/b"), "b".to_owned(), &mut e);
    assert_eq!(handle_removed(at("/a"), &mut e), Reaction::Nothing);
    let reaction = handle_renamed(at("/b"), at("/a"), "doc 2".to_owned(), &mut e);
    assert_eq!(reaction, Reaction::Followed(DocumentId(2)));
    assert_eq!(ids(&e), vec![1, 2]);
    assert_eq!(e.documents[1].path, Some(at("/a")));
    assert_eq!(e.documents[1].display_name, "doc 2");
    assert!(e.documents[1].modified);
    assert_eq!(handle_removed(at("/b"), &mut e), Reaction::Nothing);
}
