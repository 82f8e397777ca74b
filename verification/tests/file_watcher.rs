use file_watch::file_watcher::{
    flush_orphan, git_entry, pair_or_buffer, remap_to_helix_form, watch_root, workspace_root,
    Action, EventKind, FileWatcher, FileWatcherEvent, FsEvent, ModifyKind, PendingRename, Received,
    Sighting, RENAME_PAIRING_WINDOW,
};
use file_watch::ignore_rules::IgnoreFile;
use file_watch::path::FilePath;

fn at(path: &str) -> FilePath {
    FilePath::parse(path)
}

fn seen(path: &str, exists: bool, when: u64) -> Sighting {
    Sighting { path: at(path), is_dir: false, exists, at: when }
}

fn event(kind: EventKind, paths: Vec<Sighting>) -> FsEvent {
    FsEvent { kind, paths }
}

fn name() -> EventKind {
    EventKind::Modify(ModifyKind::Name)
}

/// Watches `/ws`, which the file system knows as `/private/ws`.
fn watcher() -> FileWatcher {
    let files = vec![IgnoreFile {
        path: at("/private/ws/.gitignore"),
        lines: vec!["*.tmp".to_owned()],
    }];
    FileWatcher::start(at("/ws"), at("/private/ws"), true, &files).unwrap()
}

fn told(path: &str) -> Action {
    Action::FileChanged(at(path))
}

fn modified(path: &str) -> Action {
    Action::Send(FileWatcherEvent::Modified(at(path)))
}

fn removed(path: &str) -> Action {
    Action::Send(FileWatcherEvent::Removed(at(path)))
}

fn renamed(from: &str, to: &str) -> Action {
    Action::Send(FileWatcherEvent::Renamed { from: at(from), to: at(to) })
}

fn half(path: &str, received_at: u64, is_source: bool) -> PendingRename {
    PendingRename { helix_path: at(path), received_at, is_source, in_tree: true }
}

#[test]
fn detects_git_directory_as_workspace() {
    let tmp = at("/tmp/x");
    assert_eq!(git_entry(&tmp), at("/tmp/x/.git"));
    assert_eq!(workspace_root(&tmp, Some(true)), Some(tmp));
}

#[test]
fn detects_git_file_as_workspace() {
    // Submodules and worktrees use a `.git` file pointing at the real gitdir.
    let tmp = at("/tmp/x");
    assert_eq!(workspace_root(&tmp, Some(true)), Some(tmp));
}

#[test]
fn rejects_non_workspace_directory() {
    let tmp = at("/tmp/x");
    assert_eq!(workspace_root(&tmp, Some(false)), None);
}

#[test]
fn unknown_git_entry_makes_no_workspace() {
    assert_eq!(workspace_root(&at("/tmp/x"), None), None);
}

#[test]
fn paths_are_remapped_to_the_helix_root() {
    let (fs, helix) = (at("/private/ws"), at("/ws"));
    assert_eq!(remap_to_helix_form(&at("/private/ws/a/b"), &fs, &helix), at("/ws/a/b"));
    assert_eq!(remap_to_helix_form(&at("/private/ws"), &fs, &helix), at("/ws"));
    assert_eq!(remap_to_helix_form(&at("/private/wsx/a"), &fs, &helix), at("/private/wsx/a"));
    assert_eq!(remap_to_helix_form(&at("/else"), &fs, &helix), at("/else"));
}

#[test]
fn remapping_back_gives_the_path() {
    let (fs, helix) = (at("/private/ws"), at("/ws"));
    let there = remap_to_helix_form(&at("/private/ws/a"), &fs, &helix);
    assert_eq!(remap_to_helix_form(&there, &helix, &fs), at("/private/ws/a"));
    assert_eq!(remap_to_helix_form(&at("/ws/a"), &helix, &helix), at("/ws/a"));
}

#[test]
fn unresolved_root_is_watched_as_it_is() {
    assert_eq!(watch_root(&at("/ws"), Some(at("/private/ws"))), at("/private/ws"));
    assert_eq!(watch_root(&at("/ws"), None), at("/ws"));
}

#[test]
fn no_watcher_without_a_watched_tree() {
    assert!(FileWatcher::start(at("/ws"), at("/ws"), false, &vec![]).is_none());
    assert!(FileWatcher::start(at("/ws"), at("/ws"), true, &vec![]).is_some());
}

#[test]
fn modifications_are_passed_on() {
    let mut w = watcher();
    for kind in [EventKind::Any, EventKind::Create, EventKind::Other,
        EventKind::Modify(ModifyKind::Any), EventKind::Modify(ModifyKind::Data),
        EventKind::Modify(ModifyKind::Other)]
    {
        let actions = w.dispatch(&event(
            kind,
            vec![seen("/private/ws/a", true, 0), seen("/private/ws/b", true, 0)],
        ));
        assert_eq!(actions, vec![told("/ws/a"), modified("/ws/a"), told("/ws/b"), modified("/ws/b")]);
    }
}

#[test]
fn access_is_not_passed_on() {
    let mut w = watcher();
    assert_eq!(w.dispatch(&event(EventKind::Access, vec![seen("/private/ws/a", true, 0)])), vec![]);
}

#[test]
fn metadata_reaches_language_servers_only() {
    let mut w = watcher();
    let kind = EventKind::Modify(ModifyKind::Metadata);
    let actions = w.dispatch(&event(kind, vec![seen("/private/ws/a", true, 0)]));
    assert_eq!(actions, vec![told("/ws/a")]);
}

#[test]
fn ignored_paths_are_not_passed_on() {
    let mut w = watcher();
    let actions = w.dispatch(&event(
        EventKind::Create,
        vec![
            seen("/private/ws/a.tmp", true, 0),
            seen("/private/ws/.git/HEAD", true, 0),
            seen("/private/ws/a", true, 0),
        ],
    ));
    assert_eq!(actions, vec![told("/ws/a"), modified("/ws/a")]);
}

#[test]
fn git_directory_is_not_passed_on_even_if_whitelisted() {
    let files = vec![IgnoreFile { path: at("/ws/.gitignore"), lines: vec!["!HEAD".to_owned()] }];
    let mut w = FileWatcher::start(at("/ws"), at("/ws"), true, &files).unwrap();
    let actions = w.dispatch(&event(
        EventKind::Create,
        vec![seen("/ws/.git/HEAD", true, 0), seen("/ws/HEAD", true, 0)],
    ));
    assert_eq!(actions, vec![told("/ws/HEAD"), modified("/ws/HEAD")]);
}

#[test]
fn removals_are_passed_on_unless_stale() {
    let mut w = watcher();
    let actions = w.dispatch(&event(
        EventKind::Remove,
        vec![seen("/private/ws/a", false, 0), seen("/private/ws/b", true, 0)],
    ));
    assert_eq!(actions, vec![told("/ws/a"), removed("/ws/a")]);
}

#[test]
fn halves_make_a_rename() {
    let mut w = watcher();
    assert_eq!(w.wait(5), None);
    let actions = w.dispatch(&event(name(), vec![seen("/private/ws/a", false, 10)]));
    assert_eq!(actions, vec![told("/ws/a")]);
    assert_eq!(w.wait(10), Some(RENAME_PAIRING_WINDOW));
    let actions = w.dispatch(&event(name(), vec![seen("/private/ws/b", true, 20)]));
    assert_eq!(actions, vec![told("/ws/b"), renamed("/ws/a", "/ws/b")]);
    assert_eq!(w.wait(20), None);
}

#[test]
fn halves_make_a_rename_target_first() {
    let mut w = watcher();
    let actions = w.dispatch(&event(
        name(),
        vec![seen("/private/ws/b", true, 1), seen("/private/ws/a", false, 2)],
    ));
    assert_eq!(actions, vec![told("/ws/b"), told("/ws/a"), renamed("/ws/a", "/ws/b")]);
}

#[test]
fn halves_across_the_boundary_do_not_pair() {
    let mut w = watcher();
    let actions = w.dispatch(&event(
        name(),
        vec![seen("/private/ws/a", false, 1), seen("/elsewhere/a", true, 2)],
    ));
    assert_eq!(actions, vec![told("/ws/a"), told("/elsewhere/a"), removed("/ws/a")]);
    let actions = w.dispatch(&event(name(), vec![seen("/private/ws/b", false, 3)]));
    assert_eq!(actions, vec![told("/ws/b"), modified("/elsewhere/a")]);
    assert_eq!(w.drain(Received::Timeout), Some(vec![removed("/ws/b")]));

    let mut w = watcher();
    let actions = w.dispatch(&event(
        name(),
        vec![seen("/elsewhere/a", false, 1), seen("/private/ws/a", true, 2)],
    ));
    assert_eq!(actions, vec![told("/elsewhere/a"), told("/ws/a"), removed("/elsewhere/a")]);
    assert_eq!(w.drain(Received::Timeout), Some(vec![modified("/ws/a")]));
}

#[test]
fn halves_outside_of_the_tree_do_not_pair() {
    let outside = |path: &str, is_source: bool| PendingRename {
        in_tree: false,
        ..half(path, 0, is_source)
    };
    let (kept, event) = pair_or_buffer(outside("/b", false), Some(outside("/a", true)));
    assert_eq!(kept.unwrap().helix_path, at("/b"));
    assert_eq!(event, Some(FileWatcherEvent::Removed(at("/a"))));
}

#[test]
fn halves_of_a_kind_do_not_pair() {
    let mut w = watcher();
    let actions = w.dispatch(&event(
        name(),
        vec![seen("/private/ws/a", false, 1), seen("/private/ws/b", false, 2)],
    ));
    assert_eq!(actions, vec![told("/ws/a"), told("/ws/b"), removed("/ws/a")]);
    assert_eq!(w.wait(2), Some(RENAME_PAIRING_WINDOW));
}

#[test]
fn lone_halves_are_flushed_after_the_window() {
    let mut w = watcher();
    let e = event(name(), vec![seen("/private/ws/a", false, 1_000)]);
    assert_eq!(w.drain(Received::Event(e)), Some(vec![told("/ws/a")]));
    assert_eq!(w.wait(1_000 + 40_000_000), Some(60_000_000));
    assert_eq!(w.wait(0), Some(RENAME_PAIRING_WINDOW));
    assert_eq!(w.wait(1_000 + 100_000_000), Some(0));
    assert_eq!(w.wait(u64::MAX), Some(0));
    assert_eq!(w.drain(Received::Timeout), Some(vec![removed("/ws/a")]));
    assert_eq!(w.drain(Received::Timeout), Some(vec![]));
    let e = event(name(), vec![seen("/private/ws/b", true, 1)]);
    assert_eq!(w.drain(Received::Event(e)), Some(vec![told("/ws/b")]));
    assert_eq!(w.drain(Received::Timeout), Some(vec![modified("/ws/b")]));
}

#[test]
fn errors_change_nothing_and_the_end_ends() {
    let mut w = watcher();
    w.dispatch(&event(name(), vec![seen("/private/ws/a", false, 1)]));
    assert_eq!(w.drain(Received::Error), Some(vec![]));
    assert_eq!(w.wait(1), Some(RENAME_PAIRING_WINDOW));
    assert_eq!(w.drain(Received::Disconnected), None);
}

#[test]
fn other_changes_do_not_disturb_a_waiting_half() {
    let mut w = watcher();
    w.dispatch(&event(name(), vec![seen("/private/ws/a", false, 1)]));
    let actions = w.dispatch(&event(EventKind::Create, vec![seen("/private/ws/c", true, 2)]));
    assert_eq!(actions, vec![told("/ws/c"), modified("/ws/c")]);
    let actions = w.dispatch(&event(name(), vec![seen("/private/ws/b", true, 3)]));
    assert_eq!(actions, vec![told("/ws/b"), renamed("/ws/a", "/ws/b")]);
}

#[test]
fn pairing_has_three_outcomes() {
    let (waiting, none) = pair_or_buffer(half("/a", 3, true), None);
    assert!(none.is_none());
    let waiting = waiting.unwrap();
    assert_eq!((waiting.helix_path.clone(), waiting.received_at, waiting.is_source),
        (at("/a"), 3, true));
    let (still, event) = pair_or_buffer(half("/b", 4, true), Some(waiting));
    assert_eq!(event, Some(FileWatcherEvent::Removed(at("/a"))));
    let (none, event) = pair_or_buffer(half("/c", 5, false), still);
    assert!(none.is_none());
    assert_eq!(event, Some(FileWatcherEvent::Renamed { from: at("/b"), to: at("/c") }));
}

#[test]
fn orphans_are_removals_or_modifications() {
    assert_eq!(flush_orphan(half("/a", 0, true)), FileWatcherEvent::Removed(at("/a")));
    let event = flush_orphan(half("/a", 0, false));
    assert_eq!(event.clone(), FileWatcherEvent::Modified(at("/a")));
    let rename = FileWatcherEvent::Renamed { from: at("/a"), to: at("/b") };
    assert_eq!(rename.clone(), rename);
}
