//! What the editor and the language servers hear of changes on disk.

use vstd::multiset::Multiset;
use vstd::prelude::*;

use crate::ignore_rules;
use crate::ignore_rules::{HierarchicalIgnore, IgnoreFile, IgnoreFileView, IgnoreView};
use crate::path::{FilePath, PathView};

verus! {

/// A change on disk that the editor may have to follow.
#[derive(Debug, PartialEq, Eq)]
pub enum FileWatcherEvent {
    /// The content of the file was likely modified: it was created, written or
    /// replaced.
    Modified(FilePath),
    /// The file was removed from disk.
    Removed(FilePath),
    /// The file was renamed within the watched tree. A rename into the tree or out
    /// of it is a modification or a removal.
    Renamed { from: FilePath, to: FilePath },
}

impl Clone for FileWatcherEvent {
    fn clone(&self) -> (copy: Self)
        ensures
            copy@ == self@,
    {
        match self {
            FileWatcherEvent::Modified(path) => FileWatcherEvent::Modified(path.clone()),
            FileWatcherEvent::Removed(path) => FileWatcherEvent::Removed(path.clone()),
            FileWatcherEvent::Renamed { from, to } => FileWatcherEvent::Renamed {
                from: from.clone(),
                to: to.clone(),
            },
        }
    }
}

/// A change by the paths it speaks of.
#[verifier::ext_equal]
pub enum ChangeView {
    Modified(PathView),
    Removed(PathView),
    Renamed { from: PathView, to: PathView },
}

impl View for FileWatcherEvent {
    type V = ChangeView;

    open spec fn view(&self) -> ChangeView {
        match *self {
            FileWatcherEvent::Modified(path) => ChangeView::Modified(path@),
            FileWatcherEvent::Removed(path) => ChangeView::Removed(path@),
            FileWatcherEvent::Renamed { from, to } => ChangeView::Renamed {
                from: from@,
                to: to@,
            },
        }
    }
}

/// The entry that makes a directory a workspace.
pub fn git_entry(cwd: &FilePath) -> (entry: FilePath)
    ensures
        entry@ == cwd@.child(".git"@),
{
    proof {
        reveal_strlit(".git");
    }
    cwd.child(".git")
}

/// The workspace root, if `cwd` is a workspace itself: if it directly holds a
/// `.git` entry, of whatever kind. `has_git_entry` says whether it does, if that
/// could be found out.
pub fn workspace_root(cwd: &FilePath, has_git_entry: Option<bool>) -> (root: Option<FilePath>)
    ensures
        match root {
            Some(root) => has_git_entry == Some(true) && root@ == cwd@,
            None => has_git_entry != Some(true),
        },
{
    match has_git_entry {
        Some(true) => Some(cwd.clone()),
        _ => None,
    }
}

/// A path of the tree at `fs_root` as a path of the tree at `helix_root`. Paths
/// outside of the tree stay as they are.
pub open spec fn remapped(path: PathView, fs_root: PathView, helix_root: PathView) -> PathView {
    match path.strip_prefix(fs_root) {
        Some(rel) => helix_root.join(rel),
        None => path,
    }
}

/// Rewrites a path from the form in which the file system reports it, with
/// symbolic links resolved, to the form in which the editor knows it.
pub fn remap_to_helix_form(path: &FilePath, fs_root: &FilePath, helix_root: &FilePath) -> (result:
    FilePath)
    ensures
        result@ == remapped(path@, fs_root@, helix_root@),
{
    match path.strip_prefix(fs_root) {
        Some(rel) => helix_root.join(&rel),
        None => path.clone(),
    }
}

/// One half of a rename: a path that a file left, or one that it arrived at.
/// `received_at` is in nanoseconds, and `in_tree` says whether the path lies in
/// the watched tree.
pub struct PendingRename {
    pub helix_path: FilePath,
    pub received_at: u64,
    pub is_source: bool,
    pub in_tree: bool,
}

/// A half of a rename by its path.
#[verifier::ext_equal]
pub struct HalfView {
    pub path: PathView,
    pub received_at: u64,
    pub is_source: bool,
    pub in_tree: bool,
}

impl View for PendingRename {
    type V = HalfView;

    open spec fn view(&self) -> HalfView {
        HalfView {
            path: self.helix_path@,
            received_at: self.received_at,
            is_source: self.is_source,
            in_tree: self.in_tree,
        }
    }
}

/// The half that is waiting, if any.
pub open spec fn half_of(pending: Option<PendingRename>) -> Option<HalfView> {
    match pending {
        Some(half) => Some(half@),
        None => None,
    }
}

/// The change that is seen, if any.
pub open spec fn change_of(event: Option<FileWatcherEvent>) -> Option<ChangeView> {
    match event {
        Some(event) => Some(event@),
        None => None,
    }
}

/// What a half without counterpart comes down to: a file that left has been
/// removed, and one that arrived has been modified.
pub open spec fn orphan(half: HalfView) -> ChangeView {
    if half.is_source {
        ChangeView::Removed(half.path)
    } else {
        ChangeView::Modified(half.path)
    }
}

/// What is waiting after a half arrived, and the change that is seen then. Two
/// opposite halves in the watched tree make a rename. Of two halves of the same
/// kind, or of which one lies outside of the tree, the earlier one has no
/// counterpart.
pub open spec fn paired(arrived: HalfView, previous: Option<HalfView>) -> (
    Option<HalfView>,
    Option<ChangeView>,
) {
    match previous {
        None => (Some(arrived), None),
        Some(prev) => if prev.is_source == arrived.is_source || !prev.in_tree
            || !arrived.in_tree {
            (Some(arrived), Some(orphan(prev)))
        } else if prev.is_source {
            (None, Some(ChangeView::Renamed { from: prev.path, to: arrived.path }))
        } else {
            (None, Some(ChangeView::Renamed { from: arrived.path, to: prev.path }))
        },
    }
}

/// Gives up on the counterpart of a half.
pub fn flush_orphan(half: PendingRename) -> (event: FileWatcherEvent)
    ensures
        event@ == orphan(half@),
{
    if half.is_source {
        FileWatcherEvent::Removed(half.helix_path)
    } else {
        FileWatcherEvent::Modified(half.helix_path)
    }
}

/// Pairs a half that arrived with the one that was waiting, or lets it wait.
pub fn pair_or_buffer(arrived: PendingRename, previous: Option<PendingRename>) -> (result: (
    Option<PendingRename>,
    Option<FileWatcherEvent>,
))
    ensures
        (half_of(result.0), change_of(result.1)) == paired(arrived@, half_of(previous)),
{
    match previous {
        Some(prev) => {
            if prev.is_source != arrived.is_source && prev.in_tree && arrived.in_tree {
                let (from, to) = if prev.is_source {
                    (prev.helix_path, arrived.helix_path)
                } else {
                    (arrived.helix_path, prev.helix_path)
                };
                (None, Some(FileWatcherEvent::Renamed { from, to }))
            } else {
                (Some(arrived), Some(flush_orphan(prev)))
            }
        },
        None => (Some(arrived), None),
    }
}

/// What about a file was modified.
#[derive(Debug, Clone, Copy, PartialEq, Eq, Structural)]
pub enum ModifyKind {
    Any,
    Data,
    Metadata,
    Name,
    Other,
}

/// What the file system reports to have happened.
#[derive(Debug, Clone, Copy, PartialEq, Eq, Structural)]
pub enum EventKind {
    Any,
    Access,
    Create,
    Modify(ModifyKind),
    Remove,
    Other,
}

/// A reported path with what was found there: whether it is a directory and
/// whether it exists, and when that was found, in nanoseconds.
pub struct Sighting {
    pub path: FilePath,
    pub is_dir: bool,
    pub exists: bool,
    pub at: u64,
}

/// A report of the file system.
pub struct FsEvent {
    pub kind: EventKind,
    pub paths: Vec<Sighting>,
}

/// What came while waiting for the next report: a report, the failure of one,
/// nothing within the time waited, or the end of all reports.
pub enum Received {
    Event(FsEvent),
    Error,
    Timeout,
    Disconnected,
}

/// A sighting by its path.
#[verifier::ext_equal]
pub struct SightingView {
    pub path: PathView,
    pub is_dir: bool,
    pub exists: bool,
    pub at: u64,
}

impl View for Sighting {
    type V = SightingView;

    open spec fn view(&self) -> SightingView {
        SightingView {
            path: self.path@,
            is_dir: self.is_dir,
            exists: self.exists,
            at: self.at,
        }
    }
}

/// The sightings, each by its path.
pub open spec fn sightings(paths: Seq<Sighting>) -> Seq<SightingView> {
    paths.map_values(|s: Sighting| s@)
}

/// What came, with its sightings by their paths.
#[verifier::ext_equal]
pub enum ReceivedView {
    Event(EventKind, Seq<SightingView>),
    Error,
    Timeout,
    Disconnected,
}

impl View for Received {
    type V = ReceivedView;

    open spec fn view(&self) -> ReceivedView {
        match *self {
            Received::Event(event) => ReceivedView::Event(event.kind, sightings(event.paths@)),
            Received::Error => ReceivedView::Error,
            Received::Timeout => ReceivedView::Timeout,
            Received::Disconnected => ReceivedView::Disconnected,
        }
    }
}

/// Something to pass on.
#[derive(Debug, PartialEq, Eq)]
pub enum Action {
    /// The language servers may want to know that the file changed.
    FileChanged(FilePath),
    /// The editor is to follow a change.
    Send(FileWatcherEvent),
}

/// Something to pass on, by the paths it speaks of.
#[verifier::ext_equal]
pub enum ActionView {
    FileChanged(PathView),
    Send(ChangeView),
}

impl View for Action {
    type V = ActionView;

    open spec fn view(&self) -> ActionView {
        match *self {
            Action::FileChanged(path) => ActionView::FileChanged(path@),
            Action::Send(event) => ActionView::Send(event@),
        }
    }
}

/// The actions, each by the paths it speaks of.
pub open spec fn action_views(actions: Seq<Action>) -> Seq<ActionView> {
    actions.map_values(|a: Action| a@)
}

/// How long a half of a rename waits for its counterpart, in nanoseconds.
pub const RENAME_PAIRING_WINDOW: u64 = 100_000_000;

/// Turns reports on the tree at a workspace root into what to pass on.
pub struct FileWatcher {
    fs_root: FilePath,
    helix_root: FilePath,
    ignore: HierarchicalIgnore,
    pending: Option<PendingRename>,
}

/// The workspace root, as the file system and as the editor know it, what the
/// workspace leaves out, and the half of a rename that is waiting.
#[verifier::ext_equal]
pub struct WatchView {
    pub fs_root: PathView,
    pub helix_root: PathView,
    pub ignore: IgnoreView,
    pub pending: Option<HalfView>,
}

impl View for FileWatcher {
    type V = WatchView;

    closed spec fn view(&self) -> WatchView {
        WatchView {
            fs_root: self.fs_root@,
            helix_root: self.helix_root@,
            ignore: self.ignore@,
            pending: half_of(self.pending),
        }
    }
}

impl WatchView {
    /// Whether a sighting is passed on: the path is not left out, and what is
    /// reported to be removed is gone indeed.
    pub open spec fn forwards(self, kind: EventKind, seen: SightingView) -> bool {
        &&& kind != EventKind::Access
        &&& !self.ignore.ignored(seen.path, seen.is_dir)
        &&& !(kind == EventKind::Remove && seen.exists)
    }

    /// The path of a sighting as the editor knows it.
    pub open spec fn known_as(self, seen: SightingView) -> PathView {
        remapped(seen.path, self.fs_root, self.helix_root)
    }

    /// The half of a rename that a sighting is.
    pub open spec fn half(self, seen: SightingView) -> HalfView {
        HalfView {
            path: self.known_as(seen),
            received_at: seen.at,
            is_source: !seen.exists,
            in_tree: seen.path.starts_with(self.fs_root),
        }
    }

    /// What is waiting after a sighting, and what is passed on. Language servers
    /// hear of all that is forwarded; the editor hears of removals and, but for
    /// changes of metadata, of everything else as a modification, except that
    /// changes of names wait for their counterpart.
    pub open spec fn sighted(self, kind: EventKind, seen: SightingView) -> (
        Option<HalfView>,
        Seq<ActionView>,
    ) {
        let path = self.known_as(seen);
        let told = seq![ActionView::FileChanged(path)];
        if !self.forwards(kind, seen) {
            (self.pending, Seq::empty())
        } else {
            match kind {
                EventKind::Modify(ModifyKind::Name) => {
                    let (pending, change) = paired(self.half(seen), self.pending);
                    match change {
                        Some(change) => (pending, told.push(ActionView::Send(change))),
                        None => (pending, told),
                    }
                },
                EventKind::Modify(ModifyKind::Metadata) => (self.pending, told),
                EventKind::Remove => (
                    self.pending,
                    told.push(ActionView::Send(ChangeView::Removed(path))),
                ),
                _ => (self.pending, told.push(ActionView::Send(ChangeView::Modified(path)))),
            }
        }
    }

    /// The same with another half waiting.
    pub open spec fn awaiting(self, pending: Option<HalfView>) -> WatchView {
        WatchView { pending, ..self }
    }

    /// What is waiting after a report, and what is passed on.
    pub open spec fn dispatched(self, kind: EventKind, paths: Seq<SightingView>) -> (
        Option<HalfView>,
        Seq<ActionView>,
    )
        decreases paths.len(),
    {
        if paths.len() == 0 {
            (self.pending, Seq::empty())
        } else {
            let (before, actions) = self.dispatched(kind, paths.drop_last());
            let (pending, more) = self.awaiting(before).sighted(kind, paths.last());
            (pending, actions + more)
        }
    }

    /// What is waiting after something came, and what is passed on. Once nothing
    /// came in time, the half that waits is given up on.
    pub open spec fn drained(self, received: ReceivedView) -> (
        Option<HalfView>,
        Seq<ActionView>,
    ) {
        match received {
            ReceivedView::Event(kind, paths) => self.dispatched(kind, paths),
            ReceivedView::Timeout => match self.pending {
                Some(half) => (None, seq![ActionView::Send(orphan(half))]),
                None => (None, Seq::empty()),
            },
            ReceivedView::Error => (self.pending, Seq::empty()),
            ReceivedView::Disconnected => (self.pending, Seq::empty()),
        }
    }

    /// How long to wait for what comes next; without a half that waits, as long
    /// as it takes.
    pub open spec fn patience(self, now: u64) -> Option<int> {
        match self.pending {
            Some(half) => Some(
                if now <= half.received_at {
                    RENAME_PAIRING_WINDOW as int
                } else if now - half.received_at <= RENAME_PAIRING_WINDOW {
                    RENAME_PAIRING_WINDOW - (now - half.received_at)
                } else {
                    0
                },
            ),
            None => None,
        }
    }
}

/// The root of the tree to watch: the workspace root with its symbolic links
/// resolved, if they could be.
pub fn watch_root(helix_root: &FilePath, resolved: Option<FilePath>) -> (root: FilePath)
    ensures
        root@ == (match resolved {
            Some(resolved) => resolved@,
            None => helix_root@,
        }),
{
    match resolved {
        Some(resolved) => resolved,
        None => helix_root.clone(),
    }
}

impl FileWatcher {
    pub closed spec fn wf(&self) -> bool {
        self.ignore.wf()
    }

    /// Starts with nothing waiting, unless the tree at `fs_root` could not be
    /// watched. `files` are the ignore files of the tree.
    pub fn start(
        helix_root: FilePath,
        fs_root: FilePath,
        watching: bool,
        files: &Vec<IgnoreFile>,
    ) -> (watcher: Option<Self>)
        ensures
            watcher is Some <==> watching,
            watcher matches Some(watcher) ==> {
                &&& watcher.wf()
                &&& watcher@.helix_root == helix_root@
                &&& watcher@.fs_root == fs_root@
                &&& watcher@.pending is None
                &&& ignore_rules::is_loaded(
                    watcher@.ignore,
                    fs_root@,
                    ignore_rules::file_views(files@),
                )
            },
    {
        if !watching {
            return None;
        }
        let ignore = ignore_rules::build_ignore(&fs_root, files);
        Some(FileWatcher { fs_root, helix_root, ignore, pending: None })
    }

    /// How many nanoseconds to wait for what comes next. While a half of a
    /// rename waits, that is what is left of its time; otherwise there is no
    /// limit.
    pub fn wait(&self, now: u64) -> (wait: Option<u64>)
        ensures
            match wait {
                Some(wait) => self@.patience(now) == Some(wait as int),
                None => self@.patience(now) is None,
            },
    {
        match &self.pending {
            Some(half) => {
                let elapsed: u64 = if now >= half.received_at {
                    now - half.received_at
                } else {
                    0
                };
                Some(
                    if elapsed <= RENAME_PAIRING_WINDOW {
                        RENAME_PAIRING_WINDOW - elapsed
                    } else {
                        0
                    },
                )
            },
            None => None,
        }
    }

    /// Takes note of a sighting, and adds what to pass on to `actions`.
    fn sight(&mut self, kind: EventKind, seen: &Sighting, actions: &mut Vec<Action>)
        requires
            old(self).wf(),
        ensures
            final(self).wf(),
            final(self)@ == old(self)@.awaiting(old(self)@.sighted(kind, seen@).0),
            action_views(final(actions)@) == action_views(old(actions)@) + old(self)@.sighted(
                kind,
                seen@,
            ).1,
    {
        let ghost before = action_views(actions@);
        if kind == EventKind::Access || self.ignore.matches(&seen.path, seen.is_dir) || (kind
            == EventKind::Remove && seen.exists) {
            proof {
                assert(before + Seq::<ActionView>::empty() =~= before);
            }
            return;
        }
        let path = remap_to_helix_form(&seen.path, &self.fs_root, &self.helix_root);
        actions.push(Action::FileChanged(path.clone()));
        let ghost told = before.push(ActionView::FileChanged(path@));
        proof {
            assert(action_views(actions@) =~= told);
        }
        let event = match kind {
            EventKind::Modify(ModifyKind::Name) => {
                let arrived = PendingRename {
                    helix_path: path,
                    received_at: seen.at,
                    is_source: !seen.exists,
                    in_tree: seen.path.starts_with(&self.fs_root),
                };
                let (pending, event) = pair_or_buffer(arrived, self.pending.take());
                self.pending = pending;
                event
            },
            EventKind::Modify(ModifyKind::Metadata) => None,
            EventKind::Remove => Some(FileWatcherEvent::Removed(path)),
            _ => Some(FileWatcherEvent::Modified(path)),
        };
        match event {
            Some(event) => {
                actions.push(Action::Send(event));
                proof {
                    assert(action_views(actions@) =~= told.push(ActionView::Send(event@)));
                }
            },
            None => {},
        }
        proof {
            assert(action_views(actions@) =~= before + old(self)@.sighted(kind, seen@).1);
        }
    }

    /// Takes note of a report, path by path, and says what to pass on.
    pub fn dispatch(&mut self, event: &FsEvent) -> (actions: Vec<Action>)
        requires
            old(self).wf(),
        ensures
            final(self).wf(),
            ({
                let (pending, passed) = old(self)@.dispatched(event.kind, sightings(event.paths@));
                &&& final(self)@ == old(self)@.awaiting(pending)
                &&& action_views(actions@) == passed
            }),
    {
        let ghost start = self@;
        let ghost all = sightings(event.paths@);
        let mut actions: Vec<Action> = Vec::new();
        let mut i: usize = 0;
        proof {
            assert(action_views(actions@) =~= Seq::empty());
            assert(start.awaiting(start.pending) =~= start);
        }
        while i < event.paths.len()
            invariant
                self.wf(),
                i <= event.paths@.len(),
                all == sightings(event.paths@),
                self@ == start.awaiting(start.dispatched(event.kind, all.take(i as int)).0),
                action_views(actions@) == start.dispatched(event.kind, all.take(i as int)).1,
            decreases event.paths@.len() - i,
        {
            proof {
                assert(all.take(i + 1).drop_last() =~= all.take(i as int));
                assert(all.take(i + 1).last() == event.paths@[i as int]@);
            }
            self.sight(event.kind, &event.paths[i], &mut actions);
            i = i + 1;
        }
        proof {
            assert(all.take(i as int) =~= all);
        }
        actions
    }

    /// Takes note of what came, and says what to pass on; at the end of all
    /// reports there is nothing more.
    pub fn drain(&mut self, received: Received) -> (actions: Option<Vec<Action>>)
        requires
            old(self).wf(),
        ensures
            final(self).wf(),
            actions is None <==> received is Disconnected,
            ({
                let (pending, passed) = old(self)@.drained(received@);
                &&& final(self)@ == old(self)@.awaiting(pending)
                &&& actions matches Some(actions) ==> action_views(actions@) == passed
            }),
    {
        match received {
            Received::Event(event) => Some(self.dispatch(&event)),
            Received::Error => {
                let actions: Vec<Action> = Vec::new();
                proof {
                    assert(action_views(actions@) =~= Seq::empty());
                }
                Some(actions)
            },
            Received::Timeout => {
                let mut actions: Vec<Action> = Vec::new();
                match self.pending.take() {
                    Some(half) => {
                        let event = flush_orphan(half);
                        actions.push(Action::Send(event));
                        proof {
                            assert(action_views(actions@) =~= seq![ActionView::Send(event@)]);
                        }
                    },
                    None => {
                        proof {
                            assert(action_views(actions@) =~= Seq::empty());
                        }
                    },
                }
                Some(actions)
            },
            Received::Disconnected => None,
        }
    }
}

/// The language servers hear of every sighting that is forwarded, once and in
/// order, and of nothing else.
pub proof fn language_servers_hear_all(
    watch: WatchView,
    kind: EventKind,
    paths: Seq<SightingView>,
)
    ensures
        told_of(watch.dispatched(kind, paths).1) == paths.filter(
            |seen: SightingView| watch.forwards(kind, seen),
        ).map_values(|seen: SightingView| watch.known_as(seen)),
    decreases paths.len(),
{
    reveal(Seq::filter);
    let forwarded = |seen: SightingView| watch.forwards(kind, seen);
    let known = |seen: SightingView| watch.known_as(seen);
    if paths.len() == 0 {
        assert(paths.filter(forwarded).map_values(known) =~= Seq::empty());
    } else {
        let front = paths.drop_last();
        let last = paths.last();
        language_servers_hear_all(watch, kind, front);
        let (before, actions) = watch.dispatched(kind, front);
        let (pending, more) = watch.awaiting(before).sighted(kind, last);
        lemma_told_of(actions, more);
        let path = watch.known_as(last);
        if watch.forwards(kind, last) {
            assert(told_of(more) =~= seq![path]) by {
                reveal_with_fuel(told_of, 3);
                if more.len() == 1 {
                    assert(more.drop_last() =~= Seq::empty());
                } else {
                    assert(more.drop_last() =~= seq![ActionView::FileChanged(path)]);
                    assert(more.drop_last().drop_last() =~= Seq::empty());
                }
            }
            assert(paths.filter(forwarded).map_values(known) =~= front.filter(forwarded).map_values(
                known,
            ).push(path));
        } else {
            assert(told_of(more) =~= Seq::empty());
            assert(paths.filter(forwarded) =~= front.filter(forwarded));
        }
    }
}

/// The paths that language servers are told of.
pub open spec fn told_of(actions: Seq<ActionView>) -> Seq<PathView>
    decreases actions.len(),
{
    if actions.len() == 0 {
        Seq::empty()
    } else {
        let before = told_of(actions.drop_last());
        match actions.last() {
            ActionView::FileChanged(path) => before.push(path),
            ActionView::Send(_) => before,
        }
    }
}

proof fn lemma_told_of(a: Seq<ActionView>, b: Seq<ActionView>)
    ensures
        told_of(a + b) == told_of(a) + told_of(b),
    decreases b.len(),
{
    if b.len() == 0 {
        assert(a + b =~= a);
        assert(told_of(a) + told_of(b) =~= told_of(a));
    } else {
        lemma_told_of(a, b.drop_last());
        assert((a + b).drop_last() =~= a + b.drop_last());
        assert(told_of(a + b) =~= told_of(a) + told_of(b));
    }
}

/// A path with whether the file left it, or arrived or changed there.
pub type Side = (PathView, bool);

/// The sides of a change: a rename has two, a removal the one that the file
/// left, and a modification the one where it is.
pub open spec fn change_sides(change: ChangeView) -> Multiset<Side> {
    match change {
        ChangeView::Modified(path) => Multiset::singleton((path, false)),
        ChangeView::Removed(path) => Multiset::singleton((path, true)),
        ChangeView::Renamed { from, to } => Multiset::singleton((from, true)).add(
            Multiset::singleton((to, false)),
        ),
    }
}

/// The sides of all changes that the editor is to follow.
pub open spec fn sent_sides(actions: Seq<ActionView>) -> Multiset<Side>
    decreases actions.len(),
{
    if actions.len() == 0 {
        Multiset::empty()
    } else {
        let before = sent_sides(actions.drop_last());
        match actions.last() {
            ActionView::FileChanged(_) => before,
            ActionView::Send(change) => before.add(change_sides(change)),
        }
    }
}

/// The side of the half that waits.
pub open spec fn pending_side(pending: Option<HalfView>) -> Multiset<Side> {
    match pending {
        Some(half) => Multiset::singleton((half.path, half.is_source)),
        None => Multiset::empty(),
    }
}

impl WatchView {
    /// The side that a sighting tells the editor of, if it tells it of one.
    pub open spec fn seen_side(self, kind: EventKind, seen: SightingView) -> Multiset<Side> {
        if !self.forwards(kind, seen) || kind == EventKind::Modify(ModifyKind::Metadata) {
            Multiset::empty()
        } else if kind == EventKind::Modify(ModifyKind::Name) {
            Multiset::singleton((self.known_as(seen), !seen.exists))
        } else {
            Multiset::singleton((self.known_as(seen), kind == EventKind::Remove))
        }
    }

    /// The sides that the sightings of a report tell the editor of.
    pub open spec fn reported_sides(self, kind: EventKind, paths: Seq<SightingView>) -> Multiset<
        Side,
    >
        decreases paths.len(),
    {
        if paths.len() == 0 {
            Multiset::empty()
        } else {
            self.reported_sides(kind, paths.drop_last()).add(self.seen_side(kind, paths.last()))
        }
    }

    /// The sides that all that came tells the editor of.
    pub open spec fn received_sides(self, received: Seq<ReceivedView>) -> Multiset<Side>
        decreases received.len(),
    {
        if received.len() == 0 {
            Multiset::empty()
        } else {
            let before = self.received_sides(received.drop_last());
            match received.last() {
                ReceivedView::Event(kind, paths) => before.add(self.reported_sides(kind, paths)),
                _ => before,
            }
        }
    }

    /// What is waiting after all that came, and all that is passed on.
    pub open spec fn drained_all(self, received: Seq<ReceivedView>) -> (
        Option<HalfView>,
        Seq<ActionView>,
    )
        decreases received.len(),
    {
        if received.len() == 0 {
            (self.pending, Seq::empty())
        } else {
            let (before, actions) = self.drained_all(received.drop_last());
            let (pending, more) = self.awaiting(before).drained(received.last());
            (pending, actions + more)
        }
    }
}

proof fn lemma_sent_sides(a: Seq<ActionView>, b: Seq<ActionView>)
    ensures
        sent_sides(a + b) == sent_sides(a).add(sent_sides(b)),
    decreases b.len(),
{
    if b.len() == 0 {
        assert(a + b =~= a);
        assert(sent_sides(a).add(sent_sides(b)) =~= sent_sides(a));
    } else {
        lemma_sent_sides(a, b.drop_last());
        assert((a + b).drop_last() =~= a + b.drop_last());
        assert(sent_sides(a + b) =~= sent_sides(a).add(sent_sides(b)));
    }
}

/// The sides of one change with what language servers hear before it.
proof fn lemma_sent_one(path: PathView, change: ChangeView)
    ensures
        sent_sides(seq![ActionView::FileChanged(path)]) == Multiset::<Side>::empty(),
        sent_sides(seq![ActionView::FileChanged(path)].push(ActionView::Send(change)))
            == change_sides(change),
        sent_sides(seq![ActionView::Send(change)]) == change_sides(change),
{
    reveal_with_fuel(sent_sides, 3);
    let told = seq![ActionView::FileChanged(path)];
    assert(told.drop_last() =~= Seq::empty());
    assert(told.push(ActionView::Send(change)).drop_last() =~= told);
    assert(seq![ActionView::Send(change)].drop_last() =~= Seq::empty());
    assert(Multiset::<Side>::empty().add(change_sides(change)) =~= change_sides(change));
}

/// Pairing neither loses nor invents a half.
pub proof fn pairing_keeps_halves(arrived: HalfView, previous: Option<HalfView>)
    ensures
        ({
            let (pending, change) = paired(arrived, previous);
            pending_side(pending).add(
                match change {
                    Some(change) => change_sides(change),
                    None => Multiset::empty(),
                },
            ) == pending_side(previous).add(pending_side(Some(arrived)))
        }),
{
    let (pending, change) = paired(arrived, previous);
    let sides = match change {
        Some(change) => change_sides(change),
        None => Multiset::empty(),
    };
    assert(pending_side(pending).add(sides) =~= pending_side(previous).add(
        pending_side(Some(arrived)),
    ));
}

proof fn lemma_sighting_sides(watch: WatchView, kind: EventKind, seen: SightingView)
    ensures
        ({
            let (pending, actions) = watch.sighted(kind, seen);
            sent_sides(actions).add(pending_side(pending)) == watch.seen_side(kind, seen).add(
                pending_side(watch.pending),
            )
        }),
{
    let (pending, actions) = watch.sighted(kind, seen);
    let path = watch.known_as(seen);
    lemma_sent_one(path, ChangeView::Removed(path));
    lemma_sent_one(path, ChangeView::Modified(path));
    let half = watch.half(seen);
    pairing_keeps_halves(half, watch.pending);
    match paired(half, watch.pending).1 {
        Some(change) => {
            lemma_sent_one(path, change);
        },
        None => {},
    }
    assert(sent_sides(actions).add(pending_side(pending)) =~= watch.seen_side(kind, seen).add(
        pending_side(watch.pending),
    ));
}

proof fn lemma_report_sides(watch: WatchView, kind: EventKind, paths: Seq<SightingView>)
    ensures
        ({
            let (pending, actions) = watch.dispatched(kind, paths);
            sent_sides(actions).add(pending_side(pending)) == watch.reported_sides(kind, paths).add(
                pending_side(watch.pending),
            )
        }),
    decreases paths.len(),
{
    if paths.len() > 0 {
        let (before, actions) = watch.dispatched(kind, paths.drop_last());
        let waiting = watch.awaiting(before);
        let (pending, more) = waiting.sighted(kind, paths.last());
        lemma_report_sides(watch, kind, paths.drop_last());
        lemma_sighting_sides(waiting, kind, paths.last());
        lemma_sent_sides(actions, more);
        assert(waiting.seen_side(kind, paths.last()) == watch.seen_side(kind, paths.last()));
        let (a, b, c) = (sent_sides(actions), sent_sides(more), pending_side(pending));
        let (r, s, p) = (
            watch.reported_sides(kind, paths.drop_last()),
            watch.seen_side(kind, paths.last()),
            pending_side(watch.pending),
        );
        let m = pending_side(before);
        assert(a.add(m) == r.add(p));
        assert(b.add(c) == s.add(m));
        assert forall|x: Side| #[trigger] a.add(b).add(c).count(x) == r.add(s).add(p).count(x) by {
            assert(a.add(m).count(x) == r.add(p).count(x));
            assert(b.add(c).count(x) == s.add(m).count(x));
        }
        assert(a.add(b).add(c) =~= r.add(s).add(p));
    }
}

/// However reports come in, the editor hears of each side just once: every
/// change that is forwarded is followed on its own or as part of one rename, or
/// still waits, and nothing is followed that was not forwarded.
pub proof fn every_side_is_heard_once(watch: WatchView, received: Seq<ReceivedView>)
    ensures
        ({
            let (pending, actions) = watch.drained_all(received);
            sent_sides(actions).add(pending_side(pending)) == watch.received_sides(received).add(
                pending_side(watch.pending),
            )
        }),
    decreases received.len(),
{
    if received.len() > 0 {
        let (before, actions) = watch.drained_all(received.drop_last());
        let waiting = watch.awaiting(before);
        let (pending, more) = waiting.drained(received.last());
        every_side_is_heard_once(watch, received.drop_last());
        lemma_sent_sides(actions, more);
        let (a, b, c) = (sent_sides(actions), sent_sides(more), pending_side(pending));
        let (r, p) = (watch.received_sides(received.drop_last()), pending_side(watch.pending));
        let m = pending_side(before);
        let s = match received.last() {
            ReceivedView::Event(kind, paths) => watch.reported_sides(kind, paths),
            _ => Multiset::empty(),
        };
        assert(b.add(c) =~= s.add(m)) by {
            match received.last() {
                ReceivedView::Event(kind, paths) => {
                    lemma_report_sides(waiting, kind, paths);
                    lemma_awaiting_reported(watch, before, kind, paths);
                },
                ReceivedView::Timeout => {
                    match before {
                        Some(half) => {
                            lemma_sent_one(half.path, orphan(half));
                        },
                        None => {},
                    }
                },
                _ => {},
            }
        }
        assert forall|x: Side| #[trigger] a.add(b).add(c).count(x) == r.add(s).add(p).count(x) by {
            assert(a.add(m).count(x) == r.add(p).count(x));
            assert(b.add(c).count(x) == s.add(m).count(x));
        }
        assert(a.add(b).add(c) =~= r.add(s).add(p));
        assert(watch.received_sides(received) =~= r.add(s));
    }
}

/// What a report tells of does not depend on what waits.
proof fn lemma_awaiting_reported(
    watch: WatchView,
    pending: Option<HalfView>,
    kind: EventKind,
    paths: Seq<SightingView>,
)
    ensures
        watch.awaiting(pending).reported_sides(kind, paths) == watch.reported_sides(kind, paths),
    decreases paths.len(),
{
    if paths.len() > 0 {
        lemma_awaiting_reported(watch, pending, kind, paths.drop_last());
    }
}

/// The two halves of a rename in the tree make the same rename in either order.
pub proof fn halves_pair_in_either_order(source: HalfView, target: HalfView)
    requires
        source.is_source,
        !target.is_source,
        source.in_tree,
        target.in_tree,
    ensures
        paired(source, Some(target)) == paired(target, Some(source)),
        paired(source, Some(target)) == (
            None::<HalfView>,
            Some(ChangeView::Renamed { from: source.path, to: target.path }),
        ),
{
}

/// A half whose counterpart does not come is never taken for a rename: a file
/// that left the tree was removed, and one that came into it was modified.
pub proof fn lone_halves_are_no_renames(watch: WatchView, half: HalfView)
    requires
        watch.pending == Some(half),
    ensures
        watch.drained(ReceivedView::Timeout) == (
            None::<HalfView>,
            seq![
                ActionView::Send(
                    if half.is_source {
                        ChangeView::Removed(half.path)
                    } else {
                        ChangeView::Modified(half.path)
                    },
                ),
            ],
        ),
{
}

/// Whether a half that lies in the watched tree is known by a path of the
/// editor's tree.
pub open spec fn half_is_placed(half: Option<HalfView>, helix_root: PathView) -> bool {
    half matches Some(half) ==> half.in_tree ==> half.path.starts_with(helix_root)
}

/// Whether all renames among the actions are within the tree at `helix_root`.
pub open spec fn renames_within(actions: Seq<ActionView>, helix_root: PathView) -> bool {
    forall|i: int|
        0 <= i < actions.len() ==> ((#[trigger] actions[i]) matches ActionView::Send(
            ChangeView::Renamed { from, to },
        ) ==> from.starts_with(helix_root) && to.starts_with(helix_root))
}

proof fn lemma_sighted_renames(watch: WatchView, kind: EventKind, seen: SightingView)
    requires
        !watch.fs_root.is_empty(),
        half_is_placed(watch.pending, watch.helix_root),
    ensures
        ({
            let (pending, actions) = watch.sighted(kind, seen);
            half_is_placed(pending, watch.helix_root) && renames_within(actions, watch.helix_root)
        }),
{
    remapped_paths_stay_in_the_tree(seen.path, watch.fs_root, watch.helix_root);
}

proof fn lemma_dispatched_renames(watch: WatchView, kind: EventKind, paths: Seq<SightingView>)
    requires
        !watch.fs_root.is_empty(),
        half_is_placed(watch.pending, watch.helix_root),
    ensures
        ({
            let (pending, actions) = watch.dispatched(kind, paths);
            half_is_placed(pending, watch.helix_root) && renames_within(actions, watch.helix_root)
        }),
    decreases paths.len(),
{
    if paths.len() > 0 {
        lemma_dispatched_renames(watch, kind, paths.drop_last());
        let (before, _) = watch.dispatched(kind, paths.drop_last());
        lemma_sighted_renames(watch.awaiting(before), kind, paths.last());
    }
}

/// However reports come in, only renames within the tree are followed as such,
/// never one into the tree or out of it: both paths of a rename are paths of the
/// editor's tree.
pub proof fn renames_stay_in_the_tree(watch: WatchView, received: Seq<ReceivedView>)
    requires
        !watch.fs_root.is_empty(),
        half_is_placed(watch.pending, watch.helix_root),
    ensures
        ({
            let (pending, actions) = watch.drained_all(received);
            half_is_placed(pending, watch.helix_root) && renames_within(actions, watch.helix_root)
        }),
    decreases received.len(),
{
    if received.len() > 0 {
        renames_stay_in_the_tree(watch, received.drop_last());
        let (before, _) = watch.drained_all(received.drop_last());
        match received.last() {
            ReceivedView::Event(kind, paths) => {
                lemma_dispatched_renames(watch.awaiting(before), kind, paths);
            },
            _ => {},
        }
    }
}

/// A half whose counterpart lies on the other side of the boundary of the tree
/// is a removal or a modification, and no rename.
pub proof fn boundary_crossings_are_no_renames(half: HalfView, counterpart: HalfView)
    requires
        half.in_tree != counterpart.in_tree,
    ensures
        paired(counterpart, Some(half)) == (Some(counterpart), Some(orphan(half))),
{
}

/// Reports of access alone, of paths that are left out, and of the removal of
/// what is there change nothing and are not passed on.
pub proof fn unforwarded_reports_change_nothing(
    watch: WatchView,
    kind: EventKind,
    paths: Seq<SightingView>,
)
    requires
        forall|i: int|
            0 <= i < paths.len() ==> kind == EventKind::Access || watch.ignore.ignored(
                (#[trigger] paths[i]).path,
                paths[i].is_dir,
            ) || (kind == EventKind::Remove && paths[i].exists),
    ensures
        watch.dispatched(kind, paths) == (watch.pending, Seq::<ActionView>::empty()),
    decreases paths.len(),
{
    if paths.len() > 0 {
        unforwarded_reports_change_nothing(watch, kind, paths.drop_last());
        assert(watch.awaiting(watch.pending) =~= watch);
        assert(!watch.forwards(kind, paths[paths.len() - 1]));
        assert(Seq::<ActionView>::empty() + Seq::empty() =~= Seq::<ActionView>::empty());
    }
}

/// Nothing from inside the git directory of the watched tree is ever passed on,
/// whatever its ignore files say.
pub proof fn git_directory_is_never_forwarded(
    watch: WatchView,
    files: Seq<IgnoreFileView>,
    kind: EventKind,
    seen: SightingView,
)
    requires
        ignore_rules::is_loaded(watch.ignore, watch.fs_root, files),
        seen.path.starts_with(watch.fs_root.child(".git"@)),
        seen.path != watch.fs_root.child(".git"@),
    ensures
        !watch.forwards(kind, seen),
        watch.sighted(kind, seen) == (watch.pending, Seq::<ActionView>::empty()),
{
    let git_dir = watch.fs_root.child(".git"@);
    if seen.path.names.len() == git_dir.names.len() {
        assert(git_dir.names =~= seen.path.names);
        assert(git_dir =~= seen.path);
    }
}

/// The editor does not hear of changes of metadata.
pub proof fn metadata_is_not_followed(watch: WatchView, paths: Seq<SightingView>)
    ensures
        ({
            let kind = EventKind::Modify(ModifyKind::Metadata);
            let (pending, actions) = watch.dispatched(kind, paths);
            &&& pending == watch.pending
            &&& forall|i: int|
                0 <= i < actions.len() ==> (#[trigger] actions[i]) is FileChanged
        }),
    decreases paths.len(),
{
    if paths.len() > 0 {
        metadata_is_not_followed(watch, paths.drop_last());
    }
}

/// A half waits no longer than its window, and no time at all once that is
/// over.
pub proof fn halves_wait_for_their_window(watch: WatchView, half: HalfView, now: u64)
    requires
        watch.pending == Some(half),
    ensures
        0 <= watch.patience(now)->0 <= RENAME_PAIRING_WINDOW,
        now >= half.received_at + RENAME_PAIRING_WINDOW ==> watch.patience(now) == Some(0int),
        half.received_at <= now < half.received_at + RENAME_PAIRING_WINDOW ==> now
            + watch.patience(now)->0 == half.received_at + RENAME_PAIRING_WINDOW,
{
}

/// A path of the watched tree is known by a path of the editor's tree, and one
/// outside of it by itself.
pub proof fn remapped_paths_stay_in_the_tree(
    path: PathView,
    fs_root: PathView,
    helix_root: PathView,
)
    requires
        !fs_root.is_empty(),
    ensures
        path.starts_with(fs_root) ==> remapped(path, fs_root, helix_root).starts_with(helix_root),
        !path.starts_with(fs_root) ==> remapped(path, fs_root, helix_root) == path,
{
    if path.starts_with(fs_root) {
        let there = remapped(path, fs_root, helix_root);
        if !helix_root.is_empty() {
            assert(helix_root.names =~= there.names.take(helix_root.names.len() as int));
        }
    }
}

/// Rewriting a path of the watched tree back gives the path.
pub proof fn remapping_can_be_undone(path: PathView, fs_root: PathView, helix_root: PathView)
    requires
        path.wf(),
        !fs_root.is_empty(),
        !helix_root.is_empty(),
        path.starts_with(fs_root),
    ensures
        remapped(remapped(path, fs_root, helix_root), helix_root, fs_root) == path,
{
    let rel = path.strip_prefix(fs_root)->0;
    if rel.names.len() > 0 {
        assert(rel.names[0] == path.names[fs_root.names.len() as int]);
    }
    let there = remapped(path, fs_root, helix_root);
    assert(helix_root.names =~= there.names.take(helix_root.names.len() as int));
    assert(there.names.skip(helix_root.names.len() as int) =~= rel.names);
    assert(fs_root.names + rel.names =~= path.names);
}

/// Where the root has no symbolic links to resolve, paths are known as they
/// are.
pub proof fn remapping_to_the_same_root_keeps_paths(path: PathView, root: PathView)
    requires
        path.wf(),
    ensures
        remapped(path, root, root) == path,
{
    if path.starts_with(root) {
        let rel = path.strip_prefix(root)->0;
        if root.is_empty() {
            assert(rel.names =~= path.names);
        } else {
            if rel.names.len() > 0 {
                assert(rel.names[0] == path.names[root.names.len() as int]);
            }
            assert(root.names + rel.names =~= path.names);
        }
    }
}

} // verus!
