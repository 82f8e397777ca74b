//! What a watcher passes on, told by what it is shown.
//!
//! A report is told sighting by sighting: each law says what one more sighting
//! adds to what the report came to before, whatever that was. Together with the
//! law on the empty report they leave nothing about a report open.

use vstd::prelude::*;

use crate::file_watcher::{
    action_views, change_of, half_of, orphan, paired, remapped, sightings, Action, ActionView,
    ChangeView, EventKind, FileWatcherEvent, FsEvent, HalfView, ModifyKind, PendingRename,
    Received, ReceivedView, SightingView, WatchView,
};
use crate::path::PathView;

verus! {

/// A path of the watched tree is known by the same names below the editor's
/// root.
pub proof fn names_below_the_root_are_kept(
    fs_root: PathView,
    helix_root: PathView,
    below: Seq<Seq<char>>,
)
    requires
        below.len() > 0 ==> below[0] != seq!['.'],
    ensures
        remapped(
            PathView { absolute: fs_root.absolute, names: fs_root.names + below },
            fs_root,
            helix_root,
        ) == (PathView { absolute: helix_root.absolute, names: helix_root.names + below }),
{
    let path = PathView { absolute: fs_root.absolute, names: fs_root.names + below };
    assert(path.names.take(fs_root.names.len() as int) =~= fs_root.names);
    assert(path.names.skip(fs_root.names.len() as int) =~= below);
    if below.len() > 0 && below[0].len() == 1 && below[0][0] == '.' {
        assert(below[0] =~= seq!['.']);
    }
    assert(Seq::<Seq<char>>::empty() + below =~= below);
    if helix_root.names.len() == 0 {
        assert(helix_root.names + below =~= below);
    }
}

/// A path that does not begin with the names of the watched root, or does not
/// start where it starts, is known as it is; so is every absolute path where the
/// root is the empty path.
pub proof fn paths_elsewhere_are_kept(path: PathView, fs_root: PathView, helix_root: PathView)
    requires
        ({
            ||| path.absolute != fs_root.absolute && (fs_root.absolute || fs_root.names.len() > 0
                || path.absolute)
            ||| path.names.len() < fs_root.names.len()
            ||| exists|i: int|
                0 <= i < fs_root.names.len() && i < path.names.len() && #[trigger] path.names[i]
                    != fs_root.names[i]
        }),
    ensures
        remapped(path, fs_root, helix_root) == path,
{
    if fs_root.names.is_prefix_of(path.names) {
        assert forall|i: int| 0 <= i < fs_root.names.len() implies #[trigger] path.names[i]
            == fs_root.names[i] by {
            assert(path.names.take(fs_root.names.len() as int)[i] == path.names[i]);
        }
    }
    if fs_root.names.len() == 0 {
        assert(path.names.skip(0) =~= path.names);
    }
}

/// The `.` that a relative path may begin with leads nowhere.
pub proof fn leading_dots_are_dropped(path: PathView, helix_root: PathView)
    requires
        !path.absolute,
        path.names.len() > 0,
        path.names[0] == seq!['.'],
        helix_root.absolute || helix_root.names.len() > 0,
    ensures
        remapped(path, PathView { absolute: false, names: Seq::empty() }, helix_root) == (
        PathView { absolute: helix_root.absolute, names: helix_root.names + path.names.skip(1) }),
{
    assert(path.names.skip(0) =~= path.names);
}

/// A report without paths leaves everything as it is.
pub proof fn empty_reports_change_nothing(watch: WatchView, kind: EventKind)
    ensures
        watch.dispatched(kind, Seq::empty()) == (watch.pending, Seq::<ActionView>::empty()),
{
}

/// A sighting adds nothing where the report is one of access, the path is left
/// out, or something is reported as removed that is there.
pub proof fn unwanted_sightings_add_nothing(
    watch: WatchView,
    kind: EventKind,
    before: Seq<SightingView>,
    seen: SightingView,
)
    requires
        kind == EventKind::Access || watch.ignore.ignored(seen.path, seen.is_dir) || (kind
            == EventKind::Remove && seen.exists),
    ensures
        watch.dispatched(kind, before.push(seen)) == watch.dispatched(kind, before),
{
    assert(before.push(seen).drop_last() =~= before);
    let (pending, actions) = watch.dispatched(kind, before);
    assert(actions + Seq::<ActionView>::empty() =~= actions);
}

/// Every other sighting is passed on: whatever its name, the language servers
/// are told of its path and, where the kind is one of contents or of presence,
/// the editor of its removal or modification. Nothing else is, and the half that
/// waits goes on waiting.
pub proof fn changes_are_passed_on(
    watch: WatchView,
    kind: EventKind,
    before: Seq<SightingView>,
    seen: SightingView,
)
    requires
        kind != EventKind::Access,
        kind != EventKind::Modify(ModifyKind::Name),
        !watch.ignore.ignored(seen.path, seen.is_dir),
        kind == EventKind::Remove ==> !seen.exists,
    ensures
        ({
            let path = remapped(seen.path, watch.fs_root, watch.helix_root);
            let (pending, actions) = watch.dispatched(kind, before);
            let told = actions.push(ActionView::FileChanged(path));
            watch.dispatched(kind, before.push(seen)) == (
                pending,
                if kind == EventKind::Modify(ModifyKind::Metadata) {
                    told
                } else if kind == EventKind::Remove {
                    told.push(ActionView::Send(ChangeView::Removed(path)))
                } else {
                    told.push(ActionView::Send(ChangeView::Modified(path)))
                },
            )
        }),
{
    assert(before.push(seen).drop_last() =~= before);
    let path = remapped(seen.path, watch.fs_root, watch.helix_root);
    let (pending, actions) = watch.dispatched(kind, before);
    let told = seq![ActionView::FileChanged(path)];
    let (removed, modified) = (
        ActionView::Send(ChangeView::Removed(path)),
        ActionView::Send(ChangeView::Modified(path)),
    );
    assert(actions + told =~= actions.push(ActionView::FileChanged(path)));
    assert(actions + told.push(removed) =~= actions.push(ActionView::FileChanged(path)).push(
        removed,
    ));
    assert(actions + told.push(modified) =~= actions.push(ActionView::FileChanged(path)).push(
        modified,
    ));
}

/// A change of name is passed on to the language servers and waits where no half
/// does.
pub proof fn first_halves_wait(
    watch: WatchView,
    before: Seq<SightingView>,
    seen: SightingView,
)
    requires
        !watch.ignore.ignored(seen.path, seen.is_dir),
        watch.dispatched(EventKind::Modify(ModifyKind::Name), before).0 is None,
    ensures
        ({
            let name = EventKind::Modify(ModifyKind::Name);
            let path = remapped(seen.path, watch.fs_root, watch.helix_root);
            watch.dispatched(name, before.push(seen)) == (
                Some(
                    HalfView {
                        path,
                        received_at: seen.at,
                        is_source: !seen.exists,
                        in_tree: seen.path.starts_with(watch.fs_root),
                    },
                ),
                watch.dispatched(name, before).1.push(ActionView::FileChanged(path)),
            )
        }),
{
    let name = EventKind::Modify(ModifyKind::Name);
    assert(before.push(seen).drop_last() =~= before);
    let path = remapped(seen.path, watch.fs_root, watch.helix_root);
    let actions = watch.dispatched(name, before).1;
    assert(actions + seq![ActionView::FileChanged(path)] =~= actions.push(
        ActionView::FileChanged(path),
    ));
}

/// A file that is moved within the watched tree is followed as one rename,
/// whatever directories it is moved between and whichever of the two paths is
/// reported first: where the half that waits and the one that arrives are of
/// opposite kinds and both in the tree, the rename leads from the path where the
/// file is gone to the one where it is, and nothing waits afterwards.
pub proof fn opposite_halves_make_a_rename(
    watch: WatchView,
    before: Seq<SightingView>,
    seen: SightingView,
    waiting: HalfView,
)
    requires
        !watch.ignore.ignored(seen.path, seen.is_dir),
        watch.dispatched(EventKind::Modify(ModifyKind::Name), before).0 == Some(waiting),
        waiting.in_tree,
        seen.path.starts_with(watch.fs_root),
        waiting.is_source == seen.exists,
    ensures
        ({
            let name = EventKind::Modify(ModifyKind::Name);
            let path = remapped(seen.path, watch.fs_root, watch.helix_root);
            let rename = if seen.exists {
                ChangeView::Renamed { from: waiting.path, to: path }
            } else {
                ChangeView::Renamed { from: path, to: waiting.path }
            };
            watch.dispatched(name, before.push(seen)) == (
                None::<HalfView>,
                watch.dispatched(name, before).1.push(ActionView::FileChanged(path)).push(
                    ActionView::Send(rename),
                ),
            )
        }),
{
    let name = EventKind::Modify(ModifyKind::Name);
    assert(before.push(seen).drop_last() =~= before);
    let path = remapped(seen.path, watch.fs_root, watch.helix_root);
    let actions = watch.dispatched(name, before).1;
    let rename = if seen.exists {
        ChangeView::Renamed { from: waiting.path, to: path }
    } else {
        ChangeView::Renamed { from: path, to: waiting.path }
    };
    let more = seq![ActionView::FileChanged(path)].push(ActionView::Send(rename));
    assert(actions + more =~= actions.push(ActionView::FileChanged(path)).push(
        ActionView::Send(rename),
    ));
}

/// A half that cannot be the counterpart of the one that waits, being of the same
/// kind or across the boundary of the tree, takes its place; the editor then
/// hears of the earlier one as a removal where the file was gone, and as a
/// modification where it was there.
pub proof fn other_halves_take_the_place(
    watch: WatchView,
    before: Seq<SightingView>,
    seen: SightingView,
    waiting: HalfView,
)
    requires
        !watch.ignore.ignored(seen.path, seen.is_dir),
        watch.dispatched(EventKind::Modify(ModifyKind::Name), before).0 == Some(waiting),
        !waiting.in_tree || !seen.path.starts_with(watch.fs_root) || waiting.is_source
            != seen.exists,
    ensures
        ({
            let name = EventKind::Modify(ModifyKind::Name);
            let path = remapped(seen.path, watch.fs_root, watch.helix_root);
            let earlier = if waiting.is_source {
                ChangeView::Removed(waiting.path)
            } else {
                ChangeView::Modified(waiting.path)
            };
            watch.dispatched(name, before.push(seen)) == (
                Some(
                    HalfView {
                        path,
                        received_at: seen.at,
                        is_source: !seen.exists,
                        in_tree: seen.path.starts_with(watch.fs_root),
                    },
                ),
                watch.dispatched(name, before).1.push(ActionView::FileChanged(path)).push(
                    ActionView::Send(earlier),
                ),
            )
        }),
{
    let name = EventKind::Modify(ModifyKind::Name);
    assert(before.push(seen).drop_last() =~= before);
    let path = remapped(seen.path, watch.fs_root, watch.helix_root);
    let actions = watch.dispatched(name, before).1;
    let earlier = if waiting.is_source {
        ChangeView::Removed(waiting.path)
    } else {
        ChangeView::Modified(waiting.path)
    };
    let more = seq![ActionView::FileChanged(path)].push(ActionView::Send(earlier));
    assert(actions + more =~= actions.push(ActionView::FileChanged(path)).push(
        ActionView::Send(earlier),
    ));
}

/// Wherever it stands in a report, a path that is reported with anything but
/// access, that the ignore rules do not leave out, and that is not there where it
/// is said to be removed, is told to the language servers; and so is its removal
/// or modification to the editor, unless the report is one of names or metadata.
pub proof fn every_change_of_a_report_is_passed_on(
    watch: WatchView,
    kind: EventKind,
    paths: Seq<SightingView>,
    i: int,
)
    requires
        0 <= i < paths.len(),
        kind != EventKind::Access,
        !watch.ignore.ignored(paths[i].path, paths[i].is_dir),
        kind == EventKind::Remove ==> !paths[i].exists,
    ensures
        ({
            let path = remapped(paths[i].path, watch.fs_root, watch.helix_root);
            let actions = watch.dispatched(kind, paths).1;
            &&& actions.contains(ActionView::FileChanged(path))
            &&& kind == EventKind::Remove ==> actions.contains(
                ActionView::Send(ChangeView::Removed(path)),
            )
            &&& kind != EventKind::Remove && kind != EventKind::Modify(ModifyKind::Name) && kind
                != EventKind::Modify(ModifyKind::Metadata) ==> actions.contains(
                ActionView::Send(ChangeView::Modified(path)),
            )
        }),
    decreases paths.len(),
{
    let path = remapped(paths[i].path, watch.fs_root, watch.helix_root);
    let (before, actions) = watch.dispatched(kind, paths.drop_last());
    let more = watch.awaiting(before).sighted(kind, paths.last()).1;
    let all = watch.dispatched(kind, paths).1;
    assert(all =~= actions + more);
    assert forall|a: ActionView| actions.contains(a) implies all.contains(a) by {
        let j = choose|j: int| 0 <= j < actions.len() && actions[j] == a;
        assert(all[j] == a);
    }
    if i < paths.len() - 1 {
        every_change_of_a_report_is_passed_on(watch, kind, paths.drop_last(), i);
    } else {
        assert(more[0] == ActionView::FileChanged(path));
        assert(all[actions.len() as int] == more[0]);
        if more.len() > 1 {
            assert(all[actions.len() as int + 1] == more[1]);
        }
    }
}

/// Whether what came is a report of anything but names.
pub open spec fn is_no_name(received: ReceivedView) -> bool {
    match received {
        ReceivedView::Event(kind, _) => kind != EventKind::Modify(ModifyKind::Name),
        ReceivedView::Error => true,
        ReceivedView::Timeout => false,
        ReceivedView::Disconnected => true,
    }
}

proof fn lemma_no_name_keeps_waiting(
    watch: WatchView,
    kind: EventKind,
    paths: Seq<SightingView>,
)
    requires
        kind != EventKind::Modify(ModifyKind::Name),
    ensures
        watch.dispatched(kind, paths).0 == watch.pending,
    decreases paths.len(),
{
    if paths.len() > 0 {
        lemma_no_name_keeps_waiting(watch, kind, paths.drop_last());
    }
}

proof fn lemma_no_names_keep_waiting(watch: WatchView, received: Seq<ReceivedView>)
    requires
        forall|i: int| 0 <= i < received.len() ==> is_no_name(#[trigger] received[i]),
    ensures
        watch.drained_all(received).0 == watch.pending,
    decreases received.len(),
{
    if received.len() > 0 {
        let front = received.drop_last();
        assert forall|i: int| 0 <= i < front.len() implies is_no_name(#[trigger] front[i]) by {
            assert(front[i] == received[i]);
        }
        lemma_no_names_keep_waiting(watch, front);
        assert(is_no_name(received[received.len() - 1]));
        match received.last() {
            ReceivedView::Event(kind, paths) => {
                lemma_no_name_keeps_waiting(
                    watch.awaiting(watch.drained_all(front).0),
                    kind,
                    paths,
                );
            },
            _ => {},
        }
    }
}

/// A file that leaves one path of the watched tree and arrives at another, with
/// anything but names reported in between, is followed as a rename from the one
/// to the other, and not as a removal.
pub proof fn moved_files_are_followed(
    watch: WatchView,
    source: SightingView,
    between: Seq<ReceivedView>,
    target: SightingView,
)
    requires
        watch.pending is None,
        !source.exists,
        target.exists,
        source.path.starts_with(watch.fs_root),
        target.path.starts_with(watch.fs_root),
        !watch.ignore.ignored(source.path, source.is_dir),
        !watch.ignore.ignored(target.path, target.is_dir),
        forall|i: int| 0 <= i < between.len() ==> is_no_name(#[trigger] between[i]),
    ensures
        ({
            let name = EventKind::Modify(ModifyKind::Name);
            let from = remapped(source.path, watch.fs_root, watch.helix_root);
            let to = remapped(target.path, watch.fs_root, watch.helix_root);
            let left = watch.dispatched(name, seq![source]);
            let kept = watch.awaiting(left.0).drained_all(between);
            let arrived = watch.awaiting(kept.0).dispatched(name, seq![target]);
            &&& left.1 == seq![ActionView::FileChanged(from)]
            &&& arrived.0 is None
            &&& arrived.1 == seq![
                ActionView::FileChanged(to),
                ActionView::Send(ChangeView::Renamed { from, to }),
            ]
        }),
{
    let name = EventKind::Modify(ModifyKind::Name);
    let none = Seq::<SightingView>::empty();
    assert(none.push(source) =~= seq![source]);
    assert(none.push(target) =~= seq![target]);
    first_halves_wait(watch, none, source);
    let left = watch.dispatched(name, seq![source]);
    let waiting = watch.awaiting(left.0);
    lemma_no_names_keep_waiting(waiting, between);
    let kept = waiting.drained_all(between);
    let after = watch.awaiting(kept.0);
    empty_reports_change_nothing(after, name);
    opposite_halves_make_a_rename(after, none, target, left.0->0);
    let (from, to) = (
        remapped(source.path, watch.fs_root, watch.helix_root),
        remapped(target.path, watch.fs_root, watch.helix_root),
    );
    assert(left.1 =~= seq![ActionView::FileChanged(from)]);
    assert(after.dispatched(name, seq![target]).1 =~= seq![
        ActionView::FileChanged(to),
        ActionView::Send(ChangeView::Renamed { from, to }),
    ]);
}

/// A report that comes is told sighting by sighting. When nothing comes in time,
/// a half that waits is heard of as a removal where the file was gone and as a
/// modification where it was there, and waits no longer. Failures and the end
/// change nothing.
pub proof fn what_comes_is_told(
    watch: WatchView,
    kind: EventKind,
    paths: Seq<SightingView>,
    path: PathView,
    at: u64,
    in_tree: bool,
)
    ensures
        watch.drained(ReceivedView::Event(kind, paths)) == watch.dispatched(kind, paths),
        watch.drained(ReceivedView::Error) == (watch.pending, Seq::<ActionView>::empty()),
        watch.drained(ReceivedView::Disconnected) == (watch.pending, Seq::<ActionView>::empty()),
        watch.pending is None ==> watch.drained(ReceivedView::Timeout) == (
            None::<HalfView>,
            Seq::<ActionView>::empty(),
        ),
        watch.pending == Some(
            HalfView { path, received_at: at, is_source: true, in_tree },
        ) ==> watch.drained(ReceivedView::Timeout) == (
            None::<HalfView>,
            seq![ActionView::Send(ChangeView::Removed(path))],
        ),
        watch.pending == Some(
            HalfView { path, received_at: at, is_source: false, in_tree },
        ) ==> watch.drained(ReceivedView::Timeout) == (
            None::<HalfView>,
            seq![ActionView::Send(ChangeView::Modified(path))],
        ),
{
}

/// Awaiting another half changes nothing else.
pub proof fn awaiting_changes_the_half_alone(watch: WatchView, pending: Option<HalfView>)
    ensures
        watch.awaiting(pending).pending == pending,
        watch.awaiting(pending).fs_root == watch.fs_root,
        watch.awaiting(pending).helix_root == watch.helix_root,
        watch.awaiting(pending).ignore == watch.ignore,
{
}

/// While a half waits, the next report is waited for until a tenth of a second
/// after it came: all of that before it came, and no time once it is over.
/// Without one there is no limit.
pub proof fn patience_ends_with_the_window(watch: WatchView, now: u64)
    ensures
        watch.pending is None <==> watch.patience(now) is None,
        watch.pending matches Some(half) ==> {
            &&& now <= half.received_at ==> watch.patience(now) == Some(100_000_000int)
            &&& half.received_at <= now && now - half.received_at <= 100_000_000 ==> now
                + watch.patience(now)->0 == half.received_at + 100_000_000
            &&& now - half.received_at >= 100_000_000 ==> watch.patience(now) == Some(0int)
        },
{
}

/// Two halves make a rename just where they are opposite and both in the tree.
/// Otherwise the one that arrived waits, and the other is heard of by what was
/// found at its path.
pub proof fn halves_are_paired(arrived: HalfView, waiting: HalfView)
    ensures
        paired(arrived, None) == (Some(arrived), None::<ChangeView>),
        ({
            let (kept, change) = paired(arrived, Some(waiting));
            if arrived.in_tree && waiting.in_tree && arrived.is_source && !waiting.is_source {
                kept is None && change == Some(
                    ChangeView::Renamed { from: arrived.path, to: waiting.path },
                )
            } else if arrived.in_tree && waiting.in_tree && !arrived.is_source
                && waiting.is_source {
                kept is None && change == Some(
                    ChangeView::Renamed { from: waiting.path, to: arrived.path },
                )
            } else if waiting.is_source {
                kept == Some(arrived) && change == Some(ChangeView::Removed(waiting.path))
            } else {
                kept == Some(arrived) && change == Some(ChangeView::Modified(waiting.path))
            }
        }),
        waiting.is_source ==> orphan(waiting) == ChangeView::Removed(waiting.path),
        !waiting.is_source ==> orphan(waiting) == ChangeView::Modified(waiting.path),
{
}

/// What is told of events, halves and sightings is what they hold, each in its
/// place.
pub proof fn models_hold_what_is_there(
    half: PendingRename,
    event: FsEvent,
    actions: Seq<Action>,
    change: FileWatcherEvent,
    received: Received,
    i: int,
)
    ensures
        half@.path == half.helix_path@,
        half@.received_at == half.received_at,
        half@.is_source == half.is_source,
        half@.in_tree == half.in_tree,
        half_of(Some(half)) == Some(half@),
        half_of(None) is None,
        change_of(Some(change)) == Some(change@),
        change_of(None) is None,
        change matches FileWatcherEvent::Modified(p) ==> change@ == ChangeView::Modified(p@),
        change matches FileWatcherEvent::Removed(p) ==> change@ == ChangeView::Removed(p@),
        change matches FileWatcherEvent::Renamed { from, to } ==> change@ == (
        ChangeView::Renamed { from: from@, to: to@ }),
        sightings(event.paths@).len() == event.paths@.len(),
        0 <= i < event.paths@.len() ==> {
            let (seen, told) = (event.paths@[i], sightings(event.paths@)[i]);
            &&& told.path == seen.path@
            &&& told.is_dir == seen.is_dir
            &&& told.exists == seen.exists
            &&& told.at == seen.at
        },
        action_views(actions).len() == actions.len(),
        0 <= i < actions.len() ==> match actions[i] {
            Action::FileChanged(p) => action_views(actions)[i] == ActionView::FileChanged(p@),
            Action::Send(e) => action_views(actions)[i] == ActionView::Send(e@),
        },
        received == Received::Event(event) ==> received@ == ReceivedView::Event(
            event.kind,
            sightings(event.paths@),
        ),
        received is Error ==> received@ is Error,
        received is Timeout ==> received@ is Timeout,
        received is Disconnected ==> received@ is Disconnected,
{
}

} // verus!
