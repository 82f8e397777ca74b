//! Which language servers hear of a change, told by what they asked for.

use vstd::prelude::*;

use crate::file_event::{
    after_event, after_events, after_file_changed, after_register, after_unregister,
    all_registered, covers, file_uri_path, glob_below, hears, is_skipped, places,
    registrations, resolved_glob, skipped_watchers, tells, wants, watched_globs,
    EventView, FileChangeType, FileSystemWatcher, GlobPattern, LanguageServerId,
    Notification, OneOf, Registry, RelativePattern, WorkspaceFolder,
};
use crate::globs;
use crate::text;
use crate::uri;

verus! {

/// Every glob below a base is the base, its backslashes turned into slashes and
/// without those at its end, one slash, and the pattern.
pub proof fn globs_below_a_base(base: Seq<char>, pattern: Seq<char>) -> (n: int)
    ensures
        0 <= n <= base.len(),
        n > 0 ==> base[n - 1] != '/' && base[n - 1] != '\\',
        forall|i: int| n <= i < base.len() ==> #[trigger] base[i] == '/' || base[i] == '\\',
        ({
            let glob = glob_below(base, pattern);
            &&& glob.len() == n + 1 + pattern.len()
            &&& forall|i: int|
                0 <= i < n ==> #[trigger] glob[i] == if base[i] == '\\' {
                    '/'
                } else {
                    base[i]
                }
            &&& glob[n] == '/'
            &&& forall|i: int| 0 <= i < pattern.len() ==> glob[n + 1 + i] == #[trigger] pattern[i]
        }),
{
    let slashed = text::replaced(base, '\\', '/');
    lemma_trailing(slashed, '/');
    let front = text::without_trailing(slashed, '/');
    let n = front.len() as int;
    assert forall|i: int| n <= i < base.len() implies #[trigger] base[i] == '/' || base[i]
        == '\\' by {
        assert(slashed[i] == '/');
    }
    if n > 0 {
        assert(front[n - 1] == slashed[n - 1]);
    }
    n
}

/// What is left of a text without the run of a character at its end.
pub proof fn lemma_trailing(text: Seq<char>, c: char)
    ensures
        ({
            let left = text::without_trailing(text, c);
            &&& left.len() <= text.len()
            &&& forall|i: int| 0 <= i < left.len() ==> #[trigger] left[i] == text[i]
            &&& forall|i: int| left.len() <= i < text.len() ==> #[trigger] text[i] == c
            &&& left.len() > 0 ==> left[left.len() - 1] != c
        }),
    decreases text.len(),
{
    if text.len() > 0 && text.last() == c {
        lemma_trailing(text.drop_last(), c);
        let left = text::without_trailing(text, c);
        assert forall|i: int| left.len() <= i < text.len() implies #[trigger] text[i] == c by {
            if i < text.len() - 1 {
                assert(text.drop_last()[i] == text[i]);
            }
        }
    }
}

/// What is left of a text without the run of a character at its front.
pub proof fn lemma_leading(text: Seq<char>, c: char) -> (n: int)
    ensures
        0 <= n <= text.len(),
        forall|i: int| 0 <= i < n ==> #[trigger] text[i] == c,
        n < text.len() ==> text[n] != c,
        text::without_leading(text, c) == text.skip(n),
    decreases text.len(),
{
    if text.len() > 0 && text[0] == c {
        let m = lemma_leading(text.skip(1), c);
        assert forall|i: int| 0 <= i < m + 1 implies #[trigger] text[i] == c by {
            if i > 0 {
                assert(text.skip(1)[i - 1] == text[i]);
            }
        }
        assert(text.skip(1).skip(m) =~= text.skip(m + 1));
        m + 1
    } else {
        assert(text.skip(0) =~= text);
        0
    }
}

/// A character of a text is replaced just where it is the one to replace.
pub proof fn characters_are_replaced(text: Seq<char>, from: char, to: char, i: int)
    ensures
        text::replaced(text, from, to).len() == text.len(),
        0 <= i < text.len() ==> {
            let c = text::replaced(text, from, to)[i];
            (text[i] == from ==> c == to) && (text[i] != from ==> c == text[i])
        },
{
}

/// A plain pattern is a glob as it is. A relative one, whether its folder is given
/// as such or by its URI, comes down to the glob below the path that the URI
/// leads to, just where the scheme of the URI is `file` and it leads to one.
pub proof fn patterns_come_down_to_globs(
    text: String,
    pattern: String,
    folder: WorkspaceFolder,
    uri: String,
)
    ensures
        resolved_glob(GlobPattern::String(text)) == Some(text@),
        ({
            let relative = RelativePattern { base_uri: OneOf::Left(folder), pattern };
            &&& uri::uri_scheme(folder.uri@) == Some("file"@) ==> match uri::uri_path(folder.uri@) {
                Some(base) => resolved_glob(GlobPattern::Relative(relative)) == Some(
                    glob_below(base, pattern@),
                ),
                None => resolved_glob(GlobPattern::Relative(relative)) is None,
            }
            &&& uri::uri_scheme(folder.uri@) != Some("file"@) ==> resolved_glob(
                GlobPattern::Relative(relative),
            ) is None
        }),
        ({
            let relative = RelativePattern { base_uri: OneOf::Right(uri), pattern };
            &&& uri::uri_scheme(uri@) == Some("file"@) ==> match uri::uri_path(uri@) {
                Some(base) => resolved_glob(GlobPattern::Relative(relative)) == Some(
                    glob_below(base, pattern@),
                ),
                None => resolved_glob(GlobPattern::Relative(relative)) is None,
            }
            &&& uri::uri_scheme(uri@) != Some("file"@) ==> resolved_glob(
                GlobPattern::Relative(relative),
            ) is None
        }),
{
}

/// A URI leads to a path of files only where its scheme is `file`.
pub proof fn file_uris_lead_to_paths(scheme: Option<Seq<char>>, path: Option<Seq<char>>)
    ensures
        scheme == Some("file"@) ==> file_uri_path(scheme, path) == path,
        scheme != Some("file"@) ==> file_uri_path(scheme, path) is None,
{
}

/// The globs of watchers are those of the first and of the rest, in order,
/// however many there are and whatever their kinds.
pub proof fn globs_of_watchers_add_up(a: Seq<FileSystemWatcher>, b: Seq<FileSystemWatcher>)
    ensures
        watched_globs(a + b) == watched_globs(a) + watched_globs(b),
    decreases b.len(),
{
    if b.len() == 0 {
        assert(a + b =~= a);
        assert(watched_globs(a) + watched_globs(b) =~= watched_globs(a));
    } else {
        assert((a + b).drop_last() =~= a + b.drop_last());
        globs_of_watchers_add_up(a, b.drop_last());
        assert(watched_globs(a + b) =~= watched_globs(a) + watched_globs(b));
    }
}

/// A watcher by itself gives the glob that its pattern comes down to, where that
/// counts as one, and otherwise none.
pub proof fn one_watcher_gives_its_glob(watcher: FileSystemWatcher)
    ensures
        match resolved_glob(watcher.glob_pattern) {
            Some(glob) => if globs::is_simple(glob) || globs::is_glob(glob) {
                watched_globs(seq![watcher]) == seq![glob]
            } else {
                watched_globs(seq![watcher]) == Seq::<Seq<char>>::empty()
            },
            None => watched_globs(seq![watcher]) == Seq::<Seq<char>>::empty(),
        },
{
    let one = seq![watcher];
    assert(one.drop_last() =~= Seq::empty());
    assert(watched_globs(one.drop_last()) =~= Seq::empty());
    match resolved_glob(watcher.glob_pattern) {
        Some(glob) => {
            assert(Seq::<Seq<char>>::empty().push(glob) =~= seq![glob]);
        },
        None => {},
    }
}

/// Wherever it stands and whatever its kind, a watcher whose pattern comes down to
/// a text that counts as a glob has it among the globs; and every one of these
/// comes from a watcher.
pub proof fn every_watcher_counts(watchers: Seq<FileSystemWatcher>)
    ensures
        forall|i: int|
            0 <= i < watchers.len() ==> (resolved_glob((#[trigger] watchers[i]).glob_pattern)
                matches Some(glob) ==> globs::is_simple(glob) || globs::is_glob(glob)
                ==> watched_globs(watchers).contains(glob)),
        forall|glob: Seq<char>| #[trigger]
            watched_globs(watchers).contains(glob) ==> exists|i: int|
                0 <= i < watchers.len() && resolved_glob((#[trigger] watchers[i]).glob_pattern)
                    == Some(glob),
    decreases watchers.len(),
{
    if watchers.len() > 0 {
        let front = watchers.drop_last();
        let last = watchers[watchers.len() - 1];
        every_watcher_counts(front);
        let (before, all) = (watched_globs(front), watched_globs(watchers));
        assert forall|glob: Seq<char>| before.contains(glob) implies all.contains(glob) by {
            let k = choose|k: int| 0 <= k < before.len() && before[k] == glob;
            assert(all[k] == glob);
        }
        assert forall|i: int| 0 <= i < watchers.len() implies (resolved_glob(
            (#[trigger] watchers[i]).glob_pattern,
        ) matches Some(glob) ==> globs::is_simple(glob) || globs::is_glob(glob) ==> all.contains(
            glob,
        )) by {
            if i < front.len() {
                assert(front[i] == watchers[i]);
            } else {
                match resolved_glob(last.glob_pattern) {
                    Some(glob) => {
                        if globs::is_simple(glob) || globs::is_glob(glob) {
                            assert(all[before.len() as int] == glob);
                        }
                    },
                    None => {},
                }
            }
        }
        assert forall|glob: Seq<char>| #[trigger] all.contains(glob) implies exists|i: int|
            0 <= i < watchers.len() && resolved_glob((#[trigger] watchers[i]).glob_pattern) == Some(
                glob,
            ) by {
            let k = choose|k: int| 0 <= k < all.len() && all[k] == glob;
            if k < before.len() {
                assert(before[k] == glob);
                assert(watched_globs(front).contains(glob));
                let i = choose|i: int|
                    0 <= i < front.len() && resolved_glob((#[trigger] front[i]).glob_pattern)
                        == Some(glob);
                assert(watchers[i] == front[i]);
            } else {
                assert(resolved_glob(watchers[watchers.len() - 1].glob_pattern) == Some(glob));
            }
        }
    }
}

/// A watcher is skipped just where its pattern comes down to nothing that counts
/// as a glob; the skipped are listed by their places, each once and in order.
pub proof fn watchers_without_globs_are_skipped(watchers: Seq<FileSystemWatcher>, i: int)
    ensures
        skipped_watchers(watchers).contains(i) <==> 0 <= i < watchers.len() && match resolved_glob(
            watchers[i].glob_pattern,
        ) {
            Some(glob) => !globs::is_simple(glob) && !globs::is_glob(glob),
            None => true,
        },
        forall|a: int, b: int|
            0 <= a < b < skipped_watchers(watchers).len() ==> #[trigger] skipped_watchers(
                watchers,
            )[a] < #[trigger] skipped_watchers(watchers)[b],
        forall|a: int|
            0 <= a < skipped_watchers(watchers).len() ==> 0 <= #[trigger] skipped_watchers(
                watchers,
            )[a] < watchers.len(),
    decreases watchers.len(),
{
    if watchers.len() > 0 {
        let front = watchers.drop_last();
        watchers_without_globs_are_skipped(front, i);
        let (before, all) = (skipped_watchers(front), skipped_watchers(watchers));
        if is_skipped(watchers.last()) {
            assert(all =~= before.push(watchers.len() - 1));
            if before.contains(i) {
                let k = choose|k: int| 0 <= k < before.len() && before[k] == i;
                assert(all[k] == i);
            }
            if i == watchers.len() - 1 {
                assert(all[before.len() as int] == i);
            }
            if all.contains(i) && i != watchers.len() - 1 {
                let k = choose|k: int| 0 <= k < all.len() && all[k] == i;
                assert(before[k] == i);
            }
            assert forall|a: int, b: int| 0 <= a < b < all.len() implies #[trigger] all[a]
                < #[trigger] all[b] by {
                assert(before[a] == all[a]);
                if b < before.len() {
                    assert(before[b] == all[b]);
                }
            }
        }
    }
}

/// No watcher is passed over: each is among the skipped, or its glob is in the
/// registration.
pub proof fn watchers_are_skipped_or_registered(watchers: Seq<FileSystemWatcher>, i: int)
    requires
        0 <= i < watchers.len(),
    ensures
        skipped_watchers(watchers).contains(i) || (resolved_glob(watchers[i].glob_pattern) is Some
            && watched_globs(watchers).contains(resolved_glob(watchers[i].glob_pattern)->0)),
{
    every_watcher_counts(watchers);
    watchers_without_globs_are_skipped(watchers, i);
}

/// A language server wants to hear of a file just where a glob of one of its
/// registrations matches it.
pub proof fn clients_want_what_their_globs_match<C>(
    registry: Registry<C>,
    id: LanguageServerId,
    path: Seq<char>,
)
    ensures
        wants(registry, id, path) <==> registry.contains_key(id) && exists|
            registration_id: Seq<char>,
            i: int,
        |
            registry[id].registered.contains_key(registration_id) && 0 <= i
                < registry[id].registered[registration_id].len() && globs::glob_matches(
                #[trigger] registry[id].registered[registration_id][i],
                path,
            ),
{
    if registry.contains_key(id) {
        let registered = registry[id].registered;
        if covers(registered, path) {
            let r = choose|r: Seq<char>|
                registered.contains_key(r) && globs::any_matches(#[trigger] registered[r], path);
            let i = choose|i: int|
                0 <= i < registered[r].len() && globs::glob_matches(
                    #[trigger] registered[r][i],
                    path,
                );
            assert(globs::glob_matches(registered[r][i], path));
        }
        if exists|r: Seq<char>, i: int|
            registered.contains_key(r) && 0 <= i < registered[r].len() && globs::glob_matches(
                #[trigger] registered[r][i],
                path,
            ) {
            let (r, i) = choose|r: Seq<char>, i: int|
                registered.contains_key(r) && 0 <= i < registered[r].len() && globs::glob_matches(
                    #[trigger] registered[r][i],
                    path,
                );
            assert(globs::any_matches(registered[r], path));
        }
    }
}

/// A language server that registers wants every file that the glob of one of its
/// watchers matches, in whatever place the watcher stands.
pub proof fn registered_watchers_are_wanted<C>(
    registry: Registry<C>,
    id: LanguageServerId,
    client: C,
    registration_id: Seq<char>,
    watchers: Seq<FileSystemWatcher>,
    i: int,
    path: Seq<char>,
)
    requires
        0 <= i < watchers.len(),
        resolved_glob(watchers[i].glob_pattern) matches Some(glob) && (globs::is_simple(glob)
            || globs::is_glob(glob)) && globs::glob_matches(glob, path),
    ensures
        wants(
            after_register(registry, id, client, registration_id, Some(watched_globs(watchers))),
            id,
            path,
        ),
{
    every_watcher_counts(watchers);
    let globs = watched_globs(watchers);
    let glob = resolved_glob(watchers[i].glob_pattern)->0;
    let k = choose|k: int| 0 <= k < globs.len() && globs[k] == glob;
    assert(globs::glob_matches(globs[k], path));
    let after = after_register(registry, id, client, registration_id, Some(globs));
    registering_changes_one_registration(registry, id, client, registration_id, globs);
    assert(after[id].registered[registration_id] == globs);
    assert(globs::any_matches(after[id].registered[registration_id], path));
}

/// Whether two registries have the same of every language server but one.
pub open spec fn same_but_for<C>(a: Registry<C>, b: Registry<C>, id: LanguageServerId) -> bool {
    forall|other: LanguageServerId| #![auto]
        other != id ==> a.contains_key(other) == b.contains_key(other) && (a.contains_key(other)
            ==> a[other] == b[other])
}

/// Registering gives a language server the globs under the id of the
/// registration, reaches it as asked, and leaves its other registrations and the
/// other language servers as they are.
pub proof fn registering_changes_one_registration<C>(
    registry: Registry<C>,
    id: LanguageServerId,
    client: C,
    registration_id: Seq<char>,
    globs: Seq<Seq<char>>,
)
    ensures
        ({
            let after = after_register(registry, id, client, registration_id, Some(globs));
            &&& same_but_for(after, registry, id)
            &&& after.contains_key(id)
            &&& after[id].client == client
            &&& after[id].registered.contains_key(registration_id)
            &&& after[id].registered[registration_id] == globs
            &&& forall|r: Seq<char>|
                r != registration_id ==> (#[trigger] after[id].registered.contains_key(r) <==> (
                registry.contains_key(id) && registry[id].registered.contains_key(r)))
            &&& forall|r: Seq<char>|
                r != registration_id && after[id].registered.contains_key(r)
                    ==> #[trigger] after[id].registered[r] == registry[id].registered[r]
        }),
{
    let more = registrations(registry, id).insert(registration_id, globs);
    assert(more.contains_key(registration_id));
}

/// A registration whose globs make no set is dropped. The other registrations of
/// the language server stay, and it is reached as asked; without any, it is not
/// known. Other language servers stay as they are.
pub proof fn refusing_drops_one_registration<C>(
    registry: Registry<C>,
    id: LanguageServerId,
    client: C,
    registration_id: Seq<char>,
)
    ensures
        ({
            let after = after_register(registry, id, client, registration_id, None);
            &&& same_but_for(after, registry, id)
            &&& after.contains_key(id) <==> registry.contains_key(id) && exists|r: Seq<char>|
                r != registration_id && #[trigger] registry[id].registered.contains_key(r)
            &&& after.contains_key(id) ==> after[id].client == client
            &&& after.contains_key(id) ==> drops(
                after[id].registered,
                registry[id].registered,
                registration_id,
            )
        }),
{
    let none = Map::<Seq<char>, Seq<Seq<char>>>::empty();
    let left = registrations(registry, id).remove(registration_id);
    lemma_left(registrations(registry, id), registration_id);
    if !registry.contains_key(id) {
        assert(left =~= none);
    }
}

/// Whether just one registration has been dropped.
pub open spec fn drops(
    after: Map<Seq<char>, Seq<Seq<char>>>,
    before: Map<Seq<char>, Seq<Seq<char>>>,
    registration_id: Seq<char>,
) -> bool {
    &&& !after.contains_key(registration_id)
    &&& forall|r: Seq<char>|
        r != registration_id ==> #[trigger] after.contains_key(r) == before.contains_key(r)
    &&& forall|r: Seq<char>| #[trigger]
        after.contains_key(r) ==> after[r] == before[r]
}

/// Something is left of registrations without one just where there is another.
proof fn lemma_left(registered: Map<Seq<char>, Seq<Seq<char>>>, registration_id: Seq<char>)
    ensures
        registered.remove(registration_id) == Map::<Seq<char>, Seq<Seq<char>>>::empty() <==> !(
        exists|r: Seq<char>| r != registration_id && #[trigger] registered.contains_key(r)),
{
    let none = Map::<Seq<char>, Seq<Seq<char>>>::empty();
    let left = registered.remove(registration_id);
    if exists|r: Seq<char>| r != registration_id && #[trigger] registered.contains_key(r) {
        let r = choose|r: Seq<char>|
            r != registration_id && #[trigger] registered.contains_key(r);
        assert(left.contains_key(r));
    } else {
        assert(left =~= none) by {
            assert forall|r: Seq<char>| !left.contains_key(r) by {
                if left.contains_key(r) {
                    assert(registered.contains_key(r));
                }
            }
        }
    }
}

/// Withdrawing a registration drops it. The other registrations of the language
/// server stay, and it is reached as before; without any, it is not known. Other
/// language servers stay as they are.
pub proof fn unregistering_drops_one_registration<C>(
    registry: Registry<C>,
    id: LanguageServerId,
    registration_id: Seq<char>,
)
    ensures
        ({
            let after = after_unregister(registry, id, registration_id);
            &&& same_but_for(after, registry, id)
            &&& after.contains_key(id) <==> registry.contains_key(id) && exists|r: Seq<char>|
                r != registration_id && #[trigger] registry[id].registered.contains_key(r)
            &&& after.contains_key(id) ==> after[id].client == registry[id].client
            &&& after.contains_key(id) ==> drops(
                after[id].registered,
                registry[id].registered,
                registration_id,
            )
        }),
{
    if registry.contains_key(id) {
        lemma_left(registry[id].registered, registration_id);
    }
}

/// A change of a file forgets a language server just where it is dropped and a
/// glob of it matches, and leaves every other one as it is.
pub proof fn changes_forget_dropped_clients<C>(
    registry: Registry<C>,
    path: Seq<char>,
    dropped: Seq<LanguageServerId>,
    id: LanguageServerId,
)
    ensures
        ({
            let after = after_file_changed(registry, path, dropped);
            &&& after.contains_key(id) <==> registry.contains_key(id) && !(wants(registry, id, path)
                && exists|k: int| 0 <= k < dropped.len() && #[trigger] dropped[k] == id)
            &&& after.contains_key(id) ==> after[id] == registry[id]
        }),
{
}

/// A language server is told of a change just where it wants the file, it is not
/// dropped, and the path has a file URI.
pub proof fn clients_are_told<C>(
    registry: Registry<C>,
    id: LanguageServerId,
    path: Seq<char>,
    dropped: Seq<LanguageServerId>,
)
    ensures
        hears(registry, id, path, dropped) <==> {
            &&& wants(registry, id, path)
            &&& forall|k: int| 0 <= k < dropped.len() ==> #[trigger] dropped[k] != id
            &&& uri::path_uri(path) is Some
        },
{
}

/// Those who are told are told one after the other, each once, that the file at
/// the URI has changed.
pub proof fn notifications_tell_of_a_change(
    notifications: Seq<Notification>,
    to: Seq<LanguageServerId>,
    uri: Seq<char>,
)
    ensures
        tells(notifications, to, uri) <==> {
            &&& notifications.len() == to.len()
            &&& forall|i: int|
                0 <= i < notifications.len() ==> (#[trigger] notifications[i]).client_id == to[i]
            &&& forall|i: int|
                0 <= i < notifications.len() ==> (#[trigger] notifications[i]).event.uri@ == uri
            &&& forall|i: int|
                0 <= i < notifications.len() ==> (#[trigger] notifications[i]).event.typ
                    == FileChangeType::Changed
        },
{
}

/// An event does what its kind does, and a run of events what they do in turn.
pub proof fn events_do_what_they_are<C>(
    registry: Registry<C>,
    events: Seq<EventView<C>>,
    event: EventView<C>,
    id: LanguageServerId,
    client: C,
    registration_id: Seq<char>,
    set: Option<Seq<Seq<char>>>,
    path: Seq<char>,
    dropped: Seq<LanguageServerId>,
)
    ensures
        after_events(registry, Seq::empty()) == registry,
        after_events(registry, events.push(event)) == after_event(
            after_events(registry, events),
            event,
        ),
        after_event(registry, EventView::Register { id, client, registration_id, set })
            == after_register(registry, id, client, registration_id, set),
        after_event(registry, EventView::Unregister { id, registration_id }) == after_unregister(
            registry,
            id,
            registration_id,
        ),
        after_event(registry, EventView::RemoveClient { id }) == registry.remove(id),
        after_event(registry, EventView::FileChanged { path, dropped }) == after_file_changed(
            registry,
            path,
            dropped,
        ),
{
    assert(events.push(event).drop_last() =~= events);
}

/// A registry is in order just where each of its language servers has a
/// registration.
pub proof fn registries_are_in_order<C>(registry: Registry<C>)
    ensures
        all_registered(registry) <==> forall|id: LanguageServerId| #[trigger]
            registry.contains_key(id) ==> exists|r: Seq<char>| #[trigger]
                registry[id].registered.contains_key(r),
{
    let none = Map::<Seq<char>, Seq<Seq<char>>>::empty();
    assert forall|id: LanguageServerId| #[trigger] registry.contains_key(id) implies ((
    registry[id].registered != none) <==> exists|r: Seq<char>| #[trigger]
        registry[id].registered.contains_key(r)) by {
        let registered = registry[id].registered;
        if forall|r: Seq<char>| !#[trigger] registered.contains_key(r) {
            assert(registered =~= none);
        }
    }
}

/// A few globs of ordinary length always make a set, and so do more of them as
/// long as they do not come to much in all.
pub proof fn ordinary_globs_make_a_set(globs: Seq<Seq<char>>)
    requires
        forall|i: int| 0 <= i < globs.len() ==> (#[trigger] globs[i]).len() <= 200,
    ensures
        globs.len() <= 50 ==> globs::always_a_set(globs),
        globs::size(globs) <= 10_050 ==> globs::always_a_set(globs) && globs::is_light(globs),
{
}

/// Globs that are plain texts, with a star or two in front of them or behind,
/// make a set however many there are.
pub proof fn simple_globs_make_a_set(
    globs: Seq<Seq<char>>,
    fronts: Seq<Seq<char>>,
    texts: Seq<Seq<char>>,
    backs: Seq<Seq<char>>,
)
    requires
        fronts.len() == globs.len(),
        texts.len() == globs.len(),
        backs.len() == globs.len(),
        forall|i: int| #![trigger globs[i]]
            0 <= i < globs.len() ==> {
                &&& globs[i] == fronts[i] + texts[i] + backs[i]
                &&& texts[i].len() > 0
                &&& texts[i] != seq!['/']
                &&& forall|j: int| 0 <= j < texts[i].len() ==> is_ordinary(#[trigger] texts[i][j])
                &&& {
                    ||| backs[i] == Seq::<char>::empty() && (fronts[i] == Seq::<char>::empty()
                        || fronts[i] == seq!['*'] || fronts[i] == seq!['*', '*', '/'] || fronts[i]
                        == seq!['*', '*', '/', '*'])
                    ||| fronts[i] == Seq::<char>::empty() && (backs[i] == seq!['*'] || backs[i]
                        == seq!['/', '*', '*'])
                }
            },
    ensures
        globs::always_a_set(globs),
{
    assert forall|i: int| 0 <= i < globs.len() implies globs::is_simple(#[trigger] globs[i]) by {
        lemma_simple(globs[i], fronts[i], texts[i], backs[i]);
    }
}

/// A character that means itself wherever it stands.
pub open spec fn is_ordinary(c: char) -> bool {
    'a' <= c <= 'z' || 'A' <= c <= 'Z' || '0' <= c <= '9' || c == '.' || c == '_' || c == '-' || c
        == '/'
}

proof fn lemma_simple(glob: Seq<char>, front: Seq<char>, text: Seq<char>, back: Seq<char>)
    requires
        glob == front + text + back,
        text.len() > 0,
        text != seq!['/'],
        forall|j: int| 0 <= j < text.len() ==> is_ordinary(#[trigger] text[j]),
        ({
            ||| back == Seq::<char>::empty() && (front == Seq::<char>::empty() || front
                == seq!['*'] || front == seq!['*', '*', '/'] || front == seq!['*', '*', '/', '*'])
            ||| front == Seq::<char>::empty() && (back == seq!['*'] || back == seq!['/', '*', '*'])
        }),
    ensures
        globs::is_simple(glob),
{
    assert(globs::is_plain(text));
    assert(is_ordinary(text[0]));
    if text.len() == 1 && text[0] == '/' {
        assert(text =~= seq!['/']);
    }
    let n = glob.len() as int;
    if back == Seq::<char>::empty() {
        if front == Seq::<char>::empty() {
            assert(glob =~= text);
        } else if front == seq!['*'] {
            if n >= 2 {
                assert(glob[1] == text[0]);
            }
            assert(glob.skip(1) =~= text);
        } else if front == seq!['*', '*', '/'] {
            assert(glob.skip(3) =~= text);
        } else {
            assert(glob.skip(3)[0] == '*');
            assert(glob.skip(3).skip(1) =~= text);
        }
    } else if back == seq!['*'] {
        assert(glob.take(n - 1) =~= text);
    } else {
        assert(glob.take(n - 3) =~= text);
    }
}

/// What texts come to adds up: nothing for none, and for one its characters and
/// one more.
pub proof fn sizes_add_up(a: Seq<Seq<char>>, b: Seq<Seq<char>>, text: Seq<char>)
    ensures
        globs::size(Seq::empty()) == 0,
        globs::size(seq![text]) == text.len() + 1,
        globs::size(a + b) == globs::size(a) + globs::size(b),
{
    globs::lemma_size_of_both(a, b);
    assert(seq![text].drop_last() =~= Seq::empty());
    assert(globs::size(seq![text].drop_last()) == 0);
}

/// What is told of strings and places is what they are.
pub proof fn texts_and_places_are_kept(string: String, numbers: Seq<usize>, i: int)
    ensures
        uri::text_of(Some(string)) == Some(string@),
        uri::text_of(None) is None,
        places(numbers).len() == numbers.len(),
        0 <= i < numbers.len() ==> places(numbers)[i] == numbers[i],
{
}

} // verus!
