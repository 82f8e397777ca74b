//! Which language servers hear of which file changes.

use globset::GlobSet;
use vstd::prelude::*;

use crate::assoc;
use crate::globs;
use crate::text;
use crate::uri;

verus! {

/// One of two kinds of value.
pub enum OneOf<A, B> {
    Left(A),
    Right(B),
}

/// A folder that a language server works in.
pub struct WorkspaceFolder {
    pub uri: String,
    pub name: String,
}

/// A glob for the files below a folder, which is given as such or by its URI.
pub struct RelativePattern {
    pub base_uri: OneOf<WorkspaceFolder, String>,
    pub pattern: String,
}

/// The glob for the files that a language server watches.
pub enum GlobPattern {
    String(String),
    Relative(RelativePattern),
}

/// One wish of a language server to hear of changes.
pub struct FileSystemWatcher {
    pub glob_pattern: GlobPattern,
}

/// All that a language server registers for at a time.
pub struct DidChangeWatchedFilesRegistrationOptions {
    pub watchers: Vec<FileSystemWatcher>,
}

/// The glob for the files below `base`: slashes separate the names of `base`
/// and just one follows it.
pub open spec fn glob_below(base: Seq<char>, pattern: Seq<char>) -> Seq<char> {
    text::without_trailing(text::replaced(base, '\\', '/'), '/').push('/') + pattern
}

/// The path that a URI leads to, if it is a file URI.
pub open spec fn file_uri_path(
    scheme: Option<Seq<char>>,
    path: Option<Seq<char>>,
) -> Option<Seq<char>> {
    if scheme == Some("file"@) {
        path
    } else {
        None
    }
}

/// The URI of the folder that a relative pattern starts at.
pub open spec fn base_uri(pattern: RelativePattern) -> Seq<char> {
    match pattern.base_uri {
        OneOf::Left(folder) => folder.uri@,
        OneOf::Right(uri) => uri@,
    }
}

/// The glob that a pattern comes down to. A relative pattern comes down to one
/// only where its base is a file URI.
pub open spec fn resolved_glob(pattern: GlobPattern) -> Option<Seq<char>> {
    match pattern {
        GlobPattern::String(pattern) => Some(pattern@),
        GlobPattern::Relative(relative) => {
            let uri = base_uri(relative);
            match file_uri_path(uri::uri_scheme(uri), uri::uri_path(uri)) {
                Some(base) => Some(glob_below(base, relative.pattern@)),
                None => None,
            }
        },
    }
}

/// Prepends the path `base` to `pattern`, so that the glob matches absolute
/// paths below `base`.
pub fn prepend_base(base: &str, pattern: &str) -> (glob: String)
    ensures
        glob@ == glob_below(base@, pattern@),
{
    let slashed = text::replace_char(base, '\\', '/');
    let mut glob = text::trim_trailing(slashed.as_str(), '/');
    glob.push('/');
    glob.append(pattern);
    glob
}

/// The glob for the files below the folder whose URI has the scheme and leads
/// to the path given; there is none unless it is a file URI.
pub fn relative_glob(scheme: Option<String>, path: Option<String>, pattern: &str) -> (glob: Option<
    String,
>)
    ensures
        uri::text_of(glob) == (match file_uri_path(uri::text_of(scheme), uri::text_of(path)) {
            Some(base) => Some(glob_below(base, pattern@)),
            None => None,
        }),
{
    match scheme {
        Some(scheme) => {
            if scheme != "file".to_owned() {
                return None;
            }
        },
        None => {
            return None;
        },
    }
    match path {
        Some(base) => Some(prepend_base(base.as_str(), pattern)),
        None => None,
    }
}

/// Reduces a pattern to a single glob that matches absolute paths. A relative
/// pattern is prepended with the path of its base; where the base is no `file:`
/// URI, there is no glob.
pub fn resolve_glob_pattern(pattern: GlobPattern) -> (glob: Option<String>)
    ensures
        uri::text_of(glob) == resolved_glob(pattern),
{
    match pattern {
        GlobPattern::String(pattern) => Some(pattern),
        GlobPattern::Relative(relative) => {
            let base_uri = match relative.base_uri {
                OneOf::Left(folder) => folder.uri,
                OneOf::Right(uri) => uri,
            };
            let scheme = uri::scheme(base_uri.as_str());
            let path = uri::to_file_path(base_uri.as_str());
            relative_glob(scheme, path, relative.pattern.as_str())
        },
    }
}

/// Slashes at the end of a base make no difference.
pub proof fn trailing_slashes_do_not_count(base: Seq<char>, pattern: Seq<char>)
    ensures
        glob_below(base.push('/'), pattern) == glob_below(base, pattern),
{
    let slashed = text::replaced(base, '\\', '/');
    assert(text::replaced(base.push('/'), '\\', '/') =~= slashed.push('/'));
    assert(slashed.push('/').drop_last() =~= slashed);
}

/// Backslashes in a base count as slashes.
pub proof fn backslashes_count_as_slashes(base: Seq<char>, pattern: Seq<char>)
    ensures
        glob_below(base, pattern) == glob_below(text::replaced(base, '\\', '/'), pattern),
{
    let slashed = text::replaced(base, '\\', '/');
    assert(text::replaced(slashed, '\\', '/') =~= slashed);
}

/// What is left without trailing `c` does not end in `c`.
proof fn lemma_without_trailing(text: Seq<char>, c: char)
    ensures
        text::without_trailing(text, c).len() > 0 ==> text::without_trailing(text, c).last() != c,
    decreases text.len(),
{
    if text.len() > 0 && text.last() == c {
        lemma_without_trailing(text.drop_last(), c);
    }
}

/// Just one slash stands between the base and the pattern.
pub proof fn one_slash_joins(base: Seq<char>, pattern: Seq<char>)
    ensures
        exists|front: Seq<char>| #[trigger]
            front.push('/') + pattern == glob_below(base, pattern) && (front.len() > 0
                ==> front.last() != '/'),
{
    let front = text::without_trailing(text::replaced(base, '\\', '/'), '/');
    lemma_without_trailing(text::replaced(base, '\\', '/'), '/');
    assert(front.push('/') + pattern == glob_below(base, pattern));
}

/// Identifies a language server.
#[derive(Debug, Clone, Copy, PartialEq, Eq, Structural)]
pub struct LanguageServerId(pub u64);

/// What happened to a file.
#[derive(Debug, Clone, Copy, PartialEq, Eq, Structural)]
pub enum FileChangeType {
    Created,
    Changed,
    Deleted,
}

/// A change of a file, as language servers hear of it.
#[derive(Debug, PartialEq, Eq)]
pub struct FileEvent {
    pub uri: String,
    pub typ: FileChangeType,
}

/// A change that is due to a language server.
#[derive(Debug, PartialEq, Eq)]
pub struct Notification {
    pub client_id: LanguageServerId,
    pub event: FileEvent,
}

/// One registration of a language server.
struct Registration {
    id: String,
    globs: GlobSet,
}

/// How to reach a language server, and what it registered for.
struct ClientState<C> {
    id: LanguageServerId,
    client: C,
    registered: Vec<Registration>,
}

/// Remembers which language servers registered for changes of which files, and
/// says who is to hear of a change. `C` is a handle by which a language server
/// can be reached.
pub struct Handler<C> {
    clients: Vec<ClientState<C>>,
}

/// How to reach a language server, and the globs of each registration.
#[verifier::ext_equal]
pub struct ClientView<C> {
    pub client: C,
    pub registered: Map<Seq<char>, Seq<Seq<char>>>,
}

/// The language servers with registrations.
pub type Registry<C> = Map<LanguageServerId, ClientView<C>>;

spec fn registration_entries(registered: Seq<Registration>) -> Seq<(Seq<char>, Seq<Seq<char>>)> {
    registered.map_values(|r: Registration| (r.id@, globs::set_globs(r.globs)))
}

spec fn client_entries<C>(clients: Seq<ClientState<C>>) -> Seq<(LanguageServerId, ClientView<C>)> {
    clients.map_values(|c: ClientState<C>| (c.id, c@))
}

impl<C> View for ClientState<C> {
    type V = ClientView<C>;

    closed spec fn view(&self) -> ClientView<C> {
        ClientView {
            client: self.client,
            registered: assoc::map_of(registration_entries(self.registered@)),
        }
    }
}

impl<C> View for Handler<C> {
    type V = Registry<C>;

    closed spec fn view(&self) -> Registry<C> {
        assoc::map_of(client_entries(self.clients@))
    }
}

/// The globs that the watchers come down to, without those that are none.
pub open spec fn watched_globs(watchers: Seq<FileSystemWatcher>) -> Seq<Seq<char>>
    decreases watchers.len(),
{
    if watchers.len() == 0 {
        Seq::empty()
    } else {
        let before = watched_globs(watchers.drop_last());
        match resolved_glob(watchers.last().glob_pattern) {
            Some(glob) => if globs::counts(glob) {
                before.push(glob)
            } else {
                before
            },
            None => before,
        }
    }
}

/// The places of the watchers that come down to no glob.
pub open spec fn skipped_watchers(watchers: Seq<FileSystemWatcher>) -> Seq<int>
    decreases watchers.len(),
{
    if watchers.len() == 0 {
        Seq::empty()
    } else {
        let before = skipped_watchers(watchers.drop_last());
        if is_skipped(watchers.last()) {
            before.push(watchers.len() - 1)
        } else {
            before
        }
    }
}

/// Whether a watcher comes down to no glob.
pub open spec fn is_skipped(watcher: FileSystemWatcher) -> bool {
    match resolved_glob(watcher.glob_pattern) {
        Some(glob) => !globs::counts(glob),
        None => true,
    }
}

/// What became of a registration: whether it is in force, and the places of the
/// watchers that were left out of it.
#[derive(Debug, PartialEq, Eq)]
pub struct Registered {
    pub in_force: bool,
    pub skipped: Vec<usize>,
}

/// The places as numbers.
pub open spec fn places(places: Seq<usize>) -> Seq<int> {
    places.map_values(|i: usize| i as int)
}

/// Whether every language server in the registry has a registration.
pub open spec fn all_registered<C>(registry: Registry<C>) -> bool {
    forall|id: LanguageServerId| #[trigger]
        registry.contains_key(id) ==> registry[id].registered != Map::<
            Seq<char>,
            Seq<Seq<char>>,
        >::empty()
}

/// The registrations that the registry has of a language server.
pub open spec fn registrations<C>(registry: Registry<C>, id: LanguageServerId) -> Map<
    Seq<char>,
    Seq<Seq<char>>,
> {
    if registry.contains_key(id) {
        registry[id].registered
    } else {
        Map::empty()
    }
}

/// The registry with the registrations of a language server as given; without
/// any, the language server is not in it.
pub open spec fn with_registrations<C>(
    registry: Registry<C>,
    id: LanguageServerId,
    client: C,
    registered: Map<Seq<char>, Seq<Seq<char>>>,
) -> Registry<C> {
    if registered == Map::<Seq<char>, Seq<Seq<char>>>::empty() {
        registry.remove(id)
    } else {
        registry.insert(id, ClientView { client, registered })
    }
}

/// The registry once a language server has registered. Globs that make no set
/// leave it without the registration.
pub open spec fn after_register<C>(
    registry: Registry<C>,
    id: LanguageServerId,
    client: C,
    registration_id: Seq<char>,
    set: Option<Seq<Seq<char>>>,
) -> Registry<C> {
    let before = registrations(registry, id);
    with_registrations(
        registry,
        id,
        client,
        match set {
            Some(globs) => before.insert(registration_id, globs),
            None => before.remove(registration_id),
        },
    )
}

/// The registry once a registration has been withdrawn.
pub open spec fn after_unregister<C>(
    registry: Registry<C>,
    id: LanguageServerId,
    registration_id: Seq<char>,
) -> Registry<C> {
    if registry.contains_key(id) {
        with_registrations(
            registry,
            id,
            registry[id].client,
            registry[id].registered.remove(registration_id),
        )
    } else {
        registry
    }
}

/// Whether a glob of one of the registrations matches `path`.
pub open spec fn covers(registered: Map<Seq<char>, Seq<Seq<char>>>, path: Seq<char>) -> bool {
    exists|registration_id: Seq<char>|
        registered.contains_key(registration_id) && globs::any_matches(
            #[trigger] registered[registration_id],
            path,
        )
}

/// Whether a language server registered for changes of the file at `path`.
pub open spec fn wants<C>(registry: Registry<C>, id: LanguageServerId, path: Seq<char>) -> bool {
    registry.contains_key(id) && covers(registry[id].registered, path)
}

/// Whether a language server is told of a change of the file at `path`: it
/// registered for the file, it is not among the dropped, and the path has a file
/// URI.
pub open spec fn hears<C>(
    registry: Registry<C>,
    id: LanguageServerId,
    path: Seq<char>,
    dropped: Seq<LanguageServerId>,
) -> bool {
    wants(registry, id, path) && !dropped.contains(id) && uri::path_uri(path) is Some
}

/// The registry once a change of the file at `path` has been passed on: the
/// language servers that want to hear of it and are gone, are forgotten.
pub open spec fn after_file_changed<C>(
    registry: Registry<C>,
    path: Seq<char>,
    dropped: Seq<LanguageServerId>,
) -> Registry<C> {
    registry.remove_keys(
        Set::new(|id: LanguageServerId| wants(registry, id, path) && dropped.contains(id)),
    )
}

impl<C> Handler<C> {
    /// No language server is listed twice, nor a registration of one, and every
    /// language server has a registration.
    pub closed spec fn wf(&self) -> bool {
        &&& assoc::distinct(client_entries(self.clients@))
        &&& forall|i: int| 0 <= i < self.clients@.len() ==> (#[trigger] self.clients@[i]).wf()
    }
}

impl<C> ClientState<C> {
    spec fn wf(&self) -> bool {
        &&& assoc::distinct(registration_entries(self.registered@))
        &&& self.registered@.len() > 0
    }
}

/// Adds a registration, or replaces the one with the same id.
fn insert_registration(registered: &mut Vec<Registration>, id: String, globs: GlobSet)
    requires
        assoc::distinct(registration_entries(old(registered)@)),
    ensures
        assoc::distinct(registration_entries(final(registered)@)),
        final(registered)@.len() > 0,
        assoc::map_of(registration_entries(final(registered)@)) == assoc::map_of(
            registration_entries(old(registered)@),
        ).insert(id@, globs::set_globs(globs)),
{
    let ghost before = registration_entries(registered@);
    let mut i: usize = 0;
    while i < registered.len()
        invariant
            i <= registered@.len(),
            *registered == *old(registered),
            before == registration_entries(old(registered)@),
            assoc::distinct(before),
            forall|j: int| 0 <= j < i ==> (#[trigger] before[j]).0 != id@,
        decreases registered@.len() - i,
    {
        if registered[i].id == id {
            registered[i].globs = globs;
            proof {
                assoc::lemma_update(before, i as int, globs::set_globs(globs));
                assert(registration_entries(registered@) =~= before.update(
                    i as int,
                    (before[i as int].0, globs::set_globs(globs)),
                ));
            }
            return;
        }
        i = i + 1;
    }
    registered.push(Registration { id, globs });
    proof {
        assoc::lemma_push(before, id@, globs::set_globs(globs));
        assert(registration_entries(registered@) =~= before.push((id@, globs::set_globs(globs))));
    }
}

/// Removes the registration with the id given, if there is one.
fn remove_registration(registered: &mut Vec<Registration>, id: &String)
    requires
        assoc::distinct(registration_entries(old(registered)@)),
    ensures
        assoc::distinct(registration_entries(final(registered)@)),
        assoc::map_of(registration_entries(final(registered)@)) == assoc::map_of(
            registration_entries(old(registered)@),
        ).remove(id@),
{
    let ghost before = registration_entries(registered@);
    let mut i: usize = 0;
    while i < registered.len()
        invariant
            i <= registered@.len(),
            *registered == *old(registered),
            before == registration_entries(old(registered)@),
            assoc::distinct(before),
            forall|j: int| 0 <= j < i ==> (#[trigger] before[j]).0 != id@,
        decreases registered@.len() - i,
    {
        if registered[i].id == *id {
            registered.remove(i);
            proof {
                assoc::lemma_remove(before, i as int);
                assert(registration_entries(registered@) =~= before.remove(i as int));
            }
            return;
        }
        i = i + 1;
    }
    proof {
        assert(!assoc::holds(before, id@));
        assert(assoc::map_of(before).remove(id@) =~= assoc::map_of(before));
    }
}

impl<C> Handler<C> {
    /// Where a language server is listed.
    fn position(&self, id: LanguageServerId) -> (position: Option<usize>)
        requires
            self.wf(),
        ensures
            match position {
                Some(i) => i < self.clients@.len() && self.clients@[i as int].id == id
                    && self@.contains_key(id) && self@[id] == self.clients@[i as int]@,
                None => !self@.contains_key(id),
            },
    {
        let ghost entries = client_entries(self.clients@);
        let mut i: usize = 0;
        while i < self.clients.len()
            invariant
                i <= self.clients@.len(),
                entries == client_entries(self.clients@),
                assoc::distinct(entries),
                forall|j: int| 0 <= j < i ==> (#[trigger] entries[j]).0 != id,
            decreases self.clients@.len() - i,
        {
            if self.clients[i].id == id {
                proof {
                    assoc::lemma_entry(entries, i as int);
                }
                return Some(i);
            }
            i = i + 1;
        }
        None
    }

    /// Without any registrations.
    pub fn new() -> (handler: Self)
        ensures
            handler.wf(),
            handler@ == Map::<LanguageServerId, ClientView<C>>::empty(),
    {
        let handler = Handler { clients: Vec::new() };
        proof {
            assert(handler@ =~= Map::<LanguageServerId, ClientView<C>>::empty());
        }
        handler
    }

    /// How to reach a language server that has registrations.
    pub fn client(&self, client_id: LanguageServerId) -> (client: Option<&C>)
        requires
            self.wf(),
        ensures
            match client {
                Some(client) => self@.contains_key(client_id) && self@[client_id].client == *client,
                None => !self@.contains_key(client_id),
            },
    {
        match self.position(client_id) {
            Some(i) => Some(&self.clients[i].client),
            None => None,
        }
    }

    /// Notes a registration of a language server, or that its globs made no set.
    /// The set is taken to be one of globs that were read with the default
    /// options.
    pub fn set_registration(
        &mut self,
        client_id: LanguageServerId,
        client: C,
        registration_id: String,
        set: Option<GlobSet>,
    )
        requires
            old(self).wf(),
        ensures
            final(self).wf(),
            final(self)@ == after_register(
                old(self)@,
                client_id,
                client,
                registration_id@,
                match set {
                    Some(globs) => Some(globs::set_globs(globs)),
                    None => None,
                },
            ),
    {
        let ghost before = client_entries(self.clients@);
        match self.position(client_id) {
            Some(i) => {
                self.clients[i].client = client;
                match set {
                    Some(globs) => {
                        insert_registration(
                            &mut self.clients[i].registered,
                            registration_id,
                            globs,
                        );
                        proof {
                            assoc::lemma_empty(
                                registration_entries(self.clients@[i as int].registered@),
                            );
                        }
                    },
                    None => {
                        remove_registration(&mut self.clients[i].registered, &registration_id);
                        proof {
                            assoc::lemma_empty(
                                registration_entries(self.clients@[i as int].registered@),
                            );
                        }
                        if self.clients[i].registered.len() == 0 {
                            self.clients.remove(i);
                            proof {
                                assoc::lemma_remove(before, i as int);
                                assert(client_entries(self.clients@) =~= before.remove(i as int));
                            }
                            return;
                        }
                    },
                }
                proof {
                    assoc::lemma_update(before, i as int, self.clients@[i as int]@);
                    assert(client_entries(self.clients@) =~= before.update(
                        i as int,
                        (before[i as int].0, self.clients@[i as int]@),
                    ));
                }
            },
            None => {
                match set {
                    Some(globs) => {
                        let mut registered: Vec<Registration> = Vec::new();
                        let ghost empty = registration_entries(registered@);
                        proof {
                            assoc::lemma_empty(empty);
                        }
                        insert_registration(&mut registered, registration_id, globs);
                        proof {
                            assoc::lemma_empty(registration_entries(registered@));
                        }
                        let state = ClientState { id: client_id, client, registered };
                        proof {
                            assoc::lemma_push(before, client_id, state@);
                        }
                        self.clients.push(state);
                        proof {
                            assert(client_entries(self.clients@) =~= before.push(
                                (client_id, state@),
                            ));
                        }
                    },
                    None => {
                        proof {
                            let none = Map::<Seq<char>, Seq<Seq<char>>>::empty();
                            assert(none.remove(registration_id@) =~= none);
                            assert(self@.remove(client_id) =~= self@);
                        }
                    },
                }
            },
        }
    }

    /// Forgets a registration of a language server, and the language server
    /// with its last one.
    pub fn unregister(&mut self, client_id: LanguageServerId, registration_id: String)
        requires
            old(self).wf(),
        ensures
            final(self).wf(),
            final(self)@ == after_unregister(old(self)@, client_id, registration_id@),
    {
        let ghost before = client_entries(self.clients@);
        match self.position(client_id) {
            Some(i) => {
                remove_registration(&mut self.clients[i].registered, &registration_id);
                proof {
                    assoc::lemma_empty(registration_entries(self.clients@[i as int].registered@));
                }
                if self.clients[i].registered.len() == 0 {
                    self.clients.remove(i);
                    proof {
                        assoc::lemma_remove(before, i as int);
                        assert(client_entries(self.clients@) =~= before.remove(i as int));
                    }
                } else {
                    proof {
                        assoc::lemma_update(before, i as int, self.clients@[i as int]@);
                        assert(client_entries(self.clients@) =~= before.update(
                            i as int,
                            (before[i as int].0, self.clients@[i as int]@),
                        ));
                    }
                }
            },
            None => {},
        }
    }

    /// Forgets a language server.
    pub fn remove_client(&mut self, client_id: LanguageServerId)
        requires
            old(self).wf(),
        ensures
            final(self).wf(),
            final(self)@ == old(self)@.remove(client_id),
    {
        let ghost before = client_entries(self.clients@);
        match self.position(client_id) {
            Some(i) => {
                self.clients.remove(i);
                proof {
                    assoc::lemma_remove(before, i as int);
                    assert(client_entries(self.clients@) =~= before.remove(i as int));
                }
            },
            None => {
                proof {
                    assert(self@.remove(client_id) =~= self@);
                }
            },
        }
    }
}

/// Whether the notifications tell just the language servers `to`, in order,
/// that the file at `uri` changed.
pub open spec fn tells(
    notifications: Seq<Notification>,
    to: Seq<LanguageServerId>,
    uri: Seq<char>,
) -> bool {
    &&& notifications.len() == to.len()
    &&& forall|i: int|
        0 <= i < to.len() ==> (#[trigger] notifications[i]).client_id == to[i]
            && notifications[i].event.uri@ == uri && notifications[i].event.typ
            == FileChangeType::Changed
}

/// Whether a language server is among those listed.
fn is_listed(ids: &Vec<LanguageServerId>, id: LanguageServerId) -> (listed: bool)
    ensures
        listed == ids@.contains(id),
{
    let mut i: usize = 0;
    while i < ids.len()
        invariant
            i <= ids@.len(),
            forall|j: int| 0 <= j < i ==> ids@[j] != id,
        decreases ids@.len() - i,
    {
        if ids[i] == id {
            return true;
        }
        i = i + 1;
    }
    false
}

impl<C> ClientState<C> {
    /// Whether the language server registered for changes of the file at `path`.
    fn wants(&self, path: &str) -> (wants: bool)
        requires
            self.wf(),
        ensures
            wants == covers(self@.registered, path@),
    {
        let ghost entries = registration_entries(self.registered@);
        let mut i: usize = 0;
        while i < self.registered.len()
            invariant
                self.wf(),
                i <= self.registered@.len(),
                entries == registration_entries(self.registered@),
                forall|j: int|
                    0 <= j < i ==> !globs::any_matches((#[trigger] entries[j]).1, path@),
            decreases self.registered@.len() - i,
        {
            if globs::is_match(&self.registered[i].globs, path) {
                proof {
                    assoc::lemma_entry(entries, i as int);
                    assert(globs::any_matches(self@.registered[entries[i as int].0], path@));
                }
                return true;
            }
            i = i + 1;
        }
        proof {
            assert forall|registration_id: Seq<char>|
                self@.registered.contains_key(registration_id) implies !globs::any_matches(
                #[trigger] self@.registered[registration_id],
                path@,
            ) by {
                let j = assoc::lemma_key(entries, registration_id);
            }
        }
        false
    }
}

impl<C> Handler<C> {
    /// Registers a language server for changes of the files that its watchers
    /// match. Watchers that come down to no glob are left out; where the globs
    /// make no set, the registration is dropped, and the language server with
    /// its last one. They always make one unless they are many or long.
    pub fn register(
        &mut self,
        client_id: LanguageServerId,
        client: C,
        registration_id: String,
        options: DidChangeWatchedFilesRegistrationOptions,
    ) -> (report: Registered)
        requires
            old(self).wf(),
        ensures
            final(self).wf(),
            final(self)@ == after_register(
                old(self)@,
                client_id,
                client,
                registration_id@,
                if report.in_force {
                    Some(watched_globs(options.watchers@))
                } else {
                    None
                },
            ),
            globs::always_a_set(watched_globs(options.watchers@)) ==> report.in_force,
            places(report.skipped@) == skipped_watchers(options.watchers@),
    {
        let ghost watchers = options.watchers@;
        let mut builder = globs::new_builder();
        let mut skipped: Vec<usize> = Vec::new();
        let mut place: usize = 0;
        proof {
            assert(watchers.take(0) =~= Seq::empty());
            assert(places(skipped@) =~= Seq::empty());
            assert(watchers.len() == options.watchers.len());
        }
        for watcher in it: options.watchers
            invariant
                it.seq() == watchers,
                watchers.len() <= usize::MAX,
                place == it.index(),
                globs::builder_globs(builder) == watched_globs(watchers.take(it.index() as int)),
                places(skipped@) == skipped_watchers(watchers.take(it.index() as int)),
        {
            let ghost before = skipped@;
            proof {
                assert(watchers.take(it.index() + 1).drop_last() =~= watchers.take(
                    it.index() as int,
                ));
            }
            let added = match resolve_glob_pattern(watcher.glob_pattern) {
                Some(glob) => globs::add_glob(&mut builder, glob.as_str()),
                None => false,
            };
            if !added {
                skipped.push(place);
                proof {
                    assert(places(skipped@) =~= places(before).push(place as int));
                }
            }
            place = place + 1;
        }
        proof {
            assert(watchers.take(watchers.len() as int) =~= watchers);
            let globs = watched_globs(watchers);
            if globs::few_and_short(globs) {
                globs::few_and_short_texts_are_light(globs);
            }
        }
        let set = globs::build(&builder);
        let in_force = set.is_some();
        self.set_registration(client_id, client, registration_id, set);
        Registered { in_force, skipped }
    }

    /// The language servers that registered for changes of the file at `path`.
    pub fn targets(&self, path: &str) -> (ids: Vec<LanguageServerId>)
        requires
            self.wf(),
        ensures
            ids@.no_duplicates(),
            forall|id: LanguageServerId| #[trigger] ids@.contains(id) <==> wants(self@, id, path@),
    {
        let ghost entries = client_entries(self.clients@);
        let mut ids: Vec<LanguageServerId> = Vec::new();
        let mut i: usize = 0;
        while i < self.clients.len()
            invariant
                self.wf(),
                i <= self.clients@.len(),
                entries == client_entries(self.clients@),
                ids@.no_duplicates(),
                forall|id: LanguageServerId| #[trigger]
                    ids@.contains(id) <==> (wants(self@, id, path@) && assoc::holds(
                        entries.take(i as int),
                        id,
                    )),
            decreases self.clients@.len() - i,
        {
            let state = &self.clients[i];
            let ghost before = ids@;
            proof {
                assoc::lemma_entry(entries, i as int);
                assert(entries[i as int].0 == state.id);
                assert(!assoc::holds(entries.take(i as int), state.id)) by {
                    if assoc::holds(entries.take(i as int), state.id) {
                        let j = choose|j: int|
                            0 <= j < i && (#[trigger] entries.take(i as int)[j]).0 == state.id;
                        assert(entries[j].0 != entries[i as int].0);
                    }
                }
                assert(!before.contains(state.id));
            }
            if state.wants(path) {
                ids.push(state.id);
                proof {
                    assert(ids@[before.len() as int] == state.id);
                    assert forall|id: LanguageServerId| ids@.contains(id) <==> (before.contains(id)
                        || id == state.id) by {
                        if before.contains(id) {
                            let j = choose|j: int| 0 <= j < before.len() && before[j] == id;
                            assert(ids@[j] == id);
                        }
                    }
                }
            }
            proof {
                let (short, long) = (entries.take(i as int), entries.take(i + 1));
                assert forall|id: LanguageServerId| #[trigger]
                    assoc::holds(long, id) <==> (assoc::holds(short, id) || id == state.id) by {
                    if assoc::holds(short, id) {
                        let j = choose|j: int|
                            0 <= j < short.len() && (#[trigger] short[j]).0 == id;
                        assert(long[j].0 == id);
                    }
                    if assoc::holds(long, id) {
                        let j = choose|j: int|
                            0 <= j < long.len() && (#[trigger] long[j]).0 == id;
                        if j < i {
                            assert(short[j].0 == id);
                        }
                    }
                    assert(long[i as int].0 == state.id);
                }
                assert(self@[state.id] == state@);
                assert forall|id: LanguageServerId| #[trigger]
                    ids@.contains(id) <==> (wants(self@, id, path@) && assoc::holds(long, id)) by {
                    assert(before.contains(id) <==> (wants(self@, id, path@) && assoc::holds(
                        short,
                        id,
                    )));
                }
            }
            i = i + 1;
        }
        proof {
            assert(entries.take(i as int) =~= entries);
        }
        ids
    }

    /// Passes a change on to the language servers `targets`: those that are
    /// gone are forgotten, and the others are told of the change of `uri`, if
    /// there is one to tell of.
    pub fn deliver(
        &mut self,
        targets: &Vec<LanguageServerId>,
        dropped: &Vec<LanguageServerId>,
        uri: Option<String>,
    ) -> (notifications: Vec<Notification>)
        requires
            old(self).wf(),
        ensures
            final(self).wf(),
            final(self)@ == old(self)@.remove_keys(
                Set::new(|id: LanguageServerId| targets@.contains(id) && dropped@.contains(id)),
            ),
            match uri {
                Some(uri) => tells(
                    notifications@,
                    targets@.filter(|id: LanguageServerId| !dropped@.contains(id)),
                    uri@,
                ),
                None => notifications@.len() == 0,
            },
    {
        let ghost living = |id: LanguageServerId| !dropped@.contains(id);
        let mut notifications: Vec<Notification> = Vec::new();
        let mut i: usize = 0;
        proof {
            assert(targets@.take(0).filter(living) =~= Seq::empty()) by {
                reveal(Seq::filter);
            }
            assert(self@.remove_keys(
                Set::new(
                    |id: LanguageServerId| targets@.take(0).contains(id) && dropped@.contains(id),
                ),
            ) =~= self@);
        }
        while i < targets.len()
            invariant
                self.wf(),
                i <= targets@.len(),
                living == (|id: LanguageServerId| !dropped@.contains(id)),
                self@ == old(self)@.remove_keys(
                    Set::new(
                        |id: LanguageServerId|
                            targets@.take(i as int).contains(id) && dropped@.contains(id),
                    ),
                ),
                match uri {
                    Some(uri) => tells(
                        notifications@,
                        targets@.take(i as int).filter(living),
                        uri@,
                    ),
                    None => notifications@.len() == 0,
                },
            decreases targets@.len() - i,
        {
            let id = targets[i];
            let ghost before = self@;
            let ghost told = targets@.take(i as int).filter(living);
            proof {
                let (short, long) = (targets@.take(i as int), targets@.take(i + 1));
                assert(long =~= short.push(id));
                assert(long.drop_last() =~= short);
                reveal(Seq::filter);
                assert(long.filter(living) == if living(id) {
                    told.push(id)
                } else {
                    told
                });
                assert forall|other: LanguageServerId| long.contains(other) <==> (short.contains(
                    other,
                ) || other == id) by {
                    if short.contains(other) {
                        let j = choose|j: int| 0 <= j < short.len() && short[j] == other;
                        assert(long[j] == other);
                    }
                    assert(long[i as int] == id);
                }
            }
            if is_listed(dropped, id) {
                self.remove_client(id);
            } else {
                match &uri {
                    Some(uri) => {
                        notifications.push(
                            Notification {
                                client_id: id,
                                event: FileEvent {
                                    uri: uri.clone(),
                                    typ: FileChangeType::Changed,
                                },
                            },
                        );
                    },
                    None => {},
                }
            }
            i = i + 1;
            proof {
                assert(self@ =~= old(self)@.remove_keys(
                    Set::new(
                        |id: LanguageServerId|
                            targets@.take(i as int).contains(id) && dropped@.contains(id),
                    ),
                ));
            }
        }
        proof {
            assert(targets@.take(i as int) =~= targets@);
        }
        notifications
    }

    /// Passes on that the file at `path` changed. `dropped` lists language
    /// servers that can no longer be reached. Those of them that registered for
    /// the file are forgotten; the others that did are told, where the path has
    /// a file URI.
    pub fn file_changed(&mut self, path: &str, dropped: &Vec<LanguageServerId>) -> (notifications:
        Vec<Notification>)
        requires
            old(self).wf(),
        ensures
            final(self).wf(),
            final(self)@ == after_file_changed(old(self)@, path@, dropped@),
            exists|told: Seq<LanguageServerId>| #[trigger]
                told.no_duplicates() && (forall|id: LanguageServerId| #[trigger]
                    told.contains(id) <==> hears(old(self)@, id, path@, dropped@)) && tells(
                    notifications@,
                    told,
                    uri::path_uri(path@)->0,
                ),
    {
        let targets = self.targets(path);
        let uri = uri::from_file_path(path);
        let ghost living = |id: LanguageServerId| !dropped@.contains(id);
        let notifications = self.deliver(&targets, dropped, uri);
        proof {
            assert(self@ =~= after_file_changed(old(self)@, path@, dropped@));
            let told = if uri is Some {
                targets@.filter(living)
            } else {
                Seq::empty()
            };
            lemma_filter(targets@, living);
            assert(told.no_duplicates());
        }
        notifications
    }
}

/// A filter keeps what satisfies it, and nothing twice that was not there twice.
proof fn lemma_filter<A>(s: Seq<A>, keep: spec_fn(A) -> bool)
    ensures
        s.no_duplicates() ==> s.filter(keep).no_duplicates(),
        forall|a: A| #[trigger] s.filter(keep).contains(a) <==> s.contains(a) && keep(a),
    decreases s.len(),
{
    reveal(Seq::filter);
    if s.len() > 0 {
        let front = s.drop_last();
        lemma_filter(front, keep);
        let kept = front.filter(keep);
        assert forall|a: A| s.contains(a) <==> (front.contains(a) || a == s.last()) by {
            if front.contains(a) {
                let j = choose|j: int| 0 <= j < front.len() && front[j] == a;
                assert(s[j] == a);
            }
            if s.contains(a) {
                let j = choose|j: int| 0 <= j < s.len() && s[j] == a;
                if j < front.len() {
                    assert(front[j] == a);
                }
            }
            assert(s[s.len() - 1] == s.last());
        }
        assert forall|a: A| kept.push(s.last()).contains(a) <==> (kept.contains(a) || a
            == s.last()) by {
            if kept.contains(a) {
                let j = choose|j: int| 0 <= j < kept.len() && kept[j] == a;
                assert(kept.push(s.last())[j] == a);
            }
            assert(kept.push(s.last())[kept.len() as int] == s.last());
        }
        if s.no_duplicates() {
            assert(front.no_duplicates());
            assert(!front.contains(s.last()));
            assert(!kept.contains(s.last()));
            assert(kept.push(s.last()).no_duplicates());
        }
        assert forall|a: A| #[trigger] s.filter(keep).contains(a) <==> s.contains(a) && keep(a) by {
            assert(kept.contains(a) <==> front.contains(a) && keep(a));
        }
    } else {
        assert(s.filter(keep) =~= s);
    }
}

impl<C> Default for Handler<C> {
    fn default() -> (handler: Self)
        ensures
            handler.wf(),
            handler@ == Map::<LanguageServerId, ClientView<C>>::empty(),
    {
        Self::new()
    }
}

impl<C> Handler<C> {
    /// Every language server in the registry has a registration.
    pub proof fn clients_are_registered(&self)
        requires
            self.wf(),
        ensures
            all_registered(self@),
    {
        assert forall|id: LanguageServerId| #[trigger] self@.contains_key(id) implies self@[id].registered
            != Map::<Seq<char>, Seq<Seq<char>>>::empty() by {
            let i = assoc::lemma_key(client_entries(self.clients@), id);
            assoc::lemma_empty(registration_entries(self.clients@[i].registered@));
        }
    }
}

/// A language server that registered hears of the changes that its globs match.
pub proof fn registered_clients_hear<C>(
    registry: Registry<C>,
    id: LanguageServerId,
    client: C,
    registration_id: Seq<char>,
    globs: Seq<Seq<char>>,
    path: Seq<char>,
)
    requires
        globs::any_matches(globs, path),
    ensures
        wants(after_register(registry, id, client, registration_id, Some(globs)), id, path),
{
    let after = after_register(registry, id, client, registration_id, Some(globs));
    let registered = registrations(registry, id).insert(registration_id, globs);
    assert(registered.contains_key(registration_id));
    assert(after[id].registered[registration_id] == globs);
}

/// What one language server registers makes no difference to another.
pub proof fn registrations_are_separate<C>(
    registry: Registry<C>,
    id: LanguageServerId,
    client: C,
    registration_id: Seq<char>,
    set: Option<Seq<Seq<char>>>,
    other: LanguageServerId,
    path: Seq<char>,
)
    requires
        other != id,
    ensures
        wants(after_register(registry, id, client, registration_id, set), other, path) == wants(
            registry,
            other,
            path,
        ),
        wants(after_unregister(registry, id, registration_id), other, path) == wants(
            registry,
            other,
            path,
        ),
        wants(registry.remove(id), other, path) == wants(registry, other, path),
{
    let a = after_register(registry, id, client, registration_id, set);
    let b = after_unregister(registry, id, registration_id);
    let c = registry.remove(id);
    assert(a.contains_key(other) == registry.contains_key(other));
    assert(b.contains_key(other) == registry.contains_key(other));
    assert(c.contains_key(other) == registry.contains_key(other));
    if registry.contains_key(other) {
        assert(a[other] == registry[other]);
        assert(b[other] == registry[other]);
        assert(c[other] == registry[other]);
    }
}

/// Withdrawing a registration undoes it, where it is a new one of a language
/// server that is not known yet or is reached as before.
pub proof fn unregister_undoes_register<C>(
    registry: Registry<C>,
    id: LanguageServerId,
    client: C,
    registration_id: Seq<char>,
    globs: Seq<Seq<char>>,
)
    requires
        all_registered(registry),
        !registrations(registry, id).contains_key(registration_id),
        registry.contains_key(id) ==> registry[id].client == client,
    ensures
        after_unregister(
            after_register(registry, id, client, registration_id, Some(globs)),
            id,
            registration_id,
        ) == registry,
{
    let before = registrations(registry, id);
    let more = before.insert(registration_id, globs);
    assert(more.contains_key(registration_id));
    assert(more.remove(registration_id) =~= before);
    let after = after_register(registry, id, client, registration_id, Some(globs));
    if registry.contains_key(id) {
        assert(after.insert(id, ClientView { client, registered: before }) =~= registry);
    } else {
        assert(after.remove(id) =~= registry);
    }
}

/// Registering again under the same id replaces the earlier registration.
pub proof fn register_replaces<C>(
    registry: Registry<C>,
    id: LanguageServerId,
    earlier: C,
    client: C,
    registration_id: Seq<char>,
    globs: Seq<Seq<char>>,
    set: Option<Seq<Seq<char>>>,
)
    ensures
        after_register(
            after_register(registry, id, earlier, registration_id, Some(globs)),
            id,
            client,
            registration_id,
            set,
        ) == after_register(registry, id, client, registration_id, set),
{
    let before = registrations(registry, id);
    let one = before.insert(registration_id, globs);
    let after = after_register(registry, id, earlier, registration_id, Some(globs));
    assert(one.contains_key(registration_id));
    assert(after[id].registered == one);
    match set {
        Some(set) => {
            let registered = before.insert(registration_id, set);
            assert(one.insert(registration_id, set) =~= registered);
            assert(registered.contains_key(registration_id));
            assert(after.insert(id, ClientView { client, registered }) =~= registry.insert(
                id,
                ClientView { client, registered },
            ));
        },
        None => {
            let registered = before.remove(registration_id);
            assert(one.remove(registration_id) =~= registered);
            assert(after.remove(id) =~= registry.remove(id));
            assert(after.insert(id, ClientView { client, registered }) =~= registry.insert(
                id,
                ClientView { client, registered },
            ));
        },
    }
}

/// A registration whose globs make no set leaves none behind under its id, and
/// no trace of a language server that had no other.
pub proof fn refused_registration_is_gone<C>(
    registry: Registry<C>,
    id: LanguageServerId,
    client: C,
    registration_id: Seq<char>,
)
    ensures
        !registrations(
            after_register(registry, id, client, registration_id, None),
            id,
        ).contains_key(registration_id),
        !registry.contains_key(id) ==> after_register(registry, id, client, registration_id, None)
            == registry,
{
    let left = registrations(registry, id).remove(registration_id);
    if !registry.contains_key(id) {
        assert(left =~= Map::<Seq<char>, Seq<Seq<char>>>::empty());
        assert(registry.remove(id) =~= registry);
    }
}

/// Passing on a change forgets a language server only if it registered for the
/// file and is gone, and leaves the others as they are.
pub proof fn only_dropped_targets_are_forgotten<C>(
    registry: Registry<C>,
    path: Seq<char>,
    dropped: Seq<LanguageServerId>,
    id: LanguageServerId,
)
    requires
        registry.contains_key(id),
        !wants(registry, id, path) || !dropped.contains(id),
    ensures
        after_file_changed(registry, path, dropped).contains_key(id),
        after_file_changed(registry, path, dropped)[id] == registry[id],
{
}

/// Something that the registry hears of: the change of a file, when the language
/// servers `dropped` cannot be reached, a registration with the globs it came
/// down to, if they made a set, the withdrawal of one, or the end of a language
/// server.
#[verifier::ext_equal]
pub enum EventView<C> {
    FileChanged { path: Seq<char>, dropped: Seq<LanguageServerId> },
    Register {
        id: LanguageServerId,
        client: C,
        registration_id: Seq<char>,
        set: Option<Seq<Seq<char>>>,
    },
    Unregister { id: LanguageServerId, registration_id: Seq<char> },
    RemoveClient { id: LanguageServerId },
}

/// The registry after an event.
pub open spec fn after_event<C>(registry: Registry<C>, event: EventView<C>) -> Registry<C> {
    match event {
        EventView::FileChanged { path, dropped } => after_file_changed(registry, path, dropped),
        EventView::Register { id, client, registration_id, set } => after_register(
            registry,
            id,
            client,
            registration_id,
            set,
        ),
        EventView::Unregister { id, registration_id } => after_unregister(
            registry,
            id,
            registration_id,
        ),
        EventView::RemoveClient { id } => registry.remove(id),
    }
}

/// The registry after a run of events.
pub open spec fn after_events<C>(
    registry: Registry<C>,
    events: Seq<EventView<C>>,
) -> Registry<C>
    decreases events.len(),
{
    if events.len() == 0 {
        registry
    } else {
        after_event(after_events(registry, events.drop_last()), events.last())
    }
}

/// The registrations of a language server that are in force after a run of
/// events, with their globs: those that were made and have not since been
/// replaced or withdrawn, unless the language server has been removed, or been
/// found dropped on a change that they match.
pub open spec fn in_force<C>(events: Seq<EventView<C>>, id: LanguageServerId) -> Map<
    Seq<char>,
    Seq<Seq<char>>,
>
    decreases events.len(),
{
    if events.len() == 0 {
        Map::empty()
    } else {
        let before = in_force(events.drop_last(), id);
        match events.last() {
            EventView::Register { id: i, registration_id, set, .. } => if i != id {
                before
            } else {
                match set {
                    Some(globs) => before.insert(registration_id, globs),
                    None => before.remove(registration_id),
                }
            },
            EventView::Unregister { id: i, registration_id } => if i != id {
                before
            } else {
                before.remove(registration_id)
            },
            EventView::RemoveClient { id: i } => if i != id {
                before
            } else {
                Map::empty()
            },
            EventView::FileChanged { path, dropped } => if dropped.contains(id) && covers(
                before,
                path,
            ) {
                Map::empty()
            } else {
                before
            },
        }
    }
}

/// How a language server was to be reached when it last registered.
pub open spec fn latest_client<C>(events: Seq<EventView<C>>, id: LanguageServerId) -> Option<C>
    decreases events.len(),
{
    if events.len() == 0 {
        None
    } else {
        match events.last() {
            EventView::Register { id: i, client, .. } if i == id => Some(client),
            _ => latest_client(events.drop_last(), id),
        }
    }
}

/// The registry holds just the registrations that are in force, and reaches
/// their language servers as these last asked for.
pub proof fn registry_holds_what_is_in_force<C>(events: Seq<EventView<C>>, id: LanguageServerId)
    ensures
        ({
            let registry = after_events(Map::empty(), events);
            &&& registrations(registry, id) == in_force(events, id)
            &&& registry.contains_key(id) ==> in_force(events, id) != Map::<
                Seq<char>,
                Seq<Seq<char>>,
            >::empty()
            &&& registry.contains_key(id) ==> latest_client(events, id) == Some(
                registry[id].client,
            )
        }),
    decreases events.len(),
{
    if events.len() > 0 {
        let before = after_events(Map::empty(), events.drop_last());
        registry_holds_what_is_in_force(events.drop_last(), id);
        let none = Map::<Seq<char>, Seq<Seq<char>>>::empty();
        assert(registrations(after_events(Map::empty(), events), id) =~= in_force(events, id)) by {
            match events.last() {
                EventView::Unregister { registration_id, .. } => {
                    assert(none.remove(registration_id) =~= none);
                },
                _ => {},
            }
        }
    }
}

/// After any run of events, a language server is told of a change just where a
/// registration of it in force matches the file, it can be reached, and the path
/// has a file URI; and it is reached as it last asked for.
pub proof fn clients_hear_what_is_in_force<C>(
    events: Seq<EventView<C>>,
    id: LanguageServerId,
    path: Seq<char>,
    dropped: Seq<LanguageServerId>,
)
    ensures
        ({
            let registry = after_events(Map::empty(), events);
            &&& hears(registry, id, path, dropped) <==> covers(in_force(events, id), path)
                && !dropped.contains(id) && uri::path_uri(path) is Some
            &&& hears(registry, id, path, dropped) ==> latest_client(events, id) == Some(
                registry[id].client,
            )
        }),
{
    registry_holds_what_is_in_force(events, id);
}

/// Whether two registries have the same of a language server.
pub open spec fn same_at<C>(a: Registry<C>, b: Registry<C>, id: LanguageServerId) -> bool {
    &&& a.contains_key(id) == b.contains_key(id)
    &&& a.contains_key(id) ==> a[id] == b[id]
}

/// What becomes of a language server depends on what the registry has of it
/// alone.
proof fn lemma_same_at<C>(
    a: Registry<C>,
    b: Registry<C>,
    events: Seq<EventView<C>>,
    id: LanguageServerId,
)
    requires
        same_at(a, b, id),
    ensures
        same_at(after_events(a, events), after_events(b, events), id),
    decreases events.len(),
{
    if events.len() > 0 {
        lemma_same_at(a, b, events.drop_last(), id);
        let (x, y) = (after_events(a, events.drop_last()), after_events(b, events.drop_last()));
        match events.last() {
            EventView::FileChanged { path, .. } => {
                assert(wants(x, id, path) == wants(y, id, path));
            },
            EventView::Register { id: i, .. } => {
                assert(i == id ==> registrations(x, id) == registrations(y, id));
            },
            _ => {},
        }
    }
}

/// A run of events does what its parts do one after the other.
proof fn lemma_after_both<C>(
    registry: Registry<C>,
    first: Seq<EventView<C>>,
    second: Seq<EventView<C>>,
)
    ensures
        after_events(registry, first + second) == after_events(
            after_events(registry, first),
            second,
        ),
    decreases second.len(),
{
    if second.len() == 0 {
        assert(first + second =~= first);
    } else {
        lemma_after_both(registry, first, second.drop_last());
        assert((first + second).drop_last() =~= first + second.drop_last());
    }
}

/// Whether a language server registers in a run of events.
pub open spec fn registers<C>(events: Seq<EventView<C>>, id: LanguageServerId) -> bool {
    exists|k: int|
        0 <= k < events.len() && ((#[trigger] events[k]) matches EventView::Register { id: i, .. }
            && i == id)
}

/// A language server that is not known stays so until it registers.
proof fn lemma_unknown_until_registered<C>(
    registry: Registry<C>,
    events: Seq<EventView<C>>,
    id: LanguageServerId,
)
    requires
        !registry.contains_key(id),
        !registers(events, id),
    ensures
        !after_events(registry, events).contains_key(id),
    decreases events.len(),
{
    if events.len() > 0 {
        let front = events.drop_last();
        assert forall|k: int| 0 <= k < front.len() implies !((#[trigger] front[k]) matches
            EventView::Register { id: i, .. } && i == id) by {
            assert(front[k] == events[k]);
        }
        lemma_unknown_until_registered(registry, front, id);
        assert(events[events.len() - 1] == events.last());
    }
}

/// From its removal to its next registration a language server hears of
/// nothing, whatever comes in between.
pub proof fn removed_clients_hear_nothing<C>(
    registry: Registry<C>,
    before: Seq<EventView<C>>,
    id: LanguageServerId,
    after: Seq<EventView<C>>,
    path: Seq<char>,
    dropped: Seq<LanguageServerId>,
)
    requires
        !registers(after, id),
    ensures
        !hears(
            after_events(registry, before.push(EventView::RemoveClient { id }) + after),
            id,
            path,
            dropped,
        ),
{
    let first = before.push(EventView::RemoveClient { id });
    lemma_after_both(registry, first, after);
    lemma_unknown_until_registered(after_events(registry, first), after, id);
}

/// What a language server registered before its removal never returns: it is
/// known just as if it had not been known before.
pub proof fn removed_registrations_never_return<C>(
    registry: Registry<C>,
    before: Seq<EventView<C>>,
    id: LanguageServerId,
    after: Seq<EventView<C>>,
)
    ensures
        same_at(
            after_events(registry, before.push(EventView::RemoveClient { id }) + after),
            after_events(Map::empty(), after),
            id,
        ),
{
    let first = before.push(EventView::RemoveClient { id });
    lemma_after_both(registry, first, after);
    lemma_same_at(after_events(registry, first), Map::empty(), after, id);
}

/// The other language servers are reached and told of changes as if the one had
/// not been removed.
pub proof fn removal_leaves_others_alone<C>(
    registry: Registry<C>,
    before: Seq<EventView<C>>,
    id: LanguageServerId,
    after: Seq<EventView<C>>,
    other: LanguageServerId,
    path: Seq<char>,
    dropped: Seq<LanguageServerId>,
)
    requires
        other != id,
    ensures
        ({
            let with = after_events(
                registry,
                before.push(EventView::RemoveClient { id }) + after,
            );
            let without = after_events(registry, before + after);
            &&& same_at(with, without, other)
            &&& hears(with, other, path, dropped) == hears(without, other, path, dropped)
        }),
{
    let first = before.push(EventView::RemoveClient { id });
    lemma_after_both(registry, first, after);
    lemma_after_both(registry, before, after);
    assert(first.drop_last() =~= before);
    lemma_same_at(after_events(registry, first), after_events(registry, before), after, other);
}

} // verus!
