use file_watch::file_event::{
    prepend_base, relative_glob, resolve_glob_pattern, DidChangeWatchedFilesRegistrationOptions,
    FileChangeType, FileEvent, FileSystemWatcher, GlobPattern, Handler, LanguageServerId,
    Notification, OneOf, Registered, RelativePattern, WorkspaceFolder,
};

fn relative(base: &str, pattern: &str) -> GlobPattern {
    GlobPattern::Relative(RelativePattern {
        base_uri: OneOf::Right(url::Url::parse(base).unwrap().to_string()),
        pattern: pattern.to_owned(),
    })
}

fn options(patterns: Vec<GlobPattern>) -> DidChangeWatchedFilesRegistrationOptions {
    DidChangeWatchedFilesRegistrationOptions {
        watchers: patterns
            .into_iter()
            .map(|glob_pattern| FileSystemWatcher { glob_pattern })
            .collect(),
    }
}

fn glob(pattern: &str) -> GlobPattern {
    GlobPattern::String(pattern.to_owned())
}

fn changed(id: u64, uri: &str) -> Notification {
    Notification {
        client_id: LanguageServerId(id),
        event: FileEvent { uri: uri.to_owned(), typ: FileChangeType::Changed },
    }
}

#[test]
fn string_pattern_passes_through() {
    let pattern = GlobPattern::String("**/*.rs".to_owned());
    assert_eq!(resolve_glob_pattern(pattern).as_deref(), Some("**/*.rs"));
}

#[test]
fn relative_pattern_prepends_base_path() {
    let pattern = relative("file:///workspace/crate", "**/*.rs");
    assert_eq!(resolve_glob_pattern(pattern).as_deref(), Some("/workspace/crate/**/*.rs"));
}

#[test]
fn relative_pattern_strips_trailing_slash_from_base() {
    // Some servers terminate the base URI with `/`. Composing naively would
    // produce `//**/*.rs`, which globset treats as a different pattern than
    // `/**/*.rs`.
    let pattern = relative("file:///workspace/crate/", "**/*.rs");
    assert_eq!(resolve_glob_pattern(pattern).as_deref(), Some("/workspace/crate/**/*.rs"));
}

#[test]
fn relative_pattern_resolved_glob_matches_descendant() {
    // The resolved string, fed back through globset, must match an absolute
    // path inside the base.
    let pattern = relative("file:///workspace/crate", "**/*.rs");
    let resolved = resolve_glob_pattern(pattern).unwrap();
    let glob = globset::GlobBuilder::new(&resolved).build().unwrap().compile_matcher();
    assert!(glob.is_match("/workspace/crate/src/lib.rs"));
    assert!(glob.is_match("/workspace/crate/src/nested/mod.rs"));
    assert!(!glob.is_match("/workspace/other/src/lib.rs"));
}

#[test]
fn relative_pattern_with_workspace_folder_base() {
    let pattern = GlobPattern::Relative(RelativePattern {
        base_uri: OneOf::Left(WorkspaceFolder {
            uri: url::Url::parse("file:///workspace/crate").unwrap().to_string(),
            name: "crate".to_owned(),
        }),
        pattern: "**/Cargo.toml".to_owned(),
    });
    assert_eq!(
        resolve_glob_pattern(pattern).as_deref(),
        Some("/workspace/crate/**/Cargo.toml"),
    );
}

#[test]
fn non_file_base_uri_is_skipped() {
    let pattern = relative("https://example.com/", "**/*.rs");
    assert_eq!(resolve_glob_pattern(pattern), None);
}

#[test]
fn hostless_uri_of_another_scheme_is_skipped() {
    let pattern = relative("untitled:/workspace/crate", "**/*.rs");
    assert_eq!(resolve_glob_pattern(pattern), None);
}

#[test]
fn file_scheme_in_capitals_is_a_file_uri() {
    let pattern = GlobPattern::Relative(RelativePattern {
        base_uri: OneOf::Right("FILE:///workspace".to_owned()),
        pattern: "*.c".to_owned(),
    });
    assert_eq!(resolve_glob_pattern(pattern).as_deref(), Some("/workspace/*.c"));
}

#[test]
fn text_that_is_no_uri_is_skipped() {
    let pattern = GlobPattern::Relative(RelativePattern {
        base_uri: OneOf::Right("/workspace".to_owned()),
        pattern: "*.c".to_owned(),
    });
    assert_eq!(resolve_glob_pattern(pattern), None);
}

#[test]
fn escapes_in_a_file_uri_are_decoded() {
    let pattern = relative("file:///my%20work", "*.c");
    assert_eq!(resolve_glob_pattern(pattern).as_deref(), Some("/my work/*.c"));
}

#[test]
fn root_as_base_gives_one_slash() {
    let pattern = relative("file:///", "**/*.rs");
    assert_eq!(resolve_glob_pattern(pattern).as_deref(), Some("/**/*.rs"));
}

#[test]
fn bases_are_prepended_with_slashes() {
    assert_eq!(prepend_base("C:\\work\\crate\\", "*.rs"), "C:/work/crate/*.rs");
    assert_eq!(prepend_base("/work///", "*.rs"), "/work/*.rs");
    assert_eq!(prepend_base("", "*.rs"), "/*.rs");
}

#[test]
fn relative_glob_needs_a_file_scheme_and_a_path() {
    let some = |s: &str| Some(s.to_owned());
    assert_eq!(relative_glob(some("file"), some("/a/"), "b"), some("/a/b"));
    assert_eq!(relative_glob(some("https"), some("/a/"), "b"), None);
    assert_eq!(relative_glob(None, some("/a/"), "b"), None);
    assert_eq!(relative_glob(some("file"), None, "b"), None);
}

#[test]
fn registered_client_is_told_of_matching_changes() {
    let mut handler: Handler<&str> = Handler::new();
    handler.register(
        LanguageServerId(7),
        "rust",
        "r1".to_owned(),
        options(vec![glob("**/*.toml"), relative("file:///ws", "**/*.rs")]),
    );
    assert_eq!(handler.client(LanguageServerId(7)), Some(&"rust"));
    assert_eq!(handler.targets("/ws/src/lib.rs"), vec![LanguageServerId(7)]);
    assert_eq!(handler.targets("/other/lib.rs"), vec![]);
    let told = handler.file_changed("/ws/my file.rs", &vec![]);
    assert_eq!(told, vec![changed(7, "file:///ws/my%20file.rs")]);
    assert_eq!(handler.file_changed("/other/lib.rs", &vec![]), vec![]);
    assert_eq!(
        handler.file_changed("/other/Cargo.toml", &vec![]),
        vec![changed(7, "file:///other/Cargo.toml")],
    );
}

#[test]
fn path_without_file_uri_tells_nobody() {
    let mut handler: Handler<()> = Handler::default();
    handler.register(LanguageServerId(1), (), "a".to_owned(), options(vec![glob("**")]));
    assert_eq!(handler.targets("lib.rs"), vec![LanguageServerId(1)]);
    assert_eq!(handler.file_changed("lib.rs", &vec![]), vec![]);
    assert_eq!(handler.client(LanguageServerId(1)), Some(&()));
}

#[test]
fn patterns_that_are_no_globs_are_left_out() {
    let mut handler: Handler<()> = Handler::new();
    let report = handler.register(
        LanguageServerId(1),
        (),
        "a".to_owned(),
        options(vec![
            glob("[a"),
            glob("*.rs"),
            relative("https://example.com/", "**"),
            glob("*.h"),
        ]),
    );
    assert_eq!(report, Registered { in_force: true, skipped: vec![0, 2] });
    assert_eq!(handler.targets("/a.rs"), vec![LanguageServerId(1)]);
    assert_eq!(handler.targets("/a"), vec![]);
}

#[test]
fn registration_without_globs_is_kept_and_matches_nothing() {
    let mut handler: Handler<()> = Handler::new();
    handler.register(LanguageServerId(1), (), "a".to_owned(), options(vec![]));
    assert_eq!(handler.client(LanguageServerId(1)), Some(&()));
    assert_eq!(handler.targets("/a"), vec![]);
}

#[test]
fn dropped_clients_are_forgotten_once_they_would_be_told() {
    let mut handler: Handler<u8> = Handler::new();
    handler.register(LanguageServerId(1), 1, "a".to_owned(), options(vec![glob("*.rs")]));
    handler.register(LanguageServerId(2), 2, "a".to_owned(), options(vec![glob("*.rs")]));
    handler.register(LanguageServerId(3), 3, "a".to_owned(), options(vec![glob("*.c")]));
    let dropped = vec![LanguageServerId(1), LanguageServerId(3)];
    let told = handler.file_changed("/a.rs", &dropped);
    assert_eq!(told, vec![changed(2, "file:///a.rs")]);
    assert_eq!(handler.client(LanguageServerId(1)), None);
    assert_eq!(handler.client(LanguageServerId(2)), Some(&2));
    assert_eq!(handler.client(LanguageServerId(3)), Some(&3));
}

#[test]
fn delivery_follows_the_targets() {
    let mut handler: Handler<u8> = Handler::new();
    handler.register(LanguageServerId(1), 1, "a".to_owned(), options(vec![glob("*")]));
    handler.register(LanguageServerId(2), 2, "a".to_owned(), options(vec![glob("*")]));
    let targets = vec![LanguageServerId(2), LanguageServerId(1)];
    let told = handler.deliver(&targets, &vec![], Some("file:///x".to_owned()));
    assert_eq!(told, vec![changed(2, "file:///x"), changed(1, "file:///x")]);
    assert_eq!(handler.deliver(&targets, &vec![LanguageServerId(2)], None), vec![]);
    assert_eq!(handler.client(LanguageServerId(2)), None);
    assert_eq!(handler.client(LanguageServerId(1)), Some(&1));
}

#[test]
fn unregistering_the_only_registration_removes_the_client() {
    let mut handler: Handler<()> = Handler::new();
    let id = LanguageServerId(1);
    handler.register(id, (), "a".to_owned(), options(vec![glob("*.rs")]));
    handler.register(id, (), "b".to_owned(), options(vec![glob("*.c")]));
    handler.unregister(id, "a".to_owned());
    assert_eq!(handler.targets("/x.rs"), vec![]);
    assert_eq!(handler.targets("/x.c"), vec![id]);
    handler.unregister(id, "missing".to_owned());
    assert_eq!(handler.targets("/x.c"), vec![id]);
    handler.unregister(id, "b".to_owned());
    assert_eq!(handler.client(id), None);
    handler.unregister(id, "b".to_owned());
    assert_eq!(handler.client(id), None);
}

#[test]
fn registering_again_replaces_globs_and_client() {
    let mut handler: Handler<u8> = Handler::new();
    let id = LanguageServerId(1);
    handler.register(id, 1, "a".to_owned(), options(vec![glob("*.rs")]));
    handler.register(id, 2, "a".to_owned(), options(vec![glob("*.c")]));
    assert_eq!(handler.client(id), Some(&2));
    assert_eq!(handler.targets("/x.rs"), vec![]);
    assert_eq!(handler.targets("/x.c"), vec![id]);
}

#[test]
fn refused_set_drops_the_registration() {
    let mut handler: Handler<u8> = Handler::new();
    let id = LanguageServerId(1);
    handler.set_registration(id, 1, "a".to_owned(), None);
    assert_eq!(handler.client(id), None);
    handler.register(id, 1, "a".to_owned(), options(vec![glob("*.rs")]));
    handler.register(id, 1, "b".to_owned(), options(vec![glob("*.c")]));
    handler.set_registration(id, 2, "a".to_owned(), None);
    assert_eq!(handler.client(id), Some(&2));
    assert_eq!(handler.targets("/x.rs"), vec![]);
    assert_eq!(handler.targets("/x.c"), vec![id]);
    handler.set_registration(id, 3, "b".to_owned(), None);
    assert_eq!(handler.client(id), None);
}

#[test]
fn removed_client_hears_nothing() {
    let mut handler: Handler<u8> = Handler::new();
    handler.register(LanguageServerId(1), 1, "a".to_owned(), options(vec![glob("*")]));
    handler.register(LanguageServerId(2), 2, "a".to_owned(), options(vec![glob("*")]));
    handler.remove_client(LanguageServerId(1));
    handler.remove_client(LanguageServerId(9));
    assert_eq!(handler.targets("/x"), vec![LanguageServerId(2)]);
}

#[test]
fn simple_globs_always_register() {
    let cases = [
        ("/ws/Cargo.toml", "/ws/Cargo.toml", "/ws/sub/Cargo.toml"),
        ("**/Cargo.toml", "/ws/sub/Cargo.toml", "/ws/Cargo.lock"),
        ("**/src/lib.rs", "/ws/src/lib.rs", "/ws/xsrc/lib.rs"),
        ("*.rs", "/ws/src/lib.rs", "/ws/lib.c"),
        ("**/*.rs", "/ws/src/lib.rs", "/ws/lib.c"),
        ("**/*.tar.gz", "/ws/a.tar.gz", "/ws/a.gz"),
        ("/ws/src/**", "/ws/src/a/lib.rs", "/ws/src"),
        ("/ws/Cargo*", "/ws/Cargo.lock", "/ws/sub/Cargo.lock"),
    ];
    for (pattern, matching, other) in cases {
        let mut handler: Handler<()> = Handler::new();
        let id = LanguageServerId(1);
        handler.register(id, (), "a".to_owned(), options(vec![glob(pattern)]));
        assert_eq!(handler.client(id), Some(&()), "{}", pattern);
        assert_eq!(handler.targets(matching), vec![id], "{}", pattern);
        assert_eq!(handler.targets(other), vec![], "{}", pattern);
    }
}

#[test]
fn runs_of_events_leave_what_is_in_force() {
    let mut handler: Handler<u8> = Handler::new();
    let (one, two) = (LanguageServerId(1), LanguageServerId(2));
    handler.register(one, 1, "a".to_owned(), options(vec![glob("*.rs")]));
    handler.register(two, 2, "a".to_owned(), options(vec![glob("*.rs")]));
    handler.register(one, 11, "b".to_owned(), options(vec![glob("*.c")]));
    handler.unregister(one, "a".to_owned());
    assert_eq!(handler.file_changed("/x.rs", &vec![]), vec![changed(2, "file:///x.rs")]);
    assert_eq!(handler.file_changed("/x.c", &vec![]), vec![changed(1, "file:///x.c")]);
    assert_eq!(handler.client(one), Some(&11));
    handler.remove_client(one);
    assert_eq!(handler.file_changed("/x.c", &vec![]), vec![]);
    handler.register(one, 12, "c".to_owned(), options(vec![glob("*.h")]));
    assert_eq!(handler.file_changed("/x.c", &vec![]), vec![]);
    assert_eq!(handler.file_changed("/x.h", &vec![]), vec![changed(1, "file:///x.h")]);
    assert_eq!(handler.file_changed("/x.h", &vec![one]), vec![]);
    assert_eq!(handler.file_changed("/x.h", &vec![]), vec![]);
    assert_eq!(handler.file_changed("/x.rs", &vec![]), vec![changed(2, "file:///x.rs")]);
}

#[test]
fn withdrawing_a_new_registration_restores_the_others() {
    let mut handler: Handler<u8> = Handler::new();
    let id = LanguageServerId(1);
    handler.register(id, 1, "a".to_owned(), options(vec![glob("*.rs")]));
    handler.register(id, 1, "b".to_owned(), options(vec![glob("*.c")]));
    handler.unregister(id, "b".to_owned());
    assert_eq!(handler.client(id), Some(&1));
    assert_eq!(handler.targets("/x.rs"), vec![id]);
    assert_eq!(handler.targets("/x.c"), vec![]);
}

#[test]
fn base_uris_on_the_local_host_are_files() {
    let pattern = GlobPattern::Relative(RelativePattern {
        base_uri: OneOf::Right("file://localhost/ws".to_owned()),
        pattern: "*.c".to_owned(),
    });
    assert_eq!(resolve_glob_pattern(pattern).as_deref(), Some("/ws/*.c"));
    let pattern = relative("file://elsewhere/ws", "*.c");
    assert_eq!(resolve_glob_pattern(pattern), None);
}

#[test]
fn relative_patterns_register() {
    let mut handler: Handler<()> = Handler::new();
    let id = LanguageServerId(1);
    let report = handler.register(
        id,
        (),
        "a".to_owned(),
        options(vec![
            relative("file:///workspace/crate", "**/*.rs"),
            relative("file:///workspace/web", "**/*.{ts,js}"),
            relative("file:///workspace/py", "*.py[cod]"),
        ]),
    );
    assert_eq!(report, Registered { in_force: true, skipped: vec![] });
    assert_eq!(handler.targets("/workspace/crate/src/lib.rs"), vec![id]);
    assert_eq!(handler.targets("/workspace/crate/src/nested/mod.rs"), vec![id]);
    assert_eq!(handler.targets("/workspace/other/src/lib.rs"), vec![]);
    assert_eq!(handler.targets("/workspace/web/a/b.ts"), vec![id]);
    assert_eq!(handler.targets("/workspace/py/a.pyc"), vec![id]);
    assert_eq!(handler.targets("/workspace/py/a.pyx"), vec![]);
}

/// A glob of two hundred characters.
fn long(front: &str, part: &str, back: &str) -> GlobPattern {
    let mut text = front.to_owned();
    while text.chars().count() + part.chars().count() + back.chars().count() <= 200 {
        text.push_str(part);
    }
    text.push_str(back);
    GlobPattern::String(text)
}

fn fifty(make: impl Fn() -> GlobPattern) -> bool {
    let mut handler: Handler<()> = Handler::new();
    let patterns = (0..50).map(|_| make()).collect();
    let report = handler.register(LanguageServerId(1), (), "a".to_owned(), options(patterns));
    assert_eq!(report.skipped, vec![]);
    report.in_force
}

#[test]
fn fifty_long_globs_register() {
    assert!(fifty(|| long("", "*?", "/x")));
    assert!(fifty(|| long("/", "a/**/", "x?")));
    assert!(fifty(|| long("?", "[!\u{10ffff}-\u{10ffff}a]", "")));
    assert!(fifty(|| long("?{a", ",\u{1f600}", "}")));
    assert!(fifty(|| long("?{a", ",\u{1f600}\u{1f601}\u{1f602}", "}")));
    assert!(fifty(|| long("?", "\u{1f600}", "")));
}

#[test]
fn fifty_nested_globs_register() {
    let nested = |open: &str, close: &str| {
        let deep = 198 / (open.len() + close.len());
        GlobPattern::String(format!("?{}x{}", open.repeat(deep), close.repeat(deep)))
    };
    assert!(fifty(|| nested("{", "}")));
    assert!(fifty(|| nested("{b", "}")));
    assert!(fifty(|| nested("{a,b", "}")));
    assert!(fifty(|| nested("{a,", "}")));
}
