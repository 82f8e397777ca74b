use file_watch::ignore_rules::{
    build_ignore, dir_files, nested_ignore_dir, root_files, HierarchicalIgnore, IgnoreFile,
};
use file_watch::path::FilePath;

fn at(path: &str) -> FilePath {
    FilePath::parse(path)
}

fn file(path: &str, lines: &[&str]) -> IgnoreFile {
    IgnoreFile { path: at(path), lines: lines.iter().map(|l| l.to_string()).collect() }
}

fn matches(ignore: &HierarchicalIgnore, path: &str) -> bool {
    ignore.matches(&at(path), false)
}

#[test]
fn root_pattern_ignores_matching_file() {
    let ignore = build_ignore(&at("/ws"), &vec![file("/ws/.gitignore", &["*.tmp"])]);

    assert!(matches(&ignore, "/ws/foo.tmp"));
    assert!(!matches(&ignore, "/ws/foo.rs"));
}

#[test]
fn nested_pattern_scopes_to_subdirectory() {
    let ignore = build_ignore(&at("/ws"), &vec![file("/ws/sub/.gitignore", &["secret"])]);

    // Pattern is scoped to /sub: matches /sub/secret, not /secret.
    assert!(matches(&ignore, "/ws/sub/secret"));
    assert!(!matches(&ignore, "/ws/secret"));
}

#[test]
fn deeper_whitelist_overrides_shallower_ignore() {
    let ignore = build_ignore(
        &at("/ws"),
        &vec![
            file("/ws/.gitignore", &["*.log"]),
            file("/ws/keep/.gitignore", &["!important.log"]),
        ],
    );

    assert!(matches(&ignore, "/ws/foo.log"));
    assert!(matches(&ignore, "/ws/keep/other.log"));
    assert!(!matches(&ignore, "/ws/keep/important.log"));
}

#[test]
fn git_directory_is_always_ignored() {
    // The unconditional rule does not depend on any file.
    let ignore = build_ignore(&at("/ws"), &vec![]);

    assert!(matches(&ignore, "/ws/.git/HEAD"));
    assert!(matches(&ignore, "/ws/.git/objects/pack"));
}

#[test]
fn no_rule_brings_the_git_directory_back() {
    let ignore = build_ignore(
        &at("/ws"),
        &vec![file("/ws/.gitignore", &["!*", "!HEAD"]), file("/ws/.git/.ignore", &["!*"])],
    );

    assert!(matches(&ignore, "/ws/.git/HEAD"));
    assert!(matches(&ignore, "/ws/.git/refs/heads"));
    assert!(!matches(&ignore, "/ws/HEAD"));
}

#[test]
fn nested_git_directories_are_ignored_by_the_root_rule() {
    let ignore = build_ignore(&at("/ws"), &vec![]);

    assert!(matches(&ignore, "/ws/sub/.git/HEAD"));
    assert!(ignore.matches(&at("/ws/.git"), true));
    assert!(!ignore.matches(&at("/ws/.git"), false));
    assert!(!matches(&ignore, "/ws/.github/workflows"));
}

#[test]
fn all_root_files_count_and_the_last_rule_wins() {
    let ignore = build_ignore(
        &at("/ws"),
        &vec![
            file("/ws/.helix/ignore", &["!c.o"]),
            file("/ws/.ignore", &["!b.o", "d.o"]),
            file("/ws/.gitignore", &["*.o", "!d.o"]),
        ],
    );

    assert!(matches(&ignore, "/ws/a.o"));
    assert!(!matches(&ignore, "/ws/b.o"));
    assert!(!matches(&ignore, "/ws/c.o"));
    assert!(matches(&ignore, "/ws/d.o"));
}

#[test]
fn both_files_of_a_directory_count() {
    let ignore = build_ignore(
        &at("/ws"),
        &vec![file("/ws/sub/.gitignore", &["a"]), file("/ws/sub/.ignore", &["b", "!a"])],
    );

    assert!(!matches(&ignore, "/ws/sub/a"));
    assert!(matches(&ignore, "/ws/sub/b"));
    assert!(!matches(&ignore, "/ws/b"));
}

#[test]
fn editor_rules_count_only_in_the_root() {
    let ignore = build_ignore(&at("/ws"), &vec![file("/ws/sub/.helix/ignore", &["a"])]);

    assert!(!matches(&ignore, "/ws/sub/a"));
    assert!(!matches(&ignore, "/ws/sub/.helix/a"));
}

#[test]
fn directories_above_the_root_are_not_asked() {
    let mut ignore = build_ignore(&at("/a/ws"), &vec![file("/a/.gitignore", &["x", "y"])]);

    assert!(!matches(&ignore, "/a/ws/x"));
    // Outside of the workspace every directory is asked.
    assert!(matches(&ignore, "/a/x"));
    ignore.add_matcher(at("/a/ws/sub"), None);
    assert!(!matches(&ignore, "/a/ws/sub/x"));
}

#[test]
fn comments_blank_lines_and_byte_order_marks_do_not_count() {
    let ignore = build_ignore(
        &at("/ws"),
        &vec![file("/ws/.gitignore", &["\u{feff}a", "# b", "", "  ", "c "])],
    );

    assert!(matches(&ignore, "/ws/a"));
    assert!(!matches(&ignore, "/ws/b"));
    assert!(matches(&ignore, "/ws/c"));
}

#[test]
fn lines_that_are_no_globs_are_left_out() {
    let ignore = build_ignore(&at("/ws"), &vec![file("/ws/.gitignore", &["a{", "b"])]);

    assert!(!matches(&ignore, "/ws/a{"));
    assert!(matches(&ignore, "/ws/b"));
}

#[test]
fn ignored_directories_take_their_entries_along() {
    let ignore = build_ignore(&at("/ws"), &vec![file("/ws/.gitignore", &["target/"])]);

    assert!(matches(&ignore, "/ws/target/debug/app"));
    assert!(!matches(&ignore, "/ws/target"));
    assert!(ignore.matches(&at("/ws/target"), true));
}

#[test]
fn directory_with_comments_only_has_no_say() {
    let ignore = build_ignore(
        &at("/ws"),
        &vec![file("/ws/.gitignore", &["a"]), file("/ws/sub/.gitignore", &["# none"])],
    );

    assert!(matches(&ignore, "/ws/sub/a"));
}

#[test]
fn relative_workspaces_work_alike() {
    let ignore = build_ignore(&at("./ws"), &vec![file("./ws/.gitignore", &["/a"])]);

    assert!(matches(&ignore, "./ws/a"));
    assert!(!matches(&ignore, "./ws/sub/a"));
    assert!(matches(&ignore, "./ws/.git/HEAD"));
}

#[test]
fn workspace_at_the_root_of_the_file_system() {
    let ignore = build_ignore(&at("/"), &vec![file("/.gitignore", &["/a"])]);

    assert!(matches(&ignore, "/a"));
    assert!(!matches(&ignore, "/b/a"));
    assert!(matches(&ignore, "/.git/HEAD"));
}

#[test]
fn files_to_look_for_are_listed_in_order() {
    assert_eq!(dir_files(&at("/ws/a")), vec![at("/ws/a/.gitignore"), at("/ws/a/.ignore")]);
    assert_eq!(
        root_files(&at("/ws")),
        vec![at("/ws/.gitignore"), at("/ws/.ignore"), at("/ws/.helix/ignore")],
    );
}

#[test]
fn nested_ignore_files_speak_for_their_directory() {
    let root = at("/ws");
    assert_eq!(nested_ignore_dir(&root, &at("/ws/a/.gitignore")), Some(at("/ws/a")));
    assert_eq!(nested_ignore_dir(&root, &at("/ws/a/b/.ignore")), Some(at("/ws/a/b")));
    assert_eq!(nested_ignore_dir(&root, &at("/ws/.gitignore")), None);
    assert_eq!(nested_ignore_dir(&root, &at("/ws/a/gitignore")), None);
    assert_eq!(nested_ignore_dir(&root, &at("/ws/.helix/ignore")), None);
    assert_eq!(nested_ignore_dir(&root, &at("/")), None);
}

#[test]
fn workspace_without_matchers_keeps_all_but_the_git_directory() {
    let ignore = HierarchicalIgnore::new(at("/ws"));

    assert!(!matches(&ignore, "/ws/a"));
    assert!(!matches(&ignore, "/ws/sub/.git/HEAD"));
    assert!(matches(&ignore, "/ws/.git/HEAD"));
}

#[test]
fn simple_rules_are_taken_as_they_are() {
    let ignore = build_ignore(
        &at("/ws"),
        &vec![file("/ws/.gitignore", &["*.d", "#x", "!b.d", "/a", "e/f/", "!/a/k", "x//"])],
    );

    assert!(matches(&ignore, "/ws/sub/c.d"));
    assert!(!matches(&ignore, "/ws/sub/b.d"));
    assert!(!matches(&ignore, "/ws/#x"));
    assert!(matches(&ignore, "/ws/a"));
    assert!(!matches(&ignore, "/ws/sub/a"));
    assert!(!matches(&ignore, "/ws/a/k"));
    assert!(matches(&ignore, "/ws/a/l"));
    assert!(matches(&ignore, "/ws/e/f/g"));
    assert!(!matches(&ignore, "/ws/sub/e/f/g"));
}

#[test]
fn rules_for_all_depths_are_taken_as_they_are() {
    let ignore = build_ignore(
        &at("/ws"),
        &vec![file("/ws/.gitignore", &["**/out", "**/*.o", "!**/keep.o", "**/a/b"])],
    );

    assert!(matches(&ignore, "/ws/out"));
    assert!(matches(&ignore, "/ws/sub/out/x"));
    assert!(matches(&ignore, "/ws/sub/x.o"));
    assert!(!matches(&ignore, "/ws/sub/keep.o"));
    assert!(matches(&ignore, "/ws/sub/a/b"));
    assert!(!matches(&ignore, "/ws/sub/xa/b"));
}

#[test]
fn rules_with_wildcards_are_loaded() {
    let ignore = build_ignore(
        &at("/ws"),
        &vec![file("/ws/.gitignore", &[".*", "foo*", "*.py[cod]", "a/**/z", "plain"])],
    );

    assert!(matches(&ignore, "/ws/.hidden"));
    assert!(matches(&ignore, "/ws/sub/foobar"));
    assert!(matches(&ignore, "/ws/x.pyc"));
    assert!(!matches(&ignore, "/ws/x.pyx"));
    assert!(matches(&ignore, "/ws/a/b/c/z"));
    assert!(matches(&ignore, "/ws/plain"));
}

#[test]
fn many_rules_with_wildcards_are_loaded() {
    let lines: Vec<String> = (0..1000).map(|i| format!("f{:03}?*.x", i)).collect();
    let lines: Vec<&str> = lines.iter().map(|l| l.as_str()).collect();
    let ignore = build_ignore(&at("/ws"), &vec![file("/ws/.gitignore", &lines)]);

    assert!(matches(&ignore, "/ws/f000a.x"));
    assert!(matches(&ignore, "/ws/sub/f999ab.x"));
    assert!(!matches(&ignore, "/ws/f000.x"));
}
