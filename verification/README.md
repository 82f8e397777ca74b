# file_watch

The decisions of a workspace file watcher in an editor, verified with Verus.

- `src/file_watcher.rs`: from reports of the file system to what language servers and the
  editor hear, with the halves of renames paired.
- `src/ignore_rules.rs`: what the ignore files of a workspace leave out.
- `src/file_event.rs`: which language servers hear of a change.
- `src/auto_reload.rs`: what becomes of open documents.
- `src/path.rs`, `src/text.rs`, `src/assoc.rs`: Unix paths, text, and maps kept as lists.
- `src/rule_matcher.rs`, `src/globs.rs`, `src/uri.rs`: what is relied on of the crates
  `ignore`, `globset` and `url`.
- `app/`: the threads, channels and file system around it.

Paths are those of Unix, and are UTF-8.
