//! Decisions of an editor's workspace file watcher.
//!
//! The workspace is watched for changes on disk. `file_watcher` turns the reports
//! of the file system into what language servers and the editor are to hear,
//! leaving out what the ignore files of the workspace leave out (`ignore_rules`).
//! `file_event` says which language servers hear of a change, and `auto_reload`
//! what becomes of the open documents. The modules whose names end in `laws` say
//! what all of these amount to, told by what goes in and what comes out.

pub mod assoc;
pub mod auto_reload;
pub mod document_laws;
pub mod file_event;
pub mod file_watcher;
pub mod globs;
pub mod ignore_laws;
pub mod ignore_rules;
pub mod path;
pub mod path_laws;
pub mod rule_matcher;
pub mod server_laws;
pub mod text;
pub mod uri;
pub mod watch_laws;
