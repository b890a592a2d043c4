//! Verified core of Reach, an SSH client with a remote-operations agent:
//! connection identities and routes, host keys and the authentication
//! cascade, the remote file browser's commands and transfers, the
//! terminal relay, the agent's tools (security rules, fuzzy edit
//! matching, unified diffs, encodings and line endings), its provider
//! wire formats, and the state of its threads and runs.

use vstd::prelude::*;

pub mod text;
pub mod edit_match;
pub mod diff;
pub mod config;
pub mod read_file;
pub mod permissions;
pub mod ssh;
pub mod identity;
pub mod types;
pub mod providers;
pub mod sftp;
pub mod remote_fs;
pub mod terminal;
pub mod fetch;
pub mod list_directory;
pub mod edit_file;
pub mod events;
pub mod preview;
pub mod agent_loop;
pub mod write_file;
pub mod table;
pub mod threads;
pub mod transfer;
pub mod models;
pub mod runs;
pub mod exec_backend;
pub mod session;
pub mod route;
pub mod backend;
pub mod lease;
pub mod command;

verus! {

} // verus!
