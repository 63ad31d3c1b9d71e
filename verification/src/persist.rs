//! Native session persistence.
//!
//! The layout of live tmux sessions is kept in one state file per session, and a session is
//! rebuilt from its file when it is picked. With lazy restore off nothing is restored, closed
//! or run in the background.

pub mod boot;
pub mod config;
pub mod laws;
pub mod lock;
pub mod names;
pub mod paths;
pub mod promises;
pub mod restore;
pub mod saved;
pub mod saver;
pub mod snapshot;

pub use boot::{
    current_boot_id, finish_first_run, handle_first_run, kill_all_sessions, AfterRecord, FirstRun,
    BOOT_ID_FILE, RECORD_FAILED,
};
pub use config::{Config, DEFAULT_SAVE_INTERVAL};
pub use lock::{
    lock_contents, pid_alive, proc_entry, LockClaim, LockReply, LockStep, GUARD_FILE, LOCK_FILE,
    LOCK_TRIES,
};
pub use names::{path_safe, session_file_name, session_files};
pub use paths::{jelly_state_dir, sessions_dir, StateRoot};
pub use restore::{restore_session, try_restore_session, usable_dir, TmuxCommand};
pub use saved::{compute_automatic_rename, default_true, SavedSession, SavedWindow};
pub use saver::{
    ensure_save_daemon, run_save_loop, server_has_sessions, SaverAction, SaverEvent,
};
pub use snapshot::{
    parse_listing, parse_pane, save_all_sessions, PaneRecord, SessionFile, PANE_FORMAT,
};
