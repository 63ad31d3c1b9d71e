//! The background saver.

use vstd::prelude::*;

use crate::persist::config::Config;
use crate::text;

verus! {

/// Whether tmux's list of sessions shows any.
pub open spec fn lists_sessions(listing: Seq<char>) -> bool {
    text::trim(listing).len() > 0
}

/// Whether the tmux server currently has at least one session, by its list of sessions.
pub fn server_has_sessions(listing: &str) -> (yes: bool)
    ensures
        yes == lists_sessions(listing@),
{
    let bounds = text::trim_bounds(&text::chars_of(listing));
    bounds.0 < bounds.1
}

/// Whether the background saver is wanted: lazy restore is on, and the interval is not 0.
pub open spec fn saver_wanted(config: Config) -> bool {
    config.restores() && config.interval() != 0
}

/// Whether to start the background saver. The saver holds a lock while it runs, so that it may
/// be started on every run.
pub fn ensure_save_daemon(config: &Config) -> (start: bool)
    ensures
        start == saver_wanted(*config),
{
    config.lazy_restore_on() && config.save_minutes() != 0
}

/// What happened to the saver.
#[derive(Debug)]
pub enum SaverEvent {
    /// It was started; whether there is a state directory.
    Started { has_state_dir: bool },
    /// Its claim on the lock ended.
    Claimed { granted: bool },
    /// It slept for the interval; tmux's list of sessions.
    Woke { listing: String },
    /// It saved all sessions.
    Saved,
}

/// What the saver does next.
#[derive(Debug, Clone, Copy, PartialEq, Eq, Structural)]
pub enum SaverAction {
    /// Claim the single-saver lock.
    ClaimLock,
    /// Sleep for a number of seconds.
    Sleep { seconds: u64 },
    /// Save all sessions.
    Save,
    /// Remove the lock file and exit.
    ReleaseAndExit,
    /// Exit.
    Exit,
}

/// The saver's next action. It runs only with lazy restore on, an interval that is not 0, a
/// state directory and the lock; then it sleeps and saves in turn until the server has no
/// session.
pub open spec fn saver_action(config: Config, event: SaverEvent) -> SaverAction {
    match event {
        SaverEvent::Started { has_state_dir } => if saver_wanted(config) && has_state_dir {
            SaverAction::ClaimLock
        } else {
            SaverAction::Exit
        },
        SaverEvent::Claimed { granted } => if granted {
            SaverAction::Sleep { seconds: (config.interval() * 60) as u64 }
        } else {
            SaverAction::Exit
        },
        SaverEvent::Woke { listing } => if lists_sessions(listing@) {
            SaverAction::Save
        } else {
            SaverAction::ReleaseAndExit
        },
        SaverEvent::Saved => SaverAction::Sleep { seconds: (config.interval() * 60) as u64 },
    }
}

/// Whether the saver goes to sleep after an event.
pub open spec fn sleeps_after(event: SaverEvent) -> bool {
    event == (SaverEvent::Claimed { granted: true }) || event == SaverEvent::Saved
}

/// Body of the background saver: what it does next, after what happened last. Where it goes to
/// sleep, the interval in seconds must fit 64 bits.
pub fn run_save_loop(config: &Config, event: &SaverEvent) -> (action: SaverAction)
    requires
        sleeps_after(*event) ==> config.interval() * 60 <= u64::MAX,
    ensures
        action == saver_action(*config, *event),
{
    match event {
        SaverEvent::Started { has_state_dir } => {
            if config.lazy_restore_on() && config.save_minutes() != 0 && *has_state_dir {
                SaverAction::ClaimLock
            } else {
                SaverAction::Exit
            }
        },
        SaverEvent::Claimed { granted } => {
            if *granted {
                SaverAction::Sleep { seconds: config.save_minutes() * 60 }
            } else {
                SaverAction::Exit
            }
        },
        SaverEvent::Woke { listing } => {
            if server_has_sessions(listing.as_str()) {
                SaverAction::Save
            } else {
                SaverAction::ReleaseAndExit
            }
        },
        SaverEvent::Saved => SaverAction::Sleep { seconds: config.save_minutes() * 60 },
    }
}

} // verus!
