//! Where the state files are.

use vstd::prelude::*;

use crate::text;

verus! {

/// The directory that the state directory is under.
#[derive(Debug, Clone, Copy, PartialEq, Eq, Structural)]
pub enum StateRoot {
    /// `$XDG_STATE_HOME`.
    Xdg,
    /// The home directory.
    Home,
}

impl StateRoot {
    /// The state directory's path below the root.
    pub open spec fn path(self) -> Seq<char> {
        match self {
            StateRoot::Xdg => "jelly"@,
            StateRoot::Home => ".local/state/jelly"@,
        }
    }

    /// The state directory's path below the root.
    pub fn state_path(self) -> (path: &'static str)
        ensures
            path@ == self.path(),
    {
        match self {
            StateRoot::Xdg => "jelly",
            StateRoot::Home => ".local/state/jelly",
        }
    }
}

/// The root of the state directory: `$XDG_STATE_HOME` when it is set and not empty, and else
/// the home directory, when there is one.
pub open spec fn state_root(xdg_empty: Option<bool>, has_home: bool) -> Option<StateRoot> {
    if xdg_empty == Some(false) {
        Some(StateRoot::Xdg)
    } else if has_home {
        Some(StateRoot::Home)
    } else {
        None
    }
}

/// The root of the jelly state directory (`$XDG_STATE_HOME/jelly` or `~/.local/state/jelly`).
/// `xdg_empty` says of `$XDG_STATE_HOME`, where it is set, whether it is empty.
pub fn jelly_state_dir(xdg_empty: Option<bool>, has_home: bool) -> (root: Option<StateRoot>)
    ensures
        root == state_root(xdg_empty, has_home),
{
    match xdg_empty {
        Some(false) => Some(StateRoot::Xdg),
        _ => if has_home {
            Some(StateRoot::Home)
        } else {
            None
        },
    }
}

/// The path, below the root, of the directory that holds the per-session save files.
pub fn sessions_dir(root: StateRoot) -> (path: String)
    ensures
        path@ == root.path() + "/sessions"@,
{
    text::joined(root.state_path(), "/sessions")
}

} // verus!
