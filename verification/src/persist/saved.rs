//! Snapshots of sessions.

use vstd::prelude::*;

use crate::text;

verus! {

/// A saved tmux session: its windows, each with a layout and per-pane directories.
#[derive(Debug)]
pub struct SavedSession {
    pub name: String,
    pub windows: Vec<SavedWindow>,
}

/// A saved window.
#[derive(Debug)]
pub struct SavedWindow {
    pub name: String,
    /// `true` when this window's name was driven by tmux's `automatic-rename` and is to be
    /// derived anew on restore; `false` when the user set it and it must survive verbatim.
    pub automatic_rename: bool,
    /// The tmux `window_layout` string (encodes pane geometry).
    pub layout: String,
    /// Working directory of each pane, in pane-index order.
    pub panes: Vec<String>,
}

/// What a saved window says.
#[verifier::ext_equal]
pub struct WindowView {
    pub name: Seq<char>,
    pub automatic_rename: bool,
    pub layout: Seq<char>,
    pub panes: Seq<Seq<char>>,
}

/// What a saved session says.
#[verifier::ext_equal]
pub struct SessionView {
    pub name: Seq<char>,
    pub windows: Seq<WindowView>,
}

impl View for SavedWindow {
    type V = WindowView;

    open spec fn view(&self) -> WindowView {
        WindowView {
            name: self.name@,
            automatic_rename: self.automatic_rename,
            layout: self.layout@,
            panes: text::texts(self.panes@),
        }
    }
}

impl View for SavedSession {
    type V = SessionView;

    open spec fn view(&self) -> SessionView {
        SessionView {
            name: self.name@,
            windows: self.windows@.map_values(|w: SavedWindow| w@),
        }
    }
}

/// The `automatic_rename` of a snapshot that does not say: a stale automatic name restored as
/// if it were manual would lock the window to whatever process ran at save time.
pub fn default_true() -> (automatic: bool)
    ensures
        automatic,
{
    true
}

/// Whether a window's name counts as one that tmux chose: tmux says so, or the name is that
/// of a command that one of its panes runs.
pub open spec fn renamed_automatically(
    option_on: bool,
    name: Seq<char>,
    commands: Seq<Seq<char>>,
) -> bool {
    option_on || (name.len() > 0 && commands.contains(name))
}

/// Decide whether a window's name should be treated as automatic-rename output.
///
/// When tmux's `automatic-rename` is on for the window, the name is whatever the foreground
/// command is right now. When it is off, the name may still be a leftover of a restore that
/// renamed the window, which tmux takes for a choice of the user; so a name that equals one of
/// the panes' foreground commands counts as automatic too.
pub fn compute_automatic_rename(option_on: bool, name: &str, pane_commands: &[String]) -> (auto: bool)
    ensures
        auto == renamed_automatically(option_on, name@, text::texts(pane_commands@)),
{
    if option_on {
        return true;
    }
    if name.is_empty() {
        return false;
    }
    let ghost commands = text::texts(pane_commands@);
    let mut i: usize = 0;
    while i < pane_commands.len()
        invariant
            i <= pane_commands@.len(),
            name@.len() > 0,
            commands == text::texts(pane_commands@),
            forall|k: int| 0 <= k < i ==> commands[k] != name@,
        decreases pane_commands@.len() - i,
    {
        if text::same_text(pane_commands[i].as_str(), name) {
            assert(commands[i as int] == name@);
            return true;
        }
        i += 1;
    }
    false
}

} // verus!
