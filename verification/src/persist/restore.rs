//! From a snapshot to the tmux commands that rebuild its session.

use vstd::prelude::*;

use crate::persist::config::Config;
use crate::persist::saved;
use crate::persist::saved::{SavedSession, SavedWindow};
use crate::text;

verus! {

/// A tmux command of a restore. A `dir` is where the new pane starts; without one tmux picks
/// its own.
#[derive(Debug)]
pub enum TmuxCommand {
    /// Create a detached session with one window of one pane.
    NewSession { name: String, dir: Option<String> },
    /// Name the current window of a session.
    RenameWindow { session: String, name: String },
    /// Add a window of one pane to a session and make it current.
    NewWindow { session: String, window_name: Option<String>, dir: Option<String> },
    /// Add a pane to the current window of a session.
    SplitWindow { session: String, dir: Option<String> },
    /// Arrange the panes of the current window of a session.
    SelectLayout { session: String, layout: String },
}

/// What a command says.
#[verifier::ext_equal]
pub enum CommandView {
    NewSession { name: Seq<char>, dir: Option<Seq<char>> },
    RenameWindow { session: Seq<char>, name: Seq<char> },
    NewWindow { session: Seq<char>, window_name: Option<Seq<char>>, dir: Option<Seq<char>> },
    SplitWindow { session: Seq<char>, dir: Option<Seq<char>> },
    SelectLayout { session: Seq<char>, layout: Seq<char> },
}

impl View for TmuxCommand {
    type V = CommandView;

    open spec fn view(&self) -> CommandView {
        match *self {
            TmuxCommand::NewSession { name, dir } => CommandView::NewSession {
                name: name@,
                dir: text::opt_text(dir),
            },
            TmuxCommand::RenameWindow { session, name } => CommandView::RenameWindow {
                session: session@,
                name: name@,
            },
            TmuxCommand::NewWindow { session, window_name, dir } => CommandView::NewWindow {
                session: session@,
                window_name: text::opt_text(window_name),
                dir: text::opt_text(dir),
            },
            TmuxCommand::SplitWindow { session, dir } => CommandView::SplitWindow {
                session: session@,
                dir: text::opt_text(dir),
            },
            TmuxCommand::SelectLayout { session, layout } => CommandView::SelectLayout {
                session: session@,
                layout: layout@,
            },
        }
    }
}

/// What the commands of a list say.
pub open spec fn command_views(list: Seq<TmuxCommand>) -> Seq<CommandView> {
    list.map_values(|c: TmuxCommand| c@)
}

// ---------------------------------------------------------------------------
// Usable directories
// ---------------------------------------------------------------------------

/// The directory to start a pane in, of a saved path that is a directory or is not.
pub open spec fn usable(path: Seq<char>, is_dir: bool) -> Option<Seq<char>> {
    if path.len() > 0 && is_dir {
        Some(path)
    } else {
        None
    }
}

/// Returns the path only if it is an existing directory, as `is_dir` says (a stale directory
/// would make tmux fail, and the whole restore with it).
pub fn usable_dir(path: String, is_dir: bool) -> (dir: Option<String>)
    ensures
        text::opt_text(dir) == usable(path@, is_dir),
{
    if !path.as_str().is_empty() && is_dir {
        Some(path)
    } else {
        None
    }
}

/// A directory that was saved, where one was, as far as it is usable.
pub open spec fn usable_of(dir: Option<Seq<char>>, is_dir: bool) -> Option<Seq<char>> {
    match dir {
        Some(path) => usable(path, is_dir),
        None => None,
    }
}

impl CommandView {
    /// The directory that the command starts a pane in.
    pub open spec fn dir(self) -> Option<Seq<char>> {
        match self {
            CommandView::NewSession { dir, .. } => dir,
            CommandView::NewWindow { dir, .. } => dir,
            CommandView::SplitWindow { dir, .. } => dir,
            _ => None,
        }
    }

    /// The command as it is run, when its directory exists or does not.
    pub open spec fn resolved(self, is_dir: bool) -> CommandView {
        match self {
            CommandView::NewSession { name, dir } => CommandView::NewSession {
                name,
                dir: usable_of(dir, is_dir),
            },
            CommandView::NewWindow { session, window_name, dir } => CommandView::NewWindow {
                session,
                window_name,
                dir: usable_of(dir, is_dir),
            },
            CommandView::SplitWindow { session, dir } => CommandView::SplitWindow {
                session,
                dir: usable_of(dir, is_dir),
            },
            other => other,
        }
    }
}

/// Drops a directory that cannot be used.
fn usable_option(dir: Option<String>, is_dir: bool) -> (kept: Option<String>)
    ensures
        text::opt_text(kept) == usable_of(text::opt_text(dir), is_dir),
{
    match dir {
        Some(path) => usable_dir(path, is_dir),
        None => None,
    }
}

impl TmuxCommand {
    /// The saved directory that the command would start a pane in.
    pub fn dir(&self) -> (dir: Option<&str>)
        ensures
            text::opt_str(dir) == self@.dir(),
    {
        let saved = match self {
            TmuxCommand::NewSession { dir, .. } => dir,
            TmuxCommand::NewWindow { dir, .. } => dir,
            TmuxCommand::SplitWindow { dir, .. } => dir,
            _ => {
                return None;
            },
        };
        match saved {
            Some(path) => Some(path.as_str()),
            None => None,
        }
    }

    /// The command to run, given whether its directory is one that exists.
    pub fn resolve(self, is_dir: bool) -> (command: TmuxCommand)
        ensures
            command@ == self@.resolved(is_dir),
    {
        match self {
            TmuxCommand::NewSession { name, dir } => TmuxCommand::NewSession {
                name,
                dir: usable_option(dir, is_dir),
            },
            TmuxCommand::NewWindow { session, window_name, dir } => TmuxCommand::NewWindow {
                session,
                window_name,
                dir: usable_option(dir, is_dir),
            },
            TmuxCommand::SplitWindow { session, dir } => TmuxCommand::SplitWindow {
                session,
                dir: usable_option(dir, is_dir),
            },
            other => other,
        }
    }
}

// ---------------------------------------------------------------------------
// The plan
// ---------------------------------------------------------------------------

/// The name to give a restored window: only one that the user had set. tmux names the others,
/// and keeps naming them.
pub open spec fn explicit_name(window: saved::WindowView) -> Option<Seq<char>> {
    if !window.automatic_rename && window.name.len() > 0 {
        Some(window.name)
    } else {
        None
    }
}

/// The directory of the first pane.
pub open spec fn first_dir(window: saved::WindowView) -> Option<Seq<char>> {
    if window.panes.len() > 0 {
        Some(window.panes[0])
    } else {
        None
    }
}

/// The commands that open a window: the first one comes with the session and is named
/// afterwards, the others are added under their names.
pub open spec fn opening(session: Seq<char>, index: int, window: saved::WindowView) -> Seq<
    CommandView,
> {
    if index == 0 {
        let create = seq![CommandView::NewSession { name: session, dir: first_dir(window) }];
        match explicit_name(window) {
            Some(name) => create.push(CommandView::RenameWindow { session, name }),
            None => create,
        }
    } else {
        seq![
            CommandView::NewWindow {
                session,
                window_name: explicit_name(window),
                dir: first_dir(window),
            },
        ]
    }
}

/// The commands that add the panes from number `from` up to number `to`.
pub open spec fn splits(session: Seq<char>, window: saved::WindowView, from: int, to: int) -> Seq<
    CommandView,
> {
    Seq::new(
        (to - from) as nat,
        |k: int| CommandView::SplitWindow { session, dir: Some(window.panes[from + k]) },
    )
}

/// The command that arranges the panes, where a layout was saved.
pub open spec fn arranging(session: Seq<char>, window: saved::WindowView) -> Seq<CommandView> {
    if window.layout.len() > 0 {
        seq![CommandView::SelectLayout { session, layout: window.layout }]
    } else {
        Seq::empty()
    }
}

/// The number of panes that are added to a window after its first.
pub open spec fn pane_end(window: saved::WindowView) -> int {
    if window.panes.len() > 0 {
        window.panes.len() as int
    } else {
        1
    }
}

/// The commands that rebuild window number `index` of a session.
pub open spec fn window_commands(session: Seq<char>, index: int, window: saved::WindowView) -> Seq<
    CommandView,
> {
    opening(session, index, window) + splits(session, window, 1, pane_end(window)) + arranging(
        session,
        window,
    )
}

/// The commands that rebuild the first `n` windows of a session.
pub open spec fn commands_upto(session: saved::SessionView, n: int) -> Seq<CommandView>
    decreases n,
{
    if n <= 0 {
        Seq::empty()
    } else {
        commands_upto(session, n - 1) + window_commands(
            session.name,
            n - 1,
            session.windows[n - 1],
        )
    }
}

/// The commands that rebuild a session.
pub open spec fn restore_commands(session: saved::SessionView) -> Seq<CommandView> {
    commands_upto(session, session.windows.len() as int)
}

/// A copy of the first pane's directory.
fn copy_first_dir(window: &SavedWindow) -> (dir: Option<String>)
    ensures
        text::opt_text(dir) == first_dir(window@),
{
    if window.panes.len() > 0 {
        Some(window.panes[0].clone())
    } else {
        None
    }
}

/// A copy of the name to give the window.
fn copy_explicit_name(window: &SavedWindow) -> (name: Option<String>)
    ensures
        text::opt_text(name) == explicit_name(window@),
{
    if !window.automatic_rename && !window.name.as_str().is_empty() {
        Some(window.name.clone())
    } else {
        None
    }
}

/// Appends a command.
fn push_command(commands: &mut Vec<TmuxCommand>, command: TmuxCommand)
    ensures
        command_views(final(commands)@) == command_views(old(commands)@).push(command@),
{
    commands.push(command);
    assert(command_views(commands@) =~= command_views(old(commands)@).push(command@));
}

/// Appends the commands that rebuild one window.
fn restore_window(
    commands: &mut Vec<TmuxCommand>,
    session: &String,
    index: usize,
    window: &SavedWindow,
)
    ensures
        command_views(final(commands)@) == command_views(old(commands)@) + window_commands(
            session@,
            index as int,
            window@,
        ),
{
    let ghost before = command_views(commands@);
    let ghost view = window@;
    if index == 0 {
        push_command(
            commands,
            TmuxCommand::NewSession { name: session.clone(), dir: copy_first_dir(window) },
        );
        if let Some(name) = copy_explicit_name(window) {
            push_command(commands, TmuxCommand::RenameWindow { session: session.clone(), name });
        }
    } else {
        push_command(
            commands,
            TmuxCommand::NewWindow {
                session: session.clone(),
                window_name: copy_explicit_name(window),
                dir: copy_first_dir(window),
            },
        );
    }
    assert(command_views(commands@) =~= before + opening(session@, index as int, view));
    let ghost opened = command_views(commands@);
    let mut k: usize = 1;
    assert(opened =~= opened + splits(session@, view, 1, 1));
    while k < window.panes.len()
        invariant
            1 <= k,
            k <= pane_end(view),
            view == window@,
            command_views(commands@) == opened + splits(session@, view, 1, k as int),
        decreases window.panes@.len() - k,
    {
        push_command(
            commands,
            TmuxCommand::SplitWindow {
                session: session.clone(),
                dir: Some(window.panes[k].clone()),
            },
        );
        assert(view.panes[k as int] == window.panes@[k as int]@);
        assert(splits(session@, view, 1, k + 1) =~= splits(session@, view, 1, k as int).push(
            CommandView::SplitWindow { session: session@, dir: Some(view.panes[k as int]) },
        ));
        assert(command_views(commands@) =~= opened + splits(session@, view, 1, k + 1));
        k += 1;
    }
    assert(k == pane_end(view));
    let ghost split = command_views(commands@);
    if !window.layout.as_str().is_empty() {
        push_command(
            commands,
            TmuxCommand::SelectLayout { session: session.clone(), layout: window.layout.clone() },
        );
    }
    assert(command_views(commands@) =~= split + arranging(session@, view));
    assert(before + opening(session@, index as int, view) + splits(
        session@,
        view,
        1,
        pane_end(view),
    ) + arranging(session@, view) =~= before + window_commands(session@, index as int, view));
}

/// The commands that recreate `saved` as a detached tmux session.
///
/// Only a name that the user had set is given to a window: both `rename-window` and a named
/// `new-window` switch `automatic-rename` off, which would lock the name to whatever process
/// ran at save time.
pub fn restore_session(saved: &SavedSession) -> (commands: Vec<TmuxCommand>)
    ensures
        command_views(commands@) == restore_commands(saved@),
{
    let mut commands: Vec<TmuxCommand> = Vec::new();
    let mut index: usize = 0;
    assert(command_views(commands@) =~= commands_upto(saved@, 0));
    while index < saved.windows.len()
        invariant
            index <= saved.windows@.len(),
            command_views(commands@) == commands_upto(saved@, index as int),
        decreases saved.windows@.len() - index,
    {
        assert(saved@.windows[index as int] == saved.windows@[index as int]@);
        restore_window(&mut commands, &saved.name, index, &saved.windows[index]);
        index += 1;
    }
    commands
}

/// Whether session `name` is to be restored from a snapshot: lazy restore is on, there is one,
/// it is that session's, and it has windows.
pub open spec fn restorable(
    config: Config,
    name: Seq<char>,
    saved: Option<saved::SessionView>,
) -> bool {
    &&& config.restores()
    &&& saved matches Some(session)
    &&& session.name == name
    &&& session.windows.len() > 0
}

/// What an optional snapshot says.
pub open spec fn opt_saved(saved: Option<&SavedSession>) -> Option<saved::SessionView> {
    match saved {
        Some(session) => Some(session@),
        None => None,
    }
}

/// Try to restore `session_name` from what was loaded of its state file.
///
/// Gives the commands that restore it, in order, when it is to be restored (the caller should
/// then not create a fresh session), and nothing when the caller should fall back to creating
/// one normally. The snapshot of another session does not count.
pub fn try_restore_session(
    session_name: &str,
    config: &Config,
    saved: Option<&SavedSession>,
) -> (commands: Option<Vec<TmuxCommand>>)
    ensures
        commands is Some <==> restorable(*config, session_name@, opt_saved(saved)),
        commands matches Some(list) ==> command_views(list@) == restore_commands(
            opt_saved(saved)->0,
        ),
{
    if !config.lazy_restore_on() {
        return None;
    }
    match saved {
        Some(session) => {
            if session.windows.len() == 0 || !text::same_text(
                session.name.as_str(),
                session_name,
            ) {
                return None;
            }
            Some(restore_session(session))
        },
        None => None,
    }
}

} // verus!
