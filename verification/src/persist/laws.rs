//! What saving and restoring promise together.

use vstd::prelude::*;

use crate::persist::boot;
use crate::persist::config::Config;
use crate::persist::names;
use crate::persist::restore;
use crate::persist::saved;
use crate::persist::saver;
use crate::persist::snapshot;
use crate::text;

verus! {

/// With lazy restore off nothing is restored, closed or recorded, and no saver is started or
/// goes on.
pub proof fn law_off_means_off(
    config: Config,
    name: Seq<char>,
    session: Option<saved::SessionView>,
    has_state_dir: bool,
    id: Option<Seq<char>>,
    stored: Option<Seq<char>>,
)
    requires
        !config.restores(),
    ensures
        !restore::restorable(config, name, session),
        boot::first_run(config, has_state_dir, id, stored) == boot::FirstRun::Nothing,
        !saver::saver_wanted(config),
        saver::saver_action(config, saver::SaverEvent::Started { has_state_dir })
            == saver::SaverAction::Exit,
{
}

/// An interval of 0 turns the background saver off.
pub proof fn law_no_saver_without_interval(config: Config, has_state_dir: bool)
    requires
        config.interval() == 0,
    ensures
        !saver::saver_wanted(config),
        saver::saver_action(config, saver::SaverEvent::Started { has_state_dir })
            == saver::SaverAction::Exit,
{
}

// ---------------------------------------------------------------------------
// Snapshots
// ---------------------------------------------------------------------------

proof fn lemma_increasing_unique(a: Seq<u32>, b: Seq<u32>)
    requires
        snapshot::increasing(a),
        snapshot::increasing(b),
        forall|x: u32| #[trigger] a.contains(x) <==> b.contains(x),
    ensures
        a == b,
    decreases a.len(),
{
    if a.len() == 0 {
        if b.len() > 0 {
            assert(b.contains(b[0]));
            assert(a.contains(b[0]));
        }
        assert(a =~= b);
    } else {
        assert(a.contains(a.last()));
        assert(b.contains(a.last()));
        assert(b.contains(b.last()));
        assert(a.contains(b.last()));
        let i = choose|i: int| 0 <= i < b.len() && b[i] == a.last();
        let j = choose|j: int| 0 <= j < a.len() && a[j] == b.last();
        assert(a.last() == b.last()) by {
            if i < b.len() - 1 && j < a.len() - 1 {
                assert(b[i] < b[b.len() - 1]);
                assert(a[j] < a[a.len() - 1]);
            }
        }
        let a1 = a.drop_last();
        let b1 = b.drop_last();
        assert forall|x: u32| #[trigger] a1.contains(x) <==> b1.contains(x) by {
            if a1.contains(x) {
                let k = choose|k: int| 0 <= k < a1.len() && a1[k] == x;
                assert(a[k] == x && a[k] < a[a.len() - 1]);
                assert(a.contains(x));
                let m = choose|m: int| 0 <= m < b.len() && b[m] == x;
                assert(b1[m] == x);
            }
            if b1.contains(x) {
                let k = choose|k: int| 0 <= k < b1.len() && b1[k] == x;
                assert(b[k] == x && b[k] < b[b.len() - 1]);
                assert(b.contains(x));
                assert(a.contains(x));
                let m = choose|m: int| 0 <= m < a.len() && a[m] == x;
                assert(a1[m] == x);
            }
        }
        lemma_increasing_unique(a1, b1);
        assert(a =~= a1.push(a.last()));
        assert(b =~= b1.push(b.last()));
    }
}

proof fn lemma_names_unique(a: Seq<Seq<char>>, b: Seq<Seq<char>>)
    requires
        snapshot::names_ascend(a),
        snapshot::names_ascend(b),
        forall|x: Seq<char>| #[trigger] a.contains(x) <==> b.contains(x),
    ensures
        a == b,
    decreases a.len(),
{
    if a.len() == 0 {
        if b.len() > 0 {
            assert(b.contains(b[0]));
            assert(a.contains(b[0]));
        }
        assert(a =~= b);
    } else {
        assert(a.contains(a.last()));
        assert(b.contains(a.last()));
        assert(b.contains(b.last()));
        assert(a.contains(b.last()));
        let i = choose|i: int| 0 <= i < b.len() && b[i] == a.last();
        let j = choose|j: int| 0 <= j < a.len() && a[j] == b.last();
        text::lemma_lex_total(a.last(), b.last());
        assert(a.last() == b.last()) by {
            if i < b.len() - 1 && j < a.len() - 1 {
                assert(text::lex_less(b[i], b[b.len() - 1]));
                assert(text::lex_less(a[j], a[a.len() - 1]));
            }
        }
        let a1 = a.drop_last();
        let b1 = b.drop_last();
        assert forall|x: Seq<char>| #[trigger] a1.contains(x) <==> b1.contains(x) by {
            text::lemma_lex_total(x, a.last());
            if a1.contains(x) {
                let k = choose|k: int| 0 <= k < a1.len() && a1[k] == x;
                assert(text::lex_less(a[k], a[a.len() - 1]));
                assert(a.contains(x));
                let m = choose|m: int| 0 <= m < b.len() && b[m] == x;
                assert(b1[m] == x);
            }
            if b1.contains(x) {
                let k = choose|k: int| 0 <= k < b1.len() && b1[k] == x;
                assert(text::lex_less(b[k], b[b.len() - 1]));
                assert(b.contains(x));
                assert(a.contains(x));
                let m = choose|m: int| 0 <= m < a.len() && a[m] == x;
                assert(a1[m] == x);
            }
        }
        lemma_names_unique(a1, b1);
        assert(a =~= a1.push(a.last()));
        assert(b =~= b1.push(b.last()));
    }
}

proof fn lemma_dirs_unique(
    panes: Seq<snapshot::PaneView>,
    name: Seq<char>,
    window: u32,
    a: Seq<Seq<char>>,
    b: Seq<Seq<char>>,
)
    requires
        snapshot::window_dirs(panes, name, window, a),
        snapshot::window_dirs(panes, name, window, b),
    ensures
        a == b,
{
    let la = choose|list: Seq<u32>|
        {
            &&& #[trigger] snapshot::lists_panes(list, panes, name, window)
            &&& list.len() == a.len()
            &&& forall|k: int|
                0 <= k < list.len() ==> snapshot::pane_path(
                    panes,
                    name,
                    window,
                    #[trigger] list[k],
                ) == Some(a[k])
        };
    let lb = choose|list: Seq<u32>|
        {
            &&& #[trigger] snapshot::lists_panes(list, panes, name, window)
            &&& list.len() == b.len()
            &&& forall|k: int|
                0 <= k < list.len() ==> snapshot::pane_path(
                    panes,
                    name,
                    window,
                    #[trigger] list[k],
                ) == Some(b[k])
        };
    assert forall|x: u32| #[trigger] la.contains(x) <==> lb.contains(x) by {
        assert(la.contains(x) <==> snapshot::pane_path(panes, name, window, x) is Some);
        assert(lb.contains(x) <==> snapshot::pane_path(panes, name, window, x) is Some);
    }
    lemma_increasing_unique(la, lb);
    assert forall|k: int| 0 <= k < a.len() implies a[k] == b[k] by {
        assert(snapshot::pane_path(panes, name, window, la[k]) == Some(a[k]));
        assert(snapshot::pane_path(panes, name, window, lb[k]) == Some(b[k]));
    }
    assert(a =~= b);
}

proof fn lemma_session_unique(
    panes: Seq<snapshot::PaneView>,
    a: saved::SessionView,
    b: saved::SessionView,
)
    requires
        snapshot::session_snapshot(panes, a),
        snapshot::session_snapshot(panes, b),
        a.name == b.name,
    ensures
        a == b,
{
    let la = choose|list: Seq<u32>|
        {
            &&& #[trigger] snapshot::lists_windows(list, panes, a.name)
            &&& list.len() == a.windows.len()
            &&& forall|k: int|
                0 <= k < list.len() ==> snapshot::window_snapshot(
                    panes,
                    a.name,
                    #[trigger] list[k],
                    a.windows[k],
                )
        };
    let lb = choose|list: Seq<u32>|
        {
            &&& #[trigger] snapshot::lists_windows(list, panes, b.name)
            &&& list.len() == b.windows.len()
            &&& forall|k: int|
                0 <= k < list.len() ==> snapshot::window_snapshot(
                    panes,
                    b.name,
                    #[trigger] list[k],
                    b.windows[k],
                )
        };
    assert forall|x: u32| #[trigger] la.contains(x) <==> lb.contains(x) by {
        assert(la.contains(x) <==> snapshot::first_pane(panes, a.name, x) is Some);
        assert(lb.contains(x) <==> snapshot::first_pane(panes, b.name, x) is Some);
    }
    lemma_increasing_unique(la, lb);
    assert forall|k: int| 0 <= k < a.windows.len() implies a.windows[k] == b.windows[k] by {
        assert(snapshot::window_snapshot(panes, a.name, la[k], a.windows[k]));
        assert(snapshot::window_snapshot(panes, b.name, lb[k], b.windows[k]));
        lemma_dirs_unique(panes, a.name, la[k], a.windows[k].panes, b.windows[k].panes);
        assert(a.windows[k] =~= b.windows[k]);
    }
    assert(a.windows =~= b.windows);
    assert(a =~= b);
}

/// A list of panes has exactly one snapshot: what is saved depends on nothing else.
pub proof fn law_one_snapshot_per_listing(
    panes: Seq<snapshot::PaneView>,
    a: Seq<saved::SessionView>,
    b: Seq<saved::SessionView>,
)
    requires
        snapshot::snapshot(panes, a),
        snapshot::snapshot(panes, b),
    ensures
        a == b,
{
    let na = snapshot::session_names(a);
    let nb = snapshot::session_names(b);
    assert forall|x: Seq<char>| #[trigger] na.contains(x) <==> nb.contains(x) by {
        assert(na.contains(x) <==> snapshot::session_listed(panes, x));
        assert(nb.contains(x) <==> snapshot::session_listed(panes, x));
    }
    lemma_names_unique(na, nb);
    assert(na.len() == a.len() && nb.len() == b.len());
    assert forall|i: int| 0 <= i < a.len() implies a[i] == b[i] by {
        assert(na[i] == a[i].name);
        assert(nb[i] == b[i].name);
        lemma_session_unique(panes, a[i], b[i]);
    }
    assert(a =~= b);
}

/// A pane that was listed has a first pane in its window.
pub proof fn lemma_listed_has_first(panes: Seq<snapshot::PaneView>, k: int)
    requires
        0 <= k < panes.len(),
    ensures
        snapshot::first_pane(panes, panes[k].session, panes[k].window_index) is Some,
    decreases panes.len(),
{
    if k < panes.len() - 1 {
        lemma_listed_has_first(panes.drop_last(), k);
    }
}

proof fn lemma_first_has_path(panes: Seq<snapshot::PaneView>, name: Seq<char>, window: u32) -> (p:
    u32)
    requires
        snapshot::first_pane(panes, name, window) is Some,
    ensures
        snapshot::pane_path(panes, name, window, p) is Some,
    decreases panes.len(),
{
    if snapshot::in_window(panes.last(), name, window) {
        panes.last().pane_index
    } else {
        lemma_first_has_path(panes.drop_last(), name, window)
    }
}

/// Whatever is saved can be restored: every saved session has a window, and every saved window
/// the directory of a pane.
pub proof fn law_saved_sessions_are_restorable(
    panes: Seq<snapshot::PaneView>,
    sessions: Seq<saved::SessionView>,
    config: Config,
    i: int,
)
    requires
        snapshot::snapshot(panes, sessions),
        0 <= i < sessions.len(),
        config.restores(),
    ensures
        restore::restorable(config, sessions[i].name, Some(sessions[i])),
        forall|k: int|
            0 <= k < sessions[i].windows.len() ==> (#[trigger] sessions[i].windows[k]).panes.len()
                > 0,
{
    let session = sessions[i];
    let names = snapshot::session_names(sessions);
    assert(names[i] == session.name);
    assert(names.contains(session.name));
    assert(snapshot::session_listed(panes, session.name));
    let n = choose|n: int| 0 <= n < panes.len() && #[trigger] panes[n].session == session.name;
    lemma_listed_has_first(panes, n);
    assert(snapshot::session_snapshot(panes, session));
    let list = choose|list: Seq<u32>|
        {
            &&& #[trigger] snapshot::lists_windows(list, panes, session.name)
            &&& list.len() == session.windows.len()
            &&& forall|k: int|
                0 <= k < list.len() ==> snapshot::window_snapshot(
                    panes,
                    session.name,
                    #[trigger] list[k],
                    session.windows[k],
                )
        };
    assert(list.contains(panes[n].window_index));
    assert forall|k: int| 0 <= k < session.windows.len() implies (
    #[trigger] session.windows[k]).panes.len() > 0 by {
        let window = session.windows[k];
        assert(snapshot::window_snapshot(panes, session.name, list[k], window));
        let p = lemma_first_has_path(panes, session.name, list[k]);
        let at = choose|at: Seq<u32>|
            {
                &&& #[trigger] snapshot::lists_panes(at, panes, session.name, list[k])
                &&& at.len() == window.panes.len()
                &&& forall|m: int|
                    0 <= m < at.len() ==> snapshot::pane_path(
                        panes,
                        session.name,
                        list[k],
                        #[trigger] at[m],
                    ) == Some(window.panes[m])
            };
        assert(at.contains(p));
    }
}

/// The files of the sessions directory once the first `n` of the sessions are written to theirs.
pub open spec fn saved_into(
    files: Map<Seq<char>, saved::SessionView>,
    sessions: Seq<saved::SessionView>,
    n: int,
) -> Map<Seq<char>, saved::SessionView>
    decreases n,
{
    if n <= 0 {
        files
    } else {
        saved_into(files, sessions, n - 1).insert(
            names::file_name(sessions[n - 1].name),
            sessions[n - 1],
        )
    }
}

/// The snapshot that is loaded for session `name`: that of the first of its files that is there.
pub open spec fn loaded(files: Map<Seq<char>, saved::SessionView>, name: Seq<char>) -> Option<
    saved::SessionView,
> {
    let places = names::snapshot_files(name);
    if files.contains_key(places[0]) {
        Some(files[places[0]])
    } else if files.contains_key(places[1]) {
        Some(files[places[1]])
    } else {
        None
    }
}

proof fn lemma_saved_into(
    files: Map<Seq<char>, saved::SessionView>,
    sessions: Seq<saved::SessionView>,
    n: int,
    file: Seq<char>,
)
    requires
        0 <= n <= sessions.len(),
        forall|i: int|
            0 <= i < n ==> names::file_name((#[trigger] sessions[i]).name) != file,
    ensures
        saved_into(files, sessions, n).contains_key(file) == files.contains_key(file),
        files.contains_key(file) ==> saved_into(files, sessions, n)[file] == files[file],
    decreases n,
{
    if n > 0 {
        lemma_saved_into(files, sessions, n - 1, file);
        assert(names::file_name(sessions[n - 1].name) != file);
    }
}

/// The file of a session that is not live is left untouched: no live session has it for its
/// own, and saving leaves it as it was.
pub proof fn law_other_files_stay(
    panes: Seq<snapshot::PaneView>,
    sessions: Seq<saved::SessionView>,
    name: Seq<char>,
    files: Map<Seq<char>, saved::SessionView>,
)
    requires
        snapshot::snapshot(panes, sessions),
        !snapshot::session_listed(panes, name),
    ensures
        forall|i: int|
            0 <= i < sessions.len() ==> names::file_name((#[trigger] sessions[i]).name)
                != names::file_name(name),
        ({
            let after = saved_into(files, sessions, sessions.len() as int);
            let file = names::file_name(name);
            &&& after.contains_key(file) == files.contains_key(file)
            &&& files.contains_key(file) ==> after[file] == files[file]
        }),
{
    let all = snapshot::session_names(sessions);
    assert forall|i: int| 0 <= i < sessions.len() implies names::file_name(
        (#[trigger] sessions[i]).name,
    ) != names::file_name(name) by {
        assert(all[i] == sessions[i].name);
        assert(all.contains(sessions[i].name));
        if names::file_name(sessions[i].name) == names::file_name(name) {
            names::law_sessions_never_share_a_file(sessions[i].name, name);
        }
    }
    lemma_saved_into(files, sessions, sessions.len() as int, names::file_name(name));
}

/// Every live session has a file of its own: none is written twice.
pub proof fn law_live_sessions_keep_apart(
    panes: Seq<snapshot::PaneView>,
    sessions: Seq<saved::SessionView>,
    i: int,
    j: int,
)
    requires
        snapshot::snapshot(panes, sessions),
        0 <= i < j < sessions.len(),
    ensures
        names::file_name(sessions[i].name) != names::file_name(sessions[j].name),
{
    let all = snapshot::session_names(sessions);
    assert(text::lex_less(all[i], all[j]));
    text::lemma_lex_total(all[i], all[j]);
    if names::file_name(sessions[i].name) == names::file_name(sessions[j].name) {
        names::law_sessions_never_share_a_file(sessions[i].name, sessions[j].name);
    }
}

proof fn lemma_saved_is_there(
    panes: Seq<snapshot::PaneView>,
    sessions: Seq<saved::SessionView>,
    i: int,
    files: Map<Seq<char>, saved::SessionView>,
    n: int,
)
    requires
        snapshot::snapshot(panes, sessions),
        0 <= i < n <= sessions.len(),
    ensures
        saved_into(files, sessions, n).contains_key(names::file_name(sessions[i].name)),
        saved_into(files, sessions, n)[names::file_name(sessions[i].name)] == sessions[i],
    decreases n,
{
    if i < n - 1 {
        lemma_saved_is_there(panes, sessions, i, files, n - 1);
        law_live_sessions_keep_apart(panes, sessions, i, n - 1);
    }
}

/// What was saved is what is loaded: after all live sessions are written to their files, the
/// snapshot that is loaded for each is its own, whatever was there before.
pub proof fn law_saved_sessions_are_loaded(
    panes: Seq<snapshot::PaneView>,
    sessions: Seq<saved::SessionView>,
    i: int,
    files: Map<Seq<char>, saved::SessionView>,
)
    requires
        snapshot::snapshot(panes, sessions),
        0 <= i < sessions.len(),
    ensures
        loaded(saved_into(files, sessions, sessions.len() as int), sessions[i].name) == Some(
            sessions[i],
        ),
{
    lemma_saved_is_there(panes, sessions, i, files, sessions.len() as int);
}

/// An older snapshot is still restored: where a session has no file of its own yet, the
/// snapshot of it under the older file name is the one that is loaded.
pub proof fn law_older_snapshots_are_loaded(
    config: Config,
    name: Seq<char>,
    files: Map<Seq<char>, saved::SessionView>,
)
    requires
        !files.contains_key(names::file_name(name)) || names::file_name(name)
            == names::older_file_name(name),
        files.contains_key(names::older_file_name(name)),
    ensures
        loaded(files, name) == Some(files[names::older_file_name(name)]),
        config.restores() && files[names::older_file_name(name)].name == name
            && files[names::older_file_name(name)].windows.len() > 0 ==> restore::restorable(
            config,
            name,
            loaded(files, name),
        ),
{
}

/// A restore brings back the session that was asked for: every command acts on that one.
pub proof fn law_restores_the_session_asked_for(
    config: Config,
    name: Seq<char>,
    session: saved::SessionView,
)
    requires
        restore::restorable(config, name, Some(session)),
    ensures
        session.name == name,
        forall|k: int|
            0 <= k < restore::restore_commands(session).len() ==> target(
                #[trigger] restore::restore_commands(session)[k],
            ) == name,
{
    assert forall|k: int| 0 <= k < restore::restore_commands(session).len() implies target(
        #[trigger] restore::restore_commands(session)[k],
    ) == name by {
        law_restore_touches_one_session(session, k);
    }
}

// ---------------------------------------------------------------------------
// Restores
// ---------------------------------------------------------------------------

/// A window as a restore builds it: the name it was given, the directory that each pane was
/// started in, and the layout that was applied.
#[verifier::ext_equal]
pub struct BuiltWindow {
    pub name: Option<Seq<char>>,
    pub panes: Seq<Option<Seq<char>>>,
    pub layout: Option<Seq<char>>,
}

/// A window of one pane.
pub open spec fn fresh_window(name: Option<Seq<char>>, dir: Option<Seq<char>>) -> BuiltWindow {
    BuiltWindow { name, panes: seq![dir], layout: None }
}

/// What a command makes of the windows of the session that is being built. The current window
/// is the one created last.
pub open spec fn carried_out(windows: Seq<BuiltWindow>, command: restore::CommandView) -> Seq<
    BuiltWindow,
> {
    match command {
        restore::CommandView::NewSession { name, dir } => seq![fresh_window(None, dir)],
        restore::CommandView::RenameWindow { session, name } => windows.drop_last().push(
            BuiltWindow { name: Some(name), ..windows.last() },
        ),
        restore::CommandView::NewWindow { session, window_name, dir } => windows.push(
            fresh_window(window_name, dir),
        ),
        restore::CommandView::SplitWindow { session, dir } => windows.drop_last().push(
            BuiltWindow { panes: windows.last().panes.push(dir), ..windows.last() },
        ),
        restore::CommandView::SelectLayout { session, layout } => windows.drop_last().push(
            BuiltWindow { layout: Some(layout), ..windows.last() },
        ),
    }
}

/// A command as it is run where `dirs` are the directories that exist.
pub open spec fn resolved_in(command: restore::CommandView, dirs: Set<Seq<char>>) -> restore::CommandView {
    command.resolved(command.dir() is Some && dirs.contains(command.dir()->0))
}

/// What commands, run one after the other, make of the windows.
pub open spec fn run_all(
    windows: Seq<BuiltWindow>,
    commands: Seq<restore::CommandView>,
    dirs: Set<Seq<char>>,
) -> Seq<BuiltWindow>
    decreases commands.len(),
{
    if commands.len() == 0 {
        windows
    } else {
        carried_out(
            run_all(windows, commands.drop_last(), dirs),
            resolved_in(commands.last(), dirs),
        )
    }
}

/// The window that a restore of `window` is to build.
pub open spec fn rebuilt_window(window: saved::WindowView, dirs: Set<Seq<char>>) -> BuiltWindow {
    BuiltWindow {
        name: restore::explicit_name(window),
        panes: if window.panes.len() == 0 {
            seq![None]
        } else {
            window.panes.map_values(|p: Seq<char>| restore::usable(p, dirs.contains(p)))
        },
        layout: if window.layout.len() > 0 {
            Some(window.layout)
        } else {
            None
        },
    }
}

/// The windows that a restore of a session is to build.
pub open spec fn rebuilt_windows(windows: Seq<saved::WindowView>, dirs: Set<Seq<char>>) -> Seq<
    BuiltWindow,
> {
    windows.map_values(|w: saved::WindowView| rebuilt_window(w, dirs))
}

proof fn lemma_run_concat(
    windows: Seq<BuiltWindow>,
    a: Seq<restore::CommandView>,
    b: Seq<restore::CommandView>,
    dirs: Set<Seq<char>>,
)
    ensures
        run_all(windows, a + b, dirs) == run_all(run_all(windows, a, dirs), b, dirs),
    decreases b.len(),
{
    if b.len() == 0 {
        assert(a + b =~= a);
    } else {
        assert((a + b).drop_last() =~= a + b.drop_last());
        assert((a + b).last() == b.last());
        lemma_run_concat(windows, a, b.drop_last(), dirs);
    }
}

proof fn lemma_run_one(
    windows: Seq<BuiltWindow>,
    command: restore::CommandView,
    dirs: Set<Seq<char>>,
)
    ensures
        run_all(windows, seq![command], dirs) == carried_out(windows, resolved_in(command, dirs)),
{
    let one = seq![command];
    assert(one.drop_last() =~= Seq::<restore::CommandView>::empty());
    assert(run_all(windows, one.drop_last(), dirs) == windows);
    assert(one.last() == command);
}

proof fn lemma_run_splits(
    windows: Seq<BuiltWindow>,
    session: Seq<char>,
    window: saved::WindowView,
    to: int,
    dirs: Set<Seq<char>>,
)
    requires
        windows.len() > 0,
        1 <= to <= window.panes.len(),
        windows.last().panes == seq![
            restore::usable(window.panes[0], dirs.contains(window.panes[0])),
        ],
    ensures
        run_all(windows, restore::splits(session, window, 1, to), dirs)
            == windows.drop_last().push(
            BuiltWindow {
                panes: window.panes.take(to).map_values(
                    |p: Seq<char>| restore::usable(p, dirs.contains(p)),
                ),
                ..windows.last()
            },
        ),
    decreases to,
{
    let list = restore::splits(session, window, 1, to);
    let shown = window.panes.take(to).map_values(
        |p: Seq<char>| restore::usable(p, dirs.contains(p)),
    );
    if to == 1 {
        assert(shown =~= windows.last().panes);
        assert(windows =~= windows.drop_last().push(windows.last()));
        assert(BuiltWindow { panes: shown, ..windows.last() } =~= windows.last());
    } else {
        lemma_run_splits(windows, session, window, to - 1, dirs);
        assert(list.drop_last() =~= restore::splits(session, window, 1, to - 1));
        let shorter = window.panes.take(to - 1).map_values(
            |p: Seq<char>| restore::usable(p, dirs.contains(p)),
        );
        let last = window.panes[to - 1];
        assert(list.last() == restore::CommandView::SplitWindow { session, dir: Some(last) });
        assert(shown =~= shorter.push(restore::usable(last, dirs.contains(last))));
        let middle = windows.drop_last().push(BuiltWindow { panes: shorter, ..windows.last() });
        assert(middle.drop_last() =~= windows.drop_last());
        assert(carried_out(middle, resolved_in(list.last(), dirs)) =~= windows.drop_last().push(
            BuiltWindow { panes: shown, ..windows.last() },
        ));
    }
}

proof fn lemma_run_window(
    windows: Seq<BuiltWindow>,
    session: Seq<char>,
    window: saved::WindowView,
    dirs: Set<Seq<char>>,
)
    ensures
        run_all(
            windows,
            restore::window_commands(session, windows.len() as int, window),
            dirs,
        ) == windows.push(rebuilt_window(window, dirs)),
{
    let index = windows.len() as int;
    let open = restore::opening(session, index, window);
    let split = restore::splits(session, window, 1, restore::pane_end(window));
    let arrange = restore::arranging(session, window);
    lemma_run_concat(windows, open + split, arrange, dirs);
    lemma_run_concat(windows, open, split, dirs);
    let name = restore::explicit_name(window);
    let dir = if window.panes.len() > 0 {
        restore::usable(window.panes[0], dirs.contains(window.panes[0]))
    } else {
        None
    };
    let opened = run_all(windows, open, dirs);
    assert(opened =~= windows.push(fresh_window(name, dir))) by {
        if index == 0 {
            let create = restore::CommandView::NewSession {
                name: session,
                dir: restore::first_dir(window),
            };
            lemma_run_one(windows, create, dirs);
            if let Some(title) = name {
                let rename = restore::CommandView::RenameWindow { session, name: title };
                assert(open =~= seq![create] + seq![rename]);
                lemma_run_concat(windows, seq![create], seq![rename], dirs);
                lemma_run_one(seq![fresh_window(None, dir)], rename, dirs);
            }
        } else {
            lemma_run_one(windows, open[0], dirs);
            assert(open =~= seq![open[0]]);
        }
    }
    assert(opened.drop_last() =~= windows);
    let rebuilt = rebuilt_window(window, dirs);
    let divided = run_all(opened, split, dirs);
    assert(divided =~= windows.push(BuiltWindow { layout: None, ..rebuilt })) by {
        if window.panes.len() > 0 {
            lemma_run_splits(opened, session, window, window.panes.len() as int, dirs);
            assert(window.panes.take(window.panes.len() as int) =~= window.panes);
        } else {
            assert(split =~= Seq::<restore::CommandView>::empty());
        }
    }
    assert(divided.drop_last() =~= windows);
    if window.layout.len() > 0 {
        lemma_run_one(divided, arrange[0], dirs);
        assert(arrange =~= seq![arrange[0]]);
    }
    assert(run_all(divided, arrange, dirs) =~= windows.push(rebuilt));
}

proof fn lemma_run_upto(session: saved::SessionView, n: int, dirs: Set<Seq<char>>)
    requires
        0 <= n <= session.windows.len(),
    ensures
        run_all(Seq::empty(), restore::commands_upto(session, n), dirs) == rebuilt_windows(
            session.windows.take(n),
            dirs,
        ),
    decreases n,
{
    let built = rebuilt_windows(session.windows.take(n), dirs);
    if n > 0 {
        lemma_run_upto(session, n - 1, dirs);
        let before = rebuilt_windows(session.windows.take(n - 1), dirs);
        lemma_run_concat(
            Seq::empty(),
            restore::commands_upto(session, n - 1),
            restore::window_commands(session.name, n - 1, session.windows[n - 1]),
            dirs,
        );
        lemma_run_window(before, session.name, session.windows[n - 1], dirs);
        assert(built =~= before.push(rebuilt_window(session.windows[n - 1], dirs)));
    } else {
        assert(built =~= Seq::<BuiltWindow>::empty());
    }
}

/// A restore rebuilds the structure that was saved: as many windows, in the same order, each
/// with its panes in the same order in their directories as far as these still exist, with
/// its layout, and with its name where the user had set one.
pub proof fn law_restore_rebuilds_the_session(session: saved::SessionView, dirs: Set<Seq<char>>)
    ensures
        run_all(Seq::empty(), restore::restore_commands(session), dirs) == rebuilt_windows(
            session.windows,
            dirs,
        ),
{
    lemma_run_upto(session, session.windows.len() as int, dirs);
    assert(session.windows.take(session.windows.len() as int) =~= session.windows);
}

/// The session that a command acts on.
pub open spec fn target(command: restore::CommandView) -> Seq<char> {
    match command {
        restore::CommandView::NewSession { name, .. } => name,
        restore::CommandView::RenameWindow { session, .. } => session,
        restore::CommandView::NewWindow { session, .. } => session,
        restore::CommandView::SplitWindow { session, .. } => session,
        restore::CommandView::SelectLayout { session, .. } => session,
    }
}

proof fn lemma_targets_upto(session: saved::SessionView, n: int)
    requires
        0 <= n <= session.windows.len(),
    ensures
        forall|k: int|
            0 <= k < restore::commands_upto(session, n).len() ==> target(
                #[trigger] restore::commands_upto(session, n)[k],
            ) == session.name,
    decreases n,
{
    if n > 0 {
        lemma_targets_upto(session, n - 1);
        let before = restore::commands_upto(session, n - 1);
        let own = restore::window_commands(session.name, n - 1, session.windows[n - 1]);
        let all = restore::commands_upto(session, n);
        assert forall|k: int| 0 <= k < own.len() implies target(#[trigger] own[k])
            == session.name by {}
        assert forall|k: int| 0 <= k < all.len() implies target(#[trigger] all[k])
            == session.name by {
            if k < before.len() {
                assert(all[k] == before[k]);
            } else {
                assert(all[k] == own[k - before.len()]);
            }
        }
    }
}

/// A restore acts on the one session that was saved and on no other.
pub proof fn law_restore_touches_one_session(session: saved::SessionView, k: int)
    requires
        0 <= k < restore::restore_commands(session).len(),
    ensures
        target(restore::restore_commands(session)[k]) == session.name,
{
    lemma_targets_upto(session, session.windows.len() as int);
}

/// A window whose name was automatic is never given a name by a restore, so tmux goes on
/// naming it.
pub proof fn law_automatic_names_stay_automatic(window: saved::WindowView, dirs: Set<Seq<char>>)
    requires
        window.automatic_rename,
    ensures
        rebuilt_window(window, dirs).name is None,
{
}

/// What was saved comes back: every pane that was listed is a pane of the restored session, in
/// its directory if that still exists, in a window with the layout of its window, and with
/// that window's name where the user had set one.
pub proof fn law_listed_panes_come_back(
    panes: Seq<snapshot::PaneView>,
    sessions: Seq<saved::SessionView>,
    n: int,
    dirs: Set<Seq<char>>,
) -> (at: (int, int, int))
    requires
        snapshot::snapshot(panes, sessions),
        0 <= n < panes.len(),
    ensures
        ({
            let (i, k, m) = at;
            let session = sessions[i];
            let built = run_all(Seq::empty(), restore::restore_commands(session), dirs);
            let (name, window) = (panes[n].session, panes[n].window_index);
            let path = snapshot::pane_path(panes, name, window, panes[n].pane_index);
            let first = snapshot::first_pane(panes, name, window);
            &&& 0 <= i < sessions.len()
            &&& session.name == name
            &&& 0 <= k < built.len()
            &&& 0 <= m < built[k].panes.len()
            &&& path is Some && first is Some
            &&& built[k].panes[m] == restore::usable(path->0, dirs.contains(path->0))
            &&& first->0.layout.len() > 0 ==> built[k].layout == Some(first->0.layout)
            &&& built[k].name == if !saved::renamed_automatically(
                first->0.auto_rename,
                first->0.window_name,
                snapshot::window_commands(panes, name, window),
            ) && first->0.window_name.len() > 0 {
                Some(first->0.window_name)
            } else {
                None
            }
        }),
{
    let name = panes[n].session;
    let window = panes[n].window_index;
    let pane = panes[n].pane_index;
    let all = snapshot::session_names(sessions);
    assert(snapshot::session_listed(panes, name));
    assert(all.contains(name));
    let i = choose|i: int| 0 <= i < all.len() && all[i] == name;
    let session = sessions[i];
    assert(session.name == name);
    assert(snapshot::session_snapshot(panes, session));
    lemma_listed_has_first(panes, n);
    lemma_listed_has_path(panes, n);
    let list = choose|list: Seq<u32>|
        {
            &&& #[trigger] snapshot::lists_windows(list, panes, session.name)
            &&& list.len() == session.windows.len()
            &&& forall|k: int|
                0 <= k < list.len() ==> snapshot::window_snapshot(
                    panes,
                    session.name,
                    #[trigger] list[k],
                    session.windows[k],
                )
        };
    assert(list.contains(window));
    let k = choose|k: int| 0 <= k < list.len() && list[k] == window;
    let saved_window = session.windows[k];
    assert(snapshot::window_snapshot(panes, name, list[k], saved_window));
    let places = choose|places: Seq<u32>|
        {
            &&& #[trigger] snapshot::lists_panes(places, panes, name, window)
            &&& places.len() == saved_window.panes.len()
            &&& forall|m: int|
                0 <= m < places.len() ==> snapshot::pane_path(
                    panes,
                    name,
                    window,
                    #[trigger] places[m],
                ) == Some(saved_window.panes[m])
        };
    assert(places.contains(pane));
    let m = choose|m: int| 0 <= m < places.len() && places[m] == pane;
    assert(snapshot::pane_path(panes, name, window, places[m]) == Some(saved_window.panes[m]));
    law_restore_rebuilds_the_session(session, dirs);
    (i, k, m)
}

/// A pane that was listed has a directory.
pub proof fn lemma_listed_has_path(panes: Seq<snapshot::PaneView>, n: int)
    requires
        0 <= n < panes.len(),
    ensures
        snapshot::pane_path(
            panes,
            panes[n].session,
            panes[n].window_index,
            panes[n].pane_index,
        ) is Some,
    decreases panes.len(),
{
    if n < panes.len() - 1 {
        lemma_listed_has_path(panes.drop_last(), n);
    }
}

// ---------------------------------------------------------------------------
// The order of the list
// ---------------------------------------------------------------------------

/// Whether the lines of each window agree on its name, layout and option, and those of each
/// pane on its directory. They do where no pane is listed twice and tmux says the same of a
/// window with each of its panes.
pub open spec fn lines_agree(panes: Seq<snapshot::PaneView>) -> bool {
    &&& forall|i: int, j: int|
        0 <= i < panes.len() && 0 <= j < panes.len() && snapshot::in_window(
            #[trigger] panes[i],
            (#[trigger] panes[j]).session,
            panes[j].window_index,
        ) ==> {
            &&& panes[i].window_name == panes[j].window_name
            &&& panes[i].layout == panes[j].layout
            &&& panes[i].auto_rename == panes[j].auto_rename
            &&& panes[i].pane_index == panes[j].pane_index ==> panes[i].path == panes[j].path
        }
}

/// Whether two lists of panes have the same members.
pub open spec fn same_members(a: Seq<snapshot::PaneView>, b: Seq<snapshot::PaneView>) -> bool {
    forall|pane: snapshot::PaneView| #[trigger] a.contains(pane) <==> b.contains(pane)
}

proof fn lemma_panes_of_lines(rows: Seq<Seq<char>>, pane: snapshot::PaneView)
    ensures
        snapshot::panes_of_lines(rows).contains(pane) <==> exists|i: int|
            0 <= i < rows.len() && snapshot::pane_of_line(#[trigger] rows[i]) == Some(pane),
    decreases rows.len(),
{
    let all = snapshot::panes_of_lines(rows);
    if rows.len() > 0 {
        let shorter = rows.drop_last();
        let before = snapshot::panes_of_lines(shorter);
        lemma_panes_of_lines(shorter, pane);
        if all.contains(pane) {
            let k = choose|k: int| 0 <= k < all.len() && all[k] == pane;
            if k < before.len() {
                assert(before[k] == pane);
                let i = choose|i: int|
                    0 <= i < shorter.len() && snapshot::pane_of_line(#[trigger] shorter[i])
                        == Some(pane);
                assert(rows[i] == shorter[i]);
            } else {
                assert(snapshot::pane_of_line(rows[rows.len() - 1]) == Some(pane));
            }
        }
        if exists|i: int|
            0 <= i < rows.len() && snapshot::pane_of_line(#[trigger] rows[i]) == Some(pane) {
            let i = choose|i: int|
                0 <= i < rows.len() && snapshot::pane_of_line(#[trigger] rows[i]) == Some(pane);
            if i < rows.len() - 1 {
                assert(shorter[i] == rows[i]);
                assert(before.contains(pane));
                let k = choose|k: int| 0 <= k < before.len() && before[k] == pane;
                assert(all[k] == pane);
            } else {
                assert(all[all.len() - 1] == pane);
            }
        }
    }
}

/// The first pane of a window is one that was listed.
pub proof fn lemma_first_is_member(panes: Seq<snapshot::PaneView>, name: Seq<char>, window: u32)
    requires
        snapshot::first_pane(panes, name, window) is Some,
    ensures
        panes.contains(snapshot::first_pane(panes, name, window)->0),
        snapshot::in_window(snapshot::first_pane(panes, name, window)->0, name, window),
    decreases panes.len(),
{
    let shorter = panes.drop_last();
    if snapshot::first_pane(shorter, name, window) is Some {
        lemma_first_is_member(shorter, name, window);
        let first = snapshot::first_pane(shorter, name, window)->0;
        let k = choose|k: int| 0 <= k < shorter.len() && shorter[k] == first;
        assert(panes[k] == first);
    } else {
        assert(panes[panes.len() - 1] == panes.last());
    }
}

/// The line that a pane has its directory from.
pub proof fn lemma_path_is_member(
    panes: Seq<snapshot::PaneView>,
    name: Seq<char>,
    window: u32,
    pane: u32,
) -> (k: int)
    requires
        snapshot::pane_path(panes, name, window, pane) is Some,
    ensures
        0 <= k < panes.len(),
        snapshot::in_window(panes[k], name, window),
        panes[k].pane_index == pane,
        Some(panes[k].path) == snapshot::pane_path(panes, name, window, pane),
    decreases panes.len(),
{
    if snapshot::in_window(panes.last(), name, window) && panes.last().pane_index == pane {
        panes.len() - 1
    } else {
        lemma_path_is_member(panes.drop_last(), name, window, pane)
    }
}

/// The commands of a window are those of its lines.
pub proof fn lemma_command_is_member(
    panes: Seq<snapshot::PaneView>,
    name: Seq<char>,
    window: u32,
    command: Seq<char>,
)
    ensures
        snapshot::window_commands(panes, name, window).contains(command) <==> exists|i: int|
            0 <= i < panes.len() && snapshot::in_window(#[trigger] panes[i], name, window)
                && panes[i].command == command,
    decreases panes.len(),
{
    let all = snapshot::window_commands(panes, name, window);
    if panes.len() > 0 {
        let shorter = panes.drop_last();
        let before = snapshot::window_commands(shorter, name, window);
        lemma_command_is_member(shorter, name, window, command);
        if all.contains(command) {
            let k = choose|k: int| 0 <= k < all.len() && all[k] == command;
            if k < before.len() {
                assert(before[k] == command);
                let i = choose|i: int|
                    0 <= i < shorter.len() && snapshot::in_window(
                        #[trigger] shorter[i],
                        name,
                        window,
                    ) && shorter[i].command == command;
                assert(panes[i] == shorter[i]);
            } else {
                assert(panes[panes.len() - 1].command == command);
            }
        }
        if exists|i: int|
            0 <= i < panes.len() && snapshot::in_window(#[trigger] panes[i], name, window)
                && panes[i].command == command {
            let i = choose|i: int|
                0 <= i < panes.len() && snapshot::in_window(#[trigger] panes[i], name, window)
                    && panes[i].command == command;
            if i < panes.len() - 1 {
                assert(shorter[i] == panes[i]);
                assert(before.contains(command));
                let k = choose|k: int| 0 <= k < before.len() && before[k] == command;
                assert(all[k] == command);
            } else {
                assert(all[all.len() - 1] == command);
            }
        }
    }
}

/// Where the lines agree, what is read of a window and its panes depends on which lines there
/// are alone.
proof fn lemma_window_of_members(
    a: Seq<snapshot::PaneView>,
    b: Seq<snapshot::PaneView>,
    name: Seq<char>,
    window: u32,
)
    requires
        lines_agree(a),
        same_members(a, b),
    ensures
        snapshot::first_pane(a, name, window) is Some <==> snapshot::first_pane(
            b,
            name,
            window,
        ) is Some,
        snapshot::first_pane(a, name, window) matches Some(p) ==> {
            let q = snapshot::first_pane(b, name, window)->0;
            &&& p.window_name == q.window_name
            &&& p.layout == q.layout
            &&& p.auto_rename == q.auto_rename
        },
        forall|pane: u32| #[trigger]
            snapshot::pane_path(a, name, window, pane) == snapshot::pane_path(
                b,
                name,
                window,
                pane,
            ),
        forall|command: Seq<char>| #[trigger]
            snapshot::window_commands(a, name, window).contains(command)
                <==> snapshot::window_commands(b, name, window).contains(command),
{
    if snapshot::first_pane(a, name, window) is Some {
        lemma_first_is_member(a, name, window);
        let p = snapshot::first_pane(a, name, window)->0;
        assert(b.contains(p));
        let k = choose|k: int| 0 <= k < b.len() && b[k] == p;
        lemma_listed_has_first(b, k);
    }
    if snapshot::first_pane(b, name, window) is Some {
        lemma_first_is_member(b, name, window);
        let q = snapshot::first_pane(b, name, window)->0;
        assert(a.contains(q));
        let k = choose|k: int| 0 <= k < a.len() && a[k] == q;
        lemma_listed_has_first(a, k);
        lemma_first_is_member(a, name, window);
        let p = snapshot::first_pane(a, name, window)->0;
        let m = choose|m: int| 0 <= m < a.len() && a[m] == p;
        assert(snapshot::in_window(a[m], a[k].session, a[k].window_index));
    }
    assert forall|pane: u32| #[trigger]
        snapshot::pane_path(a, name, window, pane) == snapshot::pane_path(
            b,
            name,
            window,
            pane,
        ) by {
        if snapshot::pane_path(a, name, window, pane) is Some {
            let k = lemma_path_is_member(a, name, window, pane);
            assert(a.contains(a[k]));
            assert(b.contains(a[k]));
            let m = choose|m: int| 0 <= m < b.len() && b[m] == a[k];
            lemma_listed_has_path(b, m);
        }
        if snapshot::pane_path(b, name, window, pane) is Some {
            let k = lemma_path_is_member(b, name, window, pane);
            assert(b.contains(b[k]));
            assert(a.contains(b[k]));
            let m = choose|m: int| 0 <= m < a.len() && a[m] == b[k];
            lemma_listed_has_path(a, m);
            let l = lemma_path_is_member(a, name, window, pane);
            assert(snapshot::in_window(a[l], a[m].session, a[m].window_index));
        }
    }
    assert forall|command: Seq<char>| #[trigger]
        snapshot::window_commands(a, name, window).contains(command) <==> snapshot::window_commands(
        b,
        name,
        window,
    ).contains(command) by {
        lemma_command_is_member(a, name, window, command);
        lemma_command_is_member(b, name, window, command);
        if snapshot::window_commands(a, name, window).contains(command) {
            let i = choose|i: int|
                0 <= i < a.len() && snapshot::in_window(#[trigger] a[i], name, window)
                    && a[i].command == command;
            assert(a.contains(a[i]));
            assert(b.contains(a[i]));
            let k = choose|k: int| 0 <= k < b.len() && b[k] == a[i];
            assert(snapshot::in_window(b[k], name, window));
        }
        if snapshot::window_commands(b, name, window).contains(command) {
            let i = choose|i: int|
                0 <= i < b.len() && snapshot::in_window(#[trigger] b[i], name, window)
                    && b[i].command == command;
            assert(b.contains(b[i]));
            assert(a.contains(b[i]));
            let k = choose|k: int| 0 <= k < a.len() && a[k] == b[i];
            assert(snapshot::in_window(a[k], name, window));
        }
    }
}

proof fn lemma_window_snapshot_of_members(
    a: Seq<snapshot::PaneView>,
    b: Seq<snapshot::PaneView>,
    name: Seq<char>,
    window: u32,
    view: saved::WindowView,
)
    requires
        lines_agree(a),
        same_members(a, b),
        snapshot::window_snapshot(a, name, window, view),
    ensures
        snapshot::window_snapshot(b, name, window, view),
{
    lemma_window_of_members(a, b, name, window);
    let list = choose|list: Seq<u32>|
        {
            &&& #[trigger] snapshot::lists_panes(list, a, name, window)
            &&& list.len() == view.panes.len()
            &&& forall|k: int|
                0 <= k < list.len() ==> snapshot::pane_path(a, name, window, #[trigger] list[k])
                    == Some(view.panes[k])
        };
    assert forall|p: u32| #[trigger] list.contains(p) <==> snapshot::pane_path(
        b,
        name,
        window,
        p,
    ) is Some by {
        assert(snapshot::pane_path(a, name, window, p) == snapshot::pane_path(b, name, window, p));
    }
    assert(snapshot::lists_panes(list, b, name, window));
    assert forall|k: int| 0 <= k < list.len() implies snapshot::pane_path(
        b,
        name,
        window,
        #[trigger] list[k],
    ) == Some(view.panes[k]) by {
        assert(snapshot::pane_path(a, name, window, list[k]) == Some(view.panes[k]));
    }
    assert(snapshot::window_dirs(b, name, window, view.panes));
    let first = snapshot::first_pane(a, name, window)->0;
    assert(snapshot::window_commands(a, name, window).contains(first.window_name)
        <==> snapshot::window_commands(b, name, window).contains(first.window_name));
}

proof fn lemma_snapshot_of_members(
    a: Seq<snapshot::PaneView>,
    b: Seq<snapshot::PaneView>,
    sessions: Seq<saved::SessionView>,
)
    requires
        lines_agree(a),
        same_members(a, b),
        snapshot::snapshot(a, sessions),
    ensures
        snapshot::snapshot(b, sessions),
{
    assert forall|name: Seq<char>| #[trigger]
        snapshot::session_names(sessions).contains(name) <==> snapshot::session_listed(b, name) by {
        assert(snapshot::session_names(sessions).contains(name) <==> snapshot::session_listed(
            a,
            name,
        ));
        if snapshot::session_listed(a, name) {
            let k = choose|k: int| 0 <= k < a.len() && #[trigger] a[k].session == name;
            assert(a.contains(a[k]));
            assert(b.contains(a[k]));
            let m = choose|m: int| 0 <= m < b.len() && b[m] == a[k];
            assert(b[m].session == name);
        }
        if snapshot::session_listed(b, name) {
            let k = choose|k: int| 0 <= k < b.len() && #[trigger] b[k].session == name;
            assert(b.contains(b[k]));
            assert(a.contains(b[k]));
            let m = choose|m: int| 0 <= m < a.len() && a[m] == b[k];
            assert(a[m].session == name);
        }
    }
    assert forall|i: int| 0 <= i < sessions.len() implies snapshot::session_snapshot(
        b,
        #[trigger] sessions[i],
    ) by {
        let session = sessions[i];
        assert(snapshot::session_snapshot(a, session));
        let list = choose|list: Seq<u32>|
            {
                &&& #[trigger] snapshot::lists_windows(list, a, session.name)
                &&& list.len() == session.windows.len()
                &&& forall|k: int|
                    0 <= k < list.len() ==> snapshot::window_snapshot(
                        a,
                        session.name,
                        #[trigger] list[k],
                        session.windows[k],
                    )
            };
        assert forall|w: u32| #[trigger] list.contains(w) <==> snapshot::first_pane(
            b,
            session.name,
            w,
        ) is Some by {
            lemma_window_of_members(a, b, session.name, w);
        }
        assert(snapshot::lists_windows(list, b, session.name));
        assert forall|k: int| 0 <= k < list.len() implies snapshot::window_snapshot(
            b,
            session.name,
            #[trigger] list[k],
            session.windows[k],
        ) by {
            lemma_window_snapshot_of_members(a, b, session.name, list[k], session.windows[k]);
        }
    }
}

/// The order of tmux's list makes no difference to what is saved: two listings with the same
/// lines in another order have the same snapshots, where the lines of each window and pane
/// agree.
pub proof fn law_listing_order_makes_no_difference(
    listing: Seq<char>,
    shuffled: Seq<char>,
    a: Seq<saved::SessionView>,
    b: Seq<saved::SessionView>,
)
    requires
        text::lines(listing).to_multiset() == text::lines(shuffled).to_multiset(),
        lines_agree(snapshot::listed_panes(listing)),
        snapshot::snapshot(snapshot::listed_panes(listing), a),
        snapshot::snapshot(snapshot::listed_panes(shuffled), b),
    ensures
        a == b,
{
    let one = text::lines(listing);
    let other = text::lines(shuffled);
    one.to_multiset_ensures();
    other.to_multiset_ensures();
    let panes = snapshot::listed_panes(listing);
    let moved = snapshot::listed_panes(shuffled);
    assert forall|pane: snapshot::PaneView| #[trigger] panes.contains(pane) <==> moved.contains(
        pane,
    ) by {
        lemma_panes_of_lines(one, pane);
        lemma_panes_of_lines(other, pane);
        if panes.contains(pane) {
            let i = choose|i: int|
                0 <= i < one.len() && snapshot::pane_of_line(#[trigger] one[i]) == Some(pane);
            assert(one.contains(one[i]));
            assert(one.to_multiset().count(one[i]) > 0);
            assert(other.contains(one[i]));
            let k = choose|k: int| 0 <= k < other.len() && other[k] == one[i];
            assert(snapshot::pane_of_line(other[k]) == Some(pane));
        }
        if moved.contains(pane) {
            let i = choose|i: int|
                0 <= i < other.len() && snapshot::pane_of_line(#[trigger] other[i]) == Some(pane);
            assert(other.contains(other[i]));
            assert(other.to_multiset().count(other[i]) > 0);
            assert(one.contains(other[i]));
            let k = choose|k: int| 0 <= k < one.len() && one[k] == other[i];
            assert(snapshot::pane_of_line(one[k]) == Some(pane));
        }
    }
    lemma_snapshot_of_members(panes, moved, a);
    law_one_snapshot_per_listing(moved, a, b);
}

} // verus!
