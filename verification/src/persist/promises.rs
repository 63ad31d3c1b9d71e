//! What each part of persistence promises, by what goes in and what comes out.

use vstd::prelude::*;

use crate::persist::boot;
use crate::persist::config::Config;
use crate::persist::laws;
use crate::persist::lock;
use crate::persist::names;
use crate::persist::paths;
use crate::persist::restore;
use crate::persist::restore::TmuxCommand;
use crate::persist::saved;
use crate::persist::saved::{SavedSession, SavedWindow};
use crate::persist::saver;
use crate::persist::snapshot;
use crate::persist::snapshot::{PaneRecord, SessionFile};
use crate::text;

verus! {

// ---------------------------------------------------------------------------
// Settings
// ---------------------------------------------------------------------------

/// Lazy restore is on only where it was switched on, and the interval is the one that was set,
/// or else a quarter of an hour.
pub proof fn law_settings(config: Config)
    ensures
        config.restores() <==> config.lazy_restore == Some(true),
        config.save_interval matches Some(minutes) ==> config.interval() == minutes,
        config.save_interval is None ==> config.interval() == 15,
{
}

// ---------------------------------------------------------------------------
// Names
// ---------------------------------------------------------------------------

/// Every character of a name is kept where it is a letter, a digit, a hyphen or an underscore,
/// and is an underscore otherwise.
pub proof fn law_names_are_reduced_by_character(name: Seq<char>)
    ensures
        names::safe_name(name).len() == name.len(),
        forall|i: int|
            0 <= i < name.len() ==> {
                let c = #[trigger] name[i];
                let kept = names::safe_name(name)[i];
                &&& 'a' <= c <= 'z' || 'A' <= c <= 'Z' || '0' <= c <= '9' || c == '-' || c == '_'
                    ==> kept == c
                &&& (c as u32) >= 128 && names::unicode_alphanumeric(c) ==> kept == c
                &&& (c as u32) >= 128 && !names::unicode_alphanumeric(c) ==> kept == '_'
                &&& (c as u32) < 128 && !('a' <= c <= 'z') && !('A' <= c <= 'Z') && !('0' <= c
                    <= '9') && c != '-' ==> kept == '_'
            },
        names::older_file_name(name) == names::safe_name(name) + ".json"@,
{
}

/// A snapshot is looked for under the session's file name and then under its older one, and
/// both are JSON files.
pub proof fn law_files_of_a_session(name: Seq<char>)
    ensures
        names::snapshot_files(name) == seq![names::file_name(name), names::older_file_name(name)],
        exists|stem: Seq<char>| names::file_name(name) == #[trigger] (stem + ".json"@),
{
    assert(names::file_name(name) == names::escaped(name) + ".json"@);
}

// ---------------------------------------------------------------------------
// What values say
// ---------------------------------------------------------------------------

/// A saved window and a saved session say all that they hold.
pub proof fn law_snapshots_say_everything(window: SavedWindow, session: SavedSession)
    ensures
        window@.name == window.name@,
        window@.automatic_rename == window.automatic_rename,
        window@.layout == window.layout@,
        window@.panes.len() == window.panes@.len(),
        forall|m: int|
            0 <= m < window.panes@.len() ==> #[trigger] window@.panes[m] == window.panes@[m]@,
        session@.name == session.name@,
        session@.windows.len() == session.windows@.len(),
        forall|k: int|
            0 <= k < session.windows@.len() ==> #[trigger] session@.windows[k]
                == session.windows@[k]@,
{
}

/// A pane says all that was read of its line.
pub proof fn law_panes_say_everything(pane: PaneRecord)
    ensures
        pane@.session == pane.session@,
        pane@.window_index == pane.window_index,
        pane@.window_name == pane.window_name@,
        pane@.layout == pane.layout@,
        pane@.pane_index == pane.pane_index,
        pane@.path == pane.path@,
        pane@.auto_rename == pane.auto_rename,
        pane@.command == pane.command@,
{
}

/// A tmux command says all that it holds.
pub proof fn law_commands_say_everything(command: TmuxCommand)
    ensures
        match command {
            TmuxCommand::NewSession { name, dir } => command@ == (
            restore::CommandView::NewSession {
                name: name@,
                dir: match dir {
                    Some(d) => Some(d@),
                    None => None,
                },
            }),
            TmuxCommand::RenameWindow { session, name } => command@ == (
            restore::CommandView::RenameWindow { session: session@, name: name@ }),
            TmuxCommand::NewWindow { session, window_name, dir } => command@ == (
            restore::CommandView::NewWindow {
                session: session@,
                window_name: match window_name {
                    Some(n) => Some(n@),
                    None => None,
                },
                dir: match dir {
                    Some(d) => Some(d@),
                    None => None,
                },
            }),
            TmuxCommand::SplitWindow { session, dir } => command@ == (
            restore::CommandView::SplitWindow {
                session: session@,
                dir: match dir {
                    Some(d) => Some(d@),
                    None => None,
                },
            }),
            TmuxCommand::SelectLayout { session, layout } => command@ == (
            restore::CommandView::SelectLayout { session: session@, layout: layout@ }),
        },
{
}

/// What lists say is what each of their entries says, in order.
pub proof fn law_lists_say_everything(
    files: Seq<SessionFile>,
    panes: Seq<PaneRecord>,
    commands: Seq<TmuxCommand>,
    session: &SavedSession,
)
    ensures
        snapshot::saved_sessions(files).len() == files.len(),
        forall|i: int|
            0 <= i < files.len() ==> #[trigger] snapshot::saved_sessions(files)[i]
                == files[i].session@,
        snapshot::pane_views(panes).len() == panes.len(),
        forall|i: int|
            0 <= i < panes.len() ==> #[trigger] snapshot::pane_views(panes)[i] == panes[i]@,
        restore::command_views(commands).len() == commands.len(),
        forall|i: int|
            0 <= i < commands.len() ==> #[trigger] restore::command_views(commands)[i]
                == commands[i]@,
        restore::opt_saved(Some(session)) == Some(session@),
        restore::opt_saved(None) is None,
{
}

// ---------------------------------------------------------------------------
// Reading tmux's list of panes
// ---------------------------------------------------------------------------

/// tmux is asked for the eight fields of a pane in the order in which they are read.
pub proof fn law_format_of_the_list()
    ensures
        snapshot::PANE_FORMAT@ == text::laws::fields_joined(
            seq![
                "#{session_name}"@,
                "#{window_index}"@,
                "#{window_name}"@,
                "#{window_layout}"@,
                "#{pane_index}"@,
                "#{pane_current_path}"@,
                "#{E:automatic-rename}"@,
                "#{pane_current_command}"@,
            ],
            '\t',
        ),
{
    reveal_strlit(
        "#{session_name}\t#{window_index}\t#{window_name}\t#{window_layout}\t#{pane_index}\t#{pane_current_path}\t#{E:automatic-rename}\t#{pane_current_command}",
    );
    reveal_strlit("#{session_name}");
    reveal_strlit("#{window_index}");
    reveal_strlit("#{window_name}");
    reveal_strlit("#{window_layout}");
    reveal_strlit("#{pane_index}");
    reveal_strlit("#{pane_current_path}");
    reveal_strlit("#{E:automatic-rename}");
    reveal_strlit("#{pane_current_command}");
    let fields = seq![
        "#{session_name}"@,
        "#{window_index}"@,
        "#{window_name}"@,
        "#{window_layout}"@,
        "#{pane_index}"@,
        "#{pane_current_path}"@,
        "#{E:automatic-rename}"@,
        "#{pane_current_command}"@,
    ];
    reveal_with_fuel(text::laws::fields_joined, 9);
    assert(fields.skip(1)[0] == fields[1]);
    assert(fields.skip(1).skip(1) =~= fields.skip(2));
    assert(fields.skip(2).skip(1) =~= fields.skip(3));
    assert(fields.skip(3).skip(1) =~= fields.skip(4));
    assert(fields.skip(4).skip(1) =~= fields.skip(5));
    assert(fields.skip(5).skip(1) =~= fields.skip(6));
    assert(fields.skip(6).skip(1) =~= fields.skip(7));
    assert(snapshot::PANE_FORMAT@ =~= text::laws::fields_joined(fields, '\t'));
}

/// A line is read as a pane exactly when it has eight fields between tabs, with a number in the
/// second and the fifth; and then every field of it stands in the pane as it is.
pub proof fn law_pane_lines_are_read_field_by_field(fields: Seq<Seq<char>>)
    requires
        fields.len() > 0,
        forall|i: int| 0 <= i < fields.len() ==> !(#[trigger] fields[i]).contains('\t'),
    ensures
        ({
            let pane = snapshot::pane_of_line(text::laws::fields_joined(fields, '\t'));
            let window_index = text::unsigned(fields[1], u32::MAX as nat);
            let pane_index = text::unsigned(fields[4], u32::MAX as nat);
            &&& pane is Some <==> fields.len() == 8 && window_index is Some && pane_index is Some
            &&& pane matches Some(p) ==> {
                &&& p.session == fields[0]
                &&& p.window_index == window_index->0
                &&& p.window_name == fields[2]
                &&& p.layout == fields[3]
                &&& p.pane_index == pane_index->0
                &&& p.path == fields[5]
                &&& p.auto_rename <==> fields[6].len() == 1 && fields[6][0] == '1'
                &&& p.command == fields[7]
            }
        }),
{
    text::laws::law_fields_read_back(fields, '\t');
    if fields.len() == 8 && fields[6].len() == 1 && fields[6][0] == '1' {
        assert(fields[6] =~= seq!['1']);
    }
}

/// The line that tmux writes of a pane in the format of the list, where it writes `option` of
/// the window's `automatic-rename`.
pub open spec fn pane_text(pane: snapshot::PaneView, option: Seq<char>) -> Seq<char> {
    text::laws::fields_joined(
        seq![
            pane.session,
            text::decimal(pane.window_index as nat),
            pane.window_name,
            pane.layout,
            text::decimal(pane.pane_index as nat),
            pane.path,
            option,
            pane.command,
        ],
        '\t',
    )
}

/// A pane that was written out reads back as itself: with the same session, indices, names,
/// layout, directory and command, and with automatic rename on exactly when tmux wrote `1`.
pub proof fn law_pane_reads_back(pane: snapshot::PaneView, option: Seq<char>)
    requires
        !pane.session.contains('\t'),
        !pane.window_name.contains('\t'),
        !pane.layout.contains('\t'),
        !pane.path.contains('\t'),
        !option.contains('\t'),
        !pane.command.contains('\t'),
    ensures
        snapshot::pane_of_line(pane_text(pane, option)) matches Some(p) && {
            &&& p.session == pane.session
            &&& p.window_index == pane.window_index
            &&& p.window_name == pane.window_name
            &&& p.layout == pane.layout
            &&& p.pane_index == pane.pane_index
            &&& p.path == pane.path
            &&& p.auto_rename <==> option.len() == 1 && option[0] == '1'
            &&& p.command == pane.command
        },
{
    let fields = seq![
        pane.session,
        text::decimal(pane.window_index as nat),
        pane.window_name,
        pane.layout,
        text::decimal(pane.pane_index as nat),
        pane.path,
        option,
        pane.command,
    ];
    lemma_decimal_field(pane.window_index);
    lemma_decimal_field(pane.pane_index);
    law_pane_lines_are_read_field_by_field(fields);
}

/// A number in base ten holds no tab, newline or quote, and reads back as itself.
proof fn lemma_decimal_field(n: u32)
    ensures
        !text::decimal(n as nat).contains('\t'),
        !text::decimal(n as nat).contains('\n'),
        text::unsigned(text::decimal(n as nat), u32::MAX as nat) == Some(n as nat),
{
    let digits = text::decimal(n as nat);
    text::lemma_decimal(n as nat);
    assert('0' <= digits[0] <= '9');
    assert(text::unsigned_digits(digits) == digits);
    if digits.contains('\t') {
        let i = choose|i: int| 0 <= i < digits.len() && digits[i] == '\t';
        assert('0' <= digits[i] <= '9');
    }
    if digits.contains('\n') {
        let i = choose|i: int| 0 <= i < digits.len() && digits[i] == '\n';
        assert('0' <= digits[i] <= '9');
    }
}

proof fn lemma_panes_concat(a: Seq<Seq<char>>, b: Seq<Seq<char>>)
    ensures
        snapshot::panes_of_lines(a + b) == snapshot::panes_of_lines(a) + snapshot::panes_of_lines(
            b,
        ),
    decreases b.len(),
{
    if b.len() == 0 {
        assert(a + b =~= a);
        assert(snapshot::panes_of_lines(a) + snapshot::panes_of_lines(b)
            =~= snapshot::panes_of_lines(a));
    } else {
        assert((a + b).drop_last() =~= a + b.drop_last());
        assert((a + b).last() == b.last());
        lemma_panes_concat(a, b.drop_last());
        assert(snapshot::panes_of_lines(a + b) =~= snapshot::panes_of_lines(a)
            + snapshot::panes_of_lines(b));
    }
}

/// The list is read line by line: a line that is a pane comes first, and then what follows; a
/// line that is none is passed over.
pub proof fn law_list_is_read_line_by_line(row: Seq<char>, rest: Seq<char>)
    requires
        !row.contains('\n'),
        row.len() == 0 || row.last() != '\r',
    ensures
        snapshot::listed_panes(row + seq!['\n'] + rest) == match snapshot::pane_of_line(row) {
            Some(pane) => seq![pane] + snapshot::listed_panes(rest),
            None => snapshot::listed_panes(rest),
        },
        snapshot::listed_panes(Seq::empty()).len() == 0,
{
    text::laws::law_lines_one_by_one(row, rest);
    let one = seq![row];
    lemma_panes_concat(one, text::lines(rest));
    assert(one.drop_last() =~= Seq::<Seq<char>>::empty());
    assert(snapshot::panes_of_lines(one.drop_last()) == Seq::<snapshot::PaneView>::empty());
    assert(one.last() == row);
    match snapshot::pane_of_line(row) {
        Some(pane) => {
            assert(snapshot::panes_of_lines(one) =~= seq![pane]);
        },
        None => {
            assert(snapshot::panes_of_lines(one) + snapshot::listed_panes(rest)
                =~= snapshot::listed_panes(rest));
        },
    }
}

// ---------------------------------------------------------------------------
// Snapshots
// ---------------------------------------------------------------------------

/// A window's name counts as automatic exactly when tmux says so, or when it is not empty and
/// one of the window's panes runs a command of that name.
pub proof fn law_automatic_names(option_on: bool, name: Seq<char>, commands: Seq<Seq<char>>)
    ensures
        saved::renamed_automatically(option_on, name, commands) <==> option_on || exists|i: int|
            0 <= i < commands.len() && #[trigger] commands[i] == name && name.len() > 0,
{
    if commands.contains(name) {
        let i = choose|i: int| 0 <= i < commands.len() && commands[i] == name;
        assert(commands[i] == name);
    }
}

/// Whether line `n` is the last of its pane.
pub open spec fn last_of_pane(panes: Seq<snapshot::PaneView>, n: int) -> bool {
    &&& 0 <= n < panes.len()
    &&& forall|m: int|
        n < m < panes.len() ==> !((#[trigger] panes[m]).session == panes[n].session
            && panes[m].window_index == panes[n].window_index && panes[m].pane_index
            == panes[n].pane_index)
}

/// Whether line `n` is the first of its window.
pub open spec fn first_of_window(panes: Seq<snapshot::PaneView>, n: int) -> bool {
    &&& 0 <= n < panes.len()
    &&& forall|m: int|
        0 <= m < n ==> !((#[trigger] panes[m]).session == panes[n].session
            && panes[m].window_index == panes[n].window_index)
}

proof fn lemma_path_of_last(panes: Seq<snapshot::PaneView>, n: int)
    requires
        last_of_pane(panes, n),
    ensures
        snapshot::pane_path(
            panes,
            panes[n].session,
            panes[n].window_index,
            panes[n].pane_index,
        ) == Some(panes[n].path),
    decreases panes.len(),
{
    if n < panes.len() - 1 {
        let shorter = panes.drop_last();
        assert(panes[panes.len() - 1] == panes.last());
        assert forall|m: int| n < m < shorter.len() implies !((#[trigger] shorter[m]).session
            == shorter[n].session && shorter[m].window_index == shorter[n].window_index
            && shorter[m].pane_index == shorter[n].pane_index) by {
            assert(shorter[m] == panes[m]);
        }
        lemma_path_of_last(shorter, n);
    }
}

proof fn lemma_first_of_window(panes: Seq<snapshot::PaneView>, n: int)
    requires
        first_of_window(panes, n),
    ensures
        snapshot::first_pane(panes, panes[n].session, panes[n].window_index) == Some(panes[n]),
    decreases panes.len(),
{
    let shorter = panes.drop_last();
    if n < panes.len() - 1 {
        assert forall|m: int| 0 <= m < n implies !((#[trigger] shorter[m]).session
            == shorter[n].session && shorter[m].window_index == shorter[n].window_index) by {
            assert(shorter[m] == panes[m]);
        }
        lemma_first_of_window(shorter, n);
    } else if snapshot::first_pane(shorter, panes[n].session, panes[n].window_index) is Some {
        laws::lemma_first_is_member(shorter, panes[n].session, panes[n].window_index);
        let first = snapshot::first_pane(shorter, panes[n].session, panes[n].window_index)->0;
        let m = choose|m: int| 0 <= m < shorter.len() && shorter[m] == first;
        assert(panes[m] == first);
    }
}

/// Where line `n` stands in a snapshot: the session, the window and the pane.
proof fn lemma_place(
    panes: Seq<snapshot::PaneView>,
    sessions: Seq<saved::SessionView>,
    windows: Seq<u32>,
    i: int,
    n: int,
) -> (at: (int, int))
    requires
        0 <= n < panes.len(),
        0 <= i < sessions.len(),
        sessions[i].name == panes[n].session,
        snapshot::lists_windows(windows, panes, sessions[i].name),
        windows.len() == sessions[i].windows.len(),
        forall|k: int|
            0 <= k < windows.len() ==> snapshot::window_snapshot(
                panes,
                sessions[i].name,
                #[trigger] windows[k],
                sessions[i].windows[k],
            ),
    ensures
        0 <= at.0 < windows.len(),
        windows[at.0] == panes[n].window_index,
        0 <= at.1 < sessions[i].windows[at.0].panes.len(),
        ({
            let list = pane_indices(panes, sessions[i].name, windows[at.0], sessions[i].windows[at.0].panes);
            &&& list.len() == sessions[i].windows[at.0].panes.len()
            &&& snapshot::increasing(list)
            &&& list[at.1] == panes[n].pane_index
            &&& snapshot::pane_path(panes, sessions[i].name, windows[at.0], list[at.1]) == Some(
                sessions[i].windows[at.0].panes[at.1],
            )
        }),
{
    let name = sessions[i].name;
    laws::lemma_listed_has_first(panes, n);
    laws::lemma_listed_has_path(panes, n);
    assert(windows.contains(panes[n].window_index));
    let k = choose|k: int| 0 <= k < windows.len() && windows[k] == panes[n].window_index;
    assert(snapshot::window_snapshot(panes, name, windows[k], sessions[i].windows[k]));
    let dirs = sessions[i].windows[k].panes;
    let list = pane_indices(panes, name, windows[k], dirs);
    assert(snapshot::window_dirs(panes, name, windows[k], dirs));
    assert(list.contains(panes[n].pane_index));
    let m = choose|m: int| 0 <= m < list.len() && list[m] == panes[n].pane_index;
    (k, m)
}

/// The indices of the panes whose directories are `dirs`.
spec fn pane_indices(
    panes: Seq<snapshot::PaneView>,
    name: Seq<char>,
    window: u32,
    dirs: Seq<Seq<char>>,
) -> Seq<u32> {
    choose|list: Seq<u32>|
        {
            &&& #[trigger] snapshot::lists_panes(list, panes, name, window)
            &&& list.len() == dirs.len()
            &&& forall|k: int|
                0 <= k < list.len() ==> snapshot::pane_path(panes, name, window, #[trigger] list[k])
                    == Some(dirs[k])
        }
}

/// What is saved of a line: its session is there under its name; in it, its window, with the
/// name and layout of the first line of that window, and with a name that counts as automatic
/// exactly when that line says so or a pane of the window runs a command of that name; and in
/// that, its directory, where no later line is of the same pane. Of two lines of a session, the
/// one with the smaller window index, and in one window that with the smaller pane index, stands
/// before the other.
pub proof fn law_lines_are_saved(
    panes: Seq<snapshot::PaneView>,
    sessions: Seq<saved::SessionView>,
    a: int,
    b: int,
    first: int,
) -> (at: (int, int, int, int, int))
    requires
        snapshot::snapshot(panes, sessions),
        last_of_pane(panes, a),
        last_of_pane(panes, b),
        panes[a].session == panes[b].session,
        first_of_window(panes, first),
        panes[first].session == panes[a].session,
        panes[first].window_index == panes[a].window_index,
    ensures
        ({
            let (i, k, m, l, o) = at;
            let windows = sessions[i].windows;
            &&& 0 <= i < sessions.len() && 0 <= k < windows.len() && 0 <= l < windows.len()
            &&& 0 <= m < windows[k].panes.len() && 0 <= o < windows[l].panes.len()
            &&& sessions[i].name == panes[a].session
            &&& windows[k].name == panes[first].window_name
            &&& windows[k].layout == panes[first].layout
            &&& windows[k].automatic_rename <==> panes[first].auto_rename || exists|n: int|
                0 <= n < panes.len() && (#[trigger] panes[n]).session == panes[a].session
                    && panes[n].window_index == panes[a].window_index && panes[n].command
                    == panes[first].window_name && panes[n].command.len() > 0
            &&& windows[k].panes[m] == panes[a].path
            &&& windows[l].panes[o] == panes[b].path
            &&& panes[a].window_index < panes[b].window_index ==> k < l
            &&& panes[a].window_index == panes[b].window_index ==> k == l
            &&& panes[a].window_index == panes[b].window_index && panes[a].pane_index
                < panes[b].pane_index ==> m < o
        }),
{
    let name = panes[a].session;
    let all = snapshot::session_names(sessions);
    assert(snapshot::session_listed(panes, name));
    assert(all.contains(name));
    let i = choose|i: int| 0 <= i < all.len() && all[i] == name;
    let session = sessions[i];
    assert(session.name == name);
    assert(snapshot::session_snapshot(panes, session));
    let list = choose|list: Seq<u32>|
        {
            &&& #[trigger] snapshot::lists_windows(list, panes, session.name)
            &&& list.len() == session.windows.len()
            &&& forall|k: int|
                0 <= k < list.len() ==> snapshot::window_snapshot(
                    panes,
                    session.name,
                    #[trigger] list[k],
                    session.windows[k],
                )
        };
    let (k, m) = lemma_place(panes, sessions, list, i, a);
    let (l, o) = lemma_place(panes, sessions, list, i, b);
    lemma_path_of_last(panes, a);
    lemma_path_of_last(panes, b);
    lemma_first_of_window(panes, first);
    assert(snapshot::window_snapshot(panes, name, list[k], session.windows[k]));
    let window = panes[a].window_index;
    let title = panes[first].window_name;
    laws::lemma_command_is_member(panes, name, window, title);
    law_automatic_names(
        panes[first].auto_rename,
        title,
        snapshot::window_commands(panes, name, window),
    );
    if exists|n: int|
        0 <= n < panes.len() && (#[trigger] panes[n]).session == name && panes[n].window_index
            == window && panes[n].command == title && panes[n].command.len() > 0 {
        let n = choose|n: int|
            0 <= n < panes.len() && (#[trigger] panes[n]).session == name && panes[n].window_index
                == window && panes[n].command == title && panes[n].command.len() > 0;
        assert(snapshot::in_window(panes[n], name, window));
    }
    if title.len() > 0 && snapshot::window_commands(panes, name, window).contains(title) {
        let n = choose|n: int|
            0 <= n < panes.len() && snapshot::in_window(#[trigger] panes[n], name, window)
                && panes[n].command == title;
        assert(panes[n].command.len() > 0);
    }
    if panes[a].window_index < panes[b].window_index && l <= k {
        if l < k {
            assert(list[l] < list[k]);
        }
    }
    if panes[a].window_index == panes[b].window_index {
        if k < l {
            assert(list[k] < list[l]);
        }
        if l < k {
            assert(list[l] < list[k]);
        }
        let places = pane_indices(panes, name, list[k], session.windows[k].panes);
        if panes[a].pane_index < panes[b].pane_index && o <= m {
            if o < m {
                assert(places[o] < places[m]);
            }
        }
    }
    (i, k, m, l, o)
}

/// Nothing else is saved: every saved session has a line, every saved window one of that
/// session, and every saved directory is that of a line of that window.
pub proof fn law_what_is_saved_was_listed(
    panes: Seq<snapshot::PaneView>,
    sessions: Seq<saved::SessionView>,
    i: int,
    k: int,
    m: int,
) -> (n: int)
    requires
        snapshot::snapshot(panes, sessions),
        0 <= i < sessions.len(),
        0 <= k < sessions[i].windows.len(),
        0 <= m < sessions[i].windows[k].panes.len(),
    ensures
        0 <= n < panes.len(),
        panes[n].session == sessions[i].name,
        panes[n].path == sessions[i].windows[k].panes[m],
{
    let session = sessions[i];
    assert(snapshot::session_snapshot(panes, session));
    let list = choose|list: Seq<u32>|
        {
            &&& #[trigger] snapshot::lists_windows(list, panes, session.name)
            &&& list.len() == session.windows.len()
            &&& forall|k: int|
                0 <= k < list.len() ==> snapshot::window_snapshot(
                    panes,
                    session.name,
                    #[trigger] list[k],
                    session.windows[k],
                )
        };
    assert(snapshot::window_snapshot(panes, session.name, list[k], session.windows[k]));
    let dirs = session.windows[k].panes;
    assert(snapshot::window_dirs(panes, session.name, list[k], dirs));
    let places = pane_indices(panes, session.name, list[k], dirs);
    assert(snapshot::pane_path(panes, session.name, list[k], places[m]) == Some(dirs[m]));
    laws::lemma_path_is_member(panes, session.name, list[k], places[m])
}

/// The sessions are saved once each, under the names that the lines give, in the order of the
/// names.
pub proof fn law_sessions_are_saved_by_name(
    panes: Seq<snapshot::PaneView>,
    sessions: Seq<saved::SessionView>,
    name: Seq<char>,
)
    requires
        snapshot::snapshot(panes, sessions),
    ensures
        (exists|i: int| 0 <= i < sessions.len() && (#[trigger] sessions[i]).name == name) <==> (
        exists|n: int| 0 <= n < panes.len() && (#[trigger] panes[n]).session == name),
        forall|i: int, j: int|
            0 <= i < j < sessions.len() ==> text::lex_less(
                (#[trigger] sessions[i]).name,
                (#[trigger] sessions[j]).name,
            ),
{
    let all = snapshot::session_names(sessions);
    assert(all.contains(name) <==> snapshot::session_listed(panes, name));
    if exists|i: int| 0 <= i < sessions.len() && (#[trigger] sessions[i]).name == name {
        let i = choose|i: int| 0 <= i < sessions.len() && (#[trigger] sessions[i]).name == name;
        assert(all[i] == name);
        let n = choose|n: int| 0 <= n < panes.len() && #[trigger] panes[n].session == name;
        assert(panes[n].session == name);
    }
    if exists|n: int| 0 <= n < panes.len() && (#[trigger] panes[n]).session == name {
        let n = choose|n: int| 0 <= n < panes.len() && (#[trigger] panes[n]).session == name;
        assert(panes[n].session == name);
        let i = choose|i: int| 0 <= i < all.len() && all[i] == name;
        assert(sessions[i].name == name);
    }
    assert forall|i: int, j: int| 0 <= i < j < sessions.len() implies text::lex_less(
        (#[trigger] sessions[i]).name,
        (#[trigger] sessions[j]).name,
    ) by {
        assert(text::lex_less(all[i], all[j]));
    }
}

// ---------------------------------------------------------------------------
// Restores
// ---------------------------------------------------------------------------

/// A session is restored exactly when lazy restore is on, there is a snapshot, it bears the
/// session's name, and it has a window.
pub proof fn law_when_a_session_is_restored(
    config: Config,
    name: Seq<char>,
    session: saved::SessionView,
)
    ensures
        restore::restorable(config, name, Some(session)) <==> config.lazy_restore == Some(true)
            && session.name == name && session.windows.len() > 0,
        !restore::restorable(config, name, None),
{
}

/// A directory is used exactly when its path is not empty and it exists, and then as it is.
pub proof fn law_usable_directories(path: Seq<char>)
    ensures
        path.len() > 0 ==> restore::usable(path, true) == Some(path),
        restore::usable(path, false) is None,
        path.len() == 0 ==> restore::usable(path, true) is None,
{
}

/// The restored session, window by window: each has its name where the user had set one and
/// none otherwise, its layout where one was saved, and its panes in order, each in its saved
/// directory where that path is not empty and exists and in none otherwise. A window without
/// saved panes has the one that it comes with.
pub proof fn law_restored_windows(
    session: saved::SessionView,
    dirs: Set<Seq<char>>,
    k: int,
    m: int,
)
    requires
        0 <= k < session.windows.len(),
    ensures
        ({
            let built = laws::run_all(Seq::empty(), restore::restore_commands(session), dirs);
            let window = session.windows[k];
            &&& built.len() == session.windows.len()
            &&& built[k].name == if window.automatic_rename || window.name.len() == 0 {
                None
            } else {
                Some(window.name)
            }
            &&& built[k].layout == if window.layout.len() == 0 {
                None
            } else {
                Some(window.layout)
            }
            &&& window.panes.len() == 0 ==> built[k].panes == seq![None::<Seq<char>>]
            &&& window.panes.len() > 0 ==> built[k].panes.len() == window.panes.len()
            &&& 0 <= m < window.panes.len() ==> built[k].panes[m] == if window.panes[m].len() > 0
                && dirs.contains(window.panes[m]) {
                Some(window.panes[m])
            } else {
                None
            }
        }),
{
    laws::law_restore_rebuilds_the_session(session, dirs);
}

/// A command is run as it is, but for a directory that is empty or does not exist, which is
/// left out.
pub proof fn law_commands_are_run_with_usable_directories(
    command: restore::CommandView,
    is_dir: bool,
)
    ensures
        ({
            let dir = match command.dir() {
                Some(path) => if path.len() > 0 && is_dir {
                    Some(path)
                } else {
                    None
                },
                None => None,
            };
            match command {
                restore::CommandView::NewSession { name, dir: saved } => command.dir() == saved
                    && command.resolved(is_dir) == (restore::CommandView::NewSession { name, dir }),
                restore::CommandView::NewWindow { session, window_name, dir: saved } => command.dir()
                    == saved && command.resolved(is_dir) == (restore::CommandView::NewWindow {
                    session,
                    window_name,
                    dir,
                }),
                restore::CommandView::SplitWindow { session, dir: saved } => command.dir() == saved
                    && command.resolved(is_dir) == (restore::CommandView::SplitWindow {
                    session,
                    dir,
                }),
                _ => command.dir() is None && command.resolved(is_dir) == command,
            }
        }),
{
}

// ---------------------------------------------------------------------------
// The first run after a reboot
// ---------------------------------------------------------------------------

/// The boot id is what a source says without the white space around it; a source that says
/// nothing else than white space gives none, and the second is asked only then.
pub proof fn law_boot_ids(
    pre: Seq<char>,
    id: Seq<char>,
    post: Seq<char>,
    sysctl: Option<Seq<char>>,
)
    requires
        text::laws::all_white(pre),
        text::laws::all_white(post),
        text::laws::bare(id),
    ensures
        id.len() > 0 ==> boot::boot_id(Some(pre + id + post), sysctl) == Some(id),
        id.len() > 0 ==> boot::boot_id(None, Some(pre + id + post)) == Some(id),
        id.len() > 0 ==> boot::boot_id(Some(pre), Some(pre + id + post)) == Some(id),
        boot::boot_id(Some(pre), None) is None,
        boot::boot_id(None, Some(pre)) is None,
        boot::boot_id(None, None) is None,
{
    text::laws::law_trim_leaves_the_inside(pre, id, post);
    let none = Seq::<char>::empty();
    text::laws::law_trim_leaves_the_inside(pre, none, none);
    assert(pre + none + none =~= pre);
}

/// What the first run does: nothing with lazy restore off, without a state directory or a boot
/// id, and in a boot that is on record, whatever white space is around it there; recording
/// alone where nothing is on record; and recording and closing where another boot is.
pub proof fn law_first_run(
    config: Config,
    has_state_dir: bool,
    id: Seq<char>,
    pre: Seq<char>,
    stored: Seq<char>,
    post: Seq<char>,
)
    requires
        text::laws::all_white(pre),
        text::laws::all_white(post),
        text::laws::bare(stored),
    ensures
        ({
            let on = config.lazy_restore == Some(true) && has_state_dir;
            let file = Some(pre + stored + post);
            &&& boot::first_run(config, has_state_dir, None, file) == boot::FirstRun::Nothing
            &&& boot::first_run(config, has_state_dir, None, None) == boot::FirstRun::Nothing
            &&& boot::first_run(config, has_state_dir, Some(id), None) == if on {
                boot::FirstRun::Record
            } else {
                boot::FirstRun::Nothing
            }
            &&& boot::first_run(config, has_state_dir, Some(id), file) == if on && stored != id {
                boot::FirstRun::RecordAndClear
            } else {
                boot::FirstRun::Nothing
            }
        }),
{
    text::laws::law_trim_leaves_the_inside(pre, stored, post);
}

/// Sessions are closed only once the boot id is on record, and a failure to record it is
/// reported exactly where they would have been closed.
pub proof fn law_after_recording(recorded: bool)
    ensures
        boot::after_record(boot::FirstRun::RecordAndClear, true) == boot::AfterRecord::Clear,
        boot::after_record(boot::FirstRun::RecordAndClear, false) == boot::AfterRecord::Warn,
        boot::after_record(boot::FirstRun::Record, recorded) == boot::AfterRecord::Done,
        boot::after_record(boot::FirstRun::Nothing, recorded) == boot::AfterRecord::Done,
{
}

/// A name between quotes, as tmux writes it.
pub open spec fn quoted(name: Seq<char>) -> Seq<char> {
    seq!['\''] + name + seq!['\'']
}

/// Taking out a character that is not there changes nothing.
pub proof fn lemma_without_absent(s: Seq<char>, c: char)
    requires
        !s.contains(c),
    ensures
        boot::without(s, c) == s,
    decreases s.len(),
{
    if s.len() > 0 {
        let less = s.drop_last();
        assert(s.contains(s[s.len() - 1]));
        if less.contains(c) {
            let i = choose|i: int| 0 <= i < less.len() && less[i] == c;
            assert(s[i] == c);
        }
        lemma_without_absent(less, c);
        assert(less.push(s.last()) =~= s);
    }
}

/// Taking a character out of a text takes it out of every part.
pub proof fn lemma_without_concat(a: Seq<char>, b: Seq<char>, c: char)
    ensures
        boot::without(a + b, c) == boot::without(a, c) + boot::without(b, c),
    decreases b.len(),
{
    if b.len() == 0 {
        assert(a + b =~= a);
        assert(boot::without(a, c) + boot::without(b, c) =~= boot::without(a, c));
    } else {
        assert((a + b).drop_last() =~= a + b.drop_last());
        assert((a + b).last() == b.last());
        lemma_without_concat(a, b.drop_last(), c);
        assert(boot::without(a + b, c) =~= boot::without(a, c) + boot::without(b, c));
    }
}

/// Taking out a character takes out that one and no other.
pub proof fn lemma_without_one(x: char, c: char)
    ensures
        boot::without(seq![x], c) == if x == c {
            Seq::empty()
        } else {
            seq![x]
        },
{
    let one = seq![x];
    assert(one.drop_last() =~= Seq::<char>::empty());
    assert(boot::without(one.drop_last(), c) =~= Seq::<char>::empty());
    assert(boot::without(one, c) =~= if x == c {
        Seq::empty()
    } else {
        seq![x]
    });
}

/// Taking a name out of its quotes leaves the name.
proof fn lemma_unquoted(name: Seq<char>)
    requires
        !name.contains('\''),
    ensures
        boot::without(quoted(name), '\'') == name,
{
    lemma_without_concat(seq!['\''] + name, seq!['\''], '\'');
    lemma_without_concat(seq!['\''], name, '\'');
    lemma_without_one('\'', '\'');
    lemma_without_absent(name, '\'');
    assert(boot::without(quoted(name), '\'') =~= name);
}

/// The attached session is the one whose name tmux answers, between quotes and with a newline;
/// an answer without a name, or none, leaves no session attached.
pub proof fn law_attached_session_is_the_answer(name: Seq<char>)
    requires
        !name.contains('\''),
        !name.contains('\n'),
    ensures
        name.len() > 0 ==> boot::attached_session(Some(quoted(name) + seq!['\n'])) == Some(name),
        name.len() > 0 ==> boot::attached_session(Some(quoted(name))) == Some(name),
        boot::attached_session(Some(quoted(Seq::empty()) + seq!['\n'])) is None,
        boot::attached_session(None) is None,
{
    lemma_answer(name);
    let none = Seq::<char>::empty();
    lemma_answer(none);
    lemma_unquoted(name);
    lemma_without_absent(name, '\n');
}

proof fn lemma_answer(name: Seq<char>)
    requires
        !name.contains('\''),
        !name.contains('\n'),
    ensures
        boot::without(boot::without(quoted(name) + seq!['\n'], '\''), '\n') == name,
{
    lemma_without_concat(quoted(name), seq!['\n'], '\'');
    lemma_unquoted(name);
    lemma_without_one('\n', '\'');
    lemma_without_concat(name, seq!['\n'], '\n');
    lemma_without_one('\n', '\n');
    lemma_without_absent(name, '\n');
    assert(name + Seq::<char>::empty() =~= name);
}

/// A run inside tmux spares the session that tmux answers: no line that is that name between
/// quotes has its session closed, and the name is not among those that are closed.
pub proof fn law_answered_session_is_spared(rows: Seq<Seq<char>>, name: Seq<char>, i: int)
    requires
        name.len() > 0,
        !name.contains('\''),
        !name.contains('\n'),
    ensures
        !boot::sessions_to_close(
            rows,
            boot::attached_session(Some(quoted(name) + seq!['\n'])),
        ).contains(name),
        0 <= i < rows.len() && rows[i] == quoted(name) ==> boot::session_to_close(
            rows[i],
            boot::attached_session(Some(quoted(name) + seq!['\n'])),
        ) is None,
{
    law_attached_session_is_the_answer(name);
    boot::law_attached_session_is_spared(rows, name);
    lemma_unquoted(name);
}

/// What is closed for a line that is a name between quotes: the name without the white space
/// around it, unless that leaves nothing, or the attached session has that name, with that
/// white space or without.
pub proof fn law_session_of_a_line(
    pre: Seq<char>,
    name: Seq<char>,
    post: Seq<char>,
    attached: Option<Seq<char>>,
)
    requires
        text::laws::all_white(pre),
        text::laws::all_white(post),
        text::laws::bare(name),
        !name.contains('\''),
    ensures
        boot::session_to_close(quoted(pre + name + post), attached) == if name.len() == 0
            || attached == Some(name) || attached == Some(pre + name + post) {
            None
        } else {
            Some(name)
        },
{
    let whole = pre + name + post;
    if whole.contains('\'') {
        let i = choose|i: int| 0 <= i < whole.len() && whole[i] == '\'';
        if i < pre.len() {
            assert(text::white_space(pre[i]));
        } else if i < pre.len() + name.len() {
            assert(name[i - pre.len()] == '\'');
        } else {
            assert(text::white_space(post[i - pre.len() - name.len()]));
        }
    }
    lemma_unquoted(whole);
    text::laws::law_trim_leaves_the_inside(pre, name, post);
}

/// The names but for the one that is spared, in their order.
pub open spec fn others(all: Seq<Seq<char>>, spared: Option<Seq<char>>) -> Seq<Seq<char>>
    decreases all.len(),
{
    if all.len() == 0 {
        Seq::empty()
    } else if spared == Some(all.last()) {
        others(all.drop_last(), spared)
    } else {
        others(all.drop_last(), spared).push(all.last())
    }
}

/// The list of the sessions, as tmux writes it.
pub open spec fn session_list(all: Seq<Seq<char>>) -> Seq<char> {
    text::laws::unlines(all.map_values(|name: Seq<char>| quoted(name)))
}

/// Every session of tmux's list is closed, in the order of the list, but for the one that tmux
/// answers as attached. Names that hold quotes or newlines, or have white space at an end, are
/// another matter.
pub proof fn law_all_other_sessions_are_closed(all: Seq<Seq<char>>, attached: Seq<char>)
    requires
        forall|i: int|
            0 <= i < all.len() ==> {
                &&& (#[trigger] all[i]).len() > 0
                &&& text::laws::bare(all[i])
                &&& !all[i].contains('\'')
                &&& !all[i].contains('\n')
            },
        attached.len() > 0,
        text::laws::bare(attached),
        !attached.contains('\''),
        !attached.contains('\n'),
    ensures
        boot::sessions_to_close(
            text::lines(session_list(all)),
            boot::attached_session(Some(quoted(attached) + seq!['\n'])),
        ) == others(all, Some(attached)),
        boot::sessions_to_close(text::lines(session_list(all)), boot::attached_session(None))
            == all,
{
    let rows = all.map_values(|name: Seq<char>| quoted(name));
    assert forall|i: int| 0 <= i < rows.len() implies !(#[trigger] rows[i]).contains('\n') && (
    rows[i].len() == 0 || rows[i].last() != '\r') by {
        assert(rows[i] == quoted(all[i]));
        assert(rows[i].last() == '\'');
        if rows[i].contains('\n') {
            let k = choose|k: int| 0 <= k < rows[i].len() && rows[i][k] == '\n';
            assert(rows[i][k] == all[i][k - 1]);
            assert(all[i].contains('\n'));
        }
    }
    text::laws::law_lines_read_back(rows);
    law_attached_session_is_the_answer(attached);
    lemma_closing(all, Some(attached));
    lemma_closing(all, None);
    lemma_no_others(all);
}

proof fn lemma_no_others(all: Seq<Seq<char>>)
    ensures
        others(all, None) == all,
    decreases all.len(),
{
    if all.len() > 0 {
        lemma_no_others(all.drop_last());
        assert(all.drop_last().push(all.last()) =~= all);
    } else {
        assert(others(all, None) =~= all);
    }
}

proof fn lemma_closing(all: Seq<Seq<char>>, attached: Option<Seq<char>>)
    requires
        forall|i: int|
            0 <= i < all.len() ==> {
                &&& (#[trigger] all[i]).len() > 0
                &&& text::laws::bare(all[i])
                &&& !all[i].contains('\'')
                &&& !all[i].contains('\n')
            },
    ensures
        boot::sessions_to_close(all.map_values(|name: Seq<char>| quoted(name)), attached)
            == others(all, attached),
    decreases all.len(),
{
    let rows = all.map_values(|name: Seq<char>| quoted(name));
    if all.len() > 0 {
        let less = all.drop_last();
        let name = all[all.len() - 1];
        assert forall|i: int| 0 <= i < less.len() implies {
            &&& (#[trigger] less[i]).len() > 0
            &&& text::laws::bare(less[i])
            &&& !less[i].contains('\'')
            &&& !less[i].contains('\n')
        } by {
            assert(less[i] == all[i]);
        }
        lemma_closing(less, attached);
        assert(rows.drop_last() =~= less.map_values(|name: Seq<char>| quoted(name)));
        assert(rows.last() == quoted(name));
        lemma_unquoted(name);
        let none = Seq::<char>::empty();
        text::laws::law_trim_leaves_the_inside(none, name, none);
        assert(none + name + none =~= name);
    }
}

// ---------------------------------------------------------------------------
// The lock and the saver
// ---------------------------------------------------------------------------

/// The lock file names the process whose id it holds, with white space around it or not; what
/// is no number names none.
pub proof fn law_lock_names_its_holder(pre: Seq<char>, pid: u32, post: Seq<char>, other: Seq<char>)
    requires
        text::laws::all_white(pre),
        text::laws::all_white(post),
        text::laws::bare(other),
        text::unsigned(other, u32::MAX as nat) is None,
    ensures
        lock::holder(Some(pre + text::decimal(pid as nat) + post)) == Some(pid),
        lock::holder(Some(pre + other + post)) is None,
        lock::holder(None) is None,
{
    let digits = text::decimal(pid as nat);
    text::lemma_decimal(pid as nat);
    lemma_decimal_field(pid);
    assert('0' <= digits[0] <= '9');
    assert('0' <= digits[digits.len() - 1] <= '9');
    text::laws::law_trim_leaves_the_inside(pre, digits, post);
    text::laws::law_trim_leaves_the_inside(pre, other, post);
}

/// Every reply leads on as it should, and only the removal of a stale file uses up a try.
pub proof fn law_claims_step_by_step(
    claim: lock::LockClaim,
    contents: Option<Seq<char>>,
    alive: bool,
    removed: bool,
)
    requires
        claim.tries >= 1,
    ensures
        lock::next_claim(claim, lock::ReplyView::Guarded) == (lock::LockClaim {
            step: lock::LockStep::Open,
            ..claim
        }),
        lock::next_claim(claim, lock::ReplyView::Created) == (lock::LockClaim {
            step: lock::LockStep::Granted,
            ..claim
        }),
        lock::next_claim(claim, lock::ReplyView::OpenFailed) == (lock::LockClaim {
            step: lock::LockStep::Refused,
            ..claim
        }),
        lock::next_claim(claim, lock::ReplyView::Exists { contents }) == (lock::LockClaim {
            step: match lock::holder(contents) {
                Some(pid) => lock::LockStep::Probe { pid },
                None => lock::LockStep::Remove,
            },
            ..claim
        }),
        lock::next_claim(claim, lock::ReplyView::Alive { alive }) == (lock::LockClaim {
            step: if alive {
                lock::LockStep::Refused
            } else {
                lock::LockStep::Remove
            },
            ..claim
        }),
        lock::next_claim(claim, lock::ReplyView::Removed { removed: false }) == (
        lock::LockClaim { step: lock::LockStep::Refused, ..claim }),
        lock::next_claim(claim, lock::ReplyView::Removed { removed: true }).tries == claim.tries - 1,
        lock::next_claim(claim, lock::ReplyView::Removed { removed: true }).step == if claim.tries
            > 1 {
            lock::LockStep::Open
        } else {
            lock::LockStep::Refused
        },
        lock::first_claim() == (lock::LockClaim { tries: 5, step: lock::LockStep::Guard }),
{
}

/// A reply of the lock says all that it holds.
pub proof fn law_replies_say_everything(contents: String, alive: bool, removed: bool)
    ensures
        lock::LockReply::Guarded@ == lock::ReplyView::Guarded,
        lock::LockReply::Created@ == lock::ReplyView::Created,
        lock::LockReply::OpenFailed@ == lock::ReplyView::OpenFailed,
        (lock::LockReply::Exists { contents: Some(contents) })@ == (lock::ReplyView::Exists {
            contents: Some(contents@),
        }),
        (lock::LockReply::Exists { contents: None })@ == (lock::ReplyView::Exists {
            contents: None,
        }),
        (lock::LockReply::Alive { alive })@ == (lock::ReplyView::Alive { alive }),
        (lock::LockReply::Removed { removed })@ == (lock::ReplyView::Removed { removed }),
{
}

/// Where the system lists its processes, a process is alive when it is listed, whatever a signal
/// would say; elsewhere, when a signal reached it.
pub proof fn law_live_processes(listed: bool, signalled: Option<bool>)
    ensures
        lock::process_alive(Some(listed), signalled) == listed,
        lock::process_alive(None, signalled) <==> signalled == Some(true),
{
}

/// The server has sessions exactly when its list of them holds anything but white space.
pub proof fn law_server_with_sessions(listing: Seq<char>)
    ensures
        saver::lists_sessions(listing) <==> exists|i: int|
            0 <= i < listing.len() && !text::white_space(#[trigger] listing[i]),
{
    let (pre, post) = text::laws::lemma_trim_parts(listing);
    let core = text::trim(listing);
    if core.len() > 0 {
        assert(listing[pre.len() as int] == core[0]);
    } else {
        assert forall|i: int| 0 <= i < listing.len() implies text::white_space(
            #[trigger] listing[i],
        ) by {
            if i < pre.len() {
                assert(listing[i] == pre[i]);
            } else {
                assert(listing[i] == post[i - pre.len()]);
            }
        }
    }
}

/// The saver, event by event: it claims the lock where it is wanted and there is a state
/// directory, sleeps for the interval once the lock is granted and after every save, saves
/// whenever it wakes up to a server with sessions, and else gives the lock back.
pub proof fn law_saver_event_by_event(
    config: Config,
    has_state_dir: bool,
    granted: bool,
    listing: String,
)
    ensures
        saver::saver_wanted(config) <==> config.lazy_restore == Some(true) && config.save_interval
            != Some(0u64),
        saver::saver_action(config, saver::SaverEvent::Started { has_state_dir }) == if has_state_dir
            && config.lazy_restore == Some(true) && config.save_interval != Some(0u64) {
            saver::SaverAction::ClaimLock
        } else {
            saver::SaverAction::Exit
        },
        saver::saver_action(config, saver::SaverEvent::Claimed { granted: false })
            == saver::SaverAction::Exit,
        config.save_interval matches Some(minutes) ==> minutes * 60 <= u64::MAX ==> {
            let nap = saver::SaverAction::Sleep { seconds: (minutes * 60) as u64 };
            &&& saver::saver_action(config, saver::SaverEvent::Claimed { granted: true }) == nap
            &&& saver::saver_action(config, saver::SaverEvent::Saved) == nap
        },
        config.save_interval is None ==> {
            let nap = saver::SaverAction::Sleep { seconds: 900 };
            &&& saver::saver_action(config, saver::SaverEvent::Claimed { granted: true }) == nap
            &&& saver::saver_action(config, saver::SaverEvent::Saved) == nap
        },
        saver::saver_action(config, saver::SaverEvent::Woke { listing }) == if exists|i: int|
            0 <= i < listing@.len() && !text::white_space(#[trigger] listing@[i]) {
            saver::SaverAction::Save
        } else {
            saver::SaverAction::ReleaseAndExit
        },
{
    law_server_with_sessions(listing@);
}

/// The state directory is below `$XDG_STATE_HOME` wherever that is set and not empty, and else
/// below the home directory.
pub proof fn law_state_directory(has_home: bool)
    ensures
        paths::state_root(Some(false), has_home) == Some(paths::StateRoot::Xdg),
        paths::state_root(Some(true), true) == Some(paths::StateRoot::Home),
        paths::state_root(None, true) == Some(paths::StateRoot::Home),
        paths::state_root(Some(true), false) is None,
        paths::state_root(None, false) is None,
        paths::StateRoot::Xdg.path() == "jelly"@,
        paths::StateRoot::Home.path() == ".local/state/jelly"@,
{
}

} // verus!
