//! From tmux's list of panes to one snapshot per session.

use vstd::prelude::*;

use crate::persist::names;
use crate::persist::saved;
use crate::persist::saved::{compute_automatic_rename, SavedSession, SavedWindow};
use crate::text;

verus! {

/// The tmux format that lists one pane per line, with its fields between tabs.
///
/// `#{E:automatic-rename}` gives the effective option of the window as `1` or `0`, and
/// `#{pane_current_command}` the foreground command that the name is compared with.
pub const PANE_FORMAT: &'static str = "#{session_name}\t#{window_index}\t#{window_name}\t#{window_layout}\t#{pane_index}\t#{pane_current_path}\t#{E:automatic-rename}\t#{pane_current_command}";

/// One pane as tmux lists it.
#[derive(Debug)]
pub struct PaneRecord {
    pub session: String,
    pub window_index: u32,
    pub window_name: String,
    pub layout: String,
    pub pane_index: u32,
    pub path: String,
    pub auto_rename: bool,
    pub command: String,
}

/// What a pane's line says.
#[verifier::ext_equal]
pub struct PaneView {
    pub session: Seq<char>,
    pub window_index: u32,
    pub window_name: Seq<char>,
    pub layout: Seq<char>,
    pub pane_index: u32,
    pub path: Seq<char>,
    pub auto_rename: bool,
    pub command: Seq<char>,
}

impl View for PaneRecord {
    type V = PaneView;

    open spec fn view(&self) -> PaneView {
        PaneView {
            session: self.session@,
            window_index: self.window_index,
            window_name: self.window_name@,
            layout: self.layout@,
            pane_index: self.pane_index,
            path: self.path@,
            auto_rename: self.auto_rename,
            command: self.command@,
        }
    }
}

// ---------------------------------------------------------------------------
// Reading the list
// ---------------------------------------------------------------------------

/// What one line of the list says; nothing when it has not exactly eight fields, or when one
/// of the two indices is no 32-bit number.
pub open spec fn pane_of_line(line: Seq<char>) -> Option<PaneView> {
    let fields = text::split_on(line, '\t');
    if fields.len() != 8 {
        None
    } else {
        match (
            text::unsigned(fields[1], u32::MAX as nat),
            text::unsigned(fields[4], u32::MAX as nat),
        ) {
            (Some(window_index), Some(pane_index)) => Some(
                PaneView {
                    session: fields[0],
                    window_index: window_index as u32,
                    window_name: fields[2],
                    layout: fields[3],
                    pane_index: pane_index as u32,
                    path: fields[5],
                    auto_rename: fields[6] == seq!['1'],
                    command: fields[7],
                },
            ),
            _ => None,
        }
    }
}

/// The panes that the lines describe, in their order; lines that describe none are passed
/// over.
pub open spec fn panes_of_lines(rows: Seq<Seq<char>>) -> Seq<PaneView>
    decreases rows.len(),
{
    if rows.len() == 0 {
        Seq::empty()
    } else {
        let before = panes_of_lines(rows.drop_last());
        match pane_of_line(rows.last()) {
            Some(pane) => before.push(pane),
            None => before,
        }
    }
}

/// The panes that a list describes.
pub open spec fn listed_panes(listing: Seq<char>) -> Seq<PaneView> {
    panes_of_lines(text::lines(listing))
}

/// What the records of a list say.
pub open spec fn pane_views(list: Seq<PaneRecord>) -> Seq<PaneView> {
    list.map_values(|p: PaneRecord| p@)
}

/// Reads one line of the list.
pub fn parse_pane(line: &[char]) -> (pane: Option<PaneRecord>)
    ensures
        pane is Some <==> pane_of_line(line@) is Some,
        pane matches Some(p) ==> pane_of_line(line@) == Some(p@),
{
    let fields = text::split_chars(line, '\t');
    let ghost parts = text::split_on(line@, '\t');
    assert(text::char_rows(fields@) == parts);
    assert(parts.len() == fields@.len());
    assert forall|k: int| 0 <= k < parts.len() implies parts[k] == fields@[k]@ by {
        assert(text::char_rows(fields@)[k] == fields@[k]@);
    }
    if fields.len() != 8 {
        return None;
    }
    let window_index = text::parse_u32(&fields[1]);
    let pane_index = text::parse_u32(&fields[4]);
    match (window_index, pane_index) {
        (Some(window_index), Some(pane_index)) => {
            let auto_rename = fields[6].len() == 1 && fields[6][0] == '1';
            assert(auto_rename == (parts[6] == seq!['1'])) by {
                if auto_rename {
                    assert(parts[6] =~= seq!['1']);
                }
            }
            Some(
                PaneRecord {
                    session: text::string_of(&fields[0]),
                    window_index,
                    window_name: text::string_of(&fields[2]),
                    layout: text::string_of(&fields[3]),
                    pane_index,
                    path: text::string_of(&fields[5]),
                    auto_rename,
                    command: text::string_of(&fields[7]),
                },
            )
        },
        _ => None,
    }
}

/// Reads tmux's list of panes, written in `PANE_FORMAT`.
pub fn parse_listing(listing: &str) -> (panes: Vec<PaneRecord>)
    ensures
        pane_views(panes@) == listed_panes(listing@),
{
    let rows = text::split_lines(listing);
    let ghost all = text::lines(listing@);
    let mut panes: Vec<PaneRecord> = Vec::new();
    let mut i: usize = 0;
    assert(text::char_rows(rows@) == all);
    assert(pane_views(panes@) == panes_of_lines(all.take(0)));
    while i < rows.len()
        invariant
            i <= rows@.len(),
            all == text::lines(listing@),
            text::char_rows(rows@) == all,
            pane_views(panes@) == panes_of_lines(all.take(i as int)),
        decreases rows@.len() - i,
    {
        assert(text::char_rows(rows@)[i as int] == rows@[i as int]@);
        let ghost before = pane_views(panes@);
        assert(all.take(i + 1).drop_last() == all.take(i as int));
        assert(all.take(i + 1).last() == rows@[i as int]@);
        if let Some(pane) = parse_pane(&rows[i]) {
            panes.push(pane);
            assert(pane_views(panes@) == before.push(pane@));
        }
        i += 1;
    }
    assert(all.take(rows@.len() as int) == all);
    panes
}

// ---------------------------------------------------------------------------
// What a snapshot is
// ---------------------------------------------------------------------------

/// Whether session `name` has a pane among `panes`.
pub open spec fn session_listed(panes: Seq<PaneView>, name: Seq<char>) -> bool {
    exists|k: int| 0 <= k < panes.len() && #[trigger] panes[k].session == name
}

/// Whether a pane belongs to window `window` of session `name`.
pub open spec fn in_window(pane: PaneView, name: Seq<char>, window: u32) -> bool {
    pane.session == name && pane.window_index == window
}

/// The first pane listed of a window.
pub open spec fn first_pane(panes: Seq<PaneView>, name: Seq<char>, window: u32) -> Option<PaneView>
    decreases panes.len(),
{
    if panes.len() == 0 {
        None
    } else {
        match first_pane(panes.drop_last(), name, window) {
            Some(pane) => Some(pane),
            None => if in_window(panes.last(), name, window) {
                Some(panes.last())
            } else {
                None
            },
        }
    }
}

/// The working directory of a pane: that of its last listing.
pub open spec fn pane_path(panes: Seq<PaneView>, name: Seq<char>, window: u32, pane: u32) -> Option<
    Seq<char>,
>
    decreases panes.len(),
{
    if panes.len() == 0 {
        None
    } else if in_window(panes.last(), name, window) && panes.last().pane_index == pane {
        Some(panes.last().path)
    } else {
        pane_path(panes.drop_last(), name, window, pane)
    }
}

/// The foreground commands of a window's panes, in the order of the list.
pub open spec fn window_commands(panes: Seq<PaneView>, name: Seq<char>, window: u32) -> Seq<
    Seq<char>,
>
    decreases panes.len(),
{
    if panes.len() == 0 {
        Seq::empty()
    } else {
        let before = window_commands(panes.drop_last(), name, window);
        if in_window(panes.last(), name, window) {
            before.push(panes.last().command)
        } else {
            before
        }
    }
}

/// Whether the numbers go up strictly.
pub open spec fn increasing(list: Seq<u32>) -> bool {
    forall|i: int, j: int| 0 <= i < j < list.len() ==> list[i] < list[j]
}

/// Whether `list` holds the indices of the windows of session `name`, smallest first.
pub open spec fn lists_windows(list: Seq<u32>, panes: Seq<PaneView>, name: Seq<char>) -> bool {
    &&& increasing(list)
    &&& forall|w: u32| #[trigger] list.contains(w) <==> first_pane(panes, name, w) is Some
}

/// Whether `list` holds the indices of the panes of a window, smallest first.
pub open spec fn lists_panes(
    list: Seq<u32>,
    panes: Seq<PaneView>,
    name: Seq<char>,
    window: u32,
) -> bool {
    &&& increasing(list)
    &&& forall|p: u32| #[trigger] list.contains(p) <==> pane_path(panes, name, window, p) is Some
}

/// Whether `dirs` holds the directories of the panes of a window, in pane-index order.
pub open spec fn window_dirs(
    panes: Seq<PaneView>,
    name: Seq<char>,
    window: u32,
    dirs: Seq<Seq<char>>,
) -> bool {
    exists|list: Seq<u32>|
        {
            &&& #[trigger] lists_panes(list, panes, name, window)
            &&& list.len() == dirs.len()
            &&& forall|k: int|
                0 <= k < list.len() ==> pane_path(panes, name, window, #[trigger] list[k]) == Some(
                    dirs[k],
                )
        }
}

/// Whether `saved` is the snapshot of a window: its name, option and layout are those of its
/// first pane listed, the name counts as automatic by that option or by the commands of its
/// panes, and its directories are those of its panes in pane-index order.
pub open spec fn window_snapshot(
    panes: Seq<PaneView>,
    name: Seq<char>,
    window: u32,
    saved: saved::WindowView,
) -> bool {
    &&& first_pane(panes, name, window) matches Some(first)
    &&& saved.name == first.window_name
    &&& saved.layout == first.layout
    &&& saved.automatic_rename == saved::renamed_automatically(
        first.auto_rename,
        first.window_name,
        window_commands(panes, name, window),
    )
    &&& window_dirs(panes, name, window, saved.panes)
}

/// Whether `saved` is the snapshot of a session: one window per window index, in the order of
/// the indices.
pub open spec fn session_snapshot(panes: Seq<PaneView>, saved: saved::SessionView) -> bool {
    exists|list: Seq<u32>|
        {
            &&& #[trigger] lists_windows(list, panes, saved.name)
            &&& list.len() == saved.windows.len()
            &&& forall|k: int|
                0 <= k < list.len() ==> window_snapshot(
                    panes,
                    saved.name,
                    #[trigger] list[k],
                    saved.windows[k],
                )
        }
}

/// Whether the names go up strictly in the order of strings.
pub open spec fn names_ascend(names: Seq<Seq<char>>) -> bool {
    forall|i: int, j: int|
        0 <= i < j < names.len() ==> text::lex_less(#[trigger] names[i], #[trigger] names[j])
}

/// The names of the sessions of a list.
pub open spec fn session_names(sessions: Seq<saved::SessionView>) -> Seq<Seq<char>> {
    sessions.map_values(|s: saved::SessionView| s.name)
}

/// Whether `sessions` is the snapshot of all sessions with a pane among `panes`: each once, in
/// the order of their names.
pub open spec fn snapshot(panes: Seq<PaneView>, sessions: Seq<saved::SessionView>) -> bool {
    &&& names_ascend(session_names(sessions))
    &&& forall|name: Seq<char>| #[trigger]
        session_names(sessions).contains(name) <==> session_listed(panes, name)
    &&& forall|i: int|
        0 <= i < sessions.len() ==> session_snapshot(panes, #[trigger] sessions[i])
}

// ---------------------------------------------------------------------------
// Taking one
// ---------------------------------------------------------------------------

/// Puts `x` into the ascending list, unless it is there.
fn insert_index(list: &mut Vec<u32>, x: u32)
    requires
        increasing(old(list)@),
    ensures
        increasing(final(list)@),
        forall|y: u32| #[trigger]
            final(list)@.contains(y) <==> (y == x || old(list)@.contains(y)),
{
    let ghost before = list@;
    let mut at: usize = 0;
    while at < list.len() && list[at] < x
        invariant
            at <= list@.len(),
            list@ == before,
            forall|k: int| 0 <= k < at ==> before[k] < x,
        decreases list@.len() - at,
    {
        at += 1;
    }
    if at < list.len() && list[at] == x {
        assert(before[at as int] == x);
        assert(before.contains(x));
        return;
    }
    list.insert(at, x);
    proof {
        let after = list@;
        assert(after == before.insert(at as int, x));
        assert forall|i: int, j: int| 0 <= i < j < after.len() implies after[i] < after[j] by {
            if j < at {
            } else if i >= at && j > at {
                if i == at {
                    assert(after[j] == before[j - 1]);
                    assert(before[at as int] <= before[j - 1]);
                } else {
                    assert(after[i] == before[i - 1]);
                    assert(after[j] == before[j - 1]);
                }
            }
        }
        assert forall|y: u32| #[trigger] after.contains(y) <==> (y == x || before.contains(y)) by {
            lemma_insert_contains(before, at as int, x, y);
        }
    }
}

proof fn lemma_insert_contains<T>(before: Seq<T>, at: int, x: T, y: T)
    requires
        0 <= at <= before.len(),
    ensures
        before.insert(at, x).contains(y) <==> (y == x || before.contains(y)),
{
    let after = before.insert(at, x);
    assert(after[at] == x);
    if before.contains(y) {
        let k = choose|k: int| 0 <= k < before.len() && before[k] == y;
        if k < at {
            assert(after[k] == y);
        } else {
            assert(after[k + 1] == y);
        }
    }
    if after.contains(y) && y != x {
        let k = choose|k: int| 0 <= k < after.len() && after[k] == y;
        if k < at {
            assert(before[k] == y);
        } else {
            assert(before[k - 1] == y);
        }
    }
}

/// Whether a record belongs to the window.
fn belongs(pane: &PaneRecord, name: &str, window: u32) -> (yes: bool)
    ensures
        yes == in_window(pane@, name@, window),
{
    pane.window_index == window && text::same_text(pane.session.as_str(), name)
}

/// Putting one more pane at the end of a list changes the first pane of a window only where
/// there was none.
proof fn lemma_first_pane_prefix(panes: Seq<PaneView>, n: int, name: Seq<char>, window: u32)
    requires
        0 <= n <= panes.len(),
        first_pane(panes.take(n), name, window) is Some,
    ensures
        first_pane(panes, name, window) == first_pane(panes.take(n), name, window),
    decreases panes.len() - n,
{
    if n < panes.len() {
        assert(panes.take(n + 1).drop_last() == panes.take(n));
        lemma_first_pane_prefix(panes, n + 1, name, window);
    } else {
        assert(panes.take(n) == panes);
    }
}

/// The indices of the windows of session `name`, smallest first.
fn list_windows(panes: &Vec<PaneRecord>, name: &str) -> (list: Vec<u32>)
    ensures
        lists_windows(list@, pane_views(panes@), name@),
{
    let ghost views = pane_views(panes@);
    let mut list: Vec<u32> = Vec::new();
    let mut i: usize = 0;
    while i < panes.len()
        invariant
            i <= panes@.len(),
            views == pane_views(panes@),
            lists_windows(list@, views.take(i as int), name@),
        decreases panes@.len() - i,
    {
        assert(views[i as int] == panes@[i as int]@);
        assert(views.take(i + 1).drop_last() == views.take(i as int));
        let ghost before = list@;
        if text::same_text(panes[i].session.as_str(), name) {
            insert_index(&mut list, panes[i].window_index);
        }
        assert forall|w: u32| #[trigger] list@.contains(w) <==> first_pane(
            views.take(i + 1),
            name@,
            w,
        ) is Some by {
            assert(before.contains(w) <==> first_pane(views.take(i as int), name@, w) is Some);
            assert(views.take(i + 1).last() == views[i as int]);
        }
        i += 1;
    }
    assert(views.take(panes@.len() as int) == views);
    list
}

/// The indices of the panes of a window, smallest first.
fn list_panes(panes: &Vec<PaneRecord>, name: &str, window: u32) -> (list: Vec<u32>)
    ensures
        lists_panes(list@, pane_views(panes@), name@, window),
{
    let ghost views = pane_views(panes@);
    let mut list: Vec<u32> = Vec::new();
    let mut i: usize = 0;
    while i < panes.len()
        invariant
            i <= panes@.len(),
            views == pane_views(panes@),
            lists_panes(list@, views.take(i as int), name@, window),
        decreases panes@.len() - i,
    {
        assert(views[i as int] == panes@[i as int]@);
        assert(views.take(i + 1).drop_last() == views.take(i as int));
        let ghost before = list@;
        if belongs(&panes[i], name, window) {
            insert_index(&mut list, panes[i].pane_index);
        }
        assert forall|p: u32| #[trigger] list@.contains(p) <==> pane_path(
            views.take(i + 1),
            name@,
            window,
            p,
        ) is Some by {
            assert(before.contains(p) <==> pane_path(views.take(i as int), name@, window, p) is Some);
            assert(views.take(i + 1).last() == views[i as int]);
        }
        i += 1;
    }
    assert(views.take(panes@.len() as int) == views);
    list
}

/// The directory of a pane, by its last listing.
fn find_path(panes: &Vec<PaneRecord>, name: &str, window: u32, pane: u32) -> (path: String)
    requires
        pane_path(pane_views(panes@), name@, window, pane) is Some,
    ensures
        pane_path(pane_views(panes@), name@, window, pane) == Some(path@),
{
    let ghost views = pane_views(panes@);
    let mut i: usize = panes.len();
    assert(views.take(panes@.len() as int) == views);
    while i > 0
        invariant
            i <= panes@.len(),
            views == pane_views(panes@),
            pane_path(views, name@, window, pane) is Some,
            pane_path(views, name@, window, pane) == pane_path(
                views.take(i as int),
                name@,
                window,
                pane,
            ),
        decreases i,
    {
        i -= 1;
        assert(views[i as int] == panes@[i as int]@);
        assert(views.take(i + 1).drop_last() == views.take(i as int));
        if belongs(&panes[i], name, window) && panes[i].pane_index == pane {
            return panes[i].path.clone();
        }
    }
    assert(false);
    String::new()
}

/// The directories of a window's panes.
fn list_dirs(panes: &Vec<PaneRecord>, name: &str, window: u32) -> (dirs: Vec<String>)
    ensures
        window_dirs(pane_views(panes@), name@, window, text::texts(dirs@)),
{
    let ghost views = pane_views(panes@);
    let list = list_panes(panes, name, window);
    let mut dirs: Vec<String> = Vec::new();
    let mut i: usize = 0;
    while i < list.len()
        invariant
            i <= list@.len(),
            i == dirs@.len(),
            views == pane_views(panes@),
            lists_panes(list@, views, name@, window),
            forall|k: int|
                0 <= k < i ==> pane_path(views, name@, window, #[trigger] list@[k]) == Some(
                    dirs@[k]@,
                ),
        decreases list@.len() - i,
    {
        assert(list@.contains(list@[i as int]));
        let path = find_path(panes, name, window, list[i]);
        dirs.push(path);
        i += 1;
    }
    let ghost shown = text::texts(dirs@);
    assert forall|k: int| 0 <= k < list@.len() implies pane_path(
        views,
        name@,
        window,
        #[trigger] list@[k],
    ) == Some(shown[k]) by {}
    dirs
}

/// The foreground commands of a window's panes.
fn list_commands(panes: &Vec<PaneRecord>, name: &str, window: u32) -> (commands: Vec<String>)
    ensures
        text::texts(commands@) == window_commands(pane_views(panes@), name@, window),
{
    let ghost views = pane_views(panes@);
    let mut commands: Vec<String> = Vec::new();
    let mut i: usize = 0;
    assert(text::texts(commands@) == window_commands(views.take(0), name@, window));
    while i < panes.len()
        invariant
            i <= panes@.len(),
            views == pane_views(panes@),
            text::texts(commands@) == window_commands(views.take(i as int), name@, window),
        decreases panes@.len() - i,
    {
        assert(views[i as int] == panes@[i as int]@);
        assert(views.take(i + 1).drop_last() == views.take(i as int));
        let ghost before = text::texts(commands@);
        if belongs(&panes[i], name, window) {
            commands.push(panes[i].command.clone());
            assert(text::texts(commands@) == before.push(panes@[i as int].command@));
        }
        i += 1;
    }
    assert(views.take(panes@.len() as int) == views);
    commands
}

/// The snapshot of one window.
fn save_window(panes: &Vec<PaneRecord>, name: &str, window: u32) -> (saved: SavedWindow)
    requires
        first_pane(pane_views(panes@), name@, window) is Some,
    ensures
        window_snapshot(pane_views(panes@), name@, window, saved@),
{
    let ghost views = pane_views(panes@);
    let mut i: usize = 0;
    while i < panes.len() && !belongs(&panes[i], name, window)
        invariant
            i <= panes@.len(),
            views == pane_views(panes@),
            first_pane(views.take(i as int), name@, window) is None,
        decreases panes@.len() - i,
    {
        assert(views[i as int] == panes@[i as int]@);
        assert(views.take(i + 1).drop_last() == views.take(i as int));
        i += 1;
    }
    proof {
        if i == panes@.len() {
            assert(views.take(i as int) == views);
        }
        assert(i < panes@.len());
        assert(views[i as int] == panes@[i as int]@);
        assert(views.take(i + 1).drop_last() == views.take(i as int));
        assert(first_pane(views.take(i + 1), name@, window) == Some(views[i as int]));
        lemma_first_pane_prefix(views, i + 1, name@, window);
    }
    let first = &panes[i];
    let commands = list_commands(panes, name, window);
    SavedWindow {
        automatic_rename: compute_automatic_rename(
            first.auto_rename,
            first.window_name.as_str(),
            &commands,
        ),
        name: first.window_name.clone(),
        layout: first.layout.clone(),
        panes: list_dirs(panes, name, window),
    }
}

/// The snapshot of one session.
fn save_session(panes: &Vec<PaneRecord>, name: &str) -> (saved: SavedSession)
    ensures
        saved@.name == name@,
        session_snapshot(pane_views(panes@), saved@),
{
    let ghost views = pane_views(panes@);
    let list = list_windows(panes, name);
    let mut windows: Vec<SavedWindow> = Vec::new();
    let mut i: usize = 0;
    while i < list.len()
        invariant
            i <= list@.len(),
            i == windows@.len(),
            views == pane_views(panes@),
            lists_windows(list@, views, name@),
            forall|k: int|
                0 <= k < i ==> window_snapshot(views, name@, #[trigger] list@[k], windows@[k]@),
        decreases list@.len() - i,
    {
        assert(list@.contains(list@[i as int]));
        let window = save_window(panes, name, list[i]);
        windows.push(window);
        i += 1;
    }
    let saved = SavedSession { name: name.to_owned(), windows };
    assert forall|k: int| 0 <= k < list@.len() implies window_snapshot(
        views,
        saved@.name,
        #[trigger] list@[k],
        saved@.windows[k],
    ) by {
        assert(saved@.windows[k] == windows@[k]@);
    }
    assert(lists_windows(list@, views, saved@.name));
    saved
}

/// Puts `name` into the ascending list of names, unless it is there.
fn insert_name(list: &mut Vec<String>, name: &str)
    requires
        names_ascend(text::texts(old(list)@)),
    ensures
        names_ascend(text::texts(final(list)@)),
        forall|n: Seq<char>| #[trigger]
            text::texts(final(list)@).contains(n) <==> (n == name@ || text::texts(
                old(list)@,
            ).contains(n)),
{
    let ghost before = text::texts(list@);
    let chars = text::chars_of(name);
    let mut at: usize = 0;
    while at < list.len() && text::comes_before(&text::chars_of(list[at].as_str()), &chars)
        invariant
            at <= list@.len(),
            before == text::texts(list@),
            chars@ == name@,
            forall|k: int| 0 <= k < at ==> text::lex_less(#[trigger] before[k], name@),
        decreases list@.len() - at,
    {
        assert(before[at as int] == list@[at as int]@);
        at += 1;
    }
    if at < list.len() && text::same_text(list[at].as_str(), name) {
        assert(before[at as int] == name@);
        assert(before.contains(name@));
        return;
    }
    list.insert(at, name.to_owned());
    proof {
        let after = text::texts(list@);
        assert(after =~= before.insert(at as int, name@));
        if at < before.len() {
            text::lemma_lex_total(before[at as int], name@);
            assert(text::lex_less(name@, before[at as int]));
        }
        assert forall|i: int, j: int| 0 <= i < j < after.len() implies text::lex_less(
            #[trigger] after[i],
            #[trigger] after[j],
        ) by {
            if j < at {
                assert(after[i] == before[i] && after[j] == before[j]);
            } else if j == at {
                assert(after[i] == before[i]);
            } else if i < at {
                assert(after[i] == before[i] && after[j] == before[j - 1]);
            } else if i == at {
                assert(after[j] == before[j - 1]);
                if j - 1 > at {
                    text::lemma_lex_transitive(name@, before[at as int], before[j - 1]);
                }
            } else {
                assert(after[i] == before[i - 1] && after[j] == before[j - 1]);
            }
        }
        assert forall|n: Seq<char>| #[trigger] after.contains(n) <==> (n == name@
            || before.contains(n)) by {
            lemma_insert_contains(before, at as int, name@, n);
        }
    }
}

/// The names of the sessions with a pane in the list, in their order.
fn list_sessions(panes: &Vec<PaneRecord>) -> (names: Vec<String>)
    ensures
        names_ascend(text::texts(names@)),
        forall|n: Seq<char>| #[trigger]
            text::texts(names@).contains(n) <==> session_listed(pane_views(panes@), n),
{
    let ghost views = pane_views(panes@);
    let mut names: Vec<String> = Vec::new();
    let mut i: usize = 0;
    assert(text::texts(names@) == Seq::<Seq<char>>::empty());
    while i < panes.len()
        invariant
            i <= panes@.len(),
            views == pane_views(panes@),
            names_ascend(text::texts(names@)),
            forall|n: Seq<char>| #[trigger]
                text::texts(names@).contains(n) <==> session_listed(views.take(i as int), n),
        decreases panes@.len() - i,
    {
        let ghost before = text::texts(names@);
        assert(views[i as int] == panes@[i as int]@);
        insert_name(&mut names, panes[i].session.as_str());
        assert forall|n: Seq<char>| #[trigger] text::texts(names@).contains(n) <==> session_listed(
            views.take(i + 1),
            n,
        ) by {
            assert(before.contains(n) <==> session_listed(views.take(i as int), n));
            if session_listed(views.take(i as int), n) {
                let k = choose|k: int|
                    0 <= k < i && #[trigger] views.take(i as int)[k].session == n;
                assert(views.take(i + 1)[k].session == n);
            }
            if session_listed(views.take(i + 1), n) {
                let k = choose|k: int| 0 <= k < i + 1 && #[trigger] views.take(i + 1)[k].session
                    == n;
                if k < i {
                    assert(views.take(i as int)[k].session == n);
                }
            }
            assert(views.take(i + 1)[i as int].session == panes@[i as int].session@);
        }
        i += 1;
    }
    assert(views.take(panes@.len() as int) == views);
    names
}

/// A snapshot and the file that it goes to.
#[derive(Debug)]
pub struct SessionFile {
    /// The file's name in the sessions directory.
    pub file_name: String,
    pub session: SavedSession,
}

/// The snapshots of a list of files.
pub open spec fn saved_sessions(files: Seq<SessionFile>) -> Seq<saved::SessionView> {
    files.map_values(|f: SessionFile| f.session@)
}

/// Snapshot every session that tmux's list of panes shows, each for the file of its name, in
/// the order in which the files are to be written.
///
/// Only the files of listed sessions are named, so those of sessions that are not live keep
/// the last layout they hold.
pub fn save_all_sessions(listing: &str) -> (files: Vec<SessionFile>)
    ensures
        snapshot(listed_panes(listing@), saved_sessions(files@)),
        forall|i: int|
            0 <= i < files@.len() ==> (#[trigger] files@[i]).file_name@ == names::file_name(
                files@[i].session@.name,
            ),
{
    let panes = parse_listing(listing);
    let ghost views = pane_views(panes@);
    let names = list_sessions(&panes);
    let mut files: Vec<SessionFile> = Vec::new();
    let mut i: usize = 0;
    while i < names.len()
        invariant
            i <= names@.len(),
            i == files@.len(),
            views == pane_views(panes@),
            forall|k: int|
                0 <= k < i ==> {
                    &&& (#[trigger] files@[k]).session@.name == names@[k]@
                    &&& files@[k].file_name@ == names::file_name(names@[k]@)
                    &&& session_snapshot(views, files@[k].session@)
                },
        decreases names@.len() - i,
    {
        let session = save_session(&panes, names[i].as_str());
        let file_name = names::session_file_name(names[i].as_str());
        files.push(SessionFile { file_name, session });
        i += 1;
    }
    proof {
        let all = saved_sessions(files@);
        assert(session_names(all) =~= text::texts(names@));
        assert forall|k: int| 0 <= k < all.len() implies session_snapshot(views, #[trigger] all[k]) by {
            assert(all[k] == files@[k].session@);
        }
    }
    files
}

} // verus!
