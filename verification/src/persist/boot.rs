//! The first run after a reboot.

use vstd::prelude::*;

use crate::persist::config::Config;
use crate::text;

verus! {

/// File under the state directory that holds the last boot id acted on.
pub const BOOT_ID_FILE: &'static str = "boot-id";

/// What is reported when the boot id could not be recorded.
pub const RECORD_FAILED: &'static str = "jelly: could not record boot id; skipping post-reboot clean slate";

/// The boot id that a source gives: its text without the white space around it, unless that
/// leaves nothing.
pub open spec fn boot_id_of(source: Option<Seq<char>>) -> Option<Seq<char>> {
    match source {
        Some(raw) => if text::trim(raw).len() > 0 {
            Some(text::trim(raw))
        } else {
            None
        },
        None => None,
    }
}

/// Reads a boot id from what a source gave.
fn read_boot_id(source: Option<&str>) -> (id: Option<String>)
    ensures
        text::opt_text(id) == boot_id_of(text::opt_str(source)),
{
    match source {
        Some(raw) => {
            let inner = text::trimmed(&text::chars_of(raw));
            if inner.len() > 0 {
                Some(text::string_of(&inner))
            } else {
                None
            }
        },
        None => None,
    }
}

/// The current boot id: the kernel's, and else that of `sysctl`.
pub open spec fn boot_id(kernel: Option<Seq<char>>, sysctl: Option<Seq<char>>) -> Option<
    Seq<char>,
> {
    match boot_id_of(kernel) {
        Some(id) => Some(id),
        None => boot_id_of(sysctl),
    }
}

/// A value that uniquely identifies the current boot, from what `/proc` holds and, where that
/// is of no use, from what `sysctl` printed.
pub fn current_boot_id(kernel: Option<&str>, sysctl: Option<&str>) -> (id: Option<String>)
    ensures
        text::opt_text(id) == boot_id(text::opt_str(kernel), text::opt_str(sysctl)),
        id matches Some(found) ==> found@.len() > 0 && text::trim(found@) == found@,
{
    proof {
        if let Some(raw) = text::opt_str(kernel) {
            text::lemma_trim_idempotent(raw);
        }
        if let Some(raw) = text::opt_str(sysctl) {
            text::lemma_trim_idempotent(raw);
        }
    }
    match read_boot_id(kernel) {
        Some(id) => Some(id),
        None => read_boot_id(sysctl),
    }
}

/// What the first run after a reboot has to do.
#[derive(Debug, Clone, Copy, PartialEq, Eq, Structural)]
pub enum FirstRun {
    /// Nothing.
    Nothing,
    /// Record the boot id, and close nothing.
    Record,
    /// Record the boot id and, once it is recorded, close the open sessions.
    RecordAndClear,
}

/// What is to be done, by the boot id and the one that was stored. Without lazy restore, a
/// state directory or a boot id it is nothing, and so it is when the boot was acted on before.
/// The first boot ever tracked is only recorded, since nothing tells whether the machine was
/// rebooted.
pub open spec fn first_run(
    config: Config,
    has_state_dir: bool,
    boot_id: Option<Seq<char>>,
    stored: Option<Seq<char>>,
) -> FirstRun {
    if !config.restores() || !has_state_dir {
        FirstRun::Nothing
    } else {
        match (boot_id, stored) {
            (None, _) => FirstRun::Nothing,
            (Some(id), None) => FirstRun::Record,
            (Some(id), Some(raw)) => if text::trim(raw) == id {
                FirstRun::Nothing
            } else {
                FirstRun::RecordAndClear
            },
        }
    }
}

/// On the first run after a reboot, close every open tmux session for a clean slate: decides
/// what there is to do. `stored` is what the boot-id file holds, if it can be read.
pub fn handle_first_run(
    config: &Config,
    has_state_dir: bool,
    boot_id: Option<&str>,
    stored: Option<&str>,
) -> (task: FirstRun)
    ensures
        task == first_run(*config, has_state_dir, text::opt_str(boot_id), text::opt_str(stored)),
{
    if !config.lazy_restore_on() || !has_state_dir {
        return FirstRun::Nothing;
    }
    match boot_id {
        None => FirstRun::Nothing,
        Some(id) => match stored {
            None => FirstRun::Record,
            Some(raw) => {
                let inner = text::trimmed(&text::chars_of(raw));
                if text::same_chars(&inner, &text::chars_of(id)) {
                    FirstRun::Nothing
                } else {
                    FirstRun::RecordAndClear
                }
            },
        },
    }
}

/// What follows the attempt to record the boot id.
#[derive(Debug, Clone, Copy, PartialEq, Eq, Structural)]
pub enum AfterRecord {
    /// Nothing more.
    Done,
    /// Report that the clean slate is skipped.
    Warn,
    /// Close the open sessions.
    Clear,
}

/// What follows, by what there was to do and whether recording succeeded. The boot id is
/// recorded first, so that the clean slate runs at most once per boot.
pub open spec fn after_record(task: FirstRun, recorded: bool) -> AfterRecord {
    if task != FirstRun::RecordAndClear {
        AfterRecord::Done
    } else if recorded {
        AfterRecord::Clear
    } else {
        AfterRecord::Warn
    }
}

/// Decides what follows the attempt to record the boot id.
pub fn finish_first_run(task: FirstRun, recorded: bool) -> (next: AfterRecord)
    ensures
        next == after_record(task, recorded),
{
    match task {
        FirstRun::RecordAndClear => if recorded {
            AfterRecord::Clear
        } else {
            AfterRecord::Warn
        },
        _ => AfterRecord::Done,
    }
}

/// The clean slate runs at most once per boot: when the boot id that was found stands in the
/// file, a run in the same boot has nothing to do.
pub proof fn law_clean_slate_once_per_boot(
    config: Config,
    has_state_dir: bool,
    kernel: Option<Seq<char>>,
    sysctl: Option<Seq<char>>,
)
    requires
        boot_id(kernel, sysctl) is Some,
    ensures
        first_run(config, has_state_dir, boot_id(kernel, sysctl), boot_id(kernel, sysctl))
            == FirstRun::Nothing,
{
    if let Some(raw) = kernel {
        text::lemma_trim_idempotent(raw);
    }
    if let Some(raw) = sysctl {
        text::lemma_trim_idempotent(raw);
    }
}

/// Sessions are closed only when a boot id was stored, it is not the current one, and the
/// current one has been recorded; so never on the first boot ever tracked.
pub proof fn law_clean_slate_only_after_a_reboot(
    config: Config,
    has_state_dir: bool,
    id: Option<Seq<char>>,
    stored: Option<Seq<char>>,
    recorded: bool,
)
    ensures
        after_record(first_run(config, has_state_dir, id, stored), recorded) == AfterRecord::Clear
            <==> {
            &&& config.restores()
            &&& has_state_dir
            &&& recorded
            &&& id is Some
            &&& stored is Some
            &&& text::trim(stored->0) != id->0
        },
{
}

// ---------------------------------------------------------------------------
// Closing the open sessions
// ---------------------------------------------------------------------------

/// `s` without its characters `c`.
pub open spec fn without(s: Seq<char>, c: char) -> Seq<char>
    decreases s.len(),
{
    if s.len() == 0 {
        s
    } else if s.last() == c {
        without(s.drop_last(), c)
    } else {
        without(s.drop_last(), c).push(s.last())
    }
}

/// Computes `without`.
fn drop_char(chars: &[char], c: char) -> (kept: Vec<char>)
    ensures
        kept@ == without(chars@, c),
{
    let mut kept: Vec<char> = Vec::new();
    let mut i: usize = 0;
    while i < chars.len()
        invariant
            i <= chars@.len(),
            kept@ == without(chars@.take(i as int), c),
        decreases chars@.len() - i,
    {
        assert(chars@.take(i + 1).drop_last() == chars@.take(i as int));
        if chars[i] != c {
            kept.push(chars[i]);
        }
        i += 1;
    }
    assert(chars@.take(chars@.len() as int) == chars@);
    kept
}

/// The name of the attached session, from tmux's answer: the answer without quotes and
/// newlines, unless that leaves nothing. There is no answer outside tmux.
pub open spec fn attached_session(answer: Option<Seq<char>>) -> Option<Seq<char>> {
    match answer {
        Some(raw) => {
            let name = without(without(raw, '\''), '\n');
            if name.len() > 0 {
                Some(name)
            } else {
                None
            }
        },
        None => None,
    }
}

/// The session to close for a line of tmux's list of sessions: the line without quotes and
/// without the white space around it, unless that leaves nothing or the line names the
/// attached session.
pub open spec fn session_to_close(line: Seq<char>, attached: Option<Seq<char>>) -> Option<
    Seq<char>,
> {
    let listed = without(line, '\'');
    let name = text::trim(listed);
    if name.len() == 0 || attached == Some(name) || attached == Some(listed) {
        None
    } else {
        Some(name)
    }
}

/// The sessions to close for the lines of the list, in their order.
pub open spec fn sessions_to_close(rows: Seq<Seq<char>>, attached: Option<Seq<char>>) -> Seq<
    Seq<char>,
>
    decreases rows.len(),
{
    if rows.len() == 0 {
        Seq::empty()
    } else {
        let before = sessions_to_close(rows.drop_last(), attached);
        match session_to_close(rows.last(), attached) {
            Some(name) => before.push(name),
            None => before,
        }
    }
}

/// Which sessions to close for a clean slate, from tmux's list of sessions: all but the
/// attached one, which is left alone so that a run inside tmux is not terminated.
///
/// `answer` is what tmux says of the attached session, for a run inside tmux.
pub fn kill_all_sessions(answer: Option<&str>, listing: &str) -> (names: Vec<String>)
    ensures
        text::texts(names@) == sessions_to_close(
            text::lines(listing@),
            attached_session(text::opt_str(answer)),
        ),
{
    let attached: Option<Vec<char>> = match answer {
        Some(raw) => {
            let bare = drop_char(&drop_char(&text::chars_of(raw), '\''), '\n');
            if bare.len() > 0 {
                Some(bare)
            } else {
                None
            }
        },
        None => None,
    };
    let ghost current = attached_session(text::opt_str(answer));
    let rows = text::split_lines(listing);
    let ghost all = text::lines(listing@);
    let mut names: Vec<String> = Vec::new();
    let mut i: usize = 0;
    assert(text::texts(names@) =~= sessions_to_close(all.take(0), current));
    while i < rows.len()
        invariant
            i <= rows@.len(),
            text::char_rows(rows@) == all,
            attached is Some <==> current is Some,
            attached matches Some(name) ==> current == Some(name@),
            text::texts(names@) == sessions_to_close(all.take(i as int), current),
        decreases rows@.len() - i,
    {
        assert(text::char_rows(rows@)[i as int] == rows@[i as int]@);
        assert(all.take(i + 1).drop_last() == all.take(i as int));
        assert(all.take(i + 1).last() == rows@[i as int]@);
        let ghost before = text::texts(names@);
        let listed = drop_char(&rows[i], '\'');
        let name = text::trimmed(&listed);
        let spared = match &attached {
            Some(current) => text::same_chars(current, &name) || text::same_chars(
                current,
                &listed,
            ),
            None => false,
        };
        if name.len() > 0 && !spared {
            names.push(text::string_of(&name));
            assert(text::texts(names@) =~= before.push(name@));
        }
        i += 1;
    }
    assert(all.take(rows@.len() as int) =~= all);
    names
}

proof fn lemma_sessions_to_close(
    rows: Seq<Seq<char>>,
    attached: Option<Seq<char>>,
    name: Seq<char>,
)
    ensures
        sessions_to_close(rows, attached).contains(name) <==> exists|i: int|
            0 <= i < rows.len() && session_to_close(#[trigger] rows[i], attached) == Some(name),
    decreases rows.len(),
{
    let closed = sessions_to_close(rows, attached);
    if rows.len() > 0 {
        let shorter = rows.drop_last();
        let before = sessions_to_close(shorter, attached);
        lemma_sessions_to_close(shorter, attached, name);
        if closed.contains(name) {
            let k = choose|k: int| 0 <= k < closed.len() && closed[k] == name;
            if k < before.len() {
                assert(before[k] == name);
                let i = choose|i: int|
                    0 <= i < shorter.len() && session_to_close(#[trigger] shorter[i], attached)
                        == Some(name);
                assert(rows[i] == shorter[i]);
            } else {
                assert(session_to_close(rows[rows.len() - 1], attached) == Some(name));
            }
        }
        if exists|i: int|
            0 <= i < rows.len() && session_to_close(#[trigger] rows[i], attached) == Some(name) {
            let i = choose|i: int|
                0 <= i < rows.len() && session_to_close(#[trigger] rows[i], attached) == Some(
                    name,
                );
            if i < rows.len() - 1 {
                assert(shorter[i] == rows[i]);
                assert(before.contains(name));
                let k = choose|k: int| 0 <= k < before.len() && before[k] == name;
                assert(closed[k] == name);
            } else {
                assert(closed[closed.len() - 1] == name);
            }
        }
    }
}

/// The attached session is never among those that are closed.
pub proof fn law_attached_session_is_spared(rows: Seq<Seq<char>>, attached: Seq<char>)
    ensures
        !sessions_to_close(rows, Some(attached)).contains(attached),
        forall|i: int|
            0 <= i < rows.len() && without(rows[i], '\'') == attached ==> session_to_close(
                #[trigger] rows[i],
                Some(attached),
            ) is None,
{
    lemma_sessions_to_close(rows, Some(attached), attached);
}

/// Every listed session that is not the attached one is closed.
pub proof fn law_every_other_session_is_closed(
    rows: Seq<Seq<char>>,
    attached: Option<Seq<char>>,
    i: int,
)
    requires
        0 <= i < rows.len(),
        text::trim(without(rows[i], '\'')).len() > 0,
        attached != Some(without(rows[i], '\'')),
        attached != Some(text::trim(without(rows[i], '\''))),
    ensures
        sessions_to_close(rows, attached).contains(text::trim(without(rows[i], '\''))),
{
    let name = text::trim(without(rows[i], '\''));
    lemma_sessions_to_close(rows, attached, name);
    assert(session_to_close(rows[i], attached) == Some(name));
}

} // verus!
