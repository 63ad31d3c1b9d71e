//! From the text of `ps` and tmux to processes and panes.

use std::collections::HashMap;

use vstd::prelude::*;

use crate::text;
use crate::usage::figures;
use crate::usage::figures::CpuLoad;

verus! {

broadcast use vstd::std_specs::hash::group_hash_axioms;

/// The tmux format that lists one pane per line: its session and its root process.
pub const PANE_PID_FORMAT: &'static str = "#{session_name}\t#{pane_pid}";

/// A process as a line of `ps` describes it.
#[derive(Debug)]
pub struct ProcSample {
    pub pid: u32,
    pub ppid: u32,
    /// The CPU percentage as `ps` wrote it.
    pub cpu: String,
    pub mem_kb: u64,
    pub command: String,
}

/// What a line of `ps` says of a process.
#[verifier::ext_equal]
pub struct SampleView {
    pub pid: u32,
    pub ppid: u32,
    pub cpu: Seq<char>,
    pub mem_kb: u64,
    pub command: Seq<char>,
}

impl View for ProcSample {
    type V = SampleView;

    open spec fn view(&self) -> SampleView {
        SampleView {
            pid: self.pid,
            ppid: self.ppid,
            cpu: self.cpu@,
            mem_kb: self.mem_kb,
            command: self.command@,
        }
    }
}

/// The words with one space between them.
pub open spec fn spaced(parts: Seq<Seq<char>>) -> Seq<char>
    decreases parts.len(),
{
    if parts.len() == 0 {
        Seq::empty()
    } else if parts.len() == 1 {
        parts[0]
    } else {
        spaced(parts.drop_last()).push(' ') + parts.last()
    }
}

/// What a line of `ps` says, with the columns `pid ppid pcpu rss comm`; nothing when it has
/// fewer than four, when one of the two ids is no number, or when it shows the `ps` that
/// process `own_pid` itself has started. A memory figure that is no number counts as 0. The
/// command may hold spaces and takes up the rest of the line.
pub open spec fn sample_of_line(line: Seq<char>, own_pid: u32) -> Option<SampleView> {
    let columns = text::words(line);
    if columns.len() < 4 {
        None
    } else {
        let command = figures::final_component(spaced(columns.skip(4)));
        match (
            text::unsigned(columns[0], u32::MAX as nat),
            text::unsigned(columns[1], u32::MAX as nat),
        ) {
            (Some(pid), Some(ppid)) => if ppid == own_pid && command == "ps"@ {
                None
            } else {
                Some(
                    SampleView {
                        pid: pid as u32,
                        ppid: ppid as u32,
                        cpu: columns[2],
                        mem_kb: match text::unsigned(columns[3], u64::MAX as nat) {
                            Some(kb) => kb as u64,
                            None => 0,
                        },
                        command,
                    },
                )
            },
            _ => None,
        }
    }
}

/// The processes that the lines describe, in their order.
pub open spec fn samples_of_lines(rows: Seq<Seq<char>>, own_pid: u32) -> Seq<SampleView>
    decreases rows.len(),
{
    if rows.len() == 0 {
        Seq::empty()
    } else {
        let before = samples_of_lines(rows.drop_last(), own_pid);
        match sample_of_line(rows.last(), own_pid) {
            Some(sample) => before.push(sample),
            None => before,
        }
    }
}

/// What the samples of a list say.
pub open spec fn sample_views(list: Seq<ProcSample>) -> Seq<SampleView> {
    list.map_values(|s: ProcSample| s@)
}

/// The words from the fifth on, with one space between them.
fn join_from(parts: &Vec<Vec<char>>, from: usize) -> (joined: Vec<char>)
    requires
        from <= parts@.len(),
    ensures
        joined@ == spaced(text::char_rows(parts@).skip(from as int)),
{
    let ghost all = text::char_rows(parts@);
    let mut joined: Vec<char> = Vec::new();
    let mut i: usize = from;
    while i < parts.len()
        invariant
            from <= i <= parts@.len(),
            all == text::char_rows(parts@),
            joined@ == spaced(all.subrange(from as int, i as int)),
        decreases parts@.len() - i,
    {
        let ghost done = all.subrange(from as int, i as int);
        let ghost longer = all.subrange(from as int, i + 1);
        assert(longer.drop_last() =~= done);
        assert(longer.last() == parts@[i as int]@);
        let ghost head = if i == from {
            Seq::<char>::empty()
        } else {
            spaced(done).push(' ')
        };
        if i > from {
            joined.push(' ');
        }
        assert(joined@ =~= head);
        let word = &parts[i];
        let mut k: usize = 0;
        while k < word.len()
            invariant
                k <= word@.len(),
                joined@ == head + word@.take(k as int),
            decreases word@.len() - k,
        {
            joined.push(word[k]);
            assert(word@.take(k + 1) =~= word@.take(k as int).push(word@[k as int]));
            k += 1;
        }
        assert(word@.take(word@.len() as int) =~= word@);
        assert(spaced(longer) =~= head + word@);
        i += 1;
    }
    assert(all.subrange(from as int, parts@.len() as int) =~= all.skip(from as int));
    joined
}

/// Reads one line of `ps`.
pub fn parse_sample(line: &[char], own_pid: u32) -> (sample: Option<ProcSample>)
    ensures
        sample is Some <==> sample_of_line(line@, own_pid) is Some,
        sample matches Some(s) ==> sample_of_line(line@, own_pid) == Some(s@),
{
    let columns = text::split_words(line);
    let ghost parts = text::words(line@);
    assert(text::char_rows(columns@) == parts);
    assert forall|k: int| 0 <= k < parts.len() implies parts[k] == columns@[k]@ by {
        assert(text::char_rows(columns@)[k] == columns@[k]@);
    }
    if columns.len() < 4 {
        return None;
    }
    let joined = join_from(&columns, 4);
    let name = figures::component_of(&joined);
    let command = text::string_of(&name);
    match (text::parse_u32(&columns[0]), text::parse_u32(&columns[1])) {
        (Some(pid), Some(ppid)) => {
            if ppid == own_pid && text::same_text(command.as_str(), "ps") {
                return None;
            }
            let mem_kb: u64 = match text::parse_unsigned(&columns[3], u64::MAX) {
                Some(kb) => kb,
                None => 0,
            };
            Some(ProcSample { pid, ppid, cpu: text::string_of(&columns[2]), mem_kb, command })
        },
        _ => None,
    }
}

/// Snapshot every process on the machine from the text of `ps -A`, with the columns
/// `pid ppid pcpu rss comm`.
///
/// The `ps` of process `own_pid` itself is left out: it always reports a full CPU, and would
/// inflate whichever session it runs in.
pub fn sample_processes(output: &str, own_pid: u32) -> (samples: Vec<ProcSample>)
    ensures
        sample_views(samples@) == samples_of_lines(text::lines(output@), own_pid),
{
    let rows = text::split_lines(output);
    let ghost all = text::lines(output@);
    let mut samples: Vec<ProcSample> = Vec::new();
    let mut i: usize = 0;
    assert(sample_views(samples@) =~= samples_of_lines(all.take(0), own_pid));
    while i < rows.len()
        invariant
            i <= rows@.len(),
            text::char_rows(rows@) == all,
            sample_views(samples@) == samples_of_lines(all.take(i as int), own_pid),
        decreases rows@.len() - i,
    {
        assert(text::char_rows(rows@)[i as int] == rows@[i as int]@);
        assert(all.take(i + 1).drop_last() == all.take(i as int));
        assert(all.take(i + 1).last() == rows@[i as int]@);
        let ghost before = sample_views(samples@);
        if let Some(sample) = parse_sample(&rows[i], own_pid) {
            samples.push(sample);
            assert(sample_views(samples@) =~= before.push(sample@));
        }
        i += 1;
    }
    assert(all.take(rows@.len() as int) =~= all);
    samples
}

/// A process row, before it is attributed to a session.
#[derive(Debug)]
pub struct ProcRow {
    pub ppid: u32,
    pub cpu: CpuLoad,
    pub mem_kb: u64,
    pub command: String,
}

/// What a process row says.
#[verifier::ext_equal]
pub struct RowView {
    pub ppid: u32,
    pub cpu: figures::LoadView,
    pub mem_kb: u64,
    pub command: Seq<char>,
}

impl View for ProcRow {
    type V = RowView;

    open spec fn view(&self) -> RowView {
        RowView {
            ppid: self.ppid,
            cpu: self.cpu@,
            mem_kb: self.mem_kb,
            command: self.command@,
        }
    }
}

/// What the rows of a process table say.
pub open spec fn row_views(table: Map<u32, ProcRow>) -> Map<u32, RowView> {
    table.map_values(|r: ProcRow| r@)
}

/// The process table of the first `n` samples, with their CPU figures: a later sample of a
/// process replaces an earlier one.
pub open spec fn table_of(
    samples: Seq<SampleView>,
    loads: Seq<figures::LoadView>,
    n: int,
) -> Map<u32, RowView>
    decreases n,
{
    if n <= 0 {
        Map::empty()
    } else {
        table_of(samples, loads, n - 1).insert(
            samples[n - 1].pid,
            RowView {
                ppid: samples[n - 1].ppid,
                cpu: loads[n - 1],
                mem_kb: samples[n - 1].mem_kb,
                command: samples[n - 1].command,
            },
        )
    }
}

/// What the CPU figures of a list say.
pub open spec fn load_views(list: Seq<CpuLoad>) -> Seq<figures::LoadView> {
    list.map_values(|l: CpuLoad| l@)
}

/// Keys the samples by process id. `loads` holds the CPU figure of each sample.
pub fn index_processes(samples: &Vec<ProcSample>, loads: &Vec<CpuLoad>) -> (table: HashMap<
    u32,
    ProcRow,
>)
    requires
        samples@.len() == loads@.len(),
    ensures
        row_views(table@) == table_of(
            sample_views(samples@),
            load_views(loads@),
            samples@.len() as int,
        ),
{
    let ghost views = sample_views(samples@);
    let ghost figures = load_views(loads@);
    let mut table: HashMap<u32, ProcRow> = HashMap::new();
    let mut i: usize = 0;
    assert(row_views(table@) =~= table_of(views, figures, 0));
    while i < samples.len()
        invariant
            i <= samples@.len(),
            samples@.len() == loads@.len(),
            views == sample_views(samples@),
            figures == load_views(loads@),
            row_views(table@) == table_of(views, figures, i as int),
        decreases samples@.len() - i,
    {
        let sample = &samples[i];
        let row = ProcRow {
            ppid: sample.ppid,
            cpu: loads[i].duplicate(),
            mem_kb: sample.mem_kb,
            command: sample.command.clone(),
        };
        let ghost before = table@;
        table.insert(sample.pid, row);
        assert(table@ == before.insert(sample.pid, row));
        assert(views[i as int] == samples@[i as int]@);
        assert(figures[i as int] == loads@[i as int]@);
        assert(row_views(table@) =~= row_views(before).insert(sample.pid, row@));
        i += 1;
    }
    table
}

// ---------------------------------------------------------------------------
// Panes
// ---------------------------------------------------------------------------

/// The session and root process that a line of tmux's list of panes names; nothing when it
/// has no tab, when what follows the first is no number, or when the session has no name.
pub open spec fn pane_root(line: Seq<char>) -> Option<(Seq<char>, u32)> {
    let tab = text::before_first(line, '\t') as int;
    if 0 < tab < line.len() {
        match text::unsigned(text::trim(line.skip(tab + 1)), u32::MAX as nat) {
            Some(pid) => Some((line.take(tab), pid as u32)),
            None => None,
        }
    } else {
        None
    }
}

/// The panes that the lines name, in their order.
pub open spec fn pane_roots(rows: Seq<Seq<char>>) -> Seq<(Seq<char>, u32)>
    decreases rows.len(),
{
    if rows.len() == 0 {
        Seq::empty()
    } else {
        let before = pane_roots(rows.drop_last());
        match pane_root(rows.last()) {
            Some(root) => before.push(root),
            None => before,
        }
    }
}

/// What the panes of a list say.
pub open spec fn root_views(panes: Seq<(String, u32)>) -> Seq<(Seq<char>, u32)> {
    panes.map_values(|p: (String, u32)| (p.0@, p.1))
}

/// Reads one line of tmux's list of panes.
fn parse_pane_root(line: &[char]) -> (root: Option<(String, u32)>)
    ensures
        root is Some <==> pane_root(line@) is Some,
        root matches Some(r) ==> pane_root(line@) == Some((r.0@, r.1)),
{
    let tab: usize = text::find_from(line, 0, '\t');
    assert(line@.skip(0) =~= line@);
    if tab == 0 || tab == line.len() {
        return None;
    }
    let rest = text::copy_range(line, tab + 1, line.len());
    assert(rest@ =~= line@.skip(tab + 1));
    match text::parse_u32(&text::trimmed(&rest)) {
        Some(pid) => {
            let name = text::string_of_range(line, 0, tab);
            assert(name@ =~= line@.take(tab as int));
            Some((name, pid))
        },
        None => None,
    }
}

/// Parse `list-panes` output into `(session, pane_pid)` pairs.
pub fn parse_panes(raw: &str) -> (panes: Vec<(String, u32)>)
    ensures
        root_views(panes@) == pane_roots(text::lines(raw@)),
{
    let rows = text::split_lines(raw);
    let ghost all = text::lines(raw@);
    let mut panes: Vec<(String, u32)> = Vec::new();
    let mut i: usize = 0;
    assert(root_views(panes@) =~= pane_roots(all.take(0)));
    while i < rows.len()
        invariant
            i <= rows@.len(),
            text::char_rows(rows@) == all,
            root_views(panes@) == pane_roots(all.take(i as int)),
        decreases rows@.len() - i,
    {
        assert(text::char_rows(rows@)[i as int] == rows@[i as int]@);
        assert(all.take(i + 1).drop_last() == all.take(i as int));
        assert(all.take(i + 1).last() == rows@[i as int]@);
        let ghost before = root_views(panes@);
        if let Some(root) = parse_pane_root(&rows[i]) {
            panes.push(root);
            assert(root_views(panes@) =~= before.push((root.0@, root.1)));
        }
        i += 1;
    }
    assert(all.take(rows@.len() as int) =~= all);
    panes
}

/// The line that tmux writes of a pane.
pub open spec fn pane_line(pane: (Seq<char>, u32)) -> Seq<char> {
    pane.0 + seq!['\t'] + text::decimal(pane.1 as nat)
}

/// The list that tmux writes of the panes.
pub open spec fn pane_list(panes: Seq<(Seq<char>, u32)>) -> Seq<char>
    decreases panes.len(),
{
    if panes.len() == 0 {
        Seq::empty()
    } else {
        pane_line(panes[0]) + seq!['\n'] + pane_list(panes.skip(1))
    }
}

proof fn lemma_pane_roots_concat(a: Seq<Seq<char>>, b: Seq<Seq<char>>)
    ensures
        pane_roots(a + b) == pane_roots(a) + pane_roots(b),
    decreases b.len(),
{
    if b.len() == 0 {
        assert(a + b =~= a);
        assert(pane_roots(a) + pane_roots(b) =~= pane_roots(a));
    } else {
        assert((a + b).drop_last() =~= a + b.drop_last());
        assert((a + b).last() == b.last());
        lemma_pane_roots_concat(a, b.drop_last());
        assert(pane_roots(a + b) =~= pane_roots(a) + pane_roots(b));
    }
}

proof fn lemma_pane_roots_one(row: Seq<char>)
    ensures
        pane_roots(seq![row]) == match pane_root(row) {
            Some(root) => seq![root],
            None => Seq::empty(),
        },
{
    let one = seq![row];
    assert(one.drop_last() =~= Seq::<Seq<char>>::empty());
    assert(pane_roots(one.drop_last()) == Seq::<(Seq<char>, u32)>::empty());
    assert(one.last() == row);
    assert(pane_roots(one) =~= match pane_root(row) {
        Some(root) => seq![root],
        None => Seq::empty(),
    });
}

/// A carriage return at the end of a line makes no difference to its pane.
proof fn lemma_pane_root_without_cr(row: Seq<char>)
    ensures
        pane_root(text::without_cr(row)) == pane_root(row),
{
    let bare = text::without_cr(row);
    text::lemma_before_first(row, '\t');
    text::lemma_before_first(bare, '\t');
    let tab = text::before_first(row, '\t') as int;
    if bare != row {
        if tab < row.len() {
            assert(row[tab] == '\t');
            assert(tab < bare.len());
            text::lemma_before_first_unique(bare, '\t', tab as nat);
            let pid = row.skip(tab + 1);
            text::lemma_trim_ignores_end(pid);
            assert(bare.skip(tab + 1) =~= pid.drop_last());
            assert(bare.take(tab) =~= row.take(tab));
        } else {
            text::lemma_before_first_unique(bare, '\t', bare.len());
        }
    }
}

/// The panes of two texts joined by a newline are those of the one and then the other.
pub proof fn law_joined_lists_hold_both(a: Seq<char>, b: Seq<char>)
    ensures
        pane_roots(text::lines(a + seq!['\n'] + b)) == pane_roots(text::lines(a)) + pane_roots(
            text::lines(b),
        ),
    decreases a.len(),
{
    let whole = a + seq!['\n'] + b;
    text::lemma_before_first(a, '\n');
    let n = text::before_first(a, '\n') as int;
    assert forall|i: int| 0 <= i < n implies whole[i] != '\n' by {
        assert(whole[i] == a[i]);
    }
    text::lemma_before_first_unique(whole, '\n', n as nat);
    assert(whole.take(n) =~= a.take(n));
    let row = text::without_cr(a.take(n));
    let rest = whole.skip(n + 1);
    assert(text::lines(whole) == seq![row] + text::lines(rest));
    lemma_pane_roots_concat(seq![row], text::lines(rest));
    lemma_pane_roots_one(row);
    if n >= a.len() {
        assert(a.take(n) =~= a);
        assert(rest =~= b);
        lemma_pane_root_without_cr(a);
        if a.len() > 0 {
            lemma_pane_roots_one(a);
        } else {
            assert(pane_roots(text::lines(a)) =~= Seq::<(Seq<char>, u32)>::empty());
        }
        assert(pane_roots(text::lines(a)) =~= pane_roots(seq![row]));
    } else {
        let tail = a.skip(n + 1);
        assert(rest =~= tail + seq!['\n'] + b);
        law_joined_lists_hold_both(tail, b);
        assert(text::lines(a) == seq![row] + text::lines(tail));
        lemma_pane_roots_concat(seq![row], text::lines(tail));
        assert(pane_roots(seq![row]) + (pane_roots(text::lines(tail)) + pane_roots(text::lines(b)))
            =~= pane_roots(text::lines(a)) + pane_roots(text::lines(b)));
    }
}

/// A list of panes that was written out reads back as itself, in its order and with what
/// occurs twice. The names may not be empty, nor hold what separates the fields and lines.
pub proof fn law_pane_list_reads_back(panes: Seq<(Seq<char>, u32)>)
    requires
        forall|k: int|
            0 <= k < panes.len() ==> {
                &&& (#[trigger] panes[k]).0.len() > 0
                &&& !panes[k].0.contains('\t')
                &&& !panes[k].0.contains('\n')
            },
    ensures
        pane_roots(text::lines(pane_list(panes))) == panes,
    decreases panes.len(),
{
    if panes.len() == 0 {
        assert(pane_roots(text::lines(pane_list(panes))) =~= panes);
    } else {
        let rest = panes.skip(1);
        let (name, pid) = panes[0];
        let row = pane_line(panes[0]);
        let digits = text::decimal(pid as nat);
        assert forall|k: int| 0 <= k < rest.len() implies {
            &&& (#[trigger] rest[k]).0.len() > 0
            &&& !rest[k].0.contains('\t')
            &&& !rest[k].0.contains('\n')
        } by {
            assert(rest[k] == panes[k + 1]);
        }
        law_pane_list_reads_back(rest);
        law_joined_lists_hold_both(row, pane_list(rest));
        text::lemma_decimal(pid as nat);
        text::law_decimal_reads_back(pid as nat, u32::MAX as nat);
        assert forall|i: int| 0 <= i < row.len() implies row[i] != '\n' by {
            if i < name.len() {
                assert(name.contains(name[i]));
            } else if i > name.len() {
                assert(row[i] == digits[i - name.len() - 1]);
            }
        }
        text::lemma_before_first_unique(row, '\n', row.len());
        assert(text::lines(row) == seq![row]);
        assert forall|i: int| 0 <= i < name.len() implies row[i] != '\t' by {
            assert(name.contains(name[i]));
        }
        text::lemma_before_first_unique(row, '\t', name.len());
        assert(row.take(name.len() as int) =~= name);
        assert(row.skip(name.len() as int + 1) =~= digits);
        assert(pane_root(row) == Some((name, pid)));
        lemma_pane_roots_one(row);
        assert(panes =~= seq![panes[0]] + rest);
    }
}

/// The name of a pane's session is never empty and holds no tab.
pub proof fn law_pane_names_are_fields(rows: Seq<Seq<char>>)
    ensures
        forall|k: int|
            0 <= k < pane_roots(rows).len() ==> (#[trigger] pane_roots(rows)[k]).0.len() > 0
                && !pane_roots(rows)[k].0.contains('\t'),
    decreases rows.len(),
{
    if rows.len() > 0 {
        let before = pane_roots(rows.drop_last());
        let all = pane_roots(rows);
        law_pane_names_are_fields(rows.drop_last());
        text::lemma_before_first(rows.last(), '\t');
        assert forall|k: int| 0 <= k < all.len() implies (#[trigger] all[k]).0.len() > 0
            && !all[k].0.contains('\t') by {
            if k < before.len() {
                assert(all[k] == before[k]);
            }
        }
    }
}

} // verus!
