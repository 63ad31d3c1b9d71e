//! What each part of the usage screen promises, by what goes in and what comes out.

use vstd::prelude::*;

use crate::text;
use crate::usage::attribution;
use crate::usage::attribution::{Process, SessionProcesses};
use crate::usage::figures;
use crate::usage::figures::{CpuLoad, Metric};
use crate::usage::laws;
use crate::usage::monitor;
use crate::usage::monitor::{Input, Key};
use crate::usage::ranking;
use crate::usage::ranking::SessionUsage;
use crate::usage::sample;
use crate::usage::sample::{ProcRow, ProcSample};

verus! {

// ---------------------------------------------------------------------------
// What values say
// ---------------------------------------------------------------------------

/// A CPU figure, a sample, a row of the process table and a process say all that they hold.
pub proof fn law_values_say_everything(
    load: CpuLoad,
    sample: ProcSample,
    row: ProcRow,
    process: Process,
)
    ensures
        load@.bits == load.bits && load@.tenths == load.tenths && load@.text == load.text@,
        sample@.pid == sample.pid && sample@.ppid == sample.ppid && sample@.cpu == sample.cpu@,
        sample@.mem_kb == sample.mem_kb && sample@.command == sample.command@,
        row@.ppid == row.ppid && row@.cpu == row.cpu@ && row@.mem_kb == row.mem_kb,
        row@.command == row.command@,
        process@.cpu == process.cpu@ && process@.mem_kb == process.mem_kb,
        process@.command == process.command@,
{
}

/// What lists and tables say is what each of their entries says.
pub proof fn law_lists_say_everything(
    samples: Seq<ProcSample>,
    loads: Seq<CpuLoad>,
    table: Map<u32, ProcRow>,
    processes: Seq<Process>,
    panes: Seq<(String, u32)>,
)
    ensures
        sample::sample_views(samples).len() == samples.len(),
        forall|i: int|
            0 <= i < samples.len() ==> #[trigger] sample::sample_views(samples)[i] == samples[i]@,
        sample::load_views(loads).len() == loads.len(),
        forall|i: int|
            0 <= i < loads.len() ==> #[trigger] sample::load_views(loads)[i] == loads[i]@,
        forall|pid: u32| #[trigger]
            sample::row_views(table).contains_key(pid) <==> table.contains_key(pid),
        forall|pid: u32|
            table.contains_key(pid) ==> #[trigger] sample::row_views(table)[pid] == table[pid]@,
        attribution::process_views(processes).len() == processes.len(),
        forall|i: int|
            0 <= i < processes.len() ==> #[trigger] attribution::process_views(processes)[i]
                == processes[i]@,
        sample::root_views(panes).len() == panes.len(),
        forall|i: int|
            0 <= i < panes.len() ==> #[trigger] sample::root_views(panes)[i] == (
                panes[i].0@,
                panes[i].1,
            ),
{
}

// ---------------------------------------------------------------------------
// Figures
// ---------------------------------------------------------------------------

/// The names of the metrics, and that each is the other's other.
pub proof fn law_metrics(metric: Metric)
    ensures
        Metric::Cpu.name() == "CPU"@,
        Metric::Mem.name() == "Memory"@,
        metric.other() != metric,
        metric.other().other() == metric,
{
}

/// Floating-point numbers are in order by their encodings: the larger encoding is the larger
/// number without the sign bit and the smaller with it, and those with it come before those
/// without.
pub proof fn law_loads_are_in_order(a: u32, b: u32)
    ensures
        a < b < 0x8000_0000 ==> figures::total_order(a) < figures::total_order(b),
        0x8000_0000 <= a < b ==> figures::total_order(a) > figures::total_order(b),
        a < 0x8000_0000 <= b ==> figures::total_order(b) < figures::total_order(a),
{
}

/// `half_even` gives a nearest whole number, and of two the even one.
pub proof fn law_half_even_is_nearest(a: nat, b: nat)
    requires
        b > 0,
    ensures
        ({
            let q = figures::half_even(a, b) as int;
            &&& -(b as int) <= 2 * (q * b - a) <= b
            &&& 2 * (q * b - a) == b || 2 * (q * b - a) == -(b as int) ==> q % 2 == 0
        }),
{
    let q = (a / b) as int;
    let r = (a % b) as int;
    vstd::arithmetic::div_mod::lemma_fundamental_div_mod(a as int, b as int);
    vstd::arithmetic::div_mod::lemma_mod_bound(a as int, b as int);
    assert(q * b == b * q) by (nonlinear_arith);
    assert((q + 1) * b == q * b + b) by (nonlinear_arith);
    assert(a == q * b + r);
}

/// The distance of doubles around a number is a power of two, by which the number is at least
/// 2^52 and below 2^53 where it is more than one.
proof fn lemma_double_spacing(n: nat)
    ensures
        figures::double_spacing(n) >= 1,
        n < 0x20_0000_0000_0000 ==> figures::double_spacing(n) == 1,
        n >= 0x20_0000_0000_0000 ==> {
            let gap = figures::double_spacing(n);
            &&& gap >= 2
            &&& 0x10_0000_0000_0000 * gap <= n
            &&& n < 0x20_0000_0000_0000 * gap
        },
    decreases n,
{
    if n >= 0x20_0000_0000_0000 {
        lemma_double_spacing(n / 2);
    }
}

/// A memory count is taken for the nearest number of 53 binary digits: up to 2^53 for itself,
/// and beyond that for one that is off by at most one part in 2^53.
pub proof fn law_counts_are_nearly_exact(n: nat)
    ensures
        n <= 0x20_0000_0000_0000 ==> figures::as_double(n) == n,
        -(n as int) <= (figures::as_double(n) - n) * 0x20_0000_0000_0000 <= n,
{
    let gap = figures::double_spacing(n);
    lemma_double_spacing(n);
    law_half_even_is_nearest(n, gap);
    if n < 0x20_0000_0000_0000 {
        assert(figures::half_even(n, 1) == n);
    } else {
        let d = figures::half_even(n, gap) * gap;
        assert(figures::as_double(n) == d);
        assert(-(gap as int) <= 2 * (d - n) <= gap);
        if n == 0x20_0000_0000_0000 {
            assert(figures::double_spacing(n / 2) == 1);
            assert(gap == 2);
            assert(figures::half_even(n, 2) == 0x10_0000_0000_0000);
        }
    }
}

/// A memory count is taken for a number of at most 53 binary digits, with zeros behind.
pub proof fn law_counts_have_53_digits(n: nat) -> (parts: (nat, nat))
    ensures
        figures::as_double(n) == parts.0 * vstd::arithmetic::power2::pow2(parts.1),
        parts.0 <= 0x20_0000_0000_0000,
{
    let gap = figures::double_spacing(n);
    let k = lemma_spacing_is_power(n);
    lemma_double_spacing(n);
    law_half_even_is_nearest(n, gap);
    let q = figures::half_even(n, gap);
    assert(q <= 0x20_0000_0000_0000) by {
        if n >= 0x20_0000_0000_0000 && q > 0x20_0000_0000_0000 {
            assert(q * gap >= 0x20_0000_0000_0001 * gap) by (nonlinear_arith)
                requires
                    q >= 0x20_0000_0000_0001,
            ;
        }
    }
    (q, k)
}

proof fn lemma_spacing_is_power(n: nat) -> (k: nat)
    ensures
        figures::double_spacing(n) == vstd::arithmetic::power2::pow2(k),
    decreases n,
{
    if n < 0x20_0000_0000_0000 {
        vstd::arithmetic::power2::lemma2_to64();
        0
    } else {
        let k = lemma_spacing_is_power(n / 2);
        vstd::arithmetic::power2::lemma_pow2_unfold(k + 1);
        k + 1
    }
}

/// Memory is shown in kilobytes below 1000; in whole megabytes, the nearest of 1024 kilobytes,
/// up to 1000 of them; and in gigabytes with one decimal beyond, the nearest tenth. A number
/// right between two is shown as the even one.
pub proof fn law_memory_figures(kb: nat) -> (shown: nat)
    ensures
        ({
            let d = figures::as_double(kb);
            &&& kb < 1000 ==> figures::mem_text(kb) == text::decimal(kb) + " KB"@
            &&& 1000 <= kb < 1000 * 1024 ==> {
                &&& figures::mem_text(kb) == text::decimal(shown) + " MB"@
                &&& -512 <= 1024 * shown - kb <= 512
                &&& 1024 * shown - kb == 512 || 1024 * shown - kb == -512 ==> shown % 2 == 0
            }
            &&& kb >= 1000 * 1024 ==> {
                &&& figures::mem_text(kb) == text::decimal(shown / 10) + "."@ + text::decimal(
                    shown % 10,
                ) + " GB"@
                &&& -524288 <= 1048576 * shown - 10 * d <= 524288
                &&& 1048576 * shown - 10 * d == 524288 || 1048576 * shown - 10 * d == -524288
                    ==> shown % 2 == 0
            }
        }),
{
    law_counts_are_nearly_exact(kb);
    let d = figures::as_double(kb);
    if kb < 1000 * 1024 {
        law_half_even_is_nearest(kb, 1024);
        figures::half_even(kb, 1024)
    } else {
        assert(d >= 1000 * 1024);
        law_half_even_is_nearest(d * 10, 1024 * 1024);
        figures::half_even(d * 10, 1024 * 1024)
    }
}

proof fn lemma_after_last_slash(dir: Seq<char>, base: Seq<char>)
    requires
        !base.contains('/'),
    ensures
        figures::after_last_slash(dir + seq!['/'] + base) == dir.len() + 1,
        figures::after_last_slash(base) == 0,
    decreases base.len(),
{
    let whole = dir + seq!['/'] + base;
    if base.len() == 0 {
        assert(whole.last() == '/');
    } else {
        let less = base.drop_last();
        assert(base.contains(base[base.len() - 1]));
        if less.contains('/') {
            let i = choose|i: int| 0 <= i < less.len() && less[i] == '/';
            assert(base[i] == '/');
        }
        lemma_after_last_slash(dir, less);
        assert(whole.drop_last() =~= dir + seq!['/'] + less);
        assert(whole.last() == base.last());
    }
}

/// A command is shown by what follows its last slash; where nothing does, or there is none, by
/// the whole of it. White space around it makes no difference.
pub proof fn law_final_components(
    pre: Seq<char>,
    dir: Seq<char>,
    base: Seq<char>,
    post: Seq<char>,
)
    requires
        text::laws::all_white(pre),
        text::laws::all_white(post),
        !base.contains('/'),
    ensures
        base.len() > 0 && text::laws::bare(dir + seq!['/'] + base) ==> figures::final_component(
            pre + (dir + seq!['/'] + base) + post,
        ) == base,
        text::laws::bare(base) ==> figures::final_component(pre + base + post) == base,
        text::laws::bare(dir + seq!['/']) ==> figures::final_component(
            pre + (dir + seq!['/']) + post,
        ) == dir + seq!['/'],
{
    let whole = dir + seq!['/'] + base;
    let none = Seq::<char>::empty();
    lemma_after_last_slash(dir, base);
    lemma_after_last_slash(dir, none);
    assert(dir + seq!['/'] + none =~= dir + seq!['/']);
    assert(whole.skip(dir.len() + 1 as int) =~= base);
    assert(base.skip(0) =~= base);
    if text::laws::bare(whole) {
        text::laws::law_trim_leaves_the_inside(pre, whole, post);
    }
    if text::laws::bare(base) {
        text::laws::law_trim_leaves_the_inside(pre, base, post);
    }
    if text::laws::bare(dir + seq!['/']) {
        text::laws::law_trim_leaves_the_inside(pre, dir + seq!['/'], post);
    }
}

/// A shortened text begins as the text does, in all but the mark of the cut.
pub proof fn law_shortened_texts_begin_alike(s: Seq<char>, max: nat)
    ensures
        s.len() <= max ==> figures::shortened(s, max) == s,
        s.len() > max > 0 ==> figures::shortened(s, max) == s.take(max - 1) + seq!['…'],
        max == 0 ==> figures::shortened(s, max).len() == 0,
{
    if s.len() > max && max > 0 {
        assert(figures::shortened(s, max) =~= s.take(max - 1) + seq!['…']);
    }
}

// ---------------------------------------------------------------------------
// Samples
// ---------------------------------------------------------------------------

proof fn lemma_joined_push(parts: Seq<Seq<char>>, word: Seq<char>)
    requires
        parts.len() > 0,
    ensures
        text::laws::fields_joined(parts.push(word), ' ') == text::laws::fields_joined(parts, ' ')
            + seq![' '] + word,
    decreases parts.len(),
{
    let longer = parts.push(word);
    assert(longer.skip(1) =~= parts.skip(1).push(word));
    if parts.len() == 1 {
        assert(longer.skip(1) =~= seq![word]);
        assert(text::laws::fields_joined(longer.skip(1), ' ') == word);
    } else {
        lemma_joined_push(parts.skip(1), word);
        assert(text::laws::fields_joined(longer, ' ') =~= text::laws::fields_joined(parts, ' ')
            + seq![' '] + word);
    }
}

proof fn lemma_spaced(parts: Seq<Seq<char>>)
    ensures
        sample::spaced(parts) == text::laws::fields_joined(parts, ' '),
    decreases parts.len(),
{
    if parts.len() > 1 {
        let less = parts.drop_last();
        lemma_spaced(less);
        lemma_joined_push(less, parts.last());
        assert(less.push(parts.last()) =~= parts);
        assert(sample::spaced(parts) =~= text::laws::fields_joined(less, ' ') + seq![' ']
            + parts.last());
    }
}

/// A line of `ps` is read column by column: it describes a process exactly when it has four
/// columns or more, the first two are ids, and it is not the `ps` of the process itself; and
/// then the ids, the CPU column, the memory, which is 0 where it is no number, and the rest of
/// the line as the command are those of the line.
pub proof fn law_process_lines_are_read_column_by_column(line: Seq<char>, own_pid: u32)
    ensures
        ({
            let columns = text::words(line);
            let pid = text::unsigned(columns[0], u32::MAX as nat);
            let ppid = text::unsigned(columns[1], u32::MAX as nat);
            let memory = text::unsigned(columns[3], u64::MAX as nat);
            let rest = text::laws::fields_joined(columns.skip(4), ' ');
            let command = figures::final_component(rest);
            let found = sample::sample_of_line(line, own_pid);
            &&& found is Some <==> {
                &&& columns.len() >= 4
                &&& pid is Some
                &&& ppid is Some
                &&& !(ppid->0 == own_pid && command == "ps"@)
            }
            &&& found matches Some(s) ==> {
                &&& s.pid == pid->0
                &&& s.ppid == ppid->0
                &&& s.cpu == columns[2]
                &&& memory matches Some(kb) ==> s.mem_kb == kb
                &&& memory is None ==> s.mem_kb == 0
                &&& s.command == command
            }
        }),
{
    lemma_spaced(text::words(line).skip(4));
}

proof fn lemma_samples_concat(a: Seq<Seq<char>>, b: Seq<Seq<char>>, own_pid: u32)
    ensures
        sample::samples_of_lines(a + b, own_pid) == sample::samples_of_lines(a, own_pid)
            + sample::samples_of_lines(b, own_pid),
    decreases b.len(),
{
    if b.len() == 0 {
        assert(a + b =~= a);
        assert(sample::samples_of_lines(a, own_pid) + sample::samples_of_lines(b, own_pid)
            =~= sample::samples_of_lines(a, own_pid));
    } else {
        assert((a + b).drop_last() =~= a + b.drop_last());
        assert((a + b).last() == b.last());
        lemma_samples_concat(a, b.drop_last(), own_pid);
        assert(sample::samples_of_lines(a + b, own_pid) =~= sample::samples_of_lines(a, own_pid)
            + sample::samples_of_lines(b, own_pid));
    }
}

/// The output of `ps` is read line by line, in its order; lines that describe no process are
/// passed over.
pub proof fn law_samples_are_read_line_by_line(row: Seq<char>, rest: Seq<char>, own_pid: u32)
    requires
        !row.contains('\n'),
        row.len() == 0 || row.last() != '\r',
    ensures
        sample::samples_of_lines(text::lines(row + seq!['\n'] + rest), own_pid)
            == match sample::sample_of_line(row, own_pid) {
            Some(found) => seq![found] + sample::samples_of_lines(text::lines(rest), own_pid),
            None => sample::samples_of_lines(text::lines(rest), own_pid),
        },
        sample::samples_of_lines(text::lines(Seq::empty()), own_pid).len() == 0,
{
    text::laws::law_lines_one_by_one(row, rest);
    let one = seq![row];
    let after = sample::samples_of_lines(text::lines(rest), own_pid);
    lemma_samples_concat(one, text::lines(rest), own_pid);
    assert(one.drop_last() =~= Seq::<Seq<char>>::empty());
    assert(sample::samples_of_lines(one.drop_last(), own_pid) == Seq::<
        sample::SampleView,
    >::empty());
    assert(one.last() == row);
    match sample::sample_of_line(row, own_pid) {
        Some(found) => {
            assert(sample::samples_of_lines(one, own_pid) =~= seq![found]);
        },
        None => {
            assert(sample::samples_of_lines(one, own_pid) + after =~= after);
        },
    }
}

/// The process table holds, of every process that was sampled, what its last sample says with
/// the CPU figure of that sample.
pub proof fn law_last_samples_count(
    samples: Seq<sample::SampleView>,
    loads: Seq<figures::LoadView>,
    n: int,
    k: int,
)
    requires
        0 <= k < n <= samples.len(),
        loads.len() == samples.len(),
        forall|m: int| k < m < n ==> (#[trigger] samples[m]).pid != samples[k].pid,
    ensures
        ({
            let table = sample::table_of(samples, loads, n);
            let row = table[samples[k].pid];
            &&& table.contains_key(samples[k].pid)
            &&& row.ppid == samples[k].ppid
            &&& row.cpu == loads[k]
            &&& row.mem_kb == samples[k].mem_kb
            &&& row.command == samples[k].command
        }),
    decreases n,
{
    if k < n - 1 {
        assert(samples[n - 1].pid != samples[k].pid);
        law_last_samples_count(samples, loads, n - 1, k);
    }
}

/// The process table holds no process that was not sampled.
pub proof fn law_only_samples_count(
    samples: Seq<sample::SampleView>,
    loads: Seq<figures::LoadView>,
    n: int,
    pid: u32,
)
    requires
        n <= samples.len(),
        forall|m: int| 0 <= m < n ==> (#[trigger] samples[m]).pid != pid,
    ensures
        !sample::table_of(samples, loads, n).contains_key(pid),
    decreases n,
{
    if n > 0 {
        assert(samples[n - 1].pid != pid);
        law_only_samples_count(samples, loads, n - 1, pid);
    }
}

/// A line of tmux's list names a pane exactly when something stands before its first tab, which
/// is the session, and a process id behind it, with white space around it or not.
pub proof fn law_pane_roots_are_read_by_field(
    name: Seq<char>,
    pre: Seq<char>,
    id: Seq<char>,
    post: Seq<char>,
)
    requires
        !name.contains('\t'),
        text::laws::all_white(pre),
        text::laws::all_white(post),
        text::laws::bare(id),
    ensures
        sample::pane_root(name) is None,
        sample::pane_root(name + seq!['\t'] + (pre + id + post)) == match text::unsigned(
            id,
            u32::MAX as nat,
        ) {
            Some(pid) => if name.len() > 0 {
                Some((name, pid as u32))
            } else {
                None
            },
            None => None,
        },
{
    let line = name + seq!['\t'] + (pre + id + post);
    assert forall|i: int| 0 <= i < name.len() implies name[i] != '\t' by {
        assert(name.contains(name[i]));
    }
    text::lemma_before_first_unique(name, '\t', name.len());
    text::lemma_before_first_unique(line, '\t', name.len());
    assert(line.take(name.len() as int) =~= name);
    assert(line.skip(name.len() + 1 as int) =~= pre + id + post);
    text::laws::law_trim_leaves_the_inside(pre, id, post);
}

// ---------------------------------------------------------------------------
// Attribution
// ---------------------------------------------------------------------------

/// Every process that belongs to a session is listed there with the CPU figure, the memory and
/// the command of its row of the process table, and two processes are listed apart.
pub proof fn law_processes_are_listed_with_their_rows(
    table: Map<u32, sample::RowView>,
    panes: Seq<(Seq<char>, u32)>,
    i: int,
    session: SessionProcesses,
    a: u32,
    b: u32,
) -> (at: (int, int))
    requires
        attribution::session_owns(table, panes, i, session),
        attribution::session_pids(table, panes, i).contains(a),
        attribution::session_pids(table, panes, i).contains(b),
    ensures
        0 <= at.0 < session.processes@.len(),
        session.processes@[at.0].cpu@ == table[a].cpu,
        session.processes@[at.0].mem_kb == table[a].mem_kb,
        session.processes@[at.0].command@ == table[a].command,
        0 <= at.1 < session.processes@.len(),
        session.processes@[at.1].cpu@ == table[b].cpu,
        session.processes@[at.1].mem_kb == table[b].mem_kb,
        session.processes@[at.1].command@ == table[b].command,
        a != b ==> at.0 != at.1,
{
    let order = listing_order(table, panes, i, session);
    let list = attribution::process_views(session.processes@);
    assert(order.to_set().contains(a) && order.to_set().contains(b));
    let k = choose|k: int| 0 <= k < order.len() && order[k] == a;
    let l = choose|l: int| 0 <= l < order.len() && order[l] == b;
    assert(list[k] == attribution::process_of(table[order[k]]));
    assert(list[l] == attribution::process_of(table[order[l]]));
    assert(list[k] == session.processes@[k]@);
    assert(list[l] == session.processes@[l]@);
    (k, l)
}

/// Every process that a session lists is a row of the process table that belongs to it.
pub proof fn law_listed_processes_belong(
    table: Map<u32, sample::RowView>,
    panes: Seq<(Seq<char>, u32)>,
    i: int,
    session: SessionProcesses,
    k: int,
) -> (pid: u32)
    requires
        attribution::session_owns(table, panes, i, session),
        0 <= k < session.processes@.len(),
    ensures
        attribution::session_pids(table, panes, i).contains(pid),
        table.contains_key(pid),
        session.processes@[k].cpu@ == table[pid].cpu,
        session.processes@[k].mem_kb == table[pid].mem_kb,
        session.processes@[k].command@ == table[pid].command,
{
    let order = listing_order(table, panes, i, session);
    let list = attribution::process_views(session.processes@);
    assert(list[k] == attribution::process_of(table[order[k]]));
    assert(list[k] == session.processes@[k]@);
    assert(order.contains(order[k]));
    assert(order.to_set().contains(order[k]));
    order[k]
}

/// The ids of the processes that a session lists.
spec fn listing_order(
    table: Map<u32, sample::RowView>,
    panes: Seq<(Seq<char>, u32)>,
    i: int,
    session: SessionProcesses,
) -> Seq<u32> {
    let pids = attribution::session_pids(table, panes, i);
    let list = attribution::process_views(session.processes@);
    choose|order: Seq<u32>| #[trigger]
        order.no_duplicates() && order.to_set() == pids && list.len() == order.len() && forall|
            k: int,
        |
            0 <= k < list.len() ==> #[trigger] list[k] == attribution::process_of(table[order[k]])
}

/// The process that a pane was started with belongs to a session.
pub proof fn law_panes_are_attributed(
    table: Map<u32, sample::RowView>,
    panes: Seq<(Seq<char>, u32)>,
    k: int,
) -> (i: int)
    requires
        0 <= k < panes.len(),
        table.contains_key(panes[k].1),
    ensures
        0 <= i < attribution::session_order(panes).len(),
        attribution::session_pids(table, panes, i).contains(panes[k].1),
{
    let (name, root) = panes[k];
    let roots = attribution::session_roots(panes, name);
    assert(panes.contains((name, root)));
    assert(roots.contains(root));
    attribution::lemma_roots_in_subtree(table, roots);
    assert(attribution::subtree(table, roots).contains(root));
    laws::law_every_descendant_is_attributed(table, panes, name, root)
}

/// What a process of a session has started belongs to that session, or to one that comes up
/// before it.
pub proof fn law_children_are_attributed(
    table: Map<u32, sample::RowView>,
    panes: Seq<(Seq<char>, u32)>,
    i: int,
    parent: u32,
    child: u32,
) -> (j: int)
    requires
        0 <= i < attribution::session_order(panes).len(),
        attribution::session_pids(table, panes, i).contains(parent),
        table.contains_key(child),
        table[child].ppid == parent,
    ensures
        0 <= j <= i,
        attribution::session_pids(table, panes, j).contains(child),
{
    let own = attribution::session_roots(panes, attribution::session_order(panes)[i]);
    attribution::lemma_subtree_closed(table, own);
    assert(attribution::is_child(table, parent, child));
    assert(attribution::subtree(table, own).contains(child));
    assert(attribution::claimed_by_first(table, panes, i + 1).contains(child));
    laws::lemma_first_claim(table, panes, i + 1, child)
}

/// A session owns nothing beyond its panes' processes and what these have started: any set of
/// processes that holds the former, and with a process all that it has started, holds what
/// belongs to the session. All of it is in the process table.
pub proof fn law_sessions_own_no_more(
    table: Map<u32, sample::RowView>,
    panes: Seq<(Seq<char>, u32)>,
    i: int,
    pids: Set<u32>,
    pid: u32,
)
    requires
        0 <= i < attribution::session_order(panes).len(),
        forall|k: int|
            0 <= k < panes.len() && (#[trigger] panes[k]).0 == attribution::session_order(panes)[i]
                ==> pids.contains(panes[k].1),
        forall|p: u32, c: u32|
            #[trigger] pids.contains(p) && #[trigger] table.contains_key(c) && table[c].ppid == p
                ==> pids.contains(c),
        attribution::session_pids(table, panes, i).contains(pid),
    ensures
        pids.contains(pid),
        table.contains_key(pid),
{
    let name = attribution::session_order(panes)[i];
    let roots = attribution::session_roots(panes, name);
    assert forall|root: u32| roots.contains(root) implies pids.contains(root) by {
        assert(panes.contains((name, root)));
        let k = choose|k: int| 0 <= k < panes.len() && panes[k] == (name, root);
        assert(panes[k].0 == name);
    }
    assert forall|p: u32, c: u32|
        pids.contains(p) && #[trigger] attribution::is_child(table, p, c) implies pids.contains(
        c,
    ) by {
        assert(table.contains_key(c));
    }
    attribution::lemma_closed_holds_subtree(table, roots, pids);
}

/// A process below the panes of several sessions goes to the one that comes up first.
pub proof fn law_first_session_claims(
    table: Map<u32, sample::RowView>,
    panes: Seq<(Seq<char>, u32)>,
    j: int,
    pid: u32,
) -> (i: int)
    requires
        0 <= j < attribution::session_order(panes).len(),
        table.contains_key(pid),
        attribution::descends(
            table,
            attribution::session_roots(panes, attribution::session_order(panes)[j]),
            pid,
        ),
    ensures
        0 <= i <= j,
        attribution::session_pids(table, panes, i).contains(pid),
{
    laws::lemma_claimed(table, panes, j + 1, pid);
    laws::lemma_first_claim(table, panes, j + 1, pid)
}

/// Sessions come in the order in which the panes bring them up: before any pane of a session
/// there is one of every session that comes before it.
pub proof fn law_sessions_in_order_of_appearance(
    panes: Seq<(Seq<char>, u32)>,
    i: int,
    j: int,
    b: int,
) -> (a: int)
    requires
        0 <= i < j < attribution::session_order(panes).len(),
        0 <= b < panes.len(),
        panes[b].0 == attribution::session_order(panes)[j],
    ensures
        0 <= a < b,
        panes[a].0 == attribution::session_order(panes)[i],
    decreases panes.len(),
{
    let shorter = panes.drop_last();
    let before = attribution::session_order(shorter);
    let order = attribution::session_order(panes);
    laws::law_one_entry_per_session(panes);
    laws::law_one_entry_per_session(shorter);
    if j < before.len() {
        if b < shorter.len() {
            assert(shorter[b] == panes[b]);
            let a = law_sessions_in_order_of_appearance(shorter, i, j, b);
            assert(shorter[a] == panes[a]);
            a
        } else {
            assert(before.contains(before[i]));
            let a = choose|a: int| 0 <= a < shorter.len() && (#[trigger] shorter[a]).0 == before[i];
            assert(shorter[a] == panes[a]);
            a
        }
    } else {
        assert(order[j] == panes.last().0);
        assert(!before.contains(panes.last().0));
        if b < shorter.len() {
            assert(shorter[b].0 == order[j]);
            assert(before.contains(order[j]));
        }
        assert(before.contains(before[i]));
        let a = choose|a: int| 0 <= a < shorter.len() && (#[trigger] shorter[a]).0 == before[i];
        assert(shorter[a] == panes[a]);
        a
    }
}

// ---------------------------------------------------------------------------
// Order
// ---------------------------------------------------------------------------

/// What is shown of a session in the chart, by metric.
pub proof fn law_session_figures(session: SessionUsage)
    ensures
        session.bar(Metric::Cpu) == session.cpu.tenths,
        session.bar(Metric::Mem) == session.mem_kb,
        session.figure(Metric::Cpu) == session.cpu.text@,
        session.figure(Metric::Mem) == figures::mem_text(session.mem_kb as nat),
{
}

/// The sessions are in order by the figures themselves: by CPU none comes after one whose
/// percentage is smaller, by memory none after one that uses less, and of equals the name
/// decides.
pub proof fn law_sessions_are_in_order(
    before: Seq<SessionUsage>,
    after: Seq<SessionUsage>,
    metric: Metric,
    i: int,
    j: int,
)
    requires
        ranking::arranged(before, after, metric),
        0 <= i < j < after.len(),
    ensures
        metric == Metric::Cpu ==> figures::total_order(after[i].cpu.bits) >= figures::total_order(
            after[j].cpu.bits,
        ),
        metric == Metric::Mem ==> figures::as_double(after[i].mem_kb as nat) >= figures::as_double(
            after[j].mem_kb as nat,
        ),
        metric == Metric::Cpu && after[i].cpu.bits == after[j].cpu.bits || metric == Metric::Mem
            && after[i].mem_kb == after[j].mem_kb ==> !text::lex_less(
            after[j].name@,
            after[i].name@,
        ),
{
    laws::law_largest_first(before, after, metric);
    assert(after[i].rank(metric) >= after[j].rank(metric));
}

/// The processes of each session are in order by the figures themselves.
pub proof fn law_processes_are_in_order(
    before: Seq<SessionUsage>,
    after: Seq<SessionUsage>,
    metric: Metric,
    i: int,
    k: int,
    l: int,
)
    requires
        ranking::arranged(before, after, metric),
        0 <= i < after.len(),
        0 <= k < l < after[i].processes@.len(),
    ensures
        metric == Metric::Cpu ==> figures::total_order(after[i].processes@[k].cpu.bits)
            >= figures::total_order(after[i].processes@[l].cpu.bits),
        metric == Metric::Mem ==> figures::as_double(after[i].processes@[k].mem_kb as nat)
            >= figures::as_double(after[i].processes@[l].mem_kb as nat),
{
    laws::law_largest_first(before, after, metric);
    assert(after[i].processes@[k].rank(metric) >= after[i].processes@[l].rank(metric));
}

/// Where a session of a list stands once it is arranged: every one is there, with its name, its
/// figures and all its processes, and two of them stand apart.
pub proof fn law_arranging_keeps_everything(
    before: Seq<SessionUsage>,
    after: Seq<SessionUsage>,
    metric: Metric,
    a: int,
    b: int,
    process: Process,
) -> (at: (int, int))
    requires
        ranking::arranged(before, after, metric),
        0 <= a < before.len(),
        0 <= b < before.len(),
    ensures
        after.len() == before.len(),
        0 <= at.0 < after.len(),
        0 <= at.1 < after.len(),
        a != b ==> at.0 != at.1,
        after[at.0].name == before[a].name,
        after[at.0].cpu == before[a].cpu,
        after[at.0].mem_kb == before[a].mem_kb,
        after[at.0].processes@.len() == before[a].processes@.len(),
        after[at.0].processes@.contains(process) <==> before[a].processes@.contains(process),
        after[at.1].name == before[b].name,
{
    let order = ranking::by_figure_and_name(metric);
    let own = ranking::by_figure(metric);
    let middle = choose|middle: Seq<SessionUsage>|
        {
            &&& #[trigger] ranking::sorts(before, middle, order)
            &&& after.len() == middle.len()
            &&& forall|i: int|
                0 <= i < after.len() ==> ranking::reordered(middle[i], #[trigger] after[i], metric)
        };
    let places = choose|places: Seq<int>| ranking::stably_ordered(before, middle, order, places);
    laws::lemma_permutation_holds_all(places, before.len() as int, a);
    laws::lemma_permutation_holds_all(places, before.len() as int, b);
    let i = choose|i: int| 0 <= i < places.len() && places[i] == a;
    let j = choose|j: int| 0 <= j < places.len() && places[j] == b;
    assert(middle[i] == before[places[i]]);
    assert(middle[j] == before[places[j]]);
    assert(ranking::reordered(middle[i], after[i], metric));
    assert(ranking::reordered(middle[j], after[j], metric));
    laws::law_sorting_keeps_the_elements(
        middle[i].processes@,
        after[i].processes@,
        own,
        process,
    );
    (i, j)
}

// ---------------------------------------------------------------------------
// Keys
// ---------------------------------------------------------------------------

/// What every key does to the metric, and that nothing else does anything to it.
pub proof fn law_keys_of_the_metric(metric: Metric, input: Input)
    ensures
        monitor::next_metric(metric, Input::Press { key: Key::Char { c: 'c' } }) == Metric::Cpu,
        monitor::next_metric(metric, Input::Press { key: Key::Char { c: 'm' } }) == Metric::Mem,
        monitor::next_metric(Metric::Cpu, Input::Press { key: Key::Tab }) == Metric::Mem,
        monitor::next_metric(Metric::Mem, Input::Press { key: Key::Tab }) == Metric::Cpu,
        input != (Input::Press { key: Key::Char { c: 'c' } }) && input != (Input::Press {
            key: Key::Char { c: 'm' },
        }) && input != (Input::Press { key: Key::Tab }) ==> monitor::next_metric(metric, input)
            == metric,
{
}

/// What every key does to the selection, and that nothing else does anything to it: down goes
/// to the next session and from the last to the first, up the other way.
pub proof fn law_keys_of_the_selection(selected: int, count: int, input: Input)
    requires
        0 <= selected < count,
    ensures
        ({
            let down = input == (Input::Press { key: Key::Down }) || input == (Input::Press {
                key: Key::Char { c: 'j' },
            });
            let up = input == (Input::Press { key: Key::Up }) || input == (Input::Press {
                key: Key::Char { c: 'k' },
            });
            monitor::next_selected(selected, count, input) == if down && selected + 1 < count {
                selected + 1
            } else if down {
                0
            } else if up && selected > 0 {
                selected - 1
            } else if up {
                count - 1
            } else {
                selected
            }
        }),
        monitor::next_selected(selected, 0, input) == selected,
{
    monitor::lemma_one_down(selected, count);
    monitor::lemma_one_up(selected, count);
}

/// Which keys close the screen, ask for a sample and pick the session.
pub proof fn law_keys_of_the_screen(input: Input)
    ensures
        monitor::closes(input) <==> input == (Input::Press { key: Key::Char { c: 'q' } }) || input
            == (Input::Press { key: Key::Esc }),
        monitor::asks_for_sample(input) <==> input == (Input::Press { key: Key::Char { c: 'r' } }),
        monitor::picks(input) <==> input == (Input::Press { key: Key::Enter }),
{
}

/// The selection stays where it is as long as there is a session, and else goes to the last.
pub proof fn law_selection_is_kept(selected: int, count: int)
    requires
        selected >= 0,
        count >= 0,
    ensures
        selected < count ==> monitor::kept_selection(selected, count) == selected,
        selected >= count > 0 ==> monitor::kept_selection(selected, count) == count - 1,
        count == 0 ==> monitor::kept_selection(selected, count) == 0,
{
}

} // verus!
