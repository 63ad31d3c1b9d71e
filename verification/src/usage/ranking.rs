//! Sessions with their figures, and their order on the screen.

use vstd::prelude::*;

use crate::text;
use crate::usage::attribution::{Process, SessionProcesses};
use crate::usage::figures;
use crate::usage::figures::{CpuLoad, Metric};

verus! {

/// Aggregated resource usage for one tmux session.
#[derive(Debug)]
pub struct SessionUsage {
    pub name: String,
    pub cpu: CpuLoad,
    pub mem_kb: u64,
    pub processes: Vec<Process>,
}

impl SessionProcesses {
    /// The session's usage, with the CPU percentage that its processes add up to.
    pub fn with_cpu(self, cpu: CpuLoad) -> (usage: SessionUsage)
        ensures
            usage.name == self.name,
            usage.cpu == cpu,
            usage.mem_kb == self.mem_kb,
            usage.processes == self.processes,
    {
        SessionUsage { name: self.name, cpu, mem_kb: self.mem_kb, processes: self.processes }
    }
}

// ---------------------------------------------------------------------------
// Figures of the active metric
// ---------------------------------------------------------------------------

/// The place of a figure in the order of the metric: that of the CPU percentage in the total
/// order of floating-point numbers, or of the memory as a double-precision number.
pub open spec fn metric_rank(bits: u32, mem_kb: u64, metric: Metric) -> int {
    match metric {
        Metric::Cpu => figures::total_order(bits),
        Metric::Mem => figures::as_double(mem_kb as nat) as int,
    }
}

/// Computes `metric_rank`.
fn rank_of(bits: u32, mem_kb: u64, metric: Metric) -> (rank: i128)
    ensures
        rank == metric_rank(bits, mem_kb, metric),
{
    match metric {
        Metric::Cpu => figures::load_rank(bits) as i128,
        Metric::Mem => figures::double_of(mem_kb) as i128,
    }
}

impl Process {
    /// The process's place in the order of the metric.
    pub open spec fn rank(self, metric: Metric) -> int {
        metric_rank(self.cpu.bits, self.mem_kb, metric)
    }

    /// The process's place in the order of the metric.
    pub fn metric(&self, metric: Metric) -> (rank: i128)
        ensures
            rank == self.rank(metric),
    {
        rank_of(self.cpu.bits, self.mem_kb, metric)
    }
}

impl SessionUsage {
    /// The session's place in the order of the metric.
    pub open spec fn rank(self, metric: Metric) -> int {
        metric_rank(self.cpu.bits, self.mem_kb, metric)
    }

    /// The session's place in the order of the metric.
    pub fn metric(&self, metric: Metric) -> (rank: i128)
        ensures
            rank == self.rank(metric),
    {
        rank_of(self.cpu.bits, self.mem_kb, metric)
    }

    /// The height of the session's bar.
    pub open spec fn bar(self, metric: Metric) -> u64 {
        match metric {
            Metric::Cpu => self.cpu.tenths,
            Metric::Mem => self.mem_kb,
        }
    }

    /// The metric as the integer that a bar of the chart expects. CPU is scaled to tenths of a
    /// percent so fractional usage still moves the bar.
    pub fn bar_value(&self, metric: Metric) -> (value: u64)
        ensures
            value == self.bar(metric),
    {
        match metric {
            Metric::Cpu => self.cpu.tenths,
            Metric::Mem => self.mem_kb,
        }
    }

    /// What is shown of the active metric.
    pub open spec fn figure(self, metric: Metric) -> Seq<char> {
        match metric {
            Metric::Cpu => self.cpu.text@,
            Metric::Mem => figures::mem_text(self.mem_kb as nat),
        }
    }

    /// Human-readable figure for the active metric.
    pub fn metric_display(&self, metric: Metric) -> (shown: String)
        ensures
            shown@ == self.figure(metric),
    {
        match metric {
            Metric::Cpu => self.cpu.text.clone(),
            Metric::Mem => figures::format_mem(self.mem_kb),
        }
    }
}

// ---------------------------------------------------------------------------
// Order
// ---------------------------------------------------------------------------

/// Whether a process is shown before another whatever their order was: its figure is larger.
pub open spec fn process_before(a: Process, b: Process, metric: Metric) -> bool {
    a.rank(metric) > b.rank(metric)
}

/// Whether a session is shown before another whatever their order was: its figure is larger,
/// or the figures are equal and its name comes first.
pub open spec fn session_before(a: SessionUsage, b: SessionUsage, metric: Metric) -> bool {
    a.rank(metric) > b.rank(metric) || (a.rank(metric) == b.rank(metric) && text::lex_less(
        a.name@,
        b.name@,
    ))
}

/// Whether `places` holds each number below `n` once.
pub open spec fn is_permutation(places: Seq<int>, n: int) -> bool {
    &&& places.len() == n
    &&& places.no_duplicates()
    &&& forall|i: int| 0 <= i < n ==> 0 <= #[trigger] places[i] < n
}

/// Whether `after` is `before` in order: element `i` stood at `places[i]`, none is followed by
/// one that must come before it, and those of which neither must keep their order.
pub open spec fn stably_ordered<T>(
    before: Seq<T>,
    after: Seq<T>,
    must_precede: spec_fn(T, T) -> bool,
    places: Seq<int>,
) -> bool {
    &&& is_permutation(places, before.len() as int)
    &&& after.len() == before.len()
    &&& forall|i: int| 0 <= i < after.len() ==> #[trigger] after[i] == before[places[i]]
    &&& forall|i: int, j: int|
        0 <= i < j < after.len() ==> {
            &&& !must_precede(#[trigger] after[j], #[trigger] after[i])
            &&& must_precede(after[i], after[j]) || places[i] < places[j]
        }
}

/// Whether `after` is the one stable ordering of `before`.
pub open spec fn sorts<T>(
    before: Seq<T>,
    after: Seq<T>,
    must_precede: spec_fn(T, T) -> bool,
) -> bool {
    exists|places: Seq<int>| stably_ordered(before, after, must_precede, places)
}

/// What an insertion sort from the back has reached: the elements of `before` from `n` on are
/// in order in `sorted`.
spec fn sorted_from<T>(
    before: Seq<T>,
    n: int,
    sorted: Seq<T>,
    must_precede: spec_fn(T, T) -> bool,
    places: Seq<int>,
) -> bool {
    &&& 0 <= n <= before.len()
    &&& sorted.len() == before.len() - n
    &&& places.len() == sorted.len()
    &&& places.no_duplicates()
    &&& forall|i: int|
        0 <= i < places.len() ==> n <= #[trigger] places[i] < before.len() && sorted[i]
            == before[places[i]]
    &&& forall|i: int, j: int|
        0 <= i < j < sorted.len() ==> {
            &&& !must_precede(#[trigger] sorted[j], #[trigger] sorted[i])
            &&& must_precede(sorted[i], sorted[j]) || places[i] < places[j]
        }
}

/// Putting the element before the sorted ones in front of all that it need not follow.
proof fn lemma_insert_sorted<T>(
    before: Seq<T>,
    n: int,
    sorted: Seq<T>,
    must_precede: spec_fn(T, T) -> bool,
    places: Seq<int>,
    at: int,
)
    requires
        n > 0,
        sorted_from(before, n, sorted, must_precede, places),
        0 <= at <= sorted.len(),
        forall|i: int| 0 <= i < at ==> must_precede(#[trigger] sorted[i], before[n - 1]),
        forall|i: int|
            at <= i < sorted.len() ==> !must_precede(#[trigger] sorted[i], before[n - 1]),
        forall|a: T, b: T| #[trigger] must_precede(a, b) ==> !must_precede(b, a),
    ensures
        sorted_from(
            before,
            n - 1,
            sorted.insert(at, before[n - 1]),
            must_precede,
            places.insert(at, n - 1),
        ),
{
    let x = before[n - 1];
    let after = sorted.insert(at, x);
    let at_places = places.insert(at, n - 1);
    assert forall|i: int, j: int|
        0 <= i < at_places.len() && 0 <= j < at_places.len() && i != j implies at_places[i]
        != at_places[j] by {
        let a = if i < at {
            i
        } else {
            i - 1
        };
        let b = if j < at {
            j
        } else {
            j - 1
        };
        if i != at {
            assert(at_places[i] == places[a]);
        }
        if j != at {
            assert(at_places[j] == places[b]);
        }
    }
    assert forall|i: int| 0 <= i < at_places.len() implies n - 1 <= #[trigger] at_places[i]
        < before.len() && after[i] == before[at_places[i]] by {
        if i < at {
            assert(at_places[i] == places[i]);
        } else if i > at {
            assert(at_places[i] == places[i - 1]);
        }
    }
    assert forall|i: int, j: int| 0 <= i < j < after.len() implies {
        &&& !must_precede(#[trigger] after[j], #[trigger] after[i])
        &&& must_precede(after[i], after[j]) || at_places[i] < at_places[j]
    } by {
        if j < at {
            assert(after[i] == sorted[i] && after[j] == sorted[j]);
        } else if j == at {
            assert(after[i] == sorted[i]);
            assert(must_precede(sorted[i], x));
        } else if i < at {
            assert(after[i] == sorted[i] && after[j] == sorted[j - 1]);
        } else if i == at {
            assert(after[j] == sorted[j - 1]);
            assert(at_places[j] == places[j - 1]);
        } else {
            assert(after[i] == sorted[i - 1] && after[j] == sorted[j - 1]);
        }
    }
}

/// The larger figure first.
pub open spec fn by_figure(metric: Metric) -> spec_fn(Process, Process) -> bool {
    |a: Process, b: Process| process_before(a, b, metric)
}

/// The larger figure first, and of equal ones by name.
pub open spec fn by_figure_and_name(metric: Metric) -> spec_fn(SessionUsage, SessionUsage) -> bool {
    |a: SessionUsage, b: SessionUsage| session_before(a, b, metric)
}

/// Sorts processes by the metric, largest first.
fn sort_processes(list: &mut Vec<Process>, metric: Metric)
    ensures
        sorts(old(list)@, final(list)@, by_figure(metric)),
{
    let ghost before = list@;
    let ghost order = by_figure(metric);
    let ghost mut places: Seq<int> = Seq::empty();
    let mut sorted: Vec<Process> = Vec::new();
    while list.len() > 0
        invariant
            order == by_figure(metric),
            list@ == before.take(list@.len() as int),
            list@.len() <= before.len(),
            sorted_from(before, list@.len() as int, sorted@, order, places),
        decreases list@.len(),
    {
        let ghost n = list@.len() as int;
        let process = list.pop().unwrap();
        assert(process == before[n - 1]);
        let rank: i128 = process.metric(metric);
        let mut at: usize = 0;
        while at < sorted.len() && sorted[at].metric(metric) > rank
            invariant
                at <= sorted@.len(),
                rank == process.rank(metric),
                forall|i: int|
                    0 <= i < at ==> (#[trigger] sorted@[i]).rank(metric) > process.rank(metric),
            decreases sorted@.len() - at,
        {
            at += 1;
        }
        proof {
            assert forall|i: int| 0 <= i < at implies order(#[trigger] sorted@[i], before[n - 1]) by {}
            assert forall|i: int| at <= i < sorted@.len() implies !order(
                #[trigger] sorted@[i],
                before[n - 1],
            ) by {
                if i > at {
                    assert(!order(sorted@[i], sorted@[at as int]));
                }
            }
            lemma_insert_sorted(before, n, sorted@, order, places, at as int);
            places = places.insert(at as int, n - 1);
        }
        sorted.insert(at, process);
        assert(list@ =~= before.take(n - 1));
    }
    proof {
        assert(stably_ordered(before, sorted@, order, places));
    }
    *list = sorted;
}

/// Whether session `a` is shown before session `b` whatever their order was.
fn shown_before(a: &SessionUsage, b: &SessionUsage, metric: Metric) -> (yes: bool)
    ensures
        yes == session_before(*a, *b, metric),
{
    let left: i128 = a.metric(metric);
    let right: i128 = b.metric(metric);
    if left == right {
        text::comes_before(&text::chars_of(a.name.as_str()), &text::chars_of(b.name.as_str()))
    } else {
        left > right
    }
}

/// The order of sessions goes one way only, and what need not come before a session need not
/// come before one that may precede it.
proof fn lemma_session_order(metric: Metric, a: SessionUsage, b: SessionUsage, c: SessionUsage)
    ensures
        session_before(a, b, metric) ==> !session_before(b, a, metric),
        !session_before(a, b, metric) && !session_before(b, c, metric) ==> !session_before(
            a,
            c,
            metric,
        ),
{
    text::lemma_lex_total(a.name@, b.name@);
    text::lemma_lex_total(b.name@, c.name@);
    text::lemma_lex_total(a.name@, c.name@);
    if text::lex_less(c.name@, b.name@) && text::lex_less(b.name@, a.name@) {
        text::lemma_lex_transitive(c.name@, b.name@, a.name@);
    }
}

/// Sorts sessions by the metric, largest first, and those with equal figures by name.
fn sort_sessions(list: &mut Vec<SessionUsage>, metric: Metric)
    ensures
        sorts(old(list)@, final(list)@, by_figure_and_name(metric)),
{
    let ghost before = list@;
    let ghost order = by_figure_and_name(metric);
    let ghost mut places: Seq<int> = Seq::empty();
    let mut sorted: Vec<SessionUsage> = Vec::new();
    while list.len() > 0
        invariant
            order == by_figure_and_name(metric),
            list@ == before.take(list@.len() as int),
            list@.len() <= before.len(),
            sorted_from(before, list@.len() as int, sorted@, order, places),
        decreases list@.len(),
    {
        let ghost n = list@.len() as int;
        let session = list.pop().unwrap();
        assert(session == before[n - 1]);
        let mut at: usize = 0;
        while at < sorted.len() && shown_before(&sorted[at], &session, metric)
            invariant
                at <= sorted@.len(),
                forall|i: int|
                    0 <= i < at ==> session_before(#[trigger] sorted@[i], session, metric),
            decreases sorted@.len() - at,
        {
            at += 1;
        }
        proof {
            assert forall|i: int| 0 <= i < at implies order(#[trigger] sorted@[i], before[n - 1]) by {}
            assert forall|i: int| at <= i < sorted@.len() implies !order(
                #[trigger] sorted@[i],
                before[n - 1],
            ) by {
                if i > at {
                    assert(!order(sorted@[i], sorted@[at as int]));
                    lemma_session_order(metric, sorted@[i], sorted@[at as int], session);
                }
            }
            assert forall|a: SessionUsage, b: SessionUsage| #[trigger] order(a, b) implies !order(
                b,
                a,
            ) by {
                lemma_session_order(metric, a, b, b);
            }
            lemma_insert_sorted(before, n, sorted@, order, places, at as int);
            places = places.insert(at as int, n - 1);
        }
        sorted.insert(at, session);
        assert(list@ =~= before.take(n - 1));
    }
    proof {
        assert(stably_ordered(before, sorted@, order, places));
    }
    *list = sorted;
}

/// Whether `after` is session `before` with its processes in the order of the metric.
pub open spec fn reordered(before: SessionUsage, after: SessionUsage, metric: Metric) -> bool {
    &&& after.name == before.name
    &&& after.cpu == before.cpu
    &&& after.mem_kb == before.mem_kb
    &&& sorts(before.processes@, after.processes@, by_figure(metric))
}

/// Whether `after` is `before` with the sessions, and the processes within each, in the order
/// of the metric.
pub open spec fn arranged(
    before: Seq<SessionUsage>,
    after: Seq<SessionUsage>,
    metric: Metric,
) -> bool {
    exists|middle: Seq<SessionUsage>|
        {
            &&& #[trigger] sorts(before, middle, by_figure_and_name(metric))
            &&& after.len() == middle.len()
            &&& forall|i: int|
                0 <= i < after.len() ==> reordered(middle[i], #[trigger] after[i], metric)
        }
}

/// Sort sessions, and the processes within each, by the active metric (largest first) so the
/// chart and the breakdown read top-down.
pub fn sort_by_metric(sessions: &mut Vec<SessionUsage>, metric: Metric)
    ensures
        arranged(old(sessions)@, final(sessions)@, metric),
{
    sort_sessions(sessions, metric);
    let ghost middle = sessions@;
    let mut i: usize = 0;
    while i < sessions.len()
        invariant
            i <= sessions@.len(),
            sessions@.len() == middle.len(),
            forall|k: int|
                0 <= k < i ==> reordered(middle[k], #[trigger] sessions@[k], metric),
            forall|k: int| i <= k < middle.len() ==> #[trigger] sessions@[k] == middle[k],
        decreases middle.len() - i,
    {
        sort_processes(&mut sessions[i].processes, metric);
        assert(reordered(middle[i as int], sessions@[i as int], metric));
        i += 1;
    }
}

} // verus!
