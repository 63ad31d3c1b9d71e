//! What holds of the sample, the attribution and the order as a whole.

use vstd::prelude::*;

use crate::text;
use crate::usage::attribution;
use crate::usage::attribution::SessionProcesses;
use crate::usage::figures::Metric;
use crate::usage::monitor;
use crate::usage::monitor::{Input, Monitor};
use crate::usage::ranking;
use crate::usage::ranking::SessionUsage;
use crate::usage::sample;

verus! {

// ---------------------------------------------------------------------------
// Sessions
// ---------------------------------------------------------------------------

/// Every session of the panes comes up once, and no other.
pub proof fn law_one_entry_per_session(panes: Seq<(Seq<char>, u32)>)
    ensures
        attribution::session_order(panes).no_duplicates(),
        forall|name: Seq<char>| #[trigger]
            attribution::session_order(panes).contains(name) <==> exists|k: int|
                0 <= k < panes.len() && (#[trigger] panes[k]).0 == name,
    decreases panes.len(),
{
    let order = attribution::session_order(panes);
    if panes.len() > 0 {
        let rest = panes.drop_last();
        let before = attribution::session_order(rest);
        law_one_entry_per_session(rest);
        assert forall|name: Seq<char>| #[trigger] order.contains(name) implies exists|k: int|
            0 <= k < panes.len() && (#[trigger] panes[k]).0 == name by {
            let at = choose|at: int| 0 <= at < order.len() && order[at] == name;
            if at < before.len() {
                assert(before.contains(name));
                let k = choose|k: int| 0 <= k < rest.len() && (#[trigger] rest[k]).0 == name;
                assert(panes[k] == rest[k]);
            } else {
                assert(panes[panes.len() - 1].0 == name);
            }
        }
        assert forall|name: Seq<char>|
            (exists|k: int| 0 <= k < panes.len() && (#[trigger] panes[k]).0 == name)
            implies #[trigger] order.contains(name) by {
            let k = choose|k: int| 0 <= k < panes.len() && (#[trigger] panes[k]).0 == name;
            if k < rest.len() {
                assert(rest[k].0 == name);
                assert(before.contains(name));
                let at = choose|at: int| 0 <= at < before.len() && before[at] == name;
                assert(order[at] == name);
            } else if !before.contains(name) {
                assert(order[order.len() - 1] == name);
            }
        }
    }
}

/// The sessions that come out are those of the panes: no two have the same name, their names
/// are exactly those of the panes, and without panes there is none.
pub proof fn law_sessions_are_those_of_the_panes(
    table: Map<u32, sample::RowView>,
    panes: Seq<(Seq<char>, u32)>,
    sessions: Seq<SessionProcesses>,
)
    requires
        attribution::attributes(table, panes, sessions),
    ensures
        forall|i: int, j: int|
            0 <= i < j < sessions.len() ==> (#[trigger] sessions[i]).name@ != (
            #[trigger] sessions[j]).name@,
        forall|name: Seq<char>|
            (exists|i: int| 0 <= i < sessions.len() && (#[trigger] sessions[i]).name@ == name)
                <==> #[trigger] attribution::session_order(panes).contains(name),
        forall|name: Seq<char>| #[trigger]
            attribution::session_order(panes).contains(name) <==> exists|k: int|
                0 <= k < panes.len() && (#[trigger] panes[k]).0 == name,
        panes.len() == 0 ==> sessions.len() == 0,
{
    let order = attribution::session_order(panes);
    law_one_entry_per_session(panes);
    assert forall|i: int, j: int| 0 <= i < j < sessions.len() implies (
    #[trigger] sessions[i]).name@ != (#[trigger] sessions[j]).name@ by {
        assert(attribution::session_owns(table, panes, i, sessions[i]));
        assert(attribution::session_owns(table, panes, j, sessions[j]));
    }
    assert forall|name: Seq<char>|
        (exists|i: int| 0 <= i < sessions.len() && (#[trigger] sessions[i]).name@ == name)
        <==> #[trigger] order.contains(name) by {
        if exists|i: int| 0 <= i < sessions.len() && (#[trigger] sessions[i]).name@ == name {
            let i = choose|i: int|
                0 <= i < sessions.len() && (#[trigger] sessions[i]).name@ == name;
            assert(attribution::session_owns(table, panes, i, sessions[i]));
            assert(order[i] == name);
        }
        if order.contains(name) {
            let i = choose|i: int| 0 <= i < order.len() && order[i] == name;
            assert(attribution::session_owns(table, panes, i, sessions[i]));
        }
    }
}

/// The first sessions have claimed exactly what is below the panes of one of them.
pub proof fn lemma_claimed(
    table: Map<u32, sample::RowView>,
    panes: Seq<(Seq<char>, u32)>,
    n: int,
    pid: u32,
)
    ensures
        attribution::claimed_by_first(table, panes, n).contains(pid) <==> exists|i: int|
            0 <= i < n && attribution::descends(
                table,
                #[trigger] attribution::session_roots(panes, attribution::session_order(panes)[i]),
                pid,
            ),
    decreases n,
{
    if n > 0 {
        lemma_claimed(table, panes, n - 1, pid);
        let last = attribution::session_roots(panes, attribution::session_order(panes)[n - 1]);
        assert(attribution::subtree(table, last).contains(pid) <==> attribution::descends(
            table,
            last,
            pid,
        ));
    }
}

/// A process belongs to at most one session: what one session is charged with, no other is.
pub proof fn law_process_belongs_to_one_session(
    table: Map<u32, sample::RowView>,
    panes: Seq<(Seq<char>, u32)>,
    i: int,
    j: int,
)
    requires
        0 <= i < attribution::session_order(panes).len(),
        0 <= j < attribution::session_order(panes).len(),
        i != j,
    ensures
        attribution::session_pids(table, panes, i).disjoint(
            attribution::session_pids(table, panes, j),
        ),
{
    let first = if i < j {
        i
    } else {
        j
    };
    let second = if i < j {
        j
    } else {
        i
    };
    assert forall|pid: u32|
        attribution::session_pids(table, panes, first).contains(pid) implies !(#[trigger]
    attribution::session_pids(table, panes, second).contains(pid)) by {
        lemma_claimed(table, panes, second, pid);
        let roots = attribution::session_roots(panes, attribution::session_order(panes)[first]);
        assert(attribution::descends(table, roots, pid));
    }
}

/// Everything below a session's panes is attributed: a process of the table that descends from
/// the root of some pane belongs to a session.
pub proof fn law_every_descendant_is_attributed(
    table: Map<u32, sample::RowView>,
    panes: Seq<(Seq<char>, u32)>,
    name: Seq<char>,
    pid: u32,
) -> (i: int)
    requires
        table.contains_key(pid),
        attribution::descends(table, attribution::session_roots(panes, name), pid),
    ensures
        0 <= i < attribution::session_order(panes).len(),
        attribution::session_pids(table, panes, i).contains(pid),
{
    let order = attribution::session_order(panes);
    let roots = attribution::session_roots(panes, name);
    let path = choose|path: Seq<u32>| #[trigger]
        attribution::is_lineage(table, path) && roots.contains(path[0]) && path.last() == pid;
    assert(panes.contains((name, path[0])));
    let k = choose|k: int| 0 <= k < panes.len() && panes[k] == (name, path[0]);
    law_one_entry_per_session(panes);
    assert(panes[k].0 == name);
    assert(order.contains(name));
    let at = choose|at: int| 0 <= at < order.len() && order[at] == name;
    lemma_claimed(table, panes, at + 1, pid);
    assert(attribution::session_roots(panes, order[at]) == roots);
    lemma_first_claim(table, panes, at + 1, pid)
}

/// The session that claims a process first.
pub proof fn lemma_first_claim(
    table: Map<u32, sample::RowView>,
    panes: Seq<(Seq<char>, u32)>,
    n: int,
    pid: u32,
) -> (i: int)
    requires
        table.contains_key(pid),
        attribution::claimed_by_first(table, panes, n).contains(pid),
    ensures
        0 <= i < n,
        attribution::session_pids(table, panes, i).contains(pid),
    decreases n,
{
    if attribution::claimed_by_first(table, panes, n - 1).contains(pid) {
        lemma_first_claim(table, panes, n - 1, pid)
    } else {
        n - 1
    }
}

/// What no pane has started is left out: a process that descends from no pane's root belongs
/// to no session.
pub proof fn law_unrelated_processes_stay_out(
    table: Map<u32, sample::RowView>,
    panes: Seq<(Seq<char>, u32)>,
    pid: u32,
    i: int,
)
    requires
        forall|name: Seq<char>|
            !attribution::descends(table, #[trigger] attribution::session_roots(panes, name), pid),
    ensures
        !attribution::session_pids(table, panes, i).contains(pid),
{
    let roots = attribution::session_roots(panes, attribution::session_order(panes)[i]);
    assert(!attribution::descends(table, roots, pid));
}

/// Sibling panes never double-count: a session lists as many processes as belong to it.
pub proof fn law_processes_are_listed_once(
    table: Map<u32, sample::RowView>,
    panes: Seq<(Seq<char>, u32)>,
    i: int,
    session: SessionProcesses,
)
    requires
        attribution::session_owns(table, panes, i, session),
    ensures
        session.processes@.len() == attribution::session_pids(table, panes, i).len(),
{
    let pids = attribution::session_pids(table, panes, i);
    let list = attribution::process_views(session.processes@);
    let order = choose|order: Seq<u32>| #[trigger]
        order.no_duplicates() && order.to_set() == pids && list.len() == order.len() && forall|
            k: int,
        |
            0 <= k < list.len() ==> #[trigger] list[k] == attribution::process_of(table[order[k]]);
    order.unique_seq_to_set();
}

// ---------------------------------------------------------------------------
// Memory
// ---------------------------------------------------------------------------

/// The memory of the first `n` sessions together.
pub open spec fn sessions_memory(
    table: Map<u32, sample::RowView>,
    panes: Seq<(Seq<char>, u32)>,
    n: int,
) -> nat
    decreases n,
{
    if n <= 0 {
        0
    } else {
        sessions_memory(table, panes, n - 1) + attribution::mem_total(
            table,
            attribution::session_pids(table, panes, n - 1),
        )
    }
}

/// The memory of a list of processes.
pub open spec fn listed_memory(list: Seq<attribution::ProcessView>) -> nat
    decreases list.len(),
{
    if list.len() == 0 {
        0
    } else {
        listed_memory(list.drop_last()) + list.last().mem_kb as nat
    }
}

proof fn lemma_listed_memory(
    table: Map<u32, sample::RowView>,
    order: Seq<u32>,
    list: Seq<attribution::ProcessView>,
)
    requires
        order.no_duplicates(),
        list.len() == order.len(),
        forall|k: int|
            0 <= k < list.len() ==> #[trigger] list[k] == attribution::process_of(table[order[k]]),
    ensures
        attribution::mem_total(table, order.to_set()) == listed_memory(list),
    decreases order.len(),
{
    if order.len() == 0 {
        assert(order.to_set() =~= Set::empty());
    } else {
        let before = order.drop_last();
        let pid = order.last();
        let shorter = list.drop_last();
        assert forall|k: int| 0 <= k < shorter.len() implies #[trigger] shorter[k]
            == attribution::process_of(table[before[k]]) by {
            assert(shorter[k] == list[k]);
        }
        lemma_listed_memory(table, before, shorter);
        assert(!before.to_set().contains(pid)) by {
            if before.contains(pid) {
                let k = choose|k: int| 0 <= k < before.len() && before[k] == pid;
                assert(order[k] == order[order.len() - 1]);
            }
        }
        before.unique_seq_to_set();
        assert(order.to_set() =~= before.to_set().insert(pid)) by {
            assert forall|x: u32| order.to_set().contains(x) <==> before.to_set().insert(
                pid,
            ).contains(x) by {
                if order.contains(x) {
                    let k = choose|k: int| 0 <= k < order.len() && order[k] == x;
                    if k < before.len() {
                        assert(before[k] == x);
                    }
                }
                if before.contains(x) {
                    let k = choose|k: int| 0 <= k < before.len() && before[k] == x;
                    assert(order[k] == x);
                }
                assert(order[order.len() - 1] == pid);
            }
        }
        attribution::lemma_mem_insert(table, before.to_set(), pid);
        assert(list[list.len() - 1] == attribution::process_of(table[order[order.len() - 1]]));
    }
}

/// The memory of a session is that of the processes it lists; one to which no process belongs
/// is still there, with no memory and no processes.
pub proof fn law_memory_adds_up(
    table: Map<u32, sample::RowView>,
    panes: Seq<(Seq<char>, u32)>,
    i: int,
    session: SessionProcesses,
)
    requires
        attribution::session_owns(table, panes, i, session),
    ensures
        session.mem_kb == listed_memory(attribution::process_views(session.processes@)),
        attribution::session_pids(table, panes, i) == Set::<u32>::empty() ==> session.mem_kb == 0
            && session.processes@.len() == 0,
{
    let pids = attribution::session_pids(table, panes, i);
    let list = attribution::process_views(session.processes@);
    let order = choose|order: Seq<u32>| #[trigger]
        order.no_duplicates() && order.to_set() == pids && list.len() == order.len() && forall|
            k: int,
        |
            0 <= k < list.len() ==> #[trigger] list[k] == attribution::process_of(table[order[k]]);
    lemma_listed_memory(table, order, list);
    order.unique_seq_to_set();
}

/// Processes that have none in common use together what each use.
proof fn lemma_mem_union(table: Map<u32, sample::RowView>, a: Set<u32>, b: Set<u32>)
    requires
        a.finite(),
        b.finite(),
        a.disjoint(b),
    ensures
        attribution::mem_total(table, a.union(b)) == attribution::mem_total(table, a)
            + attribution::mem_total(table, b),
    decreases b.len(),
{
    if b.len() == 0 {
        assert(b =~= Set::empty());
        assert(a.union(b) =~= a);
    } else {
        let pid = b.choose();
        let rest = b.remove(pid);
        assert(b.contains(pid));
        lemma_mem_union(table, a, rest);
        attribution::lemma_mem_insert(table, rest, pid);
        attribution::lemma_mem_insert(table, a.union(rest), pid);
        assert(rest.insert(pid) =~= b);
        assert(a.union(rest).insert(pid) =~= a.union(b));
    }
}

proof fn lemma_sessions_memory(
    table: Map<u32, sample::RowView>,
    panes: Seq<(Seq<char>, u32)>,
    n: int,
)
    requires
        table.dom().finite(),
    ensures
        sessions_memory(table, panes, n) == attribution::mem_total(
            table,
            attribution::claimed_by_first(table, panes, n).intersect(table.dom()),
        ),
    decreases n,
{
    let claimed = attribution::claimed_by_first(table, panes, n).intersect(table.dom());
    if n <= 0 {
        assert(claimed =~= Set::empty());
    } else {
        let before = attribution::claimed_by_first(table, panes, n - 1).intersect(table.dom());
        let own = attribution::session_pids(table, panes, n - 1);
        lemma_sessions_memory(table, panes, n - 1);
        vstd::set_lib::lemma_set_subset_finite(table.dom(), before);
        vstd::set_lib::lemma_set_subset_finite(table.dom(), own);
        assert(before.disjoint(own));
        lemma_mem_union(table, before, own);
        assert(before.union(own) =~= claimed);
    }
}

/// No memory is counted twice: the sessions together use no more than all processes do.
pub proof fn law_memory_is_counted_once(
    table: Map<u32, sample::RowView>,
    panes: Seq<(Seq<char>, u32)>,
)
    requires
        table.dom().finite(),
    ensures
        sessions_memory(table, panes, attribution::session_order(panes).len() as int)
            <= attribution::mem_total(table, table.dom()),
{
    let n = attribution::session_order(panes).len() as int;
    lemma_sessions_memory(table, panes, n);
    attribution::lemma_mem_subset(
        table,
        attribution::claimed_by_first(table, panes, n).intersect(table.dom()),
        table.dom(),
    );
}

/// Where the memory of all processes together fits 64 bits, that of every session does.
pub proof fn law_memory_fits(table: Map<u32, sample::RowView>, panes: Seq<(Seq<char>, u32)>)
    requires
        table.dom().finite(),
        attribution::mem_total(table, table.dom()) <= u64::MAX,
    ensures
        attribution::memory_fits(table, panes),
{
    assert forall|i: int|
        0 <= i < attribution::session_order(panes).len() implies #[trigger]
        attribution::session_fits(table, panes, i) by {
        attribution::lemma_mem_subset(
            table,
            attribution::session_pids(table, panes, i),
            table.dom(),
        );
    }
}

// ---------------------------------------------------------------------------
// Order
// ---------------------------------------------------------------------------

/// Two lists with the same elements, each in strictly ascending order, are one.
proof fn lemma_ascending_unique(
    p: Seq<int>,
    q: Seq<int>,
    ascends: spec_fn(int, int) -> bool,
)
    requires
        p.len() == q.len(),
        forall|x: int| p.contains(x) <==> q.contains(x),
        forall|i: int, j: int| 0 <= i < j < p.len() ==> ascends(#[trigger] p[i], #[trigger] p[j]),
        forall|i: int, j: int| 0 <= i < j < q.len() ==> ascends(#[trigger] q[i], #[trigger] q[j]),
        forall|x: int, y: int| #[trigger] ascends(x, y) ==> !ascends(y, x),
    ensures
        p == q,
    decreases p.len(),
{
    if p.len() == 0 {
        assert(p =~= q);
    } else {
        let n = p.len() - 1;
        assert(p.contains(p[n]) && q.contains(q[n]));
        let at = choose|at: int| 0 <= at < q.len() && q[at] == p[n];
        let k = choose|k: int| 0 <= k < p.len() && p[k] == q[n];
        assert(q[at] == p[n] && p[k] == q[n]);
        if p[n] != q[n] {
            assert(ascends(q[at], q[n]));
            assert(ascends(p[k], p[n]));
        }
        let a = p.drop_last();
        let b = q.drop_last();
        assert forall|x: int| a.contains(x) <==> b.contains(x) by {
            if a.contains(x) {
                let i = choose|i: int| 0 <= i < a.len() && a[i] == x;
                assert(p[i] == x);
                assert(ascends(p[i], p[n]));
                assert(q.contains(x));
                let j = choose|j: int| 0 <= j < q.len() && q[j] == x;
                assert(j != n);
                assert(b[j] == x);
            }
            if b.contains(x) {
                let i = choose|i: int| 0 <= i < b.len() && b[i] == x;
                assert(q[i] == x);
                assert(ascends(q[i], q[n]));
                assert(p.contains(x));
                let j = choose|j: int| 0 <= j < p.len() && p[j] == x;
                assert(j != n);
                assert(a[j] == x);
            }
        }
        lemma_ascending_unique(a, b, ascends);
        assert(p =~= a.push(p[n]));
        assert(q =~= b.push(q[n]));
    }
}

/// A list of `n` different numbers below `n` holds each of them.
pub proof fn lemma_permutation_holds_all(places: Seq<int>, n: int, x: int)
    requires
        ranking::is_permutation(places, n),
        0 <= x < n,
    ensures
        places.contains(x),
{
    let all = vstd::set_lib::set_int_range(0, n);
    vstd::set_lib::lemma_int_range(0, n);
    places.unique_seq_to_set();
    assert forall|y: int| places.to_set().contains(y) implies all.contains(y) by {
        let i = choose|i: int| 0 <= i < places.len() && places[i] == y;
        assert(0 <= places[i] < n);
    }
    vstd::set_lib::lemma_subset_equality(places.to_set(), all);
    assert(places.to_set().contains(x));
}

/// A stable order is the only one: two lists that a stable sort by the same order could make
/// of one are equal.
pub proof fn law_stable_order_is_unique<T>(
    before: Seq<T>,
    a: Seq<T>,
    b: Seq<T>,
    must_precede: spec_fn(T, T) -> bool,
)
    requires
        forall|x: T, y: T| #[trigger] must_precede(x, y) ==> !must_precede(y, x),
        ranking::sorts(before, a, must_precede),
        ranking::sorts(before, b, must_precede),
    ensures
        a == b,
{
    let p = choose|places: Seq<int>| ranking::stably_ordered(before, a, must_precede, places);
    let q = choose|places: Seq<int>| ranking::stably_ordered(before, b, must_precede, places);
    let n = before.len() as int;
    let ascends = |x: int, y: int|
        must_precede(before[x], before[y]) || (!must_precede(before[y], before[x]) && x < y);
    assert forall|i: int, j: int| 0 <= i < j < p.len() implies ascends(
        #[trigger] p[i],
        #[trigger] p[j],
    ) by {
        assert(a[i] == before[p[i]] && a[j] == before[p[j]]);
    }
    assert forall|i: int, j: int| 0 <= i < j < q.len() implies ascends(
        #[trigger] q[i],
        #[trigger] q[j],
    ) by {
        assert(b[i] == before[q[i]] && b[j] == before[q[j]]);
    }
    assert forall|x: int| p.contains(x) <==> q.contains(x) by {
        if p.contains(x) {
            lemma_permutation_holds_all(q, n, x);
        }
        if q.contains(x) {
            lemma_permutation_holds_all(p, n, x);
        }
    }
    lemma_ascending_unique(p, q, ascends);
    assert(a =~= b);
}

/// Sorting what is in order already changes nothing.
pub proof fn law_sorting_again_changes_nothing<T>(
    before: Seq<T>,
    once: Seq<T>,
    twice: Seq<T>,
    must_precede: spec_fn(T, T) -> bool,
)
    requires
        forall|x: T, y: T| #[trigger] must_precede(x, y) ==> !must_precede(y, x),
        ranking::sorts(before, once, must_precede),
        ranking::sorts(once, twice, must_precede),
    ensures
        twice == once,
{
    let places = choose|places: Seq<int>|
        ranking::stably_ordered(before, once, must_precede, places);
    let same = Seq::new(once.len(), |i: int| i);
    assert(ranking::stably_ordered(once, once, must_precede, same));
    law_stable_order_is_unique(once, once, twice, must_precede);
}

/// Nothing is lost or made up by sorting: each element was there, and each is still there.
pub proof fn law_sorting_keeps_the_elements<T>(
    before: Seq<T>,
    after: Seq<T>,
    must_precede: spec_fn(T, T) -> bool,
    x: T,
)
    requires
        ranking::sorts(before, after, must_precede),
    ensures
        after.len() == before.len(),
        after.contains(x) <==> before.contains(x),
{
    let places = choose|places: Seq<int>|
        ranking::stably_ordered(before, after, must_precede, places);
    if after.contains(x) {
        let i = choose|i: int| 0 <= i < after.len() && after[i] == x;
        assert(before[places[i]] == x);
    }
    if before.contains(x) {
        let k = choose|k: int| 0 <= k < before.len() && before[k] == x;
        lemma_permutation_holds_all(places, before.len() as int, k);
        let i = choose|i: int| 0 <= i < places.len() && places[i] == k;
        assert(after[i] == x);
    }
}

/// The chart and the breakdown read top-down: the figures of the sessions never increase, of
/// two with equal figures the one whose name comes first is first, and within a session the
/// figures of the processes never increase.
pub proof fn law_largest_first(
    before: Seq<SessionUsage>,
    after: Seq<SessionUsage>,
    metric: Metric,
)
    requires
        ranking::arranged(before, after, metric),
    ensures
        after.len() == before.len(),
        forall|i: int, j: int|
            0 <= i < j < after.len() ==> {
                &&& (#[trigger] after[i]).rank(metric) >= (#[trigger] after[j]).rank(metric)
                &&& after[i].rank(metric) == after[j].rank(metric) ==> !text::lex_less(
                    after[j].name@,
                    after[i].name@,
                )
            },
        forall|i: int, k: int, l: int|
            0 <= i < after.len() && 0 <= k < l < after[i].processes@.len() ==> (
            #[trigger] after[i].processes@[k]).rank(metric) >= (
            #[trigger] after[i].processes@[l]).rank(metric),
{
    let middle = choose|middle: Seq<SessionUsage>|
        {
            &&& #[trigger] ranking::sorts(before, middle, ranking::by_figure_and_name(metric))
            &&& after.len() == middle.len()
            &&& forall|i: int|
                0 <= i < after.len() ==> ranking::reordered(middle[i], #[trigger] after[i], metric)
        };
    let order = ranking::by_figure_and_name(metric);
    let places = choose|places: Seq<int>| ranking::stably_ordered(before, middle, order, places);
    assert forall|i: int, j: int| 0 <= i < j < after.len() implies {
        &&& (#[trigger] after[i]).rank(metric) >= (#[trigger] after[j]).rank(metric)
        &&& after[i].rank(metric) == after[j].rank(metric) ==> !text::lex_less(
            after[j].name@,
            after[i].name@,
        )
    } by {
        assert(!order(middle[j], middle[i]));
        assert(ranking::reordered(middle[i], after[i], metric));
        assert(ranking::reordered(middle[j], after[j], metric));
    }
    assert forall|i: int, k: int, l: int|
        0 <= i < after.len() && 0 <= k < l < after[i].processes@.len() implies (
    #[trigger] after[i].processes@[k]).rank(metric) >= (
    #[trigger] after[i].processes@[l]).rank(metric) by {
        assert(ranking::reordered(middle[i], after[i], metric));
        let own = ranking::by_figure(metric);
        let at = choose|places: Seq<int>|
            ranking::stably_ordered(middle[i].processes@, after[i].processes@, own, places);
        assert(!own(after[i].processes@[l], after[i].processes@[k]));
    }
}

/// Of two processes, and of two sessions, at most one must come before the other.
pub proof fn law_orders_go_one_way(metric: Metric)
    ensures
        forall|a, b| #[trigger]
            ranking::by_figure(metric)(a, b) ==> !ranking::by_figure(metric)(b, a),
        forall|a, b| #[trigger]
            ranking::by_figure_and_name(metric)(a, b) ==> !ranking::by_figure_and_name(metric)(
                b,
                a,
            ),
{
    let order = ranking::by_figure_and_name(metric);
    assert forall|a, b| #[trigger] order(a, b) implies !order(b, a) by {
        text::lemma_lex_total(a.name@, b.name@);
    }
}

/// Whether two sessions are shown alike: their names, their figures and their processes.
pub open spec fn same_session(a: SessionUsage, b: SessionUsage) -> bool {
    &&& a.name == b.name
    &&& a.cpu == b.cpu
    &&& a.mem_kb == b.mem_kb
    &&& a.processes@ == b.processes@
}

/// Whether two lists of sessions are shown alike.
pub open spec fn same_screen(a: Seq<SessionUsage>, b: Seq<SessionUsage>) -> bool {
    &&& a.len() == b.len()
    &&& forall|i: int| 0 <= i < a.len() ==> same_session(#[trigger] a[i], b[i])
}

/// The screen stays put between samples: arranging the sessions once more by the same metric
/// changes neither their order nor that of their processes.
pub proof fn law_arranging_again_changes_nothing(
    before: Seq<SessionUsage>,
    once: Seq<SessionUsage>,
    twice: Seq<SessionUsage>,
    metric: Metric,
)
    requires
        ranking::arranged(before, once, metric),
        ranking::arranged(once, twice, metric),
    ensures
        same_screen(twice, once),
{
    let order = ranking::by_figure_and_name(metric);
    let own = ranking::by_figure(metric);
    law_orders_go_one_way(metric);
    let first = choose|middle: Seq<SessionUsage>|
        {
            &&& #[trigger] ranking::sorts(before, middle, order)
            &&& once.len() == middle.len()
            &&& forall|i: int|
                0 <= i < once.len() ==> ranking::reordered(middle[i], #[trigger] once[i], metric)
        };
    let second = choose|middle: Seq<SessionUsage>|
        {
            &&& #[trigger] ranking::sorts(once, middle, order)
            &&& twice.len() == middle.len()
            &&& forall|i: int|
                0 <= i < twice.len() ==> ranking::reordered(middle[i], #[trigger] twice[i], metric)
        };
    let places = choose|places: Seq<int>| ranking::stably_ordered(before, first, order, places);
    let same = Seq::new(once.len(), |i: int| i);
    assert forall|i: int, j: int| 0 <= i < j < once.len() implies {
        &&& !order(#[trigger] once[j], #[trigger] once[i])
        &&& order(once[i], once[j]) || same[i] < same[j]
    } by {
        assert(!order(first[j], first[i]));
        assert(ranking::reordered(first[i], once[i], metric));
        assert(ranking::reordered(first[j], once[j], metric));
    }
    assert(ranking::stably_ordered(once, once, order, same));
    law_stable_order_is_unique(once, once, second, order);
    assert forall|i: int| 0 <= i < twice.len() implies same_session(
        #[trigger] twice[i],
        once[i],
    ) by {
        assert(ranking::reordered(first[i], once[i], metric));
        assert(ranking::reordered(once[i], twice[i], metric));
        law_sorting_again_changes_nothing(
            first[i].processes@,
            once[i].processes@,
            twice[i].processes@,
            own,
        );
    }
}

/// Sessions that are arranged by a metric are arranged in one way only.
pub proof fn law_arrangement_is_unique(
    before: Seq<SessionUsage>,
    a: Seq<SessionUsage>,
    b: Seq<SessionUsage>,
    metric: Metric,
)
    requires
        ranking::arranged(before, a, metric),
        ranking::arranged(before, b, metric),
    ensures
        a.len() == before.len(),
        same_screen(a, b),
{
    let order = ranking::by_figure_and_name(metric);
    let own = ranking::by_figure(metric);
    law_orders_go_one_way(metric);
    let first = choose|middle: Seq<SessionUsage>|
        {
            &&& #[trigger] ranking::sorts(before, middle, order)
            &&& a.len() == middle.len()
            &&& forall|i: int|
                0 <= i < a.len() ==> ranking::reordered(middle[i], #[trigger] a[i], metric)
        };
    let second = choose|middle: Seq<SessionUsage>|
        {
            &&& #[trigger] ranking::sorts(before, middle, order)
            &&& b.len() == middle.len()
            &&& forall|i: int|
                0 <= i < b.len() ==> ranking::reordered(middle[i], #[trigger] b[i], metric)
        };
    law_stable_order_is_unique(before, first, second, order);
    assert forall|i: int| 0 <= i < a.len() implies same_session(#[trigger] a[i], b[i]) by {
        assert(ranking::reordered(first[i], a[i], metric));
        assert(ranking::reordered(first[i], b[i], metric));
        law_stable_order_is_unique(
            first[i].processes@,
            a[i].processes@,
            b[i].processes@,
            own,
        );
    }
}

// ---------------------------------------------------------------------------
// The loop
// ---------------------------------------------------------------------------

/// What the screen shows of a state with the sessions `listed`: the sessions in the order of
/// the metric, and the selection among them.
pub open spec fn shows(state: Monitor, listed: Seq<SessionUsage>, shown: Monitor) -> bool {
    &&& shown.metric == state.metric
    &&& ranking::arranged(listed, shown.sessions@, state.metric)
    &&& shown.selected == monitor::kept_selection(
        state.selected as int,
        shown.sessions@.len() as int,
    )
}

/// What an input makes of the state that is shown.
pub open spec fn turns_into(shown: Monitor, input: Input, next: Monitor) -> bool {
    &&& next.sessions == shown.sessions
    &&& next.metric == monitor::next_metric(shown.metric, input)
    &&& next.selected == monitor::next_selected(
        shown.selected as int,
        shown.sessions@.len() as int,
        input,
    )
}

/// Whether the screen runs through `states` and shows `shown`, tick by tick, on inputs that
/// neither close it nor leave the CPU metric, and on samples that are all `sample`: each tick
/// shows either a fresh sample or the sessions that are there.
pub open spec fn runs(
    sample: Seq<SessionUsage>,
    states: Seq<Monitor>,
    shown: Seq<Monitor>,
    inputs: Seq<Input>,
) -> bool {
    &&& states.len() == inputs.len() + 1
    &&& shown.len() == states.len()
    &&& states[0].metric == Metric::Cpu
    &&& states[0].selected == 0
    &&& states[0].sessions@ == sample
    &&& forall|t: int|
        0 <= t < states.len() ==> shows(#[trigger] states[t], sample, shown[t]) || shows(
            states[t],
            states[t].sessions@,
            shown[t],
        )
    &&& forall|t: int|
        0 <= t < inputs.len() ==> {
            &&& turns_into(shown[t], #[trigger] inputs[t], states[t + 1])
            &&& !monitor::closes(inputs[t])
            &&& !monitor::picks(inputs[t])
            &&& monitor::next_metric(Metric::Cpu, inputs[t]) == Metric::Cpu
        }
}

proof fn lemma_runs(
    sample: Seq<SessionUsage>,
    sorted: Seq<SessionUsage>,
    states: Seq<Monitor>,
    shown: Seq<Monitor>,
    inputs: Seq<Input>,
    t: int,
)
    requires
        sample.len() > 0,
        ranking::arranged(sample, sorted, Metric::Cpu),
        runs(sample, states, shown, inputs),
        0 <= t < states.len(),
    ensures
        shown[t].metric == Metric::Cpu,
        shown[t].selected == monitor::net_steps(inputs.take(t)) % (sample.len() as int),
        shown[t].sessions@.len() == sample.len(),
        same_screen(shown[t].sessions@, sorted),
        ranking::arranged(sample, shown[t].sessions@, Metric::Cpu) || (t > 0 && ranking::arranged(
            shown[t - 1].sessions@,
            shown[t].sessions@,
            Metric::Cpu,
        )),
    decreases t,
{
    let n = sample.len() as int;
    let now = shown[t].sessions@;
    law_largest_first(sample, sorted, Metric::Cpu);
    assert(shows(states[t], sample, shown[t]) || shows(
        states[t],
        states[t].sessions@,
        shown[t],
    ));
    if t == 0 {
        law_arrangement_is_unique(sample, now, sorted, Metric::Cpu);
        assert(monitor::net_steps(inputs.take(0)) == 0);
        vstd::arithmetic::div_mod::lemma_small_mod(0, n as nat);
    } else {
        lemma_runs(sample, sorted, states, shown, inputs, t - 1);
        let last = shown[t - 1].sessions@;
        let before = inputs.take(t - 1);
        assert(turns_into(shown[t - 1], inputs[t - 1], states[t]));
        assert(inputs.take(t).drop_last() =~= before);
        assert(inputs.take(t).last() == inputs[t - 1]);
        monitor::lemma_step_adds(monitor::net_steps(before), n, inputs[t - 1]);
        vstd::arithmetic::div_mod::lemma_mod_bound(monitor::net_steps(inputs.take(t)), n);
        if shows(states[t], sample, shown[t]) {
            law_arrangement_is_unique(sample, now, sorted, Metric::Cpu);
        } else {
            assert(ranking::arranged(last, now, Metric::Cpu));
            if ranking::arranged(sample, last, Metric::Cpu) {
                law_arranging_again_changes_nothing(sample, last, now, Metric::Cpu);
            } else {
                law_arranging_again_changes_nothing(shown[t - 2].sessions@, last, now, Metric::Cpu);
            }
            assert forall|i: int| 0 <= i < now.len() implies same_session(
                #[trigger] now[i],
                sorted[i],
            ) by {
                assert(same_session(last[i], sorted[i]));
            }
        }
    }
}

/// The selection goes round the sessions as they are sorted: while the samples stay the same,
/// any mix of steps down and up, with refreshes in between, selects the session that is as far
/// from the first, round the list, as the steps down exceed those up. That is the one that
/// Enter picks.
pub proof fn law_keys_lead_to_the_session(
    sample: Seq<SessionUsage>,
    sorted: Seq<SessionUsage>,
    states: Seq<Monitor>,
    shown: Seq<Monitor>,
    inputs: Seq<Input>,
)
    requires
        sample.len() > 0,
        ranking::arranged(sample, sorted, Metric::Cpu),
        runs(sample, states, shown, inputs),
    ensures
        ({
            let at = monitor::net_steps(inputs) % (sample.len() as int);
            let last = shown[inputs.len() as int];
            &&& 0 <= at < sorted.len()
            &&& last.sessions@.len() == sorted.len()
            &&& last.settled()
            &&& last.selected == at
            &&& last.sessions@[at].name == sorted[at].name
        }),
{
    let n = inputs.len() as int;
    lemma_runs(sample, sorted, states, shown, inputs, n);
    assert(inputs.take(n) =~= inputs);
    vstd::arithmetic::div_mod::lemma_mod_bound(monitor::net_steps(inputs), sample.len() as int);
    let at = monitor::net_steps(inputs) % (sample.len() as int);
    assert(same_session(shown[n].sessions@[at], sorted[at]));
}

} // verus!
