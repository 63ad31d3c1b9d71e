//! Which processes belong to which session.

use std::collections::{HashMap, HashSet};

use vstd::prelude::*;

use crate::text;
use crate::usage::figures;
use crate::usage::figures::CpuLoad;
use crate::usage::sample;
use crate::usage::sample::ProcRow;

verus! {

broadcast use vstd::std_specs::hash::group_hash_axioms;

/// A single process running inside a tmux session.
#[derive(Debug)]
pub struct Process {
    pub cpu: CpuLoad,
    pub mem_kb: u64,
    pub command: String,
}

/// What a process says.
#[verifier::ext_equal]
pub struct ProcessView {
    pub cpu: figures::LoadView,
    pub mem_kb: u64,
    pub command: Seq<char>,
}

impl View for Process {
    type V = ProcessView;

    open spec fn view(&self) -> ProcessView {
        ProcessView { cpu: self.cpu@, mem_kb: self.mem_kb, command: self.command@ }
    }
}

/// What the processes of a list say.
pub open spec fn process_views(list: Seq<Process>) -> Seq<ProcessView> {
    list.map_values(|p: Process| p@)
}

/// The processes of one tmux session and the memory that they use.
#[derive(Debug)]
pub struct SessionProcesses {
    pub name: String,
    pub mem_kb: u64,
    pub processes: Vec<Process>,
}

// ---------------------------------------------------------------------------
// What belongs to a session
// ---------------------------------------------------------------------------

/// Whether process `parent` started process `child`.
pub open spec fn is_child(table: Map<u32, sample::RowView>, parent: u32, child: u32) -> bool {
    table.contains_key(child) && table[child].ppid == parent
}

/// Whether each process of `path` but the first is a child of the one before it.
pub open spec fn is_lineage(table: Map<u32, sample::RowView>, path: Seq<u32>) -> bool {
    &&& path.len() > 0
    &&& forall|i: int|
        0 < i < path.len() ==> is_child(table, path[i - 1], #[trigger] path[i])
}

/// Whether `pid` is one of the roots or descends from one.
pub open spec fn descends(table: Map<u32, sample::RowView>, roots: Set<u32>, pid: u32) -> bool {
    exists|path: Seq<u32>| #[trigger]
        is_lineage(table, path) && roots.contains(path[0]) && path.last() == pid
}

/// The roots and all their descendants.
pub open spec fn subtree(table: Map<u32, sample::RowView>, roots: Set<u32>) -> Set<u32> {
    Set::new(|pid: u32| descends(table, roots, pid))
}

/// The root processes of the panes of session `name`.
pub open spec fn session_roots(panes: Seq<(Seq<char>, u32)>, name: Seq<char>) -> Set<u32> {
    Set::new(|pid: u32| panes.contains((name, pid)))
}

/// The names of the sessions of the panes, each once, in the order in which they come up.
pub open spec fn session_order(panes: Seq<(Seq<char>, u32)>) -> Seq<Seq<char>>
    decreases panes.len(),
{
    if panes.len() == 0 {
        Seq::empty()
    } else {
        let before = session_order(panes.drop_last());
        if before.contains(panes.last().0) {
            before
        } else {
            before.push(panes.last().0)
        }
    }
}

/// The processes below the panes of the first `n` sessions.
pub open spec fn claimed_by_first(
    table: Map<u32, sample::RowView>,
    panes: Seq<(Seq<char>, u32)>,
    n: int,
) -> Set<u32>
    decreases n,
{
    if n <= 0 {
        Set::empty()
    } else {
        claimed_by_first(table, panes, n - 1).union(
            subtree(table, session_roots(panes, session_order(panes)[n - 1])),
        )
    }
}

/// The processes of the table that belong to session number `i`: those below its panes that no
/// session before it has claimed.
pub open spec fn session_pids(
    table: Map<u32, sample::RowView>,
    panes: Seq<(Seq<char>, u32)>,
    i: int,
) -> Set<u32> {
    subtree(table, session_roots(panes, session_order(panes)[i])).difference(
        claimed_by_first(table, panes, i),
    ).intersect(table.dom())
}

/// The process that a row of the table describes.
pub open spec fn process_of(row: sample::RowView) -> ProcessView {
    ProcessView { cpu: row.cpu, mem_kb: row.mem_kb, command: row.command }
}

/// Whether `list` holds the processes with the ids `pids`, each once, in some order.
pub open spec fn lists_processes(
    table: Map<u32, sample::RowView>,
    pids: Set<u32>,
    list: Seq<ProcessView>,
) -> bool {
    exists|order: Seq<u32>| #[trigger]
        order.no_duplicates() && order.to_set() == pids && list.len() == order.len() && forall|
            k: int,
        |
            0 <= k < list.len() ==> #[trigger] list[k] == process_of(table[order[k]])
}

/// The memory that the processes with the ids `pids` use.
pub open spec fn mem_total(table: Map<u32, sample::RowView>, pids: Set<u32>) -> nat
    decreases pids.len(),
{
    if !pids.finite() || pids.len() == 0 {
        0
    } else {
        let pid = pids.choose();
        table[pid].mem_kb as nat + mem_total(table, pids.remove(pid))
    }
}

/// Whether `session` is what belongs to session number `i`.
pub open spec fn session_owns(
    table: Map<u32, sample::RowView>,
    panes: Seq<(Seq<char>, u32)>,
    i: int,
    session: SessionProcesses,
) -> bool {
    &&& session.name@ == session_order(panes)[i]
    &&& session.mem_kb == mem_total(table, session_pids(table, panes, i))
    &&& lists_processes(
        table,
        session_pids(table, panes, i),
        process_views(session.processes@),
    )
}

/// Whether `sessions` attributes the processes to the sessions of the panes.
pub open spec fn attributes(
    table: Map<u32, sample::RowView>,
    panes: Seq<(Seq<char>, u32)>,
    sessions: Seq<SessionProcesses>,
) -> bool {
    &&& sessions.len() == session_order(panes).len()
    &&& forall|i: int|
        0 <= i < sessions.len() ==> session_owns(table, panes, i, #[trigger] sessions[i])
}

/// Whether the memory of session number `i` fits 64 bits.
pub open spec fn session_fits(
    table: Map<u32, sample::RowView>,
    panes: Seq<(Seq<char>, u32)>,
    i: int,
) -> bool {
    mem_total(table, session_pids(table, panes, i)) <= u64::MAX
}

/// Whether the memory of every session fits 64 bits.
pub open spec fn memory_fits(
    table: Map<u32, sample::RowView>,
    panes: Seq<(Seq<char>, u32)>,
) -> bool {
    forall|i: int|
        0 <= i < session_order(panes).len() ==> #[trigger] session_fits(table, panes, i)
}

// ---------------------------------------------------------------------------
// Memory totals
// ---------------------------------------------------------------------------

/// One more process adds its memory to the total.
pub proof fn lemma_mem_insert(table: Map<u32, sample::RowView>, pids: Set<u32>, pid: u32)
    requires
        pids.finite(),
        !pids.contains(pid),
    ensures
        mem_total(table, pids.insert(pid)) == mem_total(table, pids) + table[pid].mem_kb,
    decreases pids.len(),
{
    let more = pids.insert(pid);
    let first = more.choose();
    assert(more.contains(pid));
    assert(more.len() == pids.len() + 1);
    assert(more.contains(first));
    if first == pid {
        assert(more.remove(pid) =~= pids);
    } else {
        let rest = pids.remove(first);
        assert(more.remove(first) =~= rest.insert(pid));
        lemma_mem_insert(table, rest, pid);
        lemma_mem_insert(table, rest, first);
        assert(rest.insert(first) =~= pids);
    }
}

/// Fewer processes use no more memory.
pub proof fn lemma_mem_subset(table: Map<u32, sample::RowView>, some: Set<u32>, all: Set<u32>)
    requires
        all.finite(),
        some.subset_of(all),
    ensures
        mem_total(table, some) <= mem_total(table, all),
    decreases all.len(),
{
    vstd::set_lib::lemma_set_subset_finite(all, some);
    if some =~= all {
    } else {
        let pid = choose|pid: u32| all.contains(pid) && !some.contains(pid);
        assert(all.contains(pid) && !some.contains(pid));
        lemma_mem_subset(table, some, all.remove(pid));
        lemma_mem_insert(table, all.remove(pid), pid);
        assert(all.remove(pid).insert(pid) =~= all);
    }
}

// ---------------------------------------------------------------------------
// Walking the subtrees
// ---------------------------------------------------------------------------

/// Whether the children of every process in the set are in it too.
pub open spec fn closed_under_children(table: Map<u32, sample::RowView>, pids: Set<u32>) -> bool {
    forall|parent: u32, child: u32|
        pids.contains(parent) && #[trigger] is_child(table, parent, child) ==> pids.contains(child)
}

/// Whether `index` lists `child` under `parent`.
spec fn has_child(index: Map<u32, Vec<u32>>, parent: u32, child: u32) -> bool {
    index.contains_key(parent) && index[parent]@.contains(child)
}

/// Whether `index` lists, for every process, its children.
spec fn indexes_children(index: Map<u32, Vec<u32>>, table: Map<u32, sample::RowView>) -> bool {
    forall|parent: u32, child: u32|
        has_child(index, parent, child) <==> #[trigger] is_child(table, parent, child)
}

/// Whether `links` holds every process of the table, once or more, with its parent.
spec fn lists_links(links: Seq<(u32, u32)>, table: Map<u32, sample::RowView>) -> bool {
    &&& forall|k: int|
        0 <= k < links.len() ==> is_child(table, (#[trigger] links[k]).1, links[k].0)
    &&& forall|parent: u32, child: u32| #[trigger]
        is_child(table, parent, child) ==> links.contains((child, parent))
}

/// The processes of the table with their parents.
fn list_links(procs: &HashMap<u32, ProcRow>) -> (links: Vec<(u32, u32)>)
    ensures
        lists_links(links@, sample::row_views(procs@)),
{
    let ghost table = sample::row_views(procs@);
    let mut links: Vec<(u32, u32)> = Vec::new();
    for entry in it: procs.iter()
        invariant
            links@.len() == it.index(),
            forall|k: int|
                #![trigger links@[k]]
                #![trigger it.seq()[k]]
                0 <= k < it.index() ==> links@[k] == (*it.seq()[k].0, (*it.seq()[k].1).ppid),
            forall|k: int|
                0 <= k < it.seq().len() ==> procs@.contains_key(*(#[trigger] it.seq()[k]).0)
                    && procs@[*it.seq()[k].0] == *it.seq()[k].1,
            forall|pid: u32| #[trigger]
                procs@.contains_key(pid) ==> it.seq().contains((&pid, &procs@[pid])),
    {
        links.push((*entry.0, entry.1.ppid));
    }
    proof {
        assert forall|k: int| 0 <= k < links@.len() implies is_child(
            table,
            (#[trigger] links@[k]).1,
            links@[k].0,
        ) by {
            assert(table[links@[k].0] == procs@[links@[k].0]@);
        }
        assert forall|parent: u32, child: u32| #[trigger]
            is_child(table, parent, child) implies links@.contains((child, parent)) by {
            assert(procs@.contains_key(child));
            assert(table[child] == procs@[child]@);
        }
    }
    links
}

/// Reverses the parent links, so that subtree walks are cheap.
fn index_children(procs: &HashMap<u32, ProcRow>) -> (index: HashMap<u32, Vec<u32>>)
    ensures
        indexes_children(index@, sample::row_views(procs@)),
{
    let links = list_links(procs);
    let mut index: HashMap<u32, Vec<u32>> = HashMap::new();
    let mut i: usize = 0;
    while i < links.len()
        invariant
            i <= links@.len(),
            forall|parent: u32, child: u32|
                #[trigger] has_child(index@, parent, child) <==> links@.take(i as int).contains(
                    (child, parent),
                ),
        decreases links@.len() - i,
    {
        let ghost before = index@;
        let (child, parent) = links[i];
        let mut list: Vec<u32> = match index.remove(&parent) {
            Some(list) => list,
            None => Vec::new(),
        };
        let ghost siblings = list@;
        list.push(child);
        let ghost longer = list@;
        index.insert(parent, list);
        proof {
            let done = links@.take(i as int);
            let more = links@.take(i + 1);
            assert(more =~= done.push((child, parent)));
            assert forall|p: u32, c: u32|
                #[trigger] has_child(index@, p, c) <==> more.contains((c, p)) by {
                assert(has_child(before, p, c) <==> done.contains((c, p)));
                lemma_push_contains(done, (child, parent), (c, p));
                if p == parent {
                    lemma_push_contains(siblings, child, c);
                    if before.contains_key(parent) {
                        assert(siblings == before[parent]@);
                    } else {
                        assert(siblings =~= Seq::<u32>::empty());
                    }
                }
            }
        }
        i += 1;
    }
    proof {
        let table = sample::row_views(procs@);
        assert(links@.take(links@.len() as int) =~= links@);
        assert forall|parent: u32, child: u32|
            has_child(index@, parent, child) <==> #[trigger] is_child(table, parent, child) by {
            assert(has_child(index@, parent, child) <==> links@.contains((child, parent)));
            if links@.contains((child, parent)) {
                let k = choose|k: int| 0 <= k < links@.len() && links@[k] == (child, parent);
                assert(is_child(table, links@[k].1, links@[k].0));
            }
        }
    }
    index
}

proof fn lemma_push_contains<T>(list: Seq<T>, x: T, y: T)
    ensures
        list.push(x).contains(y) <==> (y == x || list.contains(y)),
{
    let more = list.push(x);
    assert(more[list.len() as int] == x);
    if list.contains(y) {
        let k = choose|k: int| 0 <= k < list.len() && list[k] == y;
        assert(more[k] == y);
    }
    if more.contains(y) && y != x {
        let k = choose|k: int| 0 <= k < more.len() && more[k] == y;
        assert(list[k] == y);
    }
}

/// A set that holds the roots, and with a process its children, holds the whole subtree.
pub proof fn lemma_closed_holds_subtree(
    table: Map<u32, sample::RowView>,
    roots: Set<u32>,
    pids: Set<u32>,
)
    requires
        roots.subset_of(pids),
        closed_under_children(table, pids),
    ensures
        subtree(table, roots).subset_of(pids),
{
    assert forall|pid: u32| subtree(table, roots).contains(pid) implies pids.contains(pid) by {
        let path = choose|path: Seq<u32>| #[trigger]
            is_lineage(table, path) && roots.contains(path[0]) && path.last() == pid;
        lemma_closed_holds_lineage(table, path, pids, path.len() - 1);
    }
}

proof fn lemma_closed_holds_lineage(
    table: Map<u32, sample::RowView>,
    path: Seq<u32>,
    pids: Set<u32>,
    n: int,
)
    requires
        is_lineage(table, path),
        pids.contains(path[0]),
        closed_under_children(table, pids),
        0 <= n < path.len(),
    ensures
        pids.contains(path[n]),
    decreases n,
{
    if n > 0 {
        lemma_closed_holds_lineage(table, path, pids, n - 1);
        assert(is_child(table, path[n - 1], path[n]));
    }
}

/// A child of a process of the subtree is in the subtree.
pub proof fn lemma_subtree_closed(table: Map<u32, sample::RowView>, roots: Set<u32>)
    ensures
        closed_under_children(table, subtree(table, roots)),
{
    let all = subtree(table, roots);
    assert forall|parent: u32, child: u32|
        all.contains(parent) && #[trigger] is_child(table, parent, child) implies all.contains(
        child,
    ) by {
        let path = choose|path: Seq<u32>| #[trigger]
            is_lineage(table, path) && roots.contains(path[0]) && path.last() == parent;
        let longer = path.push(child);
        assert forall|i: int| 0 < i < longer.len() implies is_child(
            table,
            longer[i - 1],
            #[trigger] longer[i],
        ) by {
            if i < path.len() {
                assert(is_child(table, path[i - 1], path[i]));
                assert(longer[i] == path[i] && longer[i - 1] == path[i - 1]);
            }
        }
        assert(is_lineage(table, longer));
        assert(longer[0] == path[0]);
        assert(descends(table, roots, child));
    }
}

/// The roots are in their subtree.
pub proof fn lemma_roots_in_subtree(table: Map<u32, sample::RowView>, roots: Set<u32>)
    ensures
        roots.subset_of(subtree(table, roots)),
{
    assert forall|pid: u32| roots.contains(pid) implies subtree(table, roots).contains(pid) by {
        let path = seq![pid];
        assert(is_lineage(table, path));
        assert(path[0] == pid && path.last() == pid);
    }
}

/// Appends `more` to the stack.
fn push_all(stack: &mut Vec<u32>, more: &Vec<u32>)
    ensures
        final(stack)@ == old(stack)@ + more@,
{
    let ghost before = stack@;
    let mut i: usize = 0;
    while i < more.len()
        invariant
            i <= more@.len(),
            stack@ == before + more@.take(i as int),
        decreases more@.len() - i,
    {
        stack.push(more[i]);
        assert(more@.take(i + 1) =~= more@.take(i as int).push(more@[i as int]));
        i += 1;
    }
    assert(more@.take(more@.len() as int) =~= more@);
}

/// The processes of a subtree that are in the table and were not claimed before.
spec fn newly_claimed(
    table: Map<u32, sample::RowView>,
    roots: Set<u32>,
    before: Set<u32>,
) -> Set<u32> {
    subtree(table, roots).difference(before).intersect(table.dom())
}

/// What the walk of a subtree has done so far: every process reached is claimed, or waits on
/// the stack, or is reached through one that waits; and `order` holds the ids of the processes
/// claimed by this walk.
spec fn walked(
    table: Map<u32, sample::RowView>,
    roots: Set<u32>,
    before: Set<u32>,
    claimed: Set<u32>,
    stack: Seq<u32>,
    order: Seq<u32>,
) -> bool {
    &&& before.subset_of(claimed)
    &&& forall|p: u32| #[trigger]
        claimed.contains(p) ==> before.contains(p) || subtree(table, roots).contains(p)
    &&& forall|k: int| 0 <= k < stack.len() ==> subtree(table, roots).contains(#[trigger] stack[k])
    &&& forall|k: int|
        0 <= k < stack.len() ==> roots.contains(#[trigger] stack[k]) || table.contains_key(stack[k])
    &&& forall|p: u32| #[trigger] roots.contains(p) ==> claimed.contains(p) || stack.contains(p)
    &&& forall|parent: u32, child: u32|
        claimed.contains(parent) && #[trigger] is_child(table, parent, child) ==> claimed.contains(
            child,
        ) || stack.contains(child)
    &&& order.no_duplicates()
    &&& forall|p: u32| #[trigger]
        order.contains(p) <==> claimed.contains(p) && !before.contains(p) && table.contains_key(p)
}

proof fn lemma_walk_done(
    table: Map<u32, sample::RowView>,
    roots: Set<u32>,
    before: Set<u32>,
    claimed: Set<u32>,
    order: Seq<u32>,
)
    requires
        walked(table, roots, before, claimed, Seq::empty(), order),
    ensures
        claimed == before.union(subtree(table, roots)),
        order.to_set() == newly_claimed(table, roots, before),
{
    assert(roots.subset_of(claimed));
    assert(closed_under_children(table, claimed));
    lemma_closed_holds_subtree(table, roots, claimed);
    assert(claimed =~= before.union(subtree(table, roots)));
    assert forall|p: u32| order.to_set().contains(p) <==> newly_claimed(
        table,
        roots,
        before,
    ).contains(p) by {
        assert(order.contains(p) <==> claimed.contains(p) && !before.contains(p)
            && table.contains_key(p));
    }
    assert(order.to_set() =~= newly_claimed(table, roots, before));
}

/// Passing over a process that is claimed already.
proof fn lemma_walk_skip(
    table: Map<u32, sample::RowView>,
    roots: Set<u32>,
    before: Set<u32>,
    claimed: Set<u32>,
    stack: Seq<u32>,
    order: Seq<u32>,
)
    requires
        walked(table, roots, before, claimed, stack, order),
        stack.len() > 0,
        claimed.contains(stack.last()),
    ensures
        walked(table, roots, before, claimed, stack.drop_last(), order),
{
    let rest = stack.drop_last();
    assert forall|p: u32| stack.contains(p) implies claimed.contains(p) || rest.contains(p) by {
        let k = choose|k: int| 0 <= k < stack.len() && stack[k] == p;
        if k < rest.len() {
            assert(rest[k] == p);
        }
    }
}

/// Claiming the process on top of the stack and pushing its children.
proof fn lemma_walk_claim(
    table: Map<u32, sample::RowView>,
    roots: Set<u32>,
    before: Set<u32>,
    claimed: Set<u32>,
    stack: Seq<u32>,
    order: Seq<u32>,
    kids: Seq<u32>,
)
    requires
        walked(table, roots, before, claimed, stack, order),
        stack.len() > 0,
        !claimed.contains(stack.last()),
        forall|child: u32| #[trigger]
            kids.contains(child) <==> is_child(table, stack.last(), child),
    ensures
        walked(
            table,
            roots,
            before,
            claimed.insert(stack.last()),
            stack.drop_last() + kids,
            if table.contains_key(stack.last()) {
                order.push(stack.last())
            } else {
                order
            },
        ),
{
    let pid = stack.last();
    let rest = stack.drop_last();
    let next = rest + kids;
    let more = claimed.insert(pid);
    let all = subtree(table, roots);
    let longer = if table.contains_key(pid) {
        order.push(pid)
    } else {
        order
    };
    assert(all.contains(pid)) by {
        assert(stack[stack.len() - 1] == pid);
    }
    lemma_subtree_closed(table, roots);
    assert forall|p: u32| stack.contains(p) && p != pid implies next.contains(p) by {
        let k = choose|k: int| 0 <= k < stack.len() && stack[k] == p;
        assert(next[k] == p);
    }
    assert forall|c: u32| kids.contains(c) implies next.contains(c) by {
        let k = choose|k: int| 0 <= k < kids.len() && kids[k] == c;
        assert(next[rest.len() + k] == c);
    }
    assert forall|k: int| 0 <= k < next.len() implies all.contains(#[trigger] next[k]) && (
    roots.contains(next[k]) || table.contains_key(next[k])) by {
        if k < rest.len() {
            assert(next[k] == stack[k]);
        } else {
            assert(kids.contains(kids[k - rest.len()]));
            assert(is_child(table, pid, next[k]));
        }
    }
    assert forall|parent: u32, child: u32|
        more.contains(parent) && #[trigger] is_child(table, parent, child) implies more.contains(
        child,
    ) || next.contains(child) by {
        if parent == pid {
            assert(kids.contains(child));
        }
    }
    assert(longer.no_duplicates()) by {
        assert(order.contains(pid) ==> claimed.contains(pid));
    }
    assert forall|p: u32| #[trigger] longer.contains(p) <==> more.contains(p) && !before.contains(p)
        && table.contains_key(p) by {
        lemma_push_contains(order, pid, p);
        assert(before.contains(pid) ==> claimed.contains(pid));
        assert(order.contains(p) <==> claimed.contains(p) && !before.contains(p)
            && table.contains_key(p));
    }
}

/// What a session has claimed: processes, and the memory that they use.
struct Claim {
    mem_kb: u64,
    processes: Vec<Process>,
}

/// A process added to those claimed adds its memory.
proof fn lemma_mem_push(table: Map<u32, sample::RowView>, order: Seq<u32>, pid: u32)
    requires
        !order.contains(pid),
    ensures
        mem_total(table, order.push(pid).to_set()) == mem_total(table, order.to_set())
            + table[pid].mem_kb,
{
    vstd::seq_lib::seq_to_set_is_finite(order);
    lemma_mem_insert(table, order.to_set(), pid);
    assert(order.push(pid).to_set() =~= order.to_set().insert(pid)) by {
        assert forall|p: u32| order.push(pid).to_set().contains(p) <==> order.to_set().insert(
            pid,
        ).contains(p) by {
            lemma_push_contains(order, pid, p);
        }
    }
}

/// Claims the processes below `roots` that nobody has claimed, and gives those of the table
/// with the memory they use; nothing when that does not fit 64 bits.
fn claim_subtree(
    procs: &HashMap<u32, ProcRow>,
    index: &HashMap<u32, Vec<u32>>,
    roots: &Vec<u32>,
    claimed: &mut HashSet<u32>,
) -> (claim: Option<Claim>)
    requires
        indexes_children(index@, sample::row_views(procs@)),
        closed_under_children(sample::row_views(procs@), old(claimed)@),
    ensures
        claim is None <==> mem_total(
            sample::row_views(procs@),
            newly_claimed(sample::row_views(procs@), roots@.to_set(), old(claimed)@),
        ) > u64::MAX,
        claim matches Some(c) ==> {
            let table = sample::row_views(procs@);
            let own = newly_claimed(table, roots@.to_set(), old(claimed)@);
            &&& final(claimed)@ == old(claimed)@.union(subtree(table, roots@.to_set()))
            &&& c.mem_kb == mem_total(table, own)
            &&& lists_processes(table, own, process_views(c.processes@))
        },
{
    let ghost table = sample::row_views(procs@);
    let ghost top = roots@.to_set();
    let ghost before = claimed@;
    let ghost own = newly_claimed(table, top, before);
    let ghost universe = top.union(table.dom());
    let ghost mut order: Seq<u32> = Seq::empty();
    let mut processes: Vec<Process> = Vec::new();
    let mut mem_kb: u64 = 0;
    let mut stack: Vec<u32> = Vec::new();
    push_all(&mut stack, roots);
    proof {
        assert(stack@ =~= roots@);
        lemma_roots_in_subtree(table, top);
        assert forall|p: u32| #[trigger] top.contains(p) implies stack@.contains(p) by {}
        assert(table.dom() =~= procs@.dom());
        vstd::seq_lib::seq_to_set_is_finite(roots@);
        assert(order.to_set() =~= Set::<u32>::empty());
    }
    while stack.len() > 0
        invariant
            table == sample::row_views(procs@),
            indexes_children(index@, table),
            top == roots@.to_set(),
            before == old(claimed)@,
            own == newly_claimed(table, top, before),
            universe == top.union(table.dom()),
            universe.finite(),
            table.dom().finite(),
            table.dom() == procs@.dom(),
            walked(table, top, before, claimed@, stack@, order),
            mem_kb == mem_total(table, order.to_set()),
            processes@.len() == order.len(),
            forall|k: int|
                0 <= k < order.len() ==> (#[trigger] processes@[k])@ == process_of(
                    table[order[k]],
                ),
        decreases universe.difference(claimed@).len(), stack@.len(),
    {
        let ghost whole = stack@;
        let ghost had = claimed@;
        let ghost shorter = order;
        let pid: u32 = stack.pop().unwrap();
        assert(stack@ == whole.drop_last());
        assert(whole[whole.len() - 1] == pid);
        assert(universe.contains(pid));
        if !claimed.insert(pid) {
            proof {
                assert(claimed@ =~= had);
                lemma_walk_skip(table, top, before, had, whole, order);
            }
            continue;
        }
        assert(universe.difference(claimed@) =~= universe.difference(had).remove(pid));
        assert(universe.difference(had).contains(pid));
        if let Some(row) = procs.get(&pid) {
            proof {
                assert(table[pid] == procs@[pid]@);
                assert(!order.contains(pid));
                lemma_mem_push(table, order, pid);
                order = order.push(pid);
            }
            match mem_kb.checked_add(row.mem_kb) {
                Some(sum) => {
                    mem_kb = sum;
                },
                None => {
                    proof {
                        assert(order.to_set().subset_of(own)) by {
                            assert forall|p: u32| order.to_set().contains(p) implies own.contains(
                                p,
                            ) by {
                                lemma_push_contains(shorter, pid, p);
                                if p != pid {
                                    assert(shorter.contains(p));
                                }
                            }
                        }
                        vstd::set_lib::lemma_set_subset_finite(table.dom(), own);
                        lemma_mem_subset(table, order.to_set(), own);
                    }
                    return None;
                },
            }
            processes.push(
                Process {
                    cpu: row.cpu.duplicate(),
                    mem_kb: row.mem_kb,
                    command: row.command.clone(),
                },
            );
        }
        let ghost mut pushed: Seq<u32> = Seq::empty();
        if let Some(kids) = index.get(&pid) {
            push_all(&mut stack, kids);
            proof {
                pushed = kids@;
            }
        }
        proof {
            assert forall|child: u32| #[trigger] pushed.contains(child) <==> is_child(
                table,
                pid,
                child,
            ) by {
                assert(has_child(index@, pid, child) <==> is_child(table, pid, child));
            }
            lemma_walk_claim(table, top, before, had, whole, shorter, pushed);
            assert(stack@ =~= whole.drop_last() + pushed);
            assert(claimed@ =~= had.insert(pid));
        }
    }
    proof {
        assert(stack@ =~= Seq::<u32>::empty());
        lemma_walk_done(table, top, before, claimed@, order);
        let shown = process_views(processes@);
        assert forall|k: int| 0 <= k < shown.len() implies #[trigger] shown[k] == process_of(
            table[order[k]],
        ) by {
            assert(shown[k] == processes@[k]@);
        }
        assert(lists_processes(table, own, shown));
    }
    Some(Claim { mem_kb, processes })
}

// ---------------------------------------------------------------------------
// Attribution
// ---------------------------------------------------------------------------

/// The root processes of the panes of one session.
fn list_roots(panes: &[(String, u32)], name: &str) -> (roots: Vec<u32>)
    ensures
        roots@.to_set() == session_roots(sample::root_views(panes@), name@),
{
    let ghost views = sample::root_views(panes@);
    let mut roots: Vec<u32> = Vec::new();
    let mut i: usize = 0;
    while i < panes.len()
        invariant
            i <= panes@.len(),
            views == sample::root_views(panes@),
            forall|pid: u32| #[trigger]
                roots@.contains(pid) <==> views.take(i as int).contains((name@, pid)),
        decreases panes@.len() - i,
    {
        let ghost before = roots@;
        assert(views[i as int] == (panes@[i as int].0@, panes@[i as int].1));
        assert(views.take(i + 1) =~= views.take(i as int).push(views[i as int]));
        if text::same_text(panes[i].0.as_str(), name) {
            roots.push(panes[i].1);
        }
        assert forall|pid: u32| #[trigger] roots@.contains(pid) <==> views.take(i + 1).contains(
            (name@, pid),
        ) by {
            lemma_push_contains(views.take(i as int), views[i as int], (name@, pid));
            lemma_push_contains(before, panes@[i as int].1, pid);
            assert(before.contains(pid) <==> views.take(i as int).contains((name@, pid)));
        }
        i += 1;
    }
    assert(views.take(panes@.len() as int) =~= views);
    assert(roots@.to_set() =~= session_roots(views, name@));
    roots
}

/// Whether `name` is among the names.
fn holds_name(names: &Vec<String>, name: &str) -> (yes: bool)
    ensures
        yes == text::texts(names@).contains(name@),
{
    let ghost all = text::texts(names@);
    let mut i: usize = 0;
    while i < names.len()
        invariant
            i <= names@.len(),
            all == text::texts(names@),
            forall|k: int| 0 <= k < i ==> all[k] != name@,
        decreases names@.len() - i,
    {
        if text::same_text(names[i].as_str(), name) {
            assert(all[i as int] == name@);
            return true;
        }
        i += 1;
    }
    false
}

/// The names of the sessions of the panes, each once.
fn list_names(panes: &[(String, u32)]) -> (names: Vec<String>)
    ensures
        text::texts(names@) == session_order(sample::root_views(panes@)),
{
    let ghost views = sample::root_views(panes@);
    let mut names: Vec<String> = Vec::new();
    let mut i: usize = 0;
    assert(text::texts(names@) =~= session_order(views.take(0)));
    while i < panes.len()
        invariant
            i <= panes@.len(),
            views == sample::root_views(panes@),
            text::texts(names@) == session_order(views.take(i as int)),
        decreases panes@.len() - i,
    {
        let ghost before = text::texts(names@);
        assert(views[i as int] == (panes@[i as int].0@, panes@[i as int].1));
        assert(views.take(i + 1).drop_last() =~= views.take(i as int));
        if !holds_name(&names, panes[i].0.as_str()) {
            names.push(panes[i].0.clone());
            assert(text::texts(names@) =~= before.push(panes@[i as int].0@));
        }
        i += 1;
    }
    assert(views.take(panes@.len() as int) =~= views);
    names
}

/// What the first sessions have claimed holds, with a process, its children.
proof fn lemma_claimed_closed(
    table: Map<u32, sample::RowView>,
    panes: Seq<(Seq<char>, u32)>,
    n: int,
)
    ensures
        closed_under_children(table, claimed_by_first(table, panes, n)),
    decreases n,
{
    if n > 0 {
        lemma_claimed_closed(table, panes, n - 1);
        lemma_subtree_closed(table, session_roots(panes, session_order(panes)[n - 1]));
    }
}

/// Attributes every process to a session by walking each pane's process subtree; nothing when
/// the memory of a session does not fit 64 bits.
pub fn checked_build_sessions(procs: &HashMap<u32, ProcRow>, panes: &[(String, u32)]) -> (sessions:
    Option<Vec<SessionProcesses>>)
    ensures
        sessions is Some <==> memory_fits(
            sample::row_views(procs@),
            sample::root_views(panes@),
        ),
        sessions matches Some(list) ==> attributes(
            sample::row_views(procs@),
            sample::root_views(panes@),
            list@,
        ),
{
    let ghost table = sample::row_views(procs@);
    let ghost views = sample::root_views(panes@);
    let index = index_children(procs);
    let names = list_names(panes);
    let mut claimed: HashSet<u32> = HashSet::new();
    let mut sessions: Vec<SessionProcesses> = Vec::new();
    let mut i: usize = 0;
    assert(claimed@ =~= claimed_by_first(table, views, 0));
    while i < names.len()
        invariant
            i <= names@.len(),
            table == sample::row_views(procs@),
            views == sample::root_views(panes@),
            indexes_children(index@, table),
            text::texts(names@) == session_order(views),
            claimed@ == claimed_by_first(table, views, i as int),
            sessions@.len() == i,
            forall|k: int|
                0 <= k < i ==> session_owns(table, views, k, #[trigger] sessions@[k]),
            forall|k: int| 0 <= k < i ==> #[trigger] session_fits(table, views, k),
        decreases names@.len() - i,
    {
        assert(text::texts(names@)[i as int] == names@[i as int]@);
        let roots = list_roots(panes, names[i].as_str());
        proof {
            lemma_claimed_closed(table, views, i as int);
        }
        let ghost before = claimed@;
        let claim = claim_subtree(procs, &index, &roots, &mut claimed);
        assert(newly_claimed(table, roots@.to_set(), before) == session_pids(
            table,
            views,
            i as int,
        ));
        match claim {
            Some(claim) => {
                assert(session_fits(table, views, i as int));
                sessions.push(
                    SessionProcesses {
                        name: names[i].clone(),
                        mem_kb: claim.mem_kb,
                        processes: claim.processes,
                    },
                );
                assert(session_owns(table, views, i as int, sessions@[i as int]));
            },
            None => {
                assert(!session_fits(table, views, i as int));
                return None;
            },
        }
        i += 1;
    }
    Some(sessions)
}

/// Attribute every process to a session by walking each pane's process subtree.
///
/// Each pane contributes its root process plus all descendants; a process is counted once, so
/// sibling panes of the same session never double-count. A process below the panes of several
/// sessions goes to the one that comes up first.
pub fn build_sessions(procs: &HashMap<u32, ProcRow>, panes: &[(String, u32)]) -> (sessions: Vec<
    SessionProcesses,
>)
    requires
        memory_fits(sample::row_views(procs@), sample::root_views(panes@)),
    ensures
        attributes(sample::row_views(procs@), sample::root_views(panes@), sessions@),
{
    match checked_build_sessions(procs, panes) {
        Some(sessions) => sessions,
        None => Vec::new(),
    }
}

/// A fresh sample of every tmux session and its processes, out of the process table and tmux's
/// list of panes. With an empty table there is nothing to show, and no session; nothing comes
/// back when the memory of a session does not fit 64 bits.
pub fn collect(procs: &HashMap<u32, ProcRow>, raw_panes: &str) -> (sessions: Option<
    Vec<SessionProcesses>,
>)
    ensures
        procs@.dom().is_empty() ==> (sessions matches Some(list) && list@.len() == 0),
        !procs@.dom().is_empty() ==> {
            let table = sample::row_views(procs@);
            let panes = sample::pane_roots(text::lines(raw_panes@));
            &&& sessions is Some <==> memory_fits(table, panes)
            &&& sessions matches Some(list) ==> attributes(table, panes, list@)
        },
{
    if procs.len() == 0 {
        return Some(Vec::new());
    }
    let panes = sample::parse_panes(raw_panes);
    checked_build_sessions(procs, &panes)
}

} // verus!
