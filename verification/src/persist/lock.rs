//! The lock that admits one background saver at a time.

use vstd::prelude::*;

use crate::text;

verus! {

/// File under the state directory that holds the saver's process id.
pub const LOCK_FILE: &'static str = "saver.pid";

/// File beside the lock whose own lock, the system's, is the guard: claims take it, so that they
/// are made one at a time.
pub const GUARD_FILE: &'static str = "saver.guard";

/// How often a claim tries to create the lock file.
pub const LOCK_TRIES: u32 = 5;

/// What a claim wants done next, or how it ended.
#[derive(Debug, Clone, Copy, PartialEq, Eq, Structural)]
pub enum LockStep {
    /// Take the guard, waiting for the claim that has it to end. It is held until this claim
    /// ends, or the process does.
    Guard,
    /// Create the lock file, which must not exist, with the process id in it from the start.
    Open,
    /// Find out whether a process is alive.
    Probe { pid: u32 },
    /// Remove the lock file that a crashed saver left.
    Remove,
    /// The lock is held.
    Granted,
    /// Another live saver holds the lock, or the file cannot be had.
    Refused,
}

/// What came of a step.
#[derive(Debug)]
pub enum LockReply {
    /// The guard was taken.
    Guarded,
    /// The file was created.
    Created,
    /// The file exists already; what it holds, if it can be read.
    Exists { contents: Option<String> },
    /// The file could not be created for another reason.
    OpenFailed,
    /// Whether the process is alive.
    Alive { alive: bool },
    /// Whether the file was removed.
    Removed { removed: bool },
}

/// What a reply says.
#[verifier::ext_equal]
pub enum ReplyView {
    Guarded,
    Created,
    Exists { contents: Option<Seq<char>> },
    OpenFailed,
    Alive { alive: bool },
    Removed { removed: bool },
}

impl View for LockReply {
    type V = ReplyView;

    open spec fn view(&self) -> ReplyView {
        match self {
            LockReply::Guarded => ReplyView::Guarded,
            LockReply::Created => ReplyView::Created,
            LockReply::Exists { contents } => ReplyView::Exists {
                contents: text::opt_text(*contents),
            },
            LockReply::OpenFailed => ReplyView::OpenFailed,
            LockReply::Alive { alive } => ReplyView::Alive { alive: *alive },
            LockReply::Removed { removed } => ReplyView::Removed { removed: *removed },
        }
    }
}

/// A claim on the lock.
#[derive(Debug, Clone, Copy, PartialEq, Eq, Structural)]
pub struct LockClaim {
    /// How many tries are left, with the one in progress.
    pub tries: u32,
    /// What to do next.
    pub step: LockStep,
}

/// The holder that the lock file names: a process id, with white space around it or not.
pub open spec fn holder(contents: Option<Seq<char>>) -> Option<u32> {
    match contents {
        Some(raw) => match text::unsigned(text::trim(raw), u32::MAX as nat) {
            Some(pid) => Some(pid as u32),
            None => None,
        },
        None => None,
    }
}

/// Reads the holder from the contents of the lock file.
fn read_holder(contents: &Option<String>) -> (pid: Option<u32>)
    ensures
        pid == holder(text::opt_text(*contents)),
{
    match contents {
        Some(raw) => text::parse_u32(&text::trimmed(&text::chars_of(raw.as_str()))),
        None => None,
    }
}

/// Whether a reply answers a step.
pub open spec fn answers(reply: ReplyView, step: LockStep) -> bool {
    match step {
        LockStep::Guard => reply is Guarded,
        LockStep::Open => reply is Created || reply is Exists || reply is OpenFailed,
        LockStep::Probe { .. } => reply is Alive,
        LockStep::Remove => reply is Removed,
        _ => false,
    }
}

/// The step that follows a reply, while `tries` are left.
///
/// A file that names a live process refuses the claim. A file that names none, or a dead one,
/// is stale: it is removed, and the claim tries again while it may.
pub open spec fn next_step(tries: u32, reply: ReplyView) -> LockStep {
    match reply {
        ReplyView::Guarded => LockStep::Open,
        ReplyView::Created => LockStep::Granted,
        ReplyView::Exists { contents } => match holder(contents) {
            Some(pid) => LockStep::Probe { pid },
            None => LockStep::Remove,
        },
        ReplyView::OpenFailed => LockStep::Refused,
        ReplyView::Alive { alive } => if alive {
            LockStep::Refused
        } else {
            LockStep::Remove
        },
        ReplyView::Removed { removed } => if removed && tries > 1 {
            LockStep::Open
        } else {
            LockStep::Refused
        },
    }
}

/// The claim after a reply: one try is used up by a removal that succeeded.
pub open spec fn next_claim(claim: LockClaim, reply: ReplyView) -> LockClaim {
    LockClaim {
        tries: if reply == (ReplyView::Removed { removed: true }) {
            (claim.tries - 1) as u32
        } else {
            claim.tries
        },
        step: next_step(claim.tries, reply),
    }
}

/// A claim that begins.
pub open spec fn first_claim() -> LockClaim {
    LockClaim { tries: LOCK_TRIES, step: LockStep::Guard }
}

impl LockClaim {
    /// Whether the claim can go on: there is a try in progress.
    pub open spec fn wf(self) -> bool {
        &&& self.tries <= LOCK_TRIES
        &&& !self.over() ==> self.tries >= 1
    }

    /// How much of the claim is left at most.
    pub open spec fn remaining(self) -> nat {
        let phase: nat = match self.step {
            LockStep::Guard => 4,
            LockStep::Open => 3,
            LockStep::Probe { .. } => 2,
            LockStep::Remove => 1,
            _ => 0,
        };
        if phase == 0 {
            0
        } else {
            (3 * (self.tries - 1) + phase) as nat
        }
    }

    /// Whether the claim has ended.
    pub open spec fn over(self) -> bool {
        self.step == LockStep::Granted || self.step == LockStep::Refused
    }

    /// Begins a claim.
    pub fn start() -> (claim: LockClaim)
        ensures
            claim == first_claim(),
            claim.wf(),
    {
        LockClaim { tries: LOCK_TRIES, step: LockStep::Guard }
    }

    /// Goes on with the claim after what came of its step.
    pub fn next(self, reply: LockReply) -> (claim: LockClaim)
        requires
            self.wf(),
            answers(reply@, self.step),
        ensures
            claim == next_claim(self, reply@),
            claim.wf(),
            claim.remaining() < self.remaining(),
    {
        match reply {
            LockReply::Guarded => LockClaim { tries: self.tries, step: LockStep::Open },
            LockReply::Created => LockClaim { tries: self.tries, step: LockStep::Granted },
            LockReply::Exists { contents } => {
                let step = match read_holder(&contents) {
                    Some(pid) => LockStep::Probe { pid },
                    None => LockStep::Remove,
                };
                LockClaim { tries: self.tries, step }
            },
            LockReply::OpenFailed => LockClaim { tries: self.tries, step: LockStep::Refused },
            LockReply::Alive { alive } => {
                let step = if alive {
                    LockStep::Refused
                } else {
                    LockStep::Remove
                };
                LockClaim { tries: self.tries, step }
            },
            LockReply::Removed { removed } => {
                if !removed {
                    LockClaim { tries: self.tries, step: LockStep::Refused }
                } else if self.tries > 1 {
                    LockClaim { tries: self.tries - 1, step: LockStep::Open }
                } else {
                    LockClaim { tries: 0, step: LockStep::Refused }
                }
            },
        }
    }
}

/// What the holder's lock file holds.
pub fn lock_contents(pid: u32) -> (contents: String)
    ensures
        contents@ == text::decimal(pid as nat),
{
    let mut contents = String::new();
    text::push_decimal(&mut contents, pid as u64);
    contents
}

/// Whether a process is alive: where the system lists processes as files, when it has one;
/// elsewhere when signalling it succeeded.
pub open spec fn process_alive(entry: Option<bool>, signalled: Option<bool>) -> bool {
    match entry {
        Some(exists) => exists,
        None => signalled == Some(true),
    }
}

/// Whether a process is alive. `entry` says whether `/proc` has its entry, where there is a
/// `/proc`; `signalled` whether `kill -0` succeeded, where it could be run.
pub fn pid_alive(entry: Option<bool>, signalled: Option<bool>) -> (alive: bool)
    ensures
        alive == process_alive(entry, signalled),
{
    match entry {
        Some(exists) => exists,
        None => match signalled {
            Some(success) => success,
            None => false,
        },
    }
}

/// The entry of a process under `/proc`.
pub fn proc_entry(pid: u32) -> (path: String)
    ensures
        path@ == "/proc/"@ + text::decimal(pid as nat),
{
    let mut path = "/proc/".to_owned();
    text::push_decimal(&mut path, pid as u64);
    path
}

/// A claim has ended exactly when nothing is left of it; every step leaves less, so each ends.
pub proof fn law_claims_end(claim: LockClaim)
    requires
        claim.wf(),
    ensures
        claim.over() <==> claim.remaining() == 0,
{
}

/// The lock is granted only by creating its file.
pub proof fn law_granted_only_by_creating(claim: LockClaim, reply: ReplyView)
    requires
        claim.wf(),
        answers(reply, claim.step),
    ensures
        next_claim(claim, reply).step == LockStep::Granted <==> reply == ReplyView::Created,
{
}

/// A lock file is removed only when it names no process, or one that was found dead.
pub proof fn law_live_holder_keeps_the_lock(claim: LockClaim, reply: ReplyView)
    requires
        claim.wf(),
        answers(reply, claim.step),
    ensures
        next_claim(claim, reply).step == LockStep::Remove <==> {
            ||| claim.step is Probe && reply == ReplyView::Alive { alive: false }
            ||| claim.step == LockStep::Open && reply is Exists && holder(
                reply->contents,
            ) is None
        },
{
}

/// A second claim is refused while the first holder is alive: the file that the holder wrote
/// leads to its process, and its being alive to a refusal.
pub proof fn law_held_lock_refuses_a_second_claim(pid: u32, claim: LockClaim)
    requires
        claim.wf(),
        claim.step == LockStep::Open,
    ensures
        ({
            let contents = Some(text::decimal(pid as nat));
            let asked = next_claim(claim, ReplyView::Exists { contents });
            &&& asked.step == LockStep::Probe { pid }
            &&& next_claim(asked, ReplyView::Alive { alive: true }).step == LockStep::Refused
        }),
{
    text::law_decimal_reads_back(pid as nat, u32::MAX as nat);
}

/// A lock that a dead process left is reclaimed: its file is removed, and created anew.
pub proof fn law_stale_lock_is_reclaimed(pid: u32)
    ensures
        ({
            let start = next_claim(first_claim(), ReplyView::Guarded);
            let contents = Some(text::decimal(pid as nat));
            let asked = next_claim(start, ReplyView::Exists { contents });
            let stale = next_claim(asked, ReplyView::Alive { alive: false });
            let again = next_claim(stale, ReplyView::Removed { removed: true });
            &&& stale.step == LockStep::Remove
            &&& again.step == LockStep::Open
            &&& next_claim(again, ReplyView::Created).step == LockStep::Granted
        }),
{
    text::law_decimal_reads_back(pid as nat, u32::MAX as nat);
}

// ---------------------------------------------------------------------------
// Claims at the same time
// ---------------------------------------------------------------------------

/// Claims on one lock that are made at the same time.
#[verifier::ext_equal]
pub struct Race {
    /// The claim that has the guard.
    pub guard: Option<int>,
    /// What the lock file holds, while there is one.
    pub file: Option<Seq<char>>,
    /// The claims.
    pub claims: Seq<LockClaim>,
    /// Which claims have found the file there and are about to read it.
    pub found: Seq<bool>,
}

/// The race after claim `i` has got a reply; its end frees the guard.
pub open spec fn replied(race: Race, i: int, reply: ReplyView) -> Race {
    let next = next_claim(race.claims[i], reply);
    Race {
        guard: if next.over() {
            None
        } else {
            race.guard
        },
        claims: race.claims.update(i, next),
        ..race
    }
}

/// The race after claim `i`, of process `pids[i]`, has done its next thing: taken the guard if
/// it is free, created the lock file with its process id, found it there, read it, looked for
/// its holder among the live processes, or removed it.
pub open spec fn race_step(race: Race, pids: Seq<u32>, alive: Set<u32>, i: int) -> Race {
    match race.claims[i].step {
        LockStep::Guard => if race.guard is None {
            Race { guard: Some(i), ..replied(race, i, ReplyView::Guarded) }
        } else {
            race
        },
        LockStep::Open => if race.found[i] {
            Race {
                found: race.found.update(i, false),
                ..replied(race, i, ReplyView::Exists { contents: race.file })
            }
        } else if race.file is None {
            Race {
                file: Some(text::decimal(pids[i] as nat)),
                ..replied(race, i, ReplyView::Created)
            }
        } else {
            Race { found: race.found.update(i, true), ..race }
        },
        LockStep::Probe { pid } => replied(
            race,
            i,
            ReplyView::Alive { alive: alive.contains(pid) },
        ),
        LockStep::Remove => Race {
            file: None,
            ..replied(race, i, ReplyView::Removed { removed: race.file is Some })
        },
        _ => race,
    }
}

/// The race after the claims have gone on in the order of `turns`.
pub open spec fn race_after(race: Race, pids: Seq<u32>, alive: Set<u32>, turns: Seq<int>) -> Race
    decreases turns.len(),
{
    if turns.len() == 0 {
        race
    } else {
        race_step(race_after(race, pids, alive, turns.drop_last()), pids, alive, turns.last())
    }
}

/// The race before any of `n` claims has done anything.
pub open spec fn race_start(file: Option<Seq<char>>, n: nat) -> Race {
    Race {
        guard: None,
        file,
        claims: Seq::new(n, |i: int| first_claim()),
        found: Seq::new(n, |i: int| false),
    }
}

/// Whether a lock file names a live process.
pub open spec fn held(file: Option<Seq<char>>, alive: Set<u32>) -> bool {
    holder(file) matches Some(pid) && alive.contains(pid)
}

/// Whether a claim has been granted.
pub open spec fn granted(race: Race, i: int) -> bool {
    race.claims[i].step == LockStep::Granted
}

/// What holds of a claim throughout a race.
spec fn claim_fair(race: Race, alive: Set<u32>, i: int) -> bool {
    let claim = race.claims[i];
    &&& race.guard == Some(i) <==> !claim.over() && claim.step != LockStep::Guard
    &&& claim.over() ==> held(race.file, alive)
    &&& race.found[i] ==> claim.step == LockStep::Open && race.file is Some
    &&& claim.step == LockStep::Guard || race.file is Some ==> claim.over() || claim.tries
        == LOCK_TRIES
    &&& claim.step is Probe ==> race.file is Some && claim.step == (LockStep::Probe {
        pid: holder(race.file)->0,
    }) && holder(race.file) is Some
    &&& claim.step == LockStep::Remove ==> race.file is Some && !held(race.file, alive)
}

/// What holds throughout a race among live processes.
spec fn fair(race: Race, pids: Seq<u32>, alive: Set<u32>, was_held: bool) -> bool {
    &&& race.claims.len() == pids.len()
    &&& race.found.len() == pids.len()
    &&& race.guard matches Some(g) ==> 0 <= g < pids.len()
    &&& was_held ==> held(race.file, alive)
    &&& forall|i: int| 0 <= i < pids.len() ==> #[trigger] claim_fair(race, alive, i)
    &&& forall|i: int|
        0 <= i < pids.len() && #[trigger] granted(race, i) ==> !was_held && held(race.file, alive)
    &&& forall|i: int, j: int|
        0 <= i < pids.len() && 0 <= j < pids.len() && #[trigger] granted(race, i)
            && #[trigger] granted(race, j) ==> i == j
    &&& held(race.file, alive) && !was_held ==> exists|i: int|
        0 <= i < pids.len() && #[trigger] granted(race, i)
}

proof fn lemma_fair_step(race: Race, pids: Seq<u32>, alive: Set<u32>, was_held: bool, k: int)
    requires
        fair(race, pids, alive, was_held),
        forall|i: int| 0 <= i < pids.len() ==> alive.contains(#[trigger] pids[i]),
        0 <= k < pids.len(),
    ensures
        fair(race_step(race, pids, alive, k), pids, alive, was_held),
{
    let next = race_step(race, pids, alive, k);
    let claim = race.claims[k];
    text::law_decimal_reads_back(pids[k] as nat, u32::MAX as nat);
    assert(alive.contains(pids[k]));
    assert(claim_fair(race, alive, k));
    assert forall|i: int| 0 <= i < pids.len() implies #[trigger] claim_fair(next, alive, i) by {
        assert(claim_fair(race, alive, i));
        if i != k {
            assert(next.claims[i] == race.claims[i]);
            assert(next.found[i] == race.found[i]);
        }
    }
    if claim.step == LockStep::Open && !race.found[k] && race.file is None {
        assert forall|i: int| 0 <= i < pids.len() implies (#[trigger] granted(next, i) <==> i
            == k) by {
            if i != k {
                assert(next.claims[i] == race.claims[i]);
                assert(!granted(race, i));
            }
        }
        assert(granted(next, k));
    } else {
        assert forall|i: int| 0 <= i < pids.len() implies #[trigger] granted(next, i) == granted(
            race,
            i,
        ) by {
            if i != k {
                assert(next.claims[i] == race.claims[i]);
            }
        }
        if claim.step == LockStep::Remove {
            assert(!held(race.file, alive));
        } else {
            assert(next.file == race.file);
        }
        if held(next.file, alive) && !was_held {
            let i = choose|i: int| 0 <= i < pids.len() && #[trigger] granted(race, i);
            assert(granted(next, i));
        }
    }
}

proof fn lemma_fair(file: Option<Seq<char>>, pids: Seq<u32>, alive: Set<u32>, turns: Seq<int>)
    requires
        forall|i: int| 0 <= i < pids.len() ==> alive.contains(#[trigger] pids[i]),
        forall|t: int| 0 <= t < turns.len() ==> 0 <= #[trigger] turns[t] < pids.len(),
    ensures
        fair(
            race_after(race_start(file, pids.len()), pids, alive, turns),
            pids,
            alive,
            held(file, alive),
        ),
    decreases turns.len(),
{
    let start = race_start(file, pids.len());
    if turns.len() == 0 {
        assert forall|i: int| 0 <= i < pids.len() implies !#[trigger] granted(start, i) by {}
    } else {
        let before = turns.drop_last();
        assert forall|t: int| 0 <= t < before.len() implies 0 <= #[trigger] before[t]
            < pids.len() by {
            assert(before[t] == turns[t]);
        }
        lemma_fair(file, pids, alive, before);
        assert(0 <= turns[turns.len() - 1] < pids.len());
        lemma_fair_step(
            race_after(start, pids, alive, before),
            pids,
            alive,
            held(file, alive),
            turns.last(),
        );
    }
}

/// At most one saver holds the lock: of any number of live processes that claim it at the same
/// time, with their steps in any order, no two are granted it, whatever the lock file holds.
/// Where a live process holds the lock already none is, and else one is by the time that any
/// claim has ended.
pub proof fn law_one_of_many_claims_is_granted(
    file: Option<Seq<char>>,
    pids: Seq<u32>,
    alive: Set<u32>,
    turns: Seq<int>,
)
    requires
        forall|i: int| 0 <= i < pids.len() ==> alive.contains(#[trigger] pids[i]),
        forall|t: int| 0 <= t < turns.len() ==> 0 <= #[trigger] turns[t] < pids.len(),
    ensures
        ({
            let race = race_after(race_start(file, pids.len()), pids, alive, turns);
            &&& forall|i: int, j: int|
                0 <= i < pids.len() && 0 <= j < pids.len() && #[trigger] granted(race, i)
                    && #[trigger] granted(race, j) ==> i == j
            &&& held(file, alive) ==> forall|i: int|
                0 <= i < pids.len() ==> !#[trigger] granted(race, i)
            &&& !held(file, alive) && (exists|k: int|
                0 <= k < pids.len() && (#[trigger] race.claims[k]).over()) ==> exists|i: int|
                0 <= i < pids.len() && #[trigger] granted(race, i)
        }),
{
    lemma_fair(file, pids, alive, turns);
    let race = race_after(race_start(file, pids.len()), pids, alive, turns);
    if exists|k: int| 0 <= k < pids.len() && (#[trigger] race.claims[k]).over() {
        let k = choose|k: int| 0 <= k < pids.len() && (#[trigger] race.claims[k]).over();
        assert(claim_fair(race, alive, k));
    }
}

} // verus!
