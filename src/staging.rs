//! The protocol one run follows over the shared staging directory: wait
//! while the marker is there, claim the directory, stage, enumerate,
//! convert each file, and clear the directory, which also frees it.
//!
//! Claiming is one atomic action: create the directory if it is absent
//! and create the marker only if it is absent, so that of runs that race
//! for the directory exactly one wins and the others go back to waiting.
//! Waiting is bounded; a run that waits too long gives up with
//! `LockTimeout`. Once the directory is claimed, every way out of the run
//! passes through the teardown, which removes the marker.
//!
//! The decisions are a function from the current phase and the outcome
//! of the last action to the next phase and action; the caller performs
//! the actions.
use vstd::prelude::*;

verus! {

/// Where a run stands.
#[derive(PartialEq, Eq, Structural, Clone, Copy, Debug)]
pub enum Phase {
    /// Looking at the staging directory; the run may still wait `waits_left` times.
    Locking { waits_left: usize },
    /// The claim of the directory is under way.
    Acquiring { waits_left: usize },
    /// The input is being copied into the directory.
    Staging,
    /// The staged files are being enumerated.
    Collecting,
    /// File `next` of `total` is being converted; `failed` conversions failed so far.
    Converting { next: usize, total: usize, failed: usize },
    /// The directory is being cleared; `failed` conversions failed, and the
    /// run ends with `exit_code` whatever the teardown's outcome.
    TearingDown { failed: usize, exit_code: u8 },
    /// The run is over with the given exit code.
    Finished { exit_code: u8 },
}

/// What the caller reports after performing an action.
#[derive(PartialEq, Eq, Structural, Clone, Copy, Debug)]
pub enum Event {
    /// The staging directory was looked at.
    Observed { dir_exists: bool, marker_present: bool },
    /// The atomic claim ran; `won` tells whether this run created the marker.
    Claimed { won: bool },
    /// The action completed.
    Succeeded,
    /// The action failed.
    Failed,
    /// Enumeration found `count` files.
    Collected { count: usize },
    /// The conversion of the current file completed or failed.
    Converted { ok: bool },
}

/// What the caller does next.
#[derive(PartialEq, Eq, Structural, Clone, Copy, Debug)]
pub enum Action {
    /// Wait one interval, then look at the staging directory again.
    Sleep,
    /// Create the staging directory if it is absent, then create the
    /// marker in it in one step that fails when the marker is already there.
    Acquire,
    /// Copy the input into the staging directory.
    Stage,
    /// Enumerate the staged files.
    Collect,
    /// Convert the enumerated file with this index.
    Convert { index: usize },
    /// Clear the staging directory's contents, marker included.
    Teardown,
    /// Give up waiting for the marker to go, and end the process with 1.
    LockTimeout,
    /// End the process with this exit code.
    Exit { code: u8 },
}

/// Counters of a phase are consistent.
pub open spec fn phase_wf(p: Phase) -> bool {
    match p {
        Phase::Converting { next, total, failed } => next < total && failed <= next,
        _ => true,
    }
}

/// After a wait, the run waits again if it may, and gives up otherwise.
pub open spec fn wait_or_give_up(waits_left: usize) -> (Phase, Action) {
    if waits_left == 0 {
        (Phase::Finished { exit_code: 1 }, Action::LockTimeout)
    } else {
        (Phase::Locking { waits_left: (waits_left - 1) as usize }, Action::Sleep)
    }
}

/// The protocol's transition table; `None` for an event that does not
/// belong to the phase.
pub open spec fn transition(p: Phase, e: Event) -> Option<(Phase, Action)> {
    match (p, e) {
        (Phase::Locking { waits_left }, Event::Observed { dir_exists, marker_present }) => if marker_present {
            Some(wait_or_give_up(waits_left))
        } else {
            Some((Phase::Acquiring { waits_left }, Action::Acquire))
        },
        (Phase::Acquiring { waits_left }, Event::Claimed { won }) => if won {
            Some((Phase::Staging, Action::Stage))
        } else {
            Some(wait_or_give_up(waits_left))
        },
        (Phase::Acquiring { .. }, Event::Failed) => Some((Phase::Finished { exit_code: 1 }, Action::Exit { code: 1 })),
        (Phase::Staging, Event::Succeeded) => Some((Phase::Collecting, Action::Collect)),
        (Phase::Staging, Event::Failed) | (Phase::Collecting, Event::Failed) => Some(
            (Phase::TearingDown { failed: 0, exit_code: 1 }, Action::Teardown),
        ),
        (Phase::Collecting, Event::Collected { count }) => if count == 0 {
            Some((Phase::TearingDown { failed: 0, exit_code: 0 }, Action::Teardown))
        } else {
            Some((Phase::Converting { next: 0, total: count, failed: 0 }, Action::Convert { index: 0 }))
        },
        (Phase::Converting { next, total, failed }, Event::Converted { ok }) => {
            let f = if ok { failed } else { (failed + 1) as usize };
            if next + 1 < total {
                Some((Phase::Converting { next: (next + 1) as usize, total, failed: f }, Action::Convert { index: (next + 1) as usize }))
            } else {
                Some((Phase::TearingDown { failed: f, exit_code: 0 }, Action::Teardown))
            }
        },
        (Phase::TearingDown { exit_code, .. }, Event::Succeeded) | (Phase::TearingDown { exit_code, .. }, Event::Failed) => Some(
            (Phase::Finished { exit_code }, Action::Exit { code: exit_code }),
        ),
        _ => None,
    }
}

fn wait_or_give_up_exec(waits_left: usize) -> (r: (Phase, Action))
    ensures
        r == wait_or_give_up(waits_left),
{
    if waits_left == 0 {
        (Phase::Finished { exit_code: 1 }, Action::LockTimeout)
    } else {
        (Phase::Locking { waits_left: waits_left - 1 }, Action::Sleep)
    }
}

/// Decides the next phase and action of a run from the outcome of the
/// last action. Per-file failures are counted and never stop the batch;
/// a failed staging or enumeration still clears the directory before the
/// run exits with 1; a failed teardown does not change the exit code.
pub fn step(p: Phase, e: Event) -> (r: Option<(Phase, Action)>)
    requires
        phase_wf(p),
    ensures
        r == transition(p, e),
        r matches Some((q, _)) ==> phase_wf(q),
{
    match (p, e) {
        (Phase::Locking { waits_left }, Event::Observed { dir_exists, marker_present }) => if marker_present {
            Some(wait_or_give_up_exec(waits_left))
        } else {
            Some((Phase::Acquiring { waits_left }, Action::Acquire))
        },
        (Phase::Acquiring { waits_left }, Event::Claimed { won }) => if won {
            Some((Phase::Staging, Action::Stage))
        } else {
            Some(wait_or_give_up_exec(waits_left))
        },
        (Phase::Acquiring { .. }, Event::Failed) => Some((Phase::Finished { exit_code: 1 }, Action::Exit { code: 1 })),
        (Phase::Staging, Event::Succeeded) => Some((Phase::Collecting, Action::Collect)),
        (Phase::Staging, Event::Failed) | (Phase::Collecting, Event::Failed) => Some(
            (Phase::TearingDown { failed: 0, exit_code: 1 }, Action::Teardown),
        ),
        (Phase::Collecting, Event::Collected { count }) => if count == 0 {
            Some((Phase::TearingDown { failed: 0, exit_code: 0 }, Action::Teardown))
        } else {
            Some((Phase::Converting { next: 0, total: count, failed: 0 }, Action::Convert { index: 0 }))
        },
        (Phase::Converting { next, total, failed }, Event::Converted { ok }) => {
            let f = if ok { failed } else { failed + 1 };
            if next + 1 < total {
                Some((Phase::Converting { next: next + 1, total, failed: f }, Action::Convert { index: next + 1 }))
            } else {
                Some((Phase::TearingDown { failed: f, exit_code: 0 }, Action::Teardown))
            }
        },
        (Phase::TearingDown { exit_code, .. }, Event::Succeeded) | (Phase::TearingDown { exit_code, .. }, Event::Failed) => Some(
            (Phase::Finished { exit_code }, Action::Exit { code: exit_code }),
        ),
        _ => None,
    }
}

/// What the staging directory holds, as far as the protocol is concerned.
pub struct Area {
    pub exists: bool,
    pub marker: bool,
    pub has_content: bool,
}

/// What a run sees when it looks at the staging directory.
pub open spec fn observe(a: Area) -> Event {
    Event::Observed { dir_exists: a.exists, marker_present: a.marker }
}

/// Performs `act` on the directory in one indivisible step: gives what it
/// leaves of the directory and the event reported. `ok` is the outcome of
/// an action that can fail, `count` what an enumeration finds.
pub open spec fn respond(a: Area, act: Action, ok: bool, count: usize) -> (Area, Event) {
    match act {
        Action::Sleep => (a, observe(a)),
        Action::Acquire => if a.marker {
            (a, Event::Claimed { won: false })
        } else {
            (Area { exists: true, marker: true, ..a }, Event::Claimed { won: true })
        },
        Action::Stage => if ok {
            (Area { has_content: true, ..a }, Event::Succeeded)
        } else {
            (a, Event::Failed)
        },
        Action::Collect => if ok {
            (a, Event::Collected { count })
        } else {
            (a, Event::Failed)
        },
        Action::Convert { .. } => (a, Event::Converted { ok }),
        Action::Teardown => if ok {
            (Area { marker: false, has_content: false, ..a }, Event::Succeeded)
        } else {
            (a, Event::Failed)
        },
        _ => (a, Event::Succeeded),
    }
}

/// One run: its phase and the action it is about to perform.
pub struct Run {
    pub phase: Phase,
    pub pending: Action,
}

/// The pending action is the one the phase was entered with.
pub open spec fn run_wf(r: Run) -> bool {
    &&& phase_wf(r.phase)
    &&& match r.phase {
        Phase::Locking { .. } => r.pending is Sleep,
        Phase::Acquiring { .. } => r.pending is Acquire,
        Phase::Staging => r.pending is Stage,
        Phase::Collecting => r.pending is Collect,
        Phase::Converting { next, .. } => r.pending == Action::Convert { index: next },
        Phase::TearingDown { .. } => r.pending is Teardown,
        Phase::Finished { .. } => r.pending is Exit || r.pending is LockTimeout,
    }
}

/// A run that has not started: about to look at the directory.
pub open spec fn new_run(waits: usize) -> Run {
    Run { phase: Phase::Locking { waits_left: waits }, pending: Action::Sleep }
}

/// The run performs its pending action on `a` and takes the protocol's
/// next step; `None` when the run is over.
pub open spec fn run_step(r: Run, a: Area, ok: bool, count: usize) -> Option<(Run, Area)> {
    let (a2, e) = respond(a, r.pending, ok, count);
    match transition(r.phase, e) {
        Some((p, act)) => Some((Run { phase: p, pending: act }, a2)),
        None => None,
    }
}

/// The run has claimed the directory and not yet cleared it.
pub open spec fn holds(p: Phase) -> bool {
    p is Staging || p is Collecting || p is Converting || p is TearingDown
}

/// At most one of two runs holds the directory, and while one does the
/// marker is there.
pub open spec fn exclusive(r1: Run, r2: Run, a: Area) -> bool {
    &&& run_wf(r1)
    &&& run_wf(r2)
    &&& !(holds(r1.phase) && holds(r2.phase))
    &&& (holds(r1.phase) || holds(r2.phase)) ==> a.marker
}

proof fn lemma_step_keeps_exclusive(r1: Run, r2: Run, a: Area, ok: bool, count: usize)
    requires
        exclusive(r1, r2, a),
    ensures
        run_step(r1, a, ok, count) matches Some((r, a2)) ==> exclusive(r, r2, a2),
{
}

/// Two runs that share the staging directory never hold it at once,
/// however their steps interleave and however their actions turn out:
/// every step of either run keeps `exclusive`, which two new runs meet on
/// any directory.
pub proof fn acquisition_is_exclusive(r1: Run, r2: Run, a: Area, ok: bool, count: usize, waits: usize)
    requires
        exclusive(r1, r2, a),
    ensures
        exclusive(new_run(waits), new_run(waits), a),
        run_step(r1, a, ok, count) matches Some((r, a2)) ==> exclusive(r, r2, a2),
        run_step(r2, a, ok, count) matches Some((r, a2)) ==> exclusive(r1, r, a2),
{
    lemma_step_keeps_exclusive(r1, r2, a, ok, count);
    lemma_step_keeps_exclusive(r2, r1, a, ok, count);
}

/// Lets run `r` perform its actions over `a`, the `i`-th with outcome
/// `oks[i]`, until the outcomes or the run end. Gives the run, what is
/// left of the directory, and the actions the run decided on.
pub open spec fn play(r: Run, a: Area, oks: Seq<bool>, count: usize) -> (Run, Area, Seq<Action>)
    decreases oks.len(),
{
    if oks.len() == 0 {
        (r, a, Seq::empty())
    } else {
        match run_step(r, a, oks[0], count) {
            None => (r, a, Seq::empty()),
            Some((r2, a2)) => {
                let t = play(r2, a2, oks.drop_first(), count);
                (t.0, t.1, seq![r2.pending] + t.2)
            },
        }
    }
}

/// How many of the outcomes are failures.
pub open spec fn failures(outcomes: Seq<bool>) -> nat
    decreases outcomes.len(),
{
    if outcomes.len() == 0 {
        0
    } else {
        (if outcomes[0] { 0nat } else { 1nat }) + failures(outcomes.drop_first())
    }
}

/// The conversion requests for files `from` up to `total`, in order.
pub open spec fn converts(from: int, total: int) -> Seq<Action> {
    Seq::new((total - from) as nat, |i: int| Action::Convert { index: (from + i) as usize })
}

proof fn lemma_conversions(
    k: usize,
    total: usize,
    f: usize,
    a: Area,
    outcomes: Seq<bool>,
    rest: Seq<bool>,
)
    requires
        k < total,
        f <= k,
        outcomes.len() == total - k,
    ensures
        f + failures(outcomes) <= total,
        ({
            let r = play(Run { phase: Phase::Converting { next: k, total, failed: f }, pending: Action::Convert { index: k } }, a, outcomes + rest, total);
            let t = play(
                Run { phase: Phase::TearingDown { failed: (f + failures(outcomes)) as usize, exit_code: 0 }, pending: Action::Teardown },
                a,
                rest,
                total,
            );
            r == (t.0, t.1, converts(k + 1, total as int) + seq![Action::Teardown] + t.2)
        }),
    decreases outcomes.len(),
{
    let oks = outcomes + rest;
    assert(oks[0] == outcomes[0]);
    let tail = outcomes.drop_first();
    assert(oks.drop_first() =~= tail + rest);
    let f1: usize = if outcomes[0] { f } else { (f + 1) as usize };
    if k + 1 < total {
        lemma_conversions((k + 1) as usize, total, f1, a, tail, rest);
        assert(converts(k + 1, total as int) =~= seq![Action::Convert { index: (k + 1) as usize }]
            + converts(k + 2, total as int));
        let t = play(
            Run { phase: Phase::TearingDown { failed: (f1 + failures(tail)) as usize, exit_code: 0 }, pending: Action::Teardown },
            a,
            rest,
            total,
        );
        assert(seq![Action::Convert { index: (k + 1) as usize }] + (converts(k + 2, total as int)
            + seq![Action::Teardown] + t.2) =~= converts(k + 1, total as int) + seq![Action::Teardown]
            + t.2);
    } else {
        assert(tail.len() == 0);
        assert(tail + rest =~= rest);
        assert(converts(k + 1, total as int) =~= Seq::<Action>::empty());
        let t = play(
            Run { phase: Phase::TearingDown { failed: f1, exit_code: 0 }, pending: Action::Teardown },
            a,
            rest,
            total,
        );
        assert(seq![Action::Teardown] + t.2 =~= converts(k + 1, total as int) + seq![Action::Teardown] + t.2);
    }
}

/// The outcomes of a run that looks, claims, stages and enumerates
/// successfully, converts with `outcomes`, and tears down with `teardown_ok`.
pub open spec fn run_outcomes(outcomes: Seq<bool>, teardown_ok: bool) -> Seq<bool> {
    seq![true, true, true, true] + outcomes + seq![teardown_ok]
}

/// The actions of such a run when it finds `count` files.
pub open spec fn run_actions(count: usize) -> Seq<Action> {
    seq![Action::Acquire, Action::Stage, Action::Collect] + converts(0, count as int) + seq![
        Action::Teardown,
        Action::Exit { code: 0 },
    ]
}

/// The staging directory after a run that cleared it: present, unmarked, empty.
pub open spec fn free_area() -> Area {
    Area { exists: true, marker: false, has_content: false }
}

/// The staging directory after a run whose teardown failed.
pub open spec fn left_area(teardown_ok: bool) -> Area {
    if teardown_ok {
        free_area()
    } else {
        Area { exists: true, marker: true, has_content: true }
    }
}

proof fn lemma_run(a: Area, waits: usize, count: usize, outcomes: Seq<bool>, teardown_ok: bool)
    requires
        !a.marker,
        outcomes.len() == count,
    ensures
        play(new_run(waits), a, run_outcomes(outcomes, teardown_ok), count) == (
            Run { phase: Phase::Finished { exit_code: 0 }, pending: Action::Exit { code: 0 } },
            left_area(teardown_ok),
            run_actions(count),
        ),
{
    let end = seq![teardown_ok];
    let o0 = run_outcomes(outcomes, teardown_ok);
    let o1 = seq![true, true, true] + outcomes + end;
    let o2 = seq![true, true] + outcomes + end;
    let o3 = seq![true] + outcomes + end;
    let o4 = outcomes + end;
    assert(o0.drop_first() =~= o1);
    assert(o1.drop_first() =~= o2);
    assert(o2.drop_first() =~= o3);
    assert(o3.drop_first() =~= o4);
    let a1 = Area { exists: true, marker: true, ..a };
    let a2 = Area { has_content: true, ..a1 };
    let fin_run = Run { phase: Phase::Finished { exit_code: 0 }, pending: Action::Exit { code: 0 } };
    let td = Run { phase: Phase::TearingDown { failed: failures(outcomes) as usize, exit_code: 0 }, pending: Action::Teardown };
    let fin = play(td, a2, end, count);
    assert(end.drop_first() =~= Seq::<bool>::empty());
    let done = play(fin_run, left_area(teardown_ok), end.drop_first(), count);
    assert(done == (fin_run, left_area(teardown_ok), Seq::<Action>::empty()));
    assert(seq![Action::Exit { code: 0 }] + done.2 =~= seq![Action::Exit { code: 0 }]);
    assert(fin == (fin_run, left_area(teardown_ok), seq![Action::Exit { code: 0 }]));
    let r1 = Run { phase: Phase::Acquiring { waits_left: waits }, pending: Action::Acquire };
    let r2 = Run { phase: Phase::Staging, pending: Action::Stage };
    let r3 = Run { phase: Phase::Collecting, pending: Action::Collect };
    let p3 = play(r3, a2, o3, count);
    if count == 0 {
        assert(outcomes =~= Seq::<bool>::empty());
        assert(o4 =~= end);
        assert(failures(outcomes) == 0);
        assert(p3 == (fin.0, fin.1, seq![Action::Teardown] + fin.2));
        assert(run_actions(count) =~= seq![Action::Acquire, Action::Stage, Action::Collect] + p3.2);
    } else {
        lemma_conversions(0, count, 0, a2, outcomes, end);
        let c0 = Run { phase: Phase::Converting { next: 0, total: count, failed: 0 }, pending: Action::Convert { index: 0 } };
        let pc = play(c0, a2, o4, count);
        assert(pc == (fin.0, fin.1, converts(1, count as int) + seq![Action::Teardown] + fin.2));
        assert(p3 == (fin.0, fin.1, seq![Action::Convert { index: 0 }] + pc.2));
        assert(run_actions(count) =~= seq![Action::Acquire, Action::Stage, Action::Collect] + p3.2);
    }
    let p2 = play(r2, a1, o2, count);
    assert(p2 == (p3.0, p3.1, seq![Action::Collect] + p3.2));
    let p1 = play(r1, a, o1, count);
    assert(p1 == (p3.0, p3.1, seq![Action::Stage] + p2.2));
    assert(seq![Action::Acquire] + (seq![Action::Stage] + (seq![Action::Collect] + p3.2))
        =~= seq![Action::Acquire, Action::Stage, Action::Collect] + p3.2);
}

/// A run on an unmarked staging directory, present or absent, claims it
/// with one action that creates it when absent and writes the marker, and
/// claims nothing again; once its teardown succeeds the marker is gone.
pub proof fn unmarked_directory_is_claimed_once(a: Area, waits: usize, count: usize, outcomes: Seq<bool>, teardown_ok: bool)
    requires
        !a.marker,
        outcomes.len() == count,
    ensures
        ({
            let r = play(new_run(waits), a, run_outcomes(outcomes, teardown_ok), count);
            &&& r.2[0] == Action::Acquire
            &&& respond(a, Action::Acquire, true, count).0 == Area { exists: true, marker: true, ..a }
            &&& forall|i: int| 1 <= i < r.2.len() ==> r.2[i] != Action::Acquire
            &&& teardown_ok ==> !r.1.marker
        }),
{
    lemma_run(a, waits, count, outcomes, teardown_ok);
}

/// A failed conversion does not stop the batch: every file is converted
/// in order, the directory is cleared afterwards, and the run exits with 0.
pub proof fn failures_do_not_stop_the_batch(a: Area, waits: usize, count: usize, outcomes: Seq<bool>, teardown_ok: bool)
    requires
        !a.marker,
        outcomes.len() == count,
    ensures
        ({
            let r = play(new_run(waits), a, run_outcomes(outcomes, teardown_ok), count);
            &&& r.2.len() == count + 5
            &&& forall|i: int| 0 <= i < count ==> #[trigger] r.2[3 + i] == Action::Convert { index: i as usize }
            &&& r.2[count + 3] == Action::Teardown
            &&& r.2[count + 4] == Action::Exit { code: 0 }
            &&& r.0.phase == Phase::Finished { exit_code: 0 }
        }),
{
    lemma_run(a, waits, count, outcomes, teardown_ok);
}

/// Two runs one after the other on a present, unmarked staging directory
/// both claim it, finish with 0, and leave it present, unmarked and empty.
pub proof fn sequential_runs_leave_directory_free(
    a: Area,
    waits: usize,
    count1: usize,
    outcomes1: Seq<bool>,
    count2: usize,
    outcomes2: Seq<bool>,
)
    requires
        a.exists,
        !a.marker,
        outcomes1.len() == count1,
        outcomes2.len() == count2,
    ensures
        ({
            let r1 = play(new_run(waits), a, run_outcomes(outcomes1, true), count1);
            let r2 = play(new_run(waits), r1.1, run_outcomes(outcomes2, true), count2);
            &&& r1.0.phase == Phase::Finished { exit_code: 0 }
            &&& r2.0.phase == Phase::Finished { exit_code: 0 }
            &&& r1.2[0] == Action::Acquire
            &&& r2.2[0] == Action::Acquire
            &&& r1.1 == free_area()
            &&& r2.1 == free_area()
        }),
{
    lemma_run(a, waits, count1, outcomes1, true);
    lemma_run(free_area(), waits, count2, outcomes2, true);
}

/// A run whose staging fails still clears the directory, marker included,
/// before it exits with 1.
pub proof fn failed_staging_still_tears_down(a: Area, waits: usize, count: usize)
    requires
        !a.marker,
    ensures
        ({
            let r = play(new_run(waits), a, seq![true, true, false, true], count);
            &&& r.2 == seq![Action::Acquire, Action::Stage, Action::Teardown, Action::Exit { code: 1 }]
            &&& r.0.phase == Phase::Finished { exit_code: 1 }
            &&& !r.1.marker
        }),
{
    let o = seq![true, true, false, true];
    assert(o.drop_first() =~= seq![true, false, true]);
    assert(o.drop_first().drop_first() =~= seq![false, true]);
    assert(o.drop_first().drop_first().drop_first() =~= seq![true]);
    assert(seq![true].drop_first() =~= Seq::<bool>::empty());
    let a1 = Area { exists: true, marker: true, ..a };
    let fin = Run { phase: Phase::Finished { exit_code: 1 }, pending: Action::Exit { code: 1 } };
    let td = Run { phase: Phase::TearingDown { failed: 0, exit_code: 1 }, pending: Action::Teardown };
    let freed = Area { marker: false, has_content: false, ..a1 };
    let p4 = play(fin, freed, Seq::<bool>::empty(), count);
    let p3 = play(td, a1, seq![true], count);
    assert(p3 == (fin, freed, seq![Action::Exit { code: 1 }] + p4.2));
    let p2 = play(Run { phase: Phase::Staging, pending: Action::Stage }, a1, seq![false, true], count);
    assert(p2 == (fin, freed, seq![Action::Teardown] + p3.2));
    let p1 = play(Run { phase: Phase::Acquiring { waits_left: waits }, pending: Action::Acquire }, a, seq![true, false, true], count);
    assert(p1 == (fin, freed, seq![Action::Stage] + p2.2));
    assert(seq![Action::Acquire] + p1.2 =~= seq![Action::Acquire, Action::Stage, Action::Teardown, Action::Exit { code: 1 }]);
}

} // verus!
