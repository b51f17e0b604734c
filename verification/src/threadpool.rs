//! The decisions of the worker pool when a job arrives: which sleeping worker to wake
//! or whether to start a new one, and which long-sleeping worker to stop. The threads
//! themselves belong to the caller.

use vstd::prelude::*;

verus! {

/// What the pool knows of a worker: whether it sleeps, whether it was told to stop,
/// and for how many whole seconds it has slept.
#[derive(Clone, Copy)]
pub struct WorkerStatus {
    pub is_sleep: bool,
    pub is_kill: bool,
    pub slept_secs: u64,
}

/// What to do to get the job run.
#[derive(Clone, Copy)]
pub enum Wakeup {
    /// Wake the worker at this position.
    Wake(usize),
    /// Start a new worker.
    Spawn,
    /// Leave it to the running workers.
    Nothing,
}

/// The pool's decision for one job: how to get it run, and which worker, if any, to stop.
#[derive(Clone, Copy)]
pub struct ExecutePlan {
    pub wakeup: Wakeup,
    pub reap: Option<usize>,
}

/// The position of the first sleeping worker.
pub open spec fn first_sleeping(ws: Seq<WorkerStatus>) -> Option<int>
    decreases ws.len(),
{
    if ws.len() == 0 {
        None
    } else {
        match first_sleeping(ws.drop_last()) {
            Some(i) => Some(i),
            None => if ws.last().is_sleep { Some(ws.len() - 1) } else { None },
        }
    }
}

/// How the job gets run: wake the first sleeping worker; otherwise start a worker when
/// there are fewer than `max` and the last one was started more than two seconds ago.
pub open spec fn plan_wakeup(ws: Seq<WorkerStatus>, max: nat, secs_since_create: nat) -> Wakeup {
    match first_sleeping(ws) {
        Some(i) => Wakeup::Wake(i as usize),
        None => if max > ws.len() && secs_since_create > 2 { Wakeup::Spawn } else { Wakeup::Nothing },
    }
}

/// A worker just started: asleep, not stopped, having slept no time.
pub open spec fn fresh_worker() -> WorkerStatus {
    WorkerStatus { is_sleep: true, is_kill: false, slept_secs: 0 }
}

/// The workers once the wake-up is done.
pub open spec fn after_wakeup(ws: Seq<WorkerStatus>, w: Wakeup) -> Seq<WorkerStatus> {
    match w {
        Wakeup::Wake(i) => ws.update(i as int, WorkerStatus { is_sleep: false, ..ws[i as int] }),
        Wakeup::Spawn => ws.push(fresh_worker()),
        Wakeup::Nothing => ws,
    }
}

/// A worker that is stopped when the pool is above its lower size: asleep, not yet
/// told to stop, for more than thirty seconds.
pub open spec fn reapable(w: WorkerStatus) -> bool {
    w.is_sleep && !w.is_kill && w.slept_secs > 30
}

/// The pool's check of long-sleeping workers walks the positions it had at its start
/// while removing workers; it only completes when no worker but the last is to be
/// removed (removing any other would make it read past the end).
pub open spec fn reap_completes(ws: Seq<WorkerStatus>, min: nat) -> bool {
    min < ws.len() ==> forall|i: int| 0 <= i < ws.len() - 1 ==> !reapable(#[trigger] ws[i])
}

/// Which worker is stopped: the last one, when the pool is above its lower size and it is reapable.
pub open spec fn plan_reap(ws: Seq<WorkerStatus>, min: nat) -> Option<usize> {
    if min < ws.len() && reapable(ws.last()) {
        Some((ws.len() - 1) as usize)
    } else {
        None
    }
}

/// The decision for a job arriving at a pool with these workers, its lower and upper
/// size, and the seconds since it last started a worker.
pub open spec fn execute_plan(ws: Seq<WorkerStatus>, min: nat, max: nat, secs_since_create: nat) -> ExecutePlan {
    let w = plan_wakeup(ws, max, secs_since_create);
    ExecutePlan { wakeup: w, reap: plan_reap(after_wakeup(ws, w), min) }
}

proof fn lemma_first_sleeping(ws: Seq<WorkerStatus>)
    ensures
        first_sleeping(ws) matches Some(i) ==> 0 <= i < ws.len() && ws[i].is_sleep && forall|k: int|
            0 <= k < i ==> !(#[trigger] ws[k]).is_sleep,
        first_sleeping(ws) is None ==> forall|k: int| 0 <= k < ws.len() ==> !(#[trigger] ws[k]).is_sleep,
    decreases ws.len(),
{
    if ws.len() > 0 {
        lemma_first_sleeping(ws.drop_last());
        assert forall|k: int| 0 <= k < ws.len() - 1 implies ws[k] == ws.drop_last()[k] by {}
    }
}

/// How a job gets run (see `plan_wakeup`).
pub fn choose_wakeup(workers: &Vec<WorkerStatus>, max: usize, secs_since_create: u64) -> (r: Wakeup)
    ensures
        r == plan_wakeup(workers@, max as nat, secs_since_create as nat),
{
    let mut i: usize = 0;
    while i < workers.len()
        invariant
            i <= workers@.len(),
            first_sleeping(workers@.take(i as int)) is None,
        decreases workers.len() - i,
    {
        proof {
            assert(workers@.take(i + 1).drop_last() == workers@.take(i as int));
        }
        if workers[i].is_sleep {
            proof {
                lemma_first_sleeping(workers@.take(i + 1));
                lemma_first_sleeping_prefix(workers@, i as int);
            }
            return Wakeup::Wake(i);
        }
        i = i + 1;
    }
    assert(workers@.take(workers@.len() as int) == workers@);
    if max > workers.len() && secs_since_create > 2 {
        Wakeup::Spawn
    } else {
        Wakeup::Nothing
    }
}

proof fn lemma_first_sleeping_prefix(ws: Seq<WorkerStatus>, i: int)
    requires
        0 <= i < ws.len(),
        ws[i].is_sleep,
        first_sleeping(ws.take(i)) is None,
    ensures
        first_sleeping(ws) == Some(i),
    decreases ws.len(),
{
    if i < ws.len() - 1 {
        assert(ws.drop_last().take(i) == ws.take(i));
        lemma_first_sleeping_prefix(ws.drop_last(), i);
    } else {
        assert(ws.drop_last() == ws.take(i));
    }
}

/// Whether the pool's check of long-sleeping workers completes for these workers.
pub fn reap_check_completes(workers: &Vec<WorkerStatus>, min: usize) -> (r: bool)
    ensures
        r == reap_completes(workers@, min as nat),
{
    if min >= workers.len() {
        return true;
    }
    let mut i: usize = 0;
    while i + 1 < workers.len()
        invariant
            min < workers@.len(),
            i <= workers@.len() - 1,
            forall|k: int| 0 <= k < i ==> !reapable(#[trigger] workers@[k]),
        decreases workers.len() - i,
    {
        let w = workers[i];
        if w.is_sleep && !w.is_kill && w.slept_secs > 30 {
            assert(reapable(workers@[i as int]));
            return false;
        }
        i = i + 1;
    }
    true
}

/// The workers once the wake-up is done (see `after_wakeup`).
pub fn apply_wakeup(workers: &Vec<WorkerStatus>, w: Wakeup) -> (r: Vec<WorkerStatus>)
    requires
        w matches Wakeup::Wake(i) ==> i < workers@.len(),
    ensures
        r@ == after_wakeup(workers@, w),
{
    let mut r = workers.clone();
    assert(r@ == workers@);
    match w {
        Wakeup::Wake(i) => {
            let old = r[i];
            r.set(i, WorkerStatus { is_sleep: false, ..old });
        },
        Wakeup::Spawn => {
            r.push(WorkerStatus { is_sleep: true, is_kill: false, slept_secs: 0 });
        },
        Wakeup::Nothing => {},
    }
    r
}

/// The pool's decision when a job arrives: wake the first sleeping worker, or else start
/// one when below `max` workers and the last was started more than two seconds ago;
/// then, above `min` workers, stop the last worker when it has slept for more than
/// thirty seconds without being told to stop.
pub fn plan_execute(workers: &Vec<WorkerStatus>, min: usize, max: usize, secs_since_create: u64) -> (r: ExecutePlan)
    requires
        reap_completes(
            after_wakeup(workers@, plan_wakeup(workers@, max as nat, secs_since_create as nat)),
            min as nat,
        ),
        workers@.len() < usize::MAX,
    ensures
        r == execute_plan(workers@, min as nat, max as nat, secs_since_create as nat),
{
    let w = choose_wakeup(workers, max, secs_since_create);
    proof {
        lemma_first_sleeping(workers@);
    }
    let after = apply_wakeup(workers, w);
    let n = after.len();
    let mut reap: Option<usize> = None;
    if min < n {
        let last = after[n - 1];
        if last.is_sleep && !last.is_kill && last.slept_secs > 30 {
            reap = Some(n - 1);
        }
    }
    ExecutePlan { wakeup: w, reap }
}

/// A job always gets a worker when one is asleep, and at most one worker is stopped;
/// a worker just woken or just started is never the one stopped.
pub proof fn lemma_plan_never_stops_the_chosen_worker(
    ws: Seq<WorkerStatus>,
    min: nat,
    max: nat,
    secs: nat,
)
    requires
        ws.len() < usize::MAX,
    ensures
        (exists|k: int| 0 <= k < ws.len() && (#[trigger] ws[k]).is_sleep) ==> execute_plan(ws, min, max, secs).wakeup is Wake,
        execute_plan(ws, min, max, secs).wakeup matches Wakeup::Wake(i) ==> execute_plan(ws, min, max, secs).reap
            != Some(i),
        execute_plan(ws, min, max, secs).wakeup is Spawn ==> execute_plan(ws, min, max, secs).reap is None,
{
    lemma_first_sleeping(ws);
    if let Some(i) = first_sleeping(ws) {
        let after = after_wakeup(ws, execute_plan(ws, min, max, secs).wakeup);
        assert(!after[i].is_sleep);
        assert(after.len() == ws.len());
    }
}

/// The pool never goes below its lower size: a worker is stopped only when the pool,
/// after the wake-up, has more than `min` workers, and then it is the last worker, one
/// that sleeps, was not told to stop, and has slept more than thirty seconds. Such a
/// last worker in a pool above `min` is always stopped.
pub proof fn lemma_reap_keeps_lower_size(ws: Seq<WorkerStatus>, min: nat, max: nat, secs: nat)
    requires
        ws.len() < usize::MAX,
    ensures
        ({
            let p = execute_plan(ws, min, max, secs);
            let after = after_wakeup(ws, p.wakeup);
            &&& p.reap matches Some(i) ==> min < after.len() && i == after.len() - 1 && after[i as int].is_sleep
                && !after[i as int].is_kill && after[i as int].slept_secs > 30
            &&& (min < after.len() && after.last().is_sleep && !after.last().is_kill && after.last().slept_secs > 30)
                ==> p.reap == Some((after.len() - 1) as usize)
            &&& after.len() <= min ==> p.reap is None
        }),
{
    lemma_first_sleeping(ws);
    let p = execute_plan(ws, min, max, secs);
    let after = after_wakeup(ws, p.wakeup);
    assert(after.len() <= ws.len() + 1);
}

/// The worker woken is the first one asleep; a worker is started only when none sleeps,
/// there are fewer than `max`, and the last start was more than two seconds ago; and
/// otherwise nothing is done.
pub proof fn lemma_wakeup_choice(ws: Seq<WorkerStatus>, max: nat, secs: nat)
    requires
        ws.len() < usize::MAX,
    ensures
        plan_wakeup(ws, max, secs) matches Wakeup::Wake(i) ==> 0 <= i < ws.len() && ws[i as int].is_sleep && forall|
            k: int,
        | 0 <= k < i ==> !(#[trigger] ws[k]).is_sleep,
        plan_wakeup(ws, max, secs) is Spawn <==> (forall|k: int| 0 <= k < ws.len() ==> !(#[trigger] ws[k]).is_sleep)
            && max > ws.len() && secs > 2,
        plan_wakeup(ws, max, secs) is Nothing <==> (forall|k: int| 0 <= k < ws.len() ==> !(#[trigger] ws[k]).is_sleep)
            && !(max > ws.len() && secs > 2),
{
    lemma_first_sleeping(ws);
    if let Some(i) = first_sleeping(ws) {
        assert(ws[i].is_sleep);
    }
}

} // verus!
