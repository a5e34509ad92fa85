//! A specification model of the worker pool: a fixed set of workers claims
//! pending jobs from the shared queue, newest first, each job claimed by at
//! most one worker.  The proofs pin down the pool's safety discipline: a
//! job is never executed twice or by two workers, and the number of jobs
//! being handled at any instant never exceeds the number of workers.

use vstd::prelude::*;

verus! {

/// A worker is idle, or executing the one job it has claimed.
pub enum WorkerPhase {
    Idle,
    Executing { job: nat },
}

/// The job a worker holds, if any.
pub open spec fn phase_job(p: WorkerPhase) -> Option<nat> {
    match p {
        WorkerPhase::Idle => None,
        WorkerPhase::Executing { job } => Some(job),
    }
}

/// Ghost state of the pool: pending job ids oldest first, one phase per
/// worker, and the id the next submission will receive.
pub struct PoolModel {
    pub pending: Seq<nat>,
    pub workers: Seq<WorkerPhase>,
    pub next_job: nat,
}

/// The pool's invariant: ids are fresh, each pending job is pending once,
/// no pending job is simultaneously being executed, and no two workers
/// execute the same job.
pub open spec fn inv(m: PoolModel) -> bool {
    &&& (forall|i: int| 0 <= i < m.pending.len() ==> #[trigger] m.pending[i] < m.next_job)
    &&& (forall|i: int, j: int|
        0 <= i < j < m.pending.len() ==> #[trigger] m.pending[i] != #[trigger] m.pending[j])
    &&& (forall|w: int|
        0 <= w < m.workers.len() ==> ((#[trigger] phase_job(m.workers[w])) matches Some(job)
            ==> job < m.next_job))
    &&& (forall|w: int, i: int|
        0 <= w < m.workers.len() && 0 <= i < m.pending.len() ==> #[trigger] phase_job(
            m.workers[w],
        ) != Some(#[trigger] m.pending[i]))
    &&& (forall|w: int, v: int|
        0 <= w < v < m.workers.len() && #[trigger] phase_job(m.workers[w]) is Some
            ==> phase_job(m.workers[w]) != #[trigger] phase_job(m.workers[v]))
}

/// The dispatcher enqueues a fresh job.  Defined for every state: submission
/// never blocks and is never refused.
pub open spec fn submit_step(pre: PoolModel, post: PoolModel) -> bool {
    &&& post.pending == pre.pending.push(pre.next_job)
    &&& post.workers == pre.workers
    &&& post.next_job == pre.next_job + 1
}

/// An idle worker claims the most recently enqueued job — the queue is
/// served last-in-first-out.
pub open spec fn claim_step(pre: PoolModel, post: PoolModel, w: int) -> bool {
    &&& 0 <= w < pre.workers.len()
    &&& pre.workers[w] is Idle
    &&& pre.pending.len() > 0
    &&& post.pending == pre.pending.drop_last()
    &&& post.workers == pre.workers.update(
        w,
        WorkerPhase::Executing { job: pre.pending.last() },
    )
    &&& post.next_job == pre.next_job
}

/// A worker finishes its job and returns to idle.
pub open spec fn finish_step(pre: PoolModel, post: PoolModel, w: int) -> bool {
    &&& 0 <= w < pre.workers.len()
    &&& pre.workers[w] is Executing
    &&& post.pending == pre.pending
    &&& post.workers == pre.workers.update(w, WorkerPhase::Idle)
    &&& post.next_job == pre.next_job
}

/// How many workers are executing at this instant.
pub open spec fn executing_count(ws: Seq<WorkerPhase>) -> nat
    decreases ws.len(),
{
    if ws.len() == 0 {
        0
    } else {
        executing_count(ws.drop_last()) + if ws.last() is Executing {
            1nat
        } else {
            0nat
        }
    }
}

/// The freshly started pool: every worker idle, nothing pending.
pub open spec fn initial(m: PoolModel, worker_count: nat) -> bool {
    &&& m.pending == Seq::<nat>::empty()
    &&& m.workers.len() == worker_count
    &&& forall|w: int| 0 <= w < m.workers.len() ==> #[trigger] m.workers[w] is Idle
    &&& m.next_job == 0
}

pub proof fn lemma_initial_inv(m: PoolModel, worker_count: nat)
    requires
        initial(m, worker_count),
    ensures
        inv(m),
{
}

/// Enqueueing preserves the invariant and touches no worker.
pub proof fn lemma_submit_preserves_inv(pre: PoolModel, post: PoolModel)
    requires
        inv(pre),
        submit_step(pre, post),
    ensures
        inv(post),
        post.workers.len() == pre.workers.len(),
        executing_count(post.workers) == executing_count(pre.workers),
{
    assert forall|i: int, j: int| 0 <= i < j < post.pending.len() implies #[trigger] post
        .pending[i] != #[trigger] post.pending[j] by {
        if j < pre.pending.len() {
        } else {
            assert(post.pending[j] == pre.next_job);
            assert(pre.pending[i] < pre.next_job);
        }
    }
}

/// A claim hands the newest pending job to exactly one previously idle
/// worker; no other worker holds it, and it leaves the queue atomically.
pub proof fn lemma_claim_preserves_inv(pre: PoolModel, post: PoolModel, w: int)
    requires
        inv(pre),
        claim_step(pre, post, w),
    ensures
        inv(post),
        post.workers.len() == pre.workers.len(),
        phase_job(post.workers[w]) == Some(pre.pending.last()),
        forall|v: int|
            0 <= v < post.workers.len() && v != w ==> #[trigger] phase_job(post.workers[v])
                != Some(pre.pending.last()),
        executing_count(post.workers) == executing_count(pre.workers) + 1,
{
    let claimed = pre.pending.last();
    assert forall|v: int|
        0 <= v < pre.workers.len() implies #[trigger] phase_job(pre.workers[v]) != Some(
        claimed,
    ) by {
        assert(phase_job(pre.workers[v]) != Some(pre.pending[pre.pending.len() - 1]));
    }
    lemma_count_update_to_executing(pre.workers, w, claimed);
}

/// Finishing preserves the invariant.
pub proof fn lemma_finish_preserves_inv(pre: PoolModel, post: PoolModel, w: int)
    requires
        inv(pre),
        finish_step(pre, post, w),
    ensures
        inv(post),
        post.workers.len() == pre.workers.len(),
        executing_count(post.workers) + 1 == executing_count(pre.workers),
{
    lemma_count_update_to_idle(pre.workers, w);
}

proof fn lemma_count_update_to_executing(ws: Seq<WorkerPhase>, w: int, job: nat)
    requires
        0 <= w < ws.len(),
        ws[w] is Idle,
    ensures
        executing_count(ws.update(w, WorkerPhase::Executing { job })) == executing_count(ws)
            + 1,
    decreases ws.len(),
{
    let ws2 = ws.update(w, WorkerPhase::Executing { job });
    if w == ws.len() - 1 {
        assert(ws2.drop_last() =~= ws.drop_last());
    } else {
        assert(ws2.drop_last() =~= ws.drop_last().update(w, WorkerPhase::Executing { job }));
        lemma_count_update_to_executing(ws.drop_last(), w, job);
        assert(ws2.last() == ws.last());
    }
}

proof fn lemma_count_update_to_idle(ws: Seq<WorkerPhase>, w: int)
    requires
        0 <= w < ws.len(),
        ws[w] is Executing,
    ensures
        executing_count(ws.update(w, WorkerPhase::Idle)) + 1 == executing_count(ws),
    decreases ws.len(),
{
    let ws2 = ws.update(w, WorkerPhase::Idle);
    if w == ws.len() - 1 {
        assert(ws2.drop_last() =~= ws.drop_last());
    } else {
        assert(ws2.drop_last() =~= ws.drop_last().update(w, WorkerPhase::Idle));
        lemma_count_update_to_idle(ws.drop_last(), w);
        assert(ws2.last() == ws.last());
    }
}

/// Waiting jobs are never stuck while capacity is free: whenever a job is
/// pending and some worker is idle, a claim by that worker is a legal next
/// step.  (Which pending job it takes is fixed: the newest.)
pub proof fn lemma_claim_enabled(m: PoolModel, w: int)
    requires
        inv(m),
        0 <= w < m.workers.len(),
        m.workers[w] is Idle,
        m.pending.len() > 0,
    ensures
        exists|post: PoolModel| #[trigger] claim_step(m, post, w),
{
    let post = PoolModel {
        pending: m.pending.drop_last(),
        workers: m.workers.update(w, WorkerPhase::Executing { job: m.pending.last() }),
        next_job: m.next_job,
    };
    assert(claim_step(m, post, w));
}

/// At any instant, at most as many jobs are being handled as there are
/// workers: each worker holds at most one job, so with `workerCount`
/// workers no more than `workerCount` connections are in service and the
/// rest wait in the queue.
pub proof fn lemma_bounded_concurrency(m: PoolModel)
    ensures
        executing_count(m.workers) <= m.workers.len(),
{
    lemma_count_le_len(m.workers);
}

proof fn lemma_count_le_len(ws: Seq<WorkerPhase>)
    ensures
        executing_count(ws) <= ws.len(),
    decreases ws.len(),
{
    if ws.len() > 0 {
        lemma_count_le_len(ws.drop_last());
    }
}

} // verus!
