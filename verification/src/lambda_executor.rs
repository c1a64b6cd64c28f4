//! Handing part jobs out to a pool of workers.
//!
//! Jobs come sorted by size. They are dealt one by one, so that no worker gets all the heavy
//! ones: in rounds, each of which makes one batch for every worker and ends when the batches
//! are full.

use crate::error::Error;
use vstd::prelude::*;

verus! {

/// What the executor is told to do.
#[derive(Debug)]
pub enum LambdaExecutorCommand<M, J> {
    /// The upload that the parts belong to. It comes once, before any job.
    MultipartUpload(M),
    /// Jobs to hand out.
    DelegatedPartJobs(Vec<J>),
}

/// How many jobs a batch takes: at least one.
pub open spec fn chunk_size(max_chunk: int) -> int {
    if max_chunk < 1 {
        1
    } else {
        max_chunk
    }
}

/// The batch that the `i`-th dealt job goes into.
pub open spec fn batch_of(i: int, workers: int, max_chunk: int) -> int {
    (i / (workers * chunk_size(max_chunk))) * workers + i % workers
}

/// How many batches `n` jobs make: one for every worker in every round that is begun.
pub open spec fn batch_count(n: int, workers: int, max_chunk: int) -> int {
    (n / (workers * chunk_size(max_chunk)) + 1) * workers
}

/// The `i`-th job that is dealt: they are taken from the back.
pub open spec fn dealt_job<J>(jobs: Seq<J>, i: int) -> J {
    jobs[jobs.len() - 1 - i]
}

/// Batch `b` after `n` jobs have been dealt.
pub open spec fn batch_after<J>(
    jobs: Seq<J>,
    workers: int,
    max_chunk: int,
    b: int,
    n: nat,
) -> Seq<J>
    decreases n,
{
    if n == 0 {
        Seq::empty()
    } else if batch_of(n - 1, workers, max_chunk) == b {
        batch_after(jobs, workers, max_chunk, b, (n - 1) as nat).push(dealt_job(jobs, n - 1))
    } else {
        batch_after(jobs, workers, max_chunk, b, (n - 1) as nat)
    }
}

/// `batches` are the batches of `jobs`.
pub open spec fn are_batches<J>(
    batches: Seq<Vec<J>>,
    jobs: Seq<J>,
    workers: int,
    max_chunk: int,
) -> bool {
    &&& batches.len() == batch_count(jobs.len() as int, workers, max_chunk)
    &&& forall|b: int|
        0 <= b < batches.len() ==> (#[trigger] batches[b])@ == batch_after(
            jobs,
            workers,
            max_chunk,
            b,
            jobs.len(),
        )
}

/// Where a job stands: in round `round`, the `lane`-th batch of it, with `depth` jobs before
/// it.
proof fn lemma_place(round: int, depth: int, lane: int, workers: int, chunk: int)
    requires
        0 <= round,
        0 <= depth < chunk,
        0 <= lane < workers,
    ensures
        ({
            let i = round * (workers * chunk) + depth * workers + lane;
            &&& i / (workers * chunk) == round
            &&& i % workers == lane
        }),
{
    let i = round * (workers * chunk) + depth * workers + lane;
    let inner = depth * workers + lane;
    assert(0 <= inner < workers * chunk) by (nonlinear_arith)
        requires
            inner == depth * workers + lane,
            0 <= depth < chunk,
            0 <= lane < workers,
    ;
    assert(i == round * (workers * chunk) + inner);
    vstd::arithmetic::div_mod::lemma_fundamental_div_mod_converse(
        i,
        workers * chunk,
        round,
        inner,
    );
    let turns = round * chunk + depth;
    assert(i == turns * workers + lane) by (nonlinear_arith)
        requires
            i == round * (workers * chunk) + depth * workers + lane,
            turns == round * chunk + depth,
    ;
    vstd::arithmetic::div_mod::lemma_fundamental_div_mod_converse(i, workers, turns, lane);
}

/// Adds an empty batch for every worker.
fn begin_round<J>(batches: &mut Vec<Vec<J>>, workers: usize)
    ensures
        final(batches)@.len() == old(batches)@.len() + workers,
        forall|b: int|
            0 <= b < old(batches)@.len() ==> final(batches)@[b] == #[trigger] old(batches)@[b],
        forall|b: int|
            old(batches)@.len() <= b < final(batches)@.len() ==> (#[trigger] final(
                batches)@[b])@ == Seq::<J>::empty(),
{
    let ghost before = batches@;
    for k in 0..workers
        invariant
            before == old(batches)@,
            batches@.len() == before.len() + k,
            forall|b: int| 0 <= b < before.len() ==> batches@[b] == #[trigger] before[b],
            forall|b: int|
                before.len() <= b < batches@.len() ==> (#[trigger] batches@[b])@ == Seq::<
                    J,
                >::empty(),
    {
        batches.push(Vec::new());
    }
}

/// Deals the jobs out into batches, from the back, one to every worker in turn. A round of
/// batches ends when its first batch is full, and the next round is begun at once. Batch `b`
/// is for worker `b % workers`.
pub fn distribute<J>(jobs: Vec<J>, workers: usize, max_chunk: usize) -> (batches: Vec<Vec<J>>)
    requires
        workers > 0,
    ensures
        are_batches(batches@, jobs@, workers as int, max_chunk as int),
{
    let ghost all = jobs@;
    let ghost w = workers as int;
    let ghost chunk = chunk_size(max_chunk as int);
    let mut jobs: Vec<J> = jobs;
    let mut batches: Vec<Vec<J>> = Vec::new();
    begin_round(&mut batches, workers);
    let mut base: usize = 0;
    let mut lane: usize = 0;
    let mut depth: usize = 0;
    let ghost mut round: int = 0;
    let ghost mut n: int = 0;
    proof {
        assert(0 * (w * chunk) + 0 * w + 0 == 0) by (nonlinear_arith);
        assert(0 * w == 0 && (0 + 1) * w == w) by (nonlinear_arith);
        assert(all.take(all.len() as int) =~= all);
    }
    while jobs.len() > 0
        invariant
            w == workers,
            w > 0,
            chunk == chunk_size(max_chunk as int),
            0 <= n <= all.len(),
            jobs@ == all.take(all.len() - n),
            0 <= round,
            lane < workers,
            depth < chunk,
            n == round * (w * chunk) + depth * w + lane,
            base == round * w,
            batches@.len() == (round + 1) * w,
            batches@.len() == base + w,
            forall|b: int|
                0 <= b < batches@.len() ==> (#[trigger] batches@[b])@ == batch_after(
                    all,
                    w,
                    max_chunk as int,
                    b,
                    n as nat,
                ),
            forall|b: int|
                batches@.len() <= b ==> #[trigger] batch_after(
                    all,
                    w,
                    max_chunk as int,
                    b,
                    n as nat,
                ) == Seq::<J>::empty(),
        decreases jobs@.len(),
    {
        proof {
            lemma_place(round, depth as int, lane as int, w, chunk);
            assert(dealt_job(all, n) == jobs@.last());
        }
        let job: J = jobs.pop().unwrap();
        assert(batches@.len() == batches.len());
        let at: usize = base + lane;
        let ghost before = batches@;
        batches[at].push(job);
        proof {
            assert(jobs@ =~= all.take(all.len() - (n + 1)));
            assert forall|b: int| 0 <= b < batches@.len() implies (#[trigger] batches@[b])@
                == batch_after(all, w, max_chunk as int, b, (n + 1) as nat) by {
                assert(before[b]@ == batch_after(all, w, max_chunk as int, b, n as nat));
            }
            assert forall|b: int| batches@.len() <= b implies #[trigger] batch_after(
                all,
                w,
                max_chunk as int,
                b,
                (n + 1) as nat,
            ) == Seq::<J>::empty() by {
                assert(batch_after(all, w, max_chunk as int, b, n as nat) == Seq::<J>::empty());
            }
            n = n + 1;
        }
        lane = lane + 1;
        if lane == workers {
            lane = 0;
            proof {
                assert((depth + 1) * w == depth * w + w) by (nonlinear_arith);
            }
            depth = depth + 1;
            if depth >= max_chunk {
                proof {
                    assert(depth == chunk);
                    assert(round * (w * chunk) + chunk * w == (round + 1) * (w * chunk) + 0 * w)
                        by (nonlinear_arith);
                    assert((round + 2) * w == (round + 1) * w + w) by (nonlinear_arith);
                    round = round + 1;
                }
                depth = 0;
                base = batches.len();
                let ghost full = batches@;
                begin_round(&mut batches, workers);
                assert forall|b: int| 0 <= b < batches@.len() implies (#[trigger] batches@[b])@
                    == batch_after(all, w, max_chunk as int, b, n as nat) by {
                    if b < full.len() {
                        assert(batches@[b] == full[b]);
                    }
                }
            }
        }
    }
    proof {
        lemma_place(round, depth as int, lane as int, w, chunk);
        assert(n == all.len());
    }
    batches
}

/// The batches hold every job, and each of them once.
pub proof fn every_job_is_dealt_once<J>(jobs: Seq<J>, workers: int, max_chunk: int)
    requires
        workers > 0,
    ensures
        batches_joined(
            jobs,
            workers,
            max_chunk,
            batch_count(jobs.len() as int, workers, max_chunk) as nat,
        ).to_multiset() == jobs.to_multiset(),
{
    lemma_batch_count(jobs.len() as int, workers, max_chunk);
    let count = batch_count(jobs.len() as int, workers, max_chunk) as nat;
    lemma_dealt_to(jobs, workers, max_chunk, count, jobs.len());
    let taken = jobs.skip(0);
    assert(taken =~= jobs);
}

/// The first `count` batches, one behind the other.
pub open spec fn batches_joined<J>(
    jobs: Seq<J>,
    workers: int,
    max_chunk: int,
    count: nat,
) -> Seq<J> {
    joined_after(jobs, workers, max_chunk, count, jobs.len())
}

/// The first `count` batches, one behind the other, after `n` jobs have been dealt.
pub open spec fn joined_after<J>(
    jobs: Seq<J>,
    workers: int,
    max_chunk: int,
    count: nat,
    n: nat,
) -> Seq<J>
    decreases count,
{
    if count == 0 {
        Seq::empty()
    } else {
        joined_after(jobs, workers, max_chunk, (count - 1) as nat, n) + batch_after(
            jobs,
            workers,
            max_chunk,
            count - 1,
            n,
        )
    }
}

proof fn lemma_batch_count(n: int, workers: int, max_chunk: int)
    requires
        workers > 0,
        n >= 0,
    ensures
        batch_count(n, workers, max_chunk) > 0,
        forall|i: int|
            0 <= i < n ==> 0 <= #[trigger] batch_of(i, workers, max_chunk) < batch_count(
                n,
                workers,
                max_chunk,
            ),
{
    let size = workers * chunk_size(max_chunk);
    assert(size > 0) by (nonlinear_arith)
        requires
            size == workers * chunk_size(max_chunk),
            workers > 0,
            chunk_size(max_chunk) > 0,
    ;
    vstd::arithmetic::div_mod::lemma_div_pos_is_pos(n, size);
    let rounds = n / size;
    assert((rounds + 1) * workers > 0) by (nonlinear_arith)
        requires
            rounds >= 0,
            workers > 0,
    ;
    assert forall|i: int| 0 <= i < n implies 0 <= #[trigger] batch_of(i, workers, max_chunk)
        < batch_count(n, workers, max_chunk) by {
        vstd::arithmetic::div_mod::lemma_div_pos_is_pos(i, size);
        vstd::arithmetic::div_mod::lemma_div_is_ordered(i, n, size);
        vstd::arithmetic::div_mod::lemma_mod_bound(i, workers);
        let round = i / size;
        let lane = i % workers;
        assert(0 <= round * workers + lane < (rounds + 1) * workers) by (nonlinear_arith)
            requires
                0 <= round <= rounds,
                0 <= lane < workers,
        ;
    }
}

proof fn lemma_joined_step<J>(jobs: Seq<J>, workers: int, max_chunk: int, count: nat, n: nat)
    requires
        0 < n <= jobs.len(),
    ensures
        joined_after(jobs, workers, max_chunk, count, n).to_multiset() == (if 0 <= batch_of(
            n - 1,
            workers,
            max_chunk,
        ) < count {
            joined_after(jobs, workers, max_chunk, count, (n - 1) as nat).to_multiset().insert(
                dealt_job(jobs, n - 1),
            )
        } else {
            joined_after(jobs, workers, max_chunk, count, (n - 1) as nat).to_multiset()
        }),
    decreases count,
{
    broadcast use vstd::seq_lib::group_to_multiset_ensures;

    if count > 0 {
        let c = (count - 1) as nat;
        let l = (n - 1) as nat;
        lemma_joined_step(jobs, workers, max_chunk, c, n);
        vstd::seq_lib::lemma_multiset_commutative(
            joined_after(jobs, workers, max_chunk, c, n),
            batch_after(jobs, workers, max_chunk, c as int, n),
        );
        vstd::seq_lib::lemma_multiset_commutative(
            joined_after(jobs, workers, max_chunk, c, l),
            batch_after(jobs, workers, max_chunk, c as int, l),
        );
        let got = joined_after(jobs, workers, max_chunk, count, n).to_multiset();
        let was = joined_after(jobs, workers, max_chunk, count, l).to_multiset();
        let b = batch_of(n - 1, workers, max_chunk);
        let want = if 0 <= b < count {
            was.insert(dealt_job(jobs, n - 1))
        } else {
            was
        };
        assert(got =~= want);
    }
}

proof fn lemma_joined_none<J>(jobs: Seq<J>, workers: int, max_chunk: int, count: nat)
    ensures
        joined_after(jobs, workers, max_chunk, count, 0) =~= Seq::<J>::empty(),
    decreases count,
{
    if count > 0 {
        lemma_joined_none(jobs, workers, max_chunk, (count - 1) as nat);
    }
}

proof fn lemma_dealt_to<J>(jobs: Seq<J>, workers: int, max_chunk: int, count: nat, n: nat)
    requires
        n <= jobs.len(),
        forall|i: int|
            0 <= i < n ==> 0 <= #[trigger] batch_of(i, workers, max_chunk) < count,
    ensures
        joined_after(jobs, workers, max_chunk, count, n).to_multiset() == jobs.skip(
            jobs.len() - n,
        ).to_multiset(),
    decreases n,
{
    broadcast use vstd::seq_lib::group_to_multiset_ensures;

    if n == 0 {
        lemma_joined_none(jobs, workers, max_chunk, count);
        assert(jobs.skip(jobs.len() - n) =~= Seq::empty());
    } else {
        lemma_dealt_to(jobs, workers, max_chunk, count, (n - 1) as nat);
        lemma_joined_step(jobs, workers, max_chunk, count, n);
        assert(0 <= batch_of(n - 1, workers, max_chunk) < count);
        let rest = jobs.skip(jobs.len() - (n - 1));
        let job = dealt_job(jobs, n - 1);
        assert(jobs.skip(jobs.len() - n) =~= seq![job] + rest);
        vstd::seq_lib::lemma_multiset_commutative(seq![job], rest);
        assert(seq![job] =~= Seq::empty().push(job));
        assert(jobs.skip(jobs.len() - n).to_multiset() =~= rest.to_multiset().insert(job));
    }
}

proof fn lemma_same_place(r1: int, l1: int, r2: int, l2: int, workers: int)
    requires
        0 <= l1 < workers,
        0 <= l2 < workers,
        r1 * workers + l1 == r2 * workers + l2,
    ensures
        r1 == r2,
        l1 == l2,
{
    let b = r1 * workers + l1;
    vstd::arithmetic::div_mod::lemma_fundamental_div_mod_converse(b, workers, r1, l1);
    vstd::arithmetic::div_mod::lemma_fundamental_div_mod_converse(b, workers, r2, l2);
}

/// How many jobs batch `own_lane` of round `own_round` holds once all rounds before `round`,
/// `depth` turns of it and `lane` jobs of the next turn have been dealt.
spec fn held(own_round: int, own_lane: int, round: int, depth: int, lane: int, chunk: int) -> int {
    if own_round < round {
        chunk
    } else if own_round > round {
        0
    } else if own_lane < lane {
        depth + 1
    } else {
        depth
    }
}

proof fn lemma_batch_len<J>(
    jobs: Seq<J>,
    workers: int,
    max_chunk: int,
    own_round: int,
    own_lane: int,
    round: int,
    depth: int,
    lane: int,
    n: nat,
)
    requires
        workers > 0,
        0 <= own_round,
        0 <= own_lane < workers,
        0 <= round,
        0 <= depth < chunk_size(max_chunk),
        0 <= lane < workers,
        n == round * (workers * chunk_size(max_chunk)) + depth * workers + lane,
    ensures
        batch_after(jobs, workers, max_chunk, own_round * workers + own_lane, n).len() == held(
            own_round,
            own_lane,
            round,
            depth,
            lane,
            chunk_size(max_chunk),
        ),
    decreases n,
{
    let chunk = chunk_size(max_chunk);
    let own = own_round * workers + own_lane;
    if n > 0 {
        let (r, d, l) = if lane > 0 {
            (round, depth, lane - 1)
        } else if depth > 0 {
            (round, depth - 1, workers - 1)
        } else {
            (round - 1, chunk - 1, workers - 1)
        };
        assert(r >= 0) by {
            if lane == 0 && depth == 0 {
                assert(round > 0) by (nonlinear_arith)
                    requires
                        n > 0,
                        n == round * (workers * chunk) + depth * workers + lane,
                        lane == 0,
                        depth == 0,
                        round >= 0,
                ;
            }
        }
        assert(n - 1 == r * (workers * chunk) + d * workers + l) by (nonlinear_arith)
            requires
                n == round * (workers * chunk) + depth * workers + lane,
                (r == round && d == depth && l == lane - 1) || (lane == 0 && r == round && d
                    == depth - 1 && l == workers - 1) || (lane == 0 && depth == 0 && r == round - 1
                    && d == chunk - 1 && l == workers - 1),
        ;
        lemma_batch_len(
            jobs,
            workers,
            max_chunk,
            own_round,
            own_lane,
            r,
            d,
            l,
            (n - 1) as nat,
        );
        lemma_place(r, d, l, workers, chunk);
        let b = batch_of(n - 1, workers, max_chunk);
        assert(b == r * workers + l);
        if b == own {
            lemma_same_place(r, l, own_round, own_lane, workers);
        }
    } else {
        assert(round == 0 && depth == 0 && lane == 0) by (nonlinear_arith)
            requires
                0 == round * (workers * chunk) + depth * workers + lane,
                round >= 0,
                depth >= 0,
                lane >= 0,
                workers > 0,
                chunk > 0,
        ;
    }
}

/// The load is spread evenly: no batch holds more than it may, and two batches of one round
/// differ by one job at most.
pub proof fn batches_are_even<J>(
    jobs: Seq<J>,
    workers: int,
    max_chunk: int,
    round: int,
    lane: int,
    other: int,
)
    requires
        workers > 0,
        0 <= round,
        0 <= lane < workers,
        0 <= other < workers,
    ensures
        ({
            let n = jobs.len();
            let a = batch_after(jobs, workers, max_chunk, round * workers + lane, n).len();
            let b = batch_after(jobs, workers, max_chunk, round * workers + other, n).len();
            &&& a <= chunk_size(max_chunk)
            &&& a <= b + 1
            &&& b <= a + 1
        }),
{
    let n = jobs.len() as int;
    let chunk = chunk_size(max_chunk);
    let size = workers * chunk;
    assert(size > 0) by (nonlinear_arith)
        requires
            size == workers * chunk,
            workers > 0,
            chunk > 0,
    ;
    let r = n / size;
    let inner = n % size;
    vstd::arithmetic::div_mod::lemma_fundamental_div_mod(n, size);
    vstd::arithmetic::div_mod::lemma_mod_bound(n, size);
    vstd::arithmetic::div_mod::lemma_div_pos_is_pos(n, size);
    let d = inner / workers;
    let l = inner % workers;
    vstd::arithmetic::div_mod::lemma_fundamental_div_mod(inner, workers);
    vstd::arithmetic::div_mod::lemma_mod_bound(inner, workers);
    vstd::arithmetic::div_mod::lemma_div_pos_is_pos(inner, workers);
    assert(d < chunk) by (nonlinear_arith)
        requires
            inner == workers * d + l,
            inner < workers * chunk,
            0 <= l,
            workers > 0,
    ;
    assert(n == r * (workers * chunk) + d * workers + l) by (nonlinear_arith)
        requires
            n == (workers * chunk) * r + inner,
            inner == workers * d + l,
    ;
    lemma_batch_len(jobs, workers, max_chunk, round, lane, r, d, l, n as nat);
    lemma_batch_len(jobs, workers, max_chunk, round, other, r, d, l, n as nat);
}

/// Jobs for one worker.
#[derive(Debug)]
pub struct WorkerBatch<J> {
    pub worker: usize,
    pub jobs: Vec<J>,
}

/// Where the executor stands.
#[derive(Debug)]
pub enum ExecutorState<M> {
    /// No upload is known yet.
    NoUpload,
    /// Jobs are handed out for this upload.
    Running(M),
}

/// What the executor does next.
#[derive(Debug)]
pub enum ExecutorAction<J> {
    /// Waits for the next command.
    Proceed,
    /// Sends the batches to their workers, in this order, then waits for the next command.
    Send(Vec<WorkerBatch<J>>),
    /// Waits for the workers to finish.
    Finish,
}

/// `sent` is what is sent for `jobs`: batch `b` to worker `b % workers`.
pub open spec fn sent_for<J>(
    sent: Seq<WorkerBatch<J>>,
    jobs: Seq<J>,
    workers: int,
    max_chunk: int,
) -> bool {
    &&& sent.len() == batch_count(jobs.len() as int, workers, max_chunk)
    &&& forall|b: int|
        0 <= b < sent.len() ==> {
            &&& (#[trigger] sent[b]).worker == b % workers
            &&& sent[b].jobs@ == batch_after(jobs, workers, max_chunk, b, jobs.len())
        }
}

/// The jobs in batches, each for its worker.
pub fn batches_for_workers<J>(jobs: Vec<J>, workers: usize, max_chunk: usize) -> (sent: Vec<
    WorkerBatch<J>,
>)
    requires
        workers > 0,
    ensures
        sent_for(sent@, jobs@, workers as int, max_chunk as int),
{
    let ghost all = jobs@;
    let batches: Vec<Vec<J>> = distribute(jobs, workers, max_chunk);
    let mut sent: Vec<WorkerBatch<J>> = Vec::new();
    let mut worker: usize = 0;
    proof {
        vstd::arithmetic::div_mod::lemma_small_mod(0, workers as nat);
    }
    for batch in it: batches
        invariant
            workers > 0,
            sent@.len() == it.index(),
            worker == it.index() % (workers as int),
            it.seq() == batches@,
            are_batches(batches@, all, workers as int, max_chunk as int),
            forall|b: int|
                0 <= b < sent@.len() ==> {
                    &&& (#[trigger] sent@[b]).worker == b % (workers as int)
                    &&& sent@[b].jobs@ == batch_after(
                        all,
                        workers as int,
                        max_chunk as int,
                        b,
                        all.len(),
                    )
                },
    {
        assert(batches@[it.index() as int]@ == batch_after(
            all,
            workers as int,
            max_chunk as int,
            it.index() as int,
            all.len(),
        ));
        sent.push(WorkerBatch { worker, jobs: batch });
        proof {
            lemma_next_turn(it.index() as int, workers as int);
        }
        worker = if worker + 1 == workers {
            0
        } else {
            worker + 1
        };
    }
    sent
}

proof fn lemma_next_turn(i: int, n: int)
    requires
        0 <= i,
        0 < n,
    ensures
        (i + 1) % n == (if i % n + 1 == n {
            0
        } else {
            i % n + 1
        }),
{
    vstd::arithmetic::div_mod::lemma_fundamental_div_mod(i, n);
    vstd::arithmetic::div_mod::lemma_mod_bound(i, n);
    let q = i / n;
    let r = i % n;
    if r + 1 == n {
        assert(i + 1 == (q + 1) * n + 0) by (nonlinear_arith)
            requires
                i == n * q + r,
                r + 1 == n,
        ;
        vstd::arithmetic::div_mod::lemma_fundamental_div_mod_converse(i + 1, n, q + 1, 0);
    } else {
        assert(i + 1 == q * n + (r + 1)) by (nonlinear_arith)
            requires
                i == n * q + r,
        ;
        vstd::arithmetic::div_mod::lemma_fundamental_div_mod_converse(i + 1, n, q, r + 1);
    }
}

/// Whether a command, or the end of the commands, is in its place.
pub open spec fn in_place<M, J>(
    state: ExecutorState<M>,
    command: Option<LambdaExecutorCommand<M, J>>,
) -> bool {
    match state {
        ExecutorState::NoUpload => command is Some && command->Some_0 is MultipartUpload,
        ExecutorState::Running(_) => !(command is Some && command->Some_0 is MultipartUpload),
    }
}

/// The upload comes first and once: nothing is done before it, and afterwards jobs are handed
/// out until the commands end.
pub proof fn the_upload_comes_first<M, J>(upload: M, other: M, jobs: Vec<J>)
    ensures
        in_place(
            ExecutorState::NoUpload,
            Some(LambdaExecutorCommand::<M, J>::MultipartUpload(upload)),
        ),
        !in_place(
            ExecutorState::<M>::NoUpload,
            Some(LambdaExecutorCommand::DelegatedPartJobs(jobs)),
        ),
        !in_place(ExecutorState::<M>::NoUpload, None::<LambdaExecutorCommand<M, J>>),
        in_place(
            ExecutorState::Running(upload),
            Some(LambdaExecutorCommand::DelegatedPartJobs(jobs)),
        ),
        in_place(ExecutorState::Running(upload), None::<LambdaExecutorCommand<M, J>>),
        !in_place(
            ExecutorState::Running(upload),
            Some(LambdaExecutorCommand::<M, J>::MultipartUpload(other)),
        ),
{
}

impl<M> ExecutorState<M> {
    /// What is done on a command, or when no more comes. The first command has to name the
    /// upload, and no later one may.
    pub fn on_command<J>(
        &mut self,
        command: Option<LambdaExecutorCommand<M, J>>,
        workers: usize,
        max_chunk: usize,
    ) -> (action: Result<ExecutorAction<J>, Error>)
        requires
            *old(self) is Running && command is Some && command->Some_0 is DelegatedPartJobs
                ==> workers > 0,
        ensures
            action is Ok <==> in_place(*old(self), command),
            match (*old(self), command) {
                (
                    ExecutorState::NoUpload,
                    Some(LambdaExecutorCommand::MultipartUpload(upload)),
                ) => {
                    &&& action == Ok::<ExecutorAction<J>, Error>(ExecutorAction::Proceed)
                    &&& *final(self) == ExecutorState::Running(upload)
                },
                (ExecutorState::NoUpload, _) => {
                    &&& *final(self) == *old(self)
                    &&& action is Err
                    &&& action->Err_0.text()
                        == "The first LambdaExecutorCommand must be MultipartUpload"@
                },
                (
                    ExecutorState::Running(_),
                    Some(LambdaExecutorCommand::DelegatedPartJobs(jobs)),
                ) => {
                    &&& *final(self) == *old(self)
                    &&& action is Ok
                    &&& action->Ok_0 is Send
                    &&& sent_for(
                        action->Ok_0->Send_0@,
                        jobs@,
                        workers as int,
                        max_chunk as int,
                    )
                },
                (
                    ExecutorState::Running(_),
                    Some(LambdaExecutorCommand::MultipartUpload(_)),
                ) => {
                    &&& *final(self) == *old(self)
                    &&& action is Err
                    &&& action->Err_0.text()
                        == "The only the first LambdaExecutorCommand can be MultipartUpload"@
                },
                (ExecutorState::Running(_), None) => {
                    &&& *final(self) == *old(self)
                    &&& action == Ok::<ExecutorAction<J>, Error>(ExecutorAction::Finish)
                },
            },
    {
        let waiting: bool = match self {
            ExecutorState::NoUpload => true,
            ExecutorState::Running(_) => false,
        };
        match command {
            Some(LambdaExecutorCommand::MultipartUpload(upload)) => {
                if waiting {
                    *self = ExecutorState::Running(upload);
                    Ok(ExecutorAction::Proceed)
                } else {
                    Err(
                        Error::custom(
                            "The only the first LambdaExecutorCommand can be MultipartUpload",
                        ),
                    )
                }
            },
            Some(LambdaExecutorCommand::DelegatedPartJobs(jobs)) => {
                if waiting {
                    Err(Error::custom("The first LambdaExecutorCommand must be MultipartUpload"))
                } else {
                    Ok(ExecutorAction::Send(batches_for_workers(jobs, workers, max_chunk)))
                }
            },
            None => {
                if waiting {
                    Err(Error::custom("The first LambdaExecutorCommand must be MultipartUpload"))
                } else {
                    Ok(ExecutorAction::Finish)
                }
            },
        }
    }
}

/// The body of a worker's answer.
pub fn response_payload(payload: Option<Vec<u8>>) -> (bytes: Result<Vec<u8>, Error>)
    ensures
        match payload {
            Some(body) => bytes == Ok::<Vec<u8>, Error>(body),
            None => bytes is Err && bytes->Err_0.text()
                == "Lambda worker did not return a response"@,
        },
{
    match payload {
        Some(body) => Ok(body),
        None => Err(Error::custom("Lambda worker did not return a response")),
    }
}

/// The jobs are dealt one by one, the last one first, to one worker after the other, so that
/// jobs that stand beside each other go to different workers.
pub proof fn jobs_are_dealt_in_turn<J>(jobs: Seq<J>, workers: int, max_chunk: int, i: int)
    requires
        workers > 0,
        0 <= i < jobs.len(),
    ensures
        batch_of(i, workers, max_chunk) % workers == i % workers,
        workers > 1 ==> batch_of(i, workers, max_chunk) % workers != batch_of(
            i + 1,
            workers,
            max_chunk,
        ) % workers,
        dealt_job(jobs, jobs.len() - 1 - i) == jobs[i],
{
    lemma_lane(i, workers, max_chunk);
    lemma_lane(i + 1, workers, max_chunk);
    if workers > 1 {
        lemma_next_turn(i, workers);
    }
}

proof fn lemma_lane(i: int, workers: int, max_chunk: int)
    requires
        workers > 0,
        0 <= i,
    ensures
        batch_of(i, workers, max_chunk) % workers == i % workers,
{
    let round = i / (workers * chunk_size(max_chunk));
    vstd::arithmetic::div_mod::lemma_mod_bound(i, workers);
    vstd::arithmetic::div_mod::lemma_fundamental_div_mod_converse(
        round * workers + i % workers,
        workers,
        round,
        i % workers,
    );
}

/// As many rounds are begun as the jobs fill, and one more; in each of them every worker gets
/// one batch, in turn.
pub proof fn workers_take_turns<J>(
    sent: Seq<WorkerBatch<J>>,
    jobs: Seq<J>,
    workers: int,
    max_chunk: int,
    rounds: int,
    round: int,
    lane: int,
)
    requires
        workers > 0,
        max_chunk > 0,
        sent_for(sent, jobs, workers, max_chunk),
        rounds > 0,
        (rounds - 1) * (workers * max_chunk) <= jobs.len() < rounds * (workers * max_chunk),
        0 <= round < rounds,
        0 <= lane < workers,
    ensures
        sent.len() == rounds * workers,
        0 <= round * workers + lane < sent.len(),
        sent[round * workers + lane].worker == lane,
        sent[round * workers + lane].jobs@.len() <= max_chunk,
{
    let size = workers * max_chunk;
    let n = jobs.len() as int;
    let rest = n - (rounds - 1) * size;
    assert(rounds * size == (rounds - 1) * size + size) by (nonlinear_arith);
    assert(n == (rounds - 1) * size + rest);
    vstd::arithmetic::div_mod::lemma_fundamental_div_mod_converse(n, size, rounds - 1, rest);
    let b = round * workers + lane;
    assert(0 <= b < rounds * workers) by (nonlinear_arith)
        requires
            b == round * workers + lane,
            0 <= round < rounds,
            0 <= lane < workers,
    ;
    vstd::arithmetic::div_mod::lemma_fundamental_div_mod_converse(b, workers, round, lane);
    batches_are_even(jobs, workers, max_chunk, round, lane, lane);
    assert(sent[b].worker == b % workers);
}

} // verus!
