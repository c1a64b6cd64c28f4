//! What a whole run over a slab ring hands over: writes, received leases and leases that are
//! given back, in any order, and then the flush.

use crate::slabs_ring::{
    filled, flush_hands_over_all, flushed, lease_fits, leased_bytes_stay, lemma_filled,
    lemma_free_behind, lemma_has_slabs, lemma_ready_bytes_kept, lemma_settled,
    lemma_settled_bytes, lemma_settled_wf, lemma_slab_count, lemma_slab_in_ring, own_lease,
    sealed, settled, unflushed, unsealed, writes_hand_over_full_slabs, writes_to, written,
    written_bytes_are_read, RingModel, Slab, SlabLease, SlabState, Writer,
};
use vstd::prelude::*;

verus! {

/// One call of the writer or of the reader.
pub enum RingStep {
    /// The writer writes these bytes, as far as they are taken.
    Write(Seq<u8>),
    /// The reader receives the next lease, if there is one.
    Receive,
    /// The reader gives back the lease that it holds at this place, if it does.
    GiveBack(int),
}

/// A ring, its two sides, and what has passed between them.
#[verifier::ext_equal]
pub struct RingRun {
    pub ring: RingModel,
    pub writer: Writer,
    /// The leases that the reader holds, each with the bytes that it had when it came.
    pub held: Seq<(SlabLease, Seq<u8>)>,
    /// All leases that the reader has received.
    pub received: Seq<SlabLease>,
    /// Their bytes, one behind the other.
    pub read: Seq<u8>,
    /// The bytes that the writes have taken, one behind the other.
    pub put: Seq<u8>,
}

/// A new ring of `slab_count` slabs of `slab_size` bytes.
pub open spec fn fresh_run(slab_size: usize, slab_count: usize) -> RingRun {
    RingRun {
        ring: RingModel {
            buf: Seq::new((slab_size * slab_count) as nat, |i: int| 0u8),
            slabs: Seq::new(
                slab_count as nat,
                |i: int|
                    (Slab {
                        state: if i == 0 {
                            SlabState::Filling
                        } else {
                            SlabState::Free
                        },
                    }),
            ),
            slab_size,
            ready: Seq::empty(),
            open: true,
        },
        writer: Writer { slab_idx: 0, offset: 0, waiting: false },
        held: Seq::empty(),
        received: Seq::empty(),
        read: Seq::empty(),
        put: Seq::empty(),
    }
}

/// The run after one more step.
pub open spec fn ring_stepped(run: RingRun, step: RingStep) -> RingRun {
    match step {
        RingStep::Write(data) => {
            let (ring, writer, taken) = written(run.ring, run.writer, data);
            RingRun { ring, writer, put: run.put + data.take(taken as int), ..run }
        },
        RingStep::Receive => if run.ring.ready.len() == 0 {
            run
        } else {
            let lease = run.ring.ready[0];
            let bytes = run.ring.leased(lease);
            RingRun {
                ring: RingModel { ready: run.ring.ready.skip(1), ..run.ring },
                held: run.held.push((lease, bytes)),
                received: run.received.push(lease),
                read: run.read + bytes,
                ..run
            }
        },
        RingStep::GiveBack(i) => if 0 <= i < run.held.len() {
            RingRun {
                ring: RingModel {
                    slabs: run.ring.slabs.update(
                        run.held[i].0.slab_idx as int,
                        (Slab { state: SlabState::Free }),
                    ),
                    ..run.ring
                },
                held: run.held.remove(i),
                ..run
            }
        } else {
            run
        },
    }
}

/// The run after all steps.
pub open spec fn ring_run(slab_size: usize, slab_count: usize, steps: Seq<RingStep>) -> RingRun
    decreases steps.len(),
{
    if steps.len() == 0 {
        fresh_run(slab_size, slab_count)
    } else {
        ring_stepped(ring_run(slab_size, slab_count, steps.drop_last()), steps.last())
    }
}

/// Length of a lease.
pub open spec fn lease_len(lease: SlabLease) -> int {
    lease.end - lease.start
}

/// What the reader holds is intact: each lease is on a sealed slab that nobody else has,
/// and it still has its bytes.
pub open spec fn holds(run: RingRun, i: int) -> bool {
    let (lease, bytes) = run.held[i];
    &&& lease_fits(run.ring, lease)
    &&& run.ring.leased(lease) == bytes
    &&& forall|j: int|
        0 <= j < run.ring.ready.len() ==> (#[trigger] run.ring.ready[j]).slab_idx != lease.slab_idx
    &&& forall|j: int|
        0 <= j < run.held.len() && j != i ==> (#[trigger] run.held[j]).0.slab_idx != lease.slab_idx
}

/// What holds after every step.
pub open spec fn run_wf(run: RingRun) -> bool {
    &&& run.ring.wf()
    &&& writes_to(run.ring, run.writer)
    &&& run.ring.buf.len() > 0
    &&& unflushed(run.ring, run.writer)
    &&& run.writer.waiting ==> run.writer.offset == run.ring.slab_size
    &&& forall|i: int|
        0 <= i < run.ring.ready.len() ==> lease_len(#[trigger] run.ring.ready[i])
            == run.ring.slab_size
    &&& forall|i: int|
        0 <= i < run.received.len() ==> lease_len(#[trigger] run.received[i]) == run.ring.slab_size
    &&& forall|i: int| 0 <= i < run.held.len() ==> #[trigger] holds(run, i)
    &&& run.read.len() == run.received.len() * run.ring.slab_size
    &&& run.read + run.ring.readable() + unsealed(run.ring, run.writer) == run.put
}

/// A write leaves a held lease alone, and a writer that waits has filled its slab.
proof fn lemma_write_keeps(ring: RingModel, w: Writer, data: Seq<u8>, lease: SlabLease)
    requires
        ring.wf(),
        writes_to(ring, w),
        ring.buf.len() > 0,
        w.waiting ==> w.offset == ring.slab_size,
        lease_fits(ring, lease) ==> forall|j: int|
            0 <= j < ring.ready.len() ==> (#[trigger] ring.ready[j]).slab_idx != lease.slab_idx,
    ensures
        ({
            let (r, v, _) = written(ring, w, data);
            &&& r.slab_size == ring.slab_size
            &&& r.buf.len() == ring.buf.len()
            &&& v.waiting ==> v.offset == r.slab_size
            &&& lease_fits(ring, lease) ==> forall|j: int|
                0 <= j < r.ready.len() ==> (#[trigger] r.ready[j]).slab_idx != lease.slab_idx
        }),
    decreases data.len(),
{
    lemma_has_slabs(ring);
    if data.len() > 0 {
        let (r1, w1) = settled(ring, w);
        lemma_settled(ring, w);
        lemma_settled_wf(ring, w);
        lemma_free_behind(ring.slabs, w.slab_idx as int, 1);
        lemma_free_behind(sealed(ring, w).slabs, w.slab_idx as int, 1);
        lemma_slab_count(ring);
        if lease_fits(ring, lease) {
            assert forall|j: int| 0 <= j < r1.ready.len() implies (
            #[trigger] r1.ready[j]).slab_idx != lease.slab_idx by {
                if j < ring.ready.len() {
                    assert(r1.ready[j] == ring.ready[j]);
                } else {
                    assert(r1.ready[j] == own_lease(ring, w));
                }
            }
        }
        if !w1.waiting {
            let room = r1.slab_size - w1.offset;
            let m = if data.len() < room {
                data.len() as int
            } else {
                room
            };
            let (r2, w2) = filled(r1, w1, data.take(m));
            lemma_filled(r1, w1, data.take(m));
            if lease_fits(ring, lease) {
                assert(lease_fits(r2, lease));
                lemma_write_keeps(r2, w2, data.skip(m), lease);
            } else {
                lemma_write_waits(r2, w2, data.skip(m));
            }
        }
    }
}

proof fn lemma_write_waits(ring: RingModel, w: Writer, data: Seq<u8>)
    requires
        ring.wf(),
        writes_to(ring, w),
        ring.buf.len() > 0,
        w.waiting ==> w.offset == ring.slab_size,
    ensures
        ({
            let (r, v, _) = written(ring, w, data);
            &&& r.slab_size == ring.slab_size
            &&& r.buf.len() == ring.buf.len()
            &&& v.waiting ==> v.offset == r.slab_size
        }),
    decreases data.len(),
{
    lemma_has_slabs(ring);
    if data.len() > 0 {
        let (r1, w1) = settled(ring, w);
        lemma_settled(ring, w);
        lemma_settled_wf(ring, w);
        lemma_slab_in_ring(ring, w.slab_idx as int);
        if !w1.waiting {
            let room = r1.slab_size - w1.offset;
            let m = if data.len() < room {
                data.len() as int
            } else {
                room
            };
            let (r2, w2) = filled(r1, w1, data.take(m));
            lemma_filled(r1, w1, data.take(m));
            lemma_write_waits(r2, w2, data.skip(m));
        }
    }
}

proof fn lemma_write_step(run: RingRun, data: Seq<u8>)
    requires
        run_wf(run),
    ensures
        run_wf(ring_stepped(run, RingStep::Write(data))),
        ring_stepped(run, RingStep::Write(data)).ring.slab_size == run.ring.slab_size,
{
    let next = ring_stepped(run, RingStep::Write(data));
    let (r, v, n) = written(run.ring, run.writer, data);
    written_bytes_are_read(run.ring, run.writer, data);
    writes_hand_over_full_slabs(run.ring, run.writer, data);
    lemma_write_waits(run.ring, run.writer, data);
    assert forall|i: int| 0 <= i < next.ring.ready.len() implies lease_len(
        #[trigger] next.ring.ready[i],
    ) == next.ring.slab_size by {
        if i < run.ring.ready.len() {
            assert(next.ring.ready.take(run.ring.ready.len() as int)[i] == run.ring.ready[i]);
        }
    }
    assert forall|i: int| 0 <= i < next.held.len() implies #[trigger] holds(next, i) by {
        assert(holds(run, i));
        let lease = run.held[i].0;
        if lease.slab_idx == run.writer.slab_idx {
            assert(run.writer.waiting);
        }
        leased_bytes_stay(run.ring, run.writer, data, lease);
        lemma_write_keeps(run.ring, run.writer, data, lease);
    }
    assert(next.read + next.ring.readable() + unsealed(next.ring, next.writer) =~= next.put) by {
        assert(next.read + (next.ring.readable() + unsealed(next.ring, next.writer))
            =~= next.read + next.ring.readable() + unsealed(next.ring, next.writer));
        assert(run.read + (run.ring.readable() + unsealed(run.ring, run.writer) + data.take(
            n as int,
        )) =~= run.read + run.ring.readable() + unsealed(run.ring, run.writer) + data.take(
            n as int,
        ));
    }
}

/// What waits for the reader is the first lease, and what waits behind it.
proof fn lemma_ready_first(ring: RingModel, n: nat)
    requires
        0 < n <= ring.ready.len(),
    ensures
        ring.ready_bytes(n) == ring.leased(ring.ready[0]) + (RingModel {
            ready: ring.ready.skip(1),
            ..ring
        }).ready_bytes((n - 1) as nat),
    decreases n,
{
    let rest = RingModel { ready: ring.ready.skip(1), ..ring };
    let first = ring.leased(ring.ready[0]);
    if n == 1 {
        assert(ring.ready_bytes(0) =~= Seq::empty());
        assert(ring.ready_bytes(1) =~= first + rest.ready_bytes(0));
    } else {
        lemma_ready_first(ring, (n - 1) as nat);
        assert(ring.ready[n - 1] == rest.ready[n - 2]);
        assert(ring.ready_bytes(n) =~= first + rest.ready_bytes((n - 1) as nat));
    }
}

proof fn lemma_receive_step(run: RingRun)
    requires
        run_wf(run),
    ensures
        run_wf(ring_stepped(run, RingStep::Receive)),
        ring_stepped(run, RingStep::Receive).ring.slab_size == run.ring.slab_size,
{
    let next = ring_stepped(run, RingStep::Receive);
    if run.ring.ready.len() > 0 {
        let lease = run.ring.ready[0];
        let bytes = run.ring.leased(lease);
        assert(lease_fits(run.ring, lease));
        assert(lease_len(lease) == run.ring.slab_size);
        lemma_slab_in_ring(run.ring, lease.slab_idx as int);
        lemma_ready_first(run.ring, run.ring.ready.len());
        assert forall|i: int| 0 <= i < next.ring.ready.len() implies (
        #[trigger] next.ring.ready[i]) == run.ring.ready[i + 1] by {}
        assert forall|i: int| 0 <= i < next.ring.ready.len() implies lease_fits(
            next.ring,
            #[trigger] next.ring.ready[i],
        ) by {
            assert(lease_fits(run.ring, run.ring.ready[i + 1]));
        }
        assert(next.ring.wf());
        assert forall|i: int| 0 <= i < next.ring.ready.len() implies lease_len(
            #[trigger] next.ring.ready[i],
        ) == next.ring.slab_size by {
            assert(lease_len(run.ring.ready[i + 1]) == run.ring.slab_size);
        }
        assert forall|i: int| 0 <= i < next.received.len() implies lease_len(
            #[trigger] next.received[i],
        ) == next.ring.slab_size by {
            if i < run.received.len() {
                assert(next.received[i] == run.received[i]);
            }
        }
        assert forall|i: int| 0 <= i < next.held.len() implies #[trigger] holds(next, i) by {
            if i < run.held.len() {
                assert(holds(run, i));
                assert(next.held[i] == run.held[i]);
                assert(run.ring.ready[0].slab_idx != run.held[i].0.slab_idx);
                assert forall|j: int| 0 <= j < next.held.len() && j != i implies (
                #[trigger] next.held[j]).0.slab_idx != next.held[i].0.slab_idx by {
                    if j < run.held.len() {
                        assert(next.held[j] == run.held[j]);
                    }
                }
            } else {
                assert forall|j: int| 0 <= j < next.held.len() && j != i implies (
                #[trigger] next.held[j]).0.slab_idx != next.held[i].0.slab_idx by {
                    assert(holds(run, j));
                    assert(next.held[j] == run.held[j]);
                    assert(run.ring.ready[0].slab_idx != run.held[j].0.slab_idx);
                }
                assert forall|j: int| 0 <= j < next.ring.ready.len() implies (
                #[trigger] next.ring.ready[j]).slab_idx != lease.slab_idx by {
                    assert(run.ring.ready[j + 1].slab_idx != run.ring.ready[0].slab_idx);
                }
            }
        }
        assert(bytes.len() == run.ring.slab_size);
        assert(next.read.len() == next.received.len() * next.ring.slab_size) by (nonlinear_arith)
            requires
                next.read.len() == run.read.len() + run.ring.slab_size,
                run.read.len() == run.received.len() * run.ring.slab_size,
                next.received.len() == run.received.len() + 1,
                next.ring.slab_size == run.ring.slab_size,
        ;
        assert(next.read + next.ring.readable() + unsealed(next.ring, next.writer) =~= run.read
            + run.ring.readable() + unsealed(run.ring, run.writer));
    }
}

proof fn lemma_give_back_step(run: RingRun, i: int)
    requires
        run_wf(run),
    ensures
        run_wf(ring_stepped(run, RingStep::GiveBack(i))),
        ring_stepped(run, RingStep::GiveBack(i)).ring.slab_size == run.ring.slab_size,
{
    let next = ring_stepped(run, RingStep::GiveBack(i));
    if 0 <= i < run.held.len() {
        assert(holds(run, i));
        let k = run.held[i].0.slab_idx;
        assert forall|j: int| 0 <= j < next.ring.ready.len() implies lease_fits(
            next.ring,
            #[trigger] next.ring.ready[j],
        ) by {
            assert(lease_fits(run.ring, run.ring.ready[j]));
            assert(run.ring.ready[j].slab_idx != k);
        }
        assert(next.ring.wf());
        lemma_ready_bytes_kept(run.ring, next.ring, run.ring.ready.len());
        assert forall|j: int| 0 <= j < next.held.len() implies #[trigger] holds(next, j) by {
            let p = if j < i {
                j
            } else {
                j + 1
            };
            assert(next.held[j] == run.held[p]);
            assert(holds(run, p));
            assert(run.held[p].0.slab_idx != k);
            assert forall|t: int| 0 <= t < next.held.len() && t != j implies (
            #[trigger] next.held[t]).0.slab_idx != next.held[j].0.slab_idx by {
                let q = if t < i {
                    t
                } else {
                    t + 1
                };
                assert(next.held[t] == run.held[q]);
            }
        }
    }
}

proof fn lemma_fresh(slab_size: usize, slab_count: usize)
    requires
        slab_size > 0,
        slab_count > 0,
        slab_size * slab_count <= usize::MAX,
    ensures
        run_wf(fresh_run(slab_size, slab_count)),
{
    let run = fresh_run(slab_size, slab_count);
    assert(slab_size * slab_count > 0) by (nonlinear_arith)
        requires
            slab_size > 0,
            slab_count > 0,
    ;
    assert(run.writer.slab_idx * run.ring.slab_size == 0) by (nonlinear_arith)
        requires
            run.writer.slab_idx == 0,
    ;
    assert(run.received.len() * run.ring.slab_size == 0) by (nonlinear_arith)
        requires
            run.received.len() == 0,
    ;
    assert(run.ring.readable() =~= Seq::empty());
    assert(unsealed(run.ring, run.writer) =~= Seq::empty());
    assert(run.read + run.ring.readable() + unsealed(run.ring, run.writer) =~= run.put);
}

/// In every run, however writes and reads are interleaved, what was read, what waits for
/// the reader, and what the writer has still in its slab are together, in this order, what
/// was written. The reader has received full slabs only, and every lease keeps its bytes as
/// long as it is held.
pub proof fn runs_read_what_was_written(
    slab_size: usize,
    slab_count: usize,
    steps: Seq<RingStep>,
)
    requires
        slab_size > 0,
        slab_count > 0,
        slab_size * slab_count <= usize::MAX,
    ensures
        ({
            let run = ring_run(slab_size, slab_count, steps);
            &&& run_wf(run)
            &&& run.ring.slab_size == slab_size
            &&& run.read + run.ring.readable() + unsealed(run.ring, run.writer) == run.put
        }),
    decreases steps.len(),
{
    if steps.len() == 0 {
        lemma_fresh(slab_size, slab_count);
    } else {
        let before = steps.drop_last();
        runs_read_what_was_written(slab_size, slab_count, before);
        let run = ring_run(slab_size, slab_count, before);
        match steps.last() {
            RingStep::Write(data) => lemma_write_step(run, data),
            RingStep::Receive => lemma_receive_step(run),
            RingStep::GiveBack(i) => lemma_give_back_step(run, i),
        }
    }
}

proof fn lemma_ready_len(ring: RingModel, n: nat)
    requires
        ring.wf(),
        n <= ring.ready.len(),
        forall|i: int|
            0 <= i < ring.ready.len() ==> lease_len(#[trigger] ring.ready[i]) == ring.slab_size,
    ensures
        ring.ready_bytes(n).len() == n * ring.slab_size,
    decreases n,
{
    if n > 0 {
        let lease = ring.ready[n - 1];
        assert(lease_fits(ring, lease));
        lemma_slab_in_ring(ring, lease.slab_idx as int);
        lemma_ready_len(ring, (n - 1) as nat);
        assert(ring.ready_bytes(n).len() == ring.ready_bytes((n - 1) as nat).len()
            + ring.slab_size);
        assert(n * ring.slab_size == (n - 1) * ring.slab_size + ring.slab_size)
            by (nonlinear_arith);
    } else {
        assert(0 * ring.slab_size == 0);
    }
}

/// After the flush that ends a run, the leases that were received and those that still wait
/// hold, in this order, exactly what was written. All of them but the last are full slabs,
/// the last holds something, and where nothing was written there is none.
pub proof fn flushed_runs_hand_over_all(
    slab_size: usize,
    slab_count: usize,
    steps: Seq<RingStep>,
)
    requires
        slab_size > 0,
        slab_count > 0,
        slab_size * slab_count <= usize::MAX,
        !ring_run(slab_size, slab_count, steps).writer.waiting,
    ensures
        ({
            let run = ring_run(slab_size, slab_count, steps);
            let after = flushed(run.ring, run.writer);
            let leases = run.received + after.ready;
            &&& run.read + after.readable() == run.put
            &&& forall|i: int|
                0 <= i < leases.len() - 1 ==> lease_len(#[trigger] leases[i]) == slab_size
            &&& leases.len() > 0 ==> 1 <= lease_len(leases.last()) <= slab_size
            &&& run.put.len() == 0 ==> leases.len() == 0
        }),
{
    let run = ring_run(slab_size, slab_count, steps);
    let after = flushed(run.ring, run.writer);
    let leases = run.received + after.ready;
    runs_read_what_was_written(slab_size, slab_count, steps);
    lemma_has_slabs(run.ring);
    flush_hands_over_all(run.ring, run.writer);
    lemma_slab_in_ring(run.ring, run.writer.slab_idx as int);
    assert(run.read + after.readable() =~= run.put) by {
        assert(run.read + (run.ring.readable() + unsealed(run.ring, run.writer)) =~= run.read
            + run.ring.readable() + unsealed(run.ring, run.writer));
    }
    let size = slab_size as int;
    let own = run.writer.offset > 0;
    assert(after.ready == if own {
        run.ring.ready.push(own_lease(run.ring, run.writer))
    } else {
        run.ring.ready
    });
    assert forall|i: int| 0 <= i < leases.len() && !(own && i == leases.len() - 1) implies
        lease_len(#[trigger] leases[i]) == slab_size by {
        if i < run.received.len() {
            assert(leases[i] == run.received[i]);
        } else {
            assert(leases[i] == run.ring.ready[i - run.received.len()]);
        }
    }
    if own {
        assert(leases.last() == own_lease(run.ring, run.writer));
        assert(unsealed(run.ring, run.writer).len() == run.writer.offset);
    }
    if run.put.len() == 0 {
        lemma_ready_len(run.ring, run.ring.ready.len());
        assert(run.received.len() == 0) by (nonlinear_arith)
            requires
                run.received.len() * run.ring.slab_size == 0,
                run.ring.slab_size > 0,
        ;
        assert(run.ring.ready.len() == 0) by (nonlinear_arith)
            requires
                run.ring.ready.len() * run.ring.slab_size == 0,
                run.ring.slab_size > 0,
        ;
    }
}

proof fn lemma_reached(current: int, k: int, n: int)
    requires
        0 <= current < n,
        0 <= k < n,
        k != current,
    ensures
        ({
            let d = if k > current {
                k - current
            } else {
                k - current + n
            };
            1 <= d < n && (current + d) % n == k
        }),
{
    if k > current {
        vstd::arithmetic::div_mod::lemma_small_mod(k as nat, n as nat);
    } else {
        vstd::arithmetic::div_mod::lemma_mod_sub_multiples_vanish(k + n, n);
        vstd::arithmetic::div_mod::lemma_small_mod(k as nat, n as nat);
    }
}

/// A writer does not wait while there is a slab to go to: where a slab other than its own
/// is free, a write takes something.
pub proof fn free_slabs_are_claimed(ring: RingModel, w: Writer, data: Seq<u8>, k: int)
    requires
        ring.wf(),
        writes_to(ring, w),
        ring.buf.len() > 0,
        data.len() > 0,
        0 <= k < ring.slabs.len(),
        k != w.slab_idx,
        ring.slabs[k].state == SlabState::Free,
    ensures
        written(ring, w, data).2 > 0,
{
    lemma_has_slabs(ring);
    let (r1, w1) = settled(ring, w);
    lemma_settled(ring, w);
    lemma_reached(w.slab_idx as int, k, ring.slabs.len() as int);
    lemma_free_behind(ring.slabs, w.slab_idx as int, 1);
    lemma_free_behind(sealed(ring, w).slabs, w.slab_idx as int, 1);
    let d = if k > w.slab_idx {
        k - w.slab_idx
    } else {
        k - w.slab_idx + ring.slabs.len()
    };
    assert(ring.slabs[(w.slab_idx + d) % (ring.slabs.len() as int)].state == SlabState::Free);
    assert(sealed(ring, w).slabs[(w.slab_idx + d) % (ring.slabs.len() as int)].state
        == SlabState::Free);
    if w.waiting || w.offset == ring.slab_size {
        assert(!w1.waiting);
    }
}

/// Whether a sealed slab waits for the reader or is held by it.
pub open spec fn accounted(run: RingRun, k: int) -> bool {
    ||| exists|j: int| 0 <= j < run.ring.ready.len() && (#[trigger] run.ring.ready[j]).slab_idx == k
    ||| exists|j: int| 0 <= j < run.held.len() && (#[trigger] run.held[j]).0.slab_idx == k
}

/// A slab that a write seals waits for the reader.
proof fn lemma_write_accounts(ring: RingModel, w: Writer, data: Seq<u8>, k: int)
    requires
        ring.wf(),
        writes_to(ring, w),
        ring.buf.len() > 0,
        unflushed(ring, w),
        0 <= k < ring.slabs.len(),
    ensures
        ({
            let (r, _, _) = written(ring, w, data);
            &&& r.slabs.len() == ring.slabs.len()
            &&& r.slabs[k].state == SlabState::Ready ==> ring.slabs[k].state == SlabState::Ready
                || exists|j: int|
                0 <= j < r.ready.len() && (#[trigger] r.ready[j]).slab_idx == k
        }),
    decreases data.len(),
{
    lemma_has_slabs(ring);
    if data.len() > 0 {
        let (r1, w1) = settled(ring, w);
        let (r, _, _) = written(ring, w, data);
        lemma_settled(ring, w);
        lemma_settled_wf(ring, w);
        lemma_settled_bytes(ring, w);
        lemma_free_behind(ring.slabs, w.slab_idx as int, 1);
        lemma_free_behind(sealed(ring, w).slabs, w.slab_idx as int, 1);
        let full = !w.waiting && w.offset == ring.slab_size;
        if full {
            assert(r1.ready[r1.ready.len() - 1] == own_lease(ring, w));
        }
        assert(r1.slabs[k].state == SlabState::Ready ==> ring.slabs[k].state == SlabState::Ready
            || full && k == w.slab_idx);
        if w1.waiting {
            if full && k == w.slab_idx {
                assert(r.ready[r1.ready.len() - 1].slab_idx == k);
            }
        } else {
            let room = r1.slab_size - w1.offset;
            let m = if data.len() < room {
                data.len() as int
            } else {
                room
            };
            let (r2, w2) = filled(r1, w1, data.take(m));
            lemma_filled(r1, w1, data.take(m));
            lemma_write_accounts(r2, w2, data.skip(m), k);
            writes_hand_over_full_slabs(r2, w2, data.skip(m));
            if full && k == w.slab_idx {
                let j = r1.ready.len() - 1;
                assert(r.ready.take(r2.ready.len() as int)[j] == r1.ready[j]);
                assert(r.ready[j].slab_idx == k);
            }
        }
    }
}

proof fn lemma_accounted(slab_size: usize, slab_count: usize, steps: Seq<RingStep>, k: int)
    requires
        slab_size > 0,
        slab_count > 0,
        slab_size * slab_count <= usize::MAX,
        0 <= k < slab_count,
    ensures
        ({
            let run = ring_run(slab_size, slab_count, steps);
            &&& run.ring.slabs.len() == slab_count
            &&& run.ring.slabs[k].state == SlabState::Ready ==> accounted(run, k)
        }),
    decreases steps.len(),
{
    if steps.len() > 0 {
        let before = ring_run(slab_size, slab_count, steps.drop_last());
        let run = ring_run(slab_size, slab_count, steps);
        runs_read_what_was_written(slab_size, slab_count, steps.drop_last());
        lemma_accounted(slab_size, slab_count, steps.drop_last(), k);
        if let RingStep::Write(data) = steps.last() {
            lemma_write_accounts(before.ring, before.writer, data, k);
        }
        if let RingStep::GiveBack(i) = steps.last() {
            if 0 <= i < before.held.len() {
                assert(holds(before, i));
            }
        }
        if run.ring.slabs[k].state == SlabState::Ready {
            match steps.last() {
                RingStep::Write(data) => {
                    writes_hand_over_full_slabs(before.ring, before.writer, data);
                    if exists|j: int|
                        0 <= j < before.ring.ready.len() && (
                        #[trigger] before.ring.ready[j]).slab_idx == k {
                        let j = choose|j: int|
                            0 <= j < before.ring.ready.len() && (
                            #[trigger] before.ring.ready[j]).slab_idx == k;
                        assert(run.ring.ready.take(before.ring.ready.len() as int)[j]
                            == before.ring.ready[j]);
                        assert(run.ring.ready[j].slab_idx == k);
                    } else if before.ring.slabs[k].state == SlabState::Ready {
                        let j = choose|j: int|
                            0 <= j < before.held.len() && (#[trigger] before.held[j]).0.slab_idx
                                == k;
                        assert(run.held[j].0.slab_idx == k);
                    }
                },
                RingStep::Receive => {
                    if before.ring.ready.len() > 0 {
                        if exists|j: int|
                            0 <= j < before.ring.ready.len() && (
                            #[trigger] before.ring.ready[j]).slab_idx == k {
                            let j = choose|j: int|
                                0 <= j < before.ring.ready.len() && (
                                #[trigger] before.ring.ready[j]).slab_idx == k;
                            if j == 0 {
                                assert(run.held[before.held.len() as int].0.slab_idx == k);
                            } else {
                                assert(run.ring.ready[j - 1].slab_idx == k);
                            }
                        } else {
                            let j = choose|j: int|
                                0 <= j < before.held.len() && (
                                #[trigger] before.held[j]).0.slab_idx == k;
                            assert(run.held[j].0.slab_idx == k);
                        }
                    }
                },
                RingStep::GiveBack(i) => {
                    if 0 <= i < before.held.len() {
                        assert(holds(before, i));
                        if !exists|j: int|
                            0 <= j < before.ring.ready.len() && (
                            #[trigger] before.ring.ready[j]).slab_idx == k {
                            let j = choose|j: int|
                                0 <= j < before.held.len() && (
                                #[trigger] before.held[j]).0.slab_idx == k;
                            let p = if j < i {
                                j
                            } else {
                                j - 1
                            };
                            assert(j != i);
                            assert(run.held[p].0.slab_idx == k);
                        }
                    }
                },
            }
        }
    }
}

/// A reader that receives and gives back keeps the writer going: where every lease has been
/// received and given back, a write on a ring of at least two slabs takes something.
pub proof fn drained_runs_go_on(
    slab_size: usize,
    slab_count: usize,
    steps: Seq<RingStep>,
    data: Seq<u8>,
)
    requires
        slab_size > 0,
        slab_count >= 2,
        slab_size * slab_count <= usize::MAX,
        ring_run(slab_size, slab_count, steps).held.len() == 0,
        ring_run(slab_size, slab_count, steps).ring.ready.len() == 0,
        data.len() > 0,
    ensures
        ({
            let run = ring_run(slab_size, slab_count, steps);
            written(run.ring, run.writer, data).2 > 0
        }),
{
    let run = ring_run(slab_size, slab_count, steps);
    runs_read_what_was_written(slab_size, slab_count, steps);
    lemma_accounted(slab_size, slab_count, steps, 0);
    let k: int = if run.writer.slab_idx == 0 {
        1
    } else {
        0
    };
    lemma_accounted(slab_size, slab_count, steps, k);
    assert(run.ring.slabs[k].state != SlabState::Ready);
    assert(run.ring.slabs[k].state != SlabState::Filling);
    free_slabs_are_claimed(run.ring, run.writer, data, k);
}

} // verus!
