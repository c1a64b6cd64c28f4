//! A ring of byte slabs of one size, between one writer and one reader.
//!
//! The buffer is one allocation, carved into slabs. Each slab goes from free to filling to
//! ready and back to free. The writer fills one slab after the other and seals each as it
//! gets full; the reader gets a lease on every sealed slab, in order, and the slab is free
//! again once the lease is given back. Where no slab is free the writer has to wait.

use crate::shared_buffer::patched;
use vstd::prelude::*;
use vstd::string::StringExecFns;

verus! {

/// Where a slab stands in its life.
#[derive(Debug, Clone, Copy, PartialEq, Eq, Structural)]
pub enum SlabState {
    /// The writer may claim it.
    Free,
    /// The writer is filling it.
    Filling,
    /// It is sealed, and the reader's.
    Ready,
}

/// The state of one slab.
#[derive(Debug)]
pub struct Slab {
    pub state: SlabState,
}

impl Slab {
    /// A slab in the given state.
    pub fn new(state: SlabState) -> (slab: Slab)
        ensures
            slab.state == state,
    {
        Slab { state }
    }

    /// The state of the slab.
    pub fn state(&self) -> (state: SlabState)
        ensures
            state == self.state,
    {
        self.state
    }

    /// Puts the slab into a state and tells the one that it was in.
    pub fn swap_state(&mut self, new_state: SlabState) -> (prev: SlabState)
        ensures
            prev == old(self).state,
            final(self).state == new_state,
    {
        let prev: SlabState = self.state;
        self.state = new_state;
        prev
    }

    /// Puts the slab into a state.
    pub fn set_state(&mut self, new_state: SlabState)
        ensures
            final(self).state == new_state,
    {
        self.state = new_state;
    }
}

/// The right to read a sealed slab, from `start` up to `end` in the buffer.
#[derive(Debug)]
pub struct SlabLease {
    pub slab_idx: usize,
    pub start: usize,
    pub end: usize,
}

/// The buffer, its slabs, and the leases that wait for the reader.
#[derive(Debug)]
pub struct SlabRing {
    pub buf: Vec<u8>,
    pub slabs: Vec<Slab>,
    pub slab_size: usize,
    pub ready: Vec<SlabLease>,
    /// Whether there is a writer still.
    pub open: bool,
}

/// The side that writes.
#[derive(Debug)]
pub struct Writer {
    pub slab_idx: usize,
    /// How much of the slab is written.
    pub offset: usize,
    /// Whether the slab is sealed and another one has still to be claimed.
    pub waiting: bool,
}

/// The side that reads.
#[derive(Debug)]
pub struct Reader {}

/// What the reader finds.
#[derive(Debug)]
pub enum Received {
    /// A sealed slab.
    Lease(SlabLease),
    /// Nothing yet.
    Wait,
    /// Nothing, and no writer any more.
    Closed,
}

/// Why nothing was written.
#[derive(Debug, Clone, Copy, PartialEq, Eq, Structural)]
pub enum WriteError {
    /// The ring has no bytes at all.
    ZeroSpace,
}

impl WriteError {
    /// The error in words.
    pub fn message(&self) -> (text: String)
        ensures
            text@ == "This SlabRing buffer has 0 space"@,
    {
        String::from_str("This SlabRing buffer has 0 space")
    }
}

/// `SlabRing` with its parts as sequences.
#[verifier::ext_equal]
pub struct RingModel {
    pub buf: Seq<u8>,
    pub slabs: Seq<Slab>,
    pub slab_size: usize,
    pub ready: Seq<SlabLease>,
    pub open: bool,
}

impl View for SlabRing {
    type V = RingModel;

    open spec fn view(&self) -> RingModel {
        RingModel {
            buf: self.buf@,
            slabs: self.slabs@,
            slab_size: self.slab_size,
            ready: self.ready@,
            open: self.open,
        }
    }
}

/// A lease is on a sealed slab and stays inside it.
pub open spec fn lease_fits(ring: RingModel, lease: SlabLease) -> bool {
    &&& lease.slab_idx < ring.slabs.len()
    &&& lease.start == lease.slab_idx * ring.slab_size
    &&& lease.start <= lease.end <= lease.start + ring.slab_size
    &&& ring.slabs[lease.slab_idx as int].state == SlabState::Ready
}

impl RingModel {
    /// The slabs make up the buffer, and no slab waits for the reader twice.
    pub open spec fn wf(self) -> bool {
        &&& self.buf.len() == self.slab_size * self.slabs.len()
        &&& self.buf.len() <= usize::MAX
        &&& forall|i: int| 0 <= i < self.ready.len() ==> lease_fits(self, #[trigger] self.ready[i])
        &&& forall|i: int, j: int|
            0 <= i < j < self.ready.len() ==> (#[trigger] self.ready[i]).slab_idx != (
            #[trigger] self.ready[j]).slab_idx
    }

    /// The bytes of a lease.
    pub open spec fn leased(self, lease: SlabLease) -> Seq<u8> {
        self.buf.subrange(lease.start as int, lease.end as int)
    }

    /// The bytes of the first `n` leases that wait for the reader.
    pub open spec fn ready_bytes(self, n: nat) -> Seq<u8>
        decreases n,
    {
        if n == 0 {
            Seq::empty()
        } else {
            self.ready_bytes((n - 1) as nat) + self.leased(self.ready[n - 1])
        }
    }

    /// All bytes that wait for the reader.
    pub open spec fn readable(self) -> Seq<u8> {
        self.ready_bytes(self.ready.len())
    }
}

/// The writer is inside a slab of the ring, and no other slab is being filled.
pub open spec fn writes_to(ring: RingModel, w: Writer) -> bool {
    &&& ring.slabs.len() > 0 ==> w.slab_idx < ring.slabs.len()
    &&& w.offset <= ring.slab_size
    &&& forall|k: int|
        0 <= k < ring.slabs.len() && (#[trigger] ring.slabs[k]).state == SlabState::Filling ==> k
            == w.slab_idx && !w.waiting
}

/// The writer's slab is not sealed, or the writer is about to leave it: nothing has been
/// flushed.
pub open spec fn unflushed(ring: RingModel, w: Writer) -> bool {
    w.waiting || ring.slabs[w.slab_idx as int].state == SlabState::Filling
}

/// What stands in the writer's slab and is not sealed.
pub open spec fn unsealed(ring: RingModel, w: Writer) -> Seq<u8> {
    let start = w.slab_idx * ring.slab_size;
    if w.waiting {
        Seq::empty()
    } else {
        ring.buf.subrange(start, start + w.offset)
    }
}

/// The lease on what the writer has written.
pub open spec fn own_lease(ring: RingModel, w: Writer) -> SlabLease {
    SlabLease {
        slab_idx: w.slab_idx,
        start: (w.slab_idx * ring.slab_size) as usize,
        end: (w.slab_idx * ring.slab_size + w.offset) as usize,
    }
}

/// The ring after the writer's slab is sealed. Where it was being filled, a lease on it is
/// handed over.
pub open spec fn sealed(ring: RingModel, w: Writer) -> RingModel {
    RingModel {
        slabs: ring.slabs.update(w.slab_idx as int, (Slab { state: SlabState::Ready })),
        ready: if ring.slabs[w.slab_idx as int].state == SlabState::Filling {
            ring.ready.push(own_lease(ring, w))
        } else {
            ring.ready
        },
        ..ring
    }
}

/// The first free slab at a distance of `d` or more behind slab `current`, going round once.
pub open spec fn free_behind(slabs: Seq<Slab>, current: int, d: int) -> Option<int>
    decreases slabs.len() - d,
{
    let k = (current + d) % (slabs.len() as int);
    if d >= slabs.len() {
        None
    } else if slabs[k].state == SlabState::Free {
        Some(k)
    } else {
        free_behind(slabs, current, d + 1)
    }
}

/// The ring and the writer after a try to claim a free slab.
pub open spec fn advanced(ring: RingModel, w: Writer) -> (RingModel, Writer) {
    match free_behind(ring.slabs, w.slab_idx as int, 1) {
        Some(k) => (
            RingModel {
                slabs: ring.slabs.update(k, (Slab { state: SlabState::Filling })),
                ..ring
            },
            Writer { slab_idx: k as usize, offset: 0, waiting: false },
        ),
        None => (ring, Writer { waiting: true, ..w }),
    }
}

/// The ring and the writer after it has left a full slab, or has tried to.
pub open spec fn settled(ring: RingModel, w: Writer) -> (RingModel, Writer) {
    if w.waiting {
        advanced(ring, w)
    } else if w.offset == ring.slab_size {
        advanced(sealed(ring, w), w)
    } else {
        (ring, w)
    }
}

/// The ring and the writer after `bytes`, which find room, are put into its slab.
pub open spec fn filled(ring: RingModel, w: Writer, bytes: Seq<u8>) -> (RingModel, Writer) {
    (
        RingModel {
            buf: patched(ring.buf, w.slab_idx * ring.slab_size + w.offset, bytes),
            ..ring
        },
        Writer { offset: (w.offset + bytes.len()) as usize, ..w },
    )
}

/// The ring and the writer after a write, and how much of `data` was taken: all of it,
/// unless the writer has to wait.
pub open spec fn written(ring: RingModel, w: Writer, data: Seq<u8>) -> (RingModel, Writer, nat)
    decreases data.len(),
{
    if data.len() == 0 {
        (ring, w, 0)
    } else {
        let (r1, w1) = settled(ring, w);
        let room = r1.slab_size - w1.offset;
        if w1.waiting || room <= 0 {
            (r1, w1, 0)
        } else {
            let n = if data.len() < room {
                data.len() as int
            } else {
                room
            };
            let (r2, w2) = filled(r1, w1, data.take(n));
            let (r3, w3, m) = written(r2, w2, data.skip(n));
            (r3, w3, (n + m) as nat)
        }
    }
}

/// The ring after a flush.
pub open spec fn flushed(ring: RingModel, w: Writer) -> RingModel {
    if ring.buf.len() == 0 || w.offset == 0 {
        ring
    } else {
        sealed(ring, w)
    }
}

proof fn lemma_slab_inside(i: int, n: int, size: int)
    requires
        0 <= i < n,
        0 <= size,
    ensures
        0 <= i * size,
        i * size + size <= n * size,
{
    assert(i * size + size <= n * size) by (nonlinear_arith)
        requires
            0 <= i < n,
            0 <= size,
    ;
    assert(0 <= i * size) by (nonlinear_arith)
        requires
            0 <= i,
            0 <= size,
    ;
}

pub(crate) proof fn lemma_slab_in_ring(ring: RingModel, i: int)
    requires
        ring.wf(),
        0 <= i < ring.slabs.len(),
    ensures
        0 <= i * ring.slab_size,
        i * ring.slab_size + ring.slab_size <= ring.buf.len(),
{
    lemma_slab_inside(i, ring.slabs.len() as int, ring.slab_size as int);
    vstd::arithmetic::mul::lemma_mul_is_commutative(
        ring.slabs.len() as int,
        ring.slab_size as int,
    );
}

pub(crate) proof fn lemma_slab_count(ring: RingModel)
    requires
        ring.wf(),
        ring.slab_size > 0,
    ensures
        ring.slabs.len() <= usize::MAX,
{
    assert(ring.slabs.len() <= usize::MAX) by (nonlinear_arith)
        requires
            ring.slab_size > 0,
            ring.slab_size * ring.slabs.len() <= usize::MAX,
    ;
}

pub(crate) proof fn lemma_free_behind(slabs: Seq<Slab>, current: int, d: int)
    requires
        0 <= current < slabs.len(),
        1 <= d,
    ensures
        free_behind(slabs, current, d) matches Some(k) ==> {
            &&& 0 <= k < slabs.len()
            &&& slabs[k].state == SlabState::Free
            &&& k != current
        },
        free_behind(slabs, current, d) is None ==> forall|e: int|
            d <= e < slabs.len() ==> (#[trigger] slabs[(current + e) % (slabs.len() as int)]).state
                != SlabState::Free,
    decreases slabs.len() - d,
{
    if d < slabs.len() {
        let n = slabs.len() as int;
        vstd::arithmetic::div_mod::lemma_mod_bound(current + d, n);
        assert((current + d) % n != current) by {
            if current + d < n {
                vstd::arithmetic::div_mod::lemma_small_mod((current + d) as nat, n as nat);
            } else {
                vstd::arithmetic::div_mod::lemma_mod_sub_multiples_vanish(current + d, n);
                vstd::arithmetic::div_mod::lemma_small_mod((current + d - n) as nat, n as nat);
            }
        }
        lemma_free_behind(slabs, current, d + 1);
        if free_behind(slabs, current, d) is None {
            assert forall|e: int| d <= e < slabs.len() implies (#[trigger] slabs[(current + e)
                % (slabs.len() as int)]).state != SlabState::Free by {}
        }
    }
}

impl SlabRing {
    /// A ring of `slab_count` slabs of `slab_size` bytes, the first of them being filled by
    /// the writer.
    pub fn create(slab_size: usize, slab_count: usize) -> (made: (SlabRing, Writer, Reader))
        requires
            slab_size * slab_count <= usize::MAX,
        ensures
            made.0@.wf(),
            writes_to(made.0@, made.1),
            made.0@.buf == Seq::new((slab_size * slab_count) as nat, |i: int| 0u8),
            made.0@.slab_size == slab_size,
            made.0@.slabs == Seq::new(
                slab_count as nat,
                |i: int|
                    (Slab {
                        state: if i == 0 {
                            SlabState::Filling
                        } else {
                            SlabState::Free
                        },
                    }),
            ),
            made.0@.ready == Seq::<SlabLease>::empty(),
            made.0@.open,
            made.1 == (Writer { slab_idx: 0, offset: 0, waiting: false }),
    {
        let buf: Vec<u8> = vec![0u8; slab_size * slab_count];
        assert(buf@ =~= Seq::new((slab_size * slab_count) as nat, |i: int| 0u8));
        let mut slabs: Vec<Slab> = Vec::new();
        for i in 0..slab_count
            invariant
                slabs@.len() == i,
                forall|k: int|
                    0 <= k < i ==> (#[trigger] slabs@[k]).state == SlabState::Free,
        {
            slabs.push(Slab::new(SlabState::Free));
        }
        if slabs.len() > 0 {
            slabs.set(0, Slab::new(SlabState::Filling));
        }
        let ring: SlabRing = SlabRing { buf, slabs, slab_size, ready: Vec::new(), open: true };
        (ring, Writer { slab_idx: 0, offset: 0, waiting: false }, Reader {  })
    }

    /// The same as `create`.
    pub fn new(slab_size: usize, slab_count: usize) -> (made: (SlabRing, Writer, Reader))
        requires
            slab_size * slab_count <= usize::MAX,
        ensures
            made.0@.wf(),
            writes_to(made.0@, made.1),
            made.0@.buf == Seq::new((slab_size * slab_count) as nat, |i: int| 0u8),
            made.0@.slab_size == slab_size,
            made.0@.slabs == Seq::new(
                slab_count as nat,
                |i: int|
                    (Slab {
                        state: if i == 0 {
                            SlabState::Filling
                        } else {
                            SlabState::Free
                        },
                    }),
            ),
            made.0@.ready == Seq::<SlabLease>::empty(),
            made.0@.open,
            made.1 == (Writer { slab_idx: 0, offset: 0, waiting: false }),
    {
        SlabRing::create(slab_size, slab_count)
    }

    /// Whether the ring has no bytes at all.
    pub fn is_zero_space(&self) -> (yes: bool)
        ensures
            yes == (self@.buf.len() == 0),
    {
        self.buf.len() == 0
    }

    /// Where a slab starts in the buffer.
    pub fn slab_start(&self, slab_idx: usize) -> (start: usize)
        requires
            self@.wf(),
            slab_idx < self@.slabs.len(),
        ensures
            start == slab_idx * self@.slab_size,
    {
        proof {
            lemma_slab_in_ring(self@, slab_idx as int);
        }
        slab_idx * self.slab_size
    }
}

impl SlabLease {
    /// The sealed bytes.
    pub fn as_slice<'a>(&self, ring: &'a SlabRing) -> (bytes: &'a [u8])
        requires
            ring@.wf(),
            lease_fits(ring@, *self),
        ensures
            bytes@ == ring@.leased(*self),
    {
        proof {
            lemma_slab_in_ring(ring@, self.slab_idx as int);
        }
        vstd::slice::slice_subrange(ring.buf.as_slice(), self.start, self.end)
    }

    /// Gives the lease back: its slab is free again.
    pub fn release(self, ring: &mut SlabRing)
        requires
            old(ring)@.wf(),
            lease_fits(old(ring)@, self),
            forall|i: int|
                0 <= i < old(ring)@.ready.len() ==> (#[trigger] old(ring)@.ready[i]).slab_idx
                    != self.slab_idx,
        ensures
            final(ring)@ == (RingModel {
                slabs: old(ring)@.slabs.update(
                    self.slab_idx as int,
                    (Slab { state: SlabState::Free }),
                ),
                ..old(ring)@
            }),
            final(ring)@.wf(),
    {
        ring.slabs.set(self.slab_idx, Slab::new(SlabState::Free));
    }

    /// A copy of the sealed bytes. The lease is given back.
    pub fn into_vec(self, ring: &mut SlabRing) -> (bytes: Vec<u8>)
        requires
            old(ring)@.wf(),
            lease_fits(old(ring)@, self),
            forall|i: int|
                0 <= i < old(ring)@.ready.len() ==> (#[trigger] old(ring)@.ready[i]).slab_idx
                    != self.slab_idx,
        ensures
            bytes@ == old(ring)@.leased(self),
            final(ring)@ == (RingModel {
                slabs: old(ring)@.slabs.update(
                    self.slab_idx as int,
                    (Slab { state: SlabState::Free }),
                ),
                ..old(ring)@
            }),
            final(ring)@.wf(),
    {
        let mut bytes: Vec<u8> = Vec::new();
        bytes.extend_from_slice(self.as_slice(ring));
        assert(bytes@ =~= ring@.leased(self));
        self.release(ring);
        bytes
    }
}

impl Reader {
    /// The next sealed slab, in the order in which they were sealed.
    pub fn recv(&mut self, ring: &mut SlabRing) -> (received: Received)
        requires
            old(ring)@.wf(),
        ensures
            final(ring)@.wf(),
            match received {
                Received::Lease(lease) => {
                    &&& old(ring)@.ready.len() > 0
                    &&& lease == old(ring)@.ready[0]
                    &&& final(ring)@ == (RingModel {
                        ready: old(ring)@.ready.skip(1),
                        ..old(ring)@
                    })
                    &&& lease_fits(final(ring)@, lease)
                    &&& forall|i: int|
                        0 <= i < final(ring)@.ready.len() ==> (
                        #[trigger] final(ring)@.ready[i]).slab_idx != lease.slab_idx
                },
                Received::Wait => {
                    &&& old(ring)@.ready.len() == 0
                    &&& old(ring)@.open
                    &&& final(ring)@ == old(ring)@
                },
                Received::Closed => {
                    &&& old(ring)@.ready.len() == 0
                    &&& !old(ring)@.open
                    &&& final(ring)@ == old(ring)@
                },
            },
    {
        if ring.ready.len() > 0 {
            let lease: SlabLease = ring.ready.remove(0);
            assert(ring@.ready =~= old(ring)@.ready.skip(1));
            Received::Lease(lease)
        } else if ring.open {
            Received::Wait
        } else {
            Received::Closed
        }
    }
}

impl Default for Writer {
    /// A writer at the start of a ring.
    fn default() -> (w: Writer)
        ensures
            w == (Writer { slab_idx: 0, offset: 0, waiting: false }),
    {
        Writer { slab_idx: 0, offset: 0, waiting: false }
    }
}

impl Writer {
    /// Seals the writer's slab and, where it was being filled, hands over a lease on it.
    fn seal(&self, ring: &mut SlabRing)
        requires
            old(ring)@.wf(),
            writes_to(old(ring)@, *self),
            old(ring)@.slabs.len() > 0,
        ensures
            final(ring)@ == sealed(old(ring)@, *self),
            final(ring)@.wf(),
    {
        let start: usize = ring.slab_start(self.slab_idx);
        proof {
            lemma_slab_in_ring(ring@, self.slab_idx as int);
        }
        let prev: SlabState = ring.slabs[self.slab_idx].state();
        ring.slabs.set(self.slab_idx, Slab::new(SlabState::Ready));
        if prev == SlabState::Filling {
            ring.ready.push(
                SlabLease { slab_idx: self.slab_idx, start, end: start + self.offset },
            );
        }
        assert(ring@ =~= sealed(old(ring)@, *self));
    }

    /// The first free slab behind the writer's, going round once, which is then claimed.
    fn find_and_claim_free_slab(&self, ring: &mut SlabRing) -> (found: Option<usize>)
        requires
            old(ring)@.wf(),
            old(ring)@.slabs.len() > 0,
            self.slab_idx < old(ring)@.slabs.len(),
        ensures
            match free_behind(old(ring)@.slabs, self.slab_idx as int, 1) {
                Some(k) => {
                    &&& found == Some(k as usize)
                    &&& 0 <= k < old(ring)@.slabs.len()
                    &&& final(ring)@ == (RingModel {
                        slabs: old(ring)@.slabs.update(k, (Slab { state: SlabState::Filling })),
                        ..old(ring)@
                    })
                },
                None => found is None && final(ring)@ == old(ring)@,
            },
            final(ring)@.wf(),
    {
        let n: usize = ring.slabs.len();
        let current: usize = self.slab_idx;
        let mut next: usize = current;
        let ghost mut d: int = 0;
        proof {
            vstd::arithmetic::div_mod::lemma_small_mod(current as nat, n as nat);
            lemma_free_behind(ring@.slabs, current as int, 1);
        }
        loop
            invariant
                ring@ == old(ring)@,
                ring@.wf(),
                n == ring@.slabs.len(),
                current == self.slab_idx,
                next < n,
                current < n,
                0 <= d < n,
                next == (current + d) % (n as int),
                free_behind(ring@.slabs, current as int, 1) == free_behind(
                    ring@.slabs,
                    current as int,
                    d + 1,
                ),
            decreases n - d,
        {
            next = if next + 1 == n {
                0
            } else {
                next + 1
            };
            proof {
                lemma_next_slab(current as int, d, n as int);
                lemma_free_behind(ring@.slabs, current as int, d + 1);
            }
            if next == current {
                return None;
            }
            if ring.slabs[next].state() == SlabState::Free {
                ring.slabs.set(next, Slab::new(SlabState::Filling));
                assert(ring@ =~= (RingModel {
                    slabs: old(ring)@.slabs.update(
                        next as int,
                        (Slab { state: SlabState::Filling }),
                    ),
                    ..old(ring)@
                }));
                return Some(next);
            }
            proof {
                d = d + 1;
            }
        }
    }

    /// Claims a free slab behind the writer's, or notes that there is none.
    fn advance(&mut self, ring: &mut SlabRing)
        requires
            old(ring)@.wf(),
            old(ring)@.slabs.len() > 0,
            old(self).slab_idx < old(ring)@.slabs.len(),
        ensures
            (final(ring)@, *final(self)) == advanced(old(ring)@, *old(self)),
            final(ring)@.wf(),
    {
        match self.find_and_claim_free_slab(ring) {
            Some(k) => {
                self.slab_idx = k;
                self.offset = 0;
                self.waiting = false;
            },
            None => {
                self.waiting = true;
            },
        }
    }

    /// Seals the writer's slab and claims a free one.
    fn seal_and_advance(&mut self, ring: &mut SlabRing)
        requires
            old(ring)@.wf(),
            writes_to(old(ring)@, *old(self)),
            old(ring)@.slabs.len() > 0,
        ensures
            (final(ring)@, *final(self)) == advanced(sealed(old(ring)@, *old(self)), *old(self)),
            final(ring)@.wf(),
    {
        self.seal(ring);
        self.advance(ring);
    }

    /// Takes bytes as far as free slabs hold them. Where not all are taken, the rest is to
    /// be written again once a lease has been given back.
    pub fn write(&mut self, ring: &mut SlabRing, data: &[u8]) -> (taken: Result<
        usize,
        WriteError,
    >)
        requires
            old(ring)@.wf(),
            writes_to(old(ring)@, *old(self)),
        ensures
            final(ring)@.wf(),
            writes_to(final(ring)@, *final(self)),
            if old(ring)@.buf.len() == 0 {
                &&& taken == Err::<usize, WriteError>(WriteError::ZeroSpace)
                &&& final(ring)@ == old(ring)@
                &&& *final(self) == *old(self)
            } else {
                let (r, w, n) = written(old(ring)@, *old(self), data@);
                &&& taken == Ok::<usize, WriteError>(n as usize)
                &&& n <= data@.len()
                &&& n < data@.len() ==> w.waiting
                &&& final(ring)@ == r
                &&& *final(self) == w
            },
    {
        if ring.is_zero_space() {
            return Err(WriteError::ZeroSpace);
        }
        proof {
            lemma_has_slabs(ring@);
            assert(data@.skip(0) =~= data@);
        }
        let ghost outcome = written(ring@, *self, data@);
        let mut pos: usize = 0;
        while pos < data.len()
            invariant
                pos <= data@.len(),
                old(ring)@.buf.len() > 0,
                outcome == written(old(ring)@, *old(self), data@),
                ring@.wf(),
                writes_to(ring@, *self),
                ring@.slabs.len() > 0,
                ring@.slab_size > 0,
                ({
                    let (r, w, n) = written(ring@, *self, data@.skip(pos as int));
                    outcome == (r, w, (pos + n) as nat)
                }),
            decreases data@.len() - pos,
        {
            let ghost rest = data@.skip(pos as int);
            let ghost before = ring@;
            let ghost w0 = *self;
            proof {
                lemma_settled(before, w0);
            }
            if self.waiting {
                self.advance(ring);
            } else if self.offset == ring.slab_size {
                self.seal_and_advance(ring);
            }
            assert((ring@, *self) == settled(before, w0));
            if self.waiting {
                return Ok(pos);
            }
            let room: usize = ring.slab_size - self.offset;
            let left: usize = data.len() - pos;
            let n: usize = if left < room {
                left
            } else {
                room
            };
            let ghost r1 = ring@;
            let ghost w1 = *self;
            self.fill(ring, data, pos, n);
            proof {
                assert(data@.subrange(pos as int, pos + n) =~= rest.take(n as int));
                assert(rest.skip(n as int) =~= data@.skip(pos + n));
                lemma_filled(r1, w1, rest.take(n as int));
            }
            pos = pos + n;
        }
        assert(data@.skip(pos as int) =~= Seq::empty());
        Ok(pos)
    }

    /// Puts `n` bytes of `data`, from `pos` on, into the writer's slab.
    fn fill(&mut self, ring: &mut SlabRing, data: &[u8], pos: usize, n: usize)
        requires
            old(ring)@.wf(),
            writes_to(old(ring)@, *old(self)),
            old(ring)@.slabs.len() > 0,
            pos + n <= data@.len(),
            old(self).offset + n <= old(ring)@.slab_size,
        ensures
            (final(ring)@, *final(self)) == filled(
                old(ring)@,
                *old(self),
                data@.subrange(pos as int, pos + n),
            ),
    {
        let start: usize = ring.slab_start(self.slab_idx);
        proof {
            lemma_slab_in_ring(ring@, self.slab_idx as int);
        }
        assert(data@.len() == data.len());
        let at: usize = start + self.offset;
        let ghost before = ring@;
        assert(patched(before.buf, at as int, data@.subrange(pos as int, pos + 0)) =~= before.buf);
        for i in 0..n
            invariant
                pos + n <= data.len(),
                at + n <= before.buf.len(),
                before.buf.len() <= usize::MAX,
                ring@ == (RingModel {
                    buf: patched(before.buf, at as int, data@.subrange(pos as int, pos + i)),
                    ..before
                }),
        {
            let ghost old_buf = ring@.buf;
            ring.buf.set(at + i, data[pos + i]);
            assert(ring@.buf =~= patched(
                before.buf,
                at as int,
                data@.subrange(pos as int, pos + i + 1),
            ));
            assert(ring@ =~= (RingModel {
                buf: patched(before.buf, at as int, data@.subrange(pos as int, pos + i + 1)),
                ..before
            }));
        }
        self.offset = self.offset + n;
    }

    /// Seals the writer's slab although it may not be full, so that the reader gets all that
    /// was written. It is the last thing that the writer does.
    pub fn flush(&mut self, ring: &mut SlabRing)
        requires
            old(ring)@.wf(),
            writes_to(old(ring)@, *old(self)),
            !old(self).waiting,
        ensures
            final(ring)@ == flushed(old(ring)@, *old(self)),
            *final(self) == *old(self),
            final(ring)@.wf(),
            writes_to(final(ring)@, *final(self)),
    {
        if ring.is_zero_space() || self.offset == 0 {
            return ;
        }
        proof {
            lemma_has_slabs(ring@);
        }
        self.seal(ring);
    }

    /// Ends the writing: a reader that has got everything need not wait any more.
    pub fn close(self, ring: &mut SlabRing)
        ensures
            final(ring)@ == (RingModel { open: false, ..old(ring)@ }),
            old(ring)@.wf() ==> final(ring)@.wf(),
    {
        ring.open = false;
        assert(ring@ =~= (RingModel { open: false, ..old(ring)@ }));
    }
}

proof fn lemma_next_slab(current: int, d: int, n: int)
    requires
        0 <= current < n,
        0 <= d < n,
    ensures
        ({
            let here = (current + d) % n;
            let next = if here + 1 == n {
                0
            } else {
                here + 1
            };
            &&& 0 <= here < n
            &&& next == (current + d + 1) % n
            &&& next == current <==> d + 1 == n
        }),
{
    vstd::arithmetic::div_mod::lemma_mod_bound(current + d, n);
    if current + d + 1 < n {
        vstd::arithmetic::div_mod::lemma_small_mod((current + d) as nat, n as nat);
        vstd::arithmetic::div_mod::lemma_small_mod((current + d + 1) as nat, n as nat);
    } else if current + d + 1 == n {
        vstd::arithmetic::div_mod::lemma_small_mod((current + d) as nat, n as nat);
        vstd::arithmetic::div_mod::lemma_mod_self_0(n);
    } else {
        vstd::arithmetic::div_mod::lemma_mod_sub_multiples_vanish(current + d, n);
        vstd::arithmetic::div_mod::lemma_small_mod((current + d - n) as nat, n as nat);
        vstd::arithmetic::div_mod::lemma_mod_sub_multiples_vanish(current + d + 1, n);
        if current + d + 1 - n < n {
            vstd::arithmetic::div_mod::lemma_small_mod((current + d + 1 - n) as nat, n as nat);
        }
    }
}

pub(crate) proof fn lemma_has_slabs(ring: RingModel)
    requires
        ring.wf(),
        ring.buf.len() > 0,
    ensures
        ring.slabs.len() > 0,
        ring.slab_size > 0,
{
    if ring.slabs.len() == 0 || ring.slab_size == 0 {
        assert(ring.slab_size * ring.slabs.len() == 0) by (nonlinear_arith)
            requires
                ring.slabs.len() == 0 || ring.slab_size == 0,
        ;
    }
}

/// After it has settled the writer is inside a slab, with room unless it has to wait.
pub(crate) proof fn lemma_settled(ring: RingModel, w: Writer)
    requires
        ring.wf(),
        writes_to(ring, w),
        ring.slabs.len() > 0,
        ring.slab_size > 0,
    ensures
        ({
            let (r, v) = settled(ring, w);
            &&& writes_to(r, v)
            &&& r.slab_size == ring.slab_size
            &&& r.slabs.len() == ring.slabs.len()
            &&& r.buf == ring.buf
            &&& !v.waiting ==> v.offset < r.slab_size
        }),
{
    lemma_free_behind(ring.slabs, w.slab_idx as int, 1);
    lemma_free_behind(sealed(ring, w).slabs, w.slab_idx as int, 1);
    lemma_slab_count(ring);
}

pub(crate) proof fn lemma_filled(ring: RingModel, w: Writer, bytes: Seq<u8>)
    requires
        ring.wf(),
        writes_to(ring, w),
        ring.slabs.len() > 0,
        w.offset + bytes.len() <= ring.slab_size,
    ensures
        filled(ring, w, bytes).0.wf(),
        writes_to(filled(ring, w, bytes).0, filled(ring, w, bytes).1),
{
    lemma_slab_in_ring(ring, w.slab_idx as int);
}

/// The leases that wait give the same bytes in both rings.
pub(crate) proof fn lemma_ready_bytes_kept(a: RingModel, b: RingModel, n: nat)
    requires
        n <= a.ready.len(),
        n <= b.ready.len(),
        forall|i: int|
            0 <= i < n ==> (#[trigger] a.ready[i]) == b.ready[i] && a.leased(a.ready[i])
                == b.leased(b.ready[i]),
    ensures
        a.ready_bytes(n) == b.ready_bytes(n),
    decreases n,
{
    if n > 0 {
        lemma_ready_bytes_kept(a, b, (n - 1) as nat);
        assert(a.ready[n - 1] == b.ready[n - 1]);
    }
}

proof fn lemma_sealed_bytes(ring: RingModel, w: Writer)
    requires
        ring.wf(),
        writes_to(ring, w),
        ring.slabs.len() > 0,
        !w.waiting,
        ring.slabs[w.slab_idx as int].state == SlabState::Filling,
    ensures
        sealed(ring, w).wf(),
        sealed(ring, w).readable() == ring.readable() + unsealed(ring, w),
{
    let after = sealed(ring, w);
    lemma_slab_in_ring(ring, w.slab_idx as int);
    lemma_ready_bytes_kept(ring, after, ring.ready.len());
    assert(after.ready[after.ready.len() - 1] == own_lease(ring, w));
}

/// A lease that covers nothing that the writer may still write gives the same bytes when
/// the writer has gone on.
proof fn lemma_filled_leaves(ring: RingModel, w: Writer, bytes: Seq<u8>, lease: SlabLease)
    requires
        ring.wf(),
        writes_to(ring, w),
        ring.slabs.len() > 0,
        w.offset + bytes.len() <= ring.slab_size,
        lease_fits(ring, lease),
        lease.slab_idx == w.slab_idx ==> lease.end <= lease.start + w.offset,
    ensures
        filled(ring, w, bytes).0.leased(lease) == ring.leased(lease),
{
    let size = ring.slab_size as int;
    lemma_slab_in_ring(ring, w.slab_idx as int);
    lemma_slab_in_ring(ring, lease.slab_idx as int);
    if lease.slab_idx < w.slab_idx {
        lemma_slab_inside(lease.slab_idx as int, w.slab_idx as int, size);
    } else if w.slab_idx < lease.slab_idx {
        lemma_slab_inside(w.slab_idx as int, lease.slab_idx as int, size);
    }
    assert(filled(ring, w, bytes).0.leased(lease) =~= ring.leased(lease));
}

proof fn lemma_filled_bytes(ring: RingModel, w: Writer, bytes: Seq<u8>)
    requires
        ring.wf(),
        writes_to(ring, w),
        ring.slabs.len() > 0,
        !w.waiting,
        ring.slabs[w.slab_idx as int].state == SlabState::Filling,
        w.offset + bytes.len() <= ring.slab_size,
    ensures
        ({
            let (r, v) = filled(ring, w, bytes);
            &&& r.readable() == ring.readable()
            &&& unsealed(r, v) == unsealed(ring, w) + bytes
        }),
{
    let (r, v) = filled(ring, w, bytes);
    lemma_slab_in_ring(ring, w.slab_idx as int);
    assert(unsealed(r, v) =~= unsealed(ring, w) + bytes);
    assert forall|i: int| 0 <= i < ring.ready.len() implies (#[trigger] ring.ready[i])
        == r.ready[i] && ring.leased(ring.ready[i]) == r.leased(r.ready[i]) by {
        assert(lease_fits(ring, ring.ready[i]));
        lemma_filled_leaves(ring, w, bytes, ring.ready[i]);
    }
    lemma_ready_bytes_kept(ring, r, ring.ready.len());
}

pub(crate) proof fn lemma_settled_bytes(ring: RingModel, w: Writer)
    requires
        ring.wf(),
        writes_to(ring, w),
        ring.slabs.len() > 0,
        ring.slab_size > 0,
        unflushed(ring, w),
    ensures
        ({
            let (r, v) = settled(ring, w);
            &&& r.wf()
            &&& unflushed(r, v)
            &&& r.readable() + unsealed(r, v) == ring.readable() + unsealed(ring, w)
        }),
{
    let (r, v) = settled(ring, w);
    lemma_settled(ring, w);
    let full = !w.waiting && w.offset == ring.slab_size;
    if full {
        lemma_sealed_bytes(ring, w);
    }
    if w.waiting || full {
        let left = if full {
            sealed(ring, w)
        } else {
            ring
        };
        lemma_free_behind(left.slabs, w.slab_idx as int, 1);
        lemma_slab_count(ring);
        lemma_ready_bytes_kept(left, r, left.ready.len());
        lemma_slab_in_ring(ring, v.slab_idx as int);
        assert(unsealed(r, v) =~= Seq::empty());
        assert(r.readable() + unsealed(r, v) =~= ring.readable() + unsealed(ring, w));
        assert forall|i: int| 0 <= i < r.ready.len() implies lease_fits(
            r,
            #[trigger] r.ready[i],
        ) by {
            assert(lease_fits(left, left.ready[i]));
        }
    }
}

/// What a writer has written is what the reader reads, in the same order: the bytes that
/// wait for the reader, with those in the writer's slab behind them, grow by exactly the
/// bytes that a write takes.
pub proof fn written_bytes_are_read(ring: RingModel, w: Writer, data: Seq<u8>)
    requires
        ring.wf(),
        writes_to(ring, w),
        ring.buf.len() > 0,
        unflushed(ring, w),
    ensures
        ({
            let (r, v, n) = written(ring, w, data);
            &&& r.wf()
            &&& writes_to(r, v)
            &&& unflushed(r, v)
            &&& n <= data.len()
            &&& r.readable() + unsealed(r, v) == ring.readable() + unsealed(ring, w)
                + data.take(n as int)
        }),
    decreases data.len(),
{
    lemma_has_slabs(ring);
    let (r, v, n) = written(ring, w, data);
    if data.len() == 0 {
        assert(data.take(0) =~= Seq::empty());
        assert(r.readable() + unsealed(r, v) + data.take(0) =~= r.readable() + unsealed(r, v));
    } else {
        let (r1, w1) = settled(ring, w);
        lemma_settled(ring, w);
        lemma_settled_bytes(ring, w);
        if w1.waiting {
            assert(data.take(0) =~= Seq::empty());
            assert(r.readable() + unsealed(r, v) =~= ring.readable() + unsealed(ring, w)
                + data.take(0));
        } else {
            let room = r1.slab_size - w1.offset;
            let m = if data.len() < room {
                data.len() as int
            } else {
                room
            };
            let (r2, w2) = filled(r1, w1, data.take(m));
            lemma_filled(r1, w1, data.take(m));
            lemma_filled_bytes(r1, w1, data.take(m));
            written_bytes_are_read(r2, w2, data.skip(m));
            assert(data.take(n as int) =~= data.take(m) + data.skip(m).take(n - m));
            assert(r.readable() + unsealed(r, v) =~= ring.readable() + unsealed(ring, w)
                + data.take(n as int));
        }
    }
}

/// A flush hands over everything that was written.
pub proof fn flush_hands_over_all(ring: RingModel, w: Writer)
    requires
        ring.wf(),
        writes_to(ring, w),
        ring.buf.len() > 0,
        unflushed(ring, w),
        !w.waiting,
    ensures
        flushed(ring, w).readable() == ring.readable() + unsealed(ring, w),
{
    lemma_has_slabs(ring);
    if w.offset == 0 {
        lemma_slab_in_ring(ring, w.slab_idx as int);
        assert(unsealed(ring, w) =~= Seq::empty());
        assert(ring.readable() + unsealed(ring, w) =~= ring.readable());
    } else {
        lemma_sealed_bytes(ring, w);
    }
}

/// A write hands over full slabs only, and what it hands over comes behind what was there.
pub proof fn writes_hand_over_full_slabs(ring: RingModel, w: Writer, data: Seq<u8>)
    requires
        ring.wf(),
        writes_to(ring, w),
        ring.buf.len() > 0,
    ensures
        ({
            let (r, _, _) = written(ring, w, data);
            &&& r.ready.len() >= ring.ready.len()
            &&& r.ready.take(ring.ready.len() as int) == ring.ready
            &&& forall|i: int|
                ring.ready.len() <= i < r.ready.len() ==> (#[trigger] r.ready[i]).end
                    - r.ready[i].start == ring.slab_size
        }),
    decreases data.len(),
{
    lemma_has_slabs(ring);
    let (r, v, n) = written(ring, w, data);
    if data.len() > 0 {
        let (r1, w1) = settled(ring, w);
        lemma_settled(ring, w);
        lemma_settled_wf(ring, w);
        lemma_slab_in_ring(ring, w.slab_idx as int);
        assert(r1.ready.take(ring.ready.len() as int) =~= ring.ready);
        if !w1.waiting {
            let room = r1.slab_size - w1.offset;
            let m = if data.len() < room {
                data.len() as int
            } else {
                room
            };
            let (r2, w2) = filled(r1, w1, data.take(m));
            lemma_filled(r1, w1, data.take(m));
            writes_hand_over_full_slabs(r2, w2, data.skip(m));
            assert(r.ready.take(ring.ready.len() as int) =~= r.ready.take(
                r1.ready.len() as int,
            ).take(ring.ready.len() as int));
            assert forall|i: int| ring.ready.len() <= i < r.ready.len() implies (
            #[trigger] r.ready[i]).end - r.ready[i].start == ring.slab_size by {
                if i < r1.ready.len() {
                    assert(r.ready[i] == r.ready.take(r1.ready.len() as int)[i]);
                }
            }
        }
    } else {
        assert(r.ready.take(ring.ready.len() as int) =~= ring.ready);
    }
}

pub(crate) proof fn lemma_settled_wf(ring: RingModel, w: Writer)
    requires
        ring.wf(),
        writes_to(ring, w),
        ring.slabs.len() > 0,
        ring.slab_size > 0,
    ensures
        settled(ring, w).0.wf(),
{
    let (r, v) = settled(ring, w);
    lemma_slab_in_ring(ring, w.slab_idx as int);
    lemma_free_behind(ring.slabs, w.slab_idx as int, 1);
    lemma_free_behind(sealed(ring, w).slabs, w.slab_idx as int, 1);
    let left = if w.waiting {
        ring
    } else {
        sealed(ring, w)
    };
    if w.waiting || w.offset == ring.slab_size {
        assert forall|i: int| 0 <= i < left.ready.len() implies lease_fits(
            left,
            #[trigger] left.ready[i],
        ) by {
            if i < ring.ready.len() {
                assert(lease_fits(ring, ring.ready[i]));
            }
        }
        assert forall|i: int| 0 <= i < r.ready.len() implies lease_fits(
            r,
            #[trigger] r.ready[i],
        ) by {
            assert(lease_fits(left, left.ready[i]));
        }
    }
}

/// A write that does not take everything leaves the writer waiting, with no free slab to go
/// to.
pub proof fn waiting_for_a_slab(ring: RingModel, w: Writer, data: Seq<u8>)
    requires
        ring.wf(),
        writes_to(ring, w),
        ring.buf.len() > 0,
    ensures
        ({
            let (r, v, n) = written(ring, w, data);
            &&& n <= data.len()
            &&& n < data.len() ==> {
                &&& v.waiting
                &&& free_behind(r.slabs, v.slab_idx as int, 1) is None
            }
        }),
    decreases data.len(),
{
    lemma_has_slabs(ring);
    if data.len() > 0 {
        let (r1, w1) = settled(ring, w);
        lemma_settled(ring, w);
        lemma_settled_wf(ring, w);
        if !w1.waiting {
            let room = r1.slab_size - w1.offset;
            let m = if data.len() < room {
                data.len() as int
            } else {
                room
            };
            let (r2, w2) = filled(r1, w1, data.take(m));
            lemma_filled(r1, w1, data.take(m));
            waiting_for_a_slab(r2, w2, data.skip(m));
        }
    }
}

/// While a lease is out its slab stays sealed and its bytes stay as they are, whatever the
/// writer writes.
pub proof fn leased_bytes_stay(ring: RingModel, w: Writer, data: Seq<u8>, lease: SlabLease)
    requires
        ring.wf(),
        writes_to(ring, w),
        ring.buf.len() > 0,
        lease_fits(ring, lease),
        lease.slab_idx == w.slab_idx ==> lease.end <= lease.start + w.offset,
    ensures
        ({
            let (r, v, _) = written(ring, w, data);
            &&& lease_fits(r, lease)
            &&& r.leased(lease) == ring.leased(lease)
            &&& lease.slab_idx == v.slab_idx ==> lease.end <= lease.start + v.offset
        }),
    decreases data.len(),
{
    lemma_has_slabs(ring);
    if data.len() > 0 {
        let (r1, w1) = settled(ring, w);
        lemma_settled(ring, w);
        lemma_settled_wf(ring, w);
        lemma_free_behind(ring.slabs, w.slab_idx as int, 1);
        lemma_free_behind(sealed(ring, w).slabs, w.slab_idx as int, 1);
        lemma_slab_count(ring);
        if !w1.waiting {
            let room = r1.slab_size - w1.offset;
            let m = if data.len() < room {
                data.len() as int
            } else {
                room
            };
            let (r2, w2) = filled(r1, w1, data.take(m));
            lemma_filled(r1, w1, data.take(m));
            lemma_filled_leaves(r1, w1, data.take(m), lease);
            leased_bytes_stay(r2, w2, data.skip(m), lease);
        }
    }
}

} // verus!
