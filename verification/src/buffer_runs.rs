//! What a whole run over a shared buffer leaves in it: slices lent, split, written and given
//! back, in any order.

use crate::shared_buffer::{patched, SliceModel};
use vstd::prelude::*;

verus! {

/// One call on the buffer or on a slice that is out. Slices are told apart by their place
/// among those that are out.
pub enum BufferStep {
    /// The whole buffer is lent, if nothing of it is out.
    Lend,
    /// The buffer is shared.
    Share,
    /// A share is given back, if one is out.
    Unshare,
    /// A slice is split at a place inside it.
    Split(int, int),
    /// Bytes are written at a place inside a slice, over what is there.
    WriteAt(int, int, Seq<u8>),
    /// A slice is filled with bytes, as far as it has room.
    Write(int, Seq<u8>),
    /// A slice is given back.
    Release(int),
}

/// A buffer, the slices and shares of it that are out, and what it would hold had every byte
/// been written straight to its place.
#[verifier::ext_equal]
pub struct BufferRun {
    pub bytes: Seq<u8>,
    pub live: nat,
    pub out: Seq<SliceModel>,
    pub shares: nat,
    pub image: Seq<u8>,
}

/// A new buffer of `len` bytes.
pub open spec fn fresh_buffer(len: nat) -> BufferRun {
    BufferRun {
        bytes: Seq::new(len, |i: int| 0u8),
        live: 0,
        out: Seq::empty(),
        shares: 0,
        image: Seq::new(len, |i: int| 0u8),
    }
}

/// The run after one more step. A step that is not possible changes nothing.
pub open spec fn buffer_stepped(run: BufferRun, step: BufferStep) -> BufferRun {
    match step {
        BufferStep::Lend => if run.live > 0 {
            run
        } else {
            BufferRun {
                live: 1,
                out: seq![
                    SliceModel {
                        start: 0,
                        length: run.bytes.len() as int,
                        bytes: run.bytes,
                        filled: 0,
                    },
                ],
                ..run
            }
        },
        BufferStep::Share => BufferRun { live: run.live + 1, shares: run.shares + 1, ..run },
        BufferStep::Unshare => if run.shares > 0 {
            BufferRun { live: (run.live - 1) as nat, shares: (run.shares - 1) as nat, ..run }
        } else {
            run
        },
        BufferStep::Split(i, at) => if 0 <= i < run.out.len() && 0 <= at <= run.out[i].length {
            BufferRun {
                live: run.live + 1,
                out: run.out.update(i, run.out[i].left(at)).push(run.out[i].right(at)),
                ..run
            }
        } else {
            run
        },
        BufferStep::WriteAt(i, at, data) => if 0 <= i < run.out.len() && 0 <= at && at + data.len()
            <= run.out[i].length {
            BufferRun {
                out: run.out.update(i, run.out[i].overwritten(at, data)),
                image: patched(run.image, run.out[i].start + at, data),
                ..run
            }
        } else {
            run
        },
        BufferStep::Write(i, data) => if 0 <= i < run.out.len() {
            let s = run.out[i];
            BufferRun {
                out: run.out.update(i, s.extended(data)),
                image: patched(run.image, s.start + s.filled, data.take(s.taken(data))),
                ..run
            }
        } else {
            run
        },
        BufferStep::Release(i) => if 0 <= i < run.out.len() {
            BufferRun {
                bytes: patched(run.bytes, run.out[i].start, run.out[i].bytes),
                live: (run.live - 1) as nat,
                out: run.out.remove(i),
                ..run
            }
        } else {
            run
        },
    }
}

/// The run after all steps.
pub open spec fn buffer_run(len: nat, steps: Seq<BufferStep>) -> BufferRun
    decreases steps.len(),
{
    if steps.len() == 0 {
        fresh_buffer(len)
    } else {
        buffer_stepped(buffer_run(len, steps.drop_last()), steps.last())
    }
}

/// Whether the slice covers this position.
pub open spec fn reaches(s: SliceModel, p: int) -> bool {
    s.start <= p < s.start + s.length
}

/// The slice is inside the buffer, and its bytes are what the image has there.
pub open spec fn slice_sound(run: BufferRun, s: SliceModel) -> bool {
    &&& s.wf()
    &&& 0 <= s.start
    &&& s.start + s.length <= run.bytes.len()
    &&& forall|p: int| #[trigger] reaches(s, p) ==> run.image[p] == s.bytes[p - s.start]
}

/// What holds after every step: every slice is sound, no two reach the same position, and
/// where no slice reaches, the buffer has what the image has.
pub open spec fn buffer_wf(run: BufferRun) -> bool {
    &&& run.image.len() == run.bytes.len()
    &&& run.live == run.out.len() + run.shares
    &&& forall|i: int| 0 <= i < run.out.len() ==> slice_sound(run, #[trigger] run.out[i])
    &&& forall|i: int, j: int, p: int|
        0 <= i < run.out.len() && 0 <= j < run.out.len() && i != j ==> !(#[trigger] reaches(
            run.out[i],
            p,
        ) && #[trigger] reaches(run.out[j], p))
    &&& forall|p: int|
        0 <= p < run.bytes.len() && #[trigger] run.image[p] != run.bytes[p] ==> exists|i: int|
            0 <= i < run.out.len() && reaches(#[trigger] run.out[i], p)
}

proof fn lemma_lend(run: BufferRun)
    requires
        buffer_wf(run),
    ensures
        buffer_wf(buffer_stepped(run, BufferStep::Lend)),
{
    if run.live == 0 {
        assert(run.image =~= run.bytes);
    }
}

proof fn lemma_split(run: BufferRun, i: int, at: int)
    requires
        buffer_wf(run),
        0 <= i < run.out.len(),
        0 <= at <= run.out[i].length,
    ensures
        buffer_wf(buffer_stepped(run, BufferStep::Split(i, at))),
{
    let next = buffer_stepped(run, BufferStep::Split(i, at));
    let s = run.out[i];
    let left = s.left(at);
    let right = s.right(at);
    let n = run.out.len() as int;
    assert(slice_sound(run, s));
    assert(slice_sound(next, left)) by {
        assert forall|p: int| #[trigger] reaches(left, p) implies next.image[p] == left.bytes[p
            - left.start] by {
            assert(reaches(s, p));
        }
    }
    assert(slice_sound(next, right)) by {
        assert forall|p: int| #[trigger] reaches(right, p) implies next.image[p]
            == right.bytes[p - right.start] by {
            assert(reaches(s, p));
        }
    }
    assert forall|j: int| 0 <= j < next.out.len() implies slice_sound(
        next,
        #[trigger] next.out[j],
    ) by {
        if j != i && j < n {
            assert(slice_sound(run, run.out[j]));
        }
    }
    assert forall|a: int, b: int, p: int|
        0 <= a < next.out.len() && 0 <= b < next.out.len() && a != b implies !(
    #[trigger] reaches(next.out[a], p) && #[trigger] reaches(next.out[b], p)) by {
        let from_a = if a == n {
            i
        } else {
            a
        };
        let from_b = if b == n {
            i
        } else {
            b
        };
        if reaches(next.out[a], p) && reaches(next.out[b], p) {
            assert(reaches(run.out[from_a], p));
            assert(reaches(run.out[from_b], p));
        }
    }
    assert forall|p: int|
        0 <= p < next.bytes.len() && #[trigger] next.image[p] != next.bytes[p] implies exists|
        j: int,
    |
        0 <= j < next.out.len() && reaches(#[trigger] next.out[j], p) by {
        assert(run.image[p] != run.bytes[p]);
        let j = choose|j: int| 0 <= j < run.out.len() && reaches(#[trigger] run.out[j], p);
        if j == i {
            if reaches(left, p) {
                assert(reaches(next.out[i], p));
            } else {
                assert(reaches(next.out[n], p));
            }
        } else {
            assert(reaches(next.out[j], p));
        }
    }
}

/// Bytes that are written at a place inside a slice, which may then count as filled further.
proof fn lemma_write(run: BufferRun, i: int, at: int, data: Seq<u8>, filled: int)
    requires
        buffer_wf(run),
        0 <= i < run.out.len(),
        0 <= at,
        at + data.len() <= run.out[i].length,
        0 <= filled <= run.out[i].length,
    ensures
        buffer_wf(
            BufferRun {
                out: run.out.update(
                    i,
                    SliceModel { filled, ..run.out[i].overwritten(at, data) },
                ),
                image: patched(run.image, run.out[i].start + at, data),
                ..run
            },
        ),
{
    let s = run.out[i];
    let next = BufferRun {
        out: run.out.update(i, SliceModel { filled, ..s.overwritten(at, data) }),
        image: patched(run.image, s.start + at, data),
        ..run
    };
    let from = s.start + at;
    assert(slice_sound(run, s));
    assert(next.image.len() == run.image.len());
    assert forall|p: int| 0 <= p < run.image.len() implies #[trigger] next.image[p] == (if from
        <= p < from + data.len() {
        data[p - from]
    } else {
        run.image[p]
    }) by {}
    assert forall|j: int| 0 <= j < next.out.len() implies slice_sound(
        next,
        #[trigger] next.out[j],
    ) by {
        let u = next.out[j];
        assert(slice_sound(run, run.out[j]));
        assert forall|p: int| #[trigger] reaches(u, p) implies next.image[p] == u.bytes[p
            - u.start] by {
            assert(reaches(run.out[j], p));
            if j != i {
                assert(!reaches(run.out[i], p));
            }
        }
    }
    assert forall|a: int, b: int, p: int|
        0 <= a < next.out.len() && 0 <= b < next.out.len() && a != b implies !(
    #[trigger] reaches(next.out[a], p) && #[trigger] reaches(next.out[b], p)) by {
        assert(reaches(next.out[a], p) == reaches(run.out[a], p));
        assert(reaches(next.out[b], p) == reaches(run.out[b], p));
    }
    assert forall|p: int|
        0 <= p < next.bytes.len() && #[trigger] next.image[p] != next.bytes[p] implies exists|
        j: int,
    |
        0 <= j < next.out.len() && reaches(#[trigger] next.out[j], p) by {
        if from <= p < from + data.len() {
            assert(reaches(next.out[i], p));
        } else {
            assert(run.image[p] != run.bytes[p]);
            let j = choose|j: int| 0 <= j < run.out.len() && reaches(#[trigger] run.out[j], p);
            assert(reaches(next.out[j], p));
        }
    }
}

proof fn lemma_release(run: BufferRun, i: int)
    requires
        buffer_wf(run),
        0 <= i < run.out.len(),
    ensures
        buffer_wf(buffer_stepped(run, BufferStep::Release(i))),
{
    let next = buffer_stepped(run, BufferStep::Release(i));
    let s = run.out[i];
    assert(slice_sound(run, s));
    assert forall|j: int| 0 <= j < next.out.len() implies #[trigger] next.out[j] == run.out[if j
        < i {
        j
    } else {
        j + 1
    }] by {}
    assert(next.bytes.len() == run.bytes.len());
    assert forall|p: int| 0 <= p < run.bytes.len() implies #[trigger] next.bytes[p] == (if reaches(
        s,
        p,
    ) {
        s.bytes[p - s.start]
    } else {
        run.bytes[p]
    }) by {}
    assert forall|j: int| 0 <= j < next.out.len() implies slice_sound(
        next,
        #[trigger] next.out[j],
    ) by {
        let q = if j < i {
            j
        } else {
            j + 1
        };
        assert(slice_sound(run, run.out[q]));
    }
    assert forall|a: int, b: int, p: int|
        0 <= a < next.out.len() && 0 <= b < next.out.len() && a != b implies !(
    #[trigger] reaches(next.out[a], p) && #[trigger] reaches(next.out[b], p)) by {
        let from_a = if a < i {
            a
        } else {
            a + 1
        };
        let from_b = if b < i {
            b
        } else {
            b + 1
        };
        assert(!(reaches(run.out[from_a], p) && reaches(run.out[from_b], p)));
    }
    assert forall|p: int|
        0 <= p < next.bytes.len() && #[trigger] next.image[p] != next.bytes[p] implies exists|
        j: int,
    |
        0 <= j < next.out.len() && reaches(#[trigger] next.out[j], p) by {
        assert(next.bytes[p] == if reaches(s, p) {
            s.bytes[p - s.start]
        } else {
            run.bytes[p]
        });
        assert(!reaches(s, p));
        assert(run.image[p] != run.bytes[p]);
        let j = choose|j: int| 0 <= j < run.out.len() && reaches(#[trigger] run.out[j], p);
        let q = if j < i {
            j
        } else {
            j - 1
        };
        assert(j != i);
        assert(reaches(next.out[q], p));
    }
}

/// The byte that a step writes at this position of the buffer, where it writes one.
pub open spec fn byte_written(run: BufferRun, step: BufferStep, p: int) -> Option<u8> {
    match step {
        BufferStep::WriteAt(i, at, data) => if 0 <= i < run.out.len() && 0 <= at && at + data.len()
            <= run.out[i].length && run.out[i].start + at <= p < run.out[i].start + at
            + data.len() {
            Some(data[p - run.out[i].start - at])
        } else {
            None
        },
        BufferStep::Write(i, data) => if 0 <= i < run.out.len() && run.out[i].start
            + run.out[i].filled <= p < run.out[i].start + run.out[i].filled + run.out[i].taken(
            data,
        ) {
            Some(data[p - run.out[i].start - run.out[i].filled])
        } else {
            None
        },
        _ => None,
    }
}

/// The byte that was written last at this position, or zero where none was.
pub open spec fn last_written(len: nat, steps: Seq<BufferStep>, p: int) -> u8
    decreases steps.len(),
{
    if steps.len() == 0 {
        0
    } else {
        match byte_written(buffer_run(len, steps.drop_last()), steps.last(), p) {
            Some(byte) => byte,
            None => last_written(len, steps.drop_last(), p),
        }
    }
}

/// A step keeps the run sound and the buffer's length.
proof fn lemma_step(run: BufferRun, step: BufferStep)
    requires
        buffer_wf(run),
    ensures
        buffer_wf(buffer_stepped(run, step)),
        buffer_stepped(run, step).bytes.len() == run.bytes.len(),
{
    let next = buffer_stepped(run, step);
    match step {
        BufferStep::Lend => lemma_lend(run),
        BufferStep::Share => lemma_same_slices(run, next),
        BufferStep::Unshare => lemma_same_slices(run, next),
        BufferStep::Split(i, at) => if 0 <= i < run.out.len() && 0 <= at <= run.out[i].length {
            lemma_split(run, i, at);
        },
        BufferStep::WriteAt(i, at, data) => if 0 <= i < run.out.len() && 0 <= at && at + data.len()
            <= run.out[i].length {
            let s = run.out[i];
            assert(slice_sound(run, s));
            lemma_write(run, i, at, data, s.filled);
            assert((SliceModel { filled: s.filled, ..s.overwritten(at, data) }) == s.overwritten(
                at,
                data,
            ));
        },
        BufferStep::Write(i, data) => if 0 <= i < run.out.len() {
            let s = run.out[i];
            assert(slice_sound(run, s));
            let more = data.take(s.taken(data));
            lemma_write(run, i, s.filled, more, s.filled + s.taken(data));
            assert(s.extended(data) == (SliceModel {
                filled: s.filled + s.taken(data),
                ..s.overwritten(s.filled, more)
            }));
        },
        BufferStep::Release(i) => if 0 <= i < run.out.len() {
            assert(slice_sound(run, run.out[i]));
            lemma_release(run, i);
        },
    }
}

/// Shares do not touch the slices.
proof fn lemma_same_slices(run: BufferRun, next: BufferRun)
    requires
        buffer_wf(run),
        next.bytes == run.bytes,
        next.out == run.out,
        next.image == run.image,
        next.live == next.out.len() + next.shares,
    ensures
        buffer_wf(next),
{
    assert forall|i: int| 0 <= i < next.out.len() implies slice_sound(
        next,
        #[trigger] next.out[i],
    ) by {
        assert(slice_sound(run, run.out[i]));
    }
}

/// A step changes the image where it writes a byte, and there only.
proof fn lemma_step_image(run: BufferRun, step: BufferStep, p: int)
    requires
        buffer_wf(run),
        0 <= p < run.bytes.len(),
    ensures
        buffer_stepped(run, step).image[p] == (match byte_written(run, step, p) {
            Some(byte) => byte,
            None => run.image[p],
        }),
{
    match step {
        BufferStep::WriteAt(i, at, data) => if 0 <= i < run.out.len() && 0 <= at && at + data.len()
            <= run.out[i].length {
            assert(slice_sound(run, run.out[i]));
        },
        BufferStep::Write(i, data) => if 0 <= i < run.out.len() {
            assert(slice_sound(run, run.out[i]));
        },
        _ => {},
    }
}

proof fn lemma_run(len: nat, steps: Seq<BufferStep>)
    ensures
        buffer_wf(buffer_run(len, steps)),
        buffer_run(len, steps).bytes.len() == len,
        forall|p: int|
            0 <= p < len ==> #[trigger] buffer_run(len, steps).image[p] == last_written(
                len,
                steps,
                p,
            ),
    decreases steps.len(),
{
    if steps.len() > 0 {
        let before = buffer_run(len, steps.drop_last());
        let run = buffer_run(len, steps);
        lemma_run(len, steps.drop_last());
        assert(run == buffer_stepped(before, steps.last()));
        lemma_step(before, steps.last());
        assert forall|p: int| 0 <= p < len implies #[trigger] run.image[p] == last_written(
            len,
            steps,
            p,
        ) by {
            lemma_step_image(before, steps.last(), p);
            assert(before.image[p] == last_written(len, steps.drop_last(), p));
        }
    }
}

/// However the buffer is lent, shared, split, written and given back: it can be taken once
/// every slice and every share is back, and then only. It then has its length still, and
/// holds at each position the byte that was written there last, or zero where none was.
pub proof fn runs_fill_the_buffer(len: nat, steps: Seq<BufferStep>)
    ensures
        ({
            let run = buffer_run(len, steps);
            &&& run.live == 0 <==> run.out.len() == 0 && run.shares == 0
            &&& run.bytes.len() == len
            &&& run.live == 0 ==> run.bytes == Seq::new(
                len,
                |p: int| last_written(len, steps, p),
            )
        }),
{
    let run = buffer_run(len, steps);
    lemma_run(len, steps);
    if run.live == 0 {
        assert forall|p: int| 0 <= p < len implies #[trigger] run.bytes[p] == last_written(
            len,
            steps,
            p,
        ) by {
            assert(run.image[p] == last_written(len, steps, p));
        }
        assert(run.bytes =~= Seq::new(len, |p: int| last_written(len, steps, p)));
    }
}

/// While a slice is out, its bytes are those that were written last at their positions, and
/// no other slice reaches them.
pub proof fn slices_show_what_was_written(
    len: nat,
    steps: Seq<BufferStep>,
    i: int,
    j: int,
    p: int,
)
    requires
        0 <= i < buffer_run(len, steps).out.len(),
        0 <= j < buffer_run(len, steps).out.len(),
        reaches(buffer_run(len, steps).out[i], p),
    ensures
        0 <= p < len,
        buffer_run(len, steps).out[i].bytes[p - buffer_run(len, steps).out[i].start]
            == last_written(len, steps, p),
        reaches(buffer_run(len, steps).out[j], p) ==> i == j,
{
    let run = buffer_run(len, steps);
    lemma_run(len, steps);
    assert(slice_sound(run, run.out[i]));
    assert(run.image[p] == last_written(len, steps, p));
}

/// The pieces of a buffer, in their order.
pub open spec fn joined(pieces: Seq<Seq<u8>>) -> Seq<u8>
    decreases pieces.len(),
{
    if pieces.len() == 0 {
        Seq::empty()
    } else {
        joined(pieces.drop_last()) + pieces.last()
    }
}

/// Slices that tile the buffer from its start on, in their order.
pub open spec fn tiles(out: Seq<SliceModel>) -> bool {
    forall|i: int|
        0 <= i < out.len() ==> (#[trigger] out[i]).start == joined(pieces_of(out).take(i)).len()
}

/// The bytes of the slices.
pub open spec fn pieces_of(out: Seq<SliceModel>) -> Seq<Seq<u8>> {
    Seq::new(out.len(), |i: int| out[i].bytes)
}

proof fn lemma_joined_image(run: BufferRun, n: int)
    requires
        buffer_wf(run),
        tiles(run.out),
        0 <= n <= run.out.len(),
    ensures
        joined(pieces_of(run.out).take(n)).len() <= run.image.len(),
        run.image.take(joined(pieces_of(run.out).take(n)).len() as int) == joined(
            pieces_of(run.out).take(n),
        ),
    decreases n,
{
    let pieces = pieces_of(run.out);
    let all = joined(pieces.take(n));
    if n > 0 {
        let before = joined(pieces.take(n - 1));
        let s = run.out[n - 1];
        lemma_joined_image(run, n - 1);
        assert(slice_sound(run, s));
        assert(pieces.take(n).drop_last() =~= pieces.take(n - 1));
        assert(all == before + s.bytes);
        assert forall|p: int| 0 <= p < all.len() implies run.image[p] == all[p] by {
            if p < before.len() {
                assert(run.image.take(before.len() as int)[p] == before[p]);
            } else {
                assert(reaches(s, p));
            }
        }
        assert(run.image.take(all.len() as int) =~= all);
    } else {
        assert(pieces.take(0) =~= Seq::empty());
        assert(run.image.take(0) =~= all);
    }
}

/// Where the slices that are out tile the buffer, in whatever order they were written, their
/// bytes in their order are what was written.
pub proof fn tiles_make_the_buffer(len: nat, steps: Seq<BufferStep>)
    requires
        tiles(buffer_run(len, steps).out),
        joined(pieces_of(buffer_run(len, steps).out)).len() == len,
    ensures
        joined(pieces_of(buffer_run(len, steps).out)) == Seq::new(
            len,
            |p: int| last_written(len, steps, p),
        ),
{
    let run = buffer_run(len, steps);
    let pieces = pieces_of(run.out);
    lemma_run(len, steps);
    lemma_joined_image(run, run.out.len() as int);
    assert(pieces.take(run.out.len() as int) =~= pieces);
    assert(run.image.take(len as int) =~= run.image);
    assert forall|p: int| 0 <= p < len implies #[trigger] joined(pieces)[p] == last_written(
        len,
        steps,
        p,
    ) by {
        assert(run.image[p] == last_written(len, steps, p));
    }
    assert(joined(pieces) =~= Seq::new(len, |p: int| last_written(len, steps, p)));
}

} // verus!
