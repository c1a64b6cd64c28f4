//! A buffer whose regions are filled independently of each other.
//!
//! The whole buffer is lent as one slice, and a slice can be split in two. Every slice is
//! the only writer of its bytes, and may write them at any place and as often as it likes.
//! Its bytes are put in place when it comes back, and the buffer can be taken only when
//! every slice is back and nobody else shares it.

use crate::error::Error;
use vstd::prelude::*;

verus! {

/// The buffer, and how many slices and shares of it are out.
#[derive(Debug)]
pub struct SharedBuf {
    pub bytes: Vec<u8>,
    pub live: usize,
}

/// A share of the buffer: while it is out, the buffer can neither be lent nor taken.
#[derive(Debug)]
pub struct BufShare {}

/// The only writer of the bytes from `start_at` on, `length` of them, and what they are.
/// The first `filled` of them are what `write` has been given.
#[derive(Debug)]
pub struct BufSlice {
    pub start_at: usize,
    pub length: usize,
    pub bytes: Vec<u8>,
    pub filled: usize,
}

/// `BufSlice` over mathematical values.
#[verifier::ext_equal]
pub struct SliceModel {
    pub start: int,
    pub length: int,
    pub bytes: Seq<u8>,
    pub filled: int,
}

impl View for BufSlice {
    type V = SliceModel;

    open spec fn view(&self) -> SliceModel {
        SliceModel {
            start: self.start_at as int,
            length: self.length as int,
            bytes: self.bytes@,
            filled: self.filled as int,
        }
    }
}

/// `bytes` with `patch` put over it from `at` on.
pub open spec fn patched(bytes: Seq<u8>, at: int, patch: Seq<u8>) -> Seq<u8> {
    bytes.take(at) + patch + bytes.skip(at + patch.len())
}

impl SliceModel {
    /// The slice has its bytes, and is filled no further than they go.
    pub open spec fn wf(self) -> bool {
        &&& self.bytes.len() == self.length
        &&& 0 <= self.filled <= self.length
    }

    /// The slice on the first `at` bytes.
    pub open spec fn left(self, at: int) -> SliceModel {
        SliceModel {
            start: self.start,
            length: at,
            bytes: self.bytes.take(at),
            filled: if self.filled <= at {
                self.filled
            } else {
                at
            },
        }
    }

    /// The slice on what is behind the first `at` bytes.
    pub open spec fn right(self, at: int) -> SliceModel {
        SliceModel {
            start: self.start + at,
            length: self.length - at,
            bytes: self.bytes.skip(at),
            filled: if self.filled <= at {
                0
            } else {
                self.filled - at
            },
        }
    }

    /// The slice after `data` is written at the place `at` of it.
    pub open spec fn overwritten(self, at: int, data: Seq<u8>) -> SliceModel {
        SliceModel { bytes: patched(self.bytes, at, data), ..self }
    }

    /// How much of `data` finds room behind what the slice is filled with.
    pub open spec fn taken(self, data: Seq<u8>) -> int {
        if data.len() <= self.length - self.filled {
            data.len() as int
        } else {
            self.length - self.filled
        }
    }

    /// The slice after it is filled with `data`, as far as there is room.
    pub open spec fn extended(self, data: Seq<u8>) -> SliceModel {
        SliceModel {
            bytes: patched(self.bytes, self.filled, data.take(self.taken(data))),
            filled: self.filled + self.taken(data),
            ..self
        }
    }

    /// What the slice is filled with.
    pub open spec fn written(self) -> Seq<u8> {
        self.bytes.take(self.filled)
    }
}

/// Puts `data` over `bytes` from `at` on.
fn overwrite(bytes: &mut Vec<u8>, at: usize, data: &[u8], count: usize)
    requires
        at + count <= old(bytes)@.len(),
        count <= data@.len(),
    ensures
        final(bytes)@ == patched(old(bytes)@, at as int, data@.take(count as int)),
{
    let ghost before = bytes@;
    let total: usize = bytes.len();
    assert(patched(before, at as int, data@.take(0)) =~= before);
    for i in 0..count
        invariant
            before.len() == total,
            at + count <= total,
            count <= data@.len(),
            bytes@ == patched(before, at as int, data@.take(i as int)),
    {
        bytes.set(at + i, data[i]);
        assert(bytes@ =~= patched(before, at as int, data@.take(i + 1)));
    }
}

impl SharedBuf {
    /// A buffer of `len` zero bytes, nothing of it lent.
    pub fn with_capacity(len: usize) -> (buf: SharedBuf)
        ensures
            buf.bytes@ == Seq::new(len as nat, |i: int| 0u8),
            buf.live == 0,
    {
        let bytes: Vec<u8> = vec![0u8; len];
        assert(bytes@ =~= Seq::new(len as nat, |i: int| 0u8));
        SharedBuf { bytes, live: 0 }
    }

    /// Shares the buffer.
    pub fn share(&mut self) -> (share: BufShare)
        requires
            old(self).live < usize::MAX,
        ensures
            final(self).bytes == old(self).bytes,
            final(self).live == old(self).live + 1,
    {
        self.live = self.live + 1;
        BufShare {  }
    }

    /// Takes a share back.
    pub fn unshare(&mut self, share: BufShare)
        requires
            old(self).live > 0,
        ensures
            final(self).bytes == old(self).bytes,
            final(self).live == old(self).live - 1,
    {
        self.live = self.live - 1;
    }

    /// Lends the whole buffer, unless a slice or a share of it is out already.
    pub fn slice(&mut self) -> (slice: Result<BufSlice, Error>)
        ensures
            final(self).bytes == old(self).bytes,
            match slice {
                Ok(s) => {
                    &&& old(self).live == 0
                    &&& final(self).live == 1
                    &&& s@ == (SliceModel {
                        start: 0,
                        length: old(self).bytes@.len() as int,
                        bytes: old(self).bytes@,
                        filled: 0,
                    })
                },
                Err(e) => {
                    &&& old(self).live > 0
                    &&& final(self).live == old(self).live
                    &&& e is Custom
                    &&& e.text() == "Slice already exists"@
                },
            },
    {
        if self.live == 0 {
            self.live = 1;
            let mut bytes: Vec<u8> = Vec::new();
            bytes.extend_from_slice(self.bytes.as_slice());
            assert(bytes@ =~= self.bytes@);
            Ok(BufSlice { start_at: 0, length: self.bytes.len(), bytes, filled: 0 })
        } else {
            Err(Error::custom("Slice already exists"))
        }
    }

    /// Takes a slice back: its bytes are put in place.
    pub fn release(&mut self, slice: BufSlice)
        requires
            old(self).live > 0,
            slice.wf(),
            slice.start_at + slice.length <= old(self).bytes@.len(),
        ensures
            final(self).live == old(self).live - 1,
            final(self).bytes@ == patched(
                old(self).bytes@,
                slice.start_at as int,
                slice.bytes@,
            ),
    {
        overwrite(&mut self.bytes, slice.start_at, slice.bytes.as_slice(), slice.bytes.len());
        assert(slice.bytes@.take(slice.bytes@.len() as int) =~= slice.bytes@);
        self.live = self.live - 1;
    }

    /// The bytes, once every slice and every share is back; the buffer itself where one is
    /// still out.
    pub fn into_inner(self) -> (inner: Result<Vec<u8>, SharedBuf>)
        ensures
            match inner {
                Ok(bytes) => self.live == 0 && bytes == self.bytes,
                Err(buf) => self.live > 0 && buf == self,
            },
    {
        if self.live == 0 {
            Ok(self.bytes)
        } else {
            Err(self)
        }
    }
}

impl BufSlice {
    /// The slice has its bytes, and is filled no further than they go.
    pub open spec fn wf(&self) -> bool {
        self@.wf()
    }

    /// The slice may write this position of the buffer.
    pub open spec fn covers(&self, position: int) -> bool {
        self.start_at <= position < self.start_at + self.length
    }

    /// Splits the slice at `at`: the left one covers its first `at` bytes, the right one the
    /// rest. The buffer has one more slice out.
    pub fn split(self, buf: &mut SharedBuf, at: usize) -> (halves: (BufSlice, BufSlice))
        requires
            self.wf(),
            at <= self.length,
            self.start_at + self.length <= usize::MAX,
            old(buf).live < usize::MAX,
        ensures
            final(buf).live == old(buf).live + 1,
            final(buf).bytes == old(buf).bytes,
            halves.0.wf() && halves.1.wf(),
            halves.0@ == self@.left(at as int),
            halves.1@ == self@.right(at as int),
    {
        buf.live = buf.live + 1;
        let start_at: usize = self.start_at;
        let length: usize = self.length;
        let filled: usize = self.filled;
        let mut left: Vec<u8> = self.bytes;
        let right: Vec<u8> = left.split_off(at);
        assert(left@ =~= self.bytes@.take(at as int));
        assert(right@ =~= self.bytes@.skip(at as int));
        let (left_filled, right_filled): (usize, usize) = if filled <= at {
            (filled, 0)
        } else {
            (at, filled - at)
        };
        (
            BufSlice { start_at, length: at, bytes: left, filled: left_filled },
            BufSlice {
                start_at: start_at + at,
                length: length - at,
                bytes: right,
                filled: right_filled,
            },
        )
    }

    /// The bytes of the slice.
    pub fn as_slice(&self) -> (bytes: &[u8])
        ensures
            bytes@ == self@.bytes,
    {
        self.bytes.as_slice()
    }

    /// Writes `data` at the place `at` of the slice, over what is there.
    pub fn write_at(&mut self, at: usize, data: &[u8])
        requires
            old(self).wf(),
            at + data@.len() <= old(self).length,
        ensures
            final(self).wf(),
            final(self)@ == old(self)@.overwritten(at as int, data@),
    {
        overwrite(&mut self.bytes, at, data, data.len());
        assert(data@.take(data@.len() as int) =~= data@);
    }

    /// Fills the slice with as much of `data` as there is room for, behind what it is filled
    /// with, and returns how much that is.
    pub fn write(&mut self, data: &[u8]) -> (count: usize)
        requires
            old(self).wf(),
        ensures
            final(self).wf(),
            count == old(self)@.taken(data@),
            final(self)@ == old(self)@.extended(data@),
            final(self)@.written() == old(self)@.written() + data@.take(count as int),
    {
        let room: usize = self.length - self.filled;
        let count: usize = if data.len() <= room {
            data.len()
        } else {
            room
        };
        overwrite(&mut self.bytes, self.filled, data, count);
        self.filled = self.filled + count;
        assert(self@.written() =~= old(self)@.written() + data@.take(count as int));
        count
    }
}

/// The halves of a split slice do not overlap, and together they cover what it covered.
pub proof fn split_tiles(whole: BufSlice, left: BufSlice, right: BufSlice, at: usize, position: int)
    requires
        at <= whole.length,
        whole.start_at + whole.length <= usize::MAX,
        left@ == whole@.left(at as int),
        right@ == whole@.right(at as int),
    ensures
        whole.covers(position) <==> left.covers(position) || right.covers(position),
        !(left.covers(position) && right.covers(position)),
{
    assert(left@.start == left.start_at && left@.length == left.length);
    assert(right@.start == right.start_at && right@.length == right.length);
}

} // verus!
