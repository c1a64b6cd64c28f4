//! Reading a large object through windows that are fetched ahead.
//!
//! The reader decides which window to ask for and what to do with those that come; fetching
//! them is left to whoever drives it. A window at the reading position is asked for if none
//! is on its way, and once a position is in the current window, the next window is asked
//! for, twice as large.

use crate::byte_range::ByteRange;
use vstd::prelude::*;

verus! {

/// The least window that is asked for (16 MiB).
pub const MIN_WINDOW_SIZE: usize = 16_777_216;

/// The largest window that is asked for (256 MiB).
pub const MAX_WINDOW_SIZE: usize = 268_435_456;

/// The bytes of an object from `start` up to `end`.
#[derive(Debug, Clone, Copy, PartialEq, Eq, Structural)]
pub struct WindowRange {
    pub start: usize,
    pub end: usize,
}

impl WindowRange {
    /// Whether the range stands before another: it starts before it, or with it and ends
    /// before it.
    pub open spec fn precedes(self, other: WindowRange) -> bool {
        self.start < other.start || (self.start == other.start && self.end < other.end)
    }

    /// Whether the range holds all of another.
    pub open spec fn holds(self, other: WindowRange) -> bool {
        self.start <= other.start && self.end >= other.end
    }

    /// Whether the range holds a position.
    pub open spec fn has(self, position: usize) -> bool {
        self.start <= position < self.end
    }

    /// The range of `length` bytes from `start_position` on.
    pub fn new(start_position: usize, length: usize) -> (range: WindowRange)
        requires
            start_position + length <= usize::MAX,
        ensures
            range.start == start_position,
            range.end == start_position + length,
    {
        WindowRange { start: start_position, end: start_position + length }
    }

    /// Whether the range holds all of another.
    pub fn covers(&self, other: &WindowRange) -> (yes: bool)
        ensures
            yes == self.holds(*other),
    {
        self.start <= other.start && self.end >= other.end
    }

    /// Whether the range holds a position.
    pub fn contains(&self, position: usize) -> (yes: bool)
        ensures
            yes == self.has(position),
    {
        self.start <= position && position < self.end
    }

    /// Whether the range stands before another.
    fn is_before(&self, other: &WindowRange) -> (yes: bool)
        ensures
            yes == self.precedes(*other),
    {
        self.start < other.start || (self.start == other.start && self.end < other.end)
    }

    /// The range as S3 takes it.
    pub fn byte_range(&self) -> (range: ByteRange)
        requires
            self.end > 0,
        ensures
            range.first == self.start,
            range.last == self.end - 1,
    {
        ByteRange { first: self.start as u64, last: (self.end - 1) as u64 }
    }
}

/// A set of ranges, kept in their order.
#[derive(Debug)]
pub struct WindowRangeSet(pub Vec<WindowRange>);

/// The ranges stand in their order, none twice.
pub open spec fn ordered(ranges: Seq<WindowRange>) -> bool {
    forall|i: int, j: int|
        0 <= i < j < ranges.len() ==> (#[trigger] ranges[i]).precedes(#[trigger] ranges[j])
}

/// How many of the ranges stand before `range`.
pub open spec fn count_before(ranges: Seq<WindowRange>, range: WindowRange) -> nat
    decreases ranges.len(),
{
    if ranges.len() == 0 {
        0
    } else if ranges.last().precedes(range) {
        ranges.len()
    } else {
        count_before(ranges.drop_last(), range)
    }
}

/// The last of the ranges before `range`, where it is accepted, or else the first from it on,
/// where that is accepted.
pub open spec fn neighbour(
    ranges: Seq<WindowRange>,
    range: WindowRange,
    accepted: spec_fn(WindowRange) -> bool,
) -> Option<WindowRange> {
    let n = count_before(ranges, range) as int;
    if n > 0 && accepted(ranges[n - 1]) {
        Some(ranges[n - 1])
    } else if n < ranges.len() && accepted(ranges[n]) {
        Some(ranges[n])
    } else {
        None
    }
}

/// The range that is found for a position.
pub open spec fn position_cover(ranges: Seq<WindowRange>, position: usize) -> Option<WindowRange> {
    neighbour(
        ranges,
        WindowRange { start: position, end: (position + 1) as usize },
        |r: WindowRange| r.has(position),
    )
}

/// The range that is found for another.
pub open spec fn range_cover(ranges: Seq<WindowRange>, range: WindowRange) -> Option<WindowRange> {
    neighbour(ranges, range, |r: WindowRange| r.holds(range))
}

/// The ranges with one more.
pub open spec fn range_added(ranges: Seq<WindowRange>, range: WindowRange) -> Seq<WindowRange> {
    let n = count_before(ranges, range) as int;
    if n < ranges.len() && ranges[n] == range {
        ranges
    } else {
        ranges.insert(n, range)
    }
}

/// The ranges without one.
pub open spec fn range_removed(ranges: Seq<WindowRange>, range: WindowRange) -> Seq<WindowRange> {
    let n = count_before(ranges, range) as int;
    if n < ranges.len() && ranges[n] == range {
        ranges.remove(n)
    } else {
        ranges
    }
}

proof fn lemma_count_before(ranges: Seq<WindowRange>, range: WindowRange)
    requires
        ordered(ranges),
    ensures
        count_before(ranges, range) <= ranges.len(),
        forall|i: int|
            0 <= i < ranges.len() ==> ((#[trigger] ranges[i]).precedes(range) <==> i
                < count_before(ranges, range)),
    decreases ranges.len(),
{
    if ranges.len() > 0 {
        let rest = ranges.drop_last();
        if ranges.last().precedes(range) {
            assert forall|i: int| 0 <= i < ranges.len() implies (#[trigger] ranges[i]).precedes(
                range,
            ) by {
                if i < ranges.len() - 1 {
                    assert(ranges[i].precedes(ranges[ranges.len() - 1]));
                }
            }
        } else {
            assert forall|i: int, j: int| 0 <= i < j < rest.len() implies (
            #[trigger] rest[i]).precedes(#[trigger] rest[j]) by {
                assert(ranges[i].precedes(ranges[j]));
            }
            lemma_count_before(rest, range);
            assert forall|i: int| 0 <= i < ranges.len() implies ((#[trigger] ranges[i]).precedes(
                range,
            ) <==> i < count_before(ranges, range)) by {
                if i < rest.len() {
                    assert(rest[i] == ranges[i]);
                }
            }
        }
    }
}

/// Adding keeps the order, and what is in the set afterwards is what was, and the range.
pub proof fn adding_keeps_the_order(ranges: Seq<WindowRange>, range: WindowRange)
    requires
        ordered(ranges),
    ensures
        ordered(range_added(ranges, range)),
        forall|r: WindowRange|
            range_added(ranges, range).contains(r) <==> ranges.contains(r) || r == range,
{
    lemma_count_before(ranges, range);
    let n = count_before(ranges, range) as int;
    let after = range_added(ranges, range);
    if n < ranges.len() && ranges[n] == range {
        assert(ranges.contains(ranges[n]));
    } else {
        assert forall|i: int, j: int| 0 <= i < j < after.len() implies (
        #[trigger] after[i]).precedes(#[trigger] after[j]) by {
            if i < n && j < n {
                assert(ranges[i].precedes(ranges[j]));
            } else if i < n && j > n {
                assert(ranges[i].precedes(ranges[j - 1]));
            } else if i > n {
                assert(ranges[i - 1].precedes(ranges[j - 1]));
            } else if i == n {
                assert(!ranges[j - 1].precedes(range));
                if j - 1 > n {
                    assert(ranges[n].precedes(ranges[j - 1]));
                }
            } else {
                assert(ranges[i].precedes(range));
            }
        }
        assert forall|r: WindowRange|
            after.contains(r) <==> ranges.contains(r) || r == range by {
            if ranges.contains(r) {
                let i = choose|i: int| 0 <= i < ranges.len() && ranges[i] == r;
                assert(after[if i < n {
                    i
                } else {
                    i + 1
                }] == r);
            }
            if r == range {
                assert(after[n] == r);
            }
            if after.contains(r) && r != range {
                let i = choose|i: int| 0 <= i < after.len() && after[i] == r;
                assert(ranges[if i < n {
                    i
                } else {
                    i - 1
                }] == r);
            }
        }
    }
}

proof fn lemma_removed(ranges: Seq<WindowRange>, range: WindowRange)
    requires
        ordered(ranges),
    ensures
        ordered(range_removed(ranges, range)),
{
    lemma_count_before(ranges, range);
    let n = count_before(ranges, range) as int;
    let after = range_removed(ranges, range);
    if n < ranges.len() && ranges[n] == range {
        assert forall|i: int, j: int| 0 <= i < j < after.len() implies (
        #[trigger] after[i]).precedes(#[trigger] after[j]) by {
            let a = if i < n {
                i
            } else {
                i + 1
            };
            let b = if j < n {
                j
            } else {
                j + 1
            };
            assert(ranges[a].precedes(ranges[b]));
        }
    }
}

impl WindowRangeSet {
    /// The ranges stand in their order.
    pub open spec fn wf(&self) -> bool {
        ordered(self.0@)
    }

    /// No ranges.
    pub fn new() -> (set: WindowRangeSet)
        ensures
            set.wf(),
            set.0@ == Seq::<WindowRange>::empty(),
    {
        WindowRangeSet(Vec::new())
    }

    /// How many of the ranges stand before `range`.
    fn rank(&self, range: &WindowRange) -> (n: usize)
        requires
            self.wf(),
        ensures
            n == count_before(self.0@, *range),
            n <= self.0@.len(),
    {
        let mut n: usize = self.0.len();
        assert(self.0@.take(n as int) =~= self.0@);
        while n > 0 && !self.0[n - 1].is_before(range)
            invariant
                n <= self.0@.len(),
                count_before(self.0@, *range) == count_before(self.0@.take(n as int), *range),
            decreases n,
        {
            assert(self.0@.take(n as int).drop_last() =~= self.0@.take(n - 1));
            n = n - 1;
        }
        n
    }

    /// Adds a range.
    pub fn insert(&mut self, range: WindowRange)
        requires
            old(self).wf(),
        ensures
            final(self).wf(),
            final(self).0@ == range_added(old(self).0@, range),
    {
        proof {
            adding_keeps_the_order(self.0@, range);
        }
        let n: usize = self.rank(&range);
        if n < self.0.len() && self.0[n] == range {
        } else {
            self.0.insert(n, range);
        }
    }

    /// Removes a range, if it is there.
    pub fn remove(&mut self, range: &WindowRange)
        requires
            old(self).wf(),
        ensures
            final(self).wf(),
            final(self).0@ == range_removed(old(self).0@, *range),
    {
        proof {
            lemma_removed(self.0@, *range);
        }
        let n: usize = self.rank(range);
        if n < self.0.len() && self.0[n] == *range {
            let gone: WindowRange = self.0.remove(n);
        }
    }

    /// A range that holds the position: of those that are looked at, the last that starts
    /// before it, or the next.
    pub fn get_position_cover(&self, position: usize) -> (cover: Option<WindowRange>)
        requires
            self.wf(),
            position < usize::MAX,
        ensures
            cover == position_cover(self.0@, position),
    {
        let n: usize = self.rank(&WindowRange { start: position, end: position + 1 });
        if n > 0 && self.0[n - 1].contains(position) {
            Some(self.0[n - 1])
        } else if n < self.0.len() && self.0[n].contains(position) {
            Some(self.0[n])
        } else {
            None
        }
    }

    /// A range that holds all of another: of those that are looked at, the last before it, or
    /// the next.
    pub fn get_range_cover(&self, range: &WindowRange) -> (cover: Option<WindowRange>)
        requires
            self.wf(),
        ensures
            cover == range_cover(self.0@, *range),
    {
        let n: usize = self.rank(range);
        if n > 0 && self.0[n - 1].covers(range) {
            Some(self.0[n - 1])
        } else if n < self.0.len() && self.0[n].covers(range) {
            Some(self.0[n])
        } else {
            None
        }
    }
}

/// A range that is found for a position is in the set and holds the position; a range that
/// is found for another is in the set and holds it.
pub proof fn covers_cover(ranges: Seq<WindowRange>, position: usize, range: WindowRange)
    requires
        ordered(ranges),
    ensures
        position_cover(ranges, position) matches Some(r) ==> ranges.contains(r) && r.has(position),
        range_cover(ranges, range) matches Some(r) ==> ranges.contains(r) && r.holds(range),
{
    lemma_count_before(ranges, range);
    lemma_count_before(
        ranges,
        WindowRange { start: position, end: (position + 1) as usize },
    );
}

/// A window that has been fetched.
#[derive(Debug)]
pub struct S3ObjectReaderWindow {
    pub range: WindowRange,
    pub buf: Vec<u8>,
}

/// The reader's state.
#[derive(Debug)]
pub struct S3ObjectReader {
    pub current_window: Option<S3ObjectReaderWindow>,
    pub position: usize,
    pub object_size: usize,
    /// The windows that have been asked for and have not come.
    pub incoming_windows: WindowRangeSet,
}

/// Where the reading position is to go.
#[derive(Debug, Clone, Copy, PartialEq, Eq, Structural)]
pub enum SeekTarget {
    Start(u64),
    End(i64),
    Current(i64),
}

/// Whether the reading position is in the current window.
#[derive(Debug, Clone, Copy, PartialEq, Eq, Structural)]
pub enum Located {
    /// It is. The next window is to be asked for, unless it is covered already.
    Here(Option<WindowRange>),
    /// It is not: a window has to come first.
    Elsewhere,
}

/// What a subtraction leaves, at least nothing.
pub open spec fn less(a: usize, b: usize) -> usize {
    if a >= b {
        (a - b) as usize
    } else {
        0
    }
}

/// The window that is asked for: the wanted one, cut at the object's end, but not below the
/// least size, for which it may start earlier.
pub open spec fn asked_range(object_size: usize, offset: usize, size: usize) -> WindowRange {
    if offset + size > object_size {
        if less(object_size, offset) >= MIN_WINDOW_SIZE {
            WindowRange { start: offset, end: object_size }
        } else {
            let start = less(object_size, MIN_WINDOW_SIZE);
            WindowRange { start, end: (start + MIN_WINDOW_SIZE) as usize }
        }
    } else {
        WindowRange { start: offset, end: (offset + size) as usize }
    }
}

/// A range that can have been asked for.
pub open spec fn plausible(range: WindowRange, object_size: usize) -> bool {
    &&& MIN_WINDOW_SIZE <= range.end - range.start <= MAX_WINDOW_SIZE
    &&& range.end <= object_size || range.end <= MIN_WINDOW_SIZE
}

impl S3ObjectReader {
    /// The windows are such as can have been asked for, and what may still be asked for can
    /// be addressed.
    pub open spec fn wf(&self) -> bool {
        &&& self.incoming_windows.wf()
        &&& self.object_size + MAX_WINDOW_SIZE <= usize::MAX
        &&& self.current_window matches Some(w) ==> plausible(w.range, self.object_size)
    }

    /// Whether the current window holds the reading position.
    pub open spec fn is_here(&self) -> bool {
        self.current_window matches Some(w) && w.range.has(self.position)
    }

    /// Whether a range is covered by the current window or by one that is on its way.
    pub open spec fn is_covered(&self, range: WindowRange) -> bool {
        ||| (self.current_window matches Some(w) && w.range.holds(range))
        ||| range_cover(self.incoming_windows.0@, range) is Some
    }

    /// Everything but the windows on their way is as in `other`.
    pub open spec fn same_but_incoming(&self, other: S3ObjectReader) -> bool {
        &&& self.current_window == other.current_window
        &&& self.position == other.position
        &&& self.object_size == other.object_size
    }

    /// A reader at the start of an object, with no window.
    pub fn new(object_size: usize) -> (reader: S3ObjectReader)
        requires
            object_size + MAX_WINDOW_SIZE <= usize::MAX,
        ensures
            reader.wf(),
            reader.current_window is None,
            reader.position == 0,
            reader.object_size == object_size,
            reader.incoming_windows.0@ == Seq::<WindowRange>::empty(),
    {
        S3ObjectReader {
            current_window: None,
            position: 0,
            object_size,
            incoming_windows: WindowRangeSet::new(),
        }
    }

    /// Asks for a window, unless it is covered. The range to be fetched is returned.
    fn ask_window(&mut self, offset: usize, size: usize) -> (request: Option<WindowRange>)
        requires
            old(self).wf(),
            MIN_WINDOW_SIZE <= size <= MAX_WINDOW_SIZE,
            offset + size <= usize::MAX,
        ensures
            final(self).wf(),
            final(self).same_but_incoming(*old(self)),
            ({
                let range = asked_range(old(self).object_size, offset, size);
                &&& plausible(range, old(self).object_size)
                &&& if old(self).is_covered(range) {
                    &&& request is None
                    &&& final(self).incoming_windows == old(self).incoming_windows
                } else {
                    &&& request == Some(range)
                    &&& final(self).incoming_windows.0@ == range_added(
                        old(self).incoming_windows.0@,
                        range,
                    )
                }
            }),
    {
        let range: WindowRange = if offset + size > self.object_size {
            if self.object_size >= offset && self.object_size - offset >= MIN_WINDOW_SIZE {
                WindowRange::new(offset, self.object_size - offset)
            } else {
                let start: usize = if self.object_size >= MIN_WINDOW_SIZE {
                    self.object_size - MIN_WINDOW_SIZE
                } else {
                    0
                };
                WindowRange::new(start, MIN_WINDOW_SIZE)
            }
        } else {
            WindowRange::new(offset, size)
        };
        let in_hand: bool = match &self.current_window {
            Some(w) => w.range.covers(&range),
            None => false,
        };
        if in_hand || self.incoming_windows.get_range_cover(&range).is_some() {
            None
        } else {
            self.incoming_windows.insert(range);
            Some(range)
        }
    }

    /// Says whether the reading position is in the current window. If it is, the window
    /// behind it, up to twice as large, is asked for.
    pub fn locate(&mut self) -> (located: Located)
        requires
            old(self).wf(),
        ensures
            final(self).wf(),
            final(self).same_but_incoming(*old(self)),
            match located {
                Located::Elsewhere => !old(self).is_here() && final(self).incoming_windows
                    == old(self).incoming_windows,
                Located::Here(request) => {
                    let w = old(self).current_window->Some_0.range;
                    let size = if 2 * (w.end - w.start) <= MAX_WINDOW_SIZE {
                        2 * (w.end - w.start)
                    } else {
                        MAX_WINDOW_SIZE as int
                    };
                    let range = asked_range(old(self).object_size, w.end, size as usize);
                    &&& range == old(self).next_range()
                    &&& old(self).is_here()
                    &&& if old(self).is_covered(range) {
                        &&& request is None
                        &&& final(self).incoming_windows == old(self).incoming_windows
                    } else {
                        &&& request == Some(range)
                        &&& final(self).incoming_windows.0@ == range_added(
                            old(self).incoming_windows.0@,
                            range,
                        )
                    }
                },
            },
    {
        let here: bool = match &self.current_window {
            Some(w) => w.range.contains(self.position),
            None => false,
        };
        if !here {
            return Located::Elsewhere;
        }
        let range: WindowRange = match &self.current_window {
            Some(w) => w.range,
            None => WindowRange { start: 0, end: 0 },
        };
        let length: usize = range.end - range.start;
        let size: usize = if length <= MAX_WINDOW_SIZE / 2 {
            2 * length
        } else {
            MAX_WINDOW_SIZE
        };
        Located::Here(self.ask_window(range.end, size))
    }

    /// Takes a window that has come. It becomes the current one if it holds the reading
    /// position, and else there is none.
    pub fn accept(&mut self, window: S3ObjectReaderWindow)
        requires
            old(self).wf(),
            plausible(window.range, old(self).object_size),
        ensures
            final(self).wf(),
            final(self).position == old(self).position,
            final(self).object_size == old(self).object_size,
            final(self).incoming_windows.0@ == range_removed(
                old(self).incoming_windows.0@,
                window.range,
            ),
            final(self).current_window == (if window.range.has(old(self).position) {
                Some(window)
            } else {
                None
            }),
    {
        self.incoming_windows.remove(&window.range);
        self.current_window = if window.range.contains(self.position) {
            Some(window)
        } else {
            None
        };
    }

    /// What is to be asked for before waiting for a window.
    pub open spec fn wait_request(&self) -> Option<WindowRange> {
        let range = asked_range(self.object_size, self.position, MIN_WINDOW_SIZE);
        if position_cover(self.incoming_windows.0@, self.position) is None && !self.is_covered(
            range,
        ) {
            Some(range)
        } else {
            None
        }
    }

    /// What is to be asked for before waiting for a window: one at the reading position,
    /// unless a window on its way holds it.
    pub fn before_waiting(&mut self) -> (request: Option<WindowRange>)
        requires
            old(self).wf(),
            old(self).position + MIN_WINDOW_SIZE <= usize::MAX,
        ensures
            final(self).wf(),
            final(self).same_but_incoming(*old(self)),
            request == old(self).wait_request(),
            ({
                let range = asked_range(
                    old(self).object_size,
                    old(self).position,
                    MIN_WINDOW_SIZE,
                );
                if position_cover(old(self).incoming_windows.0@, old(self).position) is None
                    && !old(self).is_covered(range) {
                    &&& request == Some(range)
                    &&& final(self).incoming_windows.0@ == range_added(
                        old(self).incoming_windows.0@,
                        range,
                    )
                } else {
                    &&& request is None
                    &&& final(self).incoming_windows == old(self).incoming_windows
                }
            }),
    {
        if self.incoming_windows.get_position_cover(self.position).is_none() {
            self.ask_window(self.position, MIN_WINDOW_SIZE)
        } else {
            None
        }
    }

    /// How many bytes a read of at most `max` gives.
    pub open spec fn read_count(&self, max: usize) -> int {
        let w = self.current_window->Some_0;
        let left = w.buf@.len() - (self.position - w.range.start);
        if left <= max {
            left
        } else {
            max as int
        }
    }

    /// The window that is asked for once the position is in the current one.
    pub open spec fn next_range(&self) -> WindowRange {
        let w = self.current_window->Some_0.range;
        let size = if 2 * (w.end - w.start) <= MAX_WINDOW_SIZE {
            2 * (w.end - w.start)
        } else {
            MAX_WINDOW_SIZE as int
        };
        asked_range(self.object_size, w.end, size as usize)
    }

    /// Reads at most `max` bytes from the current window and moves on behind them.
    pub fn read(&mut self, max: usize) -> (bytes: Vec<u8>)
        requires
            old(self).wf(),
            old(self).is_here(),
            old(self).position - old(self).current_window->Some_0.range.start
                <= old(self).current_window->Some_0.buf@.len(),
            old(self).current_window->Some_0.range.start
                + old(self).current_window->Some_0.buf@.len() <= usize::MAX,
        ensures
            final(self).wf(),
            final(self).current_window == old(self).current_window,
            final(self).object_size == old(self).object_size,
            final(self).incoming_windows == old(self).incoming_windows,
            bytes@.len() == old(self).read_count(max),
            ({
                let w = old(self).current_window->Some_0;
                let from = old(self).position - w.range.start;
                let left = w.buf@.len() - from;
                let n = if left <= max {
                    left
                } else {
                    max as int
                };
                &&& bytes@ == w.buf@.subrange(from, from + n)
                &&& final(self).position == old(self).position + n
            }),
    {
        let position: usize = self.position;
        let bytes: Vec<u8> = match &self.current_window {
            Some(w) => {
                let from: usize = position - w.range.start;
                let left: usize = w.buf.len() - from;
                let n: usize = if left <= max {
                    left
                } else {
                    max
                };
                vstd::slice::slice_to_vec(
                    vstd::slice::slice_subrange(w.buf.as_slice(), from, from + n),
                )
            },
            None => Vec::new(),
        };
        self.position = position + bytes.len();
        bytes
    }

    /// Where the reading position goes.
    pub open spec fn sought(&self, target: SeekTarget) -> int {
        match target {
            SeekTarget::Start(to) => to as usize as int,
            SeekTarget::End(offset) => if offset >= 0 {
                self.object_size as int
            } else {
                less(self.object_size, (-offset) as usize) as int
            },
            SeekTarget::Current(offset) => {
                let to = self.position + offset as isize;
                if to < 0 {
                    0
                } else if to > usize::MAX {
                    usize::MAX as int
                } else {
                    to
                }
            },
        }
    }

    /// Moves the reading position: to a place, from the end, or from where it is. It never
    /// goes before the start, and from the end never behind the end.
    pub fn seek(&mut self, target: SeekTarget) -> (position: u64)
        requires
            old(self).wf(),
            target matches SeekTarget::End(offset) ==> offset > i64::MIN,
        ensures
            final(self).wf(),
            final(self).position == old(self).sought(target),
            position == final(self).position,
            final(self).current_window == old(self).current_window,
            final(self).object_size == old(self).object_size,
            final(self).incoming_windows == old(self).incoming_windows,
    {
        match target {
            SeekTarget::Start(to) => {
                self.position = to as usize;
            },
            SeekTarget::End(offset) => {
                self.position = if offset >= 0 {
                    self.object_size
                } else {
                    let back: usize = (-offset) as usize;
                    if self.object_size >= back {
                        self.object_size - back
                    } else {
                        0
                    }
                };
            },
            SeekTarget::Current(offset) => {
                let by: isize = offset as isize;
                self.position = if by >= 0 {
                    match self.position.checked_add(by as usize) {
                        Some(to) => to,
                        None => usize::MAX,
                    }
                } else {
                    let back: usize = (-(by + 1)) as usize;
                    if self.position > back {
                        self.position - back - 1
                    } else {
                        0
                    }
                };
            },
        }
        self.position as u64
    }
}

/// The window holds the bytes of the object at its range, as far as the object goes.
pub open spec fn faithful(window: S3ObjectReaderWindow, object: Seq<u8>) -> bool {
    let end = if window.range.end <= object.len() {
        window.range.end as int
    } else {
        object.len() as int
    };
    window.range.start <= object.len() && window.buf@ == object.subrange(
        window.range.start as int,
        end,
    )
}

/// Reading gives the object's bytes at the reading position, and at least one where the
/// position is before the end and any are wanted.
pub proof fn reading_gives_the_object(
    window: S3ObjectReaderWindow,
    object: Seq<u8>,
    position: usize,
    max: usize,
)
    requires
        faithful(window, object),
        window.range.has(position),
        position <= object.len(),
    ensures
        ({
            let from = position - window.range.start;
            let left = window.buf@.len() - from;
            let n = if left <= max {
                left
            } else {
                max as int
            };
            &&& from <= window.buf@.len()
            &&& window.buf@.subrange(from, from + n) == object.subrange(
                position as int,
                position + n,
            )
            &&& position < object.len() && max > 0 ==> n > 0
        }),
{
    let from = position - window.range.start;
    let left = window.buf@.len() - from;
    let n = if left <= max {
        left
    } else {
        max as int
    };
    assert(window.buf@.subrange(from, from + n) =~= object.subrange(position as int, position + n));
}

/// A window that is asked for at a position before the object's end holds the position.
pub proof fn asked_window_holds_the_position(object_size: usize, position: usize)
    requires
        position < object_size,
        position + MIN_WINDOW_SIZE <= usize::MAX,
    ensures
        asked_range(object_size, position, MIN_WINDOW_SIZE).has(position),
{
}

/// Going on from where the position is adds the offset to it, whichever way, as far as that
/// is a position; before the start it stops at the start, and at the end of what can be
/// addressed it stops there.
pub proof fn seeking_from_the_position_adds(reader: S3ObjectReader, offset: i64)
    requires
        isize::MIN <= offset <= isize::MAX,
    ensures
        0 <= reader.position + offset <= usize::MAX ==> reader.sought(SeekTarget::Current(offset))
            == reader.position + offset,
        reader.position + offset < 0 ==> reader.sought(SeekTarget::Current(offset)) == 0,
        reader.position + offset > usize::MAX ==> reader.sought(SeekTarget::Current(offset))
            == usize::MAX,
        reader.sought(SeekTarget::Current(0)) == reader.position,
{
}

/// Going on and back by the same offset leads to where the position was.
pub proof fn seeking_there_and_back(reader: S3ObjectReader, moved: S3ObjectReader, offset: i64)
    requires
        isize::MIN < offset <= isize::MAX,
        i64::MIN < offset,
        0 <= reader.position + offset <= usize::MAX,
        moved.position == reader.sought(SeekTarget::Current(offset)),
    ensures
        moved.sought(SeekTarget::Current((-offset) as i64)) == reader.position,
{
}

/// A position counted from the start is that position, wherever the reader was.
pub proof fn seeking_from_the_start_is_absolute(reader: S3ObjectReader, to: u64)
    requires
        to <= usize::MAX,
    ensures
        reader.sought(SeekTarget::Start(to)) == to,
{
}

/// A position counted back from the end is as far before the object's size, wherever the
/// reader was; nothing leads before the start or, from the end, behind the end.
pub proof fn seeking_from_the_end_counts_back(reader: S3ObjectReader, offset: i64)
    requires
        offset > i64::MIN,
        -offset <= usize::MAX,
    ensures
        offset <= 0 && reader.object_size + offset >= 0 ==> reader.sought(SeekTarget::End(offset))
            == reader.object_size + offset,
        reader.object_size + offset < 0 ==> reader.sought(SeekTarget::End(offset)) == 0,
        offset >= 0 ==> reader.sought(SeekTarget::End(offset)) == reader.object_size,
{
}

/// A removed range is gone, and no other is.
pub proof fn removing_takes_one_range(
    ranges: Seq<WindowRange>,
    range: WindowRange,
    other: WindowRange,
)
    requires
        ordered(ranges),
    ensures
        ordered(range_removed(ranges, range)),
        range_removed(ranges, range).contains(other) <==> ranges.contains(other) && other != range,
{
    lemma_count_before(ranges, range);
    lemma_removed(ranges, range);
    let n = count_before(ranges, range) as int;
    let after = range_removed(ranges, range);
    if ranges.contains(range) {
        let at = choose|at: int| 0 <= at < ranges.len() && ranges[at] == range;
        assert(!ranges[at].precedes(range));
        if n < at {
            assert(ranges[n].precedes(ranges[at]));
        }
        assert(n == at);
        if ranges.contains(other) && other != range {
            let i = choose|i: int| 0 <= i < ranges.len() && ranges[i] == other;
            assert(after[if i < n {
                i
            } else {
                i - 1
            }] == other);
        }
        if after.contains(other) {
            let i = choose|i: int| 0 <= i < after.len() && after[i] == other;
            let from = if i < n {
                i
            } else {
                i + 1
            };
            assert(ranges[from] == other);
            if from < n {
                assert(ranges[from].precedes(ranges[n]));
            } else {
                assert(ranges[n].precedes(ranges[from]));
            }
        }
    } else if n < ranges.len() {
        assert(ranges.contains(ranges[n]));
    }
}

/// A range that is on its way is found, so that it is not asked for twice.
pub proof fn ranges_on_their_way_are_found(
    ranges: Seq<WindowRange>,
    range: WindowRange,
)
    requires
        ordered(ranges),
    ensures
        ranges.contains(range) ==> range_cover(ranges, range) is Some,
        range_cover(range_added(ranges, range), range) is Some,
        ranges.len() == 0 ==> range_cover(ranges, range) is None,
{
    adding_keeps_the_order(ranges, range);
    let added = range_added(ranges, range);
    assert(added.contains(range));
    lemma_found(added, range);
    if ranges.contains(range) {
        lemma_found(ranges, range);
    }
}

proof fn lemma_found(ranges: Seq<WindowRange>, range: WindowRange)
    requires
        ordered(ranges),
        ranges.contains(range),
    ensures
        range_cover(ranges, range) is Some,
{
    lemma_count_before(ranges, range);
    let n = count_before(ranges, range) as int;
    let at = choose|at: int| 0 <= at < ranges.len() && ranges[at] == range;
    assert(!ranges[at].precedes(range));
    if n < at {
        assert(ranges[n].precedes(ranges[at]));
    }
    assert(n == at);
}

/// A single range on its way is found for every position that it holds, and for no other.
pub proof fn one_range_is_found_by_position(range: WindowRange, position: usize)
    requires
        position < usize::MAX,
    ensures
        position_cover(seq![range], position) is Some <==> range.start <= position < range.end,
{
    let probe = WindowRange { start: position, end: (position + 1) as usize };
    lemma_count_before(seq![range], probe);
    assert(seq![range][0] == range);
}

/// A window that is asked for holds all that is wanted of the object, has at least 16 MiB,
/// and has no more bytes than were wanted, unless these were fewer.
pub proof fn asked_windows_hold_what_is_wanted(object_size: usize, offset: usize, size: usize)
    requires
        offset < object_size,
        16 * 1024 * 1024 <= size,
        offset + size <= usize::MAX,
        object_size + 16 * 1024 * 1024 <= usize::MAX,
    ensures
        ({
            let range = asked_range(object_size, offset, size);
            let wanted_end = if offset + size <= object_size {
                offset + size
            } else {
                object_size as int
            };
            &&& range.start <= offset
            &&& range.end >= wanted_end
            &&& 16 * 1024 * 1024 <= range.end - range.start <= size
            &&& offset + size <= object_size ==> range.start == offset && range.end == offset
                + size
            &&& range.start == 0 || range.end <= object_size
        }),
{
}

/// Reading one call after the other gives the object's bytes one behind the other: two
/// reads in a window together give what one read of both lengths gives.
pub proof fn reads_follow_each_other(
    window: S3ObjectReaderWindow,
    object: Seq<u8>,
    position: usize,
    first: int,
    second: int,
)
    requires
        faithful(window, object),
        window.range.has(position),
        0 <= first,
        0 <= second,
        position + first + second <= object.len(),
        position + first + second <= window.range.end,
    ensures
        ({
            let from = position - window.range.start;
            &&& from + first + second <= window.buf@.len()
            &&& window.buf@.subrange(from, from + first) + window.buf@.subrange(
                from + first,
                from + first + second,
            ) == object.subrange(position as int, position + first + second)
        }),
{
    let from = position - window.range.start;
    assert(window.buf@.subrange(from, from + first) + window.buf@.subrange(
        from + first,
        from + first + second,
    ) =~= object.subrange(position as int, position + first + second));
}

/// A read gives as many bytes as are wanted, unless the window ends before: then it gives all
/// that the window still has. At the position before the end of the object it gives some.
pub proof fn reads_are_as_long_as_they_can_be(
    reader: S3ObjectReader,
    object: Seq<u8>,
    max: usize,
)
    requires
        reader.is_here(),
        faithful(reader.current_window->Some_0, object),
        reader.position <= object.len(),
    ensures
        ({
            let w = reader.current_window->Some_0;
            let n = reader.read_count(max);
            &&& 0 <= n <= max
            &&& n == max || reader.position + n == w.range.end || reader.position + n
                == object.len()
            &&& reader.position < object.len() && max > 0 ==> n > 0
        }),
{
}

/// The window that is asked for ahead starts where the current one ends and is twice as long,
/// up to 256 MiB, as far as the object goes.
pub proof fn windows_ahead_double(reader: S3ObjectReader)
    requires
        reader.wf(),
        reader.is_here(),
        reader.current_window->Some_0.range.end < reader.object_size,
    ensures
        ({
            let w = reader.current_window->Some_0.range;
            let next = reader.next_range();
            let length = w.end - w.start;
            let want = if 2 * length <= 256 * 1024 * 1024 {
                2 * length
            } else {
                256 * 1024 * 1024int
            };
            &&& next.start <= w.end < next.end
            &&& w.end + want <= reader.object_size ==> next.start == w.end && next.end == w.end
                + want
            &&& w.end + want > reader.object_size ==> next.end == reader.object_size
        }),
{
}

/// A reader never waits in vain: before it waits, a window that holds its position is on its
/// way, or it asks for one.
pub proof fn waiting_readers_have_asked(reader: S3ObjectReader)
    requires
        reader.wf(),
        !reader.is_here(),
        reader.position < reader.object_size,
        reader.position + MIN_WINDOW_SIZE <= usize::MAX,
    ensures
        match reader.wait_request() {
            Some(range) => range.start <= reader.position < range.end,
            None => exists|range: WindowRange|
                #[trigger] reader.incoming_windows.0@.contains(range) && range.start
                    <= reader.position < range.end,
        },
{
    let ranges = reader.incoming_windows.0@;
    let range = asked_range(reader.object_size, reader.position, MIN_WINDOW_SIZE);
    asked_window_holds_the_position(reader.object_size, reader.position);
    covers_cover(ranges, reader.position, range);
    if reader.wait_request() is None {
        if let Some(r) = position_cover(ranges, reader.position) {
            assert(ranges.contains(r));
        } else {
            let r = range_cover(ranges, range)->Some_0;
            assert(ranges.contains(r));
        }
    }
}

} // verus!
