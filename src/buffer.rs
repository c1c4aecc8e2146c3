//! The ring buffer: fixed storage, two cursors and a full flag.

use vstd::prelude::*;

use std::ops::Range;

use vstd::arithmetic::div_mod::{lemma_mod_add_multiples_vanish, lemma_small_mod};
use vstd::layout::size_of;
use vstd::pervasive::cloned;
use vstd::string::{to_string_from_display_ensures, StringExecFns};

use crate::model::{clones_of, joined, moved_count, pushed, rendered, rendered_debug};

verus! {

/// A ring buffer of fixed capacity.
///
/// `slots` has exactly `size` entries. The live values sit in the slots from
/// the read cursor `r` forward, circularly, up to the write cursor `w`; when
/// `full` is set, `r == w` and every slot is live. A slot outside that region
/// holds `None`. The buffer is a plain sequential structure: callers that share
/// it between threads provide their own exclusion.
pub struct CircularBuffer<T> {
    slots: Vec<Option<T>>,
    w: usize,
    r: usize,
    size: usize,
    full: bool,
}

/// Within two laps, wrapping modulo `m` takes `m` off at most once.
proof fn lemma_wrap(a: int, m: int)
    requires
        m >= 1,
        0 <= a < 2 * m,
    ensures
        a % m == (if a < m { a } else { a - m }),
{
    if a < m {
        lemma_small_mod(a as nat, m as nat);
    } else {
        lemma_mod_add_multiples_vanish(a - m, m);
        lemma_small_mod((a - m) as nat, m as nat);
    }
}

impl<T> View for CircularBuffer<T> {
    type V = Seq<T>;

    /// The live values, oldest first.
    closed spec fn view(&self) -> Seq<T> {
        Seq::new(self.occupancy(), |k: int| self.slots@[self.slot_of(k)]->Some_0)
    }
}

impl<T> CircularBuffer<T> {
    /// The fixed number of slots.
    pub closed spec fn capacity(&self) -> nat {
        self.size as nat
    }

    /// Where the next pushed value goes.
    pub closed spec fn write_cursor(&self) -> usize {
        self.w
    }

    /// Where the oldest live value sits.
    pub closed spec fn read_cursor(&self) -> usize {
        self.r
    }

    /// Whether every slot is live.
    pub closed spec fn is_full(&self) -> bool {
        self.full
    }

    /// How many slots are live.
    closed spec fn occupancy(&self) -> nat {
        if self.full {
            self.size as nat
        } else if self.r <= self.w {
            (self.w - self.r) as nat
        } else {
            (self.size - self.r + self.w) as nat
        }
    }

    /// The slot `k` steps forward from the read cursor, for `0 <= k <= size`.
    closed spec fn slot_of(&self, k: int) -> int {
        if self.r + k < self.size {
            self.r + k
        } else {
            self.r + k - self.size
        }
    }

    /// The cursors and the storage agree: exactly the live region holds values.
    pub closed spec fn wf(&self) -> bool {
        &&& self.size >= 1
        &&& self.slots@.len() == self.size
        &&& self.w < self.size
        &&& self.r < self.size
        &&& self.full ==> self.r == self.w
        &&& forall|k: int|
            0 <= k < self.size ==> (#[trigger] self.slots@[self.slot_of(k)]).is_some() == (k
                < self.occupancy())
    }

    /// The write cursor is where the live region ends.
    proof fn lemma_write_cursor(&self)
        requires
            self.wf(),
        ensures
            self.occupancy() <= self.size,
            self.w == self.slot_of(self.occupancy() as int),
            self.view().len() == self.occupancy(),
            self.full <==> self.occupancy() == self.size,
            self.occupancy() == 0 <==> (self.r == self.w && !self.full),
            self.occupancy() == (if self.full {
                self.size as int
            } else {
                (self.w + self.size - self.r) % (self.size as int)
            }),
    {
        lemma_wrap(self.w + self.size - self.r, self.size as int);
    }

    /// Stepping `k` slots forward from the read cursor wraps modulo the capacity.
    proof fn lemma_slot_mod(&self, k: int)
        requires
            self.r < self.size,
            0 <= k <= self.size,
        ensures
            self.slot_of(k) == (self.r + k) % (self.size as int),
    {
        lemma_wrap(self.r + k, self.size as int);
    }

    /// Creates an empty buffer with room for `size` values.
    ///
    /// A capacity of zero is not a buffer: the cursors could not wrap. Nor is
    /// one whose storage would take more than `isize::MAX` bytes.
    pub fn new(size: usize) -> (b: Self)
        requires
            size >= 1,
            size * size_of::<Option<T>>() <= isize::MAX,
        ensures
            b.wf(),
            b@ == Seq::<T>::empty(),
            b.capacity() == size,
            b.write_cursor() == 0,
            b.read_cursor() == 0,
            !b.is_full(),
    {
        let mut slots: Vec<Option<T>> = Vec::with_capacity(size);
        let mut i: usize = 0;
        while i < size
            invariant
                i <= size,
                slots@.len() == i,
                forall|j: int| 0 <= j < i ==> (#[trigger] slots@[j]).is_none(),
            decreases size - i,
        {
            slots.push(None);
            i += 1;
        }
        let b = CircularBuffer { slots, w: 0, r: 0, size, full: false };
        assert(b@ =~= Seq::<T>::empty());
        b
    }

    /// The number of live values, in constant time.
    pub fn len(&self) -> (n: usize)
        requires
            self.wf(),
        ensures
            n == self@.len(),
            n <= self.capacity(),
            self.is_full() <==> n == self.capacity(),
            n == 0 <==> (self.read_cursor() == self.write_cursor() && !self.is_full()),
            n == (if self.is_full() {
                self.capacity() as int
            } else {
                (self.write_cursor() + self.capacity() - self.read_cursor()) % (
                self.capacity() as int)
            }),
    {
        proof {
            self.lemma_write_cursor();
        }
        if self.full {
            return self.size;
        }
        if self.w > self.r {
            self.w - self.r
        } else if self.w == self.r {
            0
        } else {
            self.size - self.r + self.w
        }
    }

    /// The index after `i`, wrapping to zero at the end of the storage.
    fn next_inc(&self, i: usize) -> (n: usize)
        requires
            i < self.size,
        ensures
            n == (if i + 1 < self.size { i + 1 } else { 0 }),
    {
        if i + 1 < self.size {
            i + 1
        } else {
            0
        }
    }

    fn w_inc(&mut self)
        requires
            old(self).w < old(self).size,
        ensures
            final(self).w == (if old(self).w + 1 < old(self).size { old(self).w + 1 } else { 0 }),
            final(self).r == old(self).r,
            final(self).size == old(self).size,
            final(self).full == old(self).full,
            final(self).slots == old(self).slots,
    {
        self.w = self.next_inc(self.w);
    }

    fn r_inc(&mut self)
        requires
            old(self).r < old(self).size,
        ensures
            final(self).r == (if old(self).r + 1 < old(self).size { old(self).r + 1 } else { 0 }),
            final(self).w == old(self).w,
            final(self).size == old(self).size,
            final(self).full == old(self).full,
            final(self).slots == old(self).slots,
    {
        self.r = self.next_inc(self.r);
    }

    /// Moves the read cursor `n` slots forward, wrapping around.
    fn r_inc_of(&mut self, n: usize)
        requires
            old(self).r < old(self).size,
            n <= old(self).size,
        ensures
            final(self).r == old(self).slot_of(n as int),
            final(self).w == old(self).w,
            final(self).size == old(self).size,
            final(self).full == old(self).full,
            final(self).slots == old(self).slots,
    {
        if n < self.size - self.r {
            self.r = self.r + n;
        } else {
            self.r = n - (self.size - self.r);
        }
    }

    /// Stores `value` at the write cursor and advances it.
    fn write(&mut self, value: T)
        requires
            old(self).w < old(self).size,
            old(self).slots@.len() == old(self).size,
        ensures
            final(self).slots@ == old(self).slots@.update(old(self).w as int, Some(value)),
            final(self).w == (if old(self).w + 1 < old(self).size { old(self).w + 1 } else { 0 }),
            final(self).r == old(self).r,
            final(self).size == old(self).size,
            final(self).full == old(self).full,
    {
        let w_index = self.w;
        self.w_inc();
        self.slots[w_index] = Some(value);
    }

    /// Moves the value out of the slot at the read cursor and advances it.
    fn read(&mut self) -> (v: T)
        requires
            old(self).r < old(self).size,
            old(self).slots@.len() == old(self).size,
            old(self).slots@[old(self).r as int].is_some(),
        ensures
            v == old(self).slots@[old(self).r as int]->Some_0,
            final(self).slots@ == old(self).slots@.update(old(self).r as int, None),
            final(self).r == (if old(self).r + 1 < old(self).size { old(self).r + 1 } else { 0 }),
            final(self).w == old(self).w,
            final(self).size == old(self).size,
            final(self).full == old(self).full,
    {
        let r_index = self.r;
        self.r_inc();
        let taken = self.slots[r_index].take();
        taken.unwrap()
    }

    /// Drops the value in the slot at the write cursor.
    fn discard_oldest(&mut self)
        requires
            old(self).w < old(self).size,
            old(self).slots@.len() == old(self).size,
        ensures
            final(self).slots@ == old(self).slots@.update(old(self).w as int, None),
            final(self).w == old(self).w,
            final(self).r == old(self).r,
            final(self).size == old(self).size,
            final(self).full == old(self).full,
    {
        let w_index = self.w;
        self.slots[w_index] = None;
    }

    /// Appends `value`, first dropping the oldest value when the buffer is full.
    ///
    /// Never refuses a value. Returns the number of free slots left, zero once
    /// the buffer is full.
    pub fn push(&mut self, value: T) -> (remaining: usize)
        requires
            old(self).wf(),
        ensures
            final(self).wf(),
            final(self).capacity() == old(self).capacity(),
            final(self)@ == pushed(old(self)@, old(self).capacity(), value),
            final(self)@.len() <= final(self).capacity(),
            remaining == final(self).capacity() - final(self)@.len(),
            final(self).write_cursor() == (old(self).write_cursor() + 1) % (old(
                self,
            ).capacity() as int),
            final(self).read_cursor() == (if old(self).is_full() {
                (old(self).read_cursor() + 1) % (old(self).capacity() as int)
            } else {
                old(self).read_cursor() as int
            }),
            final(self).is_full() == (final(self)@.len() == final(self).capacity()),
    {
        proof {
            self.lemma_write_cursor();
            lemma_wrap(self.w + 1, self.size as int);
            lemma_wrap(self.r + 1, self.size as int);
        }
        let ghost pre = *self;
        if self.full {
            self.discard_oldest();
            self.r_inc();
        }
        self.write(value);
        if self.w == self.r {
            self.full = true;
            proof {
                assert forall|k: int| 0 <= k < self.size implies (
                #[trigger] self.slots@[self.slot_of(k)]).is_some() == (k < self.occupancy()) by {
                    let j = if k + 1 < self.size { k + 1 } else { k + 1 - self.size };
                    if pre.full {
                        assert(self.slot_of(k) == pre.slot_of(j));
                        assert(pre.slots@[pre.slot_of(j)].is_some());
                    } else {
                        assert(pre.occupancy() + 1 == self.size);
                        if k + 1 < self.size {
                            assert(self.slot_of(k) == pre.slot_of(k));
                            assert(pre.slots@[pre.slot_of(k)].is_some());
                        }
                    }
                }
            }
            assert(self@ =~= pushed(pre@, pre.capacity(), value)) by {
                if pre.full {
                    assert forall|k: int| 0 <= k < self.size - 1 implies self.slot_of(k)
                        == pre.slot_of(k + 1) by {}
                }
            }
            proof {
                self.lemma_write_cursor();
            }
            0
        } else {
            proof {
                assert(self.occupancy() == pre.occupancy() + 1);
                assert forall|k: int| 0 <= k < self.size implies (
                #[trigger] self.slots@[self.slot_of(k)]).is_some() == (k < self.occupancy()) by {
                    assert(self.slot_of(k) == pre.slot_of(k));
                    assert(pre.slots@[pre.slot_of(k)].is_some() == (k < pre.occupancy()));
                }
            }
            assert(self@ =~= pushed(pre@, pre.capacity(), value));
            proof {
                self.lemma_write_cursor();
            }
            self.size - self.len()
        }
    }

    /// Removes and returns the oldest value, or `None` when the buffer is empty.
    pub fn next(&mut self) -> (v: Option<T>)
        requires
            old(self).wf(),
        ensures
            final(self).wf(),
            final(self).capacity() == old(self).capacity(),
            final(self).write_cursor() == old(self).write_cursor(),
            old(self)@.len() == 0 ==> {
                &&& v is None
                &&& final(self)@ == old(self)@
                &&& final(self).read_cursor() == old(self).read_cursor()
                &&& final(self).is_full() == old(self).is_full()
            },
            old(self)@.len() > 0 ==> {
                &&& v == Some(old(self)@[0])
                &&& final(self)@ == old(self)@.skip(1)
                &&& final(self).read_cursor() == (old(self).read_cursor() + 1) % (old(
                    self,
                ).capacity() as int)
                &&& !final(self).is_full()
            },
    {
        proof {
            self.lemma_write_cursor();
        }
        let ghost pre = *self;
        match self.len() {
            0 => None,
            _ => {
                self.full = false;
                proof {
                    assert(pre.slots@[pre.slot_of(0)].is_some());
                }
                let v = self.read();
                proof {
                    assert(self.occupancy() + 1 == pre.occupancy());
                    assert forall|k: int| 0 <= k < self.size implies (
                    #[trigger] self.slots@[self.slot_of(k)]).is_some() == (k < self.occupancy()) by {
                        if k + 1 < self.size {
                            assert(self.slot_of(k) == pre.slot_of(k + 1));
                            assert(pre.slots@[pre.slot_of(k + 1)].is_some() == (k + 1
                                < pre.occupancy()));
                        } else {
                            assert(self.slot_of(k) == pre.r);
                        }
                    }
                    assert forall|k: int| 0 <= k < self.occupancy() implies self.slot_of(k)
                        == pre.slot_of(k + 1) by {}
                    assert(self@ =~= pre@.skip(1));
                    lemma_wrap(pre.r + 1, pre.size as int);
                }
                Some(v)
            },
        }
    }

    /// The exact number of values left, as lower and upper bound.
    pub fn size_hint(&self) -> (h: (usize, Option<usize>))
        requires
            self.wf(),
        ensures
            h.0 == self@.len(),
            h.1 == Some(self@.len() as usize),
    {
        (self.len(), Some(self.len()))
    }

    /// Moves the oldest values, one at a time, to the end of `sink`, until
    /// `room` values have moved or the buffer is empty. Returns how many moved.
    pub fn fill_with_room(&mut self, sink: &mut Vec<T>, room: usize) -> (moved: usize)
        requires
            old(self).wf(),
        ensures
            final(self).wf(),
            final(self).capacity() == old(self).capacity(),
            moved == moved_count(old(self)@.len(), room as nat),
            final(sink)@ == old(sink)@ + old(self)@.take(moved as int),
            final(self)@ == old(self)@.skip(moved as int),
            final(self).write_cursor() == old(self).write_cursor(),
            final(self).read_cursor() == (old(self).read_cursor() + moved) % (old(
                self,
            ).capacity() as int),
            moved > 0 ==> !final(self).is_full(),
            moved == 0 ==> final(self).is_full() == old(self).is_full(),
    {
        let ghost pre = *self;
        let ghost pre_sink = *sink;
        let mut i: usize = 0;
        let mut exhausted = false;
        while !exhausted && i < room
            invariant
                self.wf(),
                self.capacity() == pre.capacity(),
                i <= room,
                i <= pre@.len(),
                exhausted ==> i == pre@.len(),
                sink@ == pre_sink@ + pre@.take(i as int),
                self@ == pre@.skip(i as int),
                pre.wf(),
                self.w == pre.w,
                self.r == pre.slot_of(i as int),
                i > 0 ==> !self.full,
                i == 0 ==> self.full == pre.full,
            decreases (room - i) as int + (if exhausted { 0int } else { 1int }),
        {
            let ghost r0 = self.r;
            match self.next() {
                Some(element) => {
                    sink.push(element);
                    i += 1;
                    proof {
                        lemma_wrap(r0 + 1, pre.size as int);
                        assert(sink@ =~= pre_sink@ + pre@.take(i as int));
                        assert(self@ =~= pre@.skip(i as int));
                    }
                },
                None => {
                    exhausted = true;
                },
            }
        }
        proof {
            pre.lemma_slot_mod(i as int);
        }
        i
    }

    /// Moves the oldest values to the end of `sink`, as many as its spare
    /// capacity takes, without ever growing it. Returns how many moved.
    ///
    /// The moved values are the oldest ones, in order; the newest stay.
    pub fn fill(&mut self, sink: &mut Vec<T>) -> (moved: usize)
        requires
            old(self).wf(),
        ensures
            final(self).wf(),
            final(self).capacity() == old(self).capacity(),
            moved <= old(self)@.len(),
            final(sink)@ == old(sink)@ + old(self)@.take(moved as int),
            final(self)@ == old(self)@.skip(moved as int),
            final(self).write_cursor() == old(self).write_cursor(),
            final(self).read_cursor() == (old(self).read_cursor() + moved) % (old(
                self,
            ).capacity() as int),
            moved > 0 ==> !final(self).is_full(),
            moved == 0 ==> final(self).is_full() == old(self).is_full(),
    {
        let room = vec_capacity(sink) - sink.len();
        self.fill_with_room(sink, room)
    }

    /// The live region as at most two contiguous ranges of slots, in order.
    fn split_in_ranges(&self) -> (ranges: (Range<usize>, Option<Range<usize>>))
        requires
            self.wf(),
        ensures
            ranges.0.start == self.r,
            self.r < self.w ==> ranges.0.end == self.w && ranges.1 is None,
            self.r == self.w && self.full ==> ranges.0.end == self.size && ranges.1 == Some(
                0..self.w,
            ),
            self.r == self.w && !self.full ==> ranges.0.end == self.r && ranges.1 is None,
            self.r > self.w ==> ranges.0.end == self.size && ranges.1 == Some(0..self.w),
            ranges.0.start <= ranges.0.end <= self.size,
            ranges.1 is None ==> ranges.0.end - ranges.0.start == self@.len(),
            ranges.1 is Some ==> ranges.0.end == self.size && ranges.1->Some_0.start == 0
                && ranges.1->Some_0.end == self.w && ranges.0.end - ranges.0.start
                + self.w == self@.len(),
    {
        if self.r < self.w {
            (self.r..self.w, None)
        } else if self.r == self.w {
            if self.full {
                (self.r..self.size, Some(0..self.w))
            } else {
                (self.r..self.r, None)
            }
        } else {
            (self.r..self.size, Some(0..self.w))
        }
    }

    /// Moves the values of `range`, a run of live slots that starts at the
    /// read cursor, to the end of `vec`, at most `room` of them.
    fn fill_vector_from_split(&mut self, range: Range<usize>, vec: &mut Vec<T>, room: usize) -> (moved:
        usize)
        requires
            old(self).wf(),
            range.start == old(self).r,
            range.start <= range.end <= old(self).size,
            range.end - range.start <= old(self)@.len(),
        ensures
            final(self).wf(),
            final(self).capacity() == old(self).capacity(),
            moved == moved_count((range.end - range.start) as nat, room as nat),
            final(self).r == old(self).slot_of(moved as int),
            final(self).w == old(self).w,
            moved > 0 ==> !final(self).full,
            moved == 0 ==> final(self).full == old(self).full,
            final(vec)@ == old(vec)@ + old(self)@.take(moved as int),
            final(self)@ == old(self)@.skip(moved as int),
    {
        proof {
            self.lemma_write_cursor();
        }
        let ghost pre = *self;
        let ghost pre_vec = *vec;
        if room == 0 {
            assert(vec@ =~= pre_vec@ + pre@.take(0));
            assert(self@ =~= pre@.skip(0));
            return 0;
        }
        if range.end - range.start == 0 {
            assert(vec@ =~= pre_vec@ + pre@.take(0));
            assert(self@ =~= pre@.skip(0));
            return 0;
        }
        let n = if range.end - range.start <= room {
            range.end - range.start
        } else {
            room
        };
        let mut j: usize = 0;
        while j < n
            invariant
                j <= n,
                n <= range.end - range.start,
                range.start == pre.r,
                range.end <= pre.size,
                n <= pre@.len(),
                pre.wf(),
                self.r == pre.r,
                self.w == pre.w,
                self.size == pre.size,
                self.full == pre.full,
                self.slots@.len() == pre.slots@.len(),
                forall|i: int|
                    0 <= i < pre.size ==> #[trigger] self.slots@[i] == if range.start <= i
                        < range.start + j {
                        None
                    } else {
                        pre.slots@[i]
                    },
                vec@ == pre_vec@ + pre@.take(j as int),
            decreases n - j,
        {
            proof {
                assert(pre.slot_of(j as int) == range.start + j);
                assert(pre.slots@[pre.slot_of(j as int)].is_some());
            }
            let taken = self.slots[range.start + j].take();
            vec.push(taken.unwrap());
            j += 1;
            proof {
                assert(vec@ =~= pre_vec@ + pre@.take(j as int));
            }
        }
        self.r_inc_of(n);
        self.full = false;
        proof {
            assert(self.occupancy() + n == pre.occupancy());
            assert forall|k: int| 0 <= k < self.size implies (
            #[trigger] self.slots@[self.slot_of(k)]).is_some() == (k < self.occupancy()) by {
                if k + n < self.size {
                    assert(self.slot_of(k) == pre.slot_of(k + n));
                    assert(pre.slots@[pre.slot_of(k + n)].is_some() == (k + n < pre.occupancy()));
                } else {
                    assert(self.slot_of(k) == pre.slot_of(k + n - self.size));
                }
            }
            assert forall|k: int| 0 <= k < self.occupancy() implies self.slot_of(k) == pre.slot_of(
                k + n,
            ) by {}
            assert(self@ =~= pre@.skip(n as int));
        }
        n
    }

    /// Moves the oldest values to the end of `sink`, at most `room` of them,
    /// copying whole runs of slots. Returns how many moved.
    ///
    /// Has the same outcome as `fill_with_room` on the same buffer and sink.
    pub fn fast_fill_with_room(&mut self, sink: &mut Vec<T>, room: usize) -> (moved: usize)
        requires
            old(self).wf(),
        ensures
            final(self).wf(),
            final(self).capacity() == old(self).capacity(),
            moved == moved_count(old(self)@.len(), room as nat),
            final(sink)@ == old(sink)@ + old(self)@.take(moved as int),
            final(self)@ == old(self)@.skip(moved as int),
            final(self).write_cursor() == old(self).write_cursor(),
            final(self).read_cursor() == (old(self).read_cursor() + moved) % (old(
                self,
            ).capacity() as int),
            moved > 0 ==> !final(self).is_full(),
            moved == 0 ==> final(self).is_full() == old(self).is_full(),
    {
        let ghost pre = *self;
        let ghost pre_sink = *sink;
        proof {
            self.lemma_slot_mod(0);
        }
        if self.len() == 0 {
            assert(sink@ =~= pre_sink@ + pre@.take(0));
            assert(self@ =~= pre@.skip(0));
            return 0;
        }
        if room == 0 {
            assert(sink@ =~= pre_sink@ + pre@.take(0));
            assert(self@ =~= pre@.skip(0));
            return 0;
        }
        let mut total_pushed: usize = 0;
        let (r1, r2) = self.split_in_ranges();
        total_pushed += self.fill_vector_from_split(r1, sink, room);
        proof {
            pre.lemma_slot_mod(total_pushed as int);
        }
        if total_pushed == room {
            return total_pushed;
        }
        let ghost mid = *self;
        let ghost mid_sink = *sink;
        if let Some(r2) = r2 {
            proof {
                mid.lemma_write_cursor();
            }
            let more = self.fill_vector_from_split(r2, sink, room - total_pushed);
            proof {
                assert(pre@.take(total_pushed as int) + mid@.take(more as int) =~= pre@.take(
                    total_pushed + more,
                ));
                assert(mid@.skip(more as int) =~= pre@.skip(total_pushed + more));
            }
            total_pushed += more;
        }
        proof {
            pre.lemma_slot_mod(total_pushed as int);
        }
        total_pushed
    }

    /// Moves the oldest values to the end of `sink`, as many as its spare
    /// capacity takes, copying whole runs of slots. Returns how many moved.
    ///
    /// Has the same outcome as `fill` on the same buffer and sink.
    pub fn _fast_fill(&mut self, sink: &mut Vec<T>) -> (moved: usize)
        requires
            old(self).wf(),
        ensures
            final(self).wf(),
            final(self).capacity() == old(self).capacity(),
            moved <= old(self)@.len(),
            final(sink)@ == old(sink)@ + old(self)@.take(moved as int),
            final(self)@ == old(self)@.skip(moved as int),
            final(self).write_cursor() == old(self).write_cursor(),
            final(self).read_cursor() == (old(self).read_cursor() + moved) % (old(
                self,
            ).capacity() as int),
            moved > 0 ==> !final(self).is_full(),
            moved == 0 ==> final(self).is_full() == old(self).is_full(),
    {
        let room = vec_capacity(sink) - sink.len();
        self.fast_fill_with_room(sink, room)
    }

    /// Takes every value out, oldest first.
    pub fn collect(self) -> (values: Vec<T>)
        requires
            self.wf(),
        ensures
            values@ == self@,
    {
        let mut b = self;
        let n = b.len();
        let mut values: Vec<T> = Vec::with_capacity(n);
        b.fill_with_room(&mut values, n);
        assert(values@ =~= self@);
        values
    }

    /// Shows the live values, oldest first, as `CircularBuffer(1, 2, 3)`, or
    /// `CircularBuffer(<empty>)`. Leaves the buffer as it is.
    pub fn display_string(&self) -> (text: String) where T: std::fmt::Display
        requires
            self.wf(),
        ensures
            exists|texts: Seq<String>|
                {
                    &&& texts.len() == self@.len()
                    &&& forall|k: int|
                        0 <= k < texts.len() ==> to_string_from_display_ensures::<T>(
                            &self@[k],
                            #[trigger] texts[k],
                        )
                    &&& text@ == rendered(texts.map_values(|t: String| t@))
                },
    {
        proof {
            self.lemma_write_cursor();
        }
        let n = self.len();
        if n == 0 {
            let text = String::from_str("CircularBuffer(<empty>)");
            assert(Seq::<String>::empty().map_values(|t: String| t@) =~= Seq::empty());
            return text;
        }
        let mut text = String::from_str("CircularBuffer(");
        let ghost mut texts: Seq<String> = Seq::empty();
        let mut k: usize = 0;
        let mut idx: usize = self.r;
        while k < n
            invariant
                self.wf(),
                n == self@.len(),
                k <= n,
                idx == self.slot_of(k as int),
                texts.len() == k,
                forall|j: int|
                    0 <= j < k ==> to_string_from_display_ensures::<T>(
                        &self@[j],
                        #[trigger] texts[j],
                    ),
                text@ == "CircularBuffer("@ + joined(texts.map_values(|t: String| t@)),
            decreases n - k,
        {
            proof {
                assert(self.slots@[self.slot_of(k as int)].is_some());
            }
            let shown = match &self.slots[idx] {
                Some(v) => v.to_string(),
                None => String::new(),
            };
            if k > 0 {
                text.append(", ");
            }
            text.append(shown.as_str());
            proof {
                let before = texts.map_values(|t: String| t@);
                texts = texts.push(shown);
                let after = texts.map_values(|t: String| t@);
                assert(after.drop_last() =~= before);
                if k == 0 {
                    assert(before =~= Seq::<Seq<char>>::empty());
                }
            }
            idx = self.next_inc(idx);
            k += 1;
        }
        text.append(")");
        text
    }

    /// Shows the live values, oldest first, in their debug form, followed by
    /// the cursors, the capacity and the full flag, or `CircularBuffer(<empty>)`.
    /// Leaves the buffer as it is.
    pub fn debug_string(&self) -> (text: String) where T: std::fmt::Debug
        requires
            self.wf(),
        ensures
            self@.len() == 0 ==> text@ == "CircularBuffer(<empty>)"@,
            self@.len() > 0 ==> exists|items: Seq<String>, w: String, r: String, n: String|
                #![trigger items.len(), to_string_from_display_ensures::<usize>(&self.write_cursor(), w), to_string_from_display_ensures::<usize>(&self.read_cursor(), r), to_string_from_display_ensures::<usize>(&(self.capacity() as usize), n)]
                {
                    &&& items.len() == self@.len()
                    &&& to_string_from_display_ensures::<usize>(&self.write_cursor(), w)
                    &&& to_string_from_display_ensures::<usize>(&self.read_cursor(), r)
                    &&& to_string_from_display_ensures::<usize>(&(self.capacity() as usize), n)
                    &&& text@ == rendered_debug(
                        items.map_values(|t: String| t@),
                        w@,
                        r@,
                        n@,
                        if self.is_full() {
                            "true"@
                        } else {
                            "false"@
                        },
                    )
                },
    {
        proof {
            self.lemma_write_cursor();
        }
        let n = self.len();
        if n == 0 {
            return String::from_str("CircularBuffer(<empty>)");
        }
        let mut text = String::from_str("CircularBuffer(");
        let ghost mut items: Seq<String> = Seq::empty();
        let mut k: usize = 0;
        let mut idx: usize = self.r;
        while k < n
            invariant
                self.wf(),
                n == self@.len(),
                k <= n,
                idx == self.slot_of(k as int),
                items.len() == k,
                text@ == "CircularBuffer("@ + joined(items.map_values(|t: String| t@)),
            decreases n - k,
        {
            let shown = match &self.slots[idx] {
                Some(v) => debug_text(v),
                None => String::new(),
            };
            if k > 0 {
                text.append(", ");
            }
            text.append(shown.as_str());
            proof {
                let before = items.map_values(|t: String| t@);
                items = items.push(shown);
                let after = items.map_values(|t: String| t@);
                assert(after.drop_last() =~= before);
                if k == 0 {
                    assert(before =~= Seq::<Seq<char>>::empty());
                }
            }
            idx = self.next_inc(idx);
            k += 1;
        }
        let w_text = self.w.to_string();
        let r_text = self.r.to_string();
        let size_text = self.size.to_string();
        text.append(") w: ");
        text.append(w_text.as_str());
        text.append(", r: ");
        text.append(r_text.as_str());
        text.append(", size: ");
        text.append(size_text.as_str());
        text.append(", full: ");
        if self.full {
            text.append("true");
        } else {
            text.append("false");
        }
        proof {
            assert(to_string_from_display_ensures::<usize>(&self.write_cursor(), w_text));
            assert(to_string_from_display_ensures::<usize>(&self.read_cursor(), r_text));
            assert(to_string_from_display_ensures::<usize>(&(self.capacity() as usize), size_text));
            assert(items.len() == self@.len());
            assert(text@ == rendered_debug(
                items.map_values(|t: String| t@),
                w_text@,
                r_text@,
                size_text@,
                if self.is_full() {
                    "true"@
                } else {
                    "false"@
                },
            ));
        }
        text
    }
}

impl<T: Clone> Clone for CircularBuffer<T> {
    /// A separate buffer of the same capacity and cursors, holding a copy of
    /// each live value. The slots that hold no value stay empty in the copy,
    /// and the source keeps its own values.
    fn clone(&self) -> (c: Self)
        ensures
            c.capacity() == self.capacity(),
            c.write_cursor() == self.write_cursor(),
            c.read_cursor() == self.read_cursor(),
            c.is_full() == self.is_full(),
            self.wf() ==> {
                &&& c.wf()
                &&& clones_of(self@, c@)
            },
    {
        let mut slots: Vec<Option<T>> = Vec::with_capacity(self.slots.len());
        let mut i: usize = 0;
        while i < self.slots.len()
            invariant
                i <= self.slots@.len(),
                slots@.len() == i,
                forall|j: int|
                    0 <= j < i ==> (#[trigger] slots@[j]).is_some() == self.slots@[j].is_some(),
                forall|j: int|
                    0 <= j < i && slots@[j].is_some() ==> cloned(
                        self.slots@[j]->Some_0,
                        #[trigger] slots@[j]->Some_0,
                    ),
            decreases self.slots@.len() - i,
        {
            let copy = match &self.slots[i] {
                Some(v) => Some(v.clone()),
                None => None,
            };
            slots.push(copy);
            i += 1;
        }
        let c = CircularBuffer { slots, w: self.w, r: self.r, size: self.size, full: self.full };
        proof {
            if self.wf() {
                assert forall|k: int| 0 <= k < c.size implies (
                #[trigger] c.slots@[c.slot_of(k)]).is_some() == (k < c.occupancy()) by {
                    assert(c.slot_of(k) == self.slot_of(k));
                    assert(self.slots@[self.slot_of(k)].is_some() == (k < self.occupancy()));
                }
                assert forall|k: int| 0 <= k < self@.len() implies cloned(
                    self@[k],
                    #[trigger] c@[k],
                ) by {
                    assert(c.slot_of(k) == self.slot_of(k));
                    assert(self.slots@[self.slot_of(k)].is_some());
                }
            }
        }
        c
    }
}

/// Relies on `Vec::capacity`: a vector can hold at least the values it holds
/// without reallocating.
#[verifier::external_body]
fn vec_capacity<T>(v: &Vec<T>) -> (c: usize)
    ensures
        c >= v@.len(),
{
    v.capacity()
}

/// Relies on std's `Debug` formatting (`format!("{:?}", v)`) for the text of
/// one value; nothing is assumed of that text.
#[verifier::external_body]
fn debug_text<T: std::fmt::Debug>(v: &T) -> String {
    format!("{:?}", v)
}

} // verus!
