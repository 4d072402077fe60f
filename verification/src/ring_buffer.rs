//! A fixed-capacity circular buffer.
//!
//! Values can be pushed indefinitely: once the buffer is full, every push
//! overwrites the oldest stored value.

use vstd::prelude::*;

verus! {

/// Position in a buffer of `capacity` slots that lies `i` steps after `head`,
/// wrapping around the end. Meant for `head < capacity` and `i <= capacity`.
pub open spec fn wrap_index(head: int, i: int, capacity: int) -> int {
    if head + i < capacity {
        head + i
    } else {
        head + i - capacity
    }
}

/// The contents after pushing `value` onto contents `s` in a buffer of the given capacity:
/// appended at the end, dropping the oldest value when the buffer is already full.
pub open spec fn pushed<T>(s: Seq<T>, capacity: nat, value: T) -> Seq<T> {
    if s.len() < capacity {
        s.push(value)
    } else {
        s.drop_first().push(value)
    }
}

/// The contents after pushing every value of `xs`, first to last, onto contents `s`.
pub open spec fn pushed_all<T>(s: Seq<T>, capacity: nat, xs: Seq<T>) -> Seq<T>
    decreases xs.len(),
{
    if xs.len() == 0 {
        s
    } else {
        pushed(pushed_all(s, capacity, xs.drop_last()), capacity, xs.last())
    }
}

/// A push onto a buffer with room left appends the value, and a pop right after it
/// gives the value back and leaves the earlier contents; on a full buffer the
/// pop gives the value back and leaves the earlier contents without their oldest value.
pub proof fn lemma_push_then_pop<T>(s: Seq<T>, capacity: nat, value: T)
    requires
        0 < capacity,
        s.len() <= capacity,
    ensures
        pushed(s, capacity, value).len() > 0,
        pushed(s, capacity, value).last() == value,
        s.len() < capacity ==> pushed(s, capacity, value).drop_last() == s,
        s.len() == capacity ==> pushed(s, capacity, value).drop_last() == s.drop_first(),
{
    assert(s.push(value).drop_last() =~= s);
    if s.len() > 0 {
        assert(s.drop_first().push(value).drop_last() =~= s.drop_first());
    }
}

/// A buffer never holds more values than its capacity: after a push it holds one
/// more value than before, up to the capacity.
pub proof fn lemma_pushed_len<T>(s: Seq<T>, capacity: nat, value: T)
    requires
        0 < capacity,
        s.len() <= capacity,
    ensures
        pushed(s, capacity, value).len() == if s.len() < capacity {
            s.len() + 1
        } else {
            capacity
        },
{
}

/// Values can be pushed indefinitely: after pushing the values `xs`, the buffer
/// holds the newest `capacity` values of its old contents followed by `xs`,
/// in order; the earliest values are the ones overwritten.
pub proof fn lemma_pushed_all_keeps_newest<T>(s: Seq<T>, capacity: nat, xs: Seq<T>)
    requires
        0 < capacity,
        s.len() <= capacity,
    ensures
        pushed_all(s, capacity, xs) == (s + xs).skip(
            if s.len() + xs.len() > capacity {
                s.len() + xs.len() - capacity
            } else {
                0
            },
        ),
    decreases xs.len(),
{
    if xs.len() > 0 {
        let ys = xs.drop_last();
        lemma_pushed_all_keeps_newest(s, capacity, ys);
        let k = if s.len() + ys.len() > capacity {
            s.len() + ys.len() - capacity
        } else {
            0
        };
        assert(s + xs =~= (s + ys).push(xs.last()));
        let p = pushed_all(s, capacity, ys);
        if p.len() < capacity {
            assert((s + xs).skip(0) =~= (s + ys).skip(k).push(xs.last()));
        } else {
            assert((s + xs).skip(k + 1) =~= (s + ys).skip(k).drop_first().push(xs.last()));
        }
    }
}

/// A fixed-size, circular data structure holding at most `capacity` values,
/// oldest first.
pub struct RingBuffer<T> {
    /// The number of elements the buffer can hold
    capacity: usize,
    /// The current number of elements stored in the buffer
    length: usize,
    /// The current start of the buffer
    head: usize,
    /// The current end of the buffer (the slot that the next push writes)
    tail: usize,
    /// The storage slots; a slot is `None` until a value is written to it
    buf: Vec<Option<T>>,
}

impl<T> View for RingBuffer<T> {
    type V = Seq<T>;

    /// The stored values, oldest first.
    closed spec fn view(&self) -> Seq<T> {
        Seq::new(
            self.length as nat,
            |i: int| self.buf@[wrap_index(self.head as int, i, self.capacity as int)]->0,
        )
    }
}

impl<T> RingBuffer<T> {
    /// The number of values the buffer can hold.
    pub closed spec fn capacity(&self) -> nat {
        self.capacity as nat
    }

    /// Internal consistency of the buffer: the slot vector matches the capacity,
    /// `head` and `tail` are slots, `tail` lies `length` slots after `head`, every
    /// stored value occupies a filled slot, and every other slot is empty.
    pub closed spec fn well_formed(&self) -> bool {
        &&& self.buf@.len() == self.capacity
        &&& self.length <= self.capacity
        &&& self.capacity == 0 ==> self.head == 0 && self.tail == 0
        &&& self.capacity > 0 ==> {
            &&& self.head < self.capacity
            &&& self.tail < self.capacity
            &&& self.tail == wrap_index(self.head as int, self.length as int, self.capacity as int)
        }
        &&& forall|i: int|
            0 <= i < self.length ==> (#[trigger] self.buf@[wrap_index(
                self.head as int,
                i,
                self.capacity as int,
            )]) is Some
        &&& forall|i: int|
            self.length <= i < self.capacity ==> (#[trigger] self.buf@[wrap_index(
                self.head as int,
                i,
                self.capacity as int,
            )]) is None
    }

    /// A buffer never holds more values than its capacity.
    pub proof fn lemma_len_le_capacity(&self)
        requires
            self.well_formed(),
        ensures
            self@.len() <= self.capacity(),
    {
    }

    /// Creates an empty buffer that can hold `capacity` values.
    pub fn new(capacity: usize) -> (r: Self)
        ensures
            r.well_formed(),
            r.capacity() == capacity,
            r@ == Seq::<T>::empty(),
    {
        let mut buf: Vec<Option<T>> = Vec::with_capacity(capacity);
        let mut k: usize = 0;
        while k < capacity
            invariant
                k <= capacity,
                buf@.len() == k,
                forall|j: int| 0 <= j < k ==> #[trigger] buf@[j] is None,
            decreases capacity - k,
        {
            buf.push(None);
            k = k + 1;
        }
        let r = RingBuffer { capacity, length: 0, head: 0, tail: 0, buf };
        assert(r@ =~= Seq::<T>::empty());
        r
    }

    /// Converts the index into the internal representation to retrieve the correct data.
    /// An index equal to the length converts too: to the slot after the newest value.
    fn index_conv(&self, index: usize) -> (r: Option<usize>)
        requires
            self.well_formed(),
            self.capacity > 0 || index > self.length,
        ensures
            index <= self.length ==> r == Some(
                wrap_index(self.head as int, index as int, self.capacity as int) as usize,
            ),
            index > self.length ==> r is None,
    {
        if index > self.length {
            return None;
        }
        let out = if index < self.capacity - self.head {
            self.head + index
        } else {
            index - (self.capacity - self.head)
        };
        Some(out)
    }

    /// The value at position `index` (0 is the oldest), or `None` past the end. Position
    /// `len()` names the slot after the newest value: on a full buffer that slot holds
    /// the oldest value, which is returned; otherwise it is empty. On a buffer of no
    /// capacity only positions past the end may be asked for.
    pub fn get(&self, index: usize) -> (r: Option<&T>)
        requires
            self.well_formed(),
            self.capacity() > 0 || index > self@.len(),
        ensures
            r == (if index < self@.len() {
                Some(&self@[index as int])
            } else if index == self@.len() && self@.len() == self.capacity() {
                Some(&self@[0])
            } else {
                None
            }),
    {
        let slot = self.index_conv(index)?;
        proof {
            if index == self.length && self.length == self.capacity {
                assert(wrap_index(self.head as int, index as int, self.capacity as int)
                    == wrap_index(self.head as int, 0, self.capacity as int));
            }
        }
        self.buf[slot].as_ref()
    }

    /// The number of stored values.
    pub fn len(&self) -> (r: usize)
        requires
            self.well_formed(),
        ensures
            r == self@.len(),
    {
        self.length
    }

    /// Whether no value is stored.
    pub fn is_empty(&self) -> (r: bool)
        requires
            self.well_formed(),
        ensures
            r == (self@.len() == 0),
    {
        self.len() == 0
    }

    fn inc_head(&mut self)
        requires
            old(self).capacity > 0,
            old(self).head < old(self).capacity,
        ensures
            final(self).head == wrap_index(old(self).head as int, 1, old(self).capacity as int),
            final(self).capacity == old(self).capacity,
            final(self).length == old(self).length,
            final(self).tail == old(self).tail,
            final(self).buf == old(self).buf,
    {
        if self.head + 1 == self.capacity {
            self.head = 0;
        } else {
            self.head = self.head + 1;
        }
    }

    fn inc_tail(&mut self)
        requires
            old(self).capacity > 0,
            old(self).tail < old(self).capacity,
        ensures
            final(self).tail == wrap_index(old(self).tail as int, 1, old(self).capacity as int),
            final(self).capacity == old(self).capacity,
            final(self).length == old(self).length,
            final(self).head == old(self).head,
            final(self).buf == old(self).buf,
    {
        let tail = self.tail + 1;
        if tail >= self.capacity {
            self.tail = tail - self.capacity;
        } else {
            self.tail = tail;
        }
    }

    /// Pushes `value` as the newest value; when the buffer is full, the oldest
    /// value is overwritten.
    pub fn push(&mut self, value: T)
        requires
            old(self).well_formed(),
            old(self).capacity() > 0,
        ensures
            final(self).well_formed(),
            final(self).capacity() == old(self).capacity(),
            final(self)@ == pushed(old(self)@, old(self).capacity(), value),
    {
        let ghost old_view = self@;
        let tail = self.tail;
        self.buf.set(tail, Some(value));
        self.inc_tail();
        if self.length < self.capacity {
            self.length = self.length + 1;
        } else {
            self.inc_head();
        }
        assert forall|i: int| 0 <= i < self.length implies (#[trigger] self.buf@[wrap_index(
            self.head as int,
            i,
            self.capacity as int,
        )]) is Some by {
            if wrap_index(self.head as int, i, self.capacity as int) != tail as int {
                let j = if self.head == old(self).head { i } else { i + 1 };
                assert(self.buf@[wrap_index(self.head as int, i, self.capacity as int)]
                    == old(self).buf@[wrap_index(old(self).head as int, j, self.capacity as int)]);
            }
        }
        assert(self@ =~= pushed(old_view, self.capacity as nat, value));
    }

    fn dec_tail(&mut self)
        requires
            old(self).capacity > 0,
            old(self).tail < old(self).capacity,
        ensures
            final(self).tail == wrap_index(
                old(self).tail as int,
                old(self).capacity - 1,
                old(self).capacity as int,
            ),
            final(self).capacity == old(self).capacity,
            final(self).length == old(self).length,
            final(self).head == old(self).head,
            final(self).buf == old(self).buf,
    {
        if self.tail == 0 {
            self.tail = self.capacity - 1;
        } else {
            self.tail = self.tail - 1;
        }
    }

    /// Removes and returns the newest value, or `None` when the buffer is empty.
    pub fn pop(&mut self) -> (r: Option<T>)
        requires
            old(self).well_formed(),
        ensures
            final(self).well_formed(),
            final(self).capacity() == old(self).capacity(),
            old(self)@.len() == 0 ==> r is None && final(self)@ == old(self)@,
            old(self)@.len() > 0 ==> r == Some(old(self)@.last()) && final(self)@
                == old(self)@.drop_last(),
    {
        if self.length == 0 {
            return None;
        }
        let ghost old_view = self@;
        self.dec_tail();
        self.length = self.length - 1;
        let mut taken: Option<T> = None;
        let tail = self.tail;
        self.buf.set_and_swap(tail, &mut taken);
        assert forall|i: int| 0 <= i < self.length implies (#[trigger] self.buf@[wrap_index(
            self.head as int,
            i,
            self.capacity as int,
        )]) is Some by {
            assert(self.buf@[wrap_index(self.head as int, i, self.capacity as int)]
                == old(self).buf@[wrap_index(old(self).head as int, i, self.capacity as int)]);
        }
        assert(self@ =~= old_view.drop_last());
        taken
    }

    /// A mutable reference to the value at position `index` (0 is the oldest),
    /// or `None` past the end. As for [`RingBuffer::get`], position `len()` names the
    /// oldest value of a full buffer and nothing otherwise.
    pub fn get_mut(&mut self, index: usize) -> (r: Option<&mut T>)
        requires
            old(self).well_formed(),
            old(self).capacity() > 0 || index > old(self)@.len(),
        ensures
            final(self).well_formed(),
            final(self).capacity() == old(self).capacity(),
            index < old(self)@.len() ==> r is Some && *r->0 == old(self)@[index as int]
                && final(self)@ == old(self)@.update(index as int, *final(r->0)),
            index == old(self)@.len() == old(self).capacity() ==> r is Some && *r->0 == old(
                self,
            )@[0] && final(self)@ == old(self)@.update(0, *final(r->0)),
            index >= old(self)@.len() && !(index == old(self)@.len() == old(self).capacity())
                ==> r is None && final(self)@ == old(self)@,
    {
        let slot = match self.index_conv(index) {
            Some(slot) => slot,
            None => return None,
        };
        proof {
            if index == self.length && self.length == self.capacity {
                assert(wrap_index(self.head as int, index as int, self.capacity as int)
                    == wrap_index(self.head as int, 0, self.capacity as int));
            }
        }
        self.buf[slot].as_mut()
    }

    /// An iterator over the stored values, oldest first.
    pub fn iter<'a>(&'a self) -> (r: RingBufferFiniteIter<'a, T>)
        requires
            self.well_formed(),
        ensures
            r.valid(),
            r.remaining() == self@,
    {
        let r = RingBufferFiniteIter { buf: self, cur: 0 };
        assert(r.remaining() =~= self@);
        r
    }

    /// An iterator that hands out a mutable reference to each stored value, oldest first.
    pub fn iter_mut<'a>(&'a mut self) -> (r: RingBufferFiniteIterMut<'a, T>)
        requires
            old(self).well_formed(),
        ensures
            r.valid(),
            r.position() == 0,
            r.contents() == old(self)@,
            final(r.buf)@ == final(self)@,
    {
        RingBufferFiniteIterMut { buf: self, cur: 0 }
    }

    /// Consumes the buffer into an iterator that yields the stored values, oldest first.
    pub fn into_iter(self) -> (r: RingBufferFiniteIntoIter<T>)
        requires
            self.well_formed(),
        ensures
            r.valid(),
            r.remaining() == self@,
    {
        let r = RingBufferFiniteIntoIter { buf: self, cur: 0 };
        assert(r.remaining() =~= self@);
        r
    }
}

impl<T: Clone> Clone for RingBuffer<T> {
    /// A buffer of the same capacity holding a clone of each value, in the same order.
    fn clone(&self) -> (r: Self)
        ensures
            self.well_formed() ==> {
                &&& r.well_formed()
                &&& r.capacity() == self.capacity()
                &&& r@.len() == self@.len()
                &&& forall|i: int| 0 <= i < self@.len() ==> cloned::<T>(self@[i], r@[i])
            },
    {
        let r = RingBuffer {
            capacity: self.capacity,
            length: self.length,
            head: self.head,
            tail: self.tail,
            buf: self.buf.clone(),
        };
        proof {
            if self.well_formed() {
                assert forall|i: int| 0 <= i < r.length implies (#[trigger] r.buf@[wrap_index(
                    r.head as int,
                    i,
                    r.capacity as int,
                )]) is Some by {
                    let k = wrap_index(r.head as int, i, r.capacity as int);
                    assert(self.buf@[k] is Some);
                    assert(cloned::<Option<T>>(self.buf@[k], r.buf@[k]));
                }
                assert forall|i: int| 0 <= i < self@.len() implies cloned::<T>(self@[i], r@[i]) by {
                    let k = wrap_index(r.head as int, i, r.capacity as int);
                    assert(self.buf@[k] is Some);
                    assert(cloned::<Option<T>>(self.buf@[k], r.buf@[k]));
                }
            }
        }
        r
    }
}

impl<T> vstd::std_specs::core::IndexSpecImpl<usize> for RingBuffer<T> {
    /// Indexing needs a consistent buffer and a position below its length, or the
    /// position after the newest value of a full buffer (which holds the oldest).
    open spec fn index_req(&self, index: &usize) -> bool {
        &&& self.well_formed()
        &&& (*index < self@.len() || (0 < *index == self@.len() == self.capacity()))
    }
}

impl<T> std::ops::Index<usize> for RingBuffer<T> {
    type Output = T;

    /// The value at position `index` (0 is the oldest); position `len()` of a full
    /// buffer gives the oldest value.
    fn index(&self, index: usize) -> (r: &T)
        ensures
            *r == self@[if index < self@.len() {
                index as int
            } else {
                0
            }],
    {
        let slot = self.index_conv(index).unwrap();
        proof {
            if index == self.length {
                assert(wrap_index(self.head as int, index as int, self.capacity as int)
                    == wrap_index(self.head as int, 0, self.capacity as int));
            }
        }
        self.buf[slot].as_ref().unwrap()
    }
}

/// Running an iterator of this module to its end hands out every value it had left,
/// each once and in order. `remaining[k]` is what the iterator had left before its
/// `k`-th call of `next` and `items[k]` is what that call gave; each call gives the
/// first value left and drops it (as the `next` contracts state), and at the end
/// nothing is left. Then the items are exactly what was left at the start; for an
/// iterator fresh from `iter` or `into_iter`, that is the buffer's values.
pub proof fn lemma_iteration_yields_remaining<T>(remaining: Seq<Seq<T>>, items: Seq<T>)
    requires
        remaining.len() == items.len() + 1,
        forall|k: int|
            0 <= k < items.len() ==> {
                &&& (#[trigger] remaining[k]).len() > 0
                &&& items[k] == remaining[k][0]
                &&& remaining[k + 1] == remaining[k].drop_first()
            },
        remaining.last().len() == 0,
    ensures
        items == remaining[0],
    decreases items.len(),
{
    if items.len() == 0 {
        assert(remaining[0] =~= Seq::<T>::empty());
    } else {
        let rest = remaining.drop_first();
        assert forall|k: int| 0 <= k < items.drop_first().len() implies {
            &&& (#[trigger] rest[k]).len() > 0
            &&& items.drop_first()[k] == rest[k][0]
            &&& rest[k + 1] == rest[k].drop_first()
        } by {
            assert(remaining[k + 1].len() > 0);
        }
        lemma_iteration_yields_remaining(rest, items.drop_first());
        assert(remaining[0].len() > 0);
        assert(items =~= remaining[0]) by {
            assert(items.drop_first() == remaining[0].drop_first());
            assert forall|k: int| 0 <= k < items.len() implies items[k] == remaining[0][k] by {
                if k > 0 {
                    assert(items[k] == items.drop_first()[k - 1]);
                }
            }
        }
    }
}

/// Writing through every reference that a mutable iterator hands out replaces every
/// value, each once and in order. `contents[k]` is what the iterator's buffer held
/// before its `k`-th call of `next`, and `written[k]` is what was left behind the
/// reference that call gave (the `next` contract updates position `k`). After a
/// call for every position the buffer holds exactly the written values, which
/// [`RingBufferFiniteIterMut::lemma_writes_land_in_buffer`] carries over to the buffer
/// once the iterator is dropped.
pub proof fn lemma_iteration_writes_every_value<T>(contents: Seq<Seq<T>>, written: Seq<T>)
    requires
        contents.len() == written.len() + 1,
        contents[0].len() == written.len(),
        forall|k: int|
            0 <= k < written.len() ==> contents[k + 1] == contents[k].update(
                k,
                #[trigger] written[k],
            ),
    ensures
        contents.last() == written,
{
    assert forall|k: int| 0 <= k <= written.len() implies {
        &&& (#[trigger] contents[k]).len() == written.len()
        &&& forall|j: int| 0 <= j < k ==> contents[k][j] == written[j]
    } by {
        lemma_written_prefix(contents, written, k);
    }
    assert(contents.last() =~= written);
}

/// After `k` calls, the first `k` values are the written ones.
proof fn lemma_written_prefix<T>(contents: Seq<Seq<T>>, written: Seq<T>, k: int)
    requires
        contents.len() == written.len() + 1,
        contents[0].len() == written.len(),
        forall|k: int|
            0 <= k < written.len() ==> contents[k + 1] == contents[k].update(
                k,
                #[trigger] written[k],
            ),
        0 <= k <= written.len(),
    ensures
        contents[k].len() == written.len(),
        forall|j: int| 0 <= j < k ==> contents[k][j] == written[j],
    decreases k,
{
    if k > 0 {
        lemma_written_prefix(contents, written, k - 1);
        assert(contents[k] == contents[k - 1].update(k - 1, written[k - 1]));
    }
}

/// Iterator over shared references to the values of a [`RingBuffer`], oldest first.
pub struct RingBufferFiniteIter<'a, T> {
    buf: &'a RingBuffer<T>,
    cur: usize,
}

impl<'a, T> RingBufferFiniteIter<'a, T> {
    /// The iterator refers to a consistent buffer and has not run past its end.
    pub closed spec fn valid(&self) -> bool {
        self.buf.well_formed() && self.cur <= self.buf@.len()
    }

    /// The values not yet handed out, in the order they will come.
    pub closed spec fn remaining(&self) -> Seq<T> {
        self.buf@.skip(self.cur as int)
    }

    /// The next value, or `None` once every value has been handed out.
    pub fn next(&mut self) -> (r: Option<&'a T>)
        requires
            old(self).valid(),
        ensures
            final(self).valid(),
            old(self).remaining().len() == 0 ==> r is None && final(self).remaining()
                == old(self).remaining(),
            old(self).remaining().len() > 0 ==> r == Some(&old(self).remaining()[0])
                && final(self).remaining() == old(self).remaining().drop_first(),
    {
        if self.cur < self.buf.len() {
            let item = self.buf.get(self.cur);
            self.cur = self.cur + 1;
            assert(self.remaining() =~= old(self).remaining().drop_first());
            item
        } else {
            None
        }
    }
}

/// Iterator over mutable references to the values of a [`RingBuffer`], oldest first.
/// Its fields are public so that contracts can speak of the buffer it borrows.
pub struct RingBufferFiniteIterMut<'a, T> {
    /// The buffer being walked.
    pub buf: &'a mut RingBuffer<T>,
    /// How many values have been handed out.
    pub cur: usize,
}

impl<'a, T> RingBufferFiniteIterMut<'a, T> {
    /// The iterator refers to a consistent buffer and has not run past its end.
    pub closed spec fn valid(&self) -> bool {
        self.buf.well_formed() && self.cur <= self.buf@.len()
    }

    /// The values of the underlying buffer as they stand now, oldest first.
    pub closed spec fn contents(&self) -> Seq<T> {
        self.buf@
    }

    /// How many values have been handed out so far.
    pub closed spec fn position(&self) -> nat {
        self.cur as nat
    }

    /// Once the iterator is dropped, the buffer keeps what was written through it:
    /// its values are the iterator's contents as they stood last.
    pub proof fn lemma_writes_land_in_buffer(self)
        requires
            has_resolved(self),
        ensures
            final(self.buf)@ == self.contents(),
    {
    }

    /// A mutable reference to the next value, or `None` once every value has been
    /// handed out. What is written through the reference lands in the buffer.
    pub fn next(&mut self) -> (r: Option<&mut T>)
        requires
            old(self).valid(),
        ensures
            final(self).valid(),
            final(final(self).buf)@ == final(old(self).buf)@,
            old(self).position() < old(self).contents().len() ==> {
                &&& r is Some
                &&& *r->0 == old(self).contents()[old(self).position() as int]
                &&& final(self).position() == old(self).position() + 1
                &&& final(self).contents() == old(self).contents().update(
                    old(self).position() as int,
                    *final(r->0),
                )
            },
            old(self).position() >= old(self).contents().len() ==> {
                &&& r is None
                &&& final(self).position() == old(self).position()
                &&& final(self).contents() == old(self).contents()
            },
    {
        if self.cur < self.buf.len() {
            let cur = self.cur;
            self.cur = cur + 1;
            self.buf.get_mut(cur)
        } else {
            None
        }
    }
}

/// Iterator that takes the values out of a [`RingBuffer`], oldest first.
pub struct RingBufferFiniteIntoIter<T> {
    buf: RingBuffer<T>,
    cur: usize,
}

impl<T> RingBufferFiniteIntoIter<T> {
    /// The slots of the values not yet handed out are still filled.
    pub closed spec fn valid(&self) -> bool {
        let b = self.buf;
        &&& b.buf@.len() == b.capacity
        &&& b.length <= b.capacity
        &&& b.capacity > 0 ==> b.head < b.capacity
        &&& self.cur <= b.length
        &&& forall|i: int|
            self.cur <= i < b.length ==> (#[trigger] b.buf@[wrap_index(
                b.head as int,
                i,
                b.capacity as int,
            )]) is Some
    }

    /// The values not yet handed out, in the order they will come.
    pub closed spec fn remaining(&self) -> Seq<T> {
        let b = self.buf;
        Seq::new(
            (b.length - self.cur) as nat,
            |i: int| b.buf@[wrap_index(b.head as int, self.cur + i, b.capacity as int)]->0,
        )
    }

    /// The next value, or `None` once every value has been handed out.
    pub fn next(&mut self) -> (r: Option<T>)
        requires
            old(self).valid(),
        ensures
            final(self).valid(),
            old(self).remaining().len() == 0 ==> r is None && final(self).remaining()
                == old(self).remaining(),
            old(self).remaining().len() > 0 ==> r == Some(old(self).remaining()[0])
                && final(self).remaining() == old(self).remaining().drop_first(),
    {
        if self.cur < self.buf.length {
            let cur = self.cur;
            let slot = if cur < self.buf.capacity - self.buf.head {
                self.buf.head + cur
            } else {
                cur - (self.buf.capacity - self.buf.head)
            };
            let mut taken: Option<T> = None;
            self.buf.buf.set_and_swap(slot, &mut taken);
            self.cur = cur + 1;
            assert forall|i: int| self.cur <= i < self.buf.length implies (#[trigger] self.buf.buf@[wrap_index(
                self.buf.head as int,
                i,
                self.buf.capacity as int,
            )]) is Some by {
                assert(self.buf.buf@[wrap_index(self.buf.head as int, i, self.buf.capacity as int)]
                    == old(self).buf.buf@[wrap_index(self.buf.head as int, i, self.buf.capacity as int)]);
            }
            assert(self.remaining() =~= old(self).remaining().drop_first());
            taken
        } else {
            None
        }
    }
}

} // verus!
