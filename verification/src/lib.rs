//! A fixed-capacity circular buffer.
//!
//! `RingBuffer<Content, SIZE>` holds at most `SIZE` elements.  Inserting into
//! a full buffer evicts the oldest element to make room.  Elements leave the
//! buffer oldest first, and iteration visits them oldest to newest without
//! disturbing them.

use vstd::prelude::*;

verus! {

/// A fixed-capacity circular buffer.
///
/// Storage is a row of `SIZE` slots, each either empty or holding one
/// element.  `next_free` is the slot the next insertion writes to, and
/// `oldest` is the slot of the earliest live element, or `None` when the
/// buffer is empty.  The live slots always form one contiguous arc (wrapping
/// around the end of the row) that starts at `oldest` and ends just before
/// `next_free`.
pub struct RingBuffer<Content, const SIZE: usize> {
    slots: Vec<Option<Content>>,
    next_free: usize,
    oldest: Option<usize>,
}

/// The slot that holds the element `offset` places after the one at `start`,
/// wrapping around the end of a row of `size` slots.
spec fn slot_index(start: int, offset: int, size: int) -> int {
    if start + offset < size {
        start + offset
    } else {
        start + offset - size
    }
}

/// Whether slot `j` lies on the circular arc that starts at `start` and ends
/// just before `end`.  When `start == end` the arc spans the whole row (a
/// full buffer, never an empty one: emptiness is encoded by `oldest` being
/// `None`).
spec fn arc_contains(start: int, end: int, j: int) -> bool {
    if start < end {
        start <= j < end
    } else {
        j >= start || j < end
    }
}

impl<Content, const SIZE: usize> RingBuffer<Content, SIZE> {
    /// How many elements the buffer holds, computed from the two cursors.
    closed spec fn spec_size(&self) -> nat {
        match self.oldest {
            None => 0,
            Some(o) => if o < self.next_free {
                (self.next_free - o) as nat
            } else {
                (SIZE - o + self.next_free) as nat
            },
        }
    }

    /// Internal well-formedness: the cursors are in bounds and the occupied
    /// slots are exactly the arc from `oldest` to just before `next_free`.
    pub closed spec fn wf(&self) -> bool {
        &&& self.slots@.len() == SIZE
        &&& (self.next_free < SIZE || (SIZE == 0 && self.next_free == 0))
        &&& match self.oldest {
            None => forall|j: int| 0 <= j < SIZE ==> (#[trigger] self.slots@[j]) is None,
            Some(o) => {
                &&& o < SIZE
                &&& forall|j: int|
                    0 <= j < SIZE ==> ((#[trigger] self.slots@[j]) is Some <==> arc_contains(
                        o as int,
                        self.next_free as int,
                        j,
                    ))
            },
        }
    }
}

impl<Content, const SIZE: usize> View for RingBuffer<Content, SIZE> {
    type V = Seq<Content>;

    /// The live elements, oldest first.
    closed spec fn view(&self) -> Seq<Content> {
        match self.oldest {
            None => Seq::empty(),
            Some(o) => Seq::new(
                self.spec_size(),
                |i: int| self.slots@[slot_index(o as int, i, SIZE as int)]->0,
            ),
        }
    }
}

impl<Content, const SIZE: usize> Default for RingBuffer<Content, SIZE> {
    /// An empty buffer: every slot vacant, both cursors at their initial
    /// state.
    fn default() -> (result: Self)
        ensures
            result.wf(),
            result@ == Seq::<Content>::empty(),
    {
        let mut slots: Vec<Option<Content>> = Vec::new();
        while slots.len() < SIZE
            invariant
                slots@.len() <= SIZE,
                forall|j: int| 0 <= j < slots@.len() ==> slots@[j] is None,
            decreases SIZE - slots@.len(),
        {
            slots.push(None);
        }
        RingBuffer { slots, next_free: 0, oldest: None }
    }
}

/// What one insertion does to the sequence of live elements of a buffer of
/// capacity `capacity`: append when there is room, otherwise evict the
/// oldest element and append.
pub open spec fn pushed<Content>(s: Seq<Content>, value: Content, capacity: nat) -> Seq<Content> {
    if s.len() < capacity {
        s.push(value)
    } else {
        s.drop_first().push(value)
    }
}

/// What a run of insertions leaves behind in a buffer of capacity
/// `capacity`: all of `s` when it fits, otherwise the trailing window of the
/// last `capacity` elements.
pub open spec fn last_window<Content>(s: Seq<Content>, capacity: nat) -> Seq<Content> {
    if s.len() <= capacity {
        s
    } else {
        s.subrange(s.len() - capacity, s.len() as int)
    }
}

/// The live elements after each element of `items` has been inserted in
/// order into a buffer of capacity `capacity` whose live elements were `s`.
pub open spec fn pushed_all<Content>(
    s: Seq<Content>,
    items: Seq<Content>,
    capacity: nat,
) -> Seq<Content>
    decreases items.len(),
{
    if items.len() == 0 {
        s
    } else {
        pushed_all(pushed(s, items[0], capacity), items.drop_first(), capacity)
    }
}

/// One insertion slides the retained window along by one element.
proof fn lemma_window_step<Content>(s: Seq<Content>, value: Content, capacity: nat)
    requires
        capacity > 0,
    ensures
        pushed(last_window(s, capacity), value, capacity) == last_window(s.push(value), capacity),
{
    assert(pushed(last_window(s, capacity), value, capacity) =~= last_window(
        s.push(value),
        capacity,
    ));
}

/// Starting from a buffer whose live elements fit its capacity, a run of
/// insertions retains exactly the trailing window of what was ever present.
proof fn lemma_pushed_all_window<Content>(s: Seq<Content>, items: Seq<Content>, capacity: nat)
    requires
        capacity > 0,
        s.len() <= capacity,
    ensures
        pushed_all(s, items, capacity) == last_window(s + items, capacity),
    decreases items.len(),
{
    if items.len() == 0 {
        assert(s + items =~= s);
    } else {
        let s2 = pushed(s, items[0], capacity);
        let rest = items.drop_first();
        lemma_pushed_all_window(s2, rest, capacity);
        lemma_window_step(s, items[0], capacity);
        assert(s.push(items[0]) + rest =~= s + items);
        if s.len() < capacity {
            assert(s2 + rest =~= s.push(items[0]) + rest);
        } else {
            assert(s2 + rest =~= (s + items).subrange(1, (s + items).len() as int));
        }
        assert(last_window(s2 + rest, capacity) =~= last_window(s + items, capacity));
    }
}

/// Inserting at most `capacity` elements into an empty buffer retains all of
/// them, in insertion order: the buffer then holds exactly as many elements
/// as were inserted.
pub proof fn lemma_fill_within_capacity<Content>(items: Seq<Content>, capacity: nat)
    requires
        items.len() <= capacity,
    ensures
        pushed_all(Seq::empty(), items, capacity) == items,
{
    if capacity == 0 {
        assert(items =~= Seq::<Content>::empty());
    } else {
        lemma_pushed_all_window(Seq::empty(), items, capacity);
        assert(Seq::empty() + items =~= items);
    }
}

/// Inserting more than `capacity` elements into an empty buffer retains
/// exactly the last `capacity` of them, oldest first: the earliest retained
/// element is the first of that trailing window.
pub proof fn lemma_fill_beyond_capacity<Content>(items: Seq<Content>, capacity: nat)
    requires
        0 < capacity < items.len(),
    ensures
        pushed_all(Seq::empty(), items, capacity) == items.subrange(
            items.len() - capacity,
            items.len() as int,
        ),
{
    lemma_pushed_all_window(Seq::empty(), items, capacity);
    assert(Seq::empty() + items =~= items);
}

impl<Content, const SIZE: usize> RingBuffer<Content, SIZE> {
    /// Build a buffer by inserting each element of `items` in order into an
    /// empty buffer.  When `items` holds more than `SIZE` elements the later
    /// insertions evict the earlier ones, so only the trailing window stays.
    pub fn from_vec(items: Vec<Content>) -> (result: Self)
        requires
            SIZE > 0 || items@.len() == 0,
        ensures
            result.wf(),
            result@ == last_window(items@, SIZE as nat),
            items@.len() <= SIZE ==> result@ == items@,
    {
        let ghost orig = items@;
        let mut remaining = items;
        let mut result = Self::default();
        let ghost mut consumed: int = 0;
        while remaining.len() > 0
            invariant
                result.wf(),
                0 <= consumed <= orig.len(),
                remaining@ == orig.subrange(consumed, orig.len() as int),
                result@ == last_window(orig.subrange(0, consumed), SIZE as nat),
                SIZE > 0 || orig.len() == 0,
            decreases remaining@.len(),
        {
            let value = remaining.remove(0);
            proof {
                assert(remaining@ =~= orig.subrange(consumed + 1, orig.len() as int));
            }
            result.push(value);
            proof {
                lemma_window_step(orig.subrange(0, consumed), value, SIZE as nat);
                assert(orig.subrange(0, consumed).push(value) =~= orig.subrange(
                    0,
                    consumed + 1,
                ));
                consumed = consumed + 1;
            }
        }
        proof {
            assert(orig.subrange(0, orig.len() as int) =~= orig);
        }
        result
    }

    /// Insert `content`.  When the buffer is full the oldest element is
    /// evicted to make room, so the insertion always succeeds.
    pub fn push(&mut self, content: Content)
        requires
            old(self).wf(),
            SIZE > 0,
        ensures
            final(self).wf(),
            final(self)@ == pushed(old(self)@, content, SIZE as nat),
    {
        let target = self.next_free;
        let ghost was_full = old(self).slots@[target as int] is Some;
        if self.slots[target].is_some() {
            // The buffer is full and `target` holds the oldest element:
            // advance `oldest` past the slot about to be overwritten.
            proof {
                // A vacant slot somewhere would put `target` outside the arc.
                assert(old(self).oldest == Some(target));
            }
            match self.oldest {
                Some(o) => {
                    self.oldest = Some(if o + 1 == SIZE { 0 } else { o + 1 });
                },
                None => {},
            }
        }
        self.slots.set(target, Some(content));
        self.next_free = if target + 1 == SIZE { 0 } else { target + 1 };
        if self.oldest.is_none() {
            // The buffer was empty: the element just written is the oldest.
            self.oldest = Some(target);
        }
        proof {
            let o_new = self.oldest->0 as int;
            assert forall|j: int| 0 <= j < SIZE implies (self.slots@[j] is Some <==> arc_contains(
                o_new,
                self.next_free as int,
                j,
            )) by {
                if old(self).oldest is Some {
                    assert(old(self).slots@[j] is Some <==> arc_contains(
                        old(self).oldest->0 as int,
                        target as int,
                        j,
                    ));
                }
            }
            if was_full {
                assert forall|i: int| 0 <= i < SIZE - 1 implies self@[i] == old(self)@[i + 1] by {
                    assert(slot_index(o_new, i, SIZE as int) == slot_index(
                        old(self).oldest->0 as int,
                        i + 1,
                        SIZE as int,
                    ));
                }
                assert(self@ =~= old(self)@.drop_first().push(content));
            } else {
                assert forall|i: int| 0 <= i < old(self)@.len() implies self@[i] == old(
                    self,
                )@[i] by {
                    assert(slot_index(o_new, i, SIZE as int) != target as int);
                }
                assert(self@ =~= old(self)@.push(content));
            }
        }
    }

    /// Remove and return the oldest element, or `None` when the buffer is
    /// empty.
    pub fn pop(&mut self) -> (result: Option<Content>)
        requires
            old(self).wf(),
        ensures
            final(self).wf(),
            old(self)@.len() == 0 ==> result is None && final(self)@ == old(self)@,
            old(self)@.len() > 0 ==> result == Some(old(self)@[0]) && final(self)@ == old(
                self,
            )@.drop_first(),
    {
        let oldest = self.oldest;
        match oldest {
            None => None,
            Some(o) => {
                // Under `wf` the oldest slot always holds an element, so the
                // swap hands it out and leaves the slot vacant.
                let mut taken: Option<Content> = None;
                self.slots.set_and_swap(o, &mut taken);
                let next_oldest = if o + 1 == SIZE { 0 } else { o + 1 };
                self.oldest = if next_oldest == self.next_free {
                    None
                } else {
                    Some(next_oldest)
                };
                proof {
                    assert forall|j: int| 0 <= j < SIZE implies (self.slots@[j] is Some
                        <==> (self.oldest matches Some(no) && arc_contains(
                            no as int,
                            self.next_free as int,
                            j,
                        ))) by {
                        assert(old(self).slots@[j] is Some <==> arc_contains(
                            o as int,
                            old(self).next_free as int,
                            j,
                        ));
                    }
                    assert(self@ =~= old(self)@.drop_first());
                }
                taken
            },
        }
    }

    /// Remove every element, oldest first, and hand each one to `handler`.
    /// The buffer is left empty; the handler's postcondition holds of every
    /// element that was stored.
    pub fn handle_all(&mut self, handler: impl Fn(Content))
        requires
            old(self).wf(),
            forall|i: int|
                0 <= i < old(self)@.len() ==> call_requires(handler, (#[trigger] old(self)@[i],)),
        ensures
            final(self).wf(),
            final(self)@ == Seq::<Content>::empty(),
            forall|i: int|
                0 <= i < old(self)@.len() ==> call_ensures(handler, (#[trigger] old(self)@[i],), ()),
    {
        let ghost orig = old(self)@;
        let ghost mut handled: int = 0;
        loop
            invariant
                self.wf(),
                0 <= handled <= orig.len(),
                self@ == orig.subrange(handled, orig.len() as int),
                forall|i: int| 0 <= i < orig.len() ==> call_requires(handler, (#[trigger] orig[i],)),
                forall|i: int| 0 <= i < handled ==> call_ensures(handler, (#[trigger] orig[i],), ()),
            ensures
                self@.len() == 0,
                handled == orig.len(),
                forall|i: int| 0 <= i < orig.len() ==> call_ensures(handler, (#[trigger] orig[i],), ()),
            decreases self@.len(),
        {
            match self.pop() {
                Some(content) => {
                    proof {
                        assert(self@ =~= orig.subrange(handled + 1, orig.len() as int));
                    }
                    handler(content);
                    proof {
                        handled = handled + 1;
                    }
                },
                None => { break ; },
            }
        }
        proof {
            assert(self@ =~= Seq::<Content>::empty());
        }
    }

    /// Empty the buffer: mark every slot vacant, return the write cursor to
    /// its initial position and forget the oldest element.  The stored
    /// elements are dropped.
    pub fn clear(&mut self)
        requires
            old(self).wf(),
        ensures
            final(self).wf(),
            final(self)@ == Seq::<Content>::empty(),
    {
        let mut j: usize = 0;
        while j < self.slots.len()
            invariant
                self.slots@.len() == SIZE,
                j <= SIZE,
                forall|k: int| 0 <= k < j ==> (#[trigger] self.slots@[k]) is None,
            decreases SIZE - j,
        {
            self.slots.set(j, None);
            j += 1;
        }
        self.next_free = 0;
        self.oldest = None;
    }

    /// Borrow the most recently inserted element, or `None` when the buffer
    /// is empty.  Nothing is moved or mutated.
    pub fn last(&self) -> (result: Option<&Content>)
        requires
            self.wf(),
        ensures
            self@.len() == 0 ==> result is None,
            self@.len() > 0 ==> result is Some && *result->0 == self@.last(),
    {
        if SIZE == 0 {
            return None;
        }
        // The newest element sits just before the write cursor, wrapping
        // around the start of the row; under `wf` that slot is vacant
        // exactly when the buffer is empty.
        let newest = if self.next_free == 0 {
            SIZE - 1
        } else {
            self.next_free - 1
        };
        self.slots[newest].as_ref()
    }

    /// The number of elements currently held, read off the two cursors
    /// without scanning the slots.
    pub fn size(&self) -> (result: usize)
        requires
            self.wf(),
        ensures
            result == self@.len(),
    {
        match self.oldest {
            Some(o) => {
                if self.next_free > o {
                    self.next_free - o
                } else {
                    SIZE - o + self.next_free
                }
            },
            None => 0,
        }
    }
}

/// A lazy oldest-to-newest traversal over a borrowed buffer.  It yields a
/// reference to each live element exactly once, in insertion order, and
/// never touches the buffer itself.
pub struct RingBufferIter<'rb, Content, const SIZE: usize> {
    slots: &'rb Vec<Option<Content>>,
    start: Option<usize>,
    end: usize,
    is_first_pass: bool,
}

impl<'rb, Content, const SIZE: usize> RingBufferIter<'rb, Content, SIZE> {
    /// How many elements are still to be yielded.  On a full buffer the
    /// start and end cursor coincide from the outset; the first-pass flag
    /// tells that state apart from an exhausted traversal.
    closed spec fn remaining_count(&self) -> nat {
        match self.start {
            None => 0,
            Some(s) => if !self.is_first_pass {
                0
            } else if s < self.end {
                (self.end - s) as nat
            } else {
                (SIZE - s + self.end) as nat
            },
        }
    }

    /// The elements still to be yielded, oldest first.
    pub closed spec fn remaining(&self) -> Seq<Content> {
        match self.start {
            None => Seq::empty(),
            Some(s) => Seq::new(
                self.remaining_count(),
                |i: int| self.slots@[slot_index(s as int, i, SIZE as int)]->0,
            ),
        }
    }

    /// Well-formedness: the cursors are in bounds, the first-pass flag is
    /// cleared only once the traversal is over, and every slot still to be
    /// visited holds an element.
    pub closed spec fn wf(&self) -> bool {
        &&& self.slots@.len() == SIZE
        &&& (self.end < SIZE || (SIZE == 0 && self.end == 0))
        &&& (self.start matches Some(s) ==> s < SIZE)
        &&& (!self.is_first_pass ==> (self.start is None || self.start == Some(self.end)))
        &&& forall|i: int|
            0 <= i < self.remaining_count() ==> (#[trigger] self.slots@[slot_index(
                self.start->0 as int,
                i,
                SIZE as int,
            )]) is Some
    }

    /// Yield a reference to the next element, oldest first, or `None` once
    /// every element has been visited.
    pub fn next(&mut self) -> (result: Option<&'rb Content>)
        requires
            old(self).wf(),
        ensures
            final(self).wf(),
            old(self).remaining().len() == 0 ==> result is None && final(self).remaining() == old(
                self,
            ).remaining(),
            old(self).remaining().len() > 0 ==> result is Some && *result->0 == old(
                self,
            ).remaining()[0] && final(self).remaining() == old(self).remaining().drop_first(),
    {
        let start = self.start;
        match start {
            None => None,
            Some(idx) => {
                if self.is_first_pass || idx != self.end {
                    proof {
                        assert(slot_index(idx as int, 0, SIZE as int) == idx as int);
                    }
                    let slots: &'rb Vec<Option<Content>> = self.slots;
                    let result = slots[idx].as_ref();
                    let new_start = if idx + 1 == SIZE {
                        0
                    } else {
                        idx + 1
                    };
                    self.start = Some(new_start);
                    // The first pass ends the moment the cursor reaches
                    // `end` again.
                    self.is_first_pass = new_start != self.end;
                    proof {
                        assert forall|i: int|
                            0 <= i < self.remaining_count() implies (#[trigger] self.slots@[slot_index(
                            new_start as int,
                            i,
                            SIZE as int,
                        )]) is Some by {
                            assert(slot_index(new_start as int, i, SIZE as int) == slot_index(
                                idx as int,
                                i + 1,
                                SIZE as int,
                            ));
                            assert(old(self).slots@[slot_index(idx as int, i + 1, SIZE as int)]
                                is Some);
                        }
                        assert(self.remaining() =~= old(self).remaining().drop_first());
                    }
                    result
                } else {
                    None
                }
            },
        }
    }
}

impl<Content, const SIZE: usize> RingBuffer<Content, SIZE> {
    /// Start an oldest-to-newest traversal.  The buffer is only borrowed:
    /// iteration mutates nothing, and a fresh iterator built later walks the
    /// same elements again.
    pub fn iter<'rb>(&'rb self) -> (result: RingBufferIter<'rb, Content, SIZE>)
        requires
            self.wf(),
        ensures
            result.wf(),
            result.remaining() == self@,
    {
        let result = RingBufferIter {
            slots: &self.slots,
            start: self.oldest,
            end: self.next_free,
            is_first_pass: true,
        };
        proof {
            if self.oldest is Some {
                let o = self.oldest->0 as int;
                assert forall|i: int|
                    0 <= i < result.remaining_count() implies (#[trigger] result.slots@[slot_index(
                    o,
                    i,
                    SIZE as int,
                )]) is Some by {
                    assert(arc_contains(o, self.next_free as int, slot_index(o, i, SIZE as int)));
                }
            }
            assert(result.remaining() =~= self@);
        }
        result
    }
}

} // verus!
