//! A fixed-capacity double-ended queue backed by a single circular buffer.
//!
//! Capacity is chosen at compile time; the deque never grows, shrinks, or
//! reallocates. Elements live in a contiguous block of `CAPACITY` slots, and
//! which slots hold a value is determined solely by three integers: `start`,
//! `end`, and `len`.

use vstd::prelude::*;

verus! {

/// A double-ended queue with a fixed compile-time capacity.
///
/// Storage is a circular buffer of `CAPACITY` slots. The live elements occupy
/// the wrapped range of slots starting at `start`; `len` counts them and is
/// the sole tiebreaker for the ambiguous `start == end` state (which can mean
/// either empty or full).
pub struct Deque<T, const CAPACITY: usize> {
    /// Physical index of the logical front element, when non-empty.
    start: usize,
    /// Physical index one past the logical back element, when non-empty.
    end: usize,
    /// Number of live elements. Always the authoritative count; in particular
    /// it disambiguates `start == end` between empty and full.
    len: usize,
    /// The circular buffer. Exactly the slots in the wrapped range
    /// `[start, start + len)` hold a value; every other slot holds `None`.
    data: Vec<Option<T>>,
}

impl<T, const CAPACITY: usize> View for Deque<T, CAPACITY> {
    type V = Seq<T>;

    /// The logical contents of the deque, front to back.
    closed spec fn view(&self) -> Seq<T> {
        Seq::new(self.len as nat, |i: int| self.data@[self.phys(i)].unwrap())
    }
}

impl<T, const CAPACITY: usize> Deque<T, CAPACITY> {
    /// Physical slot of the element at logical offset `i` from the front.
    spec fn phys(&self, i: int) -> int {
        if self.start + i < CAPACITY {
            self.start + i
        } else {
            self.start + i - CAPACITY
        }
    }

    /// Whether physical slot `j` lies inside the wrapped live range.
    spec fn slot_is_live(&self, j: int) -> bool {
        if self.start + self.len <= CAPACITY {
            self.start <= j < self.start + self.len
        } else {
            self.start <= j < CAPACITY || 0 <= j < self.start + self.len - CAPACITY
        }
    }

    /// Well-formedness: the bookkeeping fields are in bounds, `end` agrees
    /// with `start + len` modulo the capacity, and a slot holds a value if and
    /// only if it lies inside the live range.
    pub closed spec fn wf(&self) -> bool {
        &&& self.data@.len() == CAPACITY
        &&& self.len <= CAPACITY
        &&& if CAPACITY == 0 {
            self.start == 0 && self.end == 0
        } else {
            self.start < CAPACITY && self.end < CAPACITY
        }
        &&& self.end as int == self.phys(self.len as int)
        &&& forall|j: int|
            0 <= j < CAPACITY ==> ((#[trigger] self.data@[j]) is Some <==> self.slot_is_live(j))
    }

    /// Invariant: a well-formed deque never holds more than `CAPACITY`
    /// elements, so `len` always lies in `[0, CAPACITY]`.
    pub proof fn lemma_len_at_most_capacity(&self)
        requires
            self.wf(),
        ensures
            self@.len() <= CAPACITY,
    {
    }

    /// Creates an empty deque. All slots start vacant; no element of `T` is
    /// touched or constructed.
    pub fn new() -> (d: Self)
        ensures
            d.wf(),
            d@ == Seq::<T>::empty(),
    {
        let mut data: Vec<Option<T>> = Vec::new();
        while data.len() < CAPACITY
            invariant
                data@.len() <= CAPACITY,
                forall|j: int| 0 <= j < data@.len() ==> (#[trigger] data@[j]) is None,
            decreases CAPACITY - data@.len(),
        {
            data.push(None);
        }
        let d = Deque { start: 0, end: 0, len: 0, data };
        proof {
            assert(d@ =~= Seq::<T>::empty());
        }
        d
    }

    /// The maximum number of elements this deque can hold.
    pub fn capacity(&self) -> (c: usize)
        ensures
            c == CAPACITY,
    {
        CAPACITY
    }

    /// The number of elements currently in the deque.
    pub fn len(&self) -> (n: usize)
        ensures
            n == self@.len(),
    {
        self.len
    }

    /// Returns `true` if the deque holds no elements.
    pub fn is_empty(&self) -> (b: bool)
        ensures
            b == (self@.len() == 0),
    {
        self.len == 0
    }

    /// Returns `true` if the deque holds `CAPACITY` elements, so that the
    /// next push would be rejected.
    pub fn is_full(&self) -> (b: bool)
        ensures
            b == (self@.len() == CAPACITY),
    {
        self.len == CAPACITY
    }

    /// Translates a logical offset (0 = front) into the physical slot index
    /// holding that element, or `None` when `offset >= len`.
    ///
    /// Wraparound is handled by comparison against the size of the unwrapped
    /// tail `[start, CAPACITY)` rather than by a modulo, which also keeps
    /// every intermediate sum within `usize` range.
    fn data_index(&self, offset: usize) -> (r: Option<usize>)
        requires
            self.wf(),
        ensures
            match r {
                Some(idx) => offset < self@.len() && idx as int == self.phys(offset as int),
                None => offset >= self@.len(),
            },
    {
        if offset < self.len {
            let pre_wrap_size = CAPACITY - self.start;
            if offset < pre_wrap_size {
                Some(self.start + offset)
            } else {
                Some(offset - pre_wrap_size)
            }
        } else {
            None
        }
    }

    /// Provides a reference to the element at logical offset `index` from the
    /// front, or `None` when `index >= len`.
    pub fn get(&self, index: usize) -> (r: Option<&T>)
        requires
            self.wf(),
        ensures
            match r {
                Some(v) => index < self@.len() && *v == self@[index as int],
                None => index >= self@.len(),
            },
    {
        match self.data_index(index) {
            Some(idx) => self.data[idx].as_ref(),
            None => None,
        }
    }

    /// Provides a reference to the front element, or `None` when empty.
    pub fn front(&self) -> (r: Option<&T>)
        requires
            self.wf(),
        ensures
            match r {
                Some(v) => self@.len() > 0 && *v == self@.first(),
                None => self@.len() == 0,
            },
    {
        self.get(0)
    }

    /// Provides a reference to the back element, or `None` when empty.
    ///
    /// The empty case short-circuits so that `len - 1` is never evaluated on
    /// an empty deque.
    pub fn back(&self) -> (r: Option<&T>)
        requires
            self.wf(),
        ensures
            match r {
                Some(v) => self@.len() > 0 && *v == self@.last(),
                None => self@.len() == 0,
            },
    {
        if self.len == 0 {
            None
        } else {
            self.get(self.len - 1)
        }
    }

    /// Prepends an element. When the deque is full the value is handed back
    /// unchanged in `Err` and no state changes; this signals capacity
    /// exhaustion, not a fatal error.
    pub fn push_front(&mut self, value: T) -> (r: Result<(), T>)
        requires
            old(self).wf(),
        ensures
            final(self).wf(),
            old(self)@.len() < CAPACITY ==> r is Ok && final(self)@ == seq![value] + old(self)@,
            old(self)@.len() == CAPACITY ==> r == Err::<(), T>(value) && *final(self)
                == *old(self),
    {
        if self.is_full() {
            Err(value)
        } else {
            // The slot just before `start` is vacant whenever the deque is
            // not full; write the value there, then grow the region over it.
            let new_start = if self.start == 0 {
                CAPACITY - 1
            } else {
                self.start - 1
            };
            self.data[new_start] = Some(value);
            self.start = new_start;
            self.len = self.len + 1;
            proof {
                assert(self@ =~= seq![value] + old(self)@);
            }
            Ok(())
        }
    }

    /// Appends an element. When the deque is full the value is handed back
    /// unchanged in `Err` and no state changes; this signals capacity
    /// exhaustion, not a fatal error.
    pub fn push_back(&mut self, value: T) -> (r: Result<(), T>)
        requires
            old(self).wf(),
        ensures
            final(self).wf(),
            old(self)@.len() < CAPACITY ==> r is Ok && final(self)@ == old(self)@.push(value),
            old(self)@.len() == CAPACITY ==> r == Err::<(), T>(value) && *final(self)
                == *old(self),
    {
        if self.is_full() {
            Err(value)
        } else {
            // The slot at `end` is vacant whenever the deque is not full;
            // write the value there, then grow the region over it.
            self.data[self.end] = Some(value);
            self.end = if self.end + 1 == CAPACITY {
                0
            } else {
                self.end + 1
            };
            self.len = self.len + 1;
            proof {
                assert(self@ =~= old(self)@.push(value));
            }
            Ok(())
        }
    }

    /// Removes and returns the front element, or `None` when empty.
    ///
    /// The region is shrunk (bookkeeping updated) strictly before the value
    /// is moved out of its slot, so the slot being vacated is never part of
    /// the live range at the moment it is read.
    pub fn pop_front(&mut self) -> (r: Option<T>)
        requires
            old(self).wf(),
        ensures
            final(self).wf(),
            match r {
                Some(v) => old(self)@.len() > 0 && v == old(self)@.first()
                    && final(self)@ == old(self)@.drop_first(),
                None => old(self)@.len() == 0 && *final(self) == *old(self),
            },
    {
        if self.is_empty() {
            None
        } else {
            let old_start = self.start;
            self.start = if old_start + 1 == CAPACITY {
                0
            } else {
                old_start + 1
            };
            self.len = self.len - 1;
            let v = self.data[old_start].take();
            proof {
                assert(self@ =~= old(self)@.drop_first());
                assert(old(self).data@[old(self).phys(0)] is Some);
            }
            Some(v.unwrap())
        }
    }

    /// Removes and returns the back element, or `None` when empty.
    ///
    /// The region is shrunk (bookkeeping updated) strictly before the value
    /// is moved out of its slot, so the slot being vacated is never part of
    /// the live range at the moment it is read.
    pub fn pop_back(&mut self) -> (r: Option<T>)
        requires
            old(self).wf(),
        ensures
            final(self).wf(),
            match r {
                Some(v) => old(self)@.len() > 0 && v == old(self)@.last()
                    && final(self)@ == old(self)@.drop_last(),
                None => old(self)@.len() == 0 && *final(self) == *old(self),
            },
    {
        if self.is_empty() {
            None
        } else {
            self.end = if self.end == 0 {
                CAPACITY - 1
            } else {
                self.end - 1
            };
            self.len = self.len - 1;
            let v = self.data[self.end].take();
            proof {
                assert(self@ =~= old(self)@.drop_last());
                assert(old(self).data@[old(self).phys(old(self).len - 1)] is Some);
            }
            Some(v.unwrap())
        }
    }

    /// Provides a mutable reference to the element at logical offset `index`
    /// from the front, or `None` when `index >= len`.
    ///
    /// The contents after the call are the contents before it with the
    /// referenced position replaced by whatever the caller writes through the
    /// returned reference.
    pub fn get_mut(&mut self, index: usize) -> (r: Option<&mut T>)
        requires
            old(self).wf(),
        ensures
            final(self).wf(),
            match r {
                Some(m) => index < old(self)@.len() && *m == old(self)@[index as int]
                    && final(self)@ == old(self)@.update(index as int, *final(m)),
                None => index >= old(self)@.len() && *final(self) == *old(self),
            },
    {
        match self.data_index(index) {
            Some(idx) => {
                proof {
                    assert(self.data@[self.phys(index as int)] is Some);
                    assert forall|i: int| 0 <= i < self.len && i != index implies self.phys(i)
                        != self.phys(index as int) by {}
                }
                let slot = &mut self.data[idx];
                slot.as_mut()
            },
            None => None,
        }
    }

    /// Provides a mutable reference to the front element, or `None` when
    /// empty.
    pub fn front_mut(&mut self) -> (r: Option<&mut T>)
        requires
            old(self).wf(),
        ensures
            final(self).wf(),
            match r {
                Some(m) => old(self)@.len() > 0 && *m == old(self)@.first()
                    && final(self)@ == old(self)@.update(0, *final(m)),
                None => old(self)@.len() == 0 && *final(self) == *old(self),
            },
    {
        self.get_mut(0)
    }

    /// Provides a mutable reference to the back element, or `None` when
    /// empty.
    ///
    /// The empty case short-circuits so that `len - 1` is never evaluated on
    /// an empty deque.
    pub fn back_mut(&mut self) -> (r: Option<&mut T>)
        requires
            old(self).wf(),
        ensures
            final(self).wf(),
            match r {
                Some(m) => old(self)@.len() > 0 && *m == old(self)@.last()
                    && final(self)@ == old(self)@.update(old(self)@.len() - 1, *final(m)),
                None => old(self)@.len() == 0 && *final(self) == *old(self),
            },
    {
        if self.len == 0 {
            None
        } else {
            let i = self.len - 1;
            self.get_mut(i)
        }
    }

    /// Direct indexing. Out-of-range access is a programming error, excluded
    /// statically by the precondition rather than reported at run time.
    pub fn index(&self, i: usize) -> (r: &T)
        requires
            self.wf(),
            i < self@.len(),
        ensures
            *r == self@[i as int],
    {
        self.get(i).unwrap()
    }

    /// Direct indexing with mutation. Out-of-range access is a programming
    /// error, excluded statically by the precondition rather than reported at
    /// run time.
    pub fn index_mut(&mut self, i: usize) -> (r: &mut T)
        requires
            old(self).wf(),
            i < old(self)@.len(),
        ensures
            final(self).wf(),
            *r == old(self)@[i as int],
            final(self)@ == old(self)@.update(i as int, *final(r)),
    {
        self.get_mut(i).unwrap()
    }

    /// Physical indexes of the live slots, in logical front-to-back order.
    ///
    /// The live region is at most two contiguous runs: `[start, end)` when it
    /// does not wrap, or `[start, CAPACITY)` followed by `[0, end)` when it
    /// does.
    fn indexes(&self) -> (r: Vec<usize>)
        requires
            self.wf(),
        ensures
            r@.len() == self@.len(),
            forall|i: int| 0 <= i < r@.len() ==> (#[trigger] r@[i]) as int == self.phys(i),
            forall|i: int| 0 <= i < r@.len() ==> (#[trigger] r@[i]) < CAPACITY,
    {
        let mut r: Vec<usize> = Vec::new();
        if self.is_empty() {
            // No live slots.
        } else if self.start < self.end {
            // One contiguous run.
            let mut j: usize = self.start;
            while j < self.end
                invariant
                    self.wf(),
                    0 < self@.len(),
                    self.start < self.end,
                    self.start <= j <= self.end,
                    r@.len() == j - self.start,
                    forall|i: int| 0 <= i < r@.len() ==> (#[trigger] r@[i]) as int == self.start + i,
                decreases self.end - j,
            {
                r.push(j);
                j = j + 1;
            }
        } else {
            // Two runs: the tail of the buffer, then its head.
            let mut j: usize = self.start;
            while j < CAPACITY
                invariant
                    self.wf(),
                    0 < self@.len(),
                    self.end <= self.start,
                    self.start <= j <= CAPACITY,
                    r@.len() == j - self.start,
                    forall|i: int| 0 <= i < r@.len() ==> (#[trigger] r@[i]) as int == self.start + i,
                decreases CAPACITY - j,
            {
                r.push(j);
                j = j + 1;
            }
            let mut j2: usize = 0;
            while j2 < self.end
                invariant
                    self.wf(),
                    0 < self@.len(),
                    self.end <= self.start,
                    0 <= j2 <= self.end,
                    r@.len() == CAPACITY - self.start + j2,
                    forall|i: int|
                        0 <= i < CAPACITY - self.start ==> (#[trigger] r@[i]) as int == self.start
                            + i,
                    forall|i: int|
                        CAPACITY - self.start <= i < r@.len() ==> (#[trigger] r@[i]) as int == i
                            - (CAPACITY - self.start),
                decreases self.end - j2,
            {
                r.push(j2);
                j2 = j2 + 1;
            }
        }
        r
    }

    /// Removes all elements.
    ///
    /// The bookkeeping is reset to the empty state strictly before any
    /// element is destroyed, so nothing that runs during teardown can observe
    /// a partially cleared region as valid. Elements are then released in
    /// logical front-to-back order.
    pub fn clear(&mut self)
        requires
            old(self).wf(),
        ensures
            final(self).wf(),
            final(self)@ == Seq::<T>::empty(),
    {
        let indexes = self.indexes();
        // Reset the region to empty first.
        self.start = 0;
        self.end = 0;
        self.len = 0;
        proof {
            assert forall|j: int|
                0 <= j < CAPACITY && (#[trigger] self.data@[j]) is Some implies exists|i: int|
                0 <= i < indexes@.len() && indexes@[i] == j by {
                let i = if j >= old(self).start {
                    j - old(self).start
                } else {
                    j + CAPACITY - old(self).start
                };
                assert(old(self).slot_is_live(j));
                assert(old(self).phys(i) == j);
                assert(indexes@[i] == j);
            }
        }
        // Release every live element, front to back.
        let mut k: usize = 0;
        while k < indexes.len()
            invariant
                self.data@.len() == CAPACITY,
                self.start == 0 && self.end == 0 && self.len == 0,
                indexes@.len() <= CAPACITY,
                forall|i: int| 0 <= i < indexes@.len() ==> (#[trigger] indexes@[i]) < CAPACITY,
                k <= indexes@.len(),
                forall|j: int|
                    0 <= j < CAPACITY && (#[trigger] self.data@[j]) is Some ==> exists|i: int|
                        k <= i < indexes@.len() && indexes@[i] == j,
            decreases indexes@.len() - k,
        {
            let idx = indexes[k];
            self.data[idx] = None;
            proof {
                assert forall|j: int|
                    0 <= j < CAPACITY && (#[trigger] self.data@[j]) is Some implies exists|i: int|
                    k + 1 <= i < indexes@.len() && indexes@[i] == j by {
                    let i0 = choose|i: int| k <= i < indexes@.len() && indexes@[i] == j;
                    assert(indexes@[i0] == j && j != idx);
                    assert(k + 1 <= i0 < indexes@.len());
                }
            }
            k = k + 1;
        }
        proof {
            assert(self@ =~= Seq::<T>::empty());
        }
    }
}

// The laws below describe runs of operations through the same sequence model
// that the operation contracts use: a successful `push_back` appends to the
// view (`push`), a successful `push_front` prepends, `pop_front` removes and
// returns the first element (`drop_first`), and `pop_back` the last
// (`drop_last`). When the number of values pushed does not exceed `CAPACITY`,
// the contracts of `push_front` and `push_back` guarantee every push in such
// a run succeeds.
/// The contents after pushing each value of `vals`, in order, at the back of
/// a deque whose contents are `s`.
pub open spec fn push_back_all<T>(s: Seq<T>, vals: Seq<T>) -> Seq<T>
    decreases vals.len(),
{
    if vals.len() == 0 {
        s
    } else {
        push_back_all(s.push(vals.first()), vals.drop_first())
    }
}

/// The contents after pushing each value of `vals`, in order, at the front of
/// a deque whose contents are `s`.
pub open spec fn push_front_all<T>(s: Seq<T>, vals: Seq<T>) -> Seq<T>
    decreases vals.len(),
{
    if vals.len() == 0 {
        s
    } else {
        push_front_all(seq![vals.first()] + s, vals.drop_first())
    }
}

/// The contents after popping `k` elements at the front of a deque whose
/// contents are `s`.
pub open spec fn pop_front_all<T>(s: Seq<T>, k: int) -> Seq<T>
    decreases k,
{
    if k <= 0 || s.len() == 0 {
        s
    } else {
        pop_front_all(s.drop_first(), k - 1)
    }
}

/// The contents after popping `k` elements at the back of a deque whose
/// contents are `s`.
pub open spec fn pop_back_all<T>(s: Seq<T>, k: int) -> Seq<T>
    decreases k,
{
    if k <= 0 || s.len() == 0 {
        s
    } else {
        pop_back_all(s.drop_last(), k - 1)
    }
}

/// Pushing `vals` at the back appends the whole of `vals`, in order.
pub proof fn lemma_push_back_all<T>(s: Seq<T>, vals: Seq<T>)
    ensures
        push_back_all(s, vals) == s + vals,
    decreases vals.len(),
{
    if vals.len() == 0 {
        assert(s + vals =~= s);
    } else {
        lemma_push_back_all(s.push(vals.first()), vals.drop_first());
        assert(s.push(vals.first()) + vals.drop_first() =~= s + vals);
    }
}

/// Pushing `vals` at the front prepends the whole of `vals`, reversed.
pub proof fn lemma_push_front_all<T>(s: Seq<T>, vals: Seq<T>)
    ensures
        push_front_all(s, vals) == vals.reverse() + s,
    decreases vals.len(),
{
    if vals.len() == 0 {
        assert(vals.reverse() + s =~= s);
    } else {
        lemma_push_front_all(seq![vals.first()] + s, vals.drop_first());
        assert(vals.drop_first().reverse() + (seq![vals.first()] + s) =~= vals.reverse() + s);
    }
}

/// Popping `k` elements at the front leaves the remaining suffix.
pub proof fn lemma_pop_front_all<T>(s: Seq<T>, k: int)
    requires
        0 <= k <= s.len(),
    ensures
        pop_front_all(s, k) == s.skip(k),
    decreases k,
{
    if k <= 0 || s.len() == 0 {
        assert(s.skip(0) =~= s);
    } else {
        lemma_pop_front_all(s.drop_first(), k - 1);
        assert(s.drop_first().skip(k - 1) =~= s.skip(k));
    }
}

/// Popping `k` elements at the back leaves the remaining prefix.
pub proof fn lemma_pop_back_all<T>(s: Seq<T>, k: int)
    requires
        0 <= k <= s.len(),
    ensures
        pop_back_all(s, k) == s.take(s.len() - k),
    decreases k,
{
    if k <= 0 || s.len() == 0 {
        assert(s.take(s.len() as int) =~= s);
    } else {
        lemma_pop_back_all(s.drop_last(), k - 1);
        assert(s.drop_last().take(s.len() - k) =~= s.take(s.len() - k));
    }
}

/// First in, first out: push a run of values at the back of an empty deque,
/// then pop from the front; the `k`-th pop returns the `k`-th value pushed,
/// so values come back in exactly the order they went in.
pub proof fn lemma_fifo_order<T>(vals: Seq<T>, k: int)
    requires
        0 <= k < vals.len(),
    ensures
        pop_front_all(push_back_all(Seq::<T>::empty(), vals), k).first() == vals[k],
{
    lemma_push_back_all(Seq::<T>::empty(), vals);
    assert(Seq::<T>::empty() + vals =~= vals);
    lemma_pop_front_all(vals, k);
}

/// Last in, first out at the back: push a run of values at the back of an
/// empty deque, then pop from the back; the `k`-th pop returns the `k`-th
/// value counted from the last one pushed, so values come back in exactly the
/// reverse of the order they went in.
pub proof fn lemma_lifo_back_order<T>(vals: Seq<T>, k: int)
    requires
        0 <= k < vals.len(),
    ensures
        pop_back_all(push_back_all(Seq::<T>::empty(), vals), k).last() == vals[vals.len() - 1 - k],
{
    lemma_push_back_all(Seq::<T>::empty(), vals);
    assert(Seq::<T>::empty() + vals =~= vals);
    lemma_pop_back_all(vals, k);
}

/// Last in, first out at the front: push a run of values at the front of an
/// empty deque, then pop from the front; the `k`-th pop returns the `k`-th
/// value counted from the last one pushed, so values come back in exactly the
/// reverse of the order they went in.
pub proof fn lemma_lifo_front_order<T>(vals: Seq<T>, k: int)
    requires
        0 <= k < vals.len(),
    ensures
        pop_front_all(push_front_all(Seq::<T>::empty(), vals), k).first() == vals[vals.len() - 1
            - k],
{
    lemma_push_front_all(Seq::<T>::empty(), vals);
    assert(vals.reverse() + Seq::<T>::empty() =~= vals.reverse());
    lemma_pop_front_all(vals.reverse(), k);
}

/// Push a run of values at the front of an empty deque, then pop from the
/// back; the `k`-th pop returns the `k`-th value pushed. Crossing the deque
/// end to end preserves the order of insertion.
pub proof fn lemma_front_to_back_order<T>(vals: Seq<T>, k: int)
    requires
        0 <= k < vals.len(),
    ensures
        pop_back_all(push_front_all(Seq::<T>::empty(), vals), k).last() == vals[k],
{
    lemma_push_front_all(Seq::<T>::empty(), vals);
    assert(vals.reverse() + Seq::<T>::empty() =~= vals.reverse());
    lemma_pop_back_all(vals.reverse(), k);
}

} // verus!
