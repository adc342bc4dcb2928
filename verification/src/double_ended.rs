//! The windowed strategy: a fixed-capacity ring of events between two
//! snapshots, `head` (the exposed state) and `tail` (the state immediately
//! before the oldest retained event).

use vstd::prelude::*;
use vstd::pervasive::VecAdditionalExecFns;
use crate::{Event, State};
use crate::order::{
    apply_seq, sorted_by_key, sorted_insert, find_insert_pos,
    lemma_apply_seq_push, lemma_insert_pos_at_end, lemma_insert_pos_properties,
    lemma_sorted_insert, lemma_sorted_skip,
};

verus! {

/// Fixed-capacity circular storage with oldest-overwrite eviction.
///
/// Emptiness and fullness are tracked with an explicit `full` flag: a fully
/// wrapped ring has `start == end` while non-empty, so the indices alone
/// cannot distinguish full from empty.
pub struct CircularBuffer<T, const SIZE: usize> {
    buffer: Vec<Option<T>>,
    capacity: usize,
    start: usize,
    end: usize,
    full: bool,
}

/// What one push does to a ring window of capacity `cap`.
pub open spec fn ring_step<T>(v: Seq<T>, x: T, cap: int) -> Seq<T> {
    if v.len() < cap {
        v.push(x)
    } else {
        v.skip(1).push(x)
    }
}

/// What one push into a window of capacity `cap` evicts.
pub open spec fn ring_drop<T>(v: Seq<T>, cap: int) -> Option<T> {
    if v.len() < cap {
        None
    } else {
        Some(v[0])
    }
}

/// The window left after pushing the items of `xs`, first to last, into a
/// ring of capacity `cap` that currently holds `v`.
pub open spec fn ring_run<T>(v: Seq<T>, xs: Seq<T>, cap: int) -> Seq<T>
    decreases xs.len(),
{
    if xs.len() == 0 {
        v
    } else {
        ring_run(ring_step(v, xs[0], cap), xs.skip(1), cap)
    }
}

pub proof fn lemma_ring_run_push<T>(v: Seq<T>, ys: Seq<T>, x: T, cap: int)
    ensures
        ring_run(v, ys.push(x), cap) == ring_step(ring_run(v, ys, cap), x, cap),
    decreases ys.len(),
{
    if ys.len() == 0 {
        assert(ys.push(x)[0] == x);
        assert(ys.push(x).skip(1) =~= Seq::<T>::empty());
        assert(ring_run(ring_step(v, x, cap), ys.push(x).skip(1), cap)
            == ring_step(v, x, cap));
    } else {
        assert(ys.push(x)[0] == ys[0]);
        assert(ys.push(x).skip(1) =~= ys.skip(1).push(x));
        lemma_ring_run_push(ring_step(v, ys[0], cap), ys.skip(1), x, cap);
    }
}

pub proof fn lemma_ring_run_window<T>(xs: Seq<T>, cap: int, i: int)
    requires
        1 <= cap,
        0 <= i <= xs.len(),
    ensures
        ring_run(Seq::<T>::empty(), xs.take(i), cap)
            == if i <= cap { xs.take(i) } else { xs.subrange(i - cap, i) },
    decreases i,
{
    if i == 0 {
        assert(xs.take(0) =~= Seq::<T>::empty());
    } else {
        lemma_ring_run_window(xs, cap, i - 1);
        assert(xs.take(i) =~= xs.take(i - 1).push(xs[i - 1]));
        lemma_ring_run_push(Seq::<T>::empty(), xs.take(i - 1), xs[i - 1], cap);
        let prev = ring_run(Seq::<T>::empty(), xs.take(i - 1), cap);
        if i - 1 < cap {
            assert(prev == xs.take(i - 1));
            if i <= cap {
                assert(ring_step(prev, xs[i - 1], cap) =~= xs.take(i));
            } else {
                assert(ring_step(prev, xs[i - 1], cap) =~= xs.subrange(i - cap, i));
            }
        } else {
            assert(prev == xs.subrange(i - 1 - cap, i - 1));
            assert(prev.len() == cap);
            assert(ring_step(prev, xs[i - 1], cap) =~= xs.subrange(i - cap, i));
        }
    }
}

/// Ring eviction law: pushing a sequence of items into an empty ring of
/// capacity `cap` leaves exactly the most recent `cap` items in the window,
/// and each push past the first `cap` evicts the oldest item, so the evicted
/// items come out in first-in-first-out order of arrival.
pub proof fn lemma_ring_eviction<T>(xs: Seq<T>, cap: int)
    requires
        1 <= cap <= xs.len(),
    ensures
        ring_run(Seq::<T>::empty(), xs, cap) == xs.skip(xs.len() - cap),
        forall|i: int| 0 <= i < cap
            ==> ring_drop(#[trigger] ring_run(Seq::<T>::empty(), xs.take(i), cap), cap) is None,
        forall|i: int| cap <= i < xs.len()
            ==> ring_drop(#[trigger] ring_run(Seq::<T>::empty(), xs.take(i), cap), cap)
                == Some(xs[i - cap]),
{
    lemma_ring_run_window(xs, cap, xs.len() as int);
    assert(xs.take(xs.len() as int) =~= xs);
    assert(xs.subrange(xs.len() - cap, xs.len() as int) =~= xs.skip(xs.len() - cap));
    assert forall|i: int| 0 <= i < cap implies
        ring_drop(#[trigger] ring_run(Seq::<T>::empty(), xs.take(i), cap), cap) is None by {
        lemma_ring_run_window(xs, cap, i);
    }
    assert forall|i: int| cap <= i < xs.len() implies
        ring_drop(#[trigger] ring_run(Seq::<T>::empty(), xs.take(i), cap), cap)
            == Some(xs[i - cap]) by {
        lemma_ring_run_window(xs, cap, i);
        assert(xs.subrange(i - cap, i)[0] == xs[i - cap]);
    }
}

impl<T, const SIZE: usize> CircularBuffer<T, SIZE> {
    /// Number of stored elements, from the physical fields.
    pub closed spec fn size_spec(&self) -> int {
        if self.full {
            SIZE as int
        } else if self.end >= self.start {
            self.end - self.start
        } else {
            SIZE - self.start + self.end
        }
    }

    /// Physical slot of the `i`-th logical element.
    pub closed spec fn slot(&self, i: int) -> int {
        if self.start + i < SIZE {
            self.start + i
        } else {
            self.start + i - SIZE
        }
    }

    pub closed spec fn wf(&self) -> bool {
        &&& SIZE > 0
        &&& self.capacity == SIZE
        &&& self.buffer@.len() == SIZE
        &&& self.start < SIZE
        &&& self.end < SIZE
        &&& (self.full ==> self.start == self.end)
        &&& forall|i: int| 0 <= i < self.size_spec()
            ==> (#[trigger] self.buffer@[self.slot(i)]) is Some
    }

    pub proof fn lemma_len_bound(&self)
        requires
            self.wf(),
        ensures
            self@.len() <= SIZE,
    {
    }

    /// Creates a new, empty circular buffer.
    pub fn new() -> (r: Self)
        requires
            SIZE > 0,
        ensures
            r.wf(),
            r@ == Seq::<T>::empty(),
    {
        let mut buffer: Vec<Option<T>> = Vec::new();
        let mut i: usize = 0;
        while i < SIZE
            invariant
                i <= SIZE,
                buffer@.len() == i,
            decreases SIZE - i,
        {
            buffer.push(None);
            i += 1;
        }
        let r = CircularBuffer { buffer, capacity: SIZE, start: 0, end: 0, full: false };
        proof {
            assert(r@ =~= Seq::<T>::empty());
        }
        r
    }

    /// Pushes an element at the logical end; when the buffer is already full,
    /// the logical front element is evicted and returned.
    pub fn push(&mut self, item: T) -> (dropped: Option<T>)
        requires
            old(self).wf(),
        ensures
            final(self).wf(),
            final(self)@ == ring_step(old(self)@, item, SIZE as int),
            dropped == ring_drop(old(self)@, SIZE as int),
            old(self)@.len() < SIZE ==> dropped is None && final(self)@ == old(self)@.push(item),
            old(self)@.len() == SIZE
                ==> dropped == Some(old(self)@[0])
                    && final(self)@ == old(self)@.skip(1).push(item),
    {
        proof {
            self.lemma_len_bound();
        }
        let ghost v = self@;
        let mut dropped: Option<T> = None;
        if self.full {
            let mut taken: Option<T> = None;
            self.buffer.set_and_swap(self.start, &mut taken);
            dropped = taken;
            proof {
                assert(self.slot(0) == self.start);
                assert(dropped == Some(v[0]));
            }
            self.start = if self.start + 1 == self.capacity { 0 } else { self.start + 1 };
            self.buffer.set(self.end, Some(item));
            self.end = if self.end + 1 == self.capacity { 0 } else { self.end + 1 };
            if self.end == self.start {
                self.full = true;
            }
            proof {
                assert(self.size_spec() == SIZE);
                assert forall|i: int| 0 <= i < SIZE implies
                    (#[trigger] self.buffer@[self.slot(i)]) is Some
                    && self.buffer@[self.slot(i)].unwrap() == v.skip(1).push(item)[i] by {
                    if i < SIZE - 1 {
                        assert(self.slot(i) == old(self).slot(i + 1));
                        assert(old(self).slot(i + 1) != old(self).start);
                        assert(old(self).buffer@[old(self).slot(i + 1)] is Some);
                        assert(self.buffer@[self.slot(i)] == old(self).buffer@[old(self).slot(i + 1)]);
                        assert(v[i + 1] == old(self).buffer@[old(self).slot(i + 1)].unwrap());
                    } else {
                        assert(self.slot(i) == old(self).end);
                        assert(self.buffer@[self.slot(i)] == Some(item));
                    }
                }
                assert(self@ =~= v.skip(1).push(item));
            }
        } else {
            proof {
                assert(self.size_spec() < SIZE);
                // the write lands one past the last logical element
                assert(self.slot(self.size_spec()) == self.end as int);
            }
            let ghost n = self.size_spec();
            self.buffer.set(self.end, Some(item));
            self.end = if self.end + 1 == self.capacity { 0 } else { self.end + 1 };
            if self.end == self.start {
                self.full = true;
            }
            proof {
                assert(self.size_spec() == n + 1);
                assert forall|i: int| 0 <= i < n + 1 implies
                    (#[trigger] self.buffer@[self.slot(i)]) is Some
                    && self.buffer@[self.slot(i)].unwrap() == v.push(item)[i] by {
                    assert(self.slot(i) == old(self).slot(i));
                    if i < n {
                        assert(old(self).slot(i) != old(self).end);
                        assert(old(self).buffer@[old(self).slot(i)] is Some);
                        assert(v[i] == old(self).buffer@[old(self).slot(i)].unwrap());
                    } else {
                        assert(self.buffer@[self.slot(i)] == Some(item));
                    }
                }
                assert(self@ =~= v.push(item));
            }
        }
        dropped
    }

    /// The current number of stored elements.
    pub fn size(&self) -> (n: usize)
        requires
            self.wf(),
        ensures
            n == self@.len(),
    {
        if self.full {
            self.capacity
        } else if self.end >= self.start {
            self.end - self.start
        } else {
            self.capacity - self.start + self.end
        }
    }

    /// The fixed capacity of the buffer.
    pub fn capacity(&self) -> (c: usize)
        requires
            self.wf(),
        ensures
            c == SIZE,
    {
        self.capacity
    }

    /// Whether no element is stored.
    pub fn is_empty(&self) -> (r: bool)
        requires
            self.wf(),
        ensures
            r == (self@.len() == 0),
    {
        !self.full && self.start == self.end
    }

    /// Whether the buffer holds `SIZE` elements.
    pub fn is_full(&self) -> (r: bool)
        requires
            self.wf(),
        ensures
            r == (self@.len() == SIZE),
    {
        self.full
    }

    /// Removes and returns the logical front element, or `None` when empty.
    pub fn pop(&mut self) -> (item: Option<T>)
        requires
            old(self).wf(),
        ensures
            final(self).wf(),
            old(self)@.len() == 0 ==> item is None && final(self)@ == old(self)@,
            old(self)@.len() > 0
                ==> item == Some(old(self)@[0]) && final(self)@ == old(self)@.skip(1),
    {
        if self.is_empty() {
            return None;
        }
        let ghost v = self@;
        let ghost n = self.size_spec();
        let mut taken: Option<T> = None;
        self.buffer.set_and_swap(self.start, &mut taken);
        proof {
            assert(self.slot(0) == self.start);
            assert(taken == Some(v[0]));
        }
        self.start = if self.start + 1 == self.capacity { 0 } else { self.start + 1 };
        self.full = false;
        proof {
            assert(self.size_spec() == n - 1);
            assert forall|i: int| 0 <= i < n - 1 implies
                (#[trigger] self.buffer@[self.slot(i)]) is Some
                && self.buffer@[self.slot(i)].unwrap() == v.skip(1)[i] by {
                assert(self.slot(i) == old(self).slot(i + 1));
                assert(old(self).slot(i + 1) != old(self).start);
                assert(old(self).buffer@[old(self).slot(i + 1)] is Some);
                assert(v[i + 1] == old(self).buffer@[old(self).slot(i + 1)].unwrap());
            }
            assert(self@ =~= v.skip(1));
        }
        taken
    }

    /// A read-only view of the most recently pushed element, or `None` when
    /// empty.
    pub fn peek_end(&self) -> (last: Option<&T>)
        requires
            self.wf(),
        ensures
            self@.len() == 0 ==> last is None,
            self@.len() > 0 ==> (last matches Some(e) && *e == self@.last()),
    {
        if self.is_empty() {
            None
        } else {
            let end_index = if self.end == 0 { self.capacity - 1 } else { self.end - 1 };
            proof {
                assert(self.slot(self.size_spec() - 1) == end_index as int);
            }
            match &self.buffer[end_index] {
                Some(x) => Some(x),
                None => None,
            }
        }
    }
}

impl<T, const SIZE: usize> View for CircularBuffer<T, SIZE> {
    type V = Seq<T>;

    /// The stored elements, logical front first.
    closed spec fn view(&self) -> Seq<T> {
        Seq::new(self.size_spec() as nat, |i: int| self.buffer@[self.slot(i)].unwrap())
    }
}

/// The windowed reconciler: a ring of the most recent events between two
/// snapshots. `head` is the exposed state; `tail` is the state immediately
/// before the oldest event still in the ring, so that replaying the ring
/// onto `tail` always reproduces `head`.
pub struct DoubleEndedLagBuffer<S: State, const SIZE: usize> {
    buffer: CircularBuffer<S::Event, SIZE>,
    head: S,
    tail: S,
}

impl<S: State, const SIZE: usize> DoubleEndedLagBuffer<S, SIZE> {
    /// The events currently retained in the window, in ascending key order.
    pub closed spec fn window(&self) -> Seq<S::Event> {
        self.buffer@
    }

    /// The model of the state immediately before the oldest retained event.
    pub closed spec fn base_model(&self) -> S::Model {
        self.tail.model()
    }

    /// The model of the exposed state.
    pub closed spec fn state_model(&self) -> S::Model {
        self.head.model()
    }

    pub closed spec fn wf(&self) -> bool {
        &&& self.buffer.wf()
        &&& sorted_by_key(self.buffer@)
        &&& self.head.model() == apply_seq::<S>(self.tail.model(), self.buffer@)
    }

    /// Creates a windowed reconciler holding the given initial state.
    pub fn new(initial_state: S) -> (r: Self)
        requires
            SIZE > 0,
        ensures
            r.wf(),
            r.window() == Seq::<S::Event>::empty(),
            r.base_model() == initial_state.model(),
            r.state_model() == initial_state.model(),
    {
        let head = initial_state.clone_state();
        let r = DoubleEndedLagBuffer { buffer: CircularBuffer::new(), head, tail: initial_state };
        proof {
            assert(apply_seq::<S>(r.tail.model(), r.buffer@) == r.tail.model());
        }
        r
    }

    /// Submits an event.
    ///
    /// The window always ends up holding the previous window with the event
    /// merged in at its key-sorted position; when that overflows the
    /// capacity, the oldest merged event is folded into the trailing
    /// snapshot. An event in key order is applied directly to the head
    /// without any replay.
    pub fn update(&mut self, event: S::Event)
        requires
            old(self).wf(),
        ensures
            final(self).wf(),
            sorted_by_key(final(self).window()),
            final(self).state_model()
                == apply_seq::<S>(final(self).base_model(), final(self).window()),
            final(self).state_model()
                == apply_seq::<S>(old(self).base_model(), sorted_insert(old(self).window(), event)),
            sorted_insert(old(self).window(), event).len() <= SIZE
                ==> (final(self).window() == sorted_insert(old(self).window(), event)
                    && final(self).base_model() == old(self).base_model()),
            sorted_insert(old(self).window(), event).len() > SIZE
                ==> (final(self).window() == sorted_insert(old(self).window(), event).skip(1)
                    && final(self).base_model() == S::apply_model(
                        old(self).base_model(),
                        sorted_insert(old(self).window(), event)[0],
                    )),
            (old(self).window().len() == 0 || old(self).window().last().key() <= event.key())
                ==> final(self).state_model() == S::apply_model(old(self).state_model(), event),
    {
        let ghost w = self.buffer@;
        let ghost e = event;
        let ghost base0 = self.tail.model();
        proof {
            self.buffer.lemma_len_bound();
            lemma_sorted_insert(w, e);
        }
        let in_order = match self.buffer.peek_end() {
            Some(last_event) => last_event.get_order_key() <= event.get_order_key(),
            None => true,
        };
        if in_order {
            proof {
                lemma_insert_pos_at_end::<S::Event>(w, e);
            }
            self.head.apply(&event);
            let dropped = self.buffer.push(event);
            if let Some(ev) = dropped {
                self.tail.apply(&ev);
            }
            proof {
                let merged = sorted_insert(w, e);
                assert(merged == w.push(e));
                lemma_apply_seq_push::<S>(base0, w, e);
                if w.len() < SIZE {
                    assert(self.buffer@ == merged);
                } else {
                    assert(merged[0] == w[0]);
                    assert(self.buffer@ =~= merged.skip(1));
                    assert(self.tail.model() == S::apply_model(base0, merged[0]));
                    assert(apply_seq::<S>(base0, merged)
                        == apply_seq::<S>(S::apply_model(base0, merged[0]), merged.skip(1)));
                }
                lemma_sorted_skip(merged, if merged.len() <= SIZE { 0 } else { 1 });
                assert(merged.skip(0) =~= merged);
            }
        } else {
            // Out of key order: drain the ring, merge the event in at its
            // sorted position, and replay the merged window onto a copy of
            // the trailing snapshot, repopulating the ring as we go.
            let mut drained: Vec<S::Event> = Vec::new();
            while !self.buffer.is_empty()
                invariant
                    self.buffer.wf(),
                    drained@ + self.buffer@ == w,
                    self.tail.model() == base0,
                decreases self.buffer@.len(),
            {
                if let Some(ev) = self.buffer.pop() {
                    drained.push(ev);
                }
                proof {
                    assert(drained@ + self.buffer@ =~= w);
                }
            }
            proof {
                assert(drained@ =~= drained@ + self.buffer@);
            }
            let pos = find_insert_pos(&drained, &event);
            proof {
                lemma_insert_pos_properties(drained@, e);
            }
            drained.insert(pos, event);
            let ghost merged = sorted_insert(w, e);
            proof {
                assert(drained@ == merged);
                assert(merged.len() == w.len() + 1);
                assert(w.len() <= SIZE);
            }
            self.head = self.tail.clone_state();
            proof {
                assert(merged.take(0) =~= Seq::<S::Event>::empty());
                assert(self.buffer@ =~= merged.take(0));
                assert(apply_seq::<S>(base0, merged.take(0)) == base0);
            }
            let mut j: usize = 0;
            while j < drained.len()
                invariant
                    drained@ == merged,
                    merged == sorted_insert(w, e),
                    merged.len() == w.len() + 1,
                    w.len() <= SIZE,
                    SIZE > 0,
                    j <= drained.len(),
                    self.buffer.wf(),
                    self.head.model() == apply_seq::<S>(base0, merged.take(j as int)),
                    j <= SIZE
                        ==> self.buffer@ == merged.take(j as int)
                            && self.tail.model() == base0,
                    j > SIZE
                        ==> j == SIZE + 1
                            && self.buffer@ == merged.subrange(1, j as int)
                            && self.tail.model() == S::apply_model(base0, merged[0]),
                decreases drained.len() - j,
            {
                let ev = drained[j].clone_event();
                proof {
                    assert(ev == merged[j as int]);
                    assert(merged.take(j + 1) =~= merged.take(j as int).push(merged[j as int]));
                    lemma_apply_seq_push::<S>(base0, merged.take(j as int), merged[j as int]);
                }
                self.head.apply(&ev);
                let dropped = self.buffer.push(ev);
                if let Some(evicted) = dropped {
                    self.tail.apply(&evicted);
                }
                proof {
                    if j < SIZE {
                        assert(self.buffer@ =~= merged.take(j + 1));
                    } else {
                        assert(merged.take(j as int)[0] == merged[0]);
                        assert(self.buffer@ =~= merged.subrange(1, j + 1));
                    }
                }
                j += 1;
            }
            proof {
                assert(j == merged.len());
                lemma_sorted_insert(w, e);
                if merged.len() <= SIZE {
                    assert(self.buffer@ =~= merged.take(merged.len() as int));
                    assert(merged.take(merged.len() as int) =~= merged);
                } else {
                    assert(self.buffer@ =~= merged.subrange(1, merged.len() as int));
                    assert(merged.subrange(1, merged.len() as int) =~= merged.skip(1));
                    lemma_sorted_skip(merged, 1);
                    assert(self.head.model() == apply_seq::<S>(base0, merged.take(merged.len() as int)));
                    assert(merged.take(merged.len() as int) =~= merged);
                    assert(apply_seq::<S>(base0, merged)
                        == apply_seq::<S>(S::apply_model(base0, merged[0]), merged.skip(1)));
                }
            }
        }
    }

    /// Returns a reference to the exposed state: the result of applying every
    /// retained event, in ascending key order, to the trailing snapshot.
    pub fn state_ref(&self) -> (r: &S)
        ensures
            r.model() == self.state_model(),
    {
        &self.head
    }
}

} // verus!
