//! The manual-log strategy: one ordered sequence of snapshot and event
//! entries, starting with a snapshot of the initial state. Submissions are
//! O(1) appends; reading the state replays the events after the nearest
//! snapshot, and bounding that replay by inserting fresh snapshots is left
//! to the integrator.

use vstd::prelude::*;
use crate::{Event, State};
use crate::order::{
    apply_seq, sorted_by_key, lemma_apply_seq_push, lemma_insert_pos_at_end,
    lemma_sorted_insert,
};

verus! {

/// One entry of the manual log: a submitted event, or a snapshot of the
/// state at that point of the log.
pub enum EventOrSnapshot<S: State> {
    Event(S::Event),
    Snapshot(S),
}

impl<S: State> EventOrSnapshot<S> {
    /// Whether this entry is a snapshot.
    pub fn is_snapshot(&self) -> (r: bool)
        ensures
            r == (self is Snapshot),
    {
        if let EventOrSnapshot::Snapshot(_) = self {
            true
        } else {
            false
        }
    }

    /// The snapshot held by this entry. Calling this on an event entry is a
    /// programming error, so the precondition excludes it.
    pub fn as_snapshot(&self) -> (r: &S)
        requires
            self is Snapshot,
        ensures
            *r == self->Snapshot_0,
    {
        if let EventOrSnapshot::Snapshot(s) = self {
            s
        } else {
            vstd::pervasive::unreached()
        }
    }

    /// The event held by this entry. Calling this on a snapshot entry is a
    /// programming error, so the precondition excludes it.
    pub fn as_event(&self) -> (r: &S::Event)
        requires
            self is Event,
        ensures
            *r == self->Event_0,
    {
        if let EventOrSnapshot::Event(e) = self {
            e
        } else {
            vstd::pervasive::unreached()
        }
    }
}

/// The manual-log reconciler. The log always starts with one snapshot; all
/// later entries are events in non-decreasing key order. Memory is
/// unbounded unless the integrator compacts, so `SIZE` plays no role in
/// this strategy's own logic.
pub struct ManualLagBuffer<S: State, const SIZE: usize> {
    buffer: Vec<EventOrSnapshot<S>>,
}

impl<S: State, const SIZE: usize> ManualLagBuffer<S, SIZE> {
    /// The events retained after the leading snapshot, in submission order.
    pub closed spec fn retained_events(&self) -> Seq<S::Event> {
        self.buffer@.skip(1).map_values(|entry: EventOrSnapshot<S>| entry->Event_0)
    }

    /// The model of the leading snapshot.
    pub closed spec fn base_model(&self) -> S::Model {
        self.buffer@[0]->Snapshot_0.model()
    }

    /// The model of the reconciled state: the replay of every retained
    /// event, in order, onto the leading snapshot.
    pub open spec fn state_model(&self) -> S::Model {
        apply_seq::<S>(self.base_model(), self.retained_events())
    }

    pub closed spec fn wf(&self) -> bool {
        &&& self.buffer@.len() >= 1
        &&& self.buffer@[0] is Snapshot
        &&& forall|i: int| 1 <= i < self.buffer@.len() ==> (#[trigger] self.buffer@[i]) is Event
        &&& sorted_by_key(self.retained_events())
    }

    /// Creates a manual-log reconciler holding the given initial state.
    pub fn new(initial_state: S) -> (r: Self)
        ensures
            r.wf(),
            r.retained_events() == Seq::<S::Event>::empty(),
            r.base_model() == initial_state.model(),
            r.state_model() == initial_state.model(),
    {
        let mut buffer: Vec<EventOrSnapshot<S>> = Vec::new();
        buffer.push(EventOrSnapshot::Snapshot(initial_state));
        let r = ManualLagBuffer { buffer };
        proof {
            assert(r.retained_events() =~= Seq::<S::Event>::empty());
            assert(apply_seq::<S>(r.base_model(), r.retained_events()) == r.base_model());
        }
        r
    }

    /// Submits an event. The event is appended only when its key is not
    /// below the key of the last retained event; an out-of-order submission
    /// is a no-op, which is this strategy's documented contract.
    pub fn update(&mut self, event: S::Event)
        requires
            old(self).wf(),
        ensures
            final(self).wf(),
            sorted_by_key(final(self).retained_events()),
            final(self).base_model() == old(self).base_model(),
            (old(self).retained_events().len() == 0
                || old(self).retained_events().last().key() <= event.key())
                ==> final(self).retained_events()
                    == old(self).retained_events().push(event),
            !(old(self).retained_events().len() == 0
                || old(self).retained_events().last().key() <= event.key())
                ==> final(self).retained_events() == old(self).retained_events()
                    && final(self).state_model() == old(self).state_model(),
    {
        let ghost r0 = self.retained_events();
        let ghost e = event;
        let n = self.buffer.len();
        let in_order = if n <= 1 {
            true
        } else {
            proof {
                assert(r0[n - 2] == self.buffer@[n - 1]->Event_0);
            }
            match &self.buffer[n - 1] {
                EventOrSnapshot::Event(last_event) => {
                    last_event.get_order_key() <= event.get_order_key()
                },
                EventOrSnapshot::Snapshot(_) => true,
            }
        };
        if in_order {
            self.buffer.push(EventOrSnapshot::Event(event));
            proof {
                assert(self.buffer@.skip(1)
                    =~= old(self).buffer@.skip(1).push(EventOrSnapshot::Event(e)));
                assert(self.retained_events() =~= r0.push(e));
                lemma_insert_pos_at_end::<S::Event>(r0, e);
                lemma_sorted_insert(r0, e);
            }
        }
    }

    /// Reconstructs the state by value: scans backward from the end of the
    /// log to the nearest snapshot entry, clones it, and replays every
    /// later event entry in log order.
    pub fn state(&self) -> (r: S)
        requires
            self.wf(),
        ensures
            r.model() == self.state_model(),
    {
        let n = self.buffer.len();
        let mut i: usize = n;
        while i > 1 && !self.buffer[i - 1].is_snapshot()
            invariant
                1 <= i <= n,
                n == self.buffer@.len(),
                self.wf(),
            decreases i,
        {
            i -= 1;
        }
        let mut state = self.buffer[0].as_snapshot().clone_state();
        proof {
            assert(self.retained_events().take(0) =~= Seq::<S::Event>::empty());
        }
        let mut j: usize = 1;
        while j < n
            invariant
                1 <= j <= n,
                n == self.buffer@.len(),
                self.wf(),
                state.model() == apply_seq::<S>(self.base_model(), self.retained_events().take(j - 1)),
            decreases n - j,
        {
            proof {
                assert(self.retained_events()[j - 1] == self.buffer@[j as int]->Event_0);
                assert(self.retained_events().take(j as int)
                    =~= self.retained_events().take(j - 1).push(self.retained_events()[j - 1]));
                lemma_apply_seq_push::<S>(
                    self.base_model(),
                    self.retained_events().take(j - 1),
                    self.retained_events()[j - 1],
                );
            }
            state.apply(self.buffer[j].as_event());
            j += 1;
        }
        proof {
            assert(self.retained_events().take(n - 1) =~= self.retained_events());
        }
        state
    }
}

} // verus!
