//! Reconciliation buffers that keep a state value consistent with a stream of
//! events whose logical order, given by a per-event order key, may differ from
//! the order in which the events arrive.
//!
//! Three strategies share one contract: after every submission, applying the
//! retained events, in ascending key order, to the retained base snapshot
//! yields exactly the exposed state.

use vstd::prelude::*;

pub mod double_ended;
pub mod list_state;
pub mod manual;
pub mod order;

verus! {

/// An event carrying a totally ordered key that fixes its logical position,
/// independent of the order in which it is submitted.
pub trait Event: Sized {
    /// The order key, as specifications see it.
    spec fn key(&self) -> usize;

    /// Returns the order key of the event.
    fn get_order_key(&self) -> (k: usize)
        ensures
            k == self.key(),
    ;

    /// An exact copy of the event.
    fn clone_event(&self) -> (e: Self)
        ensures
            e == *self,
    ;
}

/// A state that events can be applied to.
///
/// Applying an event must be a pure function of the state's mathematical
/// value and the event: it may not read hidden mutable state, or the
/// reconcilers could not promise that replaying a log reproduces the state.
pub trait State: Sized {
    /// The type of event that modifies the state.
    type Event: Event;

    /// The mathematical value of a state.
    type Model;

    /// The mathematical value of this state.
    spec fn model(&self) -> Self::Model;

    /// What applying one event means, at the level of models.
    spec fn apply_model(m: Self::Model, event: Self::Event) -> Self::Model;

    /// Applies an event to the state.
    fn apply(&mut self, event: &Self::Event)
        ensures
            final(self).model() == Self::apply_model(old(self).model(), *event),
    ;

    /// A copy of the state with the same mathematical value.
    fn clone_state(&self) -> (s: Self)
        ensures
            s.model() == self.model(),
    ;
}

/// The operations every reconciliation strategy with a reference-read
/// accessor offers: submit one event, read the reconciled state.
pub trait LagBuffer<S: State>: Sized {
    /// The strategy's internal consistency invariant.
    spec fn inv(&self) -> bool;

    /// The model of the state the strategy exposes.
    spec fn exposed_model(&self) -> S::Model;

    /// Submits an event.
    fn update(&mut self, event: S::Event)
        requires
            old(self).inv(),
        ensures
            final(self).inv(),
    ;

    /// Returns a reference to the reconciled state.
    fn state(&self) -> (r: &S)
        ensures
            r.model() == self.exposed_model(),
    ;
}

/// The double-buffered reconciler: two growable, key-sorted event logs with
/// a base snapshot each, plus the exposed current state.
///
/// Events are appended to the active log and applied directly to the current
/// state; once the active log is more than half full, the secondary log
/// starts mirroring the newest events on top of a freshly captured base.
/// When the active log outgrows `SIZE`, the roles swap, so the new active
/// log already holds the trailing events together with a valid base and no
/// replay is ever longer than the window.
pub struct DoubleBufferedLagBuffer<S: State, const SIZE: usize> {
    current_state: S,
    active_base: S,
    secondary_base: S,
    active: Vec<S::Event>,
    secondary: Vec<S::Event>,
}

impl<S: State, const SIZE: usize> DoubleBufferedLagBuffer<S, SIZE> {
    /// The events of the active log, in ascending key order.
    pub closed spec fn active_log(&self) -> Seq<S::Event> {
        self.active@
    }

    /// The events mirrored into the secondary log, in ascending key order.
    pub closed spec fn secondary_log(&self) -> Seq<S::Event> {
        self.secondary@
    }

    /// The model of the active log's base snapshot.
    pub closed spec fn active_base_model(&self) -> S::Model {
        self.active_base.model()
    }

    /// The model of the secondary log's base snapshot.
    pub closed spec fn secondary_base_model(&self) -> S::Model {
        self.secondary_base.model()
    }

    /// The model of the exposed current state.
    pub closed spec fn state_model(&self) -> S::Model {
        self.current_state.model()
    }

    /// When the secondary log is non-empty it mirrors a suffix of the active
    /// log, and its base snapshot is the replay of the remaining prefix.
    pub closed spec fn mirror_ok(&self) -> bool {
        self.secondary@.len() > 0 ==> {
            let pl = self.active@.len() - self.secondary@.len();
            &&& self.secondary@.len() <= self.active@.len()
            &&& pl >= SIZE / 2
            &&& self.secondary@ == self.active@.skip(pl)
            &&& self.secondary_base.model()
                == order::apply_seq::<S>(self.active_base.model(), self.active@.take(pl))
        }
    }

    /// Everything `wf` asks for except the bound on the active log's
    /// length, which is transiently exceeded between a submission and the
    /// role swap that restores it.
    pub closed spec fn mid_ok(&self) -> bool {
        &&& SIZE >= 1
        &&& order::sorted_by_key(self.active@)
        &&& order::sorted_by_key(self.secondary@)
        &&& self.current_state.model()
            == order::apply_seq::<S>(self.active_base.model(), self.active@)
        &&& self.secondary@.len() + SIZE / 2 <= SIZE + 1
        &&& self.mirror_ok()
    }

    pub closed spec fn wf(&self) -> bool {
        &&& self.mid_ok()
        &&& (self.active@.len() <= SIZE
            || (self.secondary@.len() == 0 && self.active@.len() + SIZE / 2 <= SIZE + 1))
    }

    /// Creates a double-buffered reconciler holding the given initial state.
    pub fn new(initial_state: S) -> (r: Self)
        requires
            SIZE > 0,
        ensures
            r.wf(),
            r.active_log() == Seq::<S::Event>::empty(),
            r.secondary_log() == Seq::<S::Event>::empty(),
            r.active_base_model() == initial_state.model(),
            r.state_model() == initial_state.model(),
    {
        let active_base = initial_state.clone_state();
        let secondary_base = initial_state.clone_state();
        let r = DoubleBufferedLagBuffer {
            current_state: initial_state,
            active_base,
            secondary_base,
            active: Vec::new(),
            secondary: Vec::new(),
        };
        proof {
            assert(order::apply_seq::<S>(r.active_base.model(), r.active@)
                == r.active_base.model());
        }
        r
    }

    /// Returns a reference to the current state: the result of applying
    /// every event of the active log, in ascending key order, to the active
    /// base snapshot.
    pub fn state(&self) -> (r: &S)
        ensures
            r.model() == self.state_model(),
    {
        &self.current_state
    }

    /// The number of events in the active log.
    pub fn get_active_buffer_len(&self) -> (n: usize)
        ensures
            n == self.active_log().len(),
    {
        self.active.len()
    }

    /// The number of events in the secondary log.
    pub fn get_secondary_buffer_len(&self) -> (n: usize)
        ensures
            n == self.secondary_log().len(),
    {
        self.secondary.len()
    }

    /// Replays one log (0 = active, 1 = secondary) onto its base snapshot
    /// and returns the resulting state by value.
    pub fn replay_buffer(&self, idx: usize) -> (r: S)
        requires
            idx < 2,
        ensures
            idx == 0 ==> r.model()
                == order::apply_seq::<S>(self.active_base_model(), self.active_log()),
            idx == 1 ==> r.model()
                == order::apply_seq::<S>(self.secondary_base_model(), self.secondary_log()),
    {
        let (base, log) = if idx == 0 {
            (&self.active_base, &self.active)
        } else {
            (&self.secondary_base, &self.secondary)
        };
        let mut st = base.clone_state();
        proof {
            assert(log@.take(0) =~= Seq::<S::Event>::empty());
        }
        let mut j: usize = 0;
        while j < log.len()
            invariant
                j <= log@.len(),
                st.model() == order::apply_seq::<S>(base.model(), log@.take(j as int)),
            decreases log@.len() - j,
        {
            proof {
                assert(log@.take(j + 1) =~= log@.take(j as int).push(log@[j as int]));
                order::lemma_apply_seq_push::<S>(base.model(), log@.take(j as int), log@[j as int]);
            }
            st.apply(&log[j]);
            j += 1;
        }
        proof {
            assert(log@.take(log@.len() as int) =~= log@);
        }
        st
    }

    /// Submits an event.
    ///
    /// An event in key order is appended to the active log and applied
    /// directly to the current state. An out-of-order event is spliced into
    /// the active log at its key-sorted position and the current state is
    /// rebuilt by replaying the whole active log onto its base; the mirror
    /// is kept consistent, either by splicing the event into it as well
    /// (when the event lands inside the mirrored suffix) or by re-basing it
    /// during the replay (when the event lands before the mirror's window).
    /// Afterwards, if the active log has outgrown `SIZE`, the current state
    /// is committed as the active base, the active log is cleared, and the
    /// two logs swap roles.
    pub fn update(&mut self, event: S::Event)
        requires
            old(self).wf(),
        ensures
            final(self).wf(),
            order::sorted_by_key(final(self).active_log()),
            final(self).state_model() == order::apply_seq::<S>(
                old(self).active_base_model(),
                order::sorted_insert(old(self).active_log(), event),
            ),
            final(self).state_model() == order::apply_seq::<S>(
                final(self).active_base_model(),
                final(self).active_log(),
            ),
            2 <= SIZE ==> final(self).active_log().len() <= SIZE,
            final(self).secondary_log().len() > 0 ==> final(self).state_model()
                == order::apply_seq::<S>(
                    final(self).secondary_base_model(),
                    final(self).secondary_log(),
                ),
            order::sorted_insert(old(self).active_log(), event).len() <= SIZE
                ==> (final(self).active_log() == order::sorted_insert(old(self).active_log(), event)
                    && final(self).active_base_model() == old(self).active_base_model()),
            (old(self).active_log().len() == 0
                || old(self).active_log().last().key() <= event.key())
                ==> final(self).state_model()
                    == S::apply_model(old(self).state_model(), event),
    {
        let ghost act0 = self.active@;
        let ghost e = event;
        let ghost basea0 = self.active_base.model();
        let ghost cur0 = self.current_state.model();
        let ghost merged = order::sorted_insert(act0, e);
        proof {
            order::lemma_sorted_insert(act0, e);
        }

        let alen = self.active.len();
        let in_order = if alen == 0 {
            true
        } else {
            self.active[alen - 1].get_order_key() <= event.get_order_key()
        };

        if in_order {
            self.submit_in_order(event);
            proof {
                order::lemma_in_order_fast_path::<S>(basea0, act0, e);
            }
        } else {
            self.submit_out_of_order(event);
        }
        proof {
            assert(self.active@ == merged);
            assert(self.current_state.model() == order::apply_seq::<S>(basea0, merged));
        }

        // swap the roles once the active log outgrows the window
        if self.active.len() > SIZE {
            self.swap_roles();
        }
        proof {
            if self.secondary@.len() > 0 {
                let pl = self.active@.len() - self.secondary@.len();
                assert(self.active@.take(pl) + self.active@.skip(pl) =~= self.active@);
                order::lemma_apply_seq_concat::<S>(
                    self.active_base.model(),
                    self.active@.take(pl),
                    self.active@.skip(pl),
                );
            }
        }
    }

    /// Appends an event that is in key order and applies it to the current
    /// state; once the active log is more than half full, the event is also
    /// mirrored into the secondary log, whose base is captured the moment
    /// mirroring starts.
    fn submit_in_order(&mut self, event: S::Event)
        requires
            old(self).wf(),
            old(self).active_log().len() == 0
                || old(self).active_log().last().key() <= event.key(),
        ensures
            final(self).mid_ok(),
            final(self).active_log() == order::sorted_insert(old(self).active_log(), event),
            final(self).active_base_model() == old(self).active_base_model(),
            final(self).state_model() == S::apply_model(old(self).state_model(), event),
    {
        let ghost act0 = self.active@;
        let ghost sec0 = self.secondary@;
        let ghost e = event;
        let ghost basea0 = self.active_base.model();
        let ghost cur0 = self.current_state.model();
        let ghost merged = order::sorted_insert(act0, e);
        proof {
            order::lemma_insert_pos_at_end::<S::Event>(act0, e);
            order::lemma_sorted_insert(act0, e);
        }
        self.active.push(event.clone_event());
        if self.active.len() > SIZE / 2 {
            if self.secondary.is_empty() {
                self.secondary_base = self.current_state.clone_state();
            }
            self.secondary.push(event.clone_event());
        }
        self.current_state.apply(&event);
        proof {
            order::lemma_apply_seq_push::<S>(basea0, act0, e);
            assert(self.active@ == merged);
            if sec0.len() > 0 {
                let pl = act0.len() - sec0.len();
                assert(sec0[sec0.len() - 1] == act0[act0.len() - 1]);
                order::lemma_insert_pos_at_end::<S::Event>(sec0, e);
                order::lemma_sorted_insert(sec0, e);
                assert(self.secondary@ == sec0.push(e));
                assert(self.secondary@ =~= self.active@.skip(pl));
                assert(self.active@.take(pl) =~= act0.take(pl));
            } else if self.secondary@.len() > 0 {
                let pl = act0.len() as int;
                assert(self.secondary@ == Seq::<S::Event>::empty().push(e));
                assert(self.secondary@ =~= self.active@.skip(pl));
                assert(self.active@.take(pl) =~= act0);
                assert(self.secondary_base.model() == cur0);
            }
        }
    }

    /// Splices an out-of-order event into the active log at its key-sorted
    /// position, keeps the mirror consistent, and rebuilds the current state
    /// by replaying the active log onto its base snapshot.
    fn submit_out_of_order(&mut self, event: S::Event)
        requires
            old(self).wf(),
        ensures
            final(self).mid_ok(),
            final(self).active_log() == order::sorted_insert(old(self).active_log(), event),
            final(self).active_base_model() == old(self).active_base_model(),
            final(self).state_model() == order::apply_seq::<S>(
                old(self).active_base_model(),
                order::sorted_insert(old(self).active_log(), event),
            ),
    {
        let ghost act0 = self.active@;
        let ghost sec0 = self.secondary@;
        let ghost e = event;
        let ghost basea0 = self.active_base.model();
        let ghost cur0 = self.current_state.model();
        let ghost merged = order::sorted_insert(act0, e);
        proof {
            order::lemma_sorted_insert(act0, e);
            order::lemma_insert_pos_properties(act0, e);
        }
        let alen = self.active.len();
        let pos = order::find_insert_pos(&self.active, &event);
        self.active.insert(pos, event.clone_event());
        proof {
            assert(self.active@ == merged);
        }
        let slen = self.secondary.len();
        if slen > 0 {
            let pl = alen - slen;
            if pos >= pl {
                let spos = order::find_insert_pos(&self.secondary, &event);
                proof {
                    assert forall|i: int| 0 <= i < pos - pl implies
                        #[trigger] sec0[i].key() <= e.key() by {
                        assert(sec0[i] == act0[pl + i]);
                    }
                    if pos - pl < sec0.len() {
                        assert(sec0[pos - pl] == act0[pos as int]);
                    }
                    order::lemma_insert_pos_unique(sec0, e, pos - pl);
                }
                self.secondary.insert(spos, event.clone_event());
                proof {
                    order::lemma_sorted_insert(sec0, e);
                    act0.insert_ensures(pos as int, e);
                    sec0.insert_ensures(pos - pl, e);
                    assert(self.secondary@ =~= self.active@.skip(pl as int));
                    assert(self.active@.take(pl as int) =~= act0.take(pl as int));
                }
            } else {
                proof {
                    act0.insert_ensures(pos as int, e);
                    assert(self.secondary@ =~= self.active@.skip(pl + 1));
                }
            }
        }
        // rebuild the current state by replaying the active log onto its
        // base, re-capturing the mirror's base as the replay passes the
        // mirror boundary
        let ghost newact = self.active@;
        let ghost newsec = self.secondary@;
        let ghost sb_old = self.secondary_base.model();
        let ghost caplen = newact.len() - newsec.len();
        proof {
            assert(newsec.len() <= newact.len());
        }
        let mut st = self.active_base.clone_state();
        proof {
            assert(newact.take(0) =~= Seq::<S::Event>::empty());
        }
        let mut j: usize = 0;
        while j < self.active.len()
            invariant
                self.active@ == newact,
                self.secondary@ == newsec,
                newsec.len() <= newact.len(),
                caplen == newact.len() - newsec.len(),
                self.active_base.model() == basea0,
                self.current_state.model() == cur0,
                st.model() == order::apply_seq::<S>(basea0, newact.take(j as int)),
                j <= newact.len(),
                newsec.len() > 0 && j > caplen
                    ==> self.secondary_base.model()
                        == order::apply_seq::<S>(basea0, newact.take(caplen)),
                (newsec.len() == 0 || j <= caplen)
                    ==> self.secondary_base.model() == sb_old,
            decreases newact.len() - j,
        {
            if self.secondary.len() > 0 && j == self.active.len() - self.secondary.len() {
                self.secondary_base = st.clone_state();
            }
            proof {
                assert(newact.take(j + 1) =~= newact.take(j as int).push(newact[j as int]));
                order::lemma_apply_seq_push::<S>(basea0, newact.take(j as int), newact[j as int]);
            }
            st.apply(&self.active[j]);
            j += 1;
        }
        self.current_state = st;
        proof {
            assert(newact.take(newact.len() as int) =~= newact);
            assert(self.current_state.model()
                == order::apply_seq::<S>(basea0, merged));
        }
    }

    /// Commits the current state as the active base, clears the active log,
    /// and swaps the roles of the two logs. When the mirror never started
    /// (the secondary log is empty), its base is refreshed to the current
    /// state first, so the incoming empty active log replays to the exposed
    /// state as required.
    fn swap_roles(&mut self)
        requires
            old(self).mid_ok(),
        ensures
            final(self).wf(),
            final(self).state_model() == old(self).state_model(),
            final(self).active_log() == old(self).secondary_log(),
            final(self).secondary_log() == Seq::<S::Event>::empty(),
            final(self).active_log().len() + SIZE / 2 <= SIZE + 1,
    {
        let ghost a1 = self.active@;
        let ghost s1 = self.secondary@;
        let ghost basea0 = self.active_base.model();
        let ghost sb1 = self.secondary_base.model();
        let ghost c1 = self.current_state.model();
        self.active_base = self.current_state.clone_state();
        self.active.clear();
        if self.secondary.is_empty() {
            self.secondary_base = self.current_state.clone_state();
        }
        core::mem::swap(&mut self.active, &mut self.secondary);
        core::mem::swap(&mut self.active_base, &mut self.secondary_base);
        proof {
            if s1.len() > 0 {
                let pl = a1.len() - s1.len();
                assert(a1.take(pl) + a1.skip(pl) =~= a1);
                order::lemma_apply_seq_concat::<S>(basea0, a1.take(pl), a1.skip(pl));
                assert(self.active_base.model() == sb1);
                assert(order::apply_seq::<S>(self.active_base.model(), self.active@) == c1);
            } else {
                assert(self.active@ =~= Seq::<S::Event>::empty());
                assert(order::apply_seq::<S>(self.active_base.model(), self.active@) == c1);
            }
            assert(self.secondary@ =~= Seq::<S::Event>::empty());
        }
    }
}

impl<S: State, const SIZE: usize> LagBuffer<S> for DoubleBufferedLagBuffer<S, SIZE> {
    open spec fn inv(&self) -> bool {
        self.wf()
    }

    open spec fn exposed_model(&self) -> S::Model {
        self.state_model()
    }

    fn update(&mut self, event: S::Event) {
        DoubleBufferedLagBuffer::update(self, event);
    }

    fn state(&self) -> (r: &S) {
        DoubleBufferedLagBuffer::state(self)
    }
}

} // verus!
