//! A small list-valued state with insert and replace events: the concrete
//! capability pair the tests drive the reconcilers with, and a template for
//! implementing the `State` and `Event` traits.

use vstd::prelude::*;
use crate::{Event, State};

verus! {

/// The effect of a `ListEvent` on the list.
#[derive(Clone, Copy, PartialEq, Eq, Debug)]
pub enum ListAction {
    /// Append the event's value to the end of the list.
    Insert,
    /// Overwrite the first occurrence of the event's target value, if any,
    /// with the event's value.
    Replace,
}

/// An event over `ListState`, ordered by its `id`.
#[derive(Clone, Copy, Debug)]
pub struct ListEvent {
    pub id: usize,
    pub value: i32,
    pub target: i32,
    pub action: ListAction,
}

impl Event for ListEvent {
    open spec fn key(&self) -> usize {
        self.id
    }

    fn get_order_key(&self) -> (k: usize) {
        self.id
    }

    fn clone_event(&self) -> (e: Self) {
        *self
    }
}

/// The first position of `x` in `m`, or `m.len()` when `x` is absent.
pub open spec fn position_of(m: Seq<i32>, x: i32) -> int
    decreases m.len(),
{
    if m.len() == 0 {
        0
    } else if m[0] == x {
        0
    } else {
        1 + position_of(m.skip(1), x)
    }
}

pub proof fn lemma_position_of_unique(m: Seq<i32>, x: i32, p: int)
    requires
        0 <= p <= m.len(),
        forall|i: int| 0 <= i < p ==> m[i] != x,
        p < m.len() ==> m[p] == x,
    ensures
        p == position_of(m, x),
    decreases m.len(),
{
    if m.len() == 0 {
    } else if m[0] == x {
        assert(p == 0) by {
            if p > 0 {
                assert(m[0] != x);
            }
        }
    } else {
        assert(p >= 1) by {
            if p == 0 {
                assert(m[0] == x);
            }
        }
        assert forall|i: int| 0 <= i < p - 1 implies m.skip(1)[i] != x by {
            assert(m.skip(1)[i] == m[i + 1]);
        }
        if p - 1 < m.len() - 1 {
            assert(m.skip(1)[p - 1] == m[p]);
        }
        lemma_position_of_unique(m.skip(1), x, p - 1);
    }
}

/// A state holding a list of values.
#[derive(PartialEq, Debug)]
pub struct ListState {
    pub data: Vec<i32>,
}

impl ListState {
    /// An empty list state.
    pub fn new() -> (s: Self)
        ensures
            s.model() == Seq::<i32>::empty(),
    {
        ListState { data: Vec::new() }
    }
}

impl State for ListState {
    type Event = ListEvent;

    type Model = Seq<i32>;

    open spec fn model(&self) -> Seq<i32> {
        self.data@
    }

    open spec fn apply_model(m: Seq<i32>, event: ListEvent) -> Seq<i32> {
        match event.action {
            ListAction::Insert => m.push(event.value),
            ListAction::Replace => {
                if position_of(m, event.target) < m.len() {
                    m.update(position_of(m, event.target), event.value)
                } else {
                    m
                }
            },
        }
    }

    fn apply(&mut self, event: &ListEvent) {
        match event.action {
            ListAction::Insert => {
                self.data.push(event.value);
            },
            ListAction::Replace => {
                let ghost d0 = self.data@;
                let n = self.data.len();
                let mut i: usize = 0;
                while i < n && self.data[i] != event.target
                    invariant
                        i <= n,
                        n == self.data@.len(),
                        self.data@ == d0,
                        forall|k: int| 0 <= k < i ==> d0[k] != event.target,
                    decreases n - i,
                {
                    i += 1;
                }
                proof {
                    lemma_position_of_unique(d0, event.target, i as int);
                }
                if i < n {
                    self.data.set(i, event.value);
                }
            },
        }
    }

    fn clone_state(&self) -> (s: Self) {
        let mut data: Vec<i32> = Vec::new();
        let mut i: usize = 0;
        while i < self.data.len()
            invariant
                i <= self.data@.len(),
                data@ == self.data@.take(i as int),
            decreases self.data@.len() - i,
        {
            let x = self.data[i];
            proof {
                assert(self.data@.take(i + 1) =~= self.data@.take(i as int).push(self.data@[i as int]));
            }
            data.push(x);
            i += 1;
        }
        proof {
            assert(self.data@.take(self.data@.len() as int) =~= self.data@);
        }
        ListState { data }
    }
}

} // verus!
