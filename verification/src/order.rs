//! Key ordering and replay: the spec-level vocabulary shared by all three
//! reconciliation strategies, and the lemmas that relate it.

use vstd::prelude::*;
use crate::{Event, State};

verus! {

/// The model obtained by applying the events of `events` to `m`, first to last.
pub open spec fn apply_seq<S: State>(m: S::Model, events: Seq<S::Event>) -> S::Model
    decreases events.len(),
{
    if events.len() == 0 {
        m
    } else {
        apply_seq::<S>(S::apply_model(m, events[0]), events.skip(1))
    }
}

/// The events of `s` stand in non-decreasing key order.
pub open spec fn sorted_by_key<E: Event>(s: Seq<E>) -> bool {
    forall|i: int, j: int|
        0 <= i <= j < s.len() ==> #[trigger] s[i].key() <= #[trigger] s[j].key()
}

/// The position at which `e` belongs in `s`: after every leading event whose
/// key is at most `e`'s, at the first whose key is strictly greater.
pub open spec fn insert_pos<E: Event>(s: Seq<E>, e: E) -> int
    decreases s.len(),
{
    if s.len() == 0 {
        0
    } else if s[0].key() > e.key() {
        0
    } else {
        1 + insert_pos(s.skip(1), e)
    }
}

/// `s` with `e` inserted at its key-sorted position.
pub open spec fn sorted_insert<E: Event>(s: Seq<E>, e: E) -> Seq<E> {
    s.insert(insert_pos(s, e), e)
}

pub proof fn lemma_insert_pos_properties<E: Event>(s: Seq<E>, e: E)
    ensures
        0 <= insert_pos(s, e) <= s.len(),
        forall|i: int| 0 <= i < insert_pos(s, e) ==> #[trigger] s[i].key() <= e.key(),
        insert_pos(s, e) < s.len() ==> s[insert_pos(s, e)].key() > e.key(),
    decreases s.len(),
{
    if s.len() == 0 {
    } else if s[0].key() > e.key() {
    } else {
        lemma_insert_pos_properties(s.skip(1), e);
        let p = insert_pos(s, e);
        assert forall|i: int| 0 <= i < p implies #[trigger] s[i].key() <= e.key() by {
            if i > 0 {
                assert(s.skip(1)[i - 1].key() <= e.key());
                assert(s.skip(1)[i - 1] == s[i]);
            }
        }
        if p < s.len() {
            assert(s.skip(1)[p - 1] == s[p]);
        }
    }
}

/// The characterization in `lemma_insert_pos_properties` picks out a unique
/// position, whether or not `s` is sorted.
pub proof fn lemma_insert_pos_unique<E: Event>(s: Seq<E>, e: E, p: int)
    requires
        0 <= p <= s.len(),
        forall|i: int| 0 <= i < p ==> #[trigger] s[i].key() <= e.key(),
        p < s.len() ==> s[p].key() > e.key(),
    ensures
        p == insert_pos(s, e),
    decreases s.len(),
{
    if s.len() == 0 {
    } else if s[0].key() > e.key() {
        assert(p == 0) by {
            if p > 0 {
                assert(s[0].key() <= e.key());
            }
        }
    } else {
        assert(p >= 1) by {
            if p == 0 {
                assert(s[0].key() > e.key());
            }
        }
        assert forall|i: int| 0 <= i < p - 1 implies #[trigger] s.skip(1)[i].key() <= e.key() by {
            assert(s.skip(1)[i] == s[i + 1]);
            assert(s[i + 1].key() <= e.key());
        }
        if p - 1 < s.len() - 1 {
            assert(s.skip(1)[p - 1] == s[p]);
        }
        lemma_insert_pos_unique(s.skip(1), e, p - 1);
    }
}

/// Inserting at the sorted position keeps the sequence sorted.
pub proof fn lemma_sorted_insert<E: Event>(s: Seq<E>, e: E)
    requires
        sorted_by_key(s),
    ensures
        sorted_by_key(sorted_insert(s, e)),
        sorted_insert(s, e).len() == s.len() + 1,
{
    lemma_insert_pos_properties(s, e);
    let p = insert_pos(s, e);
    let t = sorted_insert(s, e);
    s.insert_ensures(p, e);
    assert forall|i: int, j: int| 0 <= i <= j < t.len() implies
        #[trigger] t[i].key() <= #[trigger] t[j].key() by {
        let si = if i < p { s[i] } else if i == p { e } else { s[i - 1] };
        let sj = if j < p { s[j] } else if j == p { e } else { s[j - 1] };
        assert(t[i] == si);
        assert(t[j] == sj);
    }
}

/// An event whose key is not below any retained key belongs at the end.
pub proof fn lemma_insert_pos_at_end<E: Event>(s: Seq<E>, e: E)
    requires
        sorted_by_key(s),
        s.len() == 0 || s.last().key() <= e.key(),
    ensures
        insert_pos(s, e) == s.len(),
        sorted_insert(s, e) == s.push(e),
{
    assert forall|i: int| 0 <= i < s.len() implies #[trigger] s[i].key() <= e.key() by {
        assert(s[i].key() <= s[s.len() - 1].key());
    }
    lemma_insert_pos_unique(s, e, s.len() as int);
    s.insert_ensures(s.len() as int, e);
    assert(sorted_insert(s, e) =~= s.push(e));
}

/// Dropping a prefix keeps a sequence sorted.
pub proof fn lemma_sorted_skip<E: Event>(s: Seq<E>, k: int)
    requires
        sorted_by_key(s),
        0 <= k <= s.len(),
    ensures
        sorted_by_key(s.skip(k)),
{
    assert forall|i: int, j: int| 0 <= i <= j < s.skip(k).len() implies
        #[trigger] s.skip(k)[i].key() <= #[trigger] s.skip(k)[j].key() by {
        assert(s.skip(k)[i] == s[i + k]);
        assert(s.skip(k)[j] == s[j + k]);
        assert(s[i + k].key() <= s[j + k].key());
    }
}

/// Replaying a concatenation replays the two parts in turn.
pub proof fn lemma_apply_seq_concat<S: State>(m: S::Model, a: Seq<S::Event>, b: Seq<S::Event>)
    ensures
        apply_seq::<S>(m, a + b) == apply_seq::<S>(apply_seq::<S>(m, a), b),
    decreases a.len(),
{
    if a.len() == 0 {
        assert(a + b =~= b);
    } else {
        assert((a + b)[0] == a[0]);
        assert((a + b).skip(1) =~= a.skip(1) + b);
        lemma_apply_seq_concat::<S>(S::apply_model(m, a[0]), a.skip(1), b);
    }
}

/// Replaying one more event applies it to the replayed prefix.
pub proof fn lemma_apply_seq_push<S: State>(m: S::Model, s: Seq<S::Event>, e: S::Event)
    ensures
        apply_seq::<S>(m, s.push(e)) == S::apply_model(apply_seq::<S>(m, s), e),
{
    let single = seq![e];
    assert(s.push(e) =~= s + single);
    lemma_apply_seq_concat::<S>(m, s, single);
    let x = apply_seq::<S>(m, s);
    assert(single[0] == e);
    assert(single.skip(1) =~= Seq::<S::Event>::empty());
    assert(apply_seq::<S>(S::apply_model(x, e), single.skip(1)) == S::apply_model(x, e));
    assert(apply_seq::<S>(x, single) == S::apply_model(x, e));
}

/// In-order fast path law: when an event's key is not below any key in a
/// sorted log, appending it and applying it directly to the replayed state
/// agrees with merging it at its sorted position and replaying the whole log.
pub proof fn lemma_in_order_fast_path<S: State>(m: S::Model, log: Seq<S::Event>, e: S::Event)
    requires
        sorted_by_key(log),
        log.len() == 0 || log.last().key() <= e.key(),
    ensures
        apply_seq::<S>(m, sorted_insert(log, e))
            == S::apply_model(apply_seq::<S>(m, log), e),
{
    lemma_insert_pos_at_end::<S::Event>(log, e);
    lemma_apply_seq_push::<S>(m, log, e);
}

/// Returns the key-sorted insertion position of `e` in `v`, by binary search.
pub fn find_insert_pos<E: Event>(v: &Vec<E>, e: &E) -> (pos: usize)
    requires
        sorted_by_key(v@),
    ensures
        pos as int == insert_pos(v@, *e),
{
    let ek = e.get_order_key();
    let mut lo: usize = 0;
    let mut hi: usize = v.len();
    while lo < hi
        invariant
            lo <= hi <= v@.len(),
            sorted_by_key(v@),
            ek == e.key(),
            forall|i: int| 0 <= i < lo ==> #[trigger] v@[i].key() <= e.key(),
            forall|i: int| hi <= i < v@.len() ==> #[trigger] v@[i].key() > e.key(),
        decreases hi - lo,
    {
        let mid = lo + (hi - lo) / 2;
        if v[mid].get_order_key() <= ek {
            lo = mid + 1;
        } else {
            hi = mid;
        }
    }
    proof {
        lemma_insert_pos_unique(v@, *e, lo as int);
    }
    lo
}

} // verus!
