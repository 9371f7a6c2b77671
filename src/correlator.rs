//! Request ids and the table of requests that wait for a response.

use vstd::prelude::*;

verus! {

/// Outstanding requests: each id with the slot its response goes to.
/// Ids come from one counter that starts at 1 and only grows.
pub struct PendingRequests<S> {
    next_id: u64,
    slots: Vec<(u64, S)>,
}

impl<S> PendingRequests<S> {
    /// The id the next request gets.
    pub closed spec fn next_id(&self) -> u64 {
        self.next_id
    }

    /// The waiting requests, by id, with their slots.
    pub closed spec fn entries(&self) -> Seq<(u64, S)> {
        self.slots@
    }

    pub open spec fn is_pending(&self, id: u64) -> bool {
        exists|i: int| 0 <= i < self.entries().len() && (#[trigger] self.entries()[i]).0 == id
    }

    /// Every waiting id was handed out already, and none waits twice.
    pub open spec fn wf(&self) -> bool {
        &&& self.next_id() >= 1
        &&& forall|i: int| 0 <= i < self.entries().len() ==> 1 <= (#[trigger] self.entries()[i]).0 < self.next_id()
        &&& forall|i: int, j: int|
            0 <= i < self.entries().len() && 0 <= j < self.entries().len() && i != j
                ==> (#[trigger] self.entries()[i]).0 != (#[trigger] self.entries()[j]).0
    }

    pub fn new() -> (r: Self)
        ensures
            r.wf(),
            r.next_id() == 1,
            r.entries().len() == 0,
    {
        PendingRequests { next_id: 1, slots: Vec::new() }
    }

    /// Hands out the next id; `None` once the counter is spent.
    pub fn allocate_id(&mut self) -> (r: Option<u64>)
        requires
            old(self).wf(),
        ensures
            final(self).wf(),
            final(self).entries() == old(self).entries(),
            old(self).next_id() < u64::MAX ==> r == Some(old(self).next_id()) && final(self).next_id() == old(
                self,
            ).next_id() + 1,
            old(self).next_id() == u64::MAX ==> r is None && final(self).next_id() == old(self).next_id(),
    {
        if self.next_id == u64::MAX {
            return None;
        }
        let id = self.next_id;
        self.next_id = id + 1;
        assert(self.entries() == old(self).entries());
        assert forall|i: int| 0 <= i < self.entries().len() implies 1 <= (#[trigger] self.entries()[i]).0 < self.next_id() by {
            assert(self.entries()[i] == old(self).entries()[i]);
        }
        Some(id)
    }

    /// Waits for the response to `id` in `slot`.
    pub fn register(&mut self, id: u64, slot: S)
        requires
            old(self).wf(),
            1 <= id < old(self).next_id(),
            !old(self).is_pending(id),
        ensures
            final(self).wf(),
            final(self).next_id() == old(self).next_id(),
            final(self).entries() == old(self).entries().push((id, slot)),
    {
        self.slots.push((id, slot));
        proof {
            let o = old(self).entries();
            let s = self.entries();
            assert forall|a: int| 0 <= a < s.len() implies 1 <= (#[trigger] s[a]).0 < self.next_id() by {
                if a < o.len() {
                    assert(s[a] == o[a]);
                }
            }
            assert forall|a: int, b: int| 0 <= a < s.len() && 0 <= b < s.len() && a != b implies (#[trigger] s[a]).0 != (#[trigger] s[b]).0 by {
                if a < o.len() && b < o.len() {
                    assert(s[a] == o[a] && s[b] == o[b]);
                } else if a < o.len() {
                    assert(s[a] == o[a]);
                    assert(o[a].0 != id);
                } else {
                    assert(s[b] == o[b]);
                    assert(o[b].0 != id);
                }
            }
        }
    }

    /// Whether a response with `id` has a waiter.
    pub fn is_waiting(&self, id: u64) -> (r: bool)
        ensures
            r == self.is_pending(id),
    {
        let mut i: usize = 0;
        while i < self.slots.len()
            invariant
                i <= self.entries().len(),
                forall|j: int| 0 <= j < i ==> (#[trigger] self.entries()[j]).0 != id,
            decreases self.entries().len() - i,
        {
            if self.slots[i].0 == id {
                return true;
            }
            i += 1;
        }
        false
    }

    /// Takes out the slot that waits for `id`: the one registered under
    /// that id, or nothing when no request waits for it. Used both for a
    /// response and for a request that gave up.
    pub fn resolve(&mut self, id: u64) -> (r: Option<S>)
        requires
            old(self).wf(),
        ensures
            final(self).wf(),
            final(self).next_id() == old(self).next_id(),
            r is Some <==> old(self).is_pending(id),
            r matches Some(slot) ==> old(self).entries().contains((id, slot)),
            old(self).is_pending(id) ==> exists|i: int|
                0 <= i < old(self).entries().len() && (#[trigger] old(self).entries()[i]).0 == id && r == Some(
                    old(self).entries()[i].1,
                ) && final(self).entries() == old(self).entries().remove(i),
            !old(self).is_pending(id) ==> final(self).entries() == old(self).entries(),
            !final(self).is_pending(id),
            forall|other: u64| other != id ==> (final(self).is_pending(other) <==> old(self).is_pending(other)),
    {
        let mut i: usize = 0;
        while i < self.slots.len()
            invariant
                self.wf(),
                *self == *old(self),
                i <= self.entries().len(),
                forall|j: int| 0 <= j < i ==> (#[trigger] self.entries()[j]).0 != id,
            decreases self.entries().len() - i,
        {
            if self.slots[i].0 == id {
                let ghost o = self.slots@;
                let (_, slot) = self.slots.remove(i);
                proof {
                    assert(o[i as int] == (id, slot));
                    assert(self.slots@ == o.remove(i as int));
                    assert(o.contains((id, slot)));
                    let s = self.slots@;
                    assert forall|j: int| 0 <= j < s.len() implies (#[trigger] s[j]).0 != id by {
                        let oj = if j < i { j } else { j + 1 };
                        assert(s[j] == o[oj]);
                    }
                    assert forall|other: u64| other != id implies (self.is_pending(other) <==> old(self).is_pending(other)) by {
                        if old(self).is_pending(other) {
                            let j = choose|j: int| 0 <= j < o.len() && (#[trigger] o[j]).0 == other;
                            let sj = if j < i { j } else { j - 1 };
                            assert(j != i);
                            assert(s[sj] == o[j]);
                        }
                        if self.is_pending(other) {
                            let j = choose|j: int| 0 <= j < s.len() && (#[trigger] s[j]).0 == other;
                            let oj = if j < i { j } else { j + 1 };
                            assert(s[j] == o[oj]);
                        }
                    }
                    assert forall|a: int, b: int| 0 <= a < s.len() && 0 <= b < s.len() && a != b implies (#[trigger] s[a]).0 != (#[trigger] s[b]).0 by {
                        let oa = if a < i { a } else { a + 1 };
                        let ob = if b < i { b } else { b + 1 };
                        assert(s[a] == o[oa]);
                        assert(s[b] == o[ob]);
                    }
                    assert forall|a: int| 0 <= a < s.len() implies 1 <= (#[trigger] s[a]).0 < self.next_id() by {
                        let oa = if a < i { a } else { a + 1 };
                        assert(s[a] == o[oa]);
                    }
                }
                return Some(slot);
            }
            i += 1;
        }
        None
    }

    /// Forgets every waiting request; the counter goes on.
    pub fn clear(&mut self)
        requires
            old(self).wf(),
        ensures
            final(self).wf(),
            final(self).next_id() == old(self).next_id(),
            final(self).entries().len() == 0,
    {
        self.slots = Vec::new();
    }
}

/// The id about to be handed out waits for nothing, and every waiting id
/// is smaller; as the counter only grows, no two requests share an id.
pub proof fn lemma_fresh_id<S>(p: PendingRequests<S>)
    requires
        p.wf(),
    ensures
        !p.is_pending(p.next_id()),
        forall|id: u64| #[trigger] p.is_pending(id) ==> 1 <= id < p.next_id(),
{
}

/// Taking out the request at position `i` (what `resolve` does for the id
/// found there) leaves every other waiting request with the slot it
/// registered: a response, or a late one for a request that gave up,
/// reaches only the waiter of its own id.
pub proof fn lemma_resolve_keeps_others<S>(p: PendingRequests<S>, i: int, other: u64, slot: S)
    requires
        p.wf(),
        0 <= i < p.entries().len(),
        p.entries().contains((other, slot)),
        other != p.entries()[i].0,
    ensures
        p.entries().remove(i).contains((other, slot)),
{
    let e = p.entries();
    let j = choose|j: int| 0 <= j < e.len() && e[j] == (other, slot);
    let k = if j < i { j } else { j - 1 };
    assert(j != i);
    assert(e.remove(i)[k] == e[j]);
}

} // verus!
