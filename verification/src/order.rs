//! The Follow Order: an ordered sequence of member identities, leader first.
//!
//! Joins are append-only, so the order of the sequence is the order in which
//! members attached. Removing a member closes the gap: everyone behind it
//! moves up one place and keeps its relative order.

use vstd::prelude::*;

verus! {

/// The identity at the position just ahead of `id` in `s`.
pub open spec fn pred_in(s: Seq<u64>, id: u64) -> u64 {
    s[s.index_of(id) - 1]
}

/// What one attach does to the order: appends `id` if absent, else nothing.
pub open spec fn attached(order: Seq<u64>, id: u64) -> Seq<u64> {
    if order.contains(id) {
        order
    } else {
        order.push(id)
    }
}

/// The ordered chain of member identities.
pub struct FollowOrder {
    entries: Vec<u64>,
}

impl View for FollowOrder {
    type V = Seq<u64>;

    closed spec fn view(&self) -> Seq<u64> {
        self.entries@
    }
}

impl FollowOrder {
    /// No identity appears twice.
    pub open spec fn wf(&self) -> bool {
        self@.no_duplicates()
    }

    /// An empty order.
    pub fn new() -> (r: FollowOrder)
        ensures
            r@ == Seq::<u64>::empty(),
            r.wf(),
    {
        FollowOrder { entries: Vec::new() }
    }

    pub fn len(&self) -> (r: usize)
        ensures
            r == self@.len(),
    {
        self.entries.len()
    }

    /// The identity at index `i`.
    pub fn at(&self, i: usize) -> (r: u64)
        requires
            i < self@.len(),
        ensures
            r == self@[i as int],
    {
        self.entries[i]
    }

    /// The index of `id`, by linear search.
    pub fn position_of(&self, id: u64) -> (r: Option<usize>)
        ensures
            match r {
                Some(i) => i < self@.len() && self@[i as int] == id && forall|j: int|
                    0 <= j < i ==> self@[j] != id,
                None => !self@.contains(id),
            },
    {
        let n = self.entries.len();
        let mut i: usize = 0;
        while i < n
            invariant
                i <= n,
                n == self@.len(),
                forall|j: int| 0 <= j < i ==> self@[j] != id,
            decreases n - i,
        {
            if self.entries[i] == id {
                return Some(i);
            }
            i = i + 1;
        }
        None
    }

    pub fn contains_id(&self, id: u64) -> (r: bool)
        ensures
            r == self@.contains(id),
    {
        self.position_of(id).is_some()
    }

    /// Put the leader at index 0 of an empty order; on a non-empty order this
    /// does nothing, so repeated calls insert the leader exactly once.
    pub fn ensure_leader_present(&mut self, leader: u64)
        requires
            old(self).wf(),
        ensures
            final(self).wf(),
            old(self)@.len() == 0 ==> final(self)@ == seq![leader],
            old(self)@.len() > 0 ==> final(self)@ == old(self)@,
    {
        if self.entries.len() == 0 {
            self.entries.push(leader);
            assert(self@ =~= seq![leader]);
        }
    }

    /// Append `id` at the back if it is absent; no-op if already present.
    pub fn ensure_member_present(&mut self, id: u64)
        requires
            old(self).wf(),
        ensures
            final(self).wf(),
            final(self)@ == attached(old(self)@, id),
            old(self)@.contains(id) ==> final(self)@ == old(self)@,
            !old(self)@.contains(id) ==> final(self)@ == old(self)@.push(id),
    {
        if !self.contains_id(id) {
            self.entries.push(id);
        }
    }

    /// The member directly ahead of `id`. The leader, at index 0, has no
    /// predecessor, so asking for it is a contract breach, not a runtime case.
    pub fn predecessor_of(&self, id: u64) -> (r: u64)
        requires
            self.wf(),
            self@.contains(id),
            self@[0] != id,
        ensures
            r == pred_in(self@, id),
            exists|i: int|
                1 <= i < self@.len() && #[trigger] self@[i] == id && r == self@[i - 1],
    {
        let i = match self.position_of(id) {
            Some(i) => i,
            None => {
                proof {
                    assert(false);
                }
                0
            },
        };
        proof {
            lemma_index_of_distinct(self@, id, i as int);
        }
        self.entries[i - 1]
    }

    /// Delete `id`, closing the gap; everyone behind it keeps its relative
    /// order. No-op if `id` is absent.
    pub fn remove_id(&mut self, id: u64)
        requires
            old(self).wf(),
        ensures
            final(self).wf(),
            !old(self)@.contains(id) ==> final(self)@ == old(self)@,
            old(self)@.contains(id) ==> final(self)@ == old(self)@.remove(
                old(self)@.index_of(id),
            ),
    {
        match self.position_of(id) {
            Some(i) => {
                proof {
                    lemma_index_of_distinct(self@, id, i as int);
                    lemma_remove_keeps_distinct(self@, i as int);
                }
                self.entries.remove(i);
            },
            None => {},
        }
    }
}

/// Removing an entry from a duplicate-free sequence leaves it duplicate-free.
pub proof fn lemma_remove_keeps_distinct(s: Seq<u64>, i: int)
    requires
        s.no_duplicates(),
        0 <= i < s.len(),
    ensures
        s.remove(i).no_duplicates(),
{
    s.remove_ensures(i);
    let r = s.remove(i);
    assert forall|a: int, b: int|
        0 <= a < r.len() && 0 <= b < r.len() && a != b implies r[a] != r[b] by {
        let sa = if a < i { a } else { a + 1 };
        let sb = if b < i { b } else { b + 1 };
        assert(r[a] == s[sa]);
        assert(r[b] == s[sb]);
    }
}

/// In a duplicate-free sequence, any index holding `id` is `index_of(id)`.
pub proof fn lemma_index_of_distinct(s: Seq<u64>, id: u64, i: int)
    requires
        s.no_duplicates(),
        0 <= i < s.len(),
        s[i] == id,
    ensures
        s.index_of(id) == i,
{
    assert(s.contains(id));
    let k = s.index_of(id);
    assert(0 <= k < s.len() && s[k] == id);
}

} // verus!
