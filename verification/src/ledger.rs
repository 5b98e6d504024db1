//! The Position Ledger: the last recorded position of each chain member.
//!
//! Followers chase the position their predecessor had when the ledger was
//! last refreshed, not its live position. Looking up an identity that was
//! never recorded yields `None`; callers skip that member for the tick.

use crate::vec2::Vec2i;
use std::collections::HashMap;
use vstd::prelude::*;

verus! {

broadcast use vstd::std_specs::hash::group_hash_axioms;

/// Identity-to-position snapshot map.
pub struct PositionLedger {
    map: HashMap<u64, Vec2i>,
}

impl View for PositionLedger {
    type V = Map<u64, Vec2i>;

    closed spec fn view(&self) -> Map<u64, Vec2i> {
        self.map@
    }
}

impl PositionLedger {
    /// An empty ledger: nothing recorded yet.
    pub fn new() -> (r: PositionLedger)
        ensures
            r@ == Map::<u64, Vec2i>::empty(),
    {
        PositionLedger { map: HashMap::new() }
    }

    /// Record (or overwrite) the position of `id`.
    pub fn record(&mut self, id: u64, pos: Vec2i)
        ensures
            final(self)@ == old(self)@.insert(id, pos),
    {
        self.map.insert(id, pos);
    }

    /// The last recorded position of `id`, or `None` if it was never
    /// recorded (or was pruned).
    pub fn get(&self, id: u64) -> (r: Option<Vec2i>)
        ensures
            match r {
                Some(p) => self@.contains_key(id) && p == self@[id],
                None => !self@.contains_key(id),
            },
    {
        match self.map.get(&id) {
            Some(p) => Some(*p),
            None => None,
        }
    }

    pub fn contains_id(&self, id: u64) -> (r: bool)
        ensures
            r == self@.contains_key(id),
    {
        self.map.contains_key(&id)
    }

    /// Prune the entry for `id`, if any.
    pub fn remove_id(&mut self, id: u64)
        ensures
            final(self)@ == old(self)@.remove(id),
    {
        self.map.remove(&id);
    }
}

} // verus!
