//! The chain engine: an arena of member records indexed by identity, with
//! the Follow Order and the Position Ledger as indices over it.
//!
//! Spawn and throw requests are queued and drained once per tick, so
//! structural changes are applied deterministically relative to the update
//! pass. A tick: detach throws (pruning Follow Order and ledger before any
//! position is read), attach queued spawns at the leader's position, refresh
//! the ledger for every chain member, then run the update pass in which each
//! follower chases its predecessor's recorded position.
//!
//! The ledger is refreshed on every tick, so a follower always chases a
//! target exactly one tick old. That lag is a tunable of the design, not a
//! law: a caller wanting a longer, springier lag can simply tick less often
//! than it moves the leader, since `set_leader_position` and `tick` are
//! separate calls.

use crate::ledger::PositionLedger;
use crate::order::FollowOrder;
use crate::vec2::{
    dist2, in_bounds, lemma_sq_bound, nudged, valid_weight, Vec2i, PADDING_LIMIT,
};
use std::collections::HashMap;
use vstd::prelude::*;

verus! {

broadcast use vstd::std_specs::hash::group_hash_axioms;

/// Default follow weight: each update closes four hundredths of the gap.
pub const FOLLOW_WEIGHT_NUM: u64 = 1;

pub const FOLLOW_WEIGHT_DEN: u64 = 25;

/// Default padding threshold: a follower closer than this to its target
/// stays at rest.
pub const PADDING_THRESHOLD: i64 = 20;

/// The identity the engine gives the leader.
pub const LEADER_IDENTITY: u64 = 0;

/// One member's record in the arena: its position, and whether it is still
/// part of the chain. A detached (thrown) member keeps its record, but the
/// engine never moves it again.
#[derive(Clone, Copy, PartialEq, Eq, Structural, Debug)]
pub struct MemberState {
    pub position: Vec2i,
    pub following: bool,
}

/// The engine's full state, as contracts see it.
pub ghost struct ChainView {
    pub leader: u64,
    pub leader_pos: Vec2i,
    pub members: Map<u64, MemberState>,
    pub order: Seq<u64>,
    pub ledger: Map<u64, Vec2i>,
    pub weight_num: u64,
    pub weight_den: u64,
    pub padding: i64,
    pub next_identity: u64,
    pub spawn_queue: Seq<u64>,
    pub throw_requests: u64,
}

impl ChainView {
    /// The engine's invariant.
    ///
    /// The leader heads the Follow Order and owns no arena record; every
    /// other order entry is an arena member, and an arena member is in the
    /// order exactly while it is still following. The ledger only records
    /// chain members. Identities never repeat, and all positions are in
    /// bounds so the chase arithmetic cannot overflow.
    pub open spec fn wf(self) -> bool {
        &&& 1 <= self.order.len()
        &&& self.order[0] == self.leader
        &&& self.order.no_duplicates()
        &&& !self.members.contains_key(self.leader)
        &&& forall|i: int|
            1 <= i < self.order.len() ==> self.members.contains_key(#[trigger] self.order[i])
        &&& forall|id: u64| #[trigger]
            self.members.contains_key(id) ==> {
                &&& (self.members[id].following <==> self.order.contains(id))
                &&& in_bounds(self.members[id].position)
                &&& id < self.next_identity
            }
        &&& self.leader < self.next_identity
        &&& in_bounds(self.leader_pos)
        &&& forall|id: u64| #[trigger]
            self.ledger.contains_key(id) ==> self.order.contains(id) && in_bounds(self.ledger[id])
        &&& self.spawn_queue.no_duplicates()
        &&& forall|j: int|
            0 <= j < self.spawn_queue.len() ==> {
                &&& !self.members.contains_key(#[trigger] self.spawn_queue[j])
                &&& self.spawn_queue[j] != self.leader
                &&& !self.order.contains(self.spawn_queue[j])
                &&& self.spawn_queue[j] < self.next_identity
            }
        &&& valid_weight(self.weight_num, self.weight_den)
        &&& 0 <= self.padding <= PADDING_LIMIT
    }
}

/// How many queued throws can actually detach someone: one each, and never
/// the leader.
pub open spec fn throws_applied_count(v: ChainView) -> int {
    if v.throw_requests as int <= v.order.len() - 1 {
        v.throw_requests as int
    } else {
        v.order.len() - 1
    }
}

/// The identities the queued throws detach: the followers nearest the front
/// of the Follow Order, in order.
pub open spec fn thrown_ids(v: ChainView) -> Seq<u64> {
    v.order.subrange(1, 1 + throws_applied_count(v))
}

/// The arena after detaching `thrown`: their `following` flags drop to
/// false; nobody's position changes.
pub open spec fn detached_members(members: Map<u64, MemberState>, thrown: Seq<u64>) -> Map<
    u64,
    MemberState,
> {
    Map::new(
        |id: u64| members.contains_key(id),
        |id: u64|
            if thrown.contains(id) {
                MemberState { position: members[id].position, following: false }
            } else {
                members[id]
            },
    )
}

/// The state after draining the throw queue: the detached members leave the
/// Follow Order (the gap closes) and the ledger, and are marked no longer
/// following.
pub open spec fn after_throws(v: ChainView) -> ChainView {
    let t = throws_applied_count(v);
    ChainView {
        order: v.order.take(1) + v.order.skip(1 + t),
        members: detached_members(v.members, thrown_ids(v)),
        ledger: v.ledger.remove_keys(thrown_ids(v).to_set()),
        throw_requests: 0,
        ..v
    }
}

/// The arena after the queued spawns join, each at the leader's current
/// position, marked following.
pub open spec fn spawned_members(v: ChainView) -> Map<u64, MemberState> {
    Map::new(
        |id: u64| v.members.contains_key(id) || v.spawn_queue.contains(id),
        |id: u64|
            if v.spawn_queue.contains(id) {
                MemberState { position: v.leader_pos, following: true }
            } else {
                v.members[id]
            },
    )
}

/// The state after draining the spawn queue: the new members are appended
/// to the Follow Order in request order.
pub open spec fn after_spawns(v: ChainView) -> ChainView {
    ChainView {
        members: spawned_members(v),
        order: v.order + v.spawn_queue,
        spawn_queue: Seq::<u64>::empty(),
        ..v
    }
}

/// The ledger after a refresh: exactly the chain members, each at the
/// position it holds when the refresh runs.
pub open spec fn refreshed_ledger(v: ChainView) -> Map<u64, Vec2i> {
    Map::new(
        |id: u64| v.order.contains(id),
        |id: u64|
            if id == v.leader {
                v.leader_pos
            } else {
                v.members[id].position
            },
    )
}

/// The state after the per-tick ledger refresh.
pub open spec fn after_refresh(v: ChainView) -> ChainView {
    ChainView { ledger: refreshed_ledger(v), ..v }
}

/// Where one chase step leaves a follower at `p` with target `target`:
/// at rest if it is already within the padding threshold, else nudged the
/// follow-weight fraction of the way in.
pub open spec fn chased(p: Vec2i, target: Vec2i, num: u64, den: u64, padding: i64) -> Vec2i {
    if dist2(p, target) < padding * padding {
        p
    } else {
        nudged(p, target, num as int, den as int)
    }
}

/// The position the follower at order index `i` holds after the update
/// pass of state `v`: it chases its predecessor's recorded position, and
/// stays put if the predecessor was never recorded.
pub open spec fn pass_position(v: ChainView, i: int) -> Vec2i {
    let id = v.order[i];
    let pred = v.order[i - 1];
    if !v.ledger.contains_key(pred) {
        v.members[id].position
    } else {
        chased(v.members[id].position, v.ledger[pred], v.weight_num, v.weight_den, v.padding)
    }
}

/// The arena after the update pass: every follower in the Follow Order has
/// moved to its `pass_position`; detached members are untouched.
pub open spec fn passed_members(v: ChainView) -> Map<u64, MemberState> {
    Map::new(
        |id: u64| v.members.contains_key(id),
        |id: u64|
            if v.order.contains(id) && id != v.leader {
                MemberState {
                    position: pass_position(v, v.order.index_of(id)),
                    following: v.members[id].following,
                }
            } else {
                v.members[id]
            },
    )
}

/// The state after the update pass.
pub open spec fn after_pass(v: ChainView) -> ChainView {
    ChainView { members: passed_members(v), ..v }
}

/// One whole tick: detach queued throws, attach queued spawns, refresh the
/// ledger, then run the update pass.
pub open spec fn after_tick(v: ChainView) -> ChainView {
    after_pass(after_refresh(after_spawns(after_throws(v))))
}

/// The follower-chain engine.
pub struct ChainEngine {
    leader: u64,
    leader_pos: Vec2i,
    members: HashMap<u64, MemberState>,
    order: FollowOrder,
    ledger: PositionLedger,
    weight_num: u64,
    weight_den: u64,
    padding: i64,
    next_identity: u64,
    spawn_queue: Vec<u64>,
    throw_requests: u64,
}

impl View for ChainEngine {
    type V = ChainView;

    closed spec fn view(&self) -> ChainView {
        ChainView {
            leader: self.leader,
            leader_pos: self.leader_pos,
            members: self.members@,
            order: self.order@,
            ledger: self.ledger@,
            weight_num: self.weight_num,
            weight_den: self.weight_den,
            padding: self.padding,
            next_identity: self.next_identity,
            spawn_queue: self.spawn_queue@,
            throw_requests: self.throw_requests,
        }
    }
}

impl ChainEngine {
    /// A fresh engine: the leader alone, at `leader_pos`, nothing recorded
    /// yet, no requests pending.
    pub fn new(leader_pos: Vec2i, weight_num: u64, weight_den: u64, padding: i64) -> (r:
        ChainEngine)
        requires
            in_bounds(leader_pos),
            valid_weight(weight_num, weight_den),
            0 <= padding <= PADDING_LIMIT,
        ensures
            r@.wf(),
            r@.leader == LEADER_IDENTITY,
            r@.leader_pos == leader_pos,
            r@.members == Map::<u64, MemberState>::empty(),
            r@.order == seq![LEADER_IDENTITY],
            r@.ledger == Map::<u64, Vec2i>::empty(),
            r@.weight_num == weight_num,
            r@.weight_den == weight_den,
            r@.padding == padding,
            r@.spawn_queue == Seq::<u64>::empty(),
            r@.throw_requests == 0,
    {
        let mut order = FollowOrder::new();
        order.ensure_leader_present(LEADER_IDENTITY);
        ChainEngine {
            leader: LEADER_IDENTITY,
            leader_pos,
            members: HashMap::new(),
            order,
            ledger: PositionLedger::new(),
            weight_num,
            weight_den,
            padding,
            next_identity: LEADER_IDENTITY + 1,
            spawn_queue: Vec::new(),
            throw_requests: 0,
        }
    }

    /// Queue one spawn request; the follower joins the chain on the next
    /// tick. Returns the identity the new member will carry.
    pub fn queue_spawn(&mut self) -> (id: u64)
        requires
            old(self)@.wf(),
            old(self)@.next_identity < u64::MAX,
        ensures
            final(self)@.wf(),
            id == old(self)@.next_identity,
            final(self)@ == (ChainView {
                spawn_queue: old(self)@.spawn_queue.push(id),
                next_identity: (old(self)@.next_identity + 1) as u64,
                ..old(self)@
            }),
    {
        let id = self.next_identity;
        self.next_identity = self.next_identity + 1;
        self.spawn_queue.push(id);
        id
    }

    /// Queue one throw request; the next tick detaches the follower nearest
    /// the front of the chain, if any.
    pub fn queue_throw(&mut self)
        requires
            old(self)@.wf(),
            old(self)@.throw_requests < u64::MAX,
        ensures
            final(self)@.wf(),
            final(self)@ == (ChainView {
                throw_requests: (old(self)@.throw_requests + 1) as u64,
                ..old(self)@
            }),
    {
        self.throw_requests = self.throw_requests + 1;
    }

    /// The movement collaborator reports where the leader is now.
    pub fn set_leader_position(&mut self, p: Vec2i)
        requires
            old(self)@.wf(),
            in_bounds(p),
        ensures
            final(self)@.wf(),
            final(self)@ == (ChainView { leader_pos: p, ..old(self)@ }),
    {
        self.leader_pos = p;
    }

    /// Drain the throw queue. Each request detaches the follower nearest
    /// the front of the Follow Order that is still following; with every
    /// order entry past the leader following, that is the entry at index 1.
    /// Detaching prunes the member from the order and the ledger in the
    /// same step, so the update pass never reads a stale predecessor.
    fn apply_throws(&mut self) -> (thrown: Vec<u64>)
        requires
            old(self)@.wf(),
        ensures
            final(self)@.wf(),
            final(self)@ == after_throws(old(self)@),
            thrown@ == thrown_ids(old(self)@),
    {
        let ghost v0 = self@;
        let mut thrown: Vec<u64> = Vec::new();
        let len = self.order.len();
        let avail: u64 = (len - 1) as u64;
        let t: u64 = if self.throw_requests <= avail {
            self.throw_requests
        } else {
            avail
        };
        assert(t as int == throws_applied_count(v0));
        let mut k: u64 = 0;
        while k < t
            invariant
                v0.wf(),
                0 <= k <= t,
                t as int == throws_applied_count(v0),
                self@.wf(),
                self@.order == v0.order.take(1) + v0.order.skip(1 + k),
                thrown@ == v0.order.subrange(1, 1 + k as int),
                forall|id: u64|
                    self@.members.contains_key(id) == v0.members.contains_key(id),
                forall|id: u64| #[trigger]
                    v0.members.contains_key(id) ==> self@.members[id] == (if v0.order.subrange(
                        1,
                        1 + k as int,
                    ).contains(id) {
                        MemberState { position: v0.members[id].position, following: false }
                    } else {
                        v0.members[id]
                    }),
                forall|id: u64|
                    self@.ledger.contains_key(id) == (v0.ledger.contains_key(id)
                        && !v0.order.subrange(1, 1 + k as int).contains(id)),
                forall|id: u64| #[trigger]
                    self@.ledger.contains_key(id) ==> self@.ledger[id] == v0.ledger[id],
                self@.leader == v0.leader,
                self@.leader_pos == v0.leader_pos,
                self@.weight_num == v0.weight_num,
                self@.weight_den == v0.weight_den,
                self@.padding == v0.padding,
                self@.next_identity == v0.next_identity,
                self@.spawn_queue == v0.spawn_queue,
                self@.throw_requests == v0.throw_requests,
            decreases t - k,
        {
            let ghost pre = self@;
            assert(self@.order.len() == 1 + (v0.order.len() - 1 - k));
            let id = self.order.at(1);
            assert(id == v0.order[1 + k]);
            assert(self@.members.contains_key(id));
            let m = match self.members.get(&id) {
                Some(m) => *m,
                None => {
                    proof {
                        assert(false);
                    }
                    MemberState { position: self.leader_pos, following: false }
                },
            };
            self.members.insert(id, MemberState { position: m.position, following: false });
            self.order.remove_id(id);
            self.ledger.remove_id(id);
            thrown.push(id);
            proof {
                crate::order::lemma_index_of_distinct(pre.order, id, 1);
                assert(self@.order =~= v0.order.take(1) + v0.order.skip(1 + k + 1)) by {
                    pre.order.remove_ensures(1);
                }
                assert(thrown@ =~= v0.order.subrange(1, 1 + (k + 1)));
                assert forall|id2: u64| #[trigger] v0.members.contains_key(id2) implies self@.members[id2]
                    == (if v0.order.subrange(1, 1 + (k + 1)).contains(id2) {
                    MemberState { position: v0.members[id2].position, following: false }
                } else {
                    v0.members[id2]
                }) by {
                    let sub = v0.order.subrange(1, 1 + (k + 1));
                    if id2 == id {
                        assert(sub[k as int] == id);
                        assert(sub.contains(id2));
                    } else {
                        assert(v0.order.subrange(1, 1 + (k + 1)).contains(id2)
                            == v0.order.subrange(1, 1 + k as int).contains(id2)) by {
                            let s1 = v0.order.subrange(1, 1 + k as int);
                            let s2 = v0.order.subrange(1, 1 + (k + 1));
                            assert(s1 =~= s2.take(k as int));
                            if s1.contains(id2) {
                                let w = choose|j: int| 0 <= j < s1.len() && s1[j] == id2;
                                assert(s2[w] == id2);
                            }
                            if s2.contains(id2) {
                                let w = choose|j: int| 0 <= j < s2.len() && s2[j] == id2;
                                assert(w < k || s2[k as int] == id2);
                                if w < k {
                                    assert(s1[w] == id2);
                                }
                            }
                        }
                    }
                }
                assert forall|id2: u64| self@.ledger.contains_key(id2) == (v0.ledger.contains_key(
                    id2,
                ) && !v0.order.subrange(1, 1 + (k + 1)).contains(id2)) by {
                    let had_pre = pre.ledger.contains_key(id2);
                    let had_v0 = v0.ledger.contains_key(id2);
                    let s2 = v0.order.subrange(1, 1 + (k + 1));
                    let s1 = v0.order.subrange(1, 1 + k as int);
                    assert(s1 =~= s2.take(k as int));
                    assert(s2[k as int] == id);
                    if s2.contains(id2) && id2 != id {
                        let w = choose|j: int| 0 <= j < s2.len() && s2[j] == id2;
                        assert(w != k);
                        if w < k {
                            assert(s1[w] == id2);
                        }
                    }
                    if s1.contains(id2) {
                        let w = choose|j: int| 0 <= j < s1.len() && s1[j] == id2;
                        assert(s2[w] == id2);
                    }
                }
                assert forall|id2: u64| #[trigger]
                    self@.ledger.contains_key(id2) implies self@.ledger[id2] == v0.ledger[id2] by {
                    assert(pre.ledger.contains_key(id2));
                }
                // the engine invariant after this detachment
                assert(self@.wf()) by {
                    let cur = self@;
                    assert forall|i: int| 1 <= i < cur.order.len() implies cur.members.contains_key(
                        #[trigger] cur.order[i],
                    ) by {
                        assert(cur.order[i] == v0.order[1 + k + i]);
                    }
                    assert forall|id2: u64| #[trigger]
                        cur.members.contains_key(id2) implies (cur.members[id2].following
                        <==> cur.order.contains(id2)) && in_bounds(cur.members[id2].position)
                        && id2 < cur.next_identity by {
                        if cur.order.contains(id2) {
                            let w = choose|j: int| 0 <= j < cur.order.len() && cur.order[j] == id2;
                            if w == 0 {
                                assert(false);
                            }
                            assert(v0.order[1 + k + w] == id2);
                            assert(v0.order.contains(id2));
                            assert(!v0.order.subrange(1, 1 + (k + 1)).contains(id2)) by {
                                let s2 = v0.order.subrange(1, 1 + (k + 1));
                                if s2.contains(id2) {
                                    let u = choose|j: int| 0 <= j < s2.len() && s2[j] == id2;
                                    assert(v0.order[1 + u] == id2);
                                    assert(1 + u != 1 + k + w);
                                    assert(false);
                                }
                            }
                        } else {
                            if v0.order.contains(id2) {
                                let w = choose|j: int|
                                    0 <= j < v0.order.len() && v0.order[j] == id2;
                                if w == 0 {
                                    assert(id2 == v0.leader);
                                    assert(false);
                                }
                                if w <= k + 1 {
                                    assert(v0.order.subrange(1, 1 + (k + 1))[w - 1] == id2);
                                } else {
                                    assert(cur.order == v0.order.take(1) + v0.order.skip(
                                        1 + k + 1,
                                    ));
                                    assert(cur.order[w - k - 1] == v0.order[w]);
                                    assert(cur.order.contains(id2));
                                    assert(false);
                                }
                            }
                        }
                    }
                    assert forall|id2: u64| #[trigger]
                        cur.ledger.contains_key(id2) implies cur.order.contains(id2) && in_bounds(
                        cur.ledger[id2],
                    ) by {
                        assert(v0.ledger.contains_key(id2));
                        assert(v0.order.contains(id2));
                        let w = choose|j: int| 0 <= j < v0.order.len() && v0.order[j] == id2;
                        if w == 0 {
                            assert(cur.order[0] == id2);
                        } else if w <= k + 1 {
                            assert(v0.order.subrange(1, 1 + (k + 1))[w - 1] == id2);
                            assert(false);
                        } else {
                            assert(cur.order[w - k - 1] == v0.order[w]) by {
                                assert(cur.order == v0.order.take(1) + v0.order.skip(1 + k + 1));
                            }
                            assert(cur.order.contains(id2));
                        }
                    }
                    assert forall|j: int| 0 <= j < cur.spawn_queue.len() implies {
                        &&& !cur.members.contains_key(#[trigger] cur.spawn_queue[j])
                        &&& cur.spawn_queue[j] != cur.leader
                        &&& !cur.order.contains(cur.spawn_queue[j])
                        &&& cur.spawn_queue[j] < cur.next_identity
                    } by {
                        assert(!v0.members.contains_key(v0.spawn_queue[j]));
                        if cur.order.contains(cur.spawn_queue[j]) {
                            let w = choose|i: int|
                                0 <= i < cur.order.len() && cur.order[i] == cur.spawn_queue[j];
                            if w == 0 {
                                assert(false);
                            } else {
                                assert(cur.members.contains_key(cur.order[w]));
                                assert(false);
                            }
                        }
                    }
                }
            }
            k = k + 1;
        }
        self.throw_requests = 0;
        proof {
            let fin = after_throws(v0);
            assert(thrown@ == thrown_ids(v0));
            assert(self@.order == fin.order);
            assert forall|id: u64|
                self@.members.contains_key(id) == fin.members.contains_key(id) by {
                let b = v0.members.contains_key(id);
            }
            assert forall|id: u64| #[trigger]
                self@.members.contains_key(id) implies self@.members[id] == fin.members[id] by {
                assert(v0.members.contains_key(id));
                assert(self@.members[id] == (if v0.order.subrange(1, 1 + t as int).contains(id) {
                    MemberState { position: v0.members[id].position, following: false }
                } else {
                    v0.members[id]
                }));
                assert(thrown_ids(v0).contains(id) == v0.order.subrange(1, 1 + t as int).contains(
                    id,
                ));
            }
            assert(self@.members =~= fin.members);
            assert forall|id: u64|
                self@.ledger.contains_key(id) == fin.ledger.contains_key(id) by {
                let b = v0.ledger.contains_key(id);
                assert(thrown_ids(v0).to_set().contains(id) == v0.order.subrange(
                    1,
                    1 + t as int,
                ).contains(id));
            }
            assert forall|id: u64| #[trigger]
                self@.ledger.contains_key(id) implies self@.ledger[id] == fin.ledger[id] by {
                assert(v0.ledger.contains_key(id));
            }
            assert(self@.ledger =~= fin.ledger);
        }
        thrown
    }

    /// Drain the spawn queue: each queued follower joins the arena at the
    /// leader's current position and is appended to the Follow Order, in
    /// request order.
    fn apply_spawns(&mut self)
        requires
            old(self)@.wf(),
        ensures
            final(self)@.wf(),
            final(self)@ == after_spawns(old(self)@),
    {
        let ghost v0 = self@;
        let n = self.spawn_queue.len();
        let mut i: usize = 0;
        while i < n
            invariant
                v0.wf(),
                i <= n,
                n == v0.spawn_queue.len(),
                self@.spawn_queue == v0.spawn_queue,
                self@.order == v0.order + v0.spawn_queue.take(i as int),
                self@.order.no_duplicates(),
                forall|id: u64|
                    self@.members.contains_key(id) == (v0.members.contains_key(id)
                        || v0.spawn_queue.take(i as int).contains(id)),
                forall|id: u64| #[trigger]
                    self@.members.contains_key(id) ==> self@.members[id] == (if v0.spawn_queue.take(
                        i as int,
                    ).contains(id) {
                        MemberState { position: v0.leader_pos, following: true }
                    } else {
                        v0.members[id]
                    }),
                self@.ledger == v0.ledger,
                self@.leader == v0.leader,
                self@.leader_pos == v0.leader_pos,
                self@.weight_num == v0.weight_num,
                self@.weight_den == v0.weight_den,
                self@.padding == v0.padding,
                self@.next_identity == v0.next_identity,
                self@.throw_requests == v0.throw_requests,
            decreases n - i,
        {
            let ghost pre = self@;
            let id = self.spawn_queue[i];
            assert(id == v0.spawn_queue[i as int]);
            proof {
                // the queued identity is fresh for the current order
                assert(!self@.order.contains(id)) by {
                    if self@.order.contains(id) {
                        let w = choose|j: int|
                            0 <= j < self@.order.len() && self@.order[j] == id;
                        if w < v0.order.len() {
                            assert(v0.order[w] == id);
                            assert(false);
                        } else {
                            assert(v0.spawn_queue.take(i as int)[w - v0.order.len()] == id);
                            assert(v0.spawn_queue[w - v0.order.len()] == id);
                            assert(false);
                        }
                    }
                }
            }
            let pos = self.leader_pos;
            self.members.insert(id, MemberState { position: pos, following: true });
            self.order.ensure_member_present(id);
            proof {
                assert(self@.order =~= v0.order + v0.spawn_queue.take(i + 1)) by {
                    assert(v0.spawn_queue.take(i + 1) =~= v0.spawn_queue.take(i as int).push(
                        v0.spawn_queue[i as int],
                    ));
                }
                assert forall|id2: u64|
                    self@.members.contains_key(id2) == (v0.members.contains_key(id2)
                        || v0.spawn_queue.take(i + 1).contains(id2)) by {
                    let b = pre.members.contains_key(id2);
                    assert(v0.spawn_queue.take(i + 1) =~= v0.spawn_queue.take(i as int).push(
                        v0.spawn_queue[i as int],
                    ));
                    if id2 != id {
                        let s1 = v0.spawn_queue.take(i as int);
                        let s2 = v0.spawn_queue.take(i + 1);
                        if s2.contains(id2) {
                            let w = choose|j: int| 0 <= j < s2.len() && s2[j] == id2;
                            assert(w < i);
                            assert(s1[w] == id2);
                        }
                        if s1.contains(id2) {
                            let w = choose|j: int| 0 <= j < s1.len() && s1[j] == id2;
                            assert(s2[w] == id2);
                        }
                    } else {
                        assert(v0.spawn_queue.take(i + 1)[i as int] == id);
                    }
                }
                assert forall|id2: u64| #[trigger]
                    self@.members.contains_key(id2) implies self@.members[id2] == (if v0
                    .spawn_queue.take(i + 1).contains(id2) {
                    MemberState { position: v0.leader_pos, following: true }
                } else {
                    v0.members[id2]
                }) by {
                    assert(v0.spawn_queue.take(i + 1) =~= v0.spawn_queue.take(i as int).push(
                        v0.spawn_queue[i as int],
                    ));
                    if id2 != id {
                        assert(v0.spawn_queue.take(i + 1).contains(id2) == v0.spawn_queue.take(
                            i as int,
                        ).contains(id2)) by {
                            let s1 = v0.spawn_queue.take(i as int);
                            let s2 = v0.spawn_queue.take(i + 1);
                            if s2.contains(id2) {
                                let w = choose|j: int| 0 <= j < s2.len() && s2[j] == id2;
                                assert(w < i);
                                assert(s1[w] == id2);
                            }
                            if s1.contains(id2) {
                                let w = choose|j: int| 0 <= j < s1.len() && s1[j] == id2;
                                assert(s2[w] == id2);
                            }
                        }
                    } else {
                        assert(v0.spawn_queue.take(i + 1)[i as int] == id);
                    }
                }
            }
            i = i + 1;
        }
        self.spawn_queue.clear();
        proof {
            let fin = after_spawns(v0);
            assert(v0.spawn_queue.take(n as int) == v0.spawn_queue);
            assert(self@.order == fin.order);
            assert(self@.spawn_queue == fin.spawn_queue);
            assert forall|id: u64|
                self@.members.contains_key(id) == fin.members.contains_key(id) by {
                let b = v0.members.contains_key(id);
            }
            assert forall|id: u64| #[trigger]
                self@.members.contains_key(id) implies self@.members[id] == fin.members[id] by {
                let b = v0.spawn_queue.contains(id);
            }
            assert(self@.members =~= fin.members);
            // the engine invariant on the grown chain
            assert(self@.wf()) by {
                let cur = self@;
                assert forall|i2: int|
                    1 <= i2 < cur.order.len() implies cur.members.contains_key(
                    #[trigger] cur.order[i2],
                ) by {
                    if i2 < v0.order.len() {
                        assert(cur.order[i2] == v0.order[i2]);
                    } else {
                        assert(cur.order[i2] == v0.spawn_queue[i2 - v0.order.len()]);
                    }
                }
                assert forall|id: u64| #[trigger]
                    cur.members.contains_key(id) implies (cur.members[id].following
                    <==> cur.order.contains(id)) && in_bounds(cur.members[id].position) && id
                    < cur.next_identity by {
                    if v0.spawn_queue.contains(id) {
                        let w = choose|j: int|
                            0 <= j < v0.spawn_queue.len() && v0.spawn_queue[j] == id;
                        assert(cur.order[v0.order.len() + w] == id);
                    } else {
                        assert(v0.members.contains_key(id));
                        assert(cur.order.contains(id) == v0.order.contains(id)) by {
                            if v0.order.contains(id) {
                                let w = choose|j: int|
                                    0 <= j < v0.order.len() && v0.order[j] == id;
                                assert(cur.order[w] == id);
                            }
                            if cur.order.contains(id) {
                                let w = choose|j: int|
                                    0 <= j < cur.order.len() && cur.order[j] == id;
                                if w >= v0.order.len() {
                                    assert(v0.spawn_queue[w - v0.order.len()] == id);
                                    assert(false);
                                }
                                assert(v0.order[w] == id);
                            }
                        }
                    }
                }
                assert forall|id: u64| #[trigger]
                    cur.ledger.contains_key(id) implies cur.order.contains(id) && in_bounds(
                    cur.ledger[id],
                ) by {
                    assert(v0.order.contains(id));
                    let w = choose|j: int| 0 <= j < v0.order.len() && v0.order[j] == id;
                    assert(cur.order[w] == id);
                }
            }
        }
    }

    /// Overwrite the ledger entry of the leader and of every member still
    /// in the Follow Order with its current position. Everyone a follower
    /// can chase this tick is then recorded, and detached members stay
    /// pruned.
    fn refresh_ledger(&mut self)
        requires
            old(self)@.wf(),
        ensures
            final(self)@.wf(),
            final(self)@ == after_refresh(old(self)@),
    {
        let ghost v0 = self@;
        let n = self.order.len();
        let mut i: usize = 0;
        while i < n
            invariant
                v0.wf(),
                i <= n,
                n == v0.order.len(),
                self@.order == v0.order,
                self@.members == v0.members,
                self@.spawn_queue == v0.spawn_queue,
                self@.leader == v0.leader,
                self@.leader_pos == v0.leader_pos,
                self@.weight_num == v0.weight_num,
                self@.weight_den == v0.weight_den,
                self@.padding == v0.padding,
                self@.next_identity == v0.next_identity,
                self@.throw_requests == v0.throw_requests,
                forall|id: u64| #![trigger self@.ledger.contains_key(id)]
                    self@.ledger.contains_key(id) == (v0.ledger.contains_key(id)
                        || v0.order.take(i as int).contains(id)),
                forall|id: u64| #[trigger]
                    self@.ledger.contains_key(id) ==> self@.ledger[id] == (if v0.order.take(
                        i as int,
                    ).contains(id) {
                        refreshed_ledger(v0)[id]
                    } else {
                        v0.ledger[id]
                    }),
            decreases n - i,
        {
            let ghost pre = self@;
            let id = self.order.at(i);
            assert(id == v0.order[i as int]);
            let pos: Vec2i;
            if i == 0 {
                pos = self.leader_pos;
            } else {
                assert(self@.members.contains_key(id));
                match self.members.get(&id) {
                    Some(m) => {
                        pos = m.position;
                    },
                    None => {
                        proof {
                            assert(false);
                        }
                        pos = self.leader_pos;
                    },
                }
            }
            proof {
                if i > 0 {
                    assert(id != v0.leader) by {
                        if id == v0.leader {
                            assert(v0.order[0] == v0.order[i as int]);
                            assert(false);
                        }
                    }
                }
                assert(v0.order.contains(id));
                assert(pos == refreshed_ledger(v0)[id]);
            }
            self.ledger.record(id, pos);
            let ghost iold = i as int;
            i = i + 1;
            proof {
                assert forall|id2: u64| #![trigger self@.ledger.contains_key(id2)]
                    self@.ledger.contains_key(id2) == (v0.ledger.contains_key(id2)
                        || v0.order.take(i as int).contains(id2)) by {
                    assert(self@.ledger == pre.ledger.insert(id, pos));
                    assert(pre.ledger.contains_key(id2) == (v0.ledger.contains_key(id2)
                        || v0.order.take(iold).contains(id2)));
                    let s1 = v0.order.take(iold);
                    let s2 = v0.order.take(i as int);
                    assert(s2[iold] == id);
                    if id2 != id {
                        if s2.contains(id2) {
                            let w = choose|j: int| 0 <= j < s2.len() && s2[j] == id2;
                            assert(w != iold);
                            assert(s1[w] == id2);
                        }
                        if s1.contains(id2) {
                            let w = choose|j: int| 0 <= j < s1.len() && s1[j] == id2;
                            assert(s2[w] == id2);
                        }
                    }
                }
                assert forall|id2: u64| #[trigger]
                    self@.ledger.contains_key(id2) implies self@.ledger[id2] == (if v0.order.take(
                    i as int,
                ).contains(id2) {
                    refreshed_ledger(v0)[id2]
                } else {
                    v0.ledger[id2]
                }) by {
                    assert(self@.ledger == pre.ledger.insert(id, pos));
                    let b = pre.ledger.contains_key(id2);
                    let s1 = v0.order.take(iold);
                    let s2 = v0.order.take(i as int);
                    assert(s2[iold] == id);
                    if id2 != id {
                        if s2.contains(id2) {
                            let w = choose|j: int| 0 <= j < s2.len() && s2[j] == id2;
                            assert(w != iold);
                            assert(s1[w] == id2);
                        }
                        if s1.contains(id2) {
                            let w = choose|j: int| 0 <= j < s1.len() && s1[j] == id2;
                            assert(s2[w] == id2);
                        }
                    }
                }
            }
        }
        proof {
            let fin = after_refresh(v0);
            assert(v0.order.take(n as int) =~= v0.order);
            assert forall|id: u64|
                self@.ledger.contains_key(id) == fin.ledger.contains_key(id) by {
                let b = v0.ledger.contains_key(id);
                if v0.ledger.contains_key(id) {
                    assert(v0.order.contains(id));
                }
            }
            assert forall|id: u64| #[trigger]
                self@.ledger.contains_key(id) implies self@.ledger[id] == fin.ledger[id] by {
                let b = v0.ledger.contains_key(id);
                if v0.ledger.contains_key(id) {
                    assert(v0.order.contains(id));
                }
                assert(v0.order.take(n as int).contains(id));
            }
            assert(self@.ledger =~= fin.ledger);
            assert(self@.wf()) by {
                assert forall|id: u64| #[trigger]
                    self@.ledger.contains_key(id) implies self@.order.contains(id) && in_bounds(
                    self@.ledger[id],
                ) by {
                    assert(self@.ledger[id] == refreshed_ledger(v0)[id]);
                    if id != v0.leader {
                        let w = choose|j: int| 0 <= j < v0.order.len() && v0.order[j] == id;
                        assert(w != 0);
                        assert(v0.members.contains_key(v0.order[w]));
                    }
                }
            }
        }
    }

    /// The Chain Update Pass. For each follower in Follow Order, front to
    /// back: resolve its predecessor, look the predecessor up in the
    /// ledger (skipping the follower if it was never recorded), and, if
    /// the follower is not already within the padding threshold of that
    /// target, move it the follow-weight fraction of the way toward it.
    fn update_pass(&mut self)
        requires
            old(self)@.wf(),
        ensures
            final(self)@.wf(),
            final(self)@ == after_pass(old(self)@),
    {
        let ghost v0 = self@;
        let n = self.order.len();
        let mut i: usize = 1;
        while i < n
            invariant
                v0.wf(),
                1 <= i <= n || (n < 1 && i == 1),
                n == v0.order.len(),
                self@.order == v0.order,
                self@.ledger == v0.ledger,
                self@.spawn_queue == v0.spawn_queue,
                self@.leader == v0.leader,
                self@.leader_pos == v0.leader_pos,
                self@.weight_num == v0.weight_num,
                self@.weight_den == v0.weight_den,
                self@.padding == v0.padding,
                self@.next_identity == v0.next_identity,
                self@.throw_requests == v0.throw_requests,
                forall|id: u64| #![trigger self@.members.contains_key(id)]
                    self@.members.contains_key(id) == v0.members.contains_key(id),
                forall|id: u64| #[trigger]
                    self@.members.contains_key(id) ==> self@.members[id] == (if v0.order.take(
                        i as int,
                    ).contains(id) && id != v0.leader {
                        MemberState {
                            position: pass_position(v0, v0.order.index_of(id)),
                            following: v0.members[id].following,
                        }
                    } else {
                        v0.members[id]
                    }),
                forall|id: u64| #[trigger]
                    self@.members.contains_key(id) ==> in_bounds(self@.members[id].position),
            decreases n - i,
        {
            let ghost pre = self@;
            let id = self.order.at(i);
            assert(id == v0.order[i as int]);
            proof {
                crate::order::lemma_index_of_distinct(v0.order, id, i as int);
                assert(v0.order.contains(id));
                if v0.order[0] == id {
                    assert(false);
                }
            }
            let pred = self.order.predecessor_of(id);
            assert(pred == v0.order[i as int - 1]);
            proof {
                // this follower's record is still untouched: it sits at
                // order index i, so it is not among the first i entries
                assert(!v0.order.take(i as int).contains(id)) by {
                    if v0.order.take(i as int).contains(id) {
                        let w = choose|j: int|
                            0 <= j < v0.order.take(i as int).len() && v0.order.take(i as int)[j]
                                == id;
                        assert(v0.order[w] == id);
                        assert(false);
                    }
                }
                assert(self@.members.contains_key(id));
                assert(self@.members[id] == v0.members[id]);
            }
            let target_opt = self.ledger.get(pred);
            match target_opt {
                None => {},
                Some(target) => {
                    let m = match self.members.get(&id) {
                        Some(m) => *m,
                        None => {
                            proof {
                                assert(false);
                            }
                            MemberState { position: self.leader_pos, following: true }
                        },
                    };
                    assert(m == v0.members[id]);
                    assert(m.following) by {
                        assert(v0.order.contains(id));
                    }
                    proof {
                        lemma_sq_bound(self.padding as int, PADDING_LIMIT as int);
                    }
                    let pad2: i64 = self.padding * self.padding;
                    let d2 = m.position.dist2_to(target);
                    if d2 >= pad2 {
                        let newpos = m.position.nudge_toward(target, self.weight_num, self.weight_den);
                        self.members.insert(
                            id,
                            MemberState { position: newpos, following: m.following },
                        );
                    }
                },
            }
            let ghost iold = i as int;
            i = i + 1;
            proof {
                assert forall|id2: u64| #![trigger self@.members.contains_key(id2)]
                    self@.members.contains_key(id2) == v0.members.contains_key(id2) by {
                    let b = pre.members.contains_key(id2);
                }
                assert forall|id2: u64| #[trigger]
                    self@.members.contains_key(id2) implies self@.members[id2] == (if v0.order.take(
                    i as int,
                ).contains(id2) && id2 != v0.leader {
                    MemberState {
                        position: pass_position(v0, v0.order.index_of(id2)),
                        following: v0.members[id2].following,
                    }
                } else {
                    v0.members[id2]
                }) by {
                    let b = pre.members.contains_key(id2);
                    let s1 = v0.order.take(iold);
                    let s2 = v0.order.take(i as int);
                    assert(s2[iold] == id);
                    if id2 == id {
                        assert(s2.contains(id2));
                        assert(v0.order.index_of(id) == iold);
                        assert(self@.members[id] == (MemberState {
                            position: pass_position(v0, iold),
                            following: v0.members[id].following,
                        }));
                    } else {
                        assert(s2.contains(id2) == s1.contains(id2)) by {
                            if s2.contains(id2) {
                                let w = choose|j: int| 0 <= j < s2.len() && s2[j] == id2;
                                assert(w != iold);
                                assert(s1[w] == id2);
                            }
                            if s1.contains(id2) {
                                let w = choose|j: int| 0 <= j < s1.len() && s1[j] == id2;
                                assert(s2[w] == id2);
                            }
                        }
                        assert(self@.members[id2] == pre.members[id2]);
                    }
                }
                assert forall|id2: u64| #[trigger]
                    self@.members.contains_key(id2) implies in_bounds(
                    self@.members[id2].position,
                ) by {
                    let b = pre.members.contains_key(id2);
                }
            }
        }
        proof {
            let fin = after_pass(v0);
            assert(v0.order.take(n as int) =~= v0.order);
            assert forall|id: u64|
                self@.members.contains_key(id) == fin.members.contains_key(id) by {
                let b = v0.members.contains_key(id);
            }
            assert forall|id: u64| #[trigger]
                self@.members.contains_key(id) implies self@.members[id] == fin.members[id] by {
                assert(v0.order.take(n as int).contains(id) == v0.order.contains(id));
            }
            assert(self@.members =~= fin.members);
            assert(self@.wf()) by {
                let cur = self@;
                assert forall|id: u64| #[trigger]
                    cur.members.contains_key(id) implies (cur.members[id].following
                    <==> cur.order.contains(id)) && in_bounds(cur.members[id].position) && id
                    < cur.next_identity by {
                    assert(v0.members.contains_key(id));
                    assert(cur.members[id].following == v0.members[id].following);
                }
            }
        }
    }

    /// One simulation tick.
    ///
    /// Queued throws detach first — each one the follower nearest the
    /// front of the chain — and are pruned from the Follow Order and the
    /// ledger before any position is read, so no follower ever chases a
    /// stale predecessor. Queued spawns then join at the leader's current
    /// position, the ledger is refreshed for everyone in the chain, and
    /// the update pass moves each follower toward its predecessor's
    /// recorded position. Returns the detached identities, in order; the
    /// caller owns their motion from here on.
    pub fn tick(&mut self) -> (thrown: Vec<u64>)
        requires
            old(self)@.wf(),
        ensures
            final(self)@.wf(),
            thrown@ == thrown_ids(old(self)@),
            final(self)@ == after_tick(old(self)@),
    {
        let thrown = self.apply_throws();
        self.apply_spawns();
        self.refresh_ledger();
        self.update_pass();
        thrown
    }

    pub fn leader_identity(&self) -> (r: u64)
        ensures
            r == self@.leader,
    {
        self.leader
    }

    /// The identity the next spawn will receive.
    pub fn next_identity(&self) -> (r: u64)
        ensures
            r == self@.next_identity,
    {
        self.next_identity
    }

    /// How many throw requests wait for the next tick.
    pub fn pending_throws(&self) -> (r: u64)
        ensures
            r == self@.throw_requests,
    {
        self.throw_requests
    }

    pub fn leader_position(&self) -> (r: Vec2i)
        ensures
            r == self@.leader_pos,
    {
        self.leader_pos
    }

    /// The arena record of `id`, if it has one.
    pub fn member(&self, id: u64) -> (r: Option<MemberState>)
        ensures
            match r {
                Some(m) => self@.members.contains_key(id) && m == self@.members[id],
                None => !self@.members.contains_key(id),
            },
    {
        match self.members.get(&id) {
            Some(m) => Some(*m),
            None => None,
        }
    }

    /// Whether `id` is a follower still tracking its predecessor.
    pub fn is_following(&self, id: u64) -> (r: bool)
        ensures
            r == (self@.members.contains_key(id) && self@.members[id].following),
    {
        match self.members.get(&id) {
            Some(m) => m.following,
            None => false,
        }
    }

    /// The Follow Order, for queries such as `predecessor_of`.
    pub fn follow_order(&self) -> (r: &FollowOrder)
        requires
            self@.wf(),
        ensures
            r@ == self@.order,
            r.wf(),
    {
        &self.order
    }

    /// The Position Ledger, for position lookups.
    pub fn position_ledger(&self) -> (r: &PositionLedger)
        ensures
            r@ == self@.ledger,
    {
        &self.ledger
    }
}

} // verus!
