//! The engine's governing properties, stated and proved once for all
//! inputs: joins are first-come-first-served, removal closes gaps, a
//! follower at rest stays at rest, a follower chasing a stationary target
//! gets monotonically closer and ends up within the padding threshold, and
//! a detached member is beyond the chain's reach forever.

use crate::engine::{
    after_spawns, after_throws, after_pass, after_refresh, after_tick, chased, ChainView,
    MemberState,
};
use crate::order::{attached, pred_in};
use crate::vec2::{
    axis_nudge, axis_step, dist2, in_bounds, lemma_axis_nudge_between, nudged, sq, valid_weight,
    Vec2i, PADDING_LIMIT,
};
use vstd::arithmetic::div_mod::{lemma_div_is_ordered, lemma_div_multiples_vanish};
use vstd::arithmetic::mul::{lemma_mul_inequality, lemma_mul_upper_bound};
use vstd::math::abs;
use vstd::prelude::*;

verus! {

/// The order that a whole sequence of attaches produces.
pub open spec fn attached_all(order: Seq<u64>, ids: Seq<u64>) -> Seq<u64>
    decreases ids.len(),
{
    if ids.len() == 0 {
        order
    } else {
        attached_all(attached(order, ids[0]), ids.skip(1))
    }
}

/// Order preservation: attaching any sequence of fresh members, in any
/// number of calls, yields exactly the attach order, appended behind the
/// existing entries — so the Follow Order is the join order, and whoever
/// is at index 0 (the leader) stays there.
pub proof fn lemma_order_is_attach_order(order: Seq<u64>, ids: Seq<u64>)
    requires
        ids.no_duplicates(),
        forall|j: int| 0 <= j < ids.len() ==> !order.contains(#[trigger] ids[j]),
    ensures
        attached_all(order, ids) == order + ids,
    decreases ids.len(),
{
    if ids.len() == 0 {
        assert(attached_all(order, ids) =~= order + ids);
    } else {
        let id0 = ids[0];
        assert(!order.contains(id0));
        let grown = order.push(id0);
        assert(attached(order, id0) == grown);
        assert forall|j: int| 0 <= j < ids.skip(1).len() implies !grown.contains(
            #[trigger] ids.skip(1)[j],
        ) by {
            assert(ids.skip(1)[j] == ids[j + 1]);
            assert(ids[j + 1] != id0);
            assert(!order.contains(ids[j + 1]));
            if grown.contains(ids[j + 1]) {
                let w = choose|i: int| 0 <= i < grown.len() && grown[i] == ids[j + 1];
                if w < order.len() {
                    assert(order[w] == ids[j + 1]);
                    assert(false);
                } else {
                    assert(grown[w] == id0);
                    assert(false);
                }
            }
        }
        lemma_order_is_attach_order(grown, ids.skip(1));
        assert(grown + ids.skip(1) =~= order + ids);
    }
}

/// Order preservation at the engine: a tick keeps the leader at index 0,
/// keeps the surviving followers in their relative order, and appends the
/// queued spawns at the back in request order — the Follow Order is always
/// the join order of whoever is still in the chain.
pub proof fn lemma_tick_keeps_join_order(v: ChainView)
    requires
        v.wf(),
    ensures
        after_tick(v).order == v.order.take(1) + v.order.skip(
            1 + crate::engine::throws_applied_count(v),
        ) + v.spawn_queue,
        after_tick(v).order[0] == v.leader,
{
    let t = crate::engine::throws_applied_count(v);
    assert((v.order.take(1) + v.order.skip(1 + t) + v.spawn_queue)[0] == v.order[0]);
}

/// What a tick does when no spawn or throw is queued: the chain keeps its
/// shape, and every follower takes one chase step toward the position its
/// predecessor held when the tick began — the leader's live position for
/// the first follower, the recorded arena position for everyone else. This
/// is the engine-level form of the convergence and rest-damping laws
/// below: they describe the `chased` step this lemma exhibits.
pub proof fn lemma_quiet_tick_chases(v: ChainView)
    requires
        v.wf(),
        v.spawn_queue.len() == 0,
        v.throw_requests == 0,
    ensures
        after_tick(v).order == v.order,
        forall|i: int|
            1 <= i < v.order.len() ==> after_tick(v).members[#[trigger] v.order[i]].position
                == chased(
                v.members[v.order[i]].position,
                if v.order[i - 1] == v.leader {
                    v.leader_pos
                } else {
                    v.members[v.order[i - 1]].position
                },
                v.weight_num,
                v.weight_den,
                v.padding,
            ),
{
    let v1 = after_throws(v);
    assert(crate::engine::throws_applied_count(v) == 0);
    assert(v1.order =~= v.order);
    assert(v1.members =~= v.members) by {
        assert(crate::engine::thrown_ids(v) =~= Seq::<u64>::empty());
    }
    assert(v1.ledger =~= v.ledger) by {
        assert forall|id: u64| #[trigger] v.ledger.contains_key(id) implies !crate::engine::thrown_ids(
            v,
        ).to_set().contains(id) by {
            assert(crate::engine::thrown_ids(v).len() == 0);
        }
    }
    let v2 = after_spawns(v1);
    assert(v2.order =~= v.order);
    assert(v2.members =~= v.members) by {
        assert forall|id: u64|
            crate::engine::spawned_members(v1).contains_key(id) == v.members.contains_key(
            id,
        ) by {
            if v1.spawn_queue.contains(id) {
                let w = choose|j: int|
                    0 <= j < v1.spawn_queue.len() && v1.spawn_queue[j] == id;
                assert(false);
            }
        }
        assert forall|id: u64| #[trigger]
            v.members.contains_key(id) implies crate::engine::spawned_members(v1)[id]
            == v.members[id] by {
            if v1.spawn_queue.contains(id) {
                let w = choose|j: int|
                    0 <= j < v1.spawn_queue.len() && v1.spawn_queue[j] == id;
                assert(false);
            }
        }
    }
    let v3 = after_refresh(v2);
    let v4 = after_pass(v3);
    assert(v4.order =~= v.order);
    assert(v4 == after_tick(v));
    assert forall|i: int| 1 <= i < v.order.len() implies v4.members[#[trigger] v.order[i]].position
        == chased(
        v.members[v.order[i]].position,
        if v.order[i - 1] == v.leader {
            v.leader_pos
        } else {
            v.members[v.order[i - 1]].position
        },
        v.weight_num,
        v.weight_den,
        v.padding,
    ) by {
        let id = v.order[i];
        let pred = v.order[i - 1];
        assert(v3.order[i] == id && v3.order[i - 1] == pred);
        assert(v3.members.contains_key(id));
        assert(v3.order.contains(id)) by {
            assert(v3.order[i] == id);
        }
        assert(id != v.leader) by {
            if id == v.leader {
                assert(v.order[0] == v.order[i]);
                assert(false);
            }
        }
        crate::order::lemma_index_of_distinct(v3.order, id, i);
        assert(v4.members[id] == (MemberState {
            position: crate::engine::pass_position(v3, i),
            following: v3.members[id].following,
        }));
        assert(v3.ledger.contains_key(pred)) by {
            assert(v.order.contains(pred)) by {
                assert(v.order[i - 1] == pred);
            }
        }
        assert(v3.ledger[pred] == (if pred == v.leader {
            v.leader_pos
        } else {
            v.members[pred].position
        })) by {
            assert(v.order.contains(pred)) by {
                assert(v.order[i - 1] == pred);
            }
        }
        assert(v3.members[id].position == v.members[id].position);
    }
}

/// Removal closes gaps: after deleting the entry at index `k`, the member
/// that stood right behind it points at whatever preceded the removed
/// member, every other member keeps the predecessor it had, and there is
/// no hole in the indices.
pub proof fn lemma_removal_closes_gaps(s: Seq<u64>, k: int)
    requires
        s.no_duplicates(),
        1 <= k < s.len(),
    ensures
        s.remove(k).len() == s.len() - 1,
        k < s.len() - 1 ==> pred_in(s.remove(k), s[k + 1]) == s[k - 1],
        forall|j: int| 1 <= j < k ==> pred_in(s.remove(k), #[trigger] s[j]) == s[j - 1],
        forall|j: int| k + 1 < j < s.len() ==> pred_in(s.remove(k), #[trigger] s[j]) == s[j - 1],
{
    let r = s.remove(k);
    s.remove_ensures(k);
    crate::order::lemma_remove_keeps_distinct(s, k);
    if k < s.len() - 1 {
        assert(r[k] == s[k + 1]);
        crate::order::lemma_index_of_distinct(r, s[k + 1], k);
        assert(r[k - 1] == s[k - 1]);
    }
    assert forall|j: int| 1 <= j < k implies pred_in(r, #[trigger] s[j]) == s[j - 1] by {
        assert(r[j] == s[j]);
        crate::order::lemma_index_of_distinct(r, s[j], j);
        assert(r[j - 1] == s[j - 1]);
    }
    assert forall|j: int| k + 1 < j < s.len() implies pred_in(r, #[trigger] s[j]) == s[j - 1] by {
        assert(r[j - 1] == s[j]);
        crate::order::lemma_index_of_distinct(r, s[j], j - 1);
        assert(r[j - 2] == s[j - 1]);
    }
}

/// `0 <= a <= b` bounds the squares: `a * a <= b * b`.
proof fn lemma_sq_le(a: int, b: int)
    requires
        0 <= a <= b,
    ensures
        a * a <= b * b,
{
    lemma_mul_upper_bound(a, b, a, b);
}

/// One axis never overshoots and never widens its gap: the new gap keeps
/// the old gap's sign and is no larger.
proof fn lemma_axis_gap_shrinks(pos: int, target: int, num: int, den: int)
    requires
        1 <= num < den,
    ensures
        abs(target - axis_nudge(pos, target, num, den)) <= abs(target - pos),
{
    lemma_axis_nudge_between(pos, target, num, den);
}

/// An axis whose gap is at least `den` closes it by at least `num`.
proof fn lemma_axis_gap_progress(pos: int, target: int, num: int, den: int)
    requires
        1 <= num < den,
        abs(target - pos) >= den,
    ensures
        abs(target - axis_nudge(pos, target, num, den)) <= abs(target - pos) - num,
{
    let d = target - pos;
    lemma_axis_nudge_between(pos, target, num, den);
    if d >= 0 {
        assert(axis_step(d, num, den) == (d * num) / den);
        lemma_mul_inequality(den, d, num);
        assert(den * num <= d * num);
        lemma_div_is_ordered(den * num, d * num, den);
        lemma_div_multiples_vanish(num, den);
        assert((den * num) / den == num);
        assert((d * num) / den >= num);
    } else {
        let e = -d;
        assert(axis_step(d, num, den) == -((e * num) / den));
        lemma_mul_inequality(den, e, num);
        assert(den * num <= e * num);
        lemma_div_is_ordered(den * num, e * num, den);
        lemma_div_multiples_vanish(num, den);
        assert((den * num) / den == num);
        assert((e * num) / den >= num);
    }
}

/// Rest damping: a follower already within the padding threshold of its
/// target does not move at all on an update.
pub proof fn lemma_rest_damping(p: Vec2i, target: Vec2i, num: u64, den: u64, padding: i64)
    requires
        dist2(p, target) < padding * padding,
    ensures
        chased(p, target, num, den, padding) == p,
{
}

/// Convergence, first half: one chase step toward a stationary target
/// never increases the distance to it, and never leaves the coordinate
/// bounds.
pub proof fn lemma_chase_monotone(p: Vec2i, target: Vec2i, num: u64, den: u64, padding: i64)
    requires
        in_bounds(p),
        in_bounds(target),
        valid_weight(num, den),
    ensures
        dist2(chased(p, target, num, den, padding), target) <= dist2(p, target),
        in_bounds(chased(p, target, num, den, padding)),
{
    if dist2(p, target) < padding * padding {
    } else {
        let q = nudged(p, target, num as int, den as int);
        lemma_axis_nudge_between(p.x as int, target.x as int, num as int, den as int);
        lemma_axis_nudge_between(p.y as int, target.y as int, num as int, den as int);
        assert(abs(target.x - q.x) <= abs(target.x - p.x));
        assert(abs(target.y - q.y) <= abs(target.y - p.y));
        lemma_sq_le(abs(target.x - q.x) as int, abs(target.x - p.x) as int);
        lemma_sq_le(abs(target.y - q.y) as int, abs(target.y - p.y) as int);
        assert(sq(q.x - target.x) == abs(target.x - q.x) as int * abs(target.x - q.x) as int) by {
            lemma_abs_sq(q.x - target.x);
        }
        assert(sq(p.x - target.x) == abs(target.x - p.x) as int * abs(target.x - p.x) as int) by {
            lemma_abs_sq(p.x - target.x);
        }
        assert(sq(q.y - target.y) == abs(target.y - q.y) as int * abs(target.y - q.y) as int) by {
            lemma_abs_sq(q.y - target.y);
        }
        assert(sq(p.y - target.y) == abs(target.y - p.y) as int * abs(target.y - p.y) as int) by {
            lemma_abs_sq(p.y - target.y);
        }
    }
}

/// `v * v` equals `abs(-v) * abs(-v)`: squaring forgets the sign.
proof fn lemma_abs_sq(v: int)
    ensures
        sq(v) == abs(-v) as int * abs(-v) as int,
{
    assert(v * v == (-v) * (-v)) by (nonlinear_arith);
}

/// The position after `k` chase steps toward a stationary target.
pub open spec fn chase_iter(p: Vec2i, target: Vec2i, num: u64, den: u64, padding: i64, k: nat) -> Vec2i
    decreases k,
{
    if k == 0 {
        p
    } else {
        chase_iter(chased(p, target, num, den, padding), target, num, den, padding, (k - 1) as nat)
    }
}

/// The taxicab gap between a follower and its target.
pub open spec fn gap1(p: Vec2i, target: Vec2i) -> int {
    abs(target.x - p.x) as int + abs(target.y - p.y) as int
}

/// A follower that has come to rest inside the padding threshold stays
/// exactly where it is, however many updates follow.
pub proof fn lemma_chase_stays_at_rest(p: Vec2i, target: Vec2i, num: u64, den: u64, padding: i64, k: nat)
    requires
        dist2(p, target) < padding * padding,
    ensures
        chase_iter(p, target, num, den, padding, k) == p,
    decreases k,
{
    if k > 0 {
        lemma_rest_damping(p, target, num, den, padding);
        lemma_chase_stays_at_rest(p, target, num, den, padding, (k - 1) as nat);
    }
}

/// Outside the padding threshold, some axis has a gap of at least `den`,
/// provided the threshold is comfortably larger than the weight's
/// denominator.
proof fn lemma_wide_gap_has_big_axis(p: Vec2i, target: Vec2i, den: u64, padding: i64)
    requires
        dist2(p, target) >= padding * padding,
        padding * padding > 2 * (den as int) * (den as int),
    ensures
        abs(target.x - p.x) >= den || abs(target.y - p.y) >= den,
{
    let dx = abs(target.x - p.x);
    let dy = abs(target.y - p.y);
    if dx < den && dy < den {
        lemma_sq_le(dx as int, den as int);
        lemma_sq_le(dy as int, den as int);
        lemma_abs_sq(p.x - target.x);
        lemma_abs_sq(p.y - target.y);
        assert(2 * (den as int) * (den as int) == (den as int) * (den as int) + (den as int)
            * (den as int)) by (nonlinear_arith);
        assert(dist2(p, target) <= 2 * (den as int) * (den as int)) by {
            assert(sq(p.x - target.x) == dx as int * dx as int);
            assert(sq(p.y - target.y) == dy as int * dy as int);
        }
        assert(false);
    }
}

/// Convergence, second half: chasing a stationary target, a follower is
/// inside the padding threshold after at most `gap1` updates — provided
/// the threshold is comfortably larger than the weight's denominator, so
/// the rounded-down step cannot stall outside it.
pub proof fn lemma_chase_converges(p: Vec2i, target: Vec2i, num: u64, den: u64, padding: i64, k: nat)
    requires
        in_bounds(p),
        in_bounds(target),
        valid_weight(num, den),
        0 <= padding <= PADDING_LIMIT,
        padding * padding > 2 * (den as int) * (den as int),
        k >= gap1(p, target),
    ensures
        dist2(chase_iter(p, target, num, den, padding, k), target) < padding * padding,
    decreases k,
{
    if dist2(p, target) < padding * padding {
        lemma_chase_stays_at_rest(p, target, num, den, padding, k);
    } else {
        let q = chased(p, target, num, den, padding);
        assert(q == nudged(p, target, num as int, den as int));
        lemma_chase_monotone(p, target, num, den, padding);
        lemma_wide_gap_has_big_axis(p, target, den, padding);
        lemma_axis_gap_shrinks(p.x as int, target.x as int, num as int, den as int);
        lemma_axis_gap_shrinks(p.y as int, target.y as int, num as int, den as int);
        if abs(target.x - p.x) >= den {
            lemma_axis_gap_progress(p.x as int, target.x as int, num as int, den as int);
        } else {
            lemma_axis_gap_progress(p.y as int, target.y as int, num as int, den as int);
        }
        assert(gap1(q, target) <= gap1(p, target) - 1);
        assert(k >= 1) by {
            if k == 0 {
                assert(gap1(p, target) <= 0);
                assert(abs(target.x - p.x) == 0 && abs(target.y - p.y) == 0);
                assert(dist2(p, target) == 0) by {
                    lemma_abs_sq(p.x - target.x);
                    lemma_abs_sq(p.y - target.y);
                }
                assert(padding * padding > 0);
                assert(false);
            }
        }
        lemma_chase_converges(q, target, num, den, padding, (k - 1) as nat);
    }
}

/// Detach irrevocability: once a member's `following` flag is false, no
/// tick moves it through chain logic, it never rejoins the Follow Order,
/// and — since every predecessor the order hands out is an order entry —
/// it never again appears as anyone's predecessor.
pub proof fn lemma_detach_irrevocable(v: ChainView, id: u64)
    requires
        v.wf(),
        v.members.contains_key(id),
        !v.members[id].following,
    ensures
        after_tick(v).members.contains_key(id),
        after_tick(v).members[id] == v.members[id],
        !after_tick(v).order.contains(id),
{
    assert(!v.order.contains(id));
    let v1 = after_throws(v);
    assert(!thrown_contains(v, id)) by {
        if thrown_ids_of(v).contains(id) {
            let w = choose|j: int|
                0 <= j < thrown_ids_of(v).len() && thrown_ids_of(v)[j] == id;
            assert(v.order[1 + w] == id);
            assert(false);
        }
    }
    assert(v1.members.contains_key(id));
    assert(v1.members[id] == v.members[id]);
    assert(!v1.order.contains(id)) by {
        if v1.order.contains(id) {
            let w = choose|j: int| 0 <= j < v1.order.len() && v1.order[j] == id;
            if w < 1 {
                assert(v.order[0] == id);
            } else {
                assert(v.order[crate::engine::throws_applied_count(v) + w] == id);
            }
            assert(false);
        }
    }
    let v2 = after_spawns(v1);
    assert(!v.spawn_queue.contains(id)) by {
        if v.spawn_queue.contains(id) {
            let w = choose|j: int| 0 <= j < v.spawn_queue.len() && v.spawn_queue[j] == id;
            assert(!v.members.contains_key(v.spawn_queue[w]));
            assert(false);
        }
    }
    assert(v2.members.contains_key(id));
    assert(v2.members[id] == v.members[id]);
    assert(!v2.order.contains(id)) by {
        if v2.order.contains(id) {
            let w = choose|j: int| 0 <= j < v2.order.len() && v2.order[j] == id;
            if w < v1.order.len() {
                assert(v1.order[w] == id);
            } else {
                assert(v1.spawn_queue[w - v1.order.len()] == id);
            }
            assert(false);
        }
    }
    let v3 = after_refresh(v2);
    let v4 = after_pass(v3);
    assert(v4.members.contains_key(id));
    assert(v4.members[id] == v.members[id]);
    assert(v4 == after_tick(v));
}

/// The identities a tick's throws detach; a shorthand used by the
/// irrevocability proof.
spec fn thrown_ids_of(v: ChainView) -> Seq<u64> {
    crate::engine::thrown_ids(v)
}

spec fn thrown_contains(v: ChainView, id: u64) -> bool {
    thrown_ids_of(v).contains(id)
}

} // verus!

