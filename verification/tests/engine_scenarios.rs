use follower_chain::engine::{
    ChainEngine, FOLLOW_WEIGHT_DEN, FOLLOW_WEIGHT_NUM, LEADER_IDENTITY, PADDING_THRESHOLD,
};
use follower_chain::vec2::Vec2i;

fn v(x: i64, y: i64) -> Vec2i {
    Vec2i { x, y }
}

/// Default-tuned engine: weight 1/25 (0.04), padding 20.
fn engine_at(x: i64, y: i64) -> ChainEngine {
    ChainEngine::new(v(x, y), FOLLOW_WEIGHT_NUM, FOLLOW_WEIGHT_DEN, PADDING_THRESHOLD)
}

#[test]
fn attach_order_is_follow_order() {
    let mut e = engine_at(0, 0);
    let a = e.queue_spawn();
    let b = e.queue_spawn();
    let c = e.queue_spawn();
    assert_eq!((a, b, c), (1, 2, 3));
    e.tick();
    let order = e.follow_order();
    assert_eq!(order.len(), 4);
    assert_eq!(order.at(0), LEADER_IDENTITY);
    assert_eq!(order.at(1), a);
    assert_eq!(order.at(2), b);
    assert_eq!(order.at(3), c);
}

#[test]
fn attach_order_kept_across_ticks() {
    let mut e = engine_at(0, 0);
    let a = e.queue_spawn();
    e.tick();
    let b = e.queue_spawn();
    e.tick();
    let c = e.queue_spawn();
    e.tick();
    let order = e.follow_order();
    assert_eq!(order.len(), 4);
    assert_eq!(order.at(0), LEADER_IDENTITY);
    assert_eq!(order.at(1), a);
    assert_eq!(order.at(2), b);
    assert_eq!(order.at(3), c);
}

#[test]
fn first_follower_moves_four_percent_of_gap() {
    // Leader at the origin; a follower attaches there. After the leader
    // moves to (100, 0), one tick moves the follower by the follow weight
    // of the gap: from (0, 0) to (4, 0).
    let mut e = engine_at(0, 0);
    let a = e.queue_spawn();
    e.tick();
    assert_eq!(e.member(a).unwrap().position, v(0, 0));
    e.set_leader_position(v(100, 0));
    e.tick();
    assert_eq!(e.member(a).unwrap().position, v(4, 0));
}

#[test]
fn follower_chases_recorded_not_live_position() {
    // The second follower chases the first follower's position as recorded
    // at the start of the tick, not the position it moved to during the
    // same tick.
    let mut e = engine_at(0, 0);
    let a = e.queue_spawn();
    let b = e.queue_spawn();
    e.tick();
    e.set_leader_position(v(1000, 0));
    e.tick();
    // a chased the leader's fresh record (1000, 0): 1000 / 25 = 40.
    assert_eq!(e.member(a).unwrap().position, v(40, 0));
    // b chased a's start-of-tick record (0, 0), within padding: no move.
    assert_eq!(e.member(b).unwrap().position, v(0, 0));
    e.tick();
    // This tick b sees a's record (40, 0): 40 / 25 = 1.
    assert_eq!(e.member(a).unwrap().position, v(78, 0)); // 40 + 960 / 25
    assert_eq!(e.member(b).unwrap().position, v(1, 0));
}

#[test]
fn rest_damping_within_padding() {
    // padding 20: a follower within distance 15 of its predecessor's
    // recorded position does not move on the next pass.
    let mut e = engine_at(0, 0);
    let a = e.queue_spawn();
    e.tick();
    e.set_leader_position(v(15, 0));
    e.tick();
    assert_eq!(e.member(a).unwrap().position, v(0, 0));
}

#[test]
fn moves_at_distance_beyond_padding() {
    // padding 20: at distance 25 the follower does move.
    let mut e = engine_at(0, 0);
    let a = e.queue_spawn();
    e.tick();
    e.set_leader_position(v(25, 0));
    e.tick();
    assert_eq!(e.member(a).unwrap().position, v(1, 0));
}

#[test]
fn detach_rebinds_follower_to_leader() {
    // Two followers attached in order; detaching throws the one nearest
    // the front, and the survivor's predecessor becomes the leader.
    let mut e = engine_at(0, 0);
    let a = e.queue_spawn();
    let b = e.queue_spawn();
    e.tick();
    e.queue_throw();
    let thrown = e.tick();
    assert_eq!(thrown, vec![a]);
    let order = e.follow_order();
    assert_eq!(order.len(), 2);
    assert_eq!(order.at(1), b);
    assert_eq!(order.predecessor_of(b), LEADER_IDENTITY);
    // The next pass shows b tracking the leader directly.
    e.set_leader_position(v(50, 0));
    e.tick();
    assert_eq!(e.member(b).unwrap().position, v(2, 0));
}

#[test]
fn detach_is_irrevocable() {
    let mut e = engine_at(0, 0);
    let a = e.queue_spawn();
    let b = e.queue_spawn();
    e.tick();
    e.set_leader_position(v(500, 0));
    e.tick();
    let pos_at_throw = e.member(a).unwrap().position;
    e.queue_throw();
    let thrown = e.tick();
    assert_eq!(thrown, vec![a]);
    assert!(!e.is_following(a));
    // However the leader moves afterwards, chain logic never touches a
    // again, and a never shows up in the follow order or as a predecessor.
    for step in 0..50 {
        e.set_leader_position(v(500 + step * 40, step * 30));
        e.tick();
        assert_eq!(e.member(a).unwrap().position, pos_at_throw);
        assert!(!e.is_following(a));
        assert!(!e.follow_order().contains_id(a));
        assert_eq!(e.follow_order().predecessor_of(b), LEADER_IDENTITY);
    }
}

#[test]
fn throw_with_nobody_following_is_noop() {
    let mut e = engine_at(7, 9);
    e.queue_throw();
    let thrown = e.tick();
    assert!(thrown.is_empty());
    assert_eq!(e.follow_order().len(), 1);
    assert_eq!(e.leader_position(), v(7, 9));
}

#[test]
fn two_throws_detach_front_two_in_order() {
    let mut e = engine_at(0, 0);
    let a = e.queue_spawn();
    let b = e.queue_spawn();
    let c = e.queue_spawn();
    e.tick();
    e.queue_throw();
    e.queue_throw();
    let thrown = e.tick();
    assert_eq!(thrown, vec![a, b]);
    let order = e.follow_order();
    assert_eq!(order.len(), 2);
    assert_eq!(order.at(1), c);
}

#[test]
fn more_throws_than_followers_stop_at_the_leader() {
    let mut e = engine_at(0, 0);
    let a = e.queue_spawn();
    e.tick();
    e.queue_throw();
    e.queue_throw();
    e.queue_throw();
    let thrown = e.tick();
    assert_eq!(thrown, vec![a]);
    let order = e.follow_order();
    assert_eq!(order.len(), 1);
    assert_eq!(order.at(0), LEADER_IDENTITY);
}

#[test]
fn spawn_lands_at_leaders_current_position() {
    let mut e = engine_at(0, 0);
    e.set_leader_position(v(-300, 120));
    let a = e.queue_spawn();
    e.tick();
    assert_eq!(e.member(a).unwrap().position, v(-300, 120));
    assert!(e.is_following(a));
}

#[test]
fn convergence_toward_stationary_leader() {
    // Work at a fixed-point scale of 100 per world unit, so the padding
    // threshold (20.0 world units = 2000) is far above the weight
    // denominator and the rounded step cannot stall outside it.
    let mut e = ChainEngine::new(v(0, 0), 1, 25, 2000);
    let a = e.queue_spawn();
    e.tick();
    e.set_leader_position(v(100_000, 70_000));
    let target = v(100_000, 70_000);
    let mut last = {
        e.tick();
        e.member(a).unwrap().position.dist2_to(target)
    };
    let mut converged = false;
    for _ in 0..20_000 {
        e.tick();
        let d2 = e.member(a).unwrap().position.dist2_to(target);
        assert!(d2 <= last, "distance must never grow");
        last = d2;
        if d2 < 2000 * 2000 {
            converged = true;
            break;
        }
    }
    assert!(converged, "follower must come within the padding threshold");
}

#[test]
fn ledger_is_empty_before_the_first_tick() {
    let mut e = engine_at(3, 4);
    assert_eq!(e.position_ledger().get(LEADER_IDENTITY), None);
    e.tick();
    assert_eq!(e.position_ledger().get(LEADER_IDENTITY), Some(v(3, 4)));
}

#[test]
fn detached_member_leaves_the_ledger() {
    let mut e = engine_at(0, 0);
    let a = e.queue_spawn();
    e.tick();
    assert!(e.position_ledger().get(a).is_some());
    e.queue_throw();
    e.tick();
    // a was pruned when detached; the later refresh only records chain
    // members, so a never reappears.
    assert_eq!(e.position_ledger().get(a), None);
}

#[test]
fn spawn_identities_are_fresh_and_sequential() {
    let mut e = engine_at(0, 0);
    assert_eq!(e.leader_identity(), LEADER_IDENTITY);
    assert_eq!(e.queue_spawn(), 1);
    assert_eq!(e.queue_spawn(), 2);
    e.tick();
    assert_eq!(e.queue_spawn(), 3);
}
