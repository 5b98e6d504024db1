use follower_chain::ledger::PositionLedger;
use follower_chain::order::FollowOrder;
use follower_chain::vec2::Vec2i;

fn v(x: i64, y: i64) -> Vec2i {
    Vec2i { x, y }
}

#[test]
fn leader_is_inserted_exactly_once() {
    let mut order = FollowOrder::new();
    order.ensure_leader_present(9);
    order.ensure_leader_present(9);
    assert_eq!(order.len(), 1);
    assert_eq!(order.at(0), 9);
}

#[test]
fn member_append_is_idempotent() {
    let mut order = FollowOrder::new();
    order.ensure_leader_present(0);
    order.ensure_member_present(5);
    order.ensure_member_present(5);
    assert_eq!(order.len(), 2);
    assert_eq!(order.at(1), 5);
}

#[test]
fn removing_a_middle_member_closes_the_gap() {
    let mut order = FollowOrder::new();
    order.ensure_leader_present(0);
    order.ensure_member_present(1);
    order.ensure_member_present(2);
    order.ensure_member_present(3);
    order.remove_id(2);
    assert_eq!(order.len(), 3);
    assert_eq!(order.at(0), 0);
    assert_eq!(order.at(1), 1);
    assert_eq!(order.at(2), 3);
    // the member that stood behind the removed one now points at
    // whatever preceded it
    assert_eq!(order.predecessor_of(3), 1);
    assert_eq!(order.predecessor_of(1), 0);
}

#[test]
fn removing_an_absent_member_changes_nothing() {
    let mut order = FollowOrder::new();
    order.ensure_leader_present(0);
    order.ensure_member_present(1);
    order.remove_id(42);
    assert_eq!(order.len(), 2);
    assert_eq!(order.at(1), 1);
}

#[test]
fn position_lookup_reports_presence() {
    let mut order = FollowOrder::new();
    order.ensure_leader_present(0);
    order.ensure_member_present(7);
    assert_eq!(order.position_of(7), Some(1));
    assert_eq!(order.position_of(8), None);
    assert!(order.contains_id(7));
    assert!(!order.contains_id(8));
}

#[test]
fn ledger_overwrites_and_prunes() {
    let mut ledger = PositionLedger::new();
    assert_eq!(ledger.get(1), None);
    ledger.record(1, v(10, 20));
    assert_eq!(ledger.get(1), Some(v(10, 20)));
    ledger.record(1, v(30, 40));
    assert_eq!(ledger.get(1), Some(v(30, 40)));
    assert!(ledger.contains_id(1));
    ledger.remove_id(1);
    assert_eq!(ledger.get(1), None);
    assert!(!ledger.contains_id(1));
}

#[test]
fn nudge_closes_the_weight_fraction_of_the_gap() {
    // 1/25 of the gap, per axis, rounded toward zero.
    let p = v(0, 0);
    assert_eq!(p.nudge_toward(v(100, 50), 1, 25), v(4, 2));
    // a negative gap steps the other way
    assert_eq!(v(-100, 0).nudge_toward(v(0, 0), 1, 25), v(-96, 0));
    // rounding toward zero: a gap smaller than the denominator gives no step
    assert_eq!(v(0, 0).nudge_toward(v(10, 0), 1, 25), v(0, 0));
}

#[test]
fn squared_distance_is_exact() {
    assert_eq!(v(0, 0).dist2_to(v(3, 4)), 25);
    assert_eq!(v(-3, 4).dist2_to(v(0, 0)), 25);
    assert_eq!(v(15, 0).dist2_to(v(0, 0)), 225);
}
