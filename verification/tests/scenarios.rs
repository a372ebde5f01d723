//! Formation, movement, split, merge and relay scenarios.

use ternary_platoon::controller::PlatoonController;
use ternary_platoon::formation::FormationPattern;
use ternary_platoon::platoon::Platoon;
use ternary_platoon::position::{AgentId, Position};
use ternary_platoon::relay::{RelayMessage, relay_through_platoon};
use ternary_platoon::split_merge::{merge_platoons, split_platoon};

#[test]
fn test_position_distance() {
    let a = Position::new(0, 0);
    let b = Position::new(3, 4);
    assert_eq!(a.distance_to(&b), 7);
}

#[test]
fn test_position_zero_distance() {
    let a = Position::new(5, 5);
    assert_eq!(a.distance_to(&a), 0);
}

#[test]
fn test_formation_line_positions() {
    let leader = Position::new(0, 0);
    let positions = FormationPattern::Line.compute_positions(leader, 3);
    assert_eq!(positions.len(), 3);
    assert_eq!(positions[0], Position::new(2, 0));
    assert_eq!(positions[1], Position::new(4, 0));
    assert_eq!(positions[2], Position::new(6, 0));
}

#[test]
fn test_formation_column_positions() {
    let leader = Position::new(0, 0);
    let positions = FormationPattern::Column.compute_positions(leader, 2);
    assert_eq!(positions[0], Position::new(0, 2));
    assert_eq!(positions[1], Position::new(0, 4));
}

#[test]
fn test_formation_wedge_positions() {
    let leader = Position::new(0, 0);
    let positions = FormationPattern::Wedge.compute_positions(leader, 4);
    assert_eq!(positions.len(), 4);
    // Even indices go left, odd go right
    assert!(positions[0].x < 0); // left side
    assert!(positions[1].x > 0); // right side
}

#[test]
fn test_formation_grid_positions() {
    let leader = Position::new(0, 0);
    let positions = FormationPattern::Grid { rows: 2, cols: 3 }.compute_positions(leader, 5);
    assert_eq!(positions.len(), 5);
    // Row 0: (0,2), (2,2), (4,2)  Row 1: (0,4), (2,4)
    assert_eq!(positions[0], Position::new(0, 2));
    assert_eq!(positions[4], Position::new(2, 4));
}

#[test]
fn test_platoon_create_and_add_followers() {
    let mut p = Platoon::new("alpha", AgentId::new("leader"), Position::new(0, 0));
    p.add_follower(AgentId::new("a1"));
    p.add_follower(AgentId::new("a2"));
    assert_eq!(p.size(), 3);
    assert_eq!(p.followers.len(), 2);
}

#[test]
fn test_platoon_remove_follower() {
    let mut p = Platoon::new("alpha", AgentId::new("leader"), Position::new(0, 0));
    p.add_follower(AgentId::new("a1"));
    p.add_follower(AgentId::new("a2"));
    assert!(p.remove_follower(&AgentId::new("a1")));
    assert_eq!(p.size(), 2);
    assert!(!p.remove_follower(&AgentId::new("a1"))); // already removed
}

#[test]
fn test_platoon_formation_change() {
    let mut p = Platoon::new("alpha", AgentId::new("leader"), Position::new(0, 0));
    p.add_follower(AgentId::new("a1"));
    p.add_follower(AgentId::new("a2"));
    p.set_formation(FormationPattern::Column);
    // In column, followers should be below leader
    let a1_pos = p.positions.get(&AgentId::new("a1")).unwrap();
    assert_eq!(a1_pos.x, 0); // same x as leader
    assert!(a1_pos.y > 0); // below leader
}

#[test]
fn test_platoon_move_leader() {
    let mut p = Platoon::new("alpha", AgentId::new("leader"), Position::new(0, 0));
    p.add_follower(AgentId::new("a1"));
    p.move_leader_to(Position::new(10, 10));
    let leader_pos = p.positions.get(&p.leader).unwrap();
    assert_eq!(*leader_pos, Position::new(10, 10));
    // Follower should have moved relative to new leader position
    let a1_pos = p.positions.get(&AgentId::new("a1")).unwrap();
    assert_eq!(a1_pos.x, 12); // line: leader.x + 2
}

#[test]
fn test_formation_integrity() {
    let mut p = Platoon::new("alpha", AgentId::new("leader"), Position::new(0, 0));
    p.add_follower(AgentId::new("a1"));
    p.add_follower(AgentId::new("a2"));
    // All in perfect formation
    assert_eq!(p.formation_integrity(0), 2);
}

#[test]
fn test_formation_integrity_with_drift() {
    let mut p = Platoon::new("alpha", AgentId::new("leader"), Position::new(0, 0));
    p.add_follower(AgentId::new("a1"));
    p.add_follower(AgentId::new("a2"));
    // Drift a1 away from ideal
    p.positions.insert(AgentId::new("a1"), Position::new(100, 100));
    assert_eq!(p.formation_integrity(5), 1); // only a2 is in formation
}

#[test]
fn test_controller_move_platoon() {
    let mut p = Platoon::new("alpha", AgentId::new("leader"), Position::new(0, 0));
    p.add_follower(AgentId::new("a1"));
    let mut ctrl = PlatoonController::new(p, 5);
    ctrl.move_platoon(1, 0); // move right
    assert_eq!(*ctrl.platoon.positions.get(&ctrl.platoon.leader).unwrap(), Position::new(1, 0));
}

#[test]
fn test_controller_correct_formation() {
    let mut p = Platoon::new("alpha", AgentId::new("leader"), Position::new(0, 0));
    p.add_follower(AgentId::new("a1"));
    let mut ctrl = PlatoonController::new(p, 5);
    // Drift the follower
    ctrl.set_follower_position(&AgentId::new("a1"), Position::new(50, 50));
    let corrected = ctrl.correct_formation();
    assert_eq!(corrected, 1);
    let a1_pos = ctrl.platoon.positions.get(&AgentId::new("a1")).unwrap();
    assert_eq!(*a1_pos, Position::new(2, 0)); // corrected to ideal
}

#[test]
fn test_controller_speed() {
    let mut p = Platoon::new("alpha", AgentId::new("leader"), Position::new(0, 0));
    p.add_follower(AgentId::new("a1"));
    let mut ctrl = PlatoonController::new(p, 5);
    ctrl.speed = 3;
    ctrl.move_platoon(1, 0);
    assert_eq!(*ctrl.platoon.positions.get(&ctrl.platoon.leader).unwrap(), Position::new(3, 0));
}

#[test]
fn test_split_platoon() {
    let mut p = Platoon::new("alpha", AgentId::new("L"), Position::new(0, 0));
    p.add_follower(AgentId::new("a1"));
    p.add_follower(AgentId::new("a2"));
    p.add_follower(AgentId::new("a3"));
    let result = split_platoon(&p, 2, "bravo", AgentId::new("L2"), Position::new(0, 0));
    assert_eq!(result.primary.size(), 3); // leader + a1 + a2
    assert_eq!(result.secondary.size(), 2); // L2 + a3
    assert_eq!(result.primary.followers.len(), 2);
    assert_eq!(result.secondary.followers.len(), 1);
}

#[test]
fn test_merge_platoons() {
    let mut p1 = Platoon::new("alpha", AgentId::new("L1"), Position::new(0, 0));
    p1.add_follower(AgentId::new("a1"));
    let mut p2 = Platoon::new("bravo", AgentId::new("L2"), Position::new(10, 10));
    p2.add_follower(AgentId::new("a2"));
    merge_platoons(&mut p1, &p2);
    assert_eq!(p1.size(), 3); // L1, a1, a2
}

#[test]
fn test_relay_message_hop() {
    let msg = RelayMessage::new(AgentId::new("a1"), "hello", 3);
    let relayed = msg.relay().unwrap();
    assert_eq!(relayed.hops, 1);
}

#[test]
fn test_relay_message_max_hops() {
    let msg = RelayMessage::new(AgentId::new("a1"), "hello", 2);
    let r1 = msg.relay().unwrap();
    let r2 = r1.relay().unwrap();
    assert!(r2.relay().is_none()); // would be hop 3, max is 2
}

#[test]
fn test_relay_through_platoon() {
    let mut p = Platoon::new("alpha", AgentId::new("L"), Position::new(0, 0));
    p.add_follower(AgentId::new("a1"));
    p.add_follower(AgentId::new("a2"));
    p.add_follower(AgentId::new("a3"));
    let path = relay_through_platoon(&p, &AgentId::new("L"), &AgentId::new("a2"), "go", 5).unwrap();
    assert_eq!(path.len(), 3); // L -> a1 -> a2
    assert_eq!(path[0], AgentId::new("L"));
    assert_eq!(path[2], AgentId::new("a2"));
}

#[test]
fn test_relay_through_platoon_too_far() {
    let mut p = Platoon::new("alpha", AgentId::new("L"), Position::new(0, 0));
    p.add_follower(AgentId::new("a1"));
    p.add_follower(AgentId::new("a2"));
    let result = relay_through_platoon(&p, &AgentId::new("L"), &AgentId::new("a2"), "go", 1);
    assert!(result.is_err());
}

#[test]
fn test_relay_reverse_direction() {
    let mut p = Platoon::new("alpha", AgentId::new("L"), Position::new(0, 0));
    p.add_follower(AgentId::new("a1"));
    let path = relay_through_platoon(&p, &AgentId::new("a1"), &AgentId::new("L"), "back", 5).unwrap();
    assert_eq!(path[0], AgentId::new("L"));
    assert_eq!(path[1], AgentId::new("a1"));
}
