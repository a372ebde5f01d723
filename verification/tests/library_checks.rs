//! Checks of the library's contracts and laws on concrete values.

use ternary_platoon::{
    merge_platoons, relay_through_platoon, split_platoon, AgentId, FormationPattern, Platoon,
    PlatoonController, Position, PositionMap, RelayMessage,
};

fn platoon_with(names: &[&str]) -> Platoon {
    let mut p = Platoon::new("alpha", AgentId::new("L"), Position::new(0, 0));
    for n in names {
        p.add_follower(AgentId::new(n));
    }
    p
}

fn pos_of(p: &Platoon, name: &str) -> Option<Position> {
    p.positions.get(&AgentId::new(name)).copied()
}

#[test]
fn distance_is_symmetric_and_handles_negatives() {
    let a = Position::new(-3, 7);
    let b = Position::new(4, -2);
    assert_eq!(a.distance_to(&b), 16);
    assert_eq!(b.distance_to(&a), 16);
    assert_eq!(b.distance_to(&b), 0);
}

#[test]
fn position_and_agent_text() {
    assert_eq!(Position::new(3, -4).to_string(), "(3, -4)");
    assert_eq!(Position::new(0, 120).to_string(), "(0, 120)");
    assert_eq!(Position::new(i32::MIN, i32::MAX).to_string(), "(-2147483648, 2147483647)");
    assert_eq!(AgentId::new("scout-1").to_string(), "scout-1");
}

#[test]
fn agent_ids_compare_by_name() {
    assert_eq!(AgentId::new("a"), AgentId::new("a"));
    assert_ne!(AgentId::new("a"), AgentId::new("b"));
    assert_eq!(AgentId::new("a").clone(), AgentId::new("a"));
}

#[test]
fn position_map_reads_back_writes() {
    let mut m = PositionMap::new();
    assert_eq!(m.len(), 0);
    assert_eq!(m.insert(AgentId::new("a"), Position::new(1, 2)), None);
    assert_eq!(m.insert(AgentId::new("b"), Position::new(3, 4)), None);
    assert_eq!(m.insert(AgentId::new("a"), Position::new(5, 6)), Some(Position::new(1, 2)));
    assert_eq!(m.len(), 2);
    assert_eq!(m.get(&AgentId::new("a")), Some(&Position::new(5, 6)));
    assert_eq!(m.get(&AgentId::new("b")), Some(&Position::new(3, 4)));
    assert!(m.contains_key(&AgentId::new("b")));
    assert_eq!(m.remove(&AgentId::new("a")), Some(Position::new(5, 6)));
    assert_eq!(m.remove(&AgentId::new("a")), None);
    assert_eq!(m.get(&AgentId::new("a")), None);
    assert_eq!(m.len(), 1);
    let copy = m.clone();
    assert_eq!(copy.get(&AgentId::new("b")), Some(&Position::new(3, 4)));
    assert_eq!(copy.len(), 1);
}

#[test]
fn wedge_and_column_exact_slots() {
    let o = Position::new(0, 0);
    let w = FormationPattern::Wedge.compute_positions(o, 4);
    assert_eq!(
        w,
        vec![Position::new(-2, 2), Position::new(4, 4), Position::new(-6, 6), Position::new(8, 8)]
    );
    let c = FormationPattern::Column.compute_positions(Position::new(5, -1), 3);
    assert_eq!(c, vec![Position::new(5, 1), Position::new(5, 3), Position::new(5, 5)]);
    assert!(FormationPattern::Line.compute_positions(o, 0).is_empty());
}

#[test]
fn grid_gives_every_follower_a_cell() {
    let o = Position::new(1, 1);
    let g = FormationPattern::Grid { rows: 2, cols: 2 }.compute_positions(o, 5);
    assert_eq!(
        g,
        vec![
            Position::new(1, 3),
            Position::new(3, 3),
            Position::new(1, 5),
            Position::new(3, 5),
            Position::new(1, 7),
        ]
    );
    let flat = FormationPattern::Grid { rows: 0, cols: 3 }.compute_positions(o, 4);
    assert_eq!(
        flat,
        vec![Position::new(1, 3), Position::new(3, 3), Position::new(5, 3), Position::new(1, 5)]
    );
    let narrow = FormationPattern::Grid { rows: 3, cols: 0 }.compute_positions(o, 3);
    assert_eq!(narrow, vec![Position::new(1, 3), Position::new(1, 5), Position::new(1, 7)]);
}

#[test]
fn formation_shifts_with_leader() {
    for pattern in [
        FormationPattern::Line,
        FormationPattern::Column,
        FormationPattern::Wedge,
        FormationPattern::Grid { rows: 2, cols: 3 },
    ] {
        let at_zero = pattern.compute_positions(Position::new(0, 0), 5);
        let moved = pattern.compute_positions(Position::new(10, -7), 5);
        assert_eq!(at_zero.len(), moved.len());
        for (a, b) in at_zero.iter().zip(moved.iter()) {
            assert_eq!(b.x - 10, a.x);
            assert_eq!(b.y + 7, a.y);
        }
    }
}

#[test]
fn fewer_followers_get_a_prefix_of_the_slots() {
    let p = FormationPattern::Grid { rows: 2, cols: 2 };
    let short = p.compute_positions(Position::new(0, 0), 3);
    let long = p.compute_positions(Position::new(0, 0), 6);
    assert_eq!(short[..], long[..3]);
}

#[test]
fn slots_are_distinct_and_spaced() {
    for pattern in [
        FormationPattern::Line,
        FormationPattern::Column,
        FormationPattern::Wedge,
        FormationPattern::Grid { rows: 3, cols: 2 },
    ] {
        let o = Position::new(0, 0);
        let slots = pattern.compute_positions(o, 6);
        for (i, a) in slots.iter().enumerate() {
            assert!(o.distance_to(a) >= 2);
            for b in slots.iter().skip(i + 1) {
                assert!(a.distance_to(b) >= 2);
            }
        }
    }
}

#[test]
fn added_followers_stand_on_their_slots() {
    let mut p = platoon_with(&["a1", "a2", "a3"]);
    p.set_formation(FormationPattern::Wedge);
    assert_eq!(pos_of(&p, "a1"), Some(Position::new(-2, 2)));
    assert_eq!(pos_of(&p, "a2"), Some(Position::new(4, 4)));
    assert_eq!(pos_of(&p, "a3"), Some(Position::new(-6, 6)));
    assert_eq!(pos_of(&p, "L"), Some(Position::new(0, 0)));
    assert_eq!(p.formation_integrity(0), 3);
}

#[test]
fn recalculating_again_changes_nothing() {
    let mut p = platoon_with(&["a1", "a2"]);
    p.move_leader_to(Position::new(-4, 9));
    let before: Vec<Option<Position>> = ["L", "a1", "a2"].iter().map(|n| pos_of(&p, n)).collect();
    p.recalculate_positions();
    let after: Vec<Option<Position>> = ["L", "a1", "a2"].iter().map(|n| pos_of(&p, n)).collect();
    assert_eq!(before, after);
    assert_eq!(after[1], Some(Position::new(-2, 9)));
}

#[test]
fn duplicate_follower_takes_the_last_slot() {
    let p = platoon_with(&["a1", "a1"]);
    assert_eq!(p.followers.len(), 2);
    assert_eq!(p.positions.len(), 2);
    assert_eq!(pos_of(&p, "a1"), Some(Position::new(4, 0)));
}

#[test]
fn removing_a_follower_forgets_it() {
    let mut p = platoon_with(&["a1", "a2", "a3"]);
    assert!(p.remove_follower(&AgentId::new("a2")));
    assert_eq!(p.followers, vec![AgentId::new("a1"), AgentId::new("a3")]);
    assert_eq!(pos_of(&p, "a2"), None);
    assert_eq!(pos_of(&p, "a3"), Some(Position::new(4, 0)));
    assert!(!p.remove_follower(&AgentId::new("ghost")));
    assert_eq!(p.size(), 3);
}

#[test]
fn removing_a_non_follower_keeps_the_platoon() {
    let mut p = platoon_with(&["a1"]);
    p.positions.insert(AgentId::new("visitor"), Position::new(7, 7));
    assert!(!p.remove_follower(&AgentId::new("L")));
    assert_eq!(pos_of(&p, "L"), Some(Position::new(0, 0)));
    assert!(!p.remove_follower(&AgentId::new("visitor")));
    assert_eq!(pos_of(&p, "visitor"), None);
    assert_eq!(pos_of(&p, "L"), Some(Position::new(0, 0)));
    assert_eq!(p.followers, vec![AgentId::new("a1")]);
    assert_eq!(pos_of(&p, "a1"), Some(Position::new(2, 0)));
}

#[test]
fn integrity_ignores_followers_without_position() {
    let mut p = platoon_with(&["a1", "a2"]);
    p.positions.remove(&AgentId::new("a1"));
    assert_eq!(p.formation_integrity(100), 1);
    p.positions.insert(AgentId::new("a2"), Position::new(4, 3));
    assert_eq!(p.formation_integrity(2), 0);
    assert_eq!(p.formation_integrity(3), 1);
}

#[test]
fn correction_settles_the_formation() {
    let p = platoon_with(&["a1", "a2", "a3"]);
    let mut ctrl = PlatoonController::new(p, 3);
    ctrl.set_follower_position(&AgentId::new("a1"), Position::new(2, 3));
    ctrl.set_follower_position(&AgentId::new("a2"), Position::new(40, 0));
    ctrl.set_follower_position(&AgentId::new("a3"), Position::new(-6, 0));
    assert_eq!(ctrl.platoon.formation_integrity(3), 1);
    assert_eq!(ctrl.correct_formation(), 2);
    assert_eq!(ctrl.platoon.formation_integrity(3), 3);
    assert_eq!(pos_of(&ctrl.platoon, "a1"), Some(Position::new(2, 3)));
    assert_eq!(pos_of(&ctrl.platoon, "a2"), Some(Position::new(4, 0)));
    assert_eq!(pos_of(&ctrl.platoon, "a3"), Some(Position::new(6, 0)));
    assert_eq!(ctrl.correct_formation(), 0);
}

#[test]
fn negative_tolerance_corrects_everyone() {
    let p = platoon_with(&["a1", "a2"]);
    let mut ctrl = PlatoonController::new(p, -1);
    assert_eq!(ctrl.correct_formation(), 2);
    assert_eq!(ctrl.correct_formation(), 2);
}

#[test]
fn moving_keeps_the_formation() {
    let mut p = platoon_with(&["a1", "a2"]);
    p.set_formation(FormationPattern::Column);
    let mut ctrl = PlatoonController::new(p, 0);
    ctrl.speed = 2;
    ctrl.move_platoon(-1, 3);
    assert_eq!(pos_of(&ctrl.platoon, "L"), Some(Position::new(-2, 6)));
    assert_eq!(pos_of(&ctrl.platoon, "a1"), Some(Position::new(-2, 8)));
    assert_eq!(pos_of(&ctrl.platoon, "a2"), Some(Position::new(-2, 10)));
    assert_eq!(ctrl.platoon.formation_integrity(0), 2);
}

#[test]
fn speed_beyond_i32_wraps_to_its_signed_bits() {
    let p = platoon_with(&["a1"]);
    let mut ctrl = PlatoonController::new(p, 0);
    ctrl.speed = u32::MAX;
    ctrl.move_platoon(2, 3);
    assert_eq!(pos_of(&ctrl.platoon, "L"), Some(Position::new(-2, -3)));
}

#[test]
fn transition_repositions_every_follower() {
    let p = platoon_with(&["a1", "a2", "a3"]);
    let mut ctrl = PlatoonController::new(p, 1);
    ctrl.transition_formation(FormationPattern::Grid { rows: 1, cols: 2 });
    assert_eq!(ctrl.platoon.formation, FormationPattern::Grid { rows: 1, cols: 2 });
    assert_eq!(pos_of(&ctrl.platoon, "a1"), Some(Position::new(0, 2)));
    assert_eq!(pos_of(&ctrl.platoon, "a2"), Some(Position::new(2, 2)));
    // The single row is full, so a3 starts the next one.
    assert_eq!(pos_of(&ctrl.platoon, "a3"), Some(Position::new(0, 4)));
    assert_eq!(ctrl.platoon.formation_integrity(0), 3);
}

#[test]
fn split_partitions_the_followers() {
    let mut p = platoon_with(&["a1", "a2", "a3", "a4"]);
    p.set_formation(FormationPattern::Column);
    let r = split_platoon(&p, 1, "bravo", AgentId::new("M"), Position::new(10, 10));
    assert_eq!(r.primary.followers, vec![AgentId::new("a1")]);
    assert_eq!(
        r.secondary.followers,
        vec![AgentId::new("a2"), AgentId::new("a3"), AgentId::new("a4")]
    );
    assert_eq!(r.secondary.formation, FormationPattern::Column);
    assert_eq!(r.secondary.name, "bravo");
    assert_eq!(r.primary.name, "alpha");
    assert_eq!(pos_of(&r.primary, "a2"), None);
    assert_eq!(pos_of(&r.primary, "a1"), Some(Position::new(0, 2)));
    assert_eq!(pos_of(&r.secondary, "a2"), Some(Position::new(10, 12)));
    assert_eq!(pos_of(&r.secondary, "M"), Some(Position::new(10, 10)));
    assert_eq!(r.primary.size() + r.secondary.size(), p.size() + 1);
}

#[test]
fn split_at_the_ends() {
    let p = platoon_with(&["a1", "a2"]);
    let all = split_platoon(&p, 2, "b", AgentId::new("M"), Position::new(0, 0));
    assert_eq!(all.primary.followers.len(), 2);
    assert!(all.secondary.followers.is_empty());
    let none = split_platoon(&p, 0, "b", AgentId::new("M"), Position::new(0, 0));
    assert!(none.primary.followers.is_empty());
    assert_eq!(none.secondary.followers.len(), 2);
    assert_eq!(pos_of(&none.primary, "a1"), None);
}

#[test]
fn split_then_merge_restores_followers() {
    let p = platoon_with(&["a1", "a2", "a3"]);
    let r = split_platoon(&p, 1, "b", AgentId::new("M"), Position::new(5, 5));
    let mut primary = r.primary;
    merge_platoons(&mut primary, &r.secondary);
    assert_eq!(primary.followers, p.followers);
    assert_eq!(pos_of(&primary, "a3"), Some(Position::new(6, 0)));
    assert_eq!(primary.formation_integrity(0), 3);
}

#[test]
fn merge_appends_in_order() {
    let mut p1 = platoon_with(&["a1"]);
    let mut p2 = Platoon::new("bravo", AgentId::new("L2"), Position::new(9, 9));
    p2.add_follower(AgentId::new("b1"));
    p2.add_follower(AgentId::new("b2"));
    merge_platoons(&mut p1, &p2);
    assert_eq!(
        p1.followers,
        vec![AgentId::new("a1"), AgentId::new("b1"), AgentId::new("b2")]
    );
    assert_eq!(p1.leader, AgentId::new("L"));
    assert_eq!(pos_of(&p1, "b2"), Some(Position::new(6, 0)));
    assert_eq!(pos_of(&p1, "L2"), None);
}

#[test]
fn relay_counts_hops_up_to_the_limit() {
    let m = RelayMessage::new(AgentId::new("a1"), "ping", 3);
    let r1 = m.relay().unwrap();
    let r2 = r1.relay().unwrap();
    let r3 = r2.relay().unwrap();
    assert_eq!(r3.hops, 3);
    assert_eq!(r3.origin, AgentId::new("a1"));
    assert_eq!(r3.payload, "ping");
    assert_eq!(r3.max_hops, 3);
    assert!(r3.relay().is_none());
    assert!(RelayMessage::new(AgentId::new("a"), "x", 0).relay().is_none());
    assert_eq!(r1.clone(), r1);
    assert_ne!(r1, r2);
}

#[test]
fn relay_errors_name_the_problem() {
    let p = platoon_with(&["a1", "a2"]);
    let err = relay_through_platoon(&p, &AgentId::new("ghost"), &AgentId::new("nobody"), "x", 5);
    assert_eq!(err, Err("Agent ghost not in platoon".to_string()));
    let err = relay_through_platoon(&p, &AgentId::new("L"), &AgentId::new("nobody"), "x", 5);
    assert_eq!(err, Err("Agent nobody not in platoon".to_string()));
    let err = relay_through_platoon(&p, &AgentId::new("a2"), &AgentId::new("L"), "x", 1);
    assert_eq!(err, Err("Requires 2 hops, max is 1".to_string()));
}

#[test]
fn relay_paths_are_symmetric_and_bounded() {
    let p = platoon_with(&["a1", "a2", "a3"]);
    let there = relay_through_platoon(&p, &AgentId::new("a1"), &AgentId::new("a3"), "x", 2).unwrap();
    let back = relay_through_platoon(&p, &AgentId::new("a3"), &AgentId::new("a1"), "x", 2).unwrap();
    assert_eq!(there, back);
    assert_eq!(there, vec![AgentId::new("a1"), AgentId::new("a2"), AgentId::new("a3")]);
    let itself = relay_through_platoon(&p, &AgentId::new("a2"), &AgentId::new("a2"), "x", 0).unwrap();
    assert_eq!(itself, vec![AgentId::new("a2")]);
}

#[test]
fn small_grid_still_places_every_follower() {
    let mut p = platoon_with(&[]);
    p.set_formation(FormationPattern::Grid { rows: 1, cols: 1 });
    p.add_follower(AgentId::new("a1"));
    p.add_follower(AgentId::new("a2"));
    p.add_follower(AgentId::new("a3"));
    assert_eq!(pos_of(&p, "a1"), Some(Position::new(0, 2)));
    assert_eq!(pos_of(&p, "a2"), Some(Position::new(0, 4)));
    assert_eq!(pos_of(&p, "a3"), Some(Position::new(0, 6)));
    assert_eq!(p.formation_integrity(0), 3);
}

#[test]
fn position_entries_list_every_agent_once() {
    let p = platoon_with(&["a1", "a2"]);
    let mut entries = p.positions.entries();
    entries.sort_by(|a, b| a.0 .0.cmp(&b.0 .0));
    assert_eq!(
        entries,
        vec![
            (AgentId::new("L"), Position::new(0, 0)),
            (AgentId::new("a1"), Position::new(2, 0)),
            (AgentId::new("a2"), Position::new(4, 0)),
        ]
    );
}

#[test]
fn integrity_grows_with_tolerance() {
    let mut p = platoon_with(&["a1", "a2", "a3"]);
    p.positions.insert(AgentId::new("a1"), Position::new(3, 0));
    p.positions.insert(AgentId::new("a2"), Position::new(4, 5));
    let counts: Vec<usize> = (0..7).map(|t| p.formation_integrity(t)).collect();
    assert_eq!(counts, vec![1, 2, 2, 2, 2, 3, 3]);
}

#[test]
fn two_moves_equal_one_summed_move() {
    let mut p = platoon_with(&["a1", "a2"]);
    p.set_formation(FormationPattern::Wedge);
    let mut twice = PlatoonController::new(p.clone(), 1);
    let mut once = PlatoonController::new(p.clone(), 1);
    twice.speed = 3;
    once.speed = 3;
    twice.move_platoon(1, 2);
    twice.move_platoon(3, -1);
    once.move_platoon(4, 1);
    let mut a = twice.platoon.positions.entries();
    let mut b = once.platoon.positions.entries();
    a.sort_by(|x, y| x.0 .0.cmp(&y.0 .0));
    b.sort_by(|x, y| x.0 .0.cmp(&y.0 .0));
    assert_eq!(a, b);
    assert_eq!(pos_of(&once.platoon, "L"), Some(Position::new(12, 3)));
    twice.move_platoon(-4, -1);
    assert_eq!(pos_of(&twice.platoon, "L"), Some(Position::new(0, 0)));
}

#[test]
fn split_then_merge_restores_the_platoon() {
    let mut p = platoon_with(&["a1", "a2", "a3", "a4"]);
    p.set_formation(FormationPattern::Grid { rows: 2, cols: 2 });
    let r = split_platoon(&p, 2, "b", AgentId::new("M"), Position::new(-5, 5));
    let mut primary = r.primary;
    merge_platoons(&mut primary, &r.secondary);
    assert_eq!(primary.name, p.name);
    assert_eq!(primary.leader, p.leader);
    assert_eq!(primary.formation, p.formation);
    assert_eq!(primary.followers, p.followers);
    let mut a = primary.positions.entries();
    let mut b = p.positions.entries();
    a.sort_by(|x, y| x.0 .0.cmp(&y.0 .0));
    b.sort_by(|x, y| x.0 .0.cmp(&y.0 .0));
    assert_eq!(a, b);
}
