//! Moving a platoon while keeping its formation.

use vstd::prelude::*;

use crate::formation::{FormationPattern, formation_positions, in_i32};
use crate::platoon::{
    Platoon, PlatoonView, corrected, correction_fits, lemma_place_insert_commute,
    lemma_place_restack, lemma_recalculated_in_formation, place,
};
use crate::position::{AgentId, Position};

verus! {

/// Controls platoon movement, maintaining formation during operations.
#[derive(Debug)]
pub struct PlatoonController {
    /// The platoon being controlled.
    pub platoon: Platoon,
    /// Maximum distance a follower can be from its ideal position before correction.
    pub tolerance: i32,
    /// Speed multiplier for movement (1 = normal, 2 = double speed, etc.).
    pub speed: u32,
}

/// The speed as the signed factor that movement multiplies by (the bits of
/// `speed` read as an `i32`).
pub open spec fn speed_factor(speed: u32) -> int {
    (speed as i32) as int
}

/// Where the leader ends up when moving by `(dx, dy)` steps at `speed`.
pub open spec fn move_target(v: PlatoonView, dx: i32, dy: i32, speed: u32) -> Position {
    Position {
        x: (v.leader_position().x + dx * speed_factor(speed)) as i32,
        y: (v.leader_position().y + dy * speed_factor(speed)) as i32,
    }
}

/// The movement by `(dx, dy)` at `speed` can be computed in `i32`.
pub open spec fn move_fits(v: PlatoonView, dx: i32, dy: i32, speed: u32) -> bool {
    &&& in_i32(dx * speed_factor(speed))
    &&& in_i32(dy * speed_factor(speed))
    &&& in_i32(v.leader_position().x + dx * speed_factor(speed))
    &&& in_i32(v.leader_position().y + dy * speed_factor(speed))
}

/// The platoon with its leader placed at `p`.
pub open spec fn leader_moved(v: PlatoonView, p: Position) -> PlatoonView {
    PlatoonView { positions: v.positions.insert(v.leader, p), ..v }
}

impl PlatoonController {
    pub fn new(platoon: Platoon, tolerance: i32) -> (c: PlatoonController)
        ensures
            c.platoon@ == platoon@,
            c.tolerance == tolerance,
            c.speed == 1,
    {
        PlatoonController { platoon, tolerance, speed: 1 }
    }

    /// Move the platoon in a direction (dx, dy) by the speed amount.
    pub fn move_platoon(&mut self, dx: i32, dy: i32)
        requires
            move_fits(old(self).platoon@, dx, dy, old(self).speed),
            leader_moved(
                old(self).platoon@,
                move_target(old(self).platoon@, dx, dy, old(self).speed),
            ).fits(),
        ensures
            final(self).platoon@ == leader_moved(
                old(self).platoon@,
                move_target(old(self).platoon@, dx, dy, old(self).speed),
            ).recalculated(),
            final(self).tolerance == old(self).tolerance,
            final(self).speed == old(self).speed,
    {
        let factor: i32 = self.speed as i32;
        let step_x: i32 = dx * factor;
        let step_y: i32 = dy * factor;
        let leader_pos = match self.platoon.positions.get(&self.platoon.leader) {
            Some(p) => *p,
            None => Position::new(0, 0),
        };
        let new_pos = Position::new(leader_pos.x + step_x, leader_pos.y + step_y);
        self.platoon.move_leader_to(new_pos);
    }

    /// Transition to a new formation pattern.
    pub fn transition_formation(&mut self, pattern: FormationPattern)
        requires
            (PlatoonView { formation: pattern, ..old(self).platoon@ }).fits(),
        ensures
            final(self).platoon@ == (PlatoonView {
                formation: pattern,
                ..old(self).platoon@
            }).recalculated(),
            final(self).tolerance == old(self).tolerance,
            final(self).speed == old(self).speed,
    {
        self.platoon.set_formation(pattern);
    }

    /// Check and correct followers that have drifted beyond tolerance.
    /// Returns the number of followers corrected.
    pub fn correct_formation(&mut self) -> (count: usize)
        requires
            old(self).platoon@.fits(),
            old(self).platoon@.correction_fits(old(self).tolerance as int),
        ensures
            final(self).platoon@ == old(self).platoon@.corrected(old(self).tolerance as int).0,
            count == old(self).platoon@.corrected(old(self).tolerance as int).1,
            final(self).tolerance == old(self).tolerance,
            final(self).speed == old(self).speed,
    {
        let leader_pos = match self.platoon.positions.get(&self.platoon.leader) {
            Some(p) => *p,
            None => Position::new(0, 0),
        };
        let ideal = self.platoon.formation.compute_positions(leader_pos, self.platoon.followers.len());
        let ghost v = self.platoon@;
        let ghost tol = self.tolerance as int;
        let mut corrected_count: usize = 0;
        let mut i: usize = 0;
        while i < self.platoon.followers.len()
            invariant
                v == old(self).platoon@,
                tol == old(self).tolerance,
                self.tolerance == old(self).tolerance,
                self.speed == old(self).speed,
                ideal@ == v.ideal(),
                ideal.len() <= self.platoon.followers.len(),
                v.correction_fits(tol),
                i <= self.platoon.followers.len(),
                ({
                    let k: nat = if i <= ideal.len() { i as nat } else { ideal.len() as nat };
                    &&& self.platoon@ == (PlatoonView {
                        positions: corrected(v.positions, v.followers, v.ideal(), tol, k).0,
                        ..v
                    })
                    &&& corrected_count == corrected(v.positions, v.followers, v.ideal(), tol, k).1
                    &&& correction_fits(v.positions, v.followers, v.ideal(), tol, k)
                }),
                corrected_count <= i,
            decreases self.platoon.followers.len() - i,
        {
            if i < ideal.len() {
                proof {
                    lemma_correction_fits_prefix(v.positions, v.followers, v.ideal(), tol, (i + 1) as nat, ideal.len() as nat);
                }
                let id = self.platoon.followers[i].clone();
                if let Some(actual) = self.platoon.positions.get(&id) {
                    let actual: Position = *actual;
                    if actual.distance_to(&ideal[i]) > self.tolerance {
                        self.platoon.positions.insert(id, ideal[i]);
                        corrected_count += 1;
                    }
                }
            }
            i += 1;
        }
        corrected_count
    }

    /// Set a follower's actual position (simulating real-world drift).
    pub fn set_follower_position(&mut self, agent: &AgentId, pos: Position)
        ensures
            final(self).platoon@ == (PlatoonView {
                positions: old(self).platoon@.positions.insert(agent@, pos),
                ..old(self).platoon@
            }),
            final(self).tolerance == old(self).tolerance,
            final(self).speed == old(self).speed,
    {
        self.platoon.positions.insert(agent.clone(), pos);
    }
}

/// Checks that fit for the first `k` followers also fit for fewer.
proof fn lemma_correction_fits_prefix(
    m: Map<Seq<char>, Position>,
    ids: Seq<Seq<char>>,
    ideal: Seq<Position>,
    tol: int,
    j: nat,
    k: nat,
)
    requires
        j <= k,
        correction_fits(m, ids, ideal, tol, k),
    ensures
        correction_fits(m, ids, ideal, tol, j),
    decreases k - j,
{
    if j < k {
        lemma_correction_fits_prefix(m, ids, ideal, tol, j, (k - 1) as nat);
    }
}

/// Moving the leader to `p` (with distinct members) puts the leader on `p`
/// and every follower with a slot on the formation position around `p`.
pub proof fn lemma_move_keeps_formation(v: PlatoonView, p: Position)
    requires
        v.members_distinct(),
    ensures
        leader_moved(v, p).recalculated().leader_position() == p,
        forall|i: int|
            0 <= i < formation_positions(v.formation, p, v.followers.len()).len()
                ==> leader_moved(v, p).recalculated().positions[#[trigger] v.followers[i]]
                == formation_positions(v.formation, p, v.followers.len())[i],
        leader_moved(v, p).recalculated().integrity(0) == formation_positions(
            v.formation,
            p,
            v.followers.len(),
        ).len(),
{
    let w = leader_moved(v, p);
    assert(w.leader_position() == p);
    lemma_recalculated_in_formation(w, 0);
}

/// Moving the platoon by `(dx, dy)` advances the leader by `dx` and `dy`
/// times the speed factor.
pub proof fn lemma_move_step(v: PlatoonView, dx: i32, dy: i32, speed: u32)
    requires
        move_fits(v, dx, dy, speed),
        v.members_distinct(),
    ensures
        leader_moved(v, move_target(v, dx, dy, speed)).recalculated().leader_position().x
            == v.leader_position().x + dx * speed_factor(speed),
        leader_moved(v, move_target(v, dx, dy, speed)).recalculated().leader_position().y
            == v.leader_position().y + dy * speed_factor(speed),
{
    lemma_move_keeps_formation(v, move_target(v, dx, dy, speed));
}

/// Two moves add up: moving by `(dx1, dy1)` and then by `(dx2, dy2)` leaves
/// the platoon exactly as one move by `(dx1 + dx2, dy1 + dy2)` at the same
/// speed (with distinct members and no `i32` overflow in either way of moving).
/// In particular a move followed by the opposite move puts the leader back.
pub proof fn lemma_moves_add_up(
    v: PlatoonView,
    dx1: i32,
    dy1: i32,
    dx2: i32,
    dy2: i32,
    dx: i32,
    dy: i32,
    speed: u32,
)
    requires
        v.members_distinct(),
        dx == dx1 + dx2,
        dy == dy1 + dy2,
        move_fits(v, dx1, dy1, speed),
        move_fits(v, dx, dy, speed),
        in_i32(dx2 * speed_factor(speed)),
        in_i32(dy2 * speed_factor(speed)),
    ensures
        ({
            let v1 = leader_moved(v, move_target(v, dx1, dy1, speed)).recalculated();
            &&& move_fits(v1, dx2, dy2, speed)
            &&& leader_moved(v1, move_target(v1, dx2, dy2, speed)).fits() == leader_moved(
                v,
                move_target(v, dx, dy, speed),
            ).fits()
            &&& leader_moved(v1, move_target(v1, dx2, dy2, speed)).recalculated() == leader_moved(
                v,
                move_target(v, dx, dy, speed),
            ).recalculated()
        }),
{
    let s = speed_factor(speed);
    let p1 = move_target(v, dx1, dy1, speed);
    let p = move_target(v, dx, dy, speed);
    let a = leader_moved(v, p1);
    let v1 = a.recalculated();
    lemma_move_keeps_formation(v, p1);
    assert(dx * s == dx1 * s + dx2 * s) by (nonlinear_arith)
        requires
            dx == dx1 + dx2,
    ;
    assert(dy * s == dy1 * s + dy2 * s) by (nonlinear_arith)
        requires
            dy == dy1 + dy2,
    ;
    let p2 = move_target(v1, dx2, dy2, speed);
    assert(p2 == p);
    let n = v.followers.len();
    crate::formation::lemma_formation_len(v.formation, p1, n);
    crate::formation::lemma_formation_len(v.formation, p, n);
    assert forall|j: int| 0 <= j < n implies v.followers[j] != v.leader by {
        assert(v.followers.contains(v.followers[j]));
    }
    let m1 = v.positions.insert(v.leader, p1);
    let m2 = v.positions.insert(v.leader, p);
    lemma_place_insert_commute(m1, v.followers, a.ideal(), n, v.leader, p);
    assert(m1.insert(v.leader, p) =~= m2);
    let b = leader_moved(v1, p);
    assert(b.positions == place(m2, v.followers, a.ideal(), n));
    assert(b.leader_position() == p);
    lemma_place_restack(m2, v.followers, a.ideal(), n, v.followers, b.ideal(), n);
}

/// The speed factor is the speed itself whenever the speed fits in `i32`;
/// a larger speed reads as that value less 2^32.
pub proof fn lemma_speed_factor(speed: u32)
    ensures
        speed <= i32::MAX ==> speed_factor(speed) == speed,
        speed > i32::MAX ==> speed_factor(speed) == speed - 0x1_0000_0000,
{
    if speed > i32::MAX {
        assert(((speed as i32) as int) == speed - 0x1_0000_0000) by (bit_vector)
            requires
                speed > 0x7fff_ffffu32,
        ;
    }
}

/// Moving by `(dx, dy)` at a speed that fits in `i32` advances the leader by
/// exactly `dx * speed` and `dy * speed`, and keeps every follower on its
/// formation slot around the new leader position.
pub proof fn lemma_move_by_speed(v: PlatoonView, dx: i32, dy: i32, speed: u32)
    requires
        speed <= i32::MAX,
        move_fits(v, dx, dy, speed),
        v.members_distinct(),
    ensures
        ({
            let w = leader_moved(v, move_target(v, dx, dy, speed)).recalculated();
            &&& w.leader_position().x == v.leader_position().x + dx * speed
            &&& w.leader_position().y == v.leader_position().y + dy * speed
            &&& w.ideal() == formation_positions(v.formation, w.leader_position(), v.followers.len())
        }),
{
    lemma_speed_factor(speed);
    lemma_move_step(v, dx, dy, speed);
    lemma_move_keeps_formation(v, move_target(v, dx, dy, speed));
}

} // verus!
