//! Platoons: a leader, its followers in order, a formation, and everyone's positions.

use vstd::prelude::*;

use crate::formation::{FormationPattern, formation_positions, pattern_fits};
use crate::position::{AgentId, Position, distance_fits, manhattan};
use crate::position_map::PositionMap;

verus! {

/// What a platoon holds, as mathematical values.
pub struct PlatoonView {
    pub name: Seq<char>,
    pub leader: Seq<char>,
    pub followers: Seq<Seq<char>>,
    pub formation: FormationPattern,
    pub positions: Map<Seq<char>, Position>,
}

/// `m` after giving `ids[j]` the position `ideal[j]`, for each `j < k` in turn.
pub open spec fn place(
    m: Map<Seq<char>, Position>,
    ids: Seq<Seq<char>>,
    ideal: Seq<Position>,
    k: nat,
) -> Map<Seq<char>, Position>
    decreases k,
{
    if k == 0 {
        m
    } else {
        place(m, ids, ideal, (k - 1) as nat).insert(ids[k - 1], ideal[k - 1])
    }
}

/// Whether follower `j` has a position within `tol` of `ideal[j]`.
pub open spec fn in_formation(
    m: Map<Seq<char>, Position>,
    ids: Seq<Seq<char>>,
    ideal: Seq<Position>,
    tol: int,
    j: int,
) -> bool {
    m.contains_key(ids[j]) && manhattan(m[ids[j]], ideal[j]) <= tol
}

/// How many of the first `k` followers are in formation.
pub open spec fn integrity_count(
    m: Map<Seq<char>, Position>,
    ids: Seq<Seq<char>>,
    ideal: Seq<Position>,
    tol: int,
    k: nat,
) -> nat
    decreases k,
{
    if k == 0 {
        0
    } else {
        integrity_count(m, ids, ideal, tol, (k - 1) as nat) + if in_formation(
            m,
            ids,
            ideal,
            tol,
            k - 1,
        ) {
            1nat
        } else {
            0nat
        }
    }
}

/// The test that keeps every name other than `id`.
pub open spec fn other_than(id: Seq<char>) -> spec_fn(Seq<char>) -> bool {
    |a: Seq<char>| a != id
}

/// `ids` without every occurrence of `id`, in order.
pub open spec fn without(ids: Seq<Seq<char>>, id: Seq<char>) -> Seq<Seq<char>> {
    ids.filter(other_than(id))
}

/// The outcome of checking the first `k` followers in turn and snapping each
/// one that is more than `tol` from `ideal` back onto it: the new positions,
/// and how many were moved.
pub open spec fn corrected(
    m: Map<Seq<char>, Position>,
    ids: Seq<Seq<char>>,
    ideal: Seq<Position>,
    tol: int,
    k: nat,
) -> (Map<Seq<char>, Position>, nat)
    decreases k,
{
    if k == 0 {
        (m, 0)
    } else {
        let (mk, c) = corrected(m, ids, ideal, tol, (k - 1) as nat);
        if mk.contains_key(ids[k - 1]) && manhattan(mk[ids[k - 1]], ideal[k - 1]) > tol {
            (mk.insert(ids[k - 1], ideal[k - 1]), c + 1)
        } else {
            (mk, c)
        }
    }
}

/// Every distance measured while correcting the first `k` followers can be
/// computed in `i32`.
pub open spec fn correction_fits(
    m: Map<Seq<char>, Position>,
    ids: Seq<Seq<char>>,
    ideal: Seq<Position>,
    tol: int,
    k: nat,
) -> bool
    decreases k,
{
    if k == 0 {
        true
    } else {
        let mk = corrected(m, ids, ideal, tol, (k - 1) as nat).0;
        &&& correction_fits(m, ids, ideal, tol, (k - 1) as nat)
        &&& mk.contains_key(ids[k - 1]) ==> distance_fits(mk[ids[k - 1]], ideal[k - 1])
    }
}

/// How many of the first `k` followers have a recorded position.
pub open spec fn placed_count(m: Map<Seq<char>, Position>, ids: Seq<Seq<char>>, k: nat) -> nat
    decreases k,
{
    if k == 0 {
        0
    } else {
        placed_count(m, ids, (k - 1) as nat) + if m.contains_key(ids[k - 1]) {
            1nat
        } else {
            0nat
        }
    }
}

/// The origin, where a leader without a recorded position is taken to stand.
pub open spec fn origin() -> Position {
    Position { x: 0, y: 0 }
}

impl PlatoonView {
    /// The leader's recorded position, or the origin when it has none.
    pub open spec fn leader_position(self) -> Position {
        if self.positions.contains_key(self.leader) {
            self.positions[self.leader]
        } else {
            origin()
        }
    }

    /// The ideal follower positions for the current formation and leader position.
    pub open spec fn ideal(self) -> Seq<Position> {
        formation_positions(self.formation, self.leader_position(), self.followers.len())
    }

    /// The ideal positions can be computed without `i32` overflow.
    pub open spec fn fits(self) -> bool {
        pattern_fits(self.formation, self.leader_position(), self.followers.len())
    }

    /// The platoon after every follower that has an ideal slot is placed on it.
    pub open spec fn recalculated(self) -> PlatoonView {
        PlatoonView {
            positions: place(self.positions, self.followers, self.ideal(), self.ideal().len()),
            ..self
        }
    }

    /// The platoon with `id` appended to its followers.
    pub open spec fn with_follower(self, id: Seq<char>) -> PlatoonView {
        PlatoonView { followers: self.followers.push(id), ..self }
    }

    /// The platoon with every occurrence of `id` dropped from the followers and
    /// its position forgotten.
    pub open spec fn dismissed(self, id: Seq<char>) -> PlatoonView {
        PlatoonView {
            followers: without(self.followers, id),
            positions: self.positions.remove(id),
            ..self
        }
    }

    /// The number of followers within `tol` of their ideal position.
    pub open spec fn integrity(self, tol: int) -> nat {
        integrity_count(self.positions, self.followers, self.ideal(), tol, self.ideal().len())
    }

    /// The platoon after snapping drifted followers back (see `corrected`), and
    /// the number of followers moved.
    pub open spec fn corrected(self, tol: int) -> (PlatoonView, nat) {
        let (m, c) = corrected(self.positions, self.followers, self.ideal(), tol, self.ideal().len());
        (PlatoonView { positions: m, ..self }, c)
    }

    /// Correcting the platoon measures no distance that overflows `i32`.
    pub open spec fn correction_fits(self, tol: int) -> bool {
        correction_fits(self.positions, self.followers, self.ideal(), tol, self.ideal().len())
    }

    /// The number of followers with an ideal slot that have a recorded position.
    pub open spec fn placed(self) -> nat {
        placed_count(self.positions, self.followers, self.ideal().len())
    }

    /// No follower is listed twice and the leader is not among the followers.
    pub open spec fn members_distinct(self) -> bool {
        &&& self.followers.no_duplicates()
        &&& !self.followers.contains(self.leader)
    }

    /// Each follower's distance to its ideal slot can be computed in `i32`.
    pub open spec fn integrity_fits(self) -> bool {
        forall|j: int|
            0 <= j < self.ideal().len() && self.positions.contains_key(self.followers[j])
                ==> distance_fits(self.positions[self.followers[j]], #[trigger] self.ideal()[j])
    }
}

/// A group of agents with a designated leader and formation pattern.
#[derive(Debug)]
pub struct Platoon {
    /// Unique name for this platoon.
    pub name: String,
    /// The leader agent.
    pub leader: AgentId,
    /// Follower agents in order.
    pub followers: Vec<AgentId>,
    /// Current formation pattern.
    pub formation: FormationPattern,
    /// Current positions of all agents (leader + followers).
    pub positions: PositionMap,
}

/// The names of a list of agents.
pub open spec fn names(ids: Seq<AgentId>) -> Seq<Seq<char>> {
    ids.map_values(|a: AgentId| a@)
}

impl View for Platoon {
    type V = PlatoonView;

    open spec fn view(&self) -> PlatoonView {
        PlatoonView {
            name: self.name@,
            leader: self.leader@,
            followers: names(self.followers@),
            formation: self.formation,
            positions: self.positions@,
        }
    }
}

impl Platoon {
    /// Create a new platoon with a leader at the given position.
    pub fn new(name: &str, leader: AgentId, leader_pos: Position) -> (p: Platoon)
        ensures
            p@ == (PlatoonView {
                name: name@,
                leader: leader@,
                followers: Seq::empty(),
                formation: FormationPattern::Line,
                positions: Map::empty().insert(leader@, leader_pos),
            }),
    {
        let mut positions = PositionMap::new();
        positions.insert(leader.clone(), leader_pos);
        let p = Platoon {
            name: name.to_owned(),
            leader,
            followers: Vec::new(),
            formation: FormationPattern::Line,
            positions,
        };
        assert(p@.followers =~= Seq::<Seq<char>>::empty());
        p
    }

    /// Total number of agents (leader + followers).
    pub fn size(&self) -> (n: usize)
        requires
            self.followers.len() < usize::MAX,
        ensures
            n == self@.followers.len() + 1,
    {
        self.followers.len() + 1
    }

    /// The leader's recorded position, or the origin when it has none.
    fn leader_position(&self) -> (p: Position)
        ensures
            p == self@.leader_position(),
    {
        match self.positions.get(&self.leader) {
            Some(p) => *p,
            None => Position::new(0, 0),
        }
    }

    /// Recalculate follower positions based on current formation and leader position.
    pub fn recalculate_positions(&mut self)
        requires
            old(self)@.fits(),
        ensures
            final(self)@ == old(self)@.recalculated(),
    {
        let leader_pos = self.leader_position();
        let ideal = self.formation.compute_positions(leader_pos, self.followers.len());
        let ghost v = self@;
        let mut i: usize = 0;
        while i < self.followers.len()
            invariant
                v == old(self)@,
                ideal@ == v.ideal(),
                i <= self.followers.len(),
                self@ == (PlatoonView {
                    positions: place(
                        v.positions,
                        v.followers,
                        v.ideal(),
                        if i <= ideal.len() { i as nat } else { ideal.len() as nat },
                    ),
                    ..v
                }),
            decreases self.followers.len() - i,
        {
            if i < ideal.len() {
                let id = self.followers[i].clone();
                self.positions.insert(id, ideal[i]);
            }
            i += 1;
        }
        proof {
            assert(ideal.len() <= self.followers.len());
        }
    }

    /// Add a follower to the platoon, placing it according to current formation.
    pub fn add_follower(&mut self, agent: AgentId)
        requires
            old(self)@.with_follower(agent@).fits(),
        ensures
            final(self)@ == old(self)@.with_follower(agent@).recalculated(),
    {
        self.followers.push(agent);
        assert(self@.followers =~= old(self)@.followers.push(agent@));
        self.recalculate_positions();
    }

    /// Set formation and recalculate all follower positions.
    pub fn set_formation(&mut self, pattern: FormationPattern)
        requires
            (PlatoonView { formation: pattern, ..old(self)@ }).fits(),
        ensures
            final(self)@ == (PlatoonView { formation: pattern, ..old(self)@ }).recalculated(),
    {
        self.formation = pattern;
        self.recalculate_positions();
    }

    /// Move the leader to a new position and recalculate follower positions.
    pub fn move_leader_to(&mut self, new_pos: Position)
        requires
            (PlatoonView {
                positions: old(self)@.positions.insert(old(self)@.leader, new_pos),
                ..old(self)@
            }).fits(),
        ensures
            final(self)@ == (PlatoonView {
                positions: old(self)@.positions.insert(old(self)@.leader, new_pos),
                ..old(self)@
            }).recalculated(),
    {
        let id = self.leader.clone();
        self.positions.insert(id, new_pos);
        self.recalculate_positions();
    }

    /// Get the formation integrity: how many followers are within tolerance of ideal positions.
    pub fn formation_integrity(&self, tolerance: i32) -> (count: usize)
        requires
            self@.fits(),
            self@.integrity_fits(),
        ensures
            count == self@.integrity(tolerance as int),
    {
        let leader_pos = self.leader_position();
        let ideal = self.formation.compute_positions(leader_pos, self.followers.len());
        let ghost v = self@;
        let mut count: usize = 0;
        let mut i: usize = 0;
        while i < self.followers.len()
            invariant
                v == self@,
                v.integrity_fits(),
                ideal@ == v.ideal(),
                ideal.len() <= self.followers.len(),
                i <= self.followers.len(),
                count == integrity_count(
                    v.positions,
                    v.followers,
                    v.ideal(),
                    tolerance as int,
                    if i <= ideal.len() { i as nat } else { ideal.len() as nat },
                ),
                count <= i,
            decreases self.followers.len() - i,
        {
            if i < ideal.len() {
                if let Some(actual) = self.positions.get(&self.followers[i]) {
                    assert(distance_fits(v.positions[v.followers[i as int]], v.ideal()[i as int]));
                    if actual.distance_to(&ideal[i]) <= tolerance {
                        count += 1;
                    }
                }
            }
            i += 1;
        }
        count
    }

    /// Remove a follower from the platoon.
    ///
    /// The agent's position is forgotten too, except that the leader keeps its
    /// position when its name is passed but it is not a follower.
    pub fn remove_follower(&mut self, agent: &AgentId) -> (removed: bool)
        requires
            old(self)@.followers.contains(agent@) ==> old(self)@.dismissed(agent@).fits(),
        ensures
            removed == old(self)@.followers.contains(agent@),
            final(self)@ == (if removed {
                old(self)@.dismissed(agent@).recalculated()
            } else if agent@ == old(self)@.leader {
                old(self)@
            } else {
                PlatoonView { positions: old(self)@.positions.remove(agent@), ..old(self)@ }
            }),
    {
        let ghost ids = self@.followers;
        let ghost id = agent@;
        let before = self.followers.len();
        let mut kept: Vec<AgentId> = Vec::new();
        let mut i: usize = 0;
        while i < self.followers.len()
            invariant
                ids == self@.followers,
                id == agent@,
                i <= self.followers.len(),
                names(kept@) == without(ids.take(i as int), id),
                kept.len() <= i,
                (kept.len() == i) == !ids.take(i as int).contains(id),
            decreases self.followers.len() - i,
        {
            let ghost prev = kept@;
            if self.followers[i] != *agent {
                kept.push(self.followers[i].clone());
            }
            proof {
                reveal(Seq::filter);
                assert(ids.take(i + 1).drop_last() =~= ids.take(i as int));
                assert(names(kept@) =~= without(ids.take(i + 1), id));
                if ids.take(i as int).contains(id) {
                    let j = choose|j: int| 0 <= j < i && #[trigger] ids.take(i as int)[j] == id;
                    assert(ids.take(i + 1)[j] == id);
                }
                if ids.take(i + 1).contains(id) && !ids.take(i as int).contains(id) {
                    let j = choose|j: int| 0 <= j < i + 1 && #[trigger] ids.take(i + 1)[j] == id;
                    if j < i {
                        assert(ids.take(i as int)[j] == id);
                    }
                }
                if ids[i as int] == id {
                    assert(ids.take(i + 1)[i as int] == id);
                }
            }
            i += 1;
        }
        proof {
            assert(ids.take(ids.len() as int) =~= ids);
        }
        if kept.len() != before {
            self.followers = kept;
            self.positions.remove(agent);
            self.recalculate_positions();
            true
        } else {
            if *agent != self.leader {
                self.positions.remove(agent);
            }
            false
        }
    }
}

/// A copy of a list of agents, name by name.
pub(crate) fn copy_agents(ids: &Vec<AgentId>) -> (copy: Vec<AgentId>)
    ensures
        names(copy@) == names(ids@),
{
    let mut copy: Vec<AgentId> = Vec::new();
    let mut i: usize = 0;
    while i < ids.len()
        invariant
            i <= ids.len(),
            copy.len() == i,
            forall|j: int| 0 <= j < i ==> #[trigger] copy@[j]@ == ids@[j]@,
        decreases ids.len() - i,
    {
        copy.push(ids[i].clone());
        i += 1;
    }
    assert(names(copy@) =~= names(ids@));
    copy
}

impl Clone for Platoon {
    fn clone(&self) -> (copy: Platoon)
        ensures
            copy@ == self@,
    {
        Platoon {
            name: self.name.clone(),
            leader: self.leader.clone(),
            followers: copy_agents(&self.followers),
            formation: self.formation,
            positions: self.positions.clone(),
        }
    }
}

/// Placing followers leaves every other name as it was.
pub(crate) proof fn lemma_place_frame(
    m: Map<Seq<char>, Position>,
    ids: Seq<Seq<char>>,
    ideal: Seq<Position>,
    k: nat,
    key: Seq<char>,
)
    requires
        forall|j: int| 0 <= j < k ==> ids[j] != key,
    ensures
        place(m, ids, ideal, k).contains_key(key) == m.contains_key(key),
        m.contains_key(key) ==> place(m, ids, ideal, k)[key] == m[key],
    decreases k,
{
    if k > 0 {
        lemma_place_frame(m, ids, ideal, (k - 1) as nat, key);
    }
}

/// With distinct names, each of the first `k` followers ends up on its slot.
pub(crate) proof fn lemma_place_hits(
    m: Map<Seq<char>, Position>,
    ids: Seq<Seq<char>>,
    ideal: Seq<Position>,
    k: nat,
    i: int,
)
    requires
        ids.no_duplicates(),
        k <= ids.len(),
        0 <= i < k,
    ensures
        place(m, ids, ideal, k).contains_key(ids[i]),
        place(m, ids, ideal, k)[ids[i]] == ideal[i],
    decreases k,
{
    if i < k - 1 {
        lemma_place_hits(m, ids, ideal, (k - 1) as nat, i);
        assert(ids[i] != ids[k - 1]);
    }
}

/// If each of the first `k` followers is in formation in `mm` exactly when it
/// has a position in `m`, the integrity count of `mm` is the placed count of `m`.
proof fn lemma_integrity_matches_placed(
    mm: Map<Seq<char>, Position>,
    m: Map<Seq<char>, Position>,
    ids: Seq<Seq<char>>,
    ideal: Seq<Position>,
    tol: int,
    k: nat,
)
    requires
        forall|j: int| 0 <= j < k ==> #[trigger] in_formation(mm, ids, ideal, tol, j) == m.contains_key(ids[j]),
    ensures
        integrity_count(mm, ids, ideal, tol, k) == placed_count(m, ids, k),
    decreases k,
{
    if k > 0 {
        lemma_integrity_matches_placed(mm, m, ids, ideal, tol, (k - 1) as nat);
        assert(in_formation(mm, ids, ideal, tol, k - 1) == m.contains_key(ids[k - 1]));
    }
}

/// Placing followers puts every one of them on its slot, so afterwards they
/// are all in formation (for any tolerance of at least 0).
proof fn lemma_place_in_formation(
    m: Map<Seq<char>, Position>,
    ids: Seq<Seq<char>>,
    ideal: Seq<Position>,
    tol: int,
    k: nat,
)
    requires
        ids.no_duplicates(),
        k <= ids.len(),
        k <= ideal.len(),
        tol >= 0,
    ensures
        integrity_count(place(m, ids, ideal, k), ids, ideal, tol, k) == k,
    decreases k,
{
    let mm = place(m, ids, ideal, k);
    assert forall|j: int| 0 <= j < k implies #[trigger] in_formation(mm, ids, ideal, tol, j) by {
        lemma_place_hits(m, ids, ideal, k, j);
    }
    lemma_all_in_formation(mm, ids, ideal, tol, k);
}

proof fn lemma_all_in_formation(
    mm: Map<Seq<char>, Position>,
    ids: Seq<Seq<char>>,
    ideal: Seq<Position>,
    tol: int,
    k: nat,
)
    requires
        forall|j: int| 0 <= j < k ==> #[trigger] in_formation(mm, ids, ideal, tol, j),
    ensures
        integrity_count(mm, ids, ideal, tol, k) == k,
    decreases k,
{
    if k > 0 {
        lemma_all_in_formation(mm, ids, ideal, tol, (k - 1) as nat);
        assert(in_formation(mm, ids, ideal, tol, k - 1));
    }
}

/// After a recalculation, with distinct members, the leader has not moved, the
/// ideal positions are unchanged, every follower with a slot stands on it, and
/// all of them count as in formation.
pub proof fn lemma_recalculated_in_formation(v: PlatoonView, tol: int)
    requires
        v.members_distinct(),
        tol >= 0,
    ensures
        v.recalculated().leader_position() == v.leader_position(),
        v.recalculated().ideal() == v.ideal(),
        forall|i: int|
            0 <= i < v.ideal().len() ==> v.recalculated().positions.contains_key(#[trigger] v.followers[i])
                && v.recalculated().positions[v.followers[i]] == v.ideal()[i],
        v.recalculated().integrity(tol) == v.ideal().len(),
        v.recalculated().members_distinct(),
        v.fits() ==> v.recalculated().fits(),
        v.recalculated().integrity_fits(),
{
    let k = v.ideal().len();
    crate::formation::lemma_formation_len(v.formation, v.leader_position(), v.followers.len());
    assert forall|j: int| 0 <= j < k implies v.followers[j] != v.leader by {
        assert(v.followers.contains(v.followers[j]));
    }
    lemma_place_frame(v.positions, v.followers, v.ideal(), k, v.leader);
    assert forall|i: int| 0 <= i < k implies v.recalculated().positions.contains_key(
        #[trigger] v.followers[i],
    ) && v.recalculated().positions[v.followers[i]] == v.ideal()[i] by {
        lemma_place_hits(v.positions, v.followers, v.ideal(), k, i);
    }
    lemma_place_in_formation(v.positions, v.followers, v.ideal(), tol, k);
    let w = v.recalculated();
    assert forall|j: int|
        0 <= j < w.ideal().len() && w.positions.contains_key(w.followers[j]) implies distance_fits(
        w.positions[w.followers[j]],
        #[trigger] w.ideal()[j],
    ) by {
        assert(w.positions[v.followers[j]] == v.ideal()[j]);
    }
}

/// Correcting leaves every name outside the first `k` followers as it was.
proof fn lemma_corrected_frame(
    m: Map<Seq<char>, Position>,
    ids: Seq<Seq<char>>,
    ideal: Seq<Position>,
    tol: int,
    k: nat,
    key: Seq<char>,
)
    requires
        forall|j: int| 0 <= j < k ==> ids[j] != key,
    ensures
        corrected(m, ids, ideal, tol, k).0.contains_key(key) == m.contains_key(key),
        m.contains_key(key) ==> corrected(m, ids, ideal, tol, k).0[key] == m[key],
    decreases k,
{
    if k > 0 {
        lemma_corrected_frame(m, ids, ideal, tol, (k - 1) as nat, key);
    }
}

/// After correcting the first `k` (distinct) followers, each of them is in
/// formation exactly when it has a position, and the corrections made plus
/// those already in formation are the followers that have a position.
proof fn lemma_corrected_progress(
    m: Map<Seq<char>, Position>,
    ids: Seq<Seq<char>>,
    ideal: Seq<Position>,
    tol: int,
    k: nat,
)
    requires
        ids.no_duplicates(),
        k <= ids.len(),
        k <= ideal.len(),
        tol >= 0,
    ensures
        forall|j: int|
            0 <= j < k ==> #[trigger] in_formation(corrected(m, ids, ideal, tol, k).0, ids, ideal, tol, j)
                == m.contains_key(ids[j]),
        corrected(m, ids, ideal, tol, k).1 + integrity_count(m, ids, ideal, tol, k) == placed_count(
            m,
            ids,
            k,
        ),
    decreases k,
{
    if k > 0 {
        let k1 = (k - 1) as nat;
        lemma_corrected_progress(m, ids, ideal, tol, k1);
        let mk = corrected(m, ids, ideal, tol, k1).0;
        let key = ids[k - 1];
        assert forall|j: int| 0 <= j < k1 implies ids[j] != key by {}
        lemma_corrected_frame(m, ids, ideal, tol, k1, key);
        let mn = corrected(m, ids, ideal, tol, k).0;
        assert forall|j: int| 0 <= j < k implies #[trigger] in_formation(mn, ids, ideal, tol, j)
            == m.contains_key(ids[j]) by {
            if j < k1 {
                assert(ids[j] != key);
                assert(in_formation(mk, ids, ideal, tol, j) == m.contains_key(ids[j]));
            }
        }
    }
}

/// Snapping drifted followers back leaves the leader and the ideal positions
/// unchanged and brings every follower that has a position into formation;
/// the number of corrections is the number of those that were out of it.
pub proof fn lemma_corrected_in_formation(v: PlatoonView, tol: int)
    requires
        v.members_distinct(),
        tol >= 0,
    ensures
        v.corrected(tol).0.leader_position() == v.leader_position(),
        v.corrected(tol).0.ideal() == v.ideal(),
        v.corrected(tol).0.integrity(tol) == v.placed(),
        v.corrected(tol).1 + v.integrity(tol) == v.placed(),
{
    let k = v.ideal().len();
    crate::formation::lemma_formation_len(v.formation, v.leader_position(), v.followers.len());
    assert forall|j: int| 0 <= j < k implies v.followers[j] != v.leader by {
        assert(v.followers.contains(v.followers[j]));
    }
    lemma_corrected_frame(v.positions, v.followers, v.ideal(), tol, k, v.leader);
    lemma_corrected_progress(v.positions, v.followers, v.ideal(), tol, k);
    lemma_integrity_matches_placed(
        corrected(v.positions, v.followers, v.ideal(), tol, k).0,
        v.positions,
        v.followers,
        v.ideal(),
        tol,
        k,
    );
}

/// Dismissing an agent removes it completely: it is no longer a follower, it
/// has no position (also after the remaining followers are re-placed), and
/// every other follower stays.
pub proof fn lemma_dismissed_gone(v: PlatoonView, id: Seq<char>, other: Seq<char>)
    requires
        other != id,
    ensures
        !v.dismissed(id).followers.contains(id),
        !v.dismissed(id).positions.contains_key(id),
        !v.dismissed(id).recalculated().positions.contains_key(id),
        v.followers.contains(other) ==> v.dismissed(id).followers.contains(other),
        v.members_distinct() ==> v.dismissed(id).members_distinct(),
        v.members_distinct() ==> v.dismissed(id).recalculated().members_distinct(),
{
    broadcast use vstd::seq_lib::group_filter_ensures;

    let w = v.dismissed(id);
    assert forall|j: int| 0 <= j < w.followers.len() implies w.followers[j] != id by {
        assert(other_than(id)(w.followers[j]));
    }
    crate::formation::lemma_formation_len(w.formation, w.leader_position(), w.followers.len());
    lemma_place_frame(w.positions, w.followers, w.ideal(), w.ideal().len(), id);
    if v.followers.contains(other) {
        let j = choose|j: int| 0 <= j < v.followers.len() && v.followers[j] == other;
        assert(other_than(id)(v.followers[j]));
    }
    if v.members_distinct() {
        lemma_without_distinct(v.followers, id);
        if w.followers.contains(v.leader) {
            v.followers.lemma_filter_contains_rev(other_than(id), v.leader);
        }
    }
}

/// Dropping a name from a list with no repeats leaves a list with no repeats.
proof fn lemma_without_distinct(ids: Seq<Seq<char>>, id: Seq<char>)
    requires
        ids.no_duplicates(),
    ensures
        without(ids, id).no_duplicates(),
    decreases ids.len(),
{
    reveal(Seq::filter);
    if ids.len() > 0 {
        let rest = ids.drop_last();
        let last = ids.last();
        assert(rest.no_duplicates());
        lemma_without_distinct(rest, id);
        if last != id {
            if without(rest, id).contains(last) {
                rest.lemma_filter_contains_rev(other_than(id), last);
                let k = choose|k: int| 0 <= k < rest.len() && rest[k] == last;
                assert(ids[k] == ids[ids.len() - 1]);
            }
            assert(without(ids, id) == without(rest, id).push(last));
        }
    }
}

/// Placing followers on slots they already occupy changes nothing.
proof fn lemma_place_settled(
    m: Map<Seq<char>, Position>,
    ids: Seq<Seq<char>>,
    ideal: Seq<Position>,
    k: nat,
)
    requires
        forall|j: int|
            0 <= j < k ==> m.contains_key(#[trigger] ids[j]) && m[ids[j]] == ideal[j],
    ensures
        place(m, ids, ideal, k) == m,
    decreases k,
{
    if k > 0 {
        lemma_place_settled(m, ids, ideal, (k - 1) as nat);
        assert(m.insert(ids[k - 1], ideal[k - 1]) =~= m);
    }
}

/// Recalculating twice is the same as recalculating once (with distinct members).
pub proof fn lemma_recalculate_idempotent(v: PlatoonView)
    requires
        v.members_distinct(),
    ensures
        v.recalculated().recalculated() == v.recalculated(),
{
    let w = v.recalculated();
    lemma_recalculated_in_formation(v, 0);
    lemma_place_settled(w.positions, w.followers, w.ideal(), w.ideal().len());
}

/// Correcting never gives a position to a name that had none, nor takes one away.
proof fn lemma_corrected_domain(
    m: Map<Seq<char>, Position>,
    ids: Seq<Seq<char>>,
    ideal: Seq<Position>,
    tol: int,
    k: nat,
)
    ensures
        corrected(m, ids, ideal, tol, k).0.dom() == m.dom(),
    decreases k,
{
    if k > 0 {
        lemma_corrected_domain(m, ids, ideal, tol, (k - 1) as nat);
        let mk = corrected(m, ids, ideal, tol, (k - 1) as nat).0;
        if mk.contains_key(ids[k - 1]) {
            assert(mk.insert(ids[k - 1], ideal[k - 1]).dom() =~= mk.dom());
        }
    }
}

/// Maps with the same names hold the same number of placed followers.
proof fn lemma_placed_same_domain(
    m1: Map<Seq<char>, Position>,
    m2: Map<Seq<char>, Position>,
    ids: Seq<Seq<char>>,
    k: nat,
)
    requires
        m1.dom() == m2.dom(),
    ensures
        placed_count(m1, ids, k) == placed_count(m2, ids, k),
    decreases k,
{
    if k > 0 {
        lemma_placed_same_domain(m1, m2, ids, (k - 1) as nat);
    }
}

/// Once drifted followers have been snapped back, a second correction moves
/// nobody (with distinct members and a tolerance of at least 0).
///
/// The corrected platoon also meets everything a second correction or an
/// integrity check asks of it: its members are still distinct, its layout fits
/// when the first one did, and every distance those calls measure fits in `i32`.
pub proof fn lemma_correction_settles(v: PlatoonView, tol: int)
    requires
        v.members_distinct(),
        0 <= tol <= i32::MAX,
    ensures
        v.corrected(tol).0.corrected(tol).1 == 0,
        v.corrected(tol).0.corrected(tol).0 == v.corrected(tol).0,
        v.corrected(tol).0.members_distinct(),
        v.fits() ==> v.corrected(tol).0.fits(),
        v.corrected(tol).0.integrity_fits(),
        v.corrected(tol).0.correction_fits(tol),
{
    let w = v.corrected(tol).0;
    lemma_corrected_in_formation(v, tol);
    lemma_corrected_in_formation(w, tol);
    let k = v.ideal().len();
    lemma_corrected_domain(v.positions, v.followers, v.ideal(), tol, k);
    lemma_placed_same_domain(w.positions, v.positions, v.followers, k);
    lemma_corrected_none(w.positions, w.followers, w.ideal(), tol, k);
    lemma_corrected_progress(v.positions, v.followers, v.ideal(), tol, k);
    assert forall|j: int|
        0 <= j < w.ideal().len() && w.positions.contains_key(w.followers[j]) implies distance_fits(
        w.positions[w.followers[j]],
        #[trigger] w.ideal()[j],
    ) by {
        assert(in_formation(w.positions, v.followers, v.ideal(), tol, j) == v.positions.contains_key(
            v.followers[j],
        ));
    }
    lemma_correction_fits_when_settled(w.positions, w.followers, w.ideal(), tol, k);
}

/// A correction that moves nobody measures only distances from the positions
/// as they are, so it fits when each of those fits.
proof fn lemma_correction_fits_when_settled(
    m: Map<Seq<char>, Position>,
    ids: Seq<Seq<char>>,
    ideal: Seq<Position>,
    tol: int,
    k: nat,
)
    requires
        corrected(m, ids, ideal, tol, k).1 == 0,
        forall|j: int|
            0 <= j < k && m.contains_key(ids[j]) ==> distance_fits(m[ids[j]], #[trigger] ideal[j]),
    ensures
        correction_fits(m, ids, ideal, tol, k),
    decreases k,
{
    if k > 0 {
        lemma_correction_fits_when_settled(m, ids, ideal, tol, (k - 1) as nat);
        lemma_corrected_none(m, ids, ideal, tol, (k - 1) as nat);
        assert(m.contains_key(ids[k - 1]) ==> distance_fits(m[ids[k - 1]], ideal[k - 1]));
    }
}

/// A looser tolerance never counts fewer followers as in formation.
pub proof fn lemma_integrity_grows_with_tolerance(v: PlatoonView, t1: int, t2: int)
    requires
        t1 <= t2,
    ensures
        v.integrity(t1) <= v.integrity(t2),
{
    lemma_integrity_count_monotone(v.positions, v.followers, v.ideal(), t1, t2, v.ideal().len());
}

proof fn lemma_integrity_count_monotone(
    m: Map<Seq<char>, Position>,
    ids: Seq<Seq<char>>,
    ideal: Seq<Position>,
    t1: int,
    t2: int,
    k: nat,
)
    requires
        t1 <= t2,
    ensures
        integrity_count(m, ids, ideal, t1, k) <= integrity_count(m, ids, ideal, t2, k),
    decreases k,
{
    if k > 0 {
        lemma_integrity_count_monotone(m, ids, ideal, t1, t2, (k - 1) as nat);
    }
}

/// A correction that moves nobody leaves the positions as they were.
proof fn lemma_corrected_none(
    m: Map<Seq<char>, Position>,
    ids: Seq<Seq<char>>,
    ideal: Seq<Position>,
    tol: int,
    k: nat,
)
    requires
        corrected(m, ids, ideal, tol, k).1 == 0,
    ensures
        corrected(m, ids, ideal, tol, k).0 == m,
    decreases k,
{
    if k > 0 {
        lemma_corrected_none(m, ids, ideal, tol, (k - 1) as nat);
    }
}

/// Placing a prefix of the followers (on any slots) and then all of them gives
/// the same map as placing all of them at once: the second placement
/// overwrites the first.
pub(crate) proof fn lemma_place_restack(
    m: Map<Seq<char>, Position>,
    f: Seq<Seq<char>>,
    ideal: Seq<Position>,
    a: nat,
    g: Seq<Seq<char>>,
    ideal2: Seq<Position>,
    b: nat,
)
    requires
        g.no_duplicates(),
        a <= b <= g.len(),
        a <= f.len(),
        forall|j: int| 0 <= j < a ==> f[j] == g[j],
    ensures
        place(place(m, f, ideal, a), g, ideal2, b) == place(m, g, ideal2, b),
{
    let p = place(m, f, ideal, a);
    let lhs = place(p, g, ideal2, b);
    let rhs = place(m, g, ideal2, b);
    assert forall|key: Seq<char>|
        #[trigger] lhs.contains_key(key) == rhs.contains_key(key) && (lhs.contains_key(key) ==> lhs[key]
            == rhs[key]) by {
        if exists|j: int| 0 <= j < b && g[j] == key {
            let j = choose|j: int| 0 <= j < b && g[j] == key;
            lemma_place_hits(p, g, ideal2, b, j);
            lemma_place_hits(m, g, ideal2, b, j);
        } else {
            lemma_place_frame(p, g, ideal2, b, key);
            lemma_place_frame(m, g, ideal2, b, key);
            assert forall|j: int| 0 <= j < a implies f[j] != key by {
                assert(g[j] != key);
            }
            lemma_place_frame(m, f, ideal, a, key);
        }
    }
    assert(lhs =~= rhs);
}

/// Giving a name that is not among the first `k` followers a position commutes
/// with placing those followers.
pub(crate) proof fn lemma_place_insert_commute(
    m: Map<Seq<char>, Position>,
    ids: Seq<Seq<char>>,
    ideal: Seq<Position>,
    k: nat,
    key: Seq<char>,
    value: Position,
)
    requires
        forall|j: int| 0 <= j < k ==> ids[j] != key,
    ensures
        place(m, ids, ideal, k).insert(key, value) == place(m.insert(key, value), ids, ideal, k),
    decreases k,
{
    if k > 0 {
        lemma_place_insert_commute(m, ids, ideal, (k - 1) as nat, key, value);
        let prev = place(m, ids, ideal, (k - 1) as nat);
        assert(prev.insert(ids[k - 1], ideal[k - 1]).insert(key, value) =~= prev.insert(
            key,
            value,
        ).insert(ids[k - 1], ideal[k - 1]));
    }
}

/// Dismissing an agent touches no other recorded position: every other name,
/// the leader's included, keeps its position. So unless the dismissed agent is
/// the leader, the leader stays where it was, and re-placing the remaining
/// followers does not move it either (when it is not among them).
pub proof fn lemma_dismissal_keeps_others(v: PlatoonView, id: Seq<char>)
    ensures
        forall|key: Seq<char>|
            key != id ==> (#[trigger] v.dismissed(id).positions.contains_key(key)
                == v.positions.contains_key(key) && (v.positions.contains_key(key)
                ==> v.dismissed(id).positions[key] == v.positions[key])),
        v.dismissed(id).leader == v.leader,
        v.dismissed(id).formation == v.formation,
        id != v.leader ==> v.dismissed(id).leader_position() == v.leader_position(),
        id != v.leader && !v.dismissed(id).followers.contains(v.leader) ==> v.dismissed(
            id,
        ).recalculated().leader_position() == v.leader_position(),
{
    let w = v.dismissed(id);
    if id != v.leader && !w.followers.contains(v.leader) {
        crate::formation::lemma_formation_len(w.formation, w.leader_position(), w.followers.len());
        assert forall|j: int| 0 <= j < w.ideal().len() implies w.followers[j] != v.leader by {
            if w.followers[j] == v.leader {
                assert(w.followers.contains(w.followers[j]));
            }
        }
        lemma_place_frame(w.positions, w.followers, w.ideal(), w.ideal().len(), v.leader);
    }
}

} // verus!
