//! Splitting one platoon into two, and merging two into one.

use vstd::prelude::*;

use crate::formation::FormationPattern;
use crate::platoon::{
    Platoon, PlatoonView, in_formation, integrity_count, lemma_place_frame, lemma_place_hits,
    lemma_place_restack, names, place,
};
use crate::position::{AgentId, Position};

verus! {

/// Result of splitting a platoon into two.
#[derive(Debug)]
pub struct SplitResult {
    pub primary: Platoon,
    pub secondary: Platoon,
}

/// The part of `v` that stays with its leader when splitting at `at`: the
/// followers before `at`, without the positions of those who leave.
pub open spec fn split_primary(v: PlatoonView, at: nat) -> PlatoonView {
    PlatoonView {
        followers: v.followers.subrange(0, at as int),
        positions: v.positions.remove_keys(
            v.followers.subrange(at as int, v.followers.len() as int).to_set(),
        ),
        ..v
    }
}

/// The new platoon formed when splitting `v` at `at`: a fresh platoon under
/// `leader` at `leader_pos`, in `v`'s formation, with the followers from `at` on.
pub open spec fn split_secondary(
    v: PlatoonView,
    at: nat,
    name: Seq<char>,
    leader: Seq<char>,
    leader_pos: Position,
) -> PlatoonView {
    PlatoonView {
        name,
        leader,
        followers: v.followers.subrange(at as int, v.followers.len() as int),
        formation: v.formation,
        positions: Map::empty().insert(leader, leader_pos),
    }
}

/// Split a platoon at the given index. Followers [0..at) stay with the leader,
/// followers [at..] form a new platoon with a new leader.
pub fn split_platoon(
    platoon: &Platoon,
    at: usize,
    secondary_name: &str,
    secondary_leader: AgentId,
    secondary_leader_pos: Position,
) -> (result: SplitResult)
    requires
        at <= platoon.followers.len(),
        split_primary(platoon@, at as nat).fits(),
        split_secondary(
            platoon@,
            at as nat,
            secondary_name@,
            secondary_leader@,
            secondary_leader_pos,
        ).fits(),
    ensures
        result.primary@ == split_primary(platoon@, at as nat).recalculated(),
        result.secondary@ == split_secondary(
            platoon@,
            at as nat,
            secondary_name@,
            secondary_leader@,
            secondary_leader_pos,
        ).recalculated(),
{
    let ghost v = platoon@;
    let mut primary = platoon.clone();
    let mut secondary = Platoon::new(secondary_name, secondary_leader, secondary_leader_pos);
    secondary.formation = platoon.formation;

    let removed: Vec<AgentId> = primary.followers.split_off(at);
    let ghost leaving = v.followers.subrange(at as int, v.followers.len() as int);
    proof {
        assert(names(removed@) =~= leaving);
        assert(names(primary.followers@) =~= v.followers.subrange(0, at as int));
        assert(leaving.take(0).to_set() =~= Set::<Seq<char>>::empty());
        assert(v.positions.remove_keys(leaving.take(0).to_set()) =~= v.positions);
    }
    let mut i: usize = 0;
    while i < removed.len()
        invariant
            i <= removed.len(),
            at <= v.followers.len(),
            names(removed@) == leaving,
            primary@ == (PlatoonView {
                followers: v.followers.subrange(0, at as int),
                positions: v.positions.remove_keys(leaving.take(i as int).to_set()),
                ..v
            }),
        decreases removed.len() - i,
    {
        primary.positions.remove(&removed[i]);
        proof {
            assert(leaving.take(i + 1).to_set() =~= leaving.take(i as int).to_set().insert(
                leaving[i as int],
            )) by {
                assert forall|q: Seq<char>|
                    leaving.take(i + 1).to_set().contains(q) implies leaving.take(
                    i as int,
                ).to_set().insert(leaving[i as int]).contains(q) by {
                    let j = choose|j: int| 0 <= j < i + 1 && #[trigger] leaving.take(i + 1)[j] == q;
                    if j < i {
                        assert(leaving.take(i as int)[j] == q);
                    }
                }
                assert forall|q: Seq<char>|
                    leaving.take(i as int).to_set().insert(leaving[i as int]).contains(
                        q,
                    ) implies leaving.take(i + 1).to_set().contains(q) by {
                    if q == leaving[i as int] {
                        assert(leaving.take(i + 1)[i as int] == q);
                    } else {
                        let j = choose|j: int| 0 <= j < i && #[trigger] leaving.take(i as int)[j] == q;
                        assert(leaving.take(i + 1)[j] == q);
                    }
                }
            }
            assert(primary@.positions =~= v.positions.remove_keys(leaving.take(i + 1).to_set()));
        }
        i += 1;
    }
    proof {
        assert(leaving.take(leaving.len() as int) =~= leaving);
    }
    secondary.followers = removed;
    secondary.recalculate_positions();
    primary.recalculate_positions();

    SplitResult { primary, secondary }
}

/// `v` after adding the first `k` of `ids` one at a time, recalculating
/// positions after each.
pub open spec fn merged(v: PlatoonView, ids: Seq<Seq<char>>, k: nat) -> PlatoonView
    decreases k,
{
    if k == 0 {
        v
    } else {
        merged(v, ids, (k - 1) as nat).with_follower(ids[k - 1]).recalculated()
    }
}

/// Every recalculation made while adding the first `k` of `ids` fits in `i32`.
pub open spec fn merge_fits(v: PlatoonView, ids: Seq<Seq<char>>, k: nat) -> bool
    decreases k,
{
    if k == 0 {
        true
    } else {
        &&& merge_fits(v, ids, (k - 1) as nat)
        &&& merged(v, ids, (k - 1) as nat).with_follower(ids[k - 1]).fits()
    }
}

proof fn lemma_merge_fits_prefix(v: PlatoonView, ids: Seq<Seq<char>>, j: nat, k: nat)
    requires
        j <= k,
        merge_fits(v, ids, k),
    ensures
        merge_fits(v, ids, j),
    decreases k - j,
{
    if j < k {
        lemma_merge_fits_prefix(v, ids, j, (k - 1) as nat);
    }
}

/// Merge two platoons. The secondary's followers join the primary.
pub fn merge_platoons(primary: &mut Platoon, secondary: &Platoon)
    requires
        merge_fits(old(primary)@, secondary@.followers, secondary@.followers.len()),
    ensures
        final(primary)@ == merged(
            old(primary)@,
            secondary@.followers,
            secondary@.followers.len(),
        ),
{
    let ghost v = primary@;
    let ghost ids = secondary@.followers;
    let mut i: usize = 0;
    while i < secondary.followers.len()
        invariant
            v == old(primary)@,
            ids == secondary@.followers,
            i <= secondary.followers.len(),
            merge_fits(v, ids, ids.len()),
            primary@ == merged(v, ids, i as nat),
        decreases secondary.followers.len() - i,
    {
        proof {
            lemma_merge_fits_prefix(v, ids, (i + 1) as nat, ids.len());
        }
        primary.add_follower(secondary.followers[i].clone());
        i += 1;
    }
}

/// Splitting keeps every follower exactly once: those before `at` stay, in
/// order, with the original leader, name and formation; the rest follow the
/// new leader in the same formation. When no follower is listed twice, those
/// who leave are no longer positioned in the original platoon.
pub proof fn lemma_split_partitions(
    v: PlatoonView,
    at: nat,
    name: Seq<char>,
    leader: Seq<char>,
    leader_pos: Position,
)
    requires
        at <= v.followers.len(),
    ensures
        split_primary(v, at).recalculated().followers + split_secondary(
            v,
            at,
            name,
            leader,
            leader_pos,
        ).recalculated().followers == v.followers,
        split_primary(v, at).recalculated().leader == v.leader,
        split_primary(v, at).recalculated().name == v.name,
        split_primary(v, at).recalculated().formation == v.formation,
        split_secondary(v, at, name, leader, leader_pos).recalculated().formation == v.formation,
        split_secondary(v, at, name, leader, leader_pos).recalculated().leader == leader,
        v.followers.no_duplicates() ==> forall|j: int|
            at <= j < v.followers.len() ==> !split_primary(v, at).recalculated().positions.contains_key(
                #[trigger] v.followers[j],
            ),
{
    assert(v.followers.subrange(0, at as int) + v.followers.subrange(
        at as int,
        v.followers.len() as int,
    ) =~= v.followers);
    let w = split_primary(v, at);
    if v.followers.no_duplicates() {
        crate::formation::lemma_formation_len(w.formation, w.leader_position(), w.followers.len());
        assert forall|j: int| at <= j < v.followers.len() implies !w.recalculated().positions.contains_key(
            #[trigger] v.followers[j],
        ) by {
            let leaving = v.followers.subrange(at as int, v.followers.len() as int);
            assert(leaving[j - at] == v.followers[j]);
            assert(leaving.to_set().contains(v.followers[j]));
            assert forall|i: int| 0 <= i < w.ideal().len() implies w.followers[i] != v.followers[j] by {
                assert(w.followers[i] == v.followers[i]);
            }
            crate::platoon::lemma_place_frame(
                w.positions,
                w.followers,
                w.ideal(),
                w.ideal().len(),
                v.followers[j],
            );
        }
    }
}

/// Merging appends the secondary's followers, in order, after the primary's;
/// the primary keeps its leader, name and formation.
pub proof fn lemma_merged_members(v: PlatoonView, ids: Seq<Seq<char>>, k: nat)
    requires
        k <= ids.len(),
    ensures
        merged(v, ids, k).followers == v.followers + ids.take(k as int),
        merged(v, ids, k).leader == v.leader,
        merged(v, ids, k).name == v.name,
        merged(v, ids, k).formation == v.formation,
    decreases k,
{
    if k == 0 {
        assert(v.followers + ids.take(0) =~= v.followers);
    } else {
        lemma_merged_members(v, ids, (k - 1) as nat);
        assert(v.followers + ids.take(k as int) =~= (v.followers + ids.take(k - 1)).push(
            ids[k - 1],
        ));
    }
}

/// Merging the two halves of a split brings back the original followers in
/// their original order.
pub proof fn lemma_split_then_merge(
    v: PlatoonView,
    at: nat,
    name: Seq<char>,
    leader: Seq<char>,
    leader_pos: Position,
)
    requires
        at <= v.followers.len(),
    ensures
        ({
            let p = split_primary(v, at).recalculated();
            let s = split_secondary(v, at, name, leader, leader_pos).recalculated();
            merged(p, s.followers, s.followers.len()).followers == v.followers
        }),
{
    let p = split_primary(v, at).recalculated();
    let s = split_secondary(v, at, name, leader, leader_pos).recalculated();
    lemma_split_partitions(v, at, name, leader, leader_pos);
    lemma_merged_members(p, s.followers, s.followers.len());
    assert(s.followers.take(s.followers.len() as int) =~= s.followers);
}

/// `v` with all of `extra` appended to its followers at once.
pub open spec fn joined(v: PlatoonView, extra: Seq<Seq<char>>) -> PlatoonView {
    PlatoonView { followers: v.followers + extra, ..v }
}

/// Adding followers one at a time, recalculating after each, ends in the same
/// platoon as appending them all and recalculating once (when nobody is listed
/// twice and the leader is not among the followers).
pub proof fn lemma_merge_as_one(v: PlatoonView, ids: Seq<Seq<char>>, k: nat)
    requires
        1 <= k <= ids.len(),
        (v.followers + ids).no_duplicates(),
        !(v.followers + ids).contains(v.leader),
    ensures
        merged(v, ids, k) == joined(v, ids.take(k as int)).recalculated(),
        k == ids.len() ==> merged(v, ids, k) == joined(v, ids).recalculated(),
    decreases k,
{
    assert(ids.take(ids.len() as int) =~= ids);
    let all = v.followers + ids;
    let wk = joined(v, ids.take(k as int));
    assert(wk.followers =~= all.take((v.followers.len() + k) as int));
    if k == 1 {
        assert(v.with_follower(ids[0]) == wk) by {
            assert(v.followers.push(ids[0]) =~= v.followers + ids.take(1));
        }
    } else {
        let k1 = (k - 1) as nat;
        lemma_merge_as_one(v, ids, k1);
        let w1 = joined(v, ids.take(k1 as int));
        assert(w1.followers =~= all.take((v.followers.len() + k1) as int));
        let u = w1.recalculated().with_follower(ids[k - 1]);
        assert(u.followers =~= wk.followers);
        // The leader keeps its position, so the new ideal is the longer layout.
        assert forall|j: int| 0 <= j < w1.ideal().len() implies w1.followers[j] != v.leader by {
            assert(all[j] == w1.followers[j]);
            assert(all.contains(all[j]));
        }
        crate::formation::lemma_formation_len(w1.formation, w1.leader_position(), w1.followers.len());
        lemma_place_frame(w1.positions, w1.followers, w1.ideal(), w1.ideal().len(), v.leader);
        assert(u.leader_position() == v.leader_position());
        crate::formation::lemma_formation_prefix(
            v.formation,
            v.leader_position(),
            w1.followers.len(),
            wk.followers.len(),
        );
        crate::formation::lemma_formation_len(wk.formation, wk.leader_position(), wk.followers.len());
        assert(wk.followers.no_duplicates()) by {
            assert forall|i: int, j: int|
                0 <= i < wk.followers.len() && 0 <= j < wk.followers.len() && i != j implies wk.followers[i]
                != wk.followers[j] by {
                assert(all[i] == wk.followers[i]);
                assert(all[j] == wk.followers[j]);
            }
        }
        lemma_place_restack(
            v.positions,
            w1.followers,
            w1.ideal(),
            w1.ideal().len(),
            wk.followers,
            wk.ideal(),
            wk.ideal().len(),
        );
        assert(u.recalculated() == wk.recalculated());
    }
}

/// A full integrity count at tolerance 0 means every follower stands on its slot.
proof fn lemma_integrity_full(
    m: Map<Seq<char>, Position>,
    ids: Seq<Seq<char>>,
    ideal: Seq<Position>,
    k: nat,
)
    requires
        integrity_count(m, ids, ideal, 0, k) == k,
    ensures
        forall|j: int| 0 <= j < k ==> m.contains_key(#[trigger] ids[j]) && m[ids[j]] == ideal[j],
    decreases k,
{
    if k > 0 {
        lemma_integrity_count_le(m, ids, ideal, 0, (k - 1) as nat);
        lemma_integrity_full(m, ids, ideal, (k - 1) as nat);
        assert(in_formation(m, ids, ideal, 0, k - 1));
        crate::position::lemma_manhattan_metric(m[ids[k - 1]], ideal[k - 1]);
    }
}

proof fn lemma_integrity_count_le(
    m: Map<Seq<char>, Position>,
    ids: Seq<Seq<char>>,
    ideal: Seq<Position>,
    tol: int,
    k: nat,
)
    ensures
        integrity_count(m, ids, ideal, tol, k) <= k,
    decreases k,
{
    if k > 0 {
        lemma_integrity_count_le(m, ids, ideal, tol, (k - 1) as nat);
    }
}

/// Splitting a platoon that stands in formation and merging the two halves
/// back gives the original platoon again: the same name, leader, formation,
/// followers in the same order, and the same positions (when no member is
/// listed twice).
pub proof fn lemma_split_merge_restores(
    v: PlatoonView,
    at: nat,
    name: Seq<char>,
    leader: Seq<char>,
    leader_pos: Position,
)
    requires
        at <= v.followers.len(),
        v.members_distinct(),
        v.integrity(0) == v.followers.len(),
    ensures
        ({
            let p = split_primary(v, at).recalculated();
            let s = split_secondary(v, at, name, leader, leader_pos).recalculated();
            merged(p, s.followers, s.followers.len()) == v
        }),
{
    let f = v.followers;
    let n = f.len();
    let ideal = v.ideal();
    crate::formation::lemma_formation_len(v.formation, v.leader_position(), n);
    lemma_integrity_full(v.positions, f, ideal, n);
    let leaving = f.subrange(at as int, n as int);
    let pv = split_primary(v, at);
    let p = pv.recalculated();
    let sv = split_secondary(v, at, name, leader, leader_pos);
    let s = sv.recalculated();
    let mr = pv.positions;
    // The leader is no follower, so it keeps its position through the split.
    assert forall|j: int| 0 <= j < n implies f[j] != v.leader by {
        assert(f.contains(f[j]));
    }
    assert(!leaving.to_set().contains(v.leader)) by {
        if leaving.to_set().contains(v.leader) {
            let j = choose|j: int| 0 <= j < leaving.len() && leaving[j] == v.leader;
            assert(f[at + j] == v.leader);
        }
    }
    assert(pv.leader_position() == v.leader_position());
    crate::formation::lemma_formation_prefix(v.formation, v.leader_position(), at, n);
    assert(pv.ideal() == ideal.take(at as int));
    assert(pv.followers =~= f.take(at as int));
    // Placing everyone on their slots over the split positions rebuilds `v`'s positions.
    assert(place(mr, f, ideal, n) =~= v.positions) by {
        assert forall|key: Seq<char>| #[trigger] place(mr, f, ideal, n).contains_key(key)
            == v.positions.contains_key(key) && (v.positions.contains_key(key) ==> place(
            mr,
            f,
            ideal,
            n,
        )[key] == v.positions[key]) by {
            if exists|j: int| 0 <= j < n && f[j] == key {
                let j = choose|j: int| 0 <= j < n && f[j] == key;
                lemma_place_hits(mr, f, ideal, n, j);
            } else {
                lemma_place_frame(mr, f, ideal, n, key);
                if leaving.to_set().contains(key) {
                    let j = choose|j: int| 0 <= j < leaving.len() && leaving[j] == key;
                    assert(f[at + j] == key);
                }
            }
        }
    }
    assert(s.followers == leaving);
    if at == n {
        assert(leaving.to_set() =~= Set::<Seq<char>>::empty());
        assert(mr =~= v.positions);
        assert(f.take(at as int) =~= f);
        assert(p.positions == place(mr, f, ideal, n));
        assert(p =~= v);
    } else {
        assert(p.followers + s.followers =~= f);
        lemma_merge_as_one(p, s.followers, s.followers.len());
        let j = joined(p, s.followers);
        assert(j.followers == f);
        assert forall|k: int| 0 <= k < at implies p.followers[k] != v.leader by {
            assert(f[k] != v.leader);
        }
        lemma_place_frame(mr, p.followers, pv.ideal(), at, v.leader);
        assert(j.leader_position() == v.leader_position());
        assert(j.ideal() == ideal);
        lemma_place_restack(mr, p.followers, pv.ideal(), at, f, ideal, n);
        assert(j.recalculated().positions == v.positions);
        assert(j.recalculated() =~= v);
    }
}

} // verus!
