//! Relaying messages hop by hop along the platoon chain.

use vstd::prelude::*;

use crate::platoon::{Platoon, PlatoonView, names};
use crate::position::AgentId;
use crate::text::{append_decimal, decimal};

verus! {

/// A message relayed through the platoon chain.
#[derive(Debug)]
pub struct RelayMessage {
    pub origin: AgentId,
    pub payload: String,
    pub hops: u32,
    pub max_hops: u32,
}

/// What a relay message holds, as mathematical values.
pub struct RelayMessageView {
    pub origin: Seq<char>,
    pub payload: Seq<char>,
    pub hops: u32,
    pub max_hops: u32,
}

impl View for RelayMessage {
    type V = RelayMessageView;

    open spec fn view(&self) -> RelayMessageView {
        RelayMessageView {
            origin: self.origin@,
            payload: self.payload@,
            hops: self.hops,
            max_hops: self.max_hops,
        }
    }
}

/// The message after one more hop, or `None` once the hop limit would be passed.
pub open spec fn relayed(m: RelayMessageView) -> Option<RelayMessageView> {
    if m.hops + 1 > m.max_hops {
        None
    } else {
        Some(RelayMessageView { hops: (m.hops + 1) as u32, ..m })
    }
}

/// The message after `k` successive relays, or `None` if one of them is refused.
pub open spec fn relayed_times(m: RelayMessageView, k: nat) -> Option<RelayMessageView>
    decreases k,
{
    if k == 0 {
        Some(m)
    } else {
        match relayed_times(m, (k - 1) as nat) {
            Some(prev) => relayed(prev),
            None => None,
        }
    }
}

impl RelayMessage {
    pub fn new(origin: AgentId, payload: &str, max_hops: u32) -> (m: RelayMessage)
        ensures
            m@ == (RelayMessageView { origin: origin@, payload: payload@, hops: 0, max_hops }),
    {
        RelayMessage { origin, payload: payload.to_owned(), hops: 0, max_hops }
    }

    /// Relay the message one hop. Returns None if max hops exceeded.
    pub fn relay(&self) -> (next: Option<RelayMessage>)
        requires
            self.hops < u32::MAX,
        ensures
            match next {
                Some(m) => relayed(self@) == Some(m@),
                None => relayed(self@) is None,
            },
    {
        if self.hops + 1 > self.max_hops {
            None
        } else {
            Some(
                RelayMessage {
                    origin: self.origin.clone(),
                    payload: self.payload.clone(),
                    hops: self.hops + 1,
                    max_hops: self.max_hops,
                },
            )
        }
    }
}

impl Clone for RelayMessage {
    fn clone(&self) -> (copy: RelayMessage)
        ensures
            copy@ == self@,
    {
        RelayMessage {
            origin: self.origin.clone(),
            payload: self.payload.clone(),
            hops: self.hops,
            max_hops: self.max_hops,
        }
    }
}

impl PartialEq for RelayMessage {
    fn eq(&self, other: &RelayMessage) -> (same: bool) {
        self.origin == other.origin && self.payload == other.payload && self.hops == other.hops
            && self.max_hops == other.max_hops
    }
}

impl Eq for RelayMessage {
}

impl vstd::std_specs::cmp::PartialEqSpecImpl for RelayMessage {
    open spec fn obeys_eq_spec() -> bool {
        true
    }

    open spec fn eq_spec(&self, other: &RelayMessage) -> bool {
        self@ == other@
    }
}

/// The relay chain of a platoon: the leader, then the followers in order.
pub open spec fn chain(v: PlatoonView) -> Seq<Seq<char>> {
    seq![v.leader] + v.followers
}

/// `s` holds `x` first at index `i`.
pub open spec fn first_at(s: Seq<Seq<char>>, x: Seq<char>, i: int) -> bool {
    &&& 0 <= i < s.len()
    &&& s[i] == x
    &&& forall|j: int| 0 <= j < i ==> s[j] != x
}

/// The index at which `x` first occurs in `s` (meaningful when `s` holds `x`).
pub open spec fn first_index(s: Seq<Seq<char>>, x: Seq<char>) -> int {
    choose|i: int| first_at(s, x, i)
}

/// The message that reports `agent` missing from the platoon.
pub open spec fn missing_agent_text(agent: Seq<char>) -> Seq<char> {
    "Agent "@ + agent + " not in platoon"@
}

/// The message that reports a route of `hops` hops over the limit `max_hops`.
pub open spec fn too_far_text(hops: nat, max_hops: nat) -> Seq<char> {
    "Requires "@ + decimal(hops) + " hops, max is "@ + decimal(max_hops)
}

/// The number of hops between chain indices `a` and `b`.
pub open spec fn hop_count(a: int, b: int) -> nat {
    if a <= b {
        (b - a) as nat
    } else {
        (a - b) as nat
    }
}

/// Where a message from `from` to `to` goes along the chain of `v`: the agents
/// it passes, sender and receiver included and listed from the chain's front,
/// or the error text.
pub open spec fn route(v: PlatoonView, from: Seq<char>, to: Seq<char>, max_hops: u32) -> Result<
    Seq<Seq<char>>,
    Seq<char>,
> {
    let c = chain(v);
    if !c.contains(from) {
        Err(missing_agent_text(from))
    } else if !c.contains(to) {
        Err(missing_agent_text(to))
    } else {
        let a = first_index(c, from);
        let b = first_index(c, to);
        let hops = hop_count(a, b);
        if hops > max_hops {
            Err(too_far_text(hops, max_hops as nat))
        } else if a < b {
            Ok(c.subrange(a, b + 1))
        } else {
            Ok(c.subrange(b, a + 1))
        }
    }
}

/// A route result with the agents and the error text taken by their views.
pub open spec fn route_view(r: Result<Vec<AgentId>, String>) -> Result<Seq<Seq<char>>, Seq<char>> {
    match r {
        Ok(path) => Ok(names(path@)),
        Err(e) => Err(e@),
    }
}

/// Index of the first agent in `chain` named like `agent`, if any.
fn find_in_chain(chain: &Vec<AgentId>, agent: &AgentId) -> (idx: Option<usize>)
    ensures
        match idx {
            Some(i) => first_at(names(chain@), agent@, i as int),
            None => !names(chain@).contains(agent@),
        },
{
    let mut i: usize = 0;
    while i < chain.len()
        invariant
            i <= chain.len(),
            forall|j: int| 0 <= j < i ==> names(chain@)[j] != agent@,
        decreases chain.len() - i,
    {
        if chain[i] == *agent {
            return Some(i);
        }
        i += 1;
    }
    None
}

fn missing_agent_message(agent: &AgentId) -> (text: String)
    ensures
        text@ == missing_agent_text(agent@),
{
    let mut text = String::new();
    text.append("Agent ");
    text.append(agent.0.as_str());
    text.append(" not in platoon");
    text
}

fn too_far_message(hops: u32, max_hops: u32) -> (text: String)
    ensures
        text@ == too_far_text(hops as nat, max_hops as nat),
{
    let mut text = String::new();
    text.append("Requires ");
    append_decimal(&mut text, hops as u64);
    text.append(" hops, max is ");
    append_decimal(&mut text, max_hops as u64);
    text
}

/// Relay a message from one agent through the platoon chain to another agent.
/// Returns the list of agents the message passes through (including sender and receiver).
pub fn relay_through_platoon(
    platoon: &Platoon,
    from: &AgentId,
    to: &AgentId,
    payload: &str,
    max_hops: u32,
) -> (result: Result<Vec<AgentId>, String>)
    requires
        platoon.followers.len() < i32::MAX,
    ensures
        route_view(result) == route(platoon@, from@, to@, max_hops),
{
    // Build ordered chain: leader, followers[0], followers[1], ...
    let mut chain_ids: Vec<AgentId> = Vec::new();
    chain_ids.push(platoon.leader.clone());
    let mut i: usize = 0;
    while i < platoon.followers.len()
        invariant
            i <= platoon.followers.len(),
            names(chain_ids@) == seq![platoon@.leader] + platoon@.followers.take(i as int),
        decreases platoon.followers.len() - i,
    {
        let ghost prev = chain_ids@;
        chain_ids.push(platoon.followers[i].clone());
        proof {
            assert(chain_ids@ == prev.push(chain_ids@[chain_ids@.len() - 1]));
            assert(names(chain_ids@) =~= names(prev).push(platoon@.followers[i as int]));
            assert(names(chain_ids@) =~= seq![platoon@.leader] + platoon@.followers.take(i + 1));
        }
        i += 1;
    }
    let ghost c = chain(platoon@);
    proof {
        assert(platoon@.followers.take(platoon@.followers.len() as int) =~= platoon@.followers);
        assert(names(chain_ids@) == c);
    }

    let from_idx = match find_in_chain(&chain_ids, from) {
        Some(idx) => idx,
        None => {
            return Err(missing_agent_message(from));
        },
    };
    let to_idx = match find_in_chain(&chain_ids, to) {
        Some(idx) => idx,
        None => {
            return Err(missing_agent_message(to));
        },
    };
    proof {
        assert(first_at(c, from@, first_index(c, from@)));
        assert(first_at(c, to@, first_index(c, to@)));
        lemma_first_at_unique(c, from@, from_idx as int, first_index(c, from@));
        lemma_first_at_unique(c, to@, to_idx as int, first_index(c, to@));
    }

    let diff: i32 = to_idx as i32 - from_idx as i32;
    let hops: u32 = if diff < 0 { (-diff) as u32 } else { diff as u32 };
    if hops > max_hops {
        return Err(too_far_message(hops, max_hops));
    }

    let (start, end) = if from_idx < to_idx {
        (from_idx, to_idx)
    } else {
        (to_idx, from_idx)
    };

    let mut path: Vec<AgentId> = Vec::new();
    let mut k: usize = start;
    while k <= end
        invariant
            start <= k <= end + 1,
            end < chain_ids.len(),
            names(path@) == names(chain_ids@).subrange(start as int, k as int),
        decreases end + 1 - k,
    {
        let ghost prev = path@;
        path.push(chain_ids[k].clone());
        proof {
            assert(names(path@) =~= names(prev).push(names(chain_ids@)[k as int]));
            assert(names(path@) =~= names(chain_ids@).subrange(start as int, k + 1));
        }
        k += 1;
    }
    Ok(path)
}

proof fn lemma_first_at_unique(s: Seq<Seq<char>>, x: Seq<char>, i: int, j: int)
    requires
        first_at(s, x, i),
        first_at(s, x, j),
    ensures
        i == j,
{
    if i < j {
        assert(s[i] != x);
    } else if j < i {
        assert(s[j] != x);
    }
}

/// An agent held at index `i` has a first occurrence, at `i` or before.
proof fn lemma_first_below(s: Seq<Seq<char>>, x: Seq<char>, i: int)
    requires
        0 <= i < s.len(),
        s[i] == x,
    ensures
        first_at(s, x, first_index(s, x)),
    decreases i,
{
    if exists|j: int| 0 <= j < i && s[j] == x {
        let j = choose|j: int| 0 <= j < i && s[j] == x;
        lemma_first_below(s, x, j);
    } else {
        assert(first_at(s, x, i));
    }
}

/// A sequence that holds `x` holds it first at `first_index(s, x)`.
proof fn lemma_first_exists(s: Seq<Seq<char>>, x: Seq<char>)
    requires
        s.contains(x),
    ensures
        first_at(s, x, first_index(s, x)),
{
    let i = choose|i: int| 0 <= i < s.len() && s[i] == x;
    lemma_first_below(s, x, i);
}

/// A message that has not yet used up its hops can be relayed exactly
/// `max_hops - hops` more times: `k` relays succeed if and only if the hop
/// count stays within the limit, and each keeps the origin, payload and limit
/// while counting one hop more.
pub proof fn lemma_relay_hop_limit(m: RelayMessageView, k: nat)
    requires
        m.hops <= m.max_hops,
    ensures
        (relayed_times(m, k) is Some) == (m.hops + k <= m.max_hops),
        relayed_times(m, k) matches Some(r) ==> r.hops == m.hops + k && r.origin == m.origin
            && r.payload == m.payload && r.max_hops == m.max_hops,
    decreases k,
{
    if k > 0 {
        lemma_relay_hop_limit(m, (k - 1) as nat);
    }
}

/// When both agents are in the platoon, relaying from `a` to `b` and from
/// `b` to `a` gives the same answer: the same path, listed from the chain's
/// front, or the same refusal.
pub proof fn lemma_route_symmetric(v: PlatoonView, a: Seq<char>, b: Seq<char>, max_hops: u32)
    requires
        chain(v).contains(a),
        chain(v).contains(b),
    ensures
        route(v, a, b, max_hops) == route(v, b, a, max_hops),
{
    let c = chain(v);
    lemma_first_exists(c, a);
    lemma_first_exists(c, b);
    if first_index(c, a) == first_index(c, b) {
        assert(a == b);
    }
}

/// A relay succeeds exactly when both agents are in the platoon and at most
/// `max_hops` apart along the chain; the path then starts at one of them,
/// ends at the other, takes one agent per hop, and is a stretch of the chain.
pub proof fn lemma_route_shape(v: PlatoonView, a: Seq<char>, b: Seq<char>, max_hops: u32)
    ensures
        (route(v, a, b, max_hops) is Ok) == (chain(v).contains(a) && chain(v).contains(b)
            && hop_count(first_index(chain(v), a), first_index(chain(v), b)) <= max_hops),
        route(v, a, b, max_hops) matches Ok(path) ==> {
            &&& path.len() == hop_count(first_index(chain(v), a), first_index(chain(v), b)) + 1
            &&& path.len() <= max_hops + 1
            &&& (path[0] == a && path.last() == b) || (path[0] == b && path.last() == a)
            &&& exists|s: int| 0 <= s && s + path.len() <= chain(v).len() && path == #[trigger] chain(v).subrange(s, s + path.len())
        },
{
    let c = chain(v);
    if c.contains(a) && c.contains(b) {
        let i = first_index(c, a);
        let j = first_index(c, b);
        lemma_first_exists(c, a);
        lemma_first_exists(c, b);
        if hop_count(i, j) <= max_hops {
            if i < j {
                assert(c.subrange(i, j + 1) == c.subrange(i, i + c.subrange(i, j + 1).len()));
            } else {
                assert(c.subrange(j, i + 1) == c.subrange(j, j + c.subrange(j, i + 1).len()));
            }
        }
    }
}

/// The relay chain holds the leader first and then every follower, in order,
/// and nothing else; so every member of the platoon can be reached.
pub proof fn lemma_chain_members(v: PlatoonView)
    ensures
        chain(v).len() == v.followers.len() + 1,
        chain(v)[0] == v.leader,
        forall|i: int| 0 <= i < v.followers.len() ==> chain(v)[i + 1] == #[trigger] v.followers[i],
        chain(v).contains(v.leader),
        forall|i: int| 0 <= i < v.followers.len() ==> chain(v).contains(#[trigger] v.followers[i]),
        forall|x: Seq<char>| #[trigger] chain(v).contains(x) ==> x == v.leader || v.followers.contains(x),
{
    let c = chain(v);
    assert(c[0] == v.leader);
    assert forall|i: int| 0 <= i < v.followers.len() implies c.contains(#[trigger] v.followers[i]) by {
        assert(c[i + 1] == v.followers[i]);
    }
    assert forall|x: Seq<char>| #[trigger] c.contains(x) implies x == v.leader || v.followers.contains(x) by {
        let j = choose|j: int| 0 <= j < c.len() && c[j] == x;
        if j > 0 {
            assert(v.followers[j - 1] == x);
        }
    }
}

} // verus!
