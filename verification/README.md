# ternary_platoon

Group formation and coordinated movement for ternary agents, verified with Verus.

A platoon is a leader with followers in order, a formation pattern (line,
column, wedge, grid) and a map of everyone's positions. Followers are placed on
the ideal slots that the pattern computes from the leader's position; a
controller moves the platoon, switches formations and snaps drifted followers
back; platoons can be split and merged; messages are relayed hop by hop along
the chain leader, follower 0, follower 1, ...

Layout of `src/`:

- `position.rs`: `Position` (Manhattan distance, text) and `AgentId`.
- `text.rs`: decimal rendering of integers.
- `formation.rs`: `FormationPattern`, the ideal slots and their laws
  (shift with the leader, prefix, spacing, sides).
- `position_map.rs`: `PositionMap`, positions keyed by agent name.
- `platoon.rs`: `Platoon`, its mathematical view and the laws of
  recalculation, correction and removal.
- `controller.rs`: `PlatoonController` (movement, formation changes, correction).
- `split_merge.rs`: `split_platoon`, `merge_platoons` and their laws.
- `relay.rs`: `RelayMessage` and `relay_through_platoon` with their laws.

Every executable function carries a contract over the mathematical view; no
function or type is trusted without proof.
