//! Group formation and coordinated movement for ternary agents.
//!
//! A `Platoon` is a group of agents (one leader, N followers) that move together
//! in a defined formation. The `PlatoonController` maintains formation during
//! movement, handles transitions between formation patterns (line, column, wedge,
//! grid), and supports splitting and merging of platoons. A communication relay
//! passes messages through the platoon chain.

pub mod position;
pub mod text;
pub mod formation;
pub mod position_map;
pub mod platoon;
pub mod controller;
pub mod split_merge;
pub mod relay;

pub use controller::PlatoonController;
pub use formation::FormationPattern;
pub use platoon::Platoon;
pub use position::{AgentId, Position};
pub use position_map::PositionMap;
pub use relay::{RelayMessage, relay_through_platoon};
pub use split_merge::{SplitResult, merge_platoons, split_platoon};
