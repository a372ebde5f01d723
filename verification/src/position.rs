//! Grid coordinates and agent identifiers.

use vstd::prelude::*;

use crate::text::{append_signed, signed_decimal};

verus! {

/// A 2D position for an agent in the platoon.
#[derive(Debug, Clone, Copy, PartialEq, Eq, Structural)]
pub struct Position {
    pub x: i32,
    pub y: i32,
}

/// Absolute value of a mathematical integer.
pub open spec fn abs_int(v: int) -> int {
    if v < 0 {
        -v
    } else {
        v
    }
}

/// Manhattan distance between two positions, as a mathematical integer.
pub open spec fn manhattan(a: Position, b: Position) -> int {
    abs_int(a.x - b.x) + abs_int(a.y - b.y)
}

/// Manhattan distance is symmetric, never negative, and zero exactly between
/// equal positions.
pub proof fn lemma_manhattan_metric(a: Position, b: Position)
    ensures
        manhattan(a, b) == manhattan(b, a),
        manhattan(a, b) >= 0,
        (manhattan(a, b) == 0) == (a == b),
        distance_fits(a, b) == distance_fits(b, a),
{
}

/// The distance between two positions is the horizontal gap plus the vertical
/// gap, for all positions: in particular moving `p >= 0` cells along x and
/// `q >= 0` along y puts a position `p + q` away.
pub proof fn lemma_manhattan_sums_gaps(a: Position, b: Position, p: int, q: int)
    requires
        p >= 0,
        q >= 0,
        b.x == a.x + p,
        b.y == a.y + q,
    ensures
        manhattan(a, b) == p + q,
        manhattan(b, a) == p + q,
        forall|c: Position, d: Position|
            #[trigger] manhattan(c, d) == (if c.x >= d.x {
                c.x - d.x
            } else {
                d.x - c.x
            }) + (if c.y >= d.y {
                c.y - d.y
            } else {
                d.y - c.y
            }),
{
}

/// The Manhattan distance between `a` and `b` can be computed in `i32`
/// without overflow.
pub open spec fn distance_fits(a: Position, b: Position) -> bool {
    manhattan(a, b) <= i32::MAX
}

impl Position {
    pub fn new(x: i32, y: i32) -> (p: Position)
        ensures
            p.x == x,
            p.y == y,
    {
        Position { x, y }
    }

    /// Manhattan distance to another position.
    pub fn distance_to(&self, other: &Position) -> (d: i32)
        requires
            distance_fits(*self, *other),
        ensures
            d == manhattan(*self, *other),
    {
        let dx: i32 = self.x - other.x;
        let dy: i32 = self.y - other.y;
        let ax: i32 = if dx < 0 { -dx } else { dx };
        let ay: i32 = if dy < 0 { -dy } else { dy };
        ax + ay
    }

    /// The text `(x, y)` for this position.
    pub fn to_string(&self) -> (text: String)
        ensures
            text@ == position_text(*self),
    {
        let mut text = String::new();
        proof {
            reveal_strlit("(");
            reveal_strlit(", ");
            reveal_strlit(")");
        }
        text.append("(");
        append_signed(&mut text, self.x as i64);
        text.append(", ");
        append_signed(&mut text, self.y as i64);
        text.append(")");
        text
    }
}

/// The text of a position: its coordinates in parentheses, separated by a comma.
pub open spec fn position_text(p: Position) -> Seq<char> {
    seq!['('] + signed_decimal(p.x as int) + seq![',', ' '] + signed_decimal(p.y as int) + seq![')']
}

/// Identifier for an agent in the platoon. Wraps a string name.
#[derive(Debug, Hash)]
pub struct AgentId(pub String);

impl View for AgentId {
    type V = Seq<char>;

    open spec fn view(&self) -> Seq<char> {
        self.0@
    }
}

impl AgentId {
    pub fn new(name: &str) -> (id: AgentId)
        ensures
            id@ == name@,
    {
        AgentId(name.to_owned())
    }

    /// The agent's name as text.
    pub fn to_string(&self) -> (text: String)
        ensures
            text@ == self@,
    {
        self.0.clone()
    }
}

impl Clone for AgentId {
    fn clone(&self) -> (id: AgentId)
        ensures
            id@ == self@,
    {
        AgentId(self.0.clone())
    }
}

impl PartialEq for AgentId {
    fn eq(&self, other: &AgentId) -> (same: bool) {
        self.0 == other.0
    }
}

impl Eq for AgentId {
}

impl vstd::std_specs::cmp::PartialEqSpecImpl for AgentId {
    open spec fn obeys_eq_spec() -> bool {
        true
    }

    open spec fn eq_spec(&self, other: &AgentId) -> bool {
        self@ == other@
    }
}

} // verus!
