//! Formation patterns and the ideal follower positions they prescribe.

use vstd::prelude::*;
use vstd::arithmetic::div_mod::lemma_fundamental_div_mod_converse;

use crate::position::Position;

verus! {

/// The geometric arrangement of followers relative to the leader.
#[derive(Debug, Clone, Copy, PartialEq, Eq, Structural)]
pub enum FormationPattern {
    /// Followers in a horizontal line behind the leader.
    Line,
    /// Followers in a single-file column behind the leader.
    Column,
    /// Followers in a V-shape (wedge) behind the leader.
    Wedge,
    /// Followers in a grid (rows x cols) behind the leader, filled row by row.
    /// Every follower gets a cell: once the `rows * cols` cells are taken,
    /// further followers continue in rows below; a grid without columns is
    /// laid out one cell per row.
    Grid { rows: usize, cols: usize },
}

/// The number of cells per row of a grid with `cols` columns: `cols`, or one
/// when the grid has no columns.
pub open spec fn grid_width(cols: usize) -> int {
    if cols == 0 {
        1
    } else {
        cols as int
    }
}

/// The distance (2, 4, 6, ...) of follower `k` from the leader in the line,
/// column and wedge patterns.
pub open spec fn offset(k: int) -> int {
    2 * (k + 1)
}

/// The x coordinate of slot `k`, as a mathematical integer.
pub open spec fn slot_x(pattern: FormationPattern, origin: Position, k: int) -> int {
    match pattern {
        FormationPattern::Line => origin.x + offset(k),
        FormationPattern::Column => origin.x as int,
        FormationPattern::Wedge => if k % 2 == 0 {
            origin.x - offset(k)
        } else {
            origin.x + offset(k)
        },
        FormationPattern::Grid { rows, cols } => origin.x + 2 * (k % grid_width(cols)),
    }
}

/// The y coordinate of slot `k`, as a mathematical integer.
pub open spec fn slot_y(pattern: FormationPattern, origin: Position, k: int) -> int {
    match pattern {
        FormationPattern::Line => origin.y as int,
        FormationPattern::Column => origin.y + offset(k),
        FormationPattern::Wedge => origin.y + offset(k),
        FormationPattern::Grid { rows, cols } => origin.y + 2 * (k / grid_width(cols) + 1),
    }
}

/// `v` is a value of `i32`.
pub open spec fn in_i32(v: int) -> bool {
    i32::MIN <= v <= i32::MAX
}

/// Slot `k` can be computed in `i32` arithmetic without overflow: the
/// coordinates and the intermediate step values all fit.
pub open spec fn slot_fits(pattern: FormationPattern, origin: Position, k: int) -> bool {
    &&& in_i32(slot_x(pattern, origin, k))
    &&& in_i32(slot_y(pattern, origin, k))
    &&& match pattern {
        FormationPattern::Grid { rows, cols } => {
            &&& 2 * (k % grid_width(cols)) <= i32::MAX
            &&& 2 * (k / grid_width(cols) + 1) <= i32::MAX
        },
        _ => offset(k) <= i32::MAX,
    }
}

/// Every slot that `compute_positions` produces for `n` followers fits in `i32`.
pub open spec fn pattern_fits(pattern: FormationPattern, origin: Position, n: nat) -> bool {
    forall|k: int| 0 <= k < n ==> #[trigger] slot_fits(pattern, origin, k)
}

/// Slot `k` as a position.
pub open spec fn slot(pattern: FormationPattern, origin: Position, k: int) -> Position {
    Position { x: slot_x(pattern, origin, k) as i32, y: slot_y(pattern, origin, k) as i32 }
}

/// The ideal positions of `n` followers behind a leader at `origin`.
pub open spec fn formation_positions(pattern: FormationPattern, origin: Position, n: nat) -> Seq<
    Position,
> {
    Seq::new(n, |k: int| slot(pattern, origin, k))
}

impl FormationPattern {
    /// Slot `i` of a line, column or wedge.
    fn linear_slot(&self, origin: Position, i: usize) -> (p: Position)
        requires
            !(*self is Grid),
            slot_fits(*self, origin, i as int),
        ensures
            p == slot(*self, origin, i as int),
    {
        let step: i32 = (i as i32 + 1) * 2;
        match self {
            FormationPattern::Line => Position::new(origin.x + step, origin.y),
            FormationPattern::Column => Position::new(origin.x, origin.y + step),
            _ => {
                let side: i32 = if i % 2 == 0 { -1 } else { 1 };
                Position::new(origin.x + side * step, origin.y + step)
            },
        }
    }

    /// Compute the ideal positions for `n` followers given the leader at `origin`.
    /// The leader is always at `origin`; followers are offset based on the pattern.
    pub fn compute_positions(&self, origin: Position, n: usize) -> (positions: Vec<Position>)
        requires
            pattern_fits(*self, origin, n as nat),
        ensures
            positions@ == formation_positions(*self, origin, n as nat),
    {
        let mut positions: Vec<Position> = Vec::new();
        match self {
            FormationPattern::Grid { rows, cols } => {
                let width: usize = if *cols == 0 { 1 } else { *cols };
                let ghost w: int = width as int;
                let mut r: usize = 0;
                while positions.len() < n
                    invariant
                        *self is Grid,
                        w == grid_width(self->cols),
                        w == width,
                        width >= 1,
                        pattern_fits(*self, origin, n as nat),
                        positions.len() <= n,
                        r <= positions.len(),
                        r <= r * w,
                        positions.len() < n ==> positions.len() == r * w,
                        forall|j: int|
                            0 <= j < positions.len() ==> positions@[j] == slot(*self, origin, j),
                    decreases n - positions.len(),
                {
                    let mut c: usize = 0;
                    while c < width && positions.len() < n
                        invariant
                            *self is Grid,
                            w == grid_width(self->cols),
                            w == width,
                            width >= 1,
                            pattern_fits(*self, origin, n as nat),
                            c <= width,
                            r <= r * w,
                            positions.len() <= n,
                            positions.len() == r * w + c,
                            forall|j: int|
                                0 <= j < positions.len() ==> positions@[j] == slot(
                                    *self,
                                    origin,
                                    j,
                                ),
                        decreases width - c,
                    {
                        let ghost k: int = r * w + c;
                        proof {
                            lemma_fundamental_div_mod_converse(k, w, r as int, c as int);
                            assert(slot_fits(*self, origin, k));
                        }
                        let p = Position::new(origin.x + (c as i32) * 2, origin.y + (r as i32 + 1) * 2);
                        positions.push(p);
                        c += 1;
                    }
                    proof {
                        assert((r + 1) * w == r * w + w) by (nonlinear_arith);
                        assert(r + 1 <= (r + 1) * w) by (nonlinear_arith)
                            requires
                                w >= 1,
                                r >= 0,
                        ;
                    }
                    r += 1;
                }
            },
            _ => {
                let mut i: usize = 0;
                while i < n
                    invariant
                        !(*self is Grid),
                        pattern_fits(*self, origin, n as nat),
                        i <= n,
                        positions.len() == i,
                        forall|j: int|
                            0 <= j < positions.len() ==> positions@[j] == slot(*self, origin, j),
                    decreases n - i,
                {
                    assert(slot_fits(*self, origin, i as int));
                    let p = self.linear_slot(origin, i);
                    positions.push(p);
                    i += 1;
                }
            },
        }
        assert(positions@ =~= formation_positions(*self, origin, n as nat));
        positions
    }
}

/// Formation positions depend on the leader's position only through a shift:
/// every slot keeps the same offset from the leader wherever the leader stands.
pub proof fn lemma_formation_follows_leader(
    pattern: FormationPattern,
    a: Position,
    b: Position,
    k: int,
)
    ensures
        slot_x(pattern, b, k) - b.x == slot_x(pattern, a, k) - a.x,
        slot_y(pattern, b, k) - b.y == slot_y(pattern, a, k) - a.y,
{
}

/// Giving a pattern more followers only appends slots: the ideal positions of
/// `m <= n` followers are the first ones of the `n`-follower layout, and a
/// layout that fits for `n` fits for `m`.
pub proof fn lemma_formation_prefix(pattern: FormationPattern, origin: Position, m: nat, n: nat)
    requires
        m <= n,
    ensures
        formation_positions(pattern, origin, m) == formation_positions(pattern, origin, n).take(
            m as int,
        ),
        pattern_fits(pattern, origin, n) ==> pattern_fits(pattern, origin, m),
{
    assert(formation_positions(pattern, origin, m) =~= formation_positions(pattern, origin, n).take(
        m as int,
    ));
}

/// Every pattern yields exactly one slot per follower.
pub proof fn lemma_formation_len(pattern: FormationPattern, origin: Position, n: nat)
    ensures
        formation_positions(pattern, origin, n).len() == n,
{
}

/// Within a pattern that fits, no two followers share a cell and no follower
/// shares the leader's: any two of these cells are at least 2 apart
/// (Manhattan distance).
pub proof fn lemma_slots_spaced(
    pattern: FormationPattern,
    origin: Position,
    n: nat,
    i: int,
    j: int,
)
    requires
        pattern_fits(pattern, origin, n),
        0 <= i < n,
        0 <= j < n,
        i != j,
    ensures
        crate::position::manhattan(slot(pattern, origin, i), slot(pattern, origin, j)) >= 2,
        crate::position::manhattan(origin, slot(pattern, origin, i)) >= 2,
{
    assert(slot_fits(pattern, origin, i));
    assert(slot_fits(pattern, origin, j));
    match pattern {
        FormationPattern::Grid { rows, cols } => {
            let c = grid_width(cols);
            vstd::arithmetic::div_mod::lemma_fundamental_div_mod(i, c);
            vstd::arithmetic::div_mod::lemma_fundamental_div_mod(j, c);
            if i % c == j % c && i / c == j / c {
                assert(c * (i / c) == c * (j / c));
                assert(false);
            }
            assert(0 <= i / c) by {
                vstd::arithmetic::div_mod::lemma_div_pos_is_pos(i, c);
            }
        },
        _ => {},
    }
}

/// A wedge puts even-numbered followers to the leader's left and odd-numbered
/// ones to its right; column, wedge and grid followers all stand behind the
/// leader (greater y), line followers to its right on the same row.
pub proof fn lemma_pattern_sides(pattern: FormationPattern, origin: Position, n: nat, k: int)
    requires
        pattern_fits(pattern, origin, n),
        0 <= k < n,
    ensures
        pattern is Wedge ==> (k % 2 == 0 ==> slot(pattern, origin, k).x < origin.x) && (k % 2
            == 1 ==> slot(pattern, origin, k).x > origin.x),
        pattern is Line ==> slot(pattern, origin, k).x > origin.x && slot(pattern, origin, k).y
            == origin.y,
        pattern is Column ==> slot(pattern, origin, k).x == origin.x && slot(
            pattern,
            origin,
            k,
        ).y > origin.y,
        !(pattern is Line) ==> slot(pattern, origin, k).y > origin.y,
{
    assert(slot_fits(pattern, origin, k));
    match pattern {
        FormationPattern::Grid { rows, cols } => {
            vstd::arithmetic::div_mod::lemma_div_pos_is_pos(k, grid_width(cols));
        },
        _ => {},
    }
}

/// A grid with room for all followers (`n <= rows * cols`) keeps within its
/// `rows` rows; each row holds `cols` followers, left to right.
pub proof fn lemma_grid_within_rows(rows: usize, cols: usize, origin: Position, n: nat, k: int)
    requires
        n <= rows * cols,
        0 <= k < n,
    ensures
        slot_y(FormationPattern::Grid { rows, cols }, origin, k) <= origin.y + 2 * rows,
        slot_x(FormationPattern::Grid { rows, cols }, origin, k) < origin.x + 2 * cols,
{
    if cols == 0 {
        assert(rows * cols == 0) by (nonlinear_arith)
            requires
                cols == 0,
        ;
    }
    let c = cols as int;
    vstd::arithmetic::div_mod::lemma_fundamental_div_mod(k, c);
    assert(k / c < rows as int) by (nonlinear_arith)
        requires
            k < rows * c,
            c > 0,
            k == c * (k / c) + k % c,
            0 <= k % c,
    ;
}

/// Where each follower stands, in plain coordinates, for every pattern that
/// fits: line, column and wedge followers stand `2 * (k + 1)` from the leader
/// along their axis (consecutive followers exactly 2 apart), wedge followers
/// alternating left (even `k`) and right (odd `k`); grid followers fill rows of
/// `cols` cells 2 apart, starting 2 behind the leader, one cell per row when
/// the grid has no columns.
pub proof fn lemma_slot_coordinates(pattern: FormationPattern, origin: Position, n: nat, k: int)
    requires
        pattern_fits(pattern, origin, n),
        0 <= k < n,
    ensures
        formation_positions(pattern, origin, n).len() == n,
        pattern is Line ==> formation_positions(pattern, origin, n)[k].x == origin.x + 2 * k + 2
            && formation_positions(pattern, origin, n)[k].y == origin.y,
        pattern is Column ==> formation_positions(pattern, origin, n)[k].x == origin.x
            && formation_positions(pattern, origin, n)[k].y == origin.y + 2 * k + 2,
        pattern is Wedge ==> formation_positions(pattern, origin, n)[k].y == origin.y + 2 * k + 2
            && (k % 2 == 0 ==> formation_positions(pattern, origin, n)[k].x == origin.x - 2 * k
            - 2) && (k % 2 == 1 ==> formation_positions(pattern, origin, n)[k].x == origin.x + 2
            * k + 2),
        pattern matches FormationPattern::Grid { rows, cols } ==> (cols > 0 ==> {
            &&& formation_positions(pattern, origin, n)[k].x == origin.x + 2 * (k % (cols as int))
            &&& formation_positions(pattern, origin, n)[k].y == origin.y + 2 * (k / (cols as int))
                + 2
        }) && (cols == 0 ==> {
            &&& formation_positions(pattern, origin, n)[k].x == origin.x
            &&& formation_positions(pattern, origin, n)[k].y == origin.y + 2 * k + 2
        }),
        !(pattern is Grid) && k + 1 < n ==> crate::position::manhattan(
            formation_positions(pattern, origin, n)[k],
            formation_positions(pattern, origin, n)[k + 1],
        ) == if pattern is Wedge {
            4 * k + 8
        } else {
            2
        },
{
    assert(slot_fits(pattern, origin, k));
    if k + 1 < n {
        assert(slot_fits(pattern, origin, k + 1));
    }
    match pattern {
        FormationPattern::Grid { rows, cols } => {
            if cols == 0 {
                assert(k % 1 == 0 && k / 1 == k);
            }
        },
        _ => {},
    }
}

} // verus!
