//! Pure spatial queries over a snapshot: bounds, adjacency, distance,
//! direction between neighboring cells, and bot lookups.

use vstd::prelude::*;
use crate::bot::Bot;
use crate::direction::Direction;
use crate::state::{find_at, lemma_find_at_hit, lemma_find_at_miss, GameState, Position};

verus! {

/// Errors of the spatial and pathfinding layer.
#[derive(Clone, Copy, PartialEq, Eq, Structural, Debug)]
pub enum SpatialError {
    /// Two positions that are not exactly one step apart were handed to a
    /// direction computation.
    NotAdjacent,
    /// No route exists between the two cells.
    NoPath,
    /// A path with no first step (start and goal coincide).
    EmptyPath,
}

/// The absolute difference of two coordinates.
pub open spec fn abs_diff(a: int, b: int) -> int {
    if a >= b {
        a - b
    } else {
        b - a
    }
}

/// Manhattan distance between two positions.
pub open spec fn spec_dist(a: Position, b: Position) -> int {
    abs_diff(a.x as int, b.x as int) + abs_diff(a.y as int, b.y as int)
}

/// The (unclamped) coordinates one step from `p` in direction `d`.
pub open spec fn spec_step(p: Position, d: Direction) -> (int, int) {
    match d {
        Direction::Up => (p.x as int, p.y - 1),
        Direction::Down => (p.x as int, p.y + 1),
        Direction::Left => (p.x - 1, p.y as int),
        Direction::Right => (p.x + 1, p.y as int),
    }
}

/// Whether `q` is the cell one step from `p` in direction `d`.
pub open spec fn steps_to(p: Position, d: Direction, q: Position) -> bool {
    spec_step(p, d) == (q.x as int, q.y as int)
}

/// Whether the position `(x, y)` lies inside a map of the given size.
pub open spec fn spec_in_bounds(x: int, y: int, width: int, height: int) -> bool {
    0 <= x < width && 0 <= y < height
}

/// Whether the position `(x, y)` lies inside a map of the given size.
pub fn is_in_bounds(x: usize, y: usize, width: usize, height: usize) -> (r: bool)
    ensures
        r == spec_in_bounds(x as int, y as int, width as int, height as int),
{
    x < width && y < height
}

/// The position one step from `p` in direction `d`.  The caller must rule
/// out stepping over the edge of the coordinate space.
pub fn adjacent_position_in_direction(p: Position, d: Direction) -> (r: Position)
    requires
        d == Direction::Left ==> p.x >= 1,
        d == Direction::Up ==> p.y >= 1,
        d == Direction::Right ==> p.x < usize::MAX,
        d == Direction::Down ==> p.y < usize::MAX,
    ensures
        steps_to(p, d, r),
{
    match d {
        Direction::Up => Position { x: p.x, y: p.y - 1 },
        Direction::Down => Position { x: p.x, y: p.y + 1 },
        Direction::Left => Position { x: p.x - 1, y: p.y },
        Direction::Right => Position { x: p.x + 1, y: p.y },
    }
}

/// The in-bounds cell one step from `p` in direction `d`, or `None` when
/// that step leaves the map.
pub fn bounded_adjacent_position(width: usize, height: usize, p: Position, d: Direction) -> (r:
    Option<Position>)
    requires
        spec_in_bounds(p.x as int, p.y as int, width as int, height as int),
    ensures
        r matches Some(q) ==> steps_to(p, d, q) && spec_in_bounds(
            q.x as int,
            q.y as int,
            width as int,
            height as int,
        ),
        r is None ==> !spec_in_bounds(
            spec_step(p, d).0,
            spec_step(p, d).1,
            width as int,
            height as int,
        ),
{
    match d {
        Direction::Up => if p.y > 0 {
            Some(Position { x: p.x, y: p.y - 1 })
        } else {
            None
        },
        Direction::Down => if p.y + 1 < height {
            Some(Position { x: p.x, y: p.y + 1 })
        } else {
            None
        },
        Direction::Left => if p.x > 0 {
            Some(Position { x: p.x - 1, y: p.y })
        } else {
            None
        },
        Direction::Right => if p.x + 1 < width {
            Some(Position { x: p.x + 1, y: p.y })
        } else {
            None
        },
    }
}

/// The up-to-four in-bounds neighbors of `p`, in the canonical order Left,
/// Right, Up, Down.
pub open spec fn spec_valid_adjacent(width: usize, height: usize, p: Position) -> Seq<Position> {
    let left = if p.x > 0 {
        seq![Position { x: (p.x - 1) as usize, y: p.y }]
    } else {
        Seq::<Position>::empty()
    };
    let right = if p.x + 1 < width {
        seq![Position { x: (p.x + 1) as usize, y: p.y }]
    } else {
        Seq::<Position>::empty()
    };
    let up = if p.y > 0 {
        seq![Position { x: p.x, y: (p.y - 1) as usize }]
    } else {
        Seq::<Position>::empty()
    };
    let down = if p.y + 1 < height {
        seq![Position { x: p.x, y: (p.y + 1) as usize }]
    } else {
        Seq::<Position>::empty()
    };
    left + right + up + down
}

/// The in-bounds neighbors of `p`, in the canonical order Left, Right, Up,
/// Down.
pub fn valid_adjacent_positions(state: &GameState, p: Position) -> (r: Vec<Position>)
    requires
        state.spec_in_bounds(p),
    ensures
        r@ == spec_valid_adjacent(state.map_width, state.map_height, p),
{
    let width = state.map_width;
    let height = state.map_height;
    let mut r: Vec<Position> = Vec::new();
    if p.x > 0 {
        r.push(Position { x: p.x - 1, y: p.y });
    }
    if p.x + 1 < width {
        r.push(Position { x: p.x + 1, y: p.y });
    }
    if p.y > 0 {
        r.push(Position { x: p.x, y: p.y - 1 });
    }
    if p.y + 1 < height {
        r.push(Position { x: p.x, y: p.y + 1 });
    }
    proof {
        assert(r@ =~= spec_valid_adjacent(width, height, p));
    }
    r
}

/// The direction from `from` toward an adjacent cell `to`: the unique `d`
/// with `spec_step(from, d) == to`, or `NotAdjacent` when the two cells are
/// not exactly one step apart.
pub fn direction_between(from: Position, to: Position) -> (r: Result<Direction, SpatialError>)
    ensures
        r matches Ok(d) ==> steps_to(from, d, to),
        r is Err ==> r == Result::<Direction, SpatialError>::Err(SpatialError::NotAdjacent)
            && spec_dist(from, to) != 1,
        spec_dist(from, to) == 1 ==> r is Ok,
{
    if from.x < usize::MAX && from.x + 1 == to.x && from.y == to.y {
        Ok(Direction::Right)
    } else if to.x < usize::MAX && from.x == to.x + 1 && from.y == to.y {
        Ok(Direction::Left)
    } else if from.x == to.x && to.y < usize::MAX && from.y == to.y + 1 {
        Ok(Direction::Up)
    } else if from.x == to.x && from.y < usize::MAX && from.y + 1 == to.y {
        Ok(Direction::Down)
    } else {
        Err(SpatialError::NotAdjacent)
    }
}

/// Manhattan distance between two positions: the number of non-diagonal
/// steps between them.
pub fn distance(a: Position, b: Position) -> (r: usize)
    requires
        spec_dist(a, b) <= usize::MAX,
    ensures
        r == spec_dist(a, b),
{
    let dx = if a.x >= b.x {
        a.x - b.x
    } else {
        b.x - a.x
    };
    let dy = if a.y >= b.y {
        a.y - b.y
    } else {
        b.y - a.y
    };
    dx + dy
}

/// The bot standing at `position`, if any.
pub fn bot_at(state: &GameState, position: Position) -> (r: Option<Bot>)
    ensures
        r == state.spec_bot_at(position),
        r is Some <==> state.spec_has_bot(position),
{
    let n = state.bots.len();
    let mut i: usize = 0;
    while i < n
        invariant
            n == state.bots.len(),
            i <= n,
            forall|j: int| 0 <= j < i ==> (#[trigger] state.bots[j]).0 != position,
        decreases n - i,
    {
        let (p, b) = state.bots[i];
        if p.x == position.x && p.y == position.y {
            proof {
                lemma_find_at_hit(state.bots@, position, i as int);
                crate::state::lemma_find_at_some(state.bots@, position);
            }
            return Some(b);
        }
        i += 1;
    }
    proof {
        lemma_find_at_miss(state.bots@, position);
        crate::state::lemma_find_at_some(state.bots@, position);
    }
    None
}

/// The resource lying at `position`, if any.
pub fn resource_at(state: &GameState, position: Position) -> (r: Option<crate::resource::Resource>)
    ensures
        r == state.spec_resource_at(position),
        r is Some <==> state.spec_has_resource(position),
{
    let n = state.resources.len();
    let mut i: usize = 0;
    while i < n
        invariant
            n == state.resources.len(),
            i <= n,
            forall|j: int| 0 <= j < i ==> (#[trigger] state.resources[j]).0 != position,
        decreases n - i,
    {
        let (p, res) = state.resources[i];
        if p.x == position.x && p.y == position.y {
            proof {
                lemma_find_at_hit(state.resources@, position, i as int);
                crate::state::lemma_find_at_some(state.resources@, position);
            }
            return Some(res);
        }
        i += 1;
    }
    proof {
        lemma_find_at_miss(state.resources@, position);
        crate::state::lemma_find_at_some(state.resources@, position);
    }
    None
}

/// Whether a resource lies at `position`.
pub fn has_resource(state: &GameState, position: Position) -> (r: bool)
    ensures
        r == state.spec_has_resource(position),
{
    resource_at(state, position).is_some()
}

/// Whether a bot stands at `position`.
pub fn has_bot(state: &GameState, position: Position) -> (r: bool)
    ensures
        r == state.spec_has_bot(position),
{
    bot_at(state, position).is_some()
}

/// The direction toward an occupied neighbor cell, if any: the first of
/// Left, Right, Up, Down whose in-bounds neighbor holds a bot.
pub open spec fn spec_adjacent_enemy_direction(s: GameState, p: Position) -> Option<Direction> {
    let w = s.map_width;
    let h = s.map_height;
    if p.x > 0 && s.spec_has_bot(Position { x: (p.x - 1) as usize, y: p.y }) {
        Some(Direction::Left)
    } else if p.x + 1 < w && s.spec_has_bot(Position { x: (p.x + 1) as usize, y: p.y }) {
        Some(Direction::Right)
    } else if p.y > 0 && s.spec_has_bot(Position { x: p.x, y: (p.y - 1) as usize }) {
        Some(Direction::Up)
    } else if p.y + 1 < h && s.spec_has_bot(Position { x: p.x, y: (p.y + 1) as usize }) {
        Some(Direction::Down)
    } else {
        None
    }
}

/// The direction toward an occupied neighbor cell, if any (first match in
/// the canonical order Left, Right, Up, Down).
pub fn adjacent_enemy_direction(state: &GameState, p: Position) -> (r: Option<Direction>)
    requires
        state.spec_in_bounds(p),
    ensures
        r == spec_adjacent_enemy_direction(*state, p),
{
    if p.x > 0 && has_bot(state, Position { x: p.x - 1, y: p.y }) {
        Some(Direction::Left)
    } else if p.x + 1 < state.map_width && has_bot(state, Position { x: p.x + 1, y: p.y }) {
        Some(Direction::Right)
    } else if p.y > 0 && has_bot(state, Position { x: p.x, y: p.y - 1 }) {
        Some(Direction::Up)
    } else if p.y + 1 < state.map_height && has_bot(state, Position { x: p.x, y: p.y + 1 }) {
        Some(Direction::Down)
    } else {
        None
    }
}

/// The closest occupied position among the first `k` bot entries, excluding
/// `p` itself.  Ties are broken by iteration order: the first seen wins.
pub open spec fn spec_closest_upto(bots: Seq<(Position, Bot)>, p: Position, k: int) -> Option<
    Position,
>
    decreases k,
{
    if k <= 0 {
        None
    } else {
        let prev = spec_closest_upto(bots, p, k - 1);
        let q = bots[k - 1].0;
        if q == p {
            prev
        } else {
            match prev {
                None => Some(q),
                Some(b) => if spec_dist(q, p) < spec_dist(b, p) {
                    Some(q)
                } else {
                    prev
                },
            }
        }
    }
}

/// The closest occupied position, excluding `p` itself; first seen wins on
/// ties.
pub open spec fn spec_closest_other_bot(s: GameState, p: Position) -> Option<Position> {
    spec_closest_upto(s.bots@, p, s.bots@.len() as int)
}

/// What the first-seen minimum guarantees: the result is an entry other than
/// `p`, no entry other than `p` is closer, and `None` comes only when every
/// entry sits at `p`.
pub proof fn lemma_closest_upto(bots: Seq<(Position, Bot)>, p: Position, k: int)
    requires
        0 <= k <= bots.len(),
    ensures
        spec_closest_upto(bots, p, k) matches Some(q) ==> q != p && (exists|i: int|
            0 <= i < k && (#[trigger] bots[i]).0 == q) && (forall|i: int|
            0 <= i < k && (#[trigger] bots[i]).0 != p ==> spec_dist(q, p) <= spec_dist(
                bots[i].0,
                p,
            )),
        spec_closest_upto(bots, p, k) is None ==> forall|i: int|
            0 <= i < k ==> (#[trigger] bots[i]).0 == p,
    decreases k,
{
    if k > 0 {
        lemma_closest_upto(bots, p, k - 1);
    }
}

/// The occupied position closest to `p` in Manhattan distance, excluding
/// `p` itself; ties are broken by iteration order (first seen wins).
pub fn closest_other_bot(state: &GameState, p: Position) -> (r: Option<Position>)
    requires
        state.wf(),
        state.spec_in_bounds(p),
    ensures
        r == spec_closest_other_bot(*state, p),
        r matches Some(q) ==> q != p && state.spec_has_bot(q) && (forall|i: int|
            0 <= i < state.bots.len() && (#[trigger] state.bots[i]).0 != p ==> spec_dist(q, p)
                <= spec_dist(state.bots[i].0, p)),
        r is None ==> forall|i: int| 0 <= i < state.bots.len() ==> (#[trigger] state.bots[i]).0 == p,
{
    let n = state.bots.len();
    let mut best: Option<Position> = None;
    let mut i: usize = 0;
    while i < n
        invariant
            state.wf(),
            state.spec_in_bounds(p),
            n == state.bots.len(),
            i <= n,
            best == spec_closest_upto(state.bots@, p, i as int),
            best matches Some(b) ==> state.spec_in_bounds(b),
        decreases n - i,
    {
        let (q, _) = state.bots[i];
        proof {
            assert(state.bots@[i as int].0 == q);
        }
        if q.x != p.x || q.y != p.y {
            match best {
                None => {
                    best = Some(q);
                },
                Some(b) => {
                    proof {
                        lemma_dist_bounded(*state, q, p);
                        lemma_dist_bounded(*state, b, p);
                    }
                    if distance(q, p) < distance(b, p) {
                        best = Some(q);
                    }
                },
            }
        }
        i += 1;
    }
    proof {
        lemma_closest_upto(state.bots@, p, n as int);
        if best is Some {
            crate::state::lemma_find_at_some(state.bots@, p);
        }
    }
    best
}

/// On a well-formed map the distance between two in-bounds cells fits in a
/// machine word.
pub proof fn lemma_dist_bounded(s: GameState, a: Position, b: Position)
    requires
        s.map_width + s.map_height <= usize::MAX,
        s.spec_in_bounds(a),
        s.spec_in_bounds(b),
    ensures
        0 <= spec_dist(a, b) <= usize::MAX,
{
}

} // verus!
