//! Breadth-first shortest-path routing over the grid.
//!
//! Every in-bounds cell is traversable: bots do not block each other's
//! planned routes, only actual movement is conflict-resolved later.  On such
//! an open grid the length of a shortest path equals the Manhattan distance,
//! and the search always succeeds; the contract of [`shortest_path`] states
//! both.

use vstd::prelude::*;
use crate::direction::Direction;
use crate::spatial::{
    bounded_adjacent_position, direction_between, spec_dist, spec_in_bounds, spec_step, steps_to,
    SpatialError,
};
use crate::state::{GameState, Position};

verus! {

/// Whether `c` is a walk on a `w` by `h` map: every cell in bounds and
/// consecutive cells one step apart.
pub open spec fn is_chain(c: Seq<Position>, w: int, h: int) -> bool {
    &&& forall|i: int|
        0 <= i < c.len() ==> spec_in_bounds((#[trigger] c[i]).x as int, c[i].y as int, w, h)
    &&& forall|i: int| 0 <= i < c.len() - 1 ==> spec_dist(#[trigger] c[i], c[i + 1]) == 1
}

/// Whether `p` is a path from `from` up to and including `to`, exclusive of
/// `from` itself: the walk `from, p[0], ..., p[last] == to`.  When `from`
/// and `to` coincide the path is empty.
pub open spec fn is_path(from: Position, p: Seq<Position>, to: Position, w: int, h: int) -> bool {
    &&& is_chain(seq![from] + p, w, h)
    &&& (seq![from] + p).last() == to
}

/// Stepping to a neighboring cell changes the distance to any fixed origin
/// by exactly one.
pub proof fn lemma_dist_step(o: Position, a: Position, b: Position)
    requires
        spec_dist(a, b) == 1,
    ensures
        spec_dist(o, b) == spec_dist(o, a) + 1 || spec_dist(o, b) == spec_dist(o, a) - 1,
{
}

/// Positions at distance zero coincide.
pub proof fn lemma_dist_zero(a: Position, b: Position)
    requires
        spec_dist(a, b) == 0,
    ensures
        a == b,
{
}

/// From any in-bounds cell strictly away from `from`, some in-bounds
/// neighbor is one step closer to `from`.  Returns such a neighbor.
pub proof fn lemma_step_toward(from: Position, p: Position, w: int, h: int) -> (m: Position)
    requires
        spec_in_bounds(from.x as int, from.y as int, w, h),
        spec_in_bounds(p.x as int, p.y as int, w, h),
        spec_dist(from, p) >= 1,
    ensures
        spec_in_bounds(m.x as int, m.y as int, w, h),
        spec_dist(p, m) == 1,
        spec_dist(from, m) == spec_dist(from, p) - 1,
{
    if p.x > from.x {
        Position { x: (p.x - 1) as usize, y: p.y }
    } else if p.x < from.x {
        Position { x: (p.x + 1) as usize, y: p.y }
    } else if p.y > from.y {
        Position { x: p.x, y: (p.y - 1) as usize }
    } else {
        Position { x: p.x, y: (p.y + 1) as usize }
    }
}

/// Manhattan distance obeys the triangle inequality.
pub proof fn lemma_dist_triangle(a: Position, b: Position, c: Position)
    ensures
        spec_dist(a, c) <= spec_dist(a, b) + spec_dist(b, c),
{
}

/// Rank of a direction in the canonical neighbor-expansion order Left,
/// Right, Up, Down.
pub open spec fn dir_prio(d: Direction) -> int {
    match d {
        Direction::Left => 0,
        Direction::Right => 1,
        Direction::Up => 2,
        Direction::Down => 3,
    }
}

/// Whether one step from `from` in direction `d` stays on the map and
/// lands one cell closer to `to`.
pub open spec fn closer_dir(w: int, h: int, from: Position, to: Position, d: Direction) -> bool {
    spec_in_bounds(spec_step(from, d).0, spec_step(from, d).1, w, h) && spec_dist(
        spec_step_pos(from, d),
        to,
    ) == spec_dist(from, to) - 1
}

/// The direction of the first step of the first-discovered shortest path
/// from `from` to `to`: the first direction in the canonical order Left,
/// Right, Up, Down whose step stays on the map and closes in on `to`.
pub open spec fn spec_next_step_dir(w: int, h: int, from: Position, to: Position) -> Direction {
    if closer_dir(w, h, from, to, Direction::Left) {
        Direction::Left
    } else if closer_dir(w, h, from, to, Direction::Right) {
        Direction::Right
    } else if closer_dir(w, h, from, to, Direction::Up) {
        Direction::Up
    } else {
        Direction::Down
    }
}

/// Equal ranks mean equal directions.
pub proof fn lemma_prio_injective(a: Direction, b: Direction)
    requires
        dir_prio(a) == dir_prio(b),
    ensures
        a == b,
{
}

/// For two distinct in-bounds cells the canonical first direction does
/// close in on the goal, and it ranks first among all directions that do.
pub proof fn lemma_next_step_dir(w: int, h: int, from: Position, to: Position)
    requires
        spec_in_bounds(from.x as int, from.y as int, w, h),
        spec_in_bounds(to.x as int, to.y as int, w, h),
        from != to,
    ensures
        closer_dir(w, h, from, to, spec_next_step_dir(w, h, from, to)),
        forall|d: Direction|
            #[trigger] closer_dir(w, h, from, to, d) ==> dir_prio(
                spec_next_step_dir(w, h, from, to),
            ) <= dir_prio(d),
{
    let m = lemma_step_toward(to, from, w, h);
    if m.x as int == from.x - 1 {
        assert(closer_dir(w, h, from, to, Direction::Left));
    } else if m.x as int == from.x + 1 {
        assert(closer_dir(w, h, from, to, Direction::Right));
    } else if m.y as int == from.y - 1 {
        assert(closer_dir(w, h, from, to, Direction::Up));
    } else {
        assert(m.y as int == from.y + 1);
        assert(closer_dir(w, h, from, to, Direction::Down));
    }
}

/// Toward an adjacent goal, the canonical first step lands on the goal
/// itself.
pub proof fn lemma_next_step_dir_adjacent(w: int, h: int, from: Position, n: Position)
    requires
        spec_in_bounds(from.x as int, from.y as int, w, h),
        spec_in_bounds(n.x as int, n.y as int, w, h),
        spec_dist(from, n) == 1,
    ensures
        steps_to(from, spec_next_step_dir(w, h, from, n), n),
{
    lemma_next_step_dir(w, h, from, n);
    let d = spec_next_step_dir(w, h, from, n);
    lemma_dist_zero(spec_step_pos(from, d), n);
}

/// The canonical first direction toward `n` ranks no worse than the one
/// toward any shortest predecessor of `n`.
pub proof fn lemma_first_dir_le_pred(w: int, h: int, from: Position, n: Position, m: Position)
    requires
        spec_in_bounds(from.x as int, from.y as int, w, h),
        spec_in_bounds(n.x as int, n.y as int, w, h),
        spec_in_bounds(m.x as int, m.y as int, w, h),
        spec_dist(from, n) >= 2,
        spec_dist(m, n) == 1,
        spec_dist(from, m) == spec_dist(from, n) - 1,
    ensures
        dir_prio(spec_next_step_dir(w, h, from, n)) <= dir_prio(spec_next_step_dir(w, h, from, m)),
{
    lemma_next_step_dir(w, h, from, m);
    let dm = spec_next_step_dir(w, h, from, m);
    let s = spec_step_pos(from, dm);
    lemma_dist_triangle(s, m, n);
    lemma_dist_triangle(from, s, n);
    assert(spec_dist(from, s) == 1);
    assert(closer_dir(w, h, from, n, dm));
    lemma_next_step_dir(w, h, from, n);
}

/// Some shortest predecessor of `n` carries a canonical first direction
/// ranking no worse than `n`'s own.  Returns such a predecessor.
pub proof fn lemma_pred_attaining(w: int, h: int, from: Position, n: Position) -> (m: Position)
    requires
        spec_in_bounds(from.x as int, from.y as int, w, h),
        spec_in_bounds(n.x as int, n.y as int, w, h),
        spec_dist(from, n) >= 2,
    ensures
        spec_in_bounds(m.x as int, m.y as int, w, h),
        spec_dist(m, n) == 1,
        spec_dist(from, m) == spec_dist(from, n) - 1,
        dir_prio(spec_next_step_dir(w, h, from, m)) <= dir_prio(spec_next_step_dir(w, h, from, n)),
{
    lemma_next_step_dir(w, h, from, n);
    let dn = spec_next_step_dir(w, h, from, n);
    let s = spec_step_pos(from, dn);
    let m = lemma_step_toward(s, n, w, h);
    lemma_dist_step(from, n, m);
    lemma_dist_triangle(from, s, m);
    assert(spec_dist(from, s) == 1);
    assert(spec_dist(from, m) == spec_dist(from, n) - 1);
    assert(spec_dist(s, m) == spec_dist(from, m) - 1);
    assert(closer_dir(w, h, from, m, dn));
    lemma_next_step_dir(w, h, from, m);
    m
}

/// A walk from `a` to `b` takes at least `spec_dist(a, b)` steps.
pub proof fn lemma_chain_dist(c: Seq<Position>, w: int, h: int)
    requires
        is_chain(c, w, h),
        c.len() >= 1,
    ensures
        spec_dist(c[0], c.last()) <= c.len() - 1,
    decreases c.len(),
{
    if c.len() > 1 {
        let d = c.drop_first();
        assert forall|i: int|
            0 <= i < d.len() implies spec_in_bounds((#[trigger] d[i]).x as int, d[i].y as int, w, h) by {
            assert(d[i] == c[i + 1]);
        }
        assert forall|i: int| 0 <= i < d.len() - 1 implies spec_dist(#[trigger] d[i], d[i + 1])
            == 1 by {
            assert(d[i] == c[i + 1]);
            assert(d[i + 1] == c[i + 2]);
        }
        lemma_chain_dist(d, w, h);
        assert(d[0] == c[1]);
        assert(d.last() == c.last());
        lemma_dist_step(c.last(), c[0], c[1]);
    }
}

/// How many cells of one grid column are still unvisited.
spec fn count_false_col(col: Seq<bool>) -> nat
    decreases col.len(),
{
    if col.len() == 0 {
        0
    } else {
        (if !col[0] {
            1nat
        } else {
            0nat
        }) + count_false_col(col.drop_first())
    }
}

/// How many cells of the whole grid are still unvisited.
spec fn count_false(v: Seq<Vec<bool>>) -> nat
    decreases v.len(),
{
    if v.len() == 0 {
        0
    } else {
        count_false_col(v[0]@) + count_false(v.drop_first())
    }
}

/// Marking one unvisited cell of a column lowers its count by one.
proof fn lemma_count_false_col_update(col: Seq<bool>, y: int)
    requires
        0 <= y < col.len(),
        !col[y],
    ensures
        count_false_col(col.update(y, true)) + 1 == count_false_col(col),
    decreases col.len(),
{
    if y == 0 {
        assert(col.update(0, true).drop_first() =~= col.drop_first());
    } else {
        assert(col.update(y, true).drop_first() =~= col.drop_first().update(y - 1, true));
        lemma_count_false_col_update(col.drop_first(), y - 1);
    }
}

/// Marking one unvisited cell of the grid lowers its count by one.
proof fn lemma_count_false_update(v: Seq<Vec<bool>>, x: int, row: Vec<bool>, y: int)
    requires
        0 <= x < v.len(),
        0 <= y < v[x]@.len(),
        !v[x]@[y],
        row@ == v[x]@.update(y, true),
    ensures
        count_false(v.update(x, row)) + 1 == count_false(v),
    decreases v.len(),
{
    if x == 0 {
        assert(v.update(0, row).drop_first() =~= v.drop_first());
        assert(v.update(0, row)[0] == row);
        lemma_count_false_col_update(v[0]@, y);
    } else {
        assert(v.update(x, row).drop_first() =~= v.drop_first().update(x - 1, row));
        assert(v.update(x, row)[0] == v[0]);
        assert(v.drop_first()[x - 1] == v[x]);
        lemma_count_false_update(v.drop_first(), x - 1, row, y);
    }
}

/// Whether the visited grid marks `p`.
spec fn vis(v: Seq<Vec<bool>>, p: Position) -> bool {
    v[p.x as int]@[p.y as int]
}

/// A `w` by `h` grid of flags.
spec fn grid_wf(v: Seq<Vec<bool>>, w: int, h: int) -> bool {
    v.len() == w && forall|i: int| 0 <= i < w ==> (#[trigger] v[i])@.len() == h
}

/// Whether some queue entry stands at `p`.
spec fn in_queue(q: Seq<(Position, Vec<Position>)>, p: Position) -> bool {
    exists|i: int| 0 <= i < q.len() && (#[trigger] q[i]).0 == p
}

/// A valid search queue entry: an in-bounds cell together with a shortest
/// walk from `from` to it, inclusive of both ends, starting with the
/// canonical first step toward the cell.
spec fn entry_inv(from: Position, w: int, h: int, e: (Position, Vec<Position>)) -> bool {
    &&& spec_in_bounds(e.0.x as int, e.0.y as int, w, h)
    &&& e.1@.len() == spec_dist(from, e.0) + 1
    &&& e.1@[0] == from
    &&& e.1@.last() == e.0
    &&& is_chain(e.1@, w, h)
    &&& e.0 != from ==> e.1@[1] == spec_step_pos(from, spec_next_step_dir(w, h, from, e.0))
}

/// Rank of a cell's canonical first direction from `from`.
spec fn entry_prio(w: int, h: int, from: Position, p: Position) -> int {
    dir_prio(spec_next_step_dir(w, h, from, p))
}

/// Rank of the entries an expansion of `cur` in direction `dir` appends:
/// a neighbor of the start cell gets its own direction, any other cell
/// inherits the first direction of `cur`.
spec fn expansion_prio(w: int, h: int, from: Position, cur: Position, dir: Direction) -> int {
    if cur == from {
        dir_prio(dir)
    } else {
        entry_prio(w, h, from, cur)
    }
}

/// Every in-bounds cell nearer to `from` than `d` is already visited.
spec fn frontier_lt(v: Seq<Vec<bool>>, from: Position, d: int, w: int, h: int) -> bool {
    forall|p: Position|
        spec_in_bounds(p.x as int, p.y as int, w, h) && spec_dist(from, p) < d ==> vis(v, p)
}

/// Every visited cell that is neither pending in the queue nor the one cell
/// named in `ex` has all its in-bounds neighbors visited.
spec fn closure_except(
    v: Seq<Vec<bool>>,
    q: Seq<(Position, Vec<Position>)>,
    w: int,
    h: int,
    ex: Option<Position>,
) -> bool {
    forall|a: Position, b: Position|
        #![trigger vis(v, a), spec_dist(a, b)]
        spec_in_bounds(a.x as int, a.y as int, w, h) && vis(v, a) && !in_queue(q, a) && Some(a)
            != ex && spec_in_bounds(b.x as int, b.y as int, w, h) && spec_dist(a, b) == 1 ==> vis(
            v,
            b,
        )
}

/// Queue entries are valid, visited, at distance `d` or `d + 1` from
/// `from`, in nondecreasing order, and pairwise on different cells.
spec fn queue_mid(
    q: Seq<(Position, Vec<Position>)>,
    from: Position,
    w: int,
    h: int,
    v: Seq<Vec<bool>>,
    d: int,
) -> bool {
    &&& forall|i: int|
        0 <= i < q.len() ==> entry_inv(from, w, h, #[trigger] q[i]) && vis(v, q[i].0) && d
            <= spec_dist(from, q[i].0) <= d + 1
    &&& forall|i: int, j: int|
        0 <= i <= j < q.len() ==> spec_dist(from, (#[trigger] q[i]).0) <= spec_dist(
            from,
            (#[trigger] q[j]).0,
        )
    &&& forall|i: int, j: int| 0 <= i < j < q.len() ==> (#[trigger] q[i]).0 != (#[trigger] q[j]).0
    &&& forall|i: int, j: int|
        0 <= i <= j < q.len() && spec_dist(from, (#[trigger] q[i]).0) == spec_dist(
            from,
            (#[trigger] q[j]).0,
        ) && q[i].0 != from && q[j].0 != from ==> entry_prio(w, h, from, q[i].0) <= entry_prio(
            w,
            h,
            from,
            q[j].0,
        )
    &&& forall|i: int, j: int|
        0 <= i <= j < q.len() && spec_dist(from, (#[trigger] q[j]).0) == spec_dist(
            from,
            (#[trigger] q[i]).0,
        ) + 1 && q[i].0 != from ==> entry_prio(w, h, from, q[j].0) <= entry_prio(w, h, from, q[i].0)
}

/// An element-by-element copy of a walk.
fn clone_chain(v: &Vec<Position>) -> (r: Vec<Position>)
    ensures
        r@ == v@,
{
    let mut r: Vec<Position> = Vec::new();
    let mut i: usize = 0;
    while i < v.len()
        invariant
            i <= v@.len(),
            r@ == v@.subrange(0, i as int),
        decreases v@.len() - i,
    {
        r.push(v[i]);
        i += 1;
        proof {
            assert(r@ =~= v@.subrange(0, i as int));
        }
    }
    proof {
        assert(r@ =~= v@);
    }
    r
}

/// Carry the expansion rank bounds from one canonical direction to the
/// next: the rank never falls along the order Left, Right, Up, Down.
proof fn shift_expansion_rank(
    w: int,
    h: int,
    from: Position,
    cur: Position,
    q: Seq<(Position, Vec<Position>)>,
    d: int,
    prev: Direction,
    next: Direction,
)
    requires
        d == spec_dist(from, cur),
        dir_prio(prev) <= dir_prio(next),
        forall|i: int| 0 <= i < q.len() ==> (#[trigger] q[i]).0 != from,
        forall|i: int|
            0 <= i < q.len() && spec_dist(from, (#[trigger] q[i]).0) == d + 1 ==> entry_prio(
                w,
                h,
                from,
                q[i].0,
            ) <= expansion_prio(w, h, from, cur, prev),
        forall|i: int|
            0 <= i < q.len() && spec_dist(from, (#[trigger] q[i]).0) == d ==> expansion_prio(
                w,
                h,
                from,
                cur,
                prev,
            ) <= entry_prio(w, h, from, q[i].0),
    ensures
        forall|i: int|
            0 <= i < q.len() && spec_dist(from, (#[trigger] q[i]).0) == d + 1 ==> entry_prio(
                w,
                h,
                from,
                q[i].0,
            ) <= expansion_prio(w, h, from, cur, next),
        forall|i: int|
            0 <= i < q.len() && spec_dist(from, (#[trigger] q[i]).0) == d ==> expansion_prio(
                w,
                h,
                from,
                cur,
                next,
            ) <= entry_prio(w, h, from, q[i].0),
{
    if cur == from {
        assert forall|i: int|
            0 <= i < q.len() && spec_dist(from, (#[trigger] q[i]).0) == d implies expansion_prio(
            w,
            h,
            from,
            cur,
            next,
        ) <= entry_prio(w, h, from, q[i].0) by {
            lemma_dist_zero(from, q[i].0);
        }
    }
}

/// Once every in-bounds neighbor of the expanded cell is visited, the
/// closure holds with no exception.
proof fn lemma_full_closure(
    v: Seq<Vec<bool>>,
    q: Seq<(Position, Vec<Position>)>,
    w: int,
    h: int,
    cur: Position,
)
    requires
        closure_except(v, q, w, h, Some(cur)),
        forall|b: Position|
            spec_in_bounds(b.x as int, b.y as int, w, h) && spec_dist(cur, b) == 1 ==> vis(v, b),
    ensures
        closure_except(v, q, w, h, None),
{
    assert forall|a: Position, b: Position|
        #![trigger vis(v, a), spec_dist(a, b)]
        spec_in_bounds(a.x as int, a.y as int, w, h) && vis(v, a) && !in_queue(q, a) && Some(a)
            != Option::<Position>::None && spec_in_bounds(b.x as int, b.y as int, w, h)
            && spec_dist(a, b) == 1 implies vis(v, b) by {
        if a == cur {
        } else {
        }
    }
}

/// When the queue's head has moved on to the next wave, every cell of the
/// finished wave is already visited.
proof fn lemma_wave_advance(
    q: Seq<(Position, Vec<Position>)>,
    from: Position,
    w: int,
    h: int,
    v: Seq<Vec<bool>>,
    d: int,
)
    requires
        q.len() > 0,
        queue_mid(q, from, w, h, v, d),
        vis(v, from),
        frontier_lt(v, from, d, w, h),
        closure_except(v, q, w, h, None),
    ensures
        frontier_lt(v, from, spec_dist(from, q[0].0), w, h),
{
    let d2 = spec_dist(from, q[0].0);
    assert(d <= d2 <= d + 1);
    assert forall|p: Position|
        spec_in_bounds(p.x as int, p.y as int, w, h) && spec_dist(from, p) < d2 implies vis(
        v,
        p,
    ) by {
        if spec_dist(from, p) < d {
        } else {
            assert(spec_dist(from, p) == d && d2 == d + 1);
            if d == 0 {
                lemma_dist_zero(from, p);
            } else {
                let m = lemma_step_toward(from, p, w, h);
                assert(vis(v, m));
                assert forall|i: int| 0 <= i < q.len() && (#[trigger] q[i]).0 == m
                    implies false by {
                    assert(d <= spec_dist(from, q[i].0));
                }
                assert(!in_queue(q, m));
                assert(spec_dist(m, p) == 1);
            }
        }
    }
}

/// After dequeuing the head, the tail keeps every queue fact relative to
/// the head's wave: validity, sortedness, ranks, closure, and a pending
/// goal stays pending.
proof fn lemma_after_dequeue(
    q_start: Seq<(Position, Vec<Position>)>,
    q: Seq<(Position, Vec<Position>)>,
    from: Position,
    to: Position,
    w: int,
    h: int,
    v: Seq<Vec<bool>>,
)
    requires
        q_start.len() > 0,
        q == q_start.drop_first(),
        queue_mid(q_start, from, w, h, v, spec_dist(from, q_start[0].0)),
        forall|i: int|
            0 <= i < q_start.len() && (#[trigger] q_start[i]).0 == from ==> q_start.len() == 1,
        closure_except(v, q_start, w, h, None),
        vis(v, to) ==> in_queue(q_start, to),
        q_start[0].0 != to,
    ensures
        ({
            let cur = q_start[0].0;
            let d = spec_dist(from, cur);
            &&& queue_mid(q, from, w, h, v, d)
            &&& forall|i: int| 0 <= i < q.len() ==> (#[trigger] q[i]).0 != cur
            &&& forall|i: int| 0 <= i < q.len() ==> (#[trigger] q[i]).0 != from
            &&& forall|i: int|
                0 <= i < q.len() && spec_dist(from, (#[trigger] q[i]).0) == d + 1 ==> entry_prio(
                    w,
                    h,
                    from,
                    q[i].0,
                ) <= expansion_prio(w, h, from, cur, Direction::Left)
            &&& forall|i: int|
                0 <= i < q.len() && spec_dist(from, (#[trigger] q[i]).0) == d ==> expansion_prio(
                    w,
                    h,
                    from,
                    cur,
                    Direction::Left,
                ) <= entry_prio(w, h, from, q[i].0)
            &&& closure_except(v, q, w, h, Some(cur))
            &&& (vis(v, to) ==> in_queue(q, to))
        }),
{
    let cur = q_start[0].0;
    let d = spec_dist(from, cur);
    assert forall|i: int| 0 <= i < q.len() implies entry_inv(from, w, h, #[trigger] q[i]) && vis(
        v,
        q[i].0,
    ) && d <= spec_dist(from, q[i].0) <= d + 1 by {
        assert(q[i] == q_start[i + 1]);
        assert(spec_dist(from, q_start[0].0) <= spec_dist(from, q_start[i + 1].0));
        assert(spec_dist(from, q_start[i + 1].0) <= spec_dist(from, q_start[0].0) + 1);
    }
    assert forall|i: int, j: int| 0 <= i <= j < q.len() implies spec_dist(
        from,
        (#[trigger] q[i]).0,
    ) <= spec_dist(from, (#[trigger] q[j]).0) by {
        assert(q[i] == q_start[i + 1]);
        assert(q[j] == q_start[j + 1]);
    }
    assert forall|i: int, j: int| 0 <= i < j < q.len() implies (#[trigger] q[i]).0 != (
    #[trigger] q[j]).0 by {
        assert(q[i] == q_start[i + 1]);
        assert(q[j] == q_start[j + 1]);
    }
    assert forall|i: int, j: int|
        0 <= i <= j < q.len() && spec_dist(from, (#[trigger] q[i]).0) == spec_dist(
            from,
            (#[trigger] q[j]).0,
        ) && q[i].0 != from && q[j].0 != from implies entry_prio(w, h, from, q[i].0) <= entry_prio(
        w,
        h,
        from,
        q[j].0,
    ) by {
        assert(q[i] == q_start[i + 1]);
        assert(q[j] == q_start[j + 1]);
    }
    assert forall|i: int, j: int|
        0 <= i <= j < q.len() && spec_dist(from, (#[trigger] q[j]).0) == spec_dist(
            from,
            (#[trigger] q[i]).0,
        ) + 1 && q[i].0 != from implies entry_prio(w, h, from, q[j].0) <= entry_prio(
        w,
        h,
        from,
        q[i].0,
    ) by {
        assert(q[i] == q_start[i + 1]);
        assert(q[j] == q_start[j + 1]);
    }
    assert forall|i: int| 0 <= i < q.len() implies (#[trigger] q[i]).0 != cur by {
        assert(q[i] == q_start[i + 1]);
        assert(q_start[0].0 != q_start[i + 1].0);
    }
    assert forall|i: int| 0 <= i < q.len() implies (#[trigger] q[i]).0 != from by {
        assert(q[i] == q_start[i + 1]);
    }
    if cur == from {
        assert(q_start.len() == 1);
    }
    assert forall|i: int|
        0 <= i < q.len() && spec_dist(from, (#[trigger] q[i]).0) == d + 1 implies entry_prio(
        w,
        h,
        from,
        q[i].0,
    ) <= expansion_prio(w, h, from, cur, Direction::Left) by {
        assert(q[i] == q_start[i + 1]);
    }
    assert forall|i: int|
        0 <= i < q.len() && spec_dist(from, (#[trigger] q[i]).0) == d implies expansion_prio(
        w,
        h,
        from,
        cur,
        Direction::Left,
    ) <= entry_prio(w, h, from, q[i].0) by {
        assert(q[i] == q_start[i + 1]);
    }
    assert forall|a: Position, b: Position|
        #![trigger vis(v, a), spec_dist(a, b)]
        spec_in_bounds(a.x as int, a.y as int, w, h) && vis(v, a) && !in_queue(q, a) && Some(a)
            != Some(cur) && spec_in_bounds(b.x as int, b.y as int, w, h) && spec_dist(a, b)
            == 1 implies vis(v, b) by {
        assert forall|i: int| 0 <= i < q_start.len() && (#[trigger] q_start[i]).0 == a
            implies false by {
            if i == 0 {
                assert(a == cur);
            } else {
                assert(q[i - 1] == q_start[i]);
                assert(in_queue(q, a));
            }
        }
        assert(!in_queue(q_start, a));
    }
    if vis(v, to) {
        let i = choose|i: int| 0 <= i < q_start.len() && (#[trigger] q_start[i]).0 == to;
        assert(i != 0);
        assert(q[i - 1] == q_start[i]);
        assert(in_queue(q, to));
    }
}

/// Mark the neighbor `n` of the cell `cur` being expanded and append it to
/// the search queue, unless it is already marked.  Maintains every
/// mid-expansion invariant of the search.
#[verifier::rlimit(100)]
fn try_enqueue(
    w: usize,
    h: usize,
    Ghost(from): Ghost<Position>,
    Ghost(to): Ghost<Position>,
    visited: &mut Vec<Vec<bool>>,
    queue: &mut Vec<(Position, Vec<Position>)>,
    cur: Position,
    chain: &Vec<Position>,
    n: Position,
    Ghost(dir): Ghost<Direction>,
)
    requires
        spec_in_bounds(from.x as int, from.y as int, w as int, h as int),
        spec_in_bounds(to.x as int, to.y as int, w as int, h as int),
        spec_in_bounds(n.x as int, n.y as int, w as int, h as int),
        grid_wf(old(visited)@, w as int, h as int),
        entry_inv(from, w as int, h as int, (cur, *chain)),
        spec_dist(cur, n) == 1,
        steps_to(cur, dir, n),
        vis(old(visited)@, cur),
        vis(old(visited)@, from),
        queue_mid(old(queue)@, from, w as int, h as int, old(visited)@, spec_dist(from, cur)),
        forall|i: int| 0 <= i < old(queue)@.len() ==> (#[trigger] old(queue)@[i]).0 != cur,
        forall|i: int| 0 <= i < old(queue)@.len() ==> (#[trigger] old(queue)@[i]).0 != from,
        forall|i: int|
            0 <= i < old(queue)@.len() && spec_dist(from, (#[trigger] old(queue)@[i]).0)
                == spec_dist(from, cur) + 1 ==> entry_prio(
                w as int,
                h as int,
                from,
                old(queue)@[i].0,
            ) <= expansion_prio(w as int, h as int, from, cur, dir),
        forall|i: int|
            0 <= i < old(queue)@.len() && spec_dist(from, (#[trigger] old(queue)@[i]).0)
                == spec_dist(from, cur) ==> expansion_prio(w as int, h as int, from, cur, dir)
                <= entry_prio(w as int, h as int, from, old(queue)@[i].0),
        frontier_lt(old(visited)@, from, spec_dist(from, cur), w as int, h as int),
        closure_except(old(visited)@, old(queue)@, w as int, h as int, Some(cur)),
        cur != to,
        vis(old(visited)@, to) ==> in_queue(old(queue)@, to),
    ensures
        grid_wf(final(visited)@, w as int, h as int),
        forall|p: Position|
            spec_in_bounds(p.x as int, p.y as int, w as int, h as int) && vis(old(visited)@, p)
                ==> vis(final(visited)@, p),
        forall|p: Position|
            spec_in_bounds(p.x as int, p.y as int, w as int, h as int) && vis(final(visited)@, p)
                ==> vis(old(visited)@, p) || p == n,
        vis(final(visited)@, n),
        vis(final(visited)@, cur),
        vis(final(visited)@, from),
        queue_mid(final(queue)@, from, w as int, h as int, final(visited)@, spec_dist(from, cur)),
        forall|i: int| 0 <= i < final(queue)@.len() ==> (#[trigger] final(queue)@[i]).0 != cur,
        forall|i: int| 0 <= i < final(queue)@.len() ==> (#[trigger] final(queue)@[i]).0 != from,
        forall|i: int|
            0 <= i < final(queue)@.len() && spec_dist(from, (#[trigger] final(queue)@[i]).0)
                == spec_dist(from, cur) + 1 ==> entry_prio(
                w as int,
                h as int,
                from,
                final(queue)@[i].0,
            ) <= expansion_prio(w as int, h as int, from, cur, dir),
        forall|i: int|
            0 <= i < final(queue)@.len() && spec_dist(from, (#[trigger] final(queue)@[i]).0)
                == spec_dist(from, cur) ==> expansion_prio(w as int, h as int, from, cur, dir)
                <= entry_prio(w as int, h as int, from, final(queue)@[i].0),
        frontier_lt(final(visited)@, from, spec_dist(from, cur), w as int, h as int),
        closure_except(final(visited)@, final(queue)@, w as int, h as int, Some(cur)),
        vis(final(visited)@, to) ==> in_queue(final(queue)@, to),
        2 * count_false(final(visited)@) + final(queue)@.len() <= 2 * count_false(old(visited)@)
            + old(queue)@.len(),
{
    let ghost d = spec_dist(from, cur);
    let marked = visited[n.x][n.y];
    if !marked {
        proof {
            lemma_dist_step(from, cur, n);
            if spec_dist(from, n) == d - 1 {
                assert(vis(visited@, n));
            }
            assert(spec_dist(from, n) == d + 1);
        }
        let ghost old_vis = visited@;
        let ghost old_q = queue@;
        let row = &mut visited[n.x];
        row[n.y] = true;
        proof {
            assert(visited@ == old_vis.update(n.x as int, visited@[n.x as int]));
            assert(visited@[n.x as int]@ == old_vis[n.x as int]@.update(n.y as int, true));
            lemma_count_false_update(
                old_vis,
                n.x as int,
                visited@[n.x as int],
                n.y as int,
            );
            assert forall|p: Position|
                spec_in_bounds(p.x as int, p.y as int, w as int, h as int) && vis(old_vis, p)
                    implies vis(visited@, p) by {}
            assert(vis(visited@, n));
        }
        let mut c2 = clone_chain(chain);
        c2.push(n);
        proof {
            assert(c2@ =~= chain@ + seq![n]);
        }
        queue.push((n, c2));
        proof {
            let v2 = visited@;
            let q2 = queue@;
            assert(q2 =~= old_q.push((n, c2)));
            // the new entry is a valid shortest walk to `n`
            assert(c2@[0] == from);
            assert(c2@.last() == n);
            assert forall|i: int| 0 <= i < c2@.len() - 1 implies spec_dist(
                #[trigger] c2@[i],
                c2@[i + 1],
            ) == 1 by {
                if i < chain@.len() - 1 {
                    assert(c2@[i] == chain@[i]);
                    assert(c2@[i + 1] == chain@[i + 1]);
                } else {
                    assert(c2@[i] == chain@.last());
                    assert(c2@[i + 1] == n);
                }
            }
            // the new entry's first step is the canonical one toward `n`
            if cur == from {
                assert(chain@.len() == 1);
                assert(c2@[1] == n);
                lemma_next_step_dir_adjacent(w as int, h as int, from, n);
                assert(spec_step_pos(from, spec_next_step_dir(w as int, h as int, from, n)) == n);
                assert(spec_next_step_dir(w as int, h as int, from, n) == dir) by {
                    assert(steps_to(from, spec_next_step_dir(w as int, h as int, from, n), n));
                    assert(steps_to(from, dir, n));
                }
            } else {
                assert(spec_dist(from, cur) >= 1);
                assert(spec_dist(from, n) >= 2);
                lemma_first_dir_le_pred(w as int, h as int, from, n, cur);
                let m = lemma_pred_attaining(w as int, h as int, from, n);
                if m != cur {
                    assert(m != from) by {
                        if m == from {
                            assert(spec_dist(from, m) == 0);
                        }
                    }
                    // m is visited: its nearer neighbor is already processed
                    let mm = lemma_step_toward(from, m, w as int, h as int);
                    assert(vis(old_vis, mm));
                    assert forall|i: int|
                        0 <= i < old_q.len() && (#[trigger] old_q[i]).0 == mm implies false by {
                        assert(d <= spec_dist(from, old_q[i].0));
                    }
                    assert(!in_queue(old_q, mm));
                    assert(mm != cur);
                    assert(spec_dist(mm, m) == 1);
                    assert(vis(old_vis, m));
                    if in_queue(old_q, m) {
                        let i = choose|i: int|
                            0 <= i < old_q.len() && (#[trigger] old_q[i]).0 == m;
                        assert(spec_dist(from, old_q[i].0) == d);
                        assert(expansion_prio(w as int, h as int, from, cur, dir) <= entry_prio(
                            w as int,
                            h as int,
                            from,
                            m,
                        ));
                    } else {
                        // a processed predecessor would already have marked n
                        assert(vis(old_vis, n));
                        assert(false);
                    }
                }
                assert(entry_prio(w as int, h as int, from, cur) <= entry_prio(
                    w as int,
                    h as int,
                    from,
                    m,
                ));
                lemma_prio_injective(
                    spec_next_step_dir(w as int, h as int, from, n),
                    spec_next_step_dir(w as int, h as int, from, cur),
                );
                assert(c2@[1] == chain@[1]);
            }
            assert(entry_prio(w as int, h as int, from, n) == expansion_prio(
                w as int,
                h as int,
                from,
                cur,
                dir,
            ));
            assert(entry_inv(from, w as int, h as int, (n, c2)));
            // old entries keep their cells; the new cell was unvisited, so it
            // is distinct from all of them and from `cur`
            assert forall|i: int| 0 <= i < q2.len() implies entry_inv(
                from,
                w as int,
                h as int,
                #[trigger] q2[i],
            ) && vis(v2, q2[i].0) && d <= spec_dist(from, q2[i].0) <= d + 1 by {
                if i < old_q.len() {
                    assert(q2[i] == old_q[i]);
                } else {
                    assert(q2[i] == (n, c2));
                }
            }
            assert forall|i: int, j: int| 0 <= i <= j < q2.len() implies spec_dist(
                from,
                (#[trigger] q2[i]).0,
            ) <= spec_dist(from, (#[trigger] q2[j]).0) by {
                if j < old_q.len() {
                    assert(q2[i] == old_q[i]);
                    assert(q2[j] == old_q[j]);
                } else if i < old_q.len() {
                    assert(q2[i] == old_q[i]);
                    assert(q2[j] == (n, c2));
                }
            }
            assert forall|i: int, j: int| 0 <= i < j < q2.len() implies (#[trigger] q2[i]).0 != (
            #[trigger] q2[j]).0 by {
                if j < old_q.len() {
                    assert(q2[i] == old_q[i]);
                    assert(q2[j] == old_q[j]);
                } else {
                    assert(q2[i] == old_q[i]);
                    assert(q2[j] == (n, c2));
                    assert(vis(old_vis, old_q[i].0));
                }
            }
            assert forall|i: int| 0 <= i < q2.len() implies (#[trigger] q2[i]).0 != cur by {
                if i < old_q.len() {
                    assert(q2[i] == old_q[i]);
                } else {
                    assert(q2[i] == (n, c2));
                    assert(vis(old_vis, cur));
                }
            }
            assert forall|i: int| 0 <= i < q2.len() implies (#[trigger] q2[i]).0 != from by {
                if i < old_q.len() {
                    assert(q2[i] == old_q[i]);
                } else {
                    assert(q2[i] == (n, c2));
                    assert(vis(old_vis, from));
                }
            }
            // same-wave entries keep nondecreasing rank
            assert forall|i: int, j: int|
                0 <= i <= j < q2.len() && spec_dist(from, (#[trigger] q2[i]).0) == spec_dist(
                    from,
                    (#[trigger] q2[j]).0,
                ) && q2[i].0 != from && q2[j].0 != from implies entry_prio(
                w as int,
                h as int,
                from,
                q2[i].0,
            ) <= entry_prio(w as int, h as int, from, q2[j].0) by {
                if j < old_q.len() {
                    assert(q2[i] == old_q[i]);
                    assert(q2[j] == old_q[j]);
                } else if i < old_q.len() {
                    assert(q2[i] == old_q[i]);
                    assert(q2[j] == (n, c2));
                }
            }
            // next-wave entries rank at most their parents' wave
            assert forall|i: int, j: int|
                0 <= i <= j < q2.len() && spec_dist(from, (#[trigger] q2[j]).0) == spec_dist(
                    from,
                    (#[trigger] q2[i]).0,
                ) + 1 && q2[i].0 != from implies entry_prio(w as int, h as int, from, q2[j].0)
                <= entry_prio(w as int, h as int, from, q2[i].0) by {
                if j < old_q.len() {
                    assert(q2[i] == old_q[i]);
                    assert(q2[j] == old_q[j]);
                } else if i < old_q.len() {
                    assert(q2[i] == old_q[i]);
                    assert(q2[j] == (n, c2));
                }
            }
            // the expansion rank bounds carry to the new queue
            assert forall|i: int|
                0 <= i < q2.len() && spec_dist(from, (#[trigger] q2[i]).0) == d + 1 implies
                entry_prio(w as int, h as int, from, q2[i].0) <= expansion_prio(
                w as int,
                h as int,
                from,
                cur,
                dir,
            ) by {
                if i < old_q.len() {
                    assert(q2[i] == old_q[i]);
                } else {
                    assert(q2[i] == (n, c2));
                }
            }
            assert forall|i: int|
                0 <= i < q2.len() && spec_dist(from, (#[trigger] q2[i]).0) == d implies
                expansion_prio(w as int, h as int, from, cur, dir) <= entry_prio(
                w as int,
                h as int,
                from,
                q2[i].0,
            ) by {
                if i < old_q.len() {
                    assert(q2[i] == old_q[i]);
                } else {
                    assert(q2[i] == (n, c2));
                }
            }
            // closure: the one newly visited cell is pending in the queue
            assert forall|a: Position, b: Position|
                #![trigger vis(v2, a), spec_dist(a, b)]
                spec_in_bounds(a.x as int, a.y as int, w as int, h as int) && vis(v2, a)
                    && !in_queue(q2, a) && Some(a) != Some(cur) && spec_in_bounds(
                    b.x as int,
                    b.y as int,
                    w as int,
                    h as int,
                ) && spec_dist(a, b) == 1 implies vis(v2, b) by {
                if a == n {
                    assert(q2[q2.len() - 1].0 == n);
                    assert(in_queue(q2, a));
                } else {
                    assert(vis(old_vis, a));
                    assert forall|i: int| 0 <= i < old_q.len() && (#[trigger] old_q[i]).0 == a
                        implies false by {
                        assert(q2[i] == old_q[i]);
                        assert(in_queue(q2, a));
                    }
                    assert(!in_queue(old_q, a));
                    assert(vis(old_vis, b));
                }
            }
            // the frontier below `d` only grew
            assert forall|p: Position|
                spec_in_bounds(p.x as int, p.y as int, w as int, h as int) && spec_dist(from, p)
                    < d implies vis(v2, p) by {
                assert(vis(old_vis, p));
            }
            // only `n` became visited
            assert forall|p: Position|
                spec_in_bounds(p.x as int, p.y as int, w as int, h as int) && vis(v2, p) && p
                    != n implies vis(old_vis, p) by {
                if p.x == n.x {
                    assert(p.y != n.y);
                }
            }
            // a pending goal stays pending
            if vis(v2, to) {
                if to == n {
                    assert(q2[q2.len() - 1].0 == to);
                    assert(in_queue(q2, to));
                } else {
                    assert(vis(old_vis, to));
                    let i = choose|i: int| 0 <= i < old_q.len() && (#[trigger] old_q[i]).0 == to;
                    assert(q2[i] == old_q[i]);
                    assert(in_queue(q2, to));
                }
            }
        }
    } else {
        proof {
            assert(vis(visited@, n));
        }
    }
}

/// If every visited cell's neighbors are visited and `from` is visited,
/// every in-bounds cell is visited.
proof fn lemma_all_visited(v: Seq<Vec<bool>>, from: Position, p: Position, w: int, h: int)
    requires
        spec_in_bounds(from.x as int, from.y as int, w, h),
        spec_in_bounds(p.x as int, p.y as int, w, h),
        vis(v, from),
        forall|a: Position, b: Position|
            #![trigger vis(v, a), spec_dist(a, b)]
            spec_in_bounds(a.x as int, a.y as int, w, h) && vis(v, a) && spec_in_bounds(
                b.x as int,
                b.y as int,
                w,
                h,
            ) && spec_dist(a, b) == 1 ==> vis(v, b),
    ensures
        vis(v, p),
    decreases spec_dist(from, p),
{
    if spec_dist(from, p) == 0 {
        lemma_dist_zero(from, p);
    } else {
        let m = lemma_step_toward(from, p, w, h);
        lemma_all_visited(v, from, m, w, h);
        assert(spec_dist(m, p) == 1);
    }
}

/// After all four neighbors of the expanded cell have been handled, the
/// search invariants hold again: full closure, and a queue valid for its
/// new head's wave.
proof fn lemma_expansion_done(
    v: Seq<Vec<bool>>,
    q: Seq<(Position, Vec<Position>)>,
    from: Position,
    w: int,
    h: int,
    cur: Position,
    d: int,
    nl: Option<Position>,
    nr: Option<Position>,
    nu: Option<Position>,
    nd: Option<Position>,
)
    requires
        d == spec_dist(from, cur),
        spec_in_bounds(cur.x as int, cur.y as int, w, h),
        vis(v, from),
        queue_mid(q, from, w, h, v, d),
        frontier_lt(v, from, d, w, h),
        closure_except(v, q, w, h, Some(cur)),
        (match nl {
            Some(b) => steps_to(cur, Direction::Left, b) && vis(v, b),
            None => !spec_in_bounds(
                spec_step(cur, Direction::Left).0,
                spec_step(cur, Direction::Left).1,
                w,
                h,
            ),
        }),
        (match nr {
            Some(b) => steps_to(cur, Direction::Right, b) && vis(v, b),
            None => !spec_in_bounds(
                spec_step(cur, Direction::Right).0,
                spec_step(cur, Direction::Right).1,
                w,
                h,
            ),
        }),
        (match nu {
            Some(b) => steps_to(cur, Direction::Up, b) && vis(v, b),
            None => !spec_in_bounds(
                spec_step(cur, Direction::Up).0,
                spec_step(cur, Direction::Up).1,
                w,
                h,
            ),
        }),
        (match nd {
            Some(b) => steps_to(cur, Direction::Down, b) && vis(v, b),
            None => !spec_in_bounds(
                spec_step(cur, Direction::Down).0,
                spec_step(cur, Direction::Down).1,
                w,
                h,
            ),
        }),
    ensures
        closure_except(v, q, w, h, None),
        q.len() > 0 ==> frontier_lt(v, from, spec_dist(from, q[0].0), w, h),
        q.len() > 0 ==> queue_mid(q, from, w, h, v, spec_dist(from, q[0].0)),
{
    assert forall|b: Position|
        spec_in_bounds(b.x as int, b.y as int, w, h) && spec_dist(cur, b) == 1 implies vis(
        v,
        b,
    ) by {
        if b.x as int == cur.x - 1 {
            assert(steps_to(cur, Direction::Left, b));
            assert(nl == Some(b));
        } else if b.x as int == cur.x + 1 {
            assert(steps_to(cur, Direction::Right, b));
            assert(nr == Some(b));
        } else if b.y as int == cur.y - 1 {
            assert(steps_to(cur, Direction::Up, b));
            assert(nu == Some(b));
        } else {
            assert(b.y as int == cur.y + 1);
            assert(steps_to(cur, Direction::Down, b));
            assert(nd == Some(b));
        }
    }
    lemma_full_closure(v, q, w, h, cur);
    if q.len() > 0 {
        let d2 = spec_dist(from, q[0].0);
        lemma_wave_advance(q, from, w, h, v, d);
        assert forall|i: int| 0 <= i < q.len() implies entry_inv(from, w, h, #[trigger] q[i])
            && vis(v, q[i].0) && d2 <= spec_dist(from, q[i].0) <= d2 + 1 by {}
    }
}

/// Expand the dequeued cell `cur`: mark and append each of its unvisited
/// in-bounds neighbors in the canonical order Left, Right, Up, Down, and
/// restore every loop invariant of the search.
#[verifier::rlimit(100)]
fn expand_cell(
    w: usize,
    h: usize,
    Ghost(from): Ghost<Position>,
    Ghost(to): Ghost<Position>,
    visited: &mut Vec<Vec<bool>>,
    queue: &mut Vec<(Position, Vec<Position>)>,
    cur: Position,
    chain: &Vec<Position>,
)
    requires
        spec_in_bounds(from.x as int, from.y as int, w as int, h as int),
        spec_in_bounds(to.x as int, to.y as int, w as int, h as int),
        grid_wf(old(visited)@, w as int, h as int),
        entry_inv(from, w as int, h as int, (cur, *chain)),
        vis(old(visited)@, cur),
        vis(old(visited)@, from),
        queue_mid(old(queue)@, from, w as int, h as int, old(visited)@, spec_dist(from, cur)),
        forall|i: int| 0 <= i < old(queue)@.len() ==> (#[trigger] old(queue)@[i]).0 != cur,
        forall|i: int| 0 <= i < old(queue)@.len() ==> (#[trigger] old(queue)@[i]).0 != from,
        forall|i: int|
            0 <= i < old(queue)@.len() && spec_dist(from, (#[trigger] old(queue)@[i]).0)
                == spec_dist(from, cur) + 1 ==> entry_prio(
                w as int,
                h as int,
                from,
                old(queue)@[i].0,
            ) <= expansion_prio(w as int, h as int, from, cur, Direction::Left),
        forall|i: int|
            0 <= i < old(queue)@.len() && spec_dist(from, (#[trigger] old(queue)@[i]).0)
                == spec_dist(from, cur) ==> expansion_prio(
                w as int,
                h as int,
                from,
                cur,
                Direction::Left,
            ) <= entry_prio(w as int, h as int, from, old(queue)@[i].0),
        frontier_lt(old(visited)@, from, spec_dist(from, cur), w as int, h as int),
        closure_except(old(visited)@, old(queue)@, w as int, h as int, Some(cur)),
        cur != to,
        vis(old(visited)@, to) ==> in_queue(old(queue)@, to),
    ensures
        grid_wf(final(visited)@, w as int, h as int),
        vis(final(visited)@, from),
        final(queue)@.len() > 0 ==> queue_mid(
            final(queue)@,
            from,
            w as int,
            h as int,
            final(visited)@,
            spec_dist(from, final(queue)@[0].0),
        ),
        final(queue)@.len() > 0 ==> frontier_lt(
            final(visited)@,
            from,
            spec_dist(from, final(queue)@[0].0),
            w as int,
            h as int,
        ),
        closure_except(final(visited)@, final(queue)@, w as int, h as int, None),
        vis(final(visited)@, to) ==> in_queue(final(queue)@, to),
        forall|i: int| 0 <= i < final(queue)@.len() ==> (#[trigger] final(queue)@[i]).0 != from,
        2 * count_false(final(visited)@) + final(queue)@.len() <= 2 * count_false(old(visited)@)
            + old(queue)@.len(),
{
    let ghost d = spec_dist(from, cur);
        let n_left = bounded_adjacent_position(w, h, cur, Direction::Left);
        if let Some(n) = n_left {
            try_enqueue(
                w,
                h,
                Ghost(from),
                Ghost(to),
                visited,
                queue,
                cur,
                &chain,
                n,
                Ghost(Direction::Left),
            );
        }
        proof {
            shift_expansion_rank(w as int, h as int, from, cur, queue@, d, Direction::Left, Direction::Right);
        }
        let n_right = bounded_adjacent_position(w, h, cur, Direction::Right);
        if let Some(n) = n_right {
            try_enqueue(
                w,
                h,
                Ghost(from),
                Ghost(to),
                visited,
                queue,
                cur,
                &chain,
                n,
                Ghost(Direction::Right),
            );
        }
        proof {
            shift_expansion_rank(w as int, h as int, from, cur, queue@, d, Direction::Right, Direction::Up);
        }
        let n_up = bounded_adjacent_position(w, h, cur, Direction::Up);
        if let Some(n) = n_up {
            try_enqueue(
                w,
                h,
                Ghost(from),
                Ghost(to),
                visited,
                queue,
                cur,
                &chain,
                n,
                Ghost(Direction::Up),
            );
        }
        proof {
            shift_expansion_rank(w as int, h as int, from, cur, queue@, d, Direction::Up, Direction::Down);
        }
        let n_down = bounded_adjacent_position(w, h, cur, Direction::Down);
        if let Some(n) = n_down {
            try_enqueue(
                w,
                h,
                Ghost(from),
                Ghost(to),
                visited,
                queue,
                cur,
                &chain,
                n,
                Ghost(Direction::Down),
            );
        }
        proof {
            lemma_expansion_done(
                visited@,
                queue@,
                from,
                w as int,
                h as int,
                cur,
                d,
                n_left,
                n_right,
                n_up,
                n_down,
            );
        }
}

/// Breadth-first search from `from` to `to`, expanding the neighbors of
/// each cell in the canonical order Left, Right, Up, Down; the first
/// discovered route wins.  Returns the cells of a shortest path from the
/// first step after `from` up to and including `to` — of length exactly the
/// Manhattan distance, every in-bounds cell being traversable.  On an open
/// grid the goal is always reached; the error arm is kept for the contract
/// of the type.
#[verifier::rlimit(100)]
pub fn shortest_path(state: &GameState, from: Position, to: Position) -> (r: Result<
    Vec<Position>,
    SpatialError,
>)
    requires
        state.spec_in_bounds(from),
        state.spec_in_bounds(to),
    ensures
        r matches Ok(p) ==> is_path(from, p@, to, state.map_width as int, state.map_height as int)
            && p@.len() == spec_dist(from, to),
        r matches Ok(p) ==> (from != to ==> p@[0] == spec_step_pos(
            from,
            spec_next_step_dir(state.map_width as int, state.map_height as int, from, to),
        )),
        r is Ok,
{
    let w = state.map_width;
    let h = state.map_height;
    let mut visited: Vec<Vec<bool>> = Vec::new();
    let mut x: usize = 0;
    while x < w
        invariant
            x <= w,
            visited@.len() == x,
            forall|i: int|
                0 <= i < x ==> (#[trigger] visited@[i])@.len() == h && forall|j: int|
                    0 <= j < h ==> !visited@[i]@[j],
        decreases w - x,
    {
        let col = vec![false; h];
        visited.push(col);
        x += 1;
    }
    // mark the start cell
    let row = &mut visited[from.x];
    row[from.y] = true;
    let mut first_chain: Vec<Position> = Vec::new();
    first_chain.push(from);
    let mut queue: Vec<(Position, Vec<Position>)> = Vec::new();
    queue.push((from, first_chain));
    proof {
        assert(vis(visited@, from));
        assert(entry_inv(from, w as int, h as int, queue@[0]));
        assert forall|a: Position, b: Position|
            #![trigger vis(visited@, a), spec_dist(a, b)]
            spec_in_bounds(a.x as int, a.y as int, w as int, h as int) && vis(visited@, a)
                && !in_queue(queue@, a) && Some(a) != Option::<Position>::None && spec_in_bounds(
                b.x as int,
                b.y as int,
                w as int,
                h as int,
            ) && spec_dist(a, b) == 1 implies vis(visited@, b) by {
            if a.x == from.x && a.y == from.y {
                assert(queue@[0].0 == a);
                assert(in_queue(queue@, a));
            } else {
                if a.x == from.x {
                    assert(!visited@[a.x as int]@[a.y as int]);
                } else {
                    assert(!visited@[a.x as int]@[a.y as int]);
                }
            }
        }
        if vis(visited@, to) {
            if to.x == from.x && to.y == from.y {
                assert(queue@[0].0 == to);
                assert(in_queue(queue@, to));
            } else {
                assert(!vis(visited@, to));
            }
        }
    }
    while queue.len() > 0
        invariant
            w == state.map_width,
            h == state.map_height,
            spec_in_bounds(from.x as int, from.y as int, w as int, h as int),
            spec_in_bounds(to.x as int, to.y as int, w as int, h as int),
            grid_wf(visited@, w as int, h as int),
            vis(visited@, from),
            queue@.len() > 0 ==> queue_mid(
                queue@,
                from,
                w as int,
                h as int,
                visited@,
                spec_dist(from, queue@[0].0),
            ),
            queue@.len() > 0 ==> frontier_lt(
                visited@,
                from,
                spec_dist(from, queue@[0].0),
                w as int,
                h as int,
            ),
            closure_except(visited@, queue@, w as int, h as int, None),
            vis(visited@, to) ==> in_queue(queue@, to),
            forall|i: int|
                0 <= i < queue@.len() && (#[trigger] queue@[i]).0 == from ==> queue@.len() == 1,
        decreases 2 * count_false(visited@) + queue@.len(),
    {
        let ghost q_start = queue@;
        let ghost v_start = visited@;
        let (cur, chain) = queue.remove(0);
        let ghost d = spec_dist(from, cur);
        proof {
            assert(q_start[0] == (cur, chain));
            assert(queue@ =~= q_start.drop_first());
            assert forall|i: int| 0 <= i < queue@.len() implies (#[trigger] queue@[i])
                == q_start[i + 1] by {}
        }
        if cur.x == to.x && cur.y == to.y {
            proof {
                assert(cur == to);
            }
            let mut path = chain;
            path.remove(0);
            proof {
                assert(chain@[0] == from);
                assert(path@ =~= chain@.drop_first());
                assert(seq![from] + path@ =~= chain@);
                if cur != from {
                    assert(path@[0] == chain@[1]);
                }
            }
            return Ok(path);
        }
        proof {
            assert(cur != to);
            lemma_after_dequeue(q_start, queue@, from, to, w as int, h as int, visited@);
        }
        expand_cell(w, h, Ghost(from), Ghost(to), &mut visited, &mut queue, cur, &chain);
    }
    proof {
        assert(!vis(visited@, to));
        lemma_all_visited(visited@, from, to, w as int, h as int);
        assert(false);
    }
    Err(SpatialError::NoPath)
}

/// The cell reached from `p` by one step in direction `d`, assuming the
/// step stays on the coordinate grid.
pub open spec fn spec_step_pos(p: Position, d: Direction) -> Position {
    Position { x: spec_step(p, d).0 as usize, y: spec_step(p, d).1 as usize }
}

/// The direction of the first step of the shortest path from `from` to
/// `to`: a step that stays in bounds and brings the bot one cell closer to
/// `to`.  With the two cells equal there is no step to take.
pub fn next_step_toward(state: &GameState, from: Position, to: Position) -> (r: Result<
    Direction,
    SpatialError,
>)
    requires
        state.spec_in_bounds(from),
        state.spec_in_bounds(to),
    ensures
        from == to <==> r == Result::<Direction, SpatialError>::Err(SpatialError::EmptyPath),
        r is Err ==> r == Result::<Direction, SpatialError>::Err(SpatialError::EmptyPath),
        from != to ==> r == Result::<Direction, SpatialError>::Ok(
            spec_next_step_dir(state.map_width as int, state.map_height as int, from, to),
        ),
        r matches Ok(d) ==> state.spec_in_bounds(spec_step_pos(from, d)) && steps_to(
            from,
            d,
            spec_step_pos(from, d),
        ) && spec_dist(spec_step_pos(from, d), to) == spec_dist(from, to) - 1,
{
    let w = state.map_width;
    let h = state.map_height;
    match shortest_path(state, from, to) {
        Err(e) => {
            proof {
                assert(false);
            }
            Err(e)
        },
        Ok(path) => {
            if path.len() == 0 {
                proof {
                    assert((seq![from] + path@).last() == from);
                    assert(spec_dist(from, to) == 0);
                    lemma_dist_zero(from, to);
                }
                Err(SpatialError::EmptyPath)
            } else {
                let first = path[0];
                proof {
                    let full = seq![from] + path@;
                    assert(full[0] == from);
                    assert(full[1] == path@[0]);
                    assert(spec_dist(from, first) == 1);
                    assert(from != to) by {
                        if from == to {
                            assert(spec_dist(from, to) == 0);
                            assert(path@.len() == 0);
                        }
                    }
                    // the remaining cells form a walk from `first` to `to`
                    assert forall|i: int|
                        0 <= i < path@.len() implies spec_in_bounds(
                        (#[trigger] path@[i]).x as int,
                        path@[i].y as int,
                        w as int,
                        h as int,
                    ) by {
                        assert(full[i + 1] == path@[i]);
                    }
                    assert forall|i: int| 0 <= i < path@.len() - 1 implies spec_dist(
                        #[trigger] path@[i],
                        path@[i + 1],
                    ) == 1 by {
                        assert(full[i + 1] == path@[i]);
                        assert(full[i + 2] == path@[i + 1]);
                    }
                    lemma_chain_dist(path@, w as int, h as int);
                    assert(path@.last() == to);
                    assert(spec_dist(first, to) <= spec_dist(from, to) - 1);
                    lemma_dist_step(to, from, first);
                }
                match direction_between(from, first) {
                    Ok(d) => {
                        proof {
                            assert(steps_to(from, d, first));
                            assert(spec_step_pos(from, d) == first);
                            let fd = spec_next_step_dir(w as int, h as int, from, to);
                            assert(first == spec_step_pos(from, fd));
                            lemma_next_step_dir(w as int, h as int, from, to);
                            assert(steps_to(from, fd, first));
                            assert(d == fd);
                        }
                        Ok(d)
                    },
                    Err(_) => {
                        proof {
                            assert(false);
                        }
                        Err(SpatialError::EmptyPath)
                    },
                }
            }
        },
    }
}

} // verus!
