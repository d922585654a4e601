//! The world snapshot: positions, cells, and the sparse state model.
//!
//! The canonical model of the world is sparse: two association lists from
//! positions to bots and to resources.  A dense cell matrix is derived on
//! demand at the render boundary and at arena setup.

use vstd::prelude::*;
use crate::bot::Bot;
use crate::constants::{MAP_HEIGHT, MAP_WIDTH};
use crate::resource::Resource;

verus! {

/// A cell coordinate.  `x` grows to the right, `y` grows downward;
/// a position is in bounds when `x < map_width` and `y < map_height`.
#[derive(Clone, Copy, PartialEq, Eq, Structural, Debug, Hash)]
pub struct Position {
    pub x: usize,
    pub y: usize,
}

/// What one cell of the dense grid view holds.
#[derive(Clone, Copy, PartialEq, Eq, Structural, Debug)]
pub enum GameCell {
    Empty,
    Bot(Bot),
    Resource(Resource),
}

/// An immutable world snapshot: the grid size and the sparse maps from
/// position to bot and from position to resource.  The resolution engine
/// consumes one snapshot and produces the next; strategies only read it.
#[derive(Clone, Debug)]
pub struct GameState {
    pub map_width: usize,
    pub map_height: usize,
    pub bots: Vec<(Position, Bot)>,
    pub resources: Vec<(Position, Resource)>,
}

/// The first entry of `s` keyed by `p`, if any.
pub open spec fn find_at<T>(s: Seq<(Position, T)>, p: Position) -> Option<T>
    decreases s.len(),
{
    if s.len() == 0 {
        None
    } else if s[0].0 == p {
        Some(s[0].1)
    } else {
        find_at(s.drop_first(), p)
    }
}

/// `find_at` returns `Some` exactly when some entry carries the key.
pub proof fn lemma_find_at_some<T>(s: Seq<(Position, T)>, p: Position)
    ensures
        find_at(s, p) is Some <==> exists|i: int| 0 <= i < s.len() && s[i].0 == p,
        find_at(s, p) matches Some(v) ==> exists|i: int|
            0 <= i < s.len() && s[i].0 == p && s[i].1 == v,
    decreases s.len(),
{
    if s.len() > 0 {
        lemma_find_at_some(s.drop_first(), p);
        if s[0].0 == p {
        } else {
            assert forall|i: int| 0 <= i < s.len() && s[i].0 == p implies exists|j: int|
                0 <= j < s.drop_first().len() && s.drop_first()[j].0 == p by {
                assert(s.drop_first()[i - 1] == s[i]);
            }
            if find_at(s.drop_first(), p) is Some {
                let j = choose|j: int|
                    0 <= j < s.drop_first().len() && s.drop_first()[j].0 == p
                        && s.drop_first()[j].1 == find_at(s.drop_first(), p)->Some_0;
                assert(s[j + 1] == s.drop_first()[j]);
            }
        }
    }
}

/// When the keys of `s` are distinct, any entry's value is what `find_at`
/// returns for its key.
pub proof fn lemma_find_at_unique<T>(s: Seq<(Position, T)>, i: int)
    requires
        forall|a: int, b: int| 0 <= a < b < s.len() ==> s[a].0 != s[b].0,
        0 <= i < s.len(),
    ensures
        find_at(s, s[i].0) == Some(s[i].1),
    decreases s.len(),
{
    if i == 0 {
    } else {
        assert(s[0].0 != s[i].0);
        assert(s.drop_first()[i - 1] == s[i]);
        assert forall|a: int, b: int|
            0 <= a < b < s.drop_first().len() implies s.drop_first()[a].0
            != s.drop_first()[b].0 by {
            assert(s.drop_first()[a] == s[a + 1]);
            assert(s.drop_first()[b] == s[b + 1]);
        }
        lemma_find_at_unique(s.drop_first(), i - 1);
    }
}

impl GameState {
    /// Whether `p` lies on the grid.
    pub open spec fn spec_in_bounds(self, p: Position) -> bool {
        p.x < self.map_width && p.y < self.map_height
    }

    /// Whether some bot stands at `p`.
    pub open spec fn spec_has_bot(self, p: Position) -> bool {
        exists|i: int| 0 <= i < self.bots.len() && self.bots[i as int].0 == p
    }

    /// The bot standing at `p`, if any (first entry wins; under `wf` the
    /// entry is unique).
    pub open spec fn spec_bot_at(self, p: Position) -> Option<Bot> {
        find_at(self.bots@, p)
    }

    /// Whether some resource lies at `p`.
    pub open spec fn spec_has_resource(self, p: Position) -> bool {
        exists|i: int| 0 <= i < self.resources.len() && self.resources[i as int].0 == p
    }

    /// The resource lying at `p`, if any.
    pub open spec fn spec_resource_at(self, p: Position) -> Option<Resource> {
        find_at(self.resources@, p)
    }

    /// Every bot entry is in bounds, well formed, and on its own cell.
    pub open spec fn bots_wf(self) -> bool {
        &&& forall|i: int|
            0 <= i < self.bots.len() ==> self.spec_in_bounds(#[trigger] self.bots[i].0)
                && self.bots[i].1.wf()
        &&& forall|i: int, j: int| 0 <= i < j < self.bots.len() ==> self.bots[i].0 != self.bots[j].0
    }

    /// Every resource entry is in bounds, well formed, and on its own cell.
    pub open spec fn resources_wf(self) -> bool {
        &&& forall|i: int|
            0 <= i < self.resources.len() ==> self.spec_in_bounds(#[trigger] self.resources[i].0)
                && self.resources[i].1.wf()
        &&& forall|i: int, j: int|
            0 <= i < j < self.resources.len() ==> self.resources[i].0 != self.resources[j].0
    }

    /// No cell holds both a bot and a resource.
    pub open spec fn disjoint_wf(self) -> bool {
        forall|i: int, j: int|
            0 <= i < self.bots.len() && 0 <= j < self.resources.len()
                ==> #[trigger] self.bots[i].0 != #[trigger] self.resources[j].0
    }

    /// The snapshot invariant: a usable grid size, unique in-bounds keys on
    /// both maps, and bot cells disjoint from resource cells.
    pub open spec fn wf(self) -> bool {
        &&& self.map_width + self.map_height <= usize::MAX
        &&& self.bots_wf()
        &&& self.resources_wf()
        &&& self.disjoint_wf()
    }
}

/// What the dense view shows at `p`: the bot there, else the resource
/// there, else an empty cell.
pub open spec fn spec_cell(s: GameState, p: Position) -> GameCell {
    match find_at(s.bots@, p) {
        Some(b) => GameCell::Bot(b),
        None => match find_at(s.resources@, p) {
            Some(res) => GameCell::Resource(res),
            None => GameCell::Empty,
        },
    }
}

/// Two entry lists in strictly increasing (x, then y) position order with
/// the same entries are equal.  In particular, rebuilding a lex-ordered
/// snapshot from its dense view returns it verbatim, so the round trip is
/// idempotent.
pub proof fn lemma_lex_sorted_unique<T>(a: Seq<(Position, T)>, b: Seq<(Position, T)>)
    requires
        forall|i: int, j: int|
            0 <= i < j < a.len() ==> pos_lex_lt((#[trigger] a[i]).0, (#[trigger] a[j]).0),
        forall|i: int, j: int|
            0 <= i < j < b.len() ==> pos_lex_lt((#[trigger] b[i]).0, (#[trigger] b[j]).0),
        forall|e: (Position, T)| a.contains(e) <==> b.contains(e),
    ensures
        a == b,
    decreases a.len(),
{
    if a.len() == 0 {
        if b.len() > 0 {
            assert(b.contains(b[0]));
            assert(a.contains(b[0]));
        }
        assert(a =~= b);
    } else {
        assert(a.contains(a[0]));
        assert(b.contains(a[0]));
        let j = choose|j: int| 0 <= j < b.len() && b[j] == a[0];
        assert(b.contains(b[0]));
        assert(a.contains(b[0]));
        let i = choose|i: int| 0 <= i < a.len() && a[i] == b[0];
        if j > 0 {
            assert(pos_lex_lt(b[0].0, b[j].0));
            if i > 0 {
                assert(pos_lex_lt(a[0].0, a[i].0));
            }
            assert(false);
        }
        assert(a[0] == b[0]);
        let ta = a.drop_first();
        let tb = b.drop_first();
        assert forall|i2: int, j2: int|
            0 <= i2 < j2 < ta.len() implies pos_lex_lt((#[trigger] ta[i2]).0, (
        #[trigger] ta[j2]).0) by {
            assert(ta[i2] == a[i2 + 1]);
            assert(ta[j2] == a[j2 + 1]);
        }
        assert forall|i2: int, j2: int|
            0 <= i2 < j2 < tb.len() implies pos_lex_lt((#[trigger] tb[i2]).0, (
        #[trigger] tb[j2]).0) by {
            assert(tb[i2] == b[i2 + 1]);
            assert(tb[j2] == b[j2 + 1]);
        }
        assert forall|e: (Position, T)| ta.contains(e) implies tb.contains(e) by {
            let k = choose|k: int| 0 <= k < ta.len() && ta[k] == e;
            assert(a[k + 1] == e);
            assert(a.contains(e));
            assert(b.contains(e));
            let k2 = choose|k2: int| 0 <= k2 < b.len() && b[k2] == e;
            if k2 == 0 {
                assert(e == a[0]);
                assert(pos_lex_lt(a[0].0, a[k + 1].0));
            } else {
                assert(tb[k2 - 1] == e);
            }
        }
        assert forall|e: (Position, T)| tb.contains(e) implies ta.contains(e) by {
            let k = choose|k: int| 0 <= k < tb.len() && tb[k] == e;
            assert(b[k + 1] == e);
            assert(b.contains(e));
            assert(a.contains(e));
            let k2 = choose|k2: int| 0 <= k2 < a.len() && a[k2] == e;
            if k2 == 0 {
                assert(e == b[0]);
                assert(pos_lex_lt(b[0].0, b[k + 1].0));
            } else {
                assert(ta[k2 - 1] == e);
            }
        }
        lemma_lex_sorted_unique(ta, tb);
        assert(a.len() == b.len());
        assert forall|k: int| 0 <= k < a.len() implies a[k] == b[k] by {
            if k > 0 {
                assert(ta[k - 1] == a[k]);
                assert(tb[k - 1] == b[k]);
            }
        }
        assert(a =~= b);
    }
}

/// Derive the dense cell matrix of a snapshot, indexed `[x][y]`; the
/// render boundary and arena setup consume this view.
pub fn state_to_matrix(state: &GameState) -> (r: Vec<Vec<GameCell>>)
    requires
        state.wf(),
    ensures
        r@.len() == state.map_width,
        forall|x: int| 0 <= x < state.map_width ==> (#[trigger] r@[x])@.len() == state.map_height,
        forall|x: int, y: int|
            0 <= x < state.map_width && 0 <= y < state.map_height ==> #[trigger] r@[x]@[y]
                == spec_cell(*state, Position { x: x as usize, y: y as usize }),
{
    let w = state.map_width;
    let h = state.map_height;
    let mut m: Vec<Vec<GameCell>> = Vec::new();
    let mut x: usize = 0;
    while x < w
        invariant
            x <= w,
            m@.len() == x,
            forall|i: int|
                0 <= i < x ==> (#[trigger] m@[i])@.len() == h && forall|j: int|
                    0 <= j < h ==> m@[i]@[j] == GameCell::Empty,
        decreases w - x,
    {
        let col = vec![GameCell::Empty; h];
        m.push(col);
        x += 1;
    }
    let nb = state.bots.len();
    let mut i: usize = 0;
    proof {
        assert(state.bots@.take(0) =~= Seq::<(Position, Bot)>::empty());
    }
    while i < nb
        invariant
            state.wf(),
            w == state.map_width,
            h == state.map_height,
            nb == state.bots@.len(),
            i <= nb,
            m@.len() == w,
            forall|a: int| 0 <= a < w ==> (#[trigger] m@[a])@.len() == h,
            forall|a: int, b: int|
                0 <= a < w && 0 <= b < h ==> #[trigger] m@[a]@[b] == (match find_at(
                    state.bots@.take(i as int),
                    Position { x: a as usize, y: b as usize },
                ) {
                    Some(bt) => GameCell::Bot(bt),
                    None => GameCell::Empty,
                }),
        decreases nb - i,
    {
        let (p, b) = state.bots[i];
        proof {
            assert(state.spec_in_bounds(state.bots@[i as int].0));
        }
        let ghost pre = m@;
        let row = &mut m[p.x];
        row[p.y] = GameCell::Bot(b);
        i += 1;
        proof {
            assert(state.bots@.take(i as int) =~= state.bots@.take(i - 1).push(
                state.bots@[i - 1],
            ));
            assert forall|a: int, b2: int|
                0 <= a < w && 0 <= b2 < h implies #[trigger] m@[a]@[b2] == (match find_at(
                state.bots@.take(i as int),
                Position { x: a as usize, y: b2 as usize },
            ) {
                Some(bt) => GameCell::Bot(bt),
                None => GameCell::Empty,
            }) by {
                let q = Position { x: a as usize, y: b2 as usize };
                lemma_find_at_push(state.bots@.take(i - 1), state.bots@[i - 1], q);
                if q == p {
                    assert forall|j: int|
                        0 <= j < state.bots@.take(i - 1).len() implies (
                    #[trigger] state.bots@.take(i - 1)[j]).0 != q by {
                        assert(state.bots@.take(i - 1)[j] == state.bots@[j]);
                    }
                    lemma_find_at_miss(state.bots@.take(i - 1), q);
                    assert(m@[a]@[b2] == GameCell::Bot(b));
                } else {
                    if a == p.x as int {
                        assert(m@[a]@[b2] == pre[a]@[b2]);
                    } else {
                        assert(m@[a] == pre[a]);
                    }
                }
            }
        }
    }
    proof {
        assert(state.bots@.take(nb as int) =~= state.bots@);
    }
    let nr = state.resources.len();
    let mut k: usize = 0;
    proof {
        assert(state.resources@.take(0) =~= Seq::<(Position, Resource)>::empty());
    }
    while k < nr
        invariant
            state.wf(),
            w == state.map_width,
            h == state.map_height,
            nr == state.resources@.len(),
            k <= nr,
            m@.len() == w,
            forall|a: int| 0 <= a < w ==> (#[trigger] m@[a])@.len() == h,
            forall|a: int, b: int|
                0 <= a < w && 0 <= b < h ==> #[trigger] m@[a]@[b] == (match find_at(
                    state.bots@,
                    Position { x: a as usize, y: b as usize },
                ) {
                    Some(bt) => GameCell::Bot(bt),
                    None => match find_at(
                        state.resources@.take(k as int),
                        Position { x: a as usize, y: b as usize },
                    ) {
                        Some(res) => GameCell::Resource(res),
                        None => GameCell::Empty,
                    },
                }),
        decreases nr - k,
    {
        let (p, res) = state.resources[k];
        proof {
            assert(state.spec_in_bounds(state.resources@[k as int].0));
        }
        let ghost pre = m@;
        let row = &mut m[p.x];
        row[p.y] = GameCell::Resource(res);
        k += 1;
        proof {
            assert(state.resources@.take(k as int) =~= state.resources@.take(k - 1).push(
                state.resources@[k - 1],
            ));
            assert forall|a: int, b2: int|
                0 <= a < w && 0 <= b2 < h implies #[trigger] m@[a]@[b2] == (match find_at(
                state.bots@,
                Position { x: a as usize, y: b2 as usize },
            ) {
                Some(bt) => GameCell::Bot(bt),
                None => match find_at(
                    state.resources@.take(k as int),
                    Position { x: a as usize, y: b2 as usize },
                ) {
                    Some(res2) => GameCell::Resource(res2),
                    None => GameCell::Empty,
                },
            }) by {
                let q = Position { x: a as usize, y: b2 as usize };
                lemma_find_at_push(state.resources@.take(k - 1), state.resources@[k - 1], q);
                if q == p {
                    assert forall|j: int|
                        0 <= j < state.bots@.len() implies (#[trigger] state.bots@[j]).0 != q by {
                        assert(state.bots@[j].0 != state.resources@[k - 1].0);
                    }
                    lemma_find_at_miss(state.bots@, q);
                    assert forall|j: int|
                        0 <= j < state.resources@.take(k - 1).len() implies (
                    #[trigger] state.resources@.take(k - 1)[j]).0 != q by {
                        assert(state.resources@.take(k - 1)[j] == state.resources@[j]);
                    }
                    lemma_find_at_miss(state.resources@.take(k - 1), q);
                    assert(m@[a]@[b2] == GameCell::Resource(res));
                } else {
                    if a == p.x as int {
                        assert(m@[a]@[b2] == pre[a]@[b2]);
                    } else {
                        assert(m@[a] == pre[a]);
                    }
                }
            }
        }
    }
    proof {
        assert(state.resources@.take(nr as int) =~= state.resources@);
    }
    m
}

/// If the first `i` entries miss the key and entry `i` carries it, `find_at`
/// returns entry `i`'s value.
pub proof fn lemma_find_at_hit<T>(s: Seq<(Position, T)>, p: Position, i: int)
    requires
        0 <= i < s.len(),
        forall|j: int| 0 <= j < i ==> (#[trigger] s[j]).0 != p,
        s[i].0 == p,
    ensures
        find_at(s, p) == Some(s[i].1),
    decreases i,
{
    if i == 0 {
    } else {
        assert forall|j: int| 0 <= j < i - 1 implies (#[trigger] s.drop_first()[j]).0 != p by {
            assert(s.drop_first()[j] == s[j + 1]);
        }
        assert(s.drop_first()[i - 1] == s[i]);
        lemma_find_at_hit(s.drop_first(), p, i - 1);
    }
}

/// If no entry carries the key, `find_at` returns `None`.
pub proof fn lemma_find_at_miss<T>(s: Seq<(Position, T)>, p: Position)
    requires
        forall|j: int| 0 <= j < s.len() ==> (#[trigger] s[j]).0 != p,
    ensures
        find_at(s, p) is None,
    decreases s.len(),
{
    if s.len() > 0 {
        assert forall|j: int|
            0 <= j < s.drop_first().len() implies (#[trigger] s.drop_first()[j]).0 != p by {
            assert(s.drop_first()[j] == s[j + 1]);
        }
        lemma_find_at_miss(s.drop_first(), p);
    }
}

/// How many cells of one column hold a bot.
pub open spec fn count_bot_col(col: Seq<GameCell>) -> nat
    decreases col.len(),
{
    if col.len() == 0 {
        0
    } else {
        (if col[0] is Bot {
            1nat
        } else {
            0nat
        }) + count_bot_col(col.drop_first())
    }
}

/// How many cells of the matrix hold a bot.
pub open spec fn count_bot_cells(m: Seq<Vec<GameCell>>) -> nat
    decreases m.len(),
{
    if m.len() == 0 {
        0
    } else {
        count_bot_col(m[0]@) + count_bot_cells(m.drop_first())
    }
}

/// Appending a cell to a column adds one to its bot count exactly when the
/// cell holds a bot.
pub proof fn lemma_count_bot_col_push(col: Seq<GameCell>, c: GameCell)
    ensures
        count_bot_col(col.push(c)) == count_bot_col(col) + (if c is Bot {
            1nat
        } else {
            0nat
        }),
    decreases col.len(),
{
    let t = col.push(c);
    assert(count_bot_col(t) == (if t[0] is Bot {
        1nat
    } else {
        0nat
    }) + count_bot_col(t.drop_first()));
    if col.len() == 0 {
        assert(t[0] == c);
        assert(t.drop_first() =~= Seq::<GameCell>::empty());
        assert(count_bot_col(t.drop_first()) == 0);
    } else {
        assert(t[0] == col[0]);
        assert(t.drop_first() =~= col.drop_first().push(c));
        lemma_count_bot_col_push(col.drop_first(), c);
    }
}

/// Appending a column to the matrix adds that column's bot count.
pub proof fn lemma_count_bot_cells_push(m: Seq<Vec<GameCell>>, col: Vec<GameCell>)
    ensures
        count_bot_cells(m.push(col)) == count_bot_cells(m) + count_bot_col(col@),
    decreases m.len(),
{
    let t = m.push(col);
    assert(count_bot_cells(t) == count_bot_col(t[0]@) + count_bot_cells(t.drop_first()));
    if m.len() == 0 {
        assert(t[0] == col);
        assert(t.drop_first() =~= Seq::<Vec<GameCell>>::empty());
        assert(count_bot_cells(t.drop_first()) == 0);
    } else {
        assert(t[0] == m[0]);
        assert(t.drop_first() =~= m.drop_first().push(col));
        lemma_count_bot_cells_push(m.drop_first(), col);
    }
}

/// Turning one bot-free cell of a column into a bot cell raises its count
/// by one.
pub proof fn lemma_count_bot_col_update(col: Seq<GameCell>, y: int, c: GameCell)
    requires
        0 <= y < col.len(),
        !(col[y] is Bot),
        c is Bot,
    ensures
        count_bot_col(col.update(y, c)) == count_bot_col(col) + 1,
    decreases col.len(),
{
    if y == 0 {
        assert(col.update(0, c).drop_first() =~= col.drop_first());
    } else {
        assert(col.update(y, c).drop_first() =~= col.drop_first().update(y - 1, c));
        lemma_count_bot_col_update(col.drop_first(), y - 1, c);
    }
}

/// Turning one bot-free cell of the matrix into a bot cell raises its
/// count by one.
pub proof fn lemma_count_bot_cells_update(m: Seq<Vec<GameCell>>, x: int, row: Vec<GameCell>, y: int, c: GameCell)
    requires
        0 <= x < m.len(),
        0 <= y < m[x]@.len(),
        !(m[x]@[y] is Bot),
        c is Bot,
        row@ == m[x]@.update(y, c),
    ensures
        count_bot_cells(m.update(x, row)) == count_bot_cells(m) + 1,
    decreases m.len(),
{
    if x == 0 {
        assert(m.update(0, row).drop_first() =~= m.drop_first());
        assert(m.update(0, row)[0] == row);
        lemma_count_bot_col_update(m[0]@, y, c);
    } else {
        assert(m.update(x, row).drop_first() =~= m.drop_first().update(x - 1, row));
        assert(m.update(x, row)[0] == m[0]);
        assert(m.drop_first()[x - 1] == m[x]);
        lemma_count_bot_cells_update(m.drop_first(), x - 1, row, y, c);
    }
}

/// A column without bot cells counts zero.
pub proof fn lemma_count_bot_col_none(col: Seq<GameCell>)
    requires
        forall|y: int| 0 <= y < col.len() ==> !((#[trigger] col[y]) is Bot),
    ensures
        count_bot_col(col) == 0,
    decreases col.len(),
{
    if col.len() > 0 {
        assert forall|y: int|
            0 <= y < col.drop_first().len() implies !((#[trigger] col.drop_first()[y]) is Bot) by {
            assert(col.drop_first()[y] == col[y + 1]);
        }
        lemma_count_bot_col_none(col.drop_first());
    }
}

/// A matrix without bot cells counts zero.
pub proof fn lemma_count_bot_cells_none(m: Seq<Vec<GameCell>>)
    requires
        forall|x: int, y: int|
            0 <= x < m.len() && 0 <= y < m[x]@.len() ==> !((#[trigger] m[x]@[y]) is Bot),
    ensures
        count_bot_cells(m) == 0,
    decreases m.len(),
{
    if m.len() > 0 {
        assert forall|y: int| 0 <= y < m[0]@.len() implies !((#[trigger] m[0]@[y]) is Bot) by {}
        lemma_count_bot_col_none(m[0]@);
        assert forall|x: int, y: int|
            0 <= x < m.drop_first().len() && 0 <= y < m.drop_first()[x]@.len() implies !((
        #[trigger] m.drop_first()[x]@[y]) is Bot) by {
            assert(m.drop_first()[x] == m[x + 1]);
        }
        lemma_count_bot_cells_none(m.drop_first());
    }
}

/// What one cell contributes to the tally of bots of color `c`.
pub open spec fn cell_color_weight(cell: GameCell, c: crate::bot::Color) -> nat {
    match cell {
        GameCell::Bot(b) => if b.color == c {
            1nat
        } else {
            0nat
        },
        _ => 0nat,
    }
}

/// How many cells of one column hold a bot of color `c`.
pub open spec fn count_col_color(col: Seq<GameCell>, c: crate::bot::Color) -> nat
    decreases col.len(),
{
    if col.len() == 0 {
        0
    } else {
        cell_color_weight(col[0], c) + count_col_color(col.drop_first(), c)
    }
}

/// How many cells of the matrix hold a bot of color `c`.
pub open spec fn count_cells_color(m: Seq<Vec<GameCell>>, c: crate::bot::Color) -> nat
    decreases m.len(),
{
    if m.len() == 0 {
        0
    } else {
        count_col_color(m[0]@, c) + count_cells_color(m.drop_first(), c)
    }
}

/// How many bots of color `c` an entry list holds.
pub open spec fn count_bots_color(bots: Seq<(Position, Bot)>, c: crate::bot::Color) -> nat
    decreases bots.len(),
{
    if bots.len() == 0 {
        0
    } else {
        (if bots[0].1.color == c {
            1nat
        } else {
            0nat
        }) + count_bots_color(bots.drop_first(), c)
    }
}

/// Appending an entry raises the color tally of exactly its bot's color.
pub proof fn lemma_count_bots_color_push(
    bots: Seq<(Position, Bot)>,
    e: (Position, Bot),
    c: crate::bot::Color,
)
    ensures
        count_bots_color(bots.push(e), c) == count_bots_color(bots, c) + (if e.1.color == c {
            1nat
        } else {
            0nat
        }),
    decreases bots.len(),
{
    let t = bots.push(e);
    assert(count_bots_color(t, c) == (if t[0].1.color == c {
        1nat
    } else {
        0nat
    }) + count_bots_color(t.drop_first(), c));
    if bots.len() == 0 {
        assert(t[0] == e);
        assert(t.drop_first() =~= Seq::<(Position, Bot)>::empty());
        assert(count_bots_color(t.drop_first(), c) == 0);
    } else {
        assert(t[0] == bots[0]);
        assert(t.drop_first() =~= bots.drop_first().push(e));
        lemma_count_bots_color_push(bots.drop_first(), e, c);
    }
}

/// Appending a cell to a column adds that cell's color weight.
pub proof fn lemma_count_col_color_push(col: Seq<GameCell>, cell: GameCell, c: crate::bot::Color)
    ensures
        count_col_color(col.push(cell), c) == count_col_color(col, c) + cell_color_weight(cell, c),
    decreases col.len(),
{
    let t = col.push(cell);
    assert(count_col_color(t, c) == cell_color_weight(t[0], c) + count_col_color(
        t.drop_first(),
        c,
    ));
    if col.len() == 0 {
        assert(t[0] == cell);
        assert(t.drop_first() =~= Seq::<GameCell>::empty());
        assert(count_col_color(t.drop_first(), c) == 0);
    } else {
        assert(t[0] == col[0]);
        assert(t.drop_first() =~= col.drop_first().push(cell));
        lemma_count_col_color_push(col.drop_first(), cell, c);
    }
}

/// Appending a column to the matrix adds that column's color tally.
pub proof fn lemma_count_cells_color_push(
    m: Seq<Vec<GameCell>>,
    col: Vec<GameCell>,
    c: crate::bot::Color,
)
    ensures
        count_cells_color(m.push(col), c) == count_cells_color(m, c) + count_col_color(col@, c),
    decreases m.len(),
{
    let t = m.push(col);
    assert(count_cells_color(t, c) == count_col_color(t[0]@, c) + count_cells_color(
        t.drop_first(),
        c,
    ));
    if m.len() == 0 {
        assert(t[0] == col);
        assert(t.drop_first() =~= Seq::<Vec<GameCell>>::empty());
        assert(count_cells_color(t.drop_first(), c) == 0);
    } else {
        assert(t[0] == m[0]);
        assert(t.drop_first() =~= m.drop_first().push(col));
        lemma_count_cells_color_push(m.drop_first(), col, c);
    }
}

/// Turning one bot-free cell of a column into a cell raises the column's
/// color tally by the new cell's weight.
pub proof fn lemma_count_col_color_update(
    col: Seq<GameCell>,
    y: int,
    cell: GameCell,
    c: crate::bot::Color,
)
    requires
        0 <= y < col.len(),
        !(col[y] is Bot),
    ensures
        count_col_color(col.update(y, cell), c) == count_col_color(col, c) + cell_color_weight(
            cell,
            c,
        ),
    decreases col.len(),
{
    if y == 0 {
        assert(col.update(0, cell).drop_first() =~= col.drop_first());
    } else {
        assert(col.update(y, cell).drop_first() =~= col.drop_first().update(y - 1, cell));
        lemma_count_col_color_update(col.drop_first(), y - 1, cell, c);
    }
}

/// Turning one bot-free cell of the matrix into a cell raises the color
/// tally by the new cell's weight.
pub proof fn lemma_count_cells_color_update(
    m: Seq<Vec<GameCell>>,
    x: int,
    row: Vec<GameCell>,
    y: int,
    cell: GameCell,
    c: crate::bot::Color,
)
    requires
        0 <= x < m.len(),
        0 <= y < m[x]@.len(),
        !(m[x]@[y] is Bot),
        row@ == m[x]@.update(y, cell),
    ensures
        count_cells_color(m.update(x, row), c) == count_cells_color(m, c) + cell_color_weight(
            cell,
            c,
        ),
    decreases m.len(),
{
    if x == 0 {
        assert(m.update(0, row).drop_first() =~= m.drop_first());
        assert(m.update(0, row)[0] == row);
        lemma_count_col_color_update(m[0]@, y, cell, c);
    } else {
        assert(m.update(x, row).drop_first() =~= m.drop_first().update(x - 1, row));
        assert(m.update(x, row)[0] == m[0]);
        assert(m.drop_first()[x - 1] == m[x]);
        lemma_count_cells_color_update(m.drop_first(), x - 1, row, y, cell, c);
    }
}

/// A column without bot cells tallies zero for every color.
pub proof fn lemma_count_col_color_none(col: Seq<GameCell>, c: crate::bot::Color)
    requires
        forall|y: int| 0 <= y < col.len() ==> !((#[trigger] col[y]) is Bot),
    ensures
        count_col_color(col, c) == 0,
    decreases col.len(),
{
    if col.len() > 0 {
        assert forall|y: int|
            0 <= y < col.drop_first().len() implies !((#[trigger] col.drop_first()[y]) is Bot) by {
            assert(col.drop_first()[y] == col[y + 1]);
        }
        lemma_count_col_color_none(col.drop_first(), c);
    }
}

/// A matrix without bot cells tallies zero for every color.
pub proof fn lemma_count_cells_color_none(m: Seq<Vec<GameCell>>, c: crate::bot::Color)
    requires
        forall|x: int, y: int|
            0 <= x < m.len() && 0 <= y < m[x]@.len() ==> !((#[trigger] m[x]@[y]) is Bot),
    ensures
        count_cells_color(m, c) == 0,
    decreases m.len(),
{
    if m.len() > 0 {
        assert forall|y: int| 0 <= y < m[0]@.len() implies !((#[trigger] m[0]@[y]) is Bot) by {}
        lemma_count_col_color_none(m[0]@, c);
        assert forall|x: int, y: int|
            0 <= x < m.drop_first().len() && 0 <= y < m.drop_first()[x]@.len() implies !((
        #[trigger] m.drop_first()[x]@[y]) is Bot) by {
            assert(m.drop_first()[x] == m[x + 1]);
        }
        lemma_count_cells_color_none(m.drop_first(), c);
    }
}

/// A column all of whose cells hold bots counts its full length; one with
/// a bot-free cell counts strictly less.
pub proof fn lemma_count_bot_col_bounds(col: Seq<GameCell>)
    ensures
        count_bot_col(col) <= col.len(),
        (forall|y: int| 0 <= y < col.len() ==> (#[trigger] col[y]) is Bot) ==> count_bot_col(col)
            == col.len(),
    decreases col.len(),
{
    if col.len() > 0 {
        lemma_count_bot_col_bounds(col.drop_first());
        if forall|y: int| 0 <= y < col.len() ==> (#[trigger] col[y]) is Bot {
            assert forall|y: int|
                0 <= y < col.drop_first().len() implies (#[trigger] col.drop_first()[y]) is Bot by {
                assert(col.drop_first()[y] == col[y + 1]);
            }
        }
    }
}

/// A matrix of uniform `w` by `h` shape counts at most `w * h` bot cells,
/// and exactly that many when every cell holds a bot.
pub proof fn lemma_count_bot_cells_bounds(m: Seq<Vec<GameCell>>, h: int)
    requires
        forall|x: int| 0 <= x < m.len() ==> (#[trigger] m[x])@.len() == h,
        h >= 0,
    ensures
        count_bot_cells(m) <= m.len() * h,
        (forall|x: int, y: int|
            0 <= x < m.len() && 0 <= y < h ==> (#[trigger] m[x]@[y]) is Bot) ==> count_bot_cells(m)
            == m.len() * h,
    decreases m.len(),
{
    if m.len() > 0 {
        assert forall|x: int|
            0 <= x < m.drop_first().len() implies (#[trigger] m.drop_first()[x])@.len() == h by {
            assert(m.drop_first()[x] == m[x + 1]);
        }
        lemma_count_bot_cells_bounds(m.drop_first(), h);
        lemma_count_bot_col_bounds(m[0]@);
        assert(m.len() * h == (m.len() - 1) * h + h) by (nonlinear_arith);
        if forall|x: int, y: int|
            0 <= x < m.len() && 0 <= y < h ==> (#[trigger] m[x]@[y]) is Bot {
            assert forall|x: int, y: int|
                0 <= x < m.drop_first().len() && 0 <= y < h implies (
            #[trigger] m.drop_first()[x]@[y]) is Bot by {
                assert(m.drop_first()[x] == m[x + 1]);
            }
            assert forall|y: int| 0 <= y < m[0]@.len() implies (#[trigger] m[0]@[y]) is Bot by {}
        }
    }
}

/// Whether the cell `(a, b)` comes before the scan point `(x, y)` in the
/// column-major sweep of the grid.
pub open spec fn scanned_before(a: int, b: int, x: int, y: int) -> bool {
    a < x || (a == x && b < y)
}

/// Whether `a` comes strictly before `b` in (x, then y) lexicographic
/// position order — the order in which the grid sweep lists entries.
pub open spec fn pos_lex_lt(a: Position, b: Position) -> bool {
    a.x < b.x || (a.x == b.x && a.y < b.y)
}

/// Rebuild the sparse snapshot from a dense cell matrix of the configured
/// arena size, sweeping the grid column by column.
pub fn from_matrix(matrix: &Vec<Vec<GameCell>>) -> (r: GameState)
    requires
        matrix@.len() == MAP_WIDTH,
        forall|x: int| 0 <= x < MAP_WIDTH ==> (#[trigger] matrix@[x])@.len() == MAP_HEIGHT,
        forall|x: int, y: int|
            0 <= x < MAP_WIDTH && 0 <= y < MAP_HEIGHT ==> ((#[trigger] matrix@[x]@[y]) matches
                GameCell::Bot(b) ==> b.wf()),
        forall|x: int, y: int|
            0 <= x < MAP_WIDTH && 0 <= y < MAP_HEIGHT ==> ((#[trigger] matrix@[x]@[y]) matches
                GameCell::Resource(res) ==> res.wf()),
    ensures
        r.map_width == MAP_WIDTH,
        r.map_height == MAP_HEIGHT,
        r.wf(),
        forall|x: int, y: int|
            0 <= x < MAP_WIDTH && 0 <= y < MAP_HEIGHT ==> spec_cell(
                r,
                Position { x: x as usize, y: y as usize },
            ) == #[trigger] matrix@[x]@[y],
        r.bots@.len() == count_bot_cells(matrix@),
        forall|c: crate::bot::Color|
            #[trigger] count_bots_color(r.bots@, c) == count_cells_color(matrix@, c),
        forall|i: int, j: int|
            0 <= i < j < r.bots@.len() ==> pos_lex_lt(
                (#[trigger] r.bots@[i]).0,
                (#[trigger] r.bots@[j]).0,
            ),
        forall|i: int, j: int|
            0 <= i < j < r.resources@.len() ==> pos_lex_lt(
                (#[trigger] r.resources@[i]).0,
                (#[trigger] r.resources@[j]).0,
            ),
{
    let w = MAP_WIDTH;
    let h = MAP_HEIGHT;
    let mut bots: Vec<(Position, Bot)> = Vec::new();
    let mut resources: Vec<(Position, Resource)> = Vec::new();
    let mut x: usize = 0;
    proof {
        assert(matrix@.take(0) =~= Seq::<Vec<GameCell>>::empty());
    }
    while x < w
        invariant
            w == MAP_WIDTH,
            h == MAP_HEIGHT,
            x <= w,
            matrix@.len() == w,
            forall|a: int| 0 <= a < w ==> (#[trigger] matrix@[a])@.len() == h,
            forall|i: int|
                0 <= i < bots@.len() ==> {
                    let e = #[trigger] bots@[i];
                    e.0.x < w && e.0.y < h && scanned_before(e.0.x as int, e.0.y as int, x as int, 0)
                        && matrix@[e.0.x as int]@[e.0.y as int] == GameCell::Bot(e.1)
                },
            forall|i: int, j: int|
                0 <= i < j < bots@.len() ==> (#[trigger] bots@[i]).0 != (#[trigger] bots@[j]).0,
            forall|i: int, j: int|
                0 <= i < j < bots@.len() ==> pos_lex_lt(
                    (#[trigger] bots@[i]).0,
                    (#[trigger] bots@[j]).0,
                ),
            forall|i: int|
                0 <= i < resources@.len() ==> {
                    let e = #[trigger] resources@[i];
                    e.0.x < w && e.0.y < h && scanned_before(e.0.x as int, e.0.y as int, x as int, 0)
                        && matrix@[e.0.x as int]@[e.0.y as int] == GameCell::Resource(e.1)
                },
            forall|i: int, j: int|
                0 <= i < j < resources@.len() ==> (#[trigger] resources@[i]).0 != (
                #[trigger] resources@[j]).0,
            forall|i: int, j: int|
                0 <= i < j < resources@.len() ==> pos_lex_lt(
                    (#[trigger] resources@[i]).0,
                    (#[trigger] resources@[j]).0,
                ),
            forall|a: int, b: int|
                0 <= a < w && 0 <= b < h && scanned_before(a, b, x as int, 0) ==> ((
                #[trigger] matrix@[a]@[b]) matches GameCell::Bot(bt) ==> bots@.contains(
                    (Position { x: a as usize, y: b as usize }, bt),
                )),
            forall|a: int, b: int|
                0 <= a < w && 0 <= b < h && scanned_before(a, b, x as int, 0) ==> ((
                #[trigger] matrix@[a]@[b]) matches GameCell::Resource(res) ==> resources@.contains(
                    (Position { x: a as usize, y: b as usize }, res),
                )),
            bots@.len() == count_bot_cells(matrix@.take(x as int)),
            forall|c: crate::bot::Color|
                #[trigger] count_bots_color(bots@, c) == count_cells_color(
                    matrix@.take(x as int),
                    c,
                ),
        decreases w - x,
    {
        proof {
            assert(matrix@[x as int]@.take(0) =~= Seq::<GameCell>::empty());
        }
        let mut y: usize = 0;
        while y < h
            invariant
                w == MAP_WIDTH,
                h == MAP_HEIGHT,
                x < w,
                y <= h,
                matrix@.len() == w,
                forall|a: int| 0 <= a < w ==> (#[trigger] matrix@[a])@.len() == h,
                forall|i: int|
                    0 <= i < bots@.len() ==> {
                        let e = #[trigger] bots@[i];
                        e.0.x < w && e.0.y < h && scanned_before(
                            e.0.x as int,
                            e.0.y as int,
                            x as int,
                            y as int,
                        ) && matrix@[e.0.x as int]@[e.0.y as int] == GameCell::Bot(e.1)
                    },
                forall|i: int, j: int|
                    0 <= i < j < bots@.len() ==> (#[trigger] bots@[i]).0 != (#[trigger] bots@[j]).0,
                forall|i: int, j: int|
                    0 <= i < j < bots@.len() ==> pos_lex_lt(
                        (#[trigger] bots@[i]).0,
                        (#[trigger] bots@[j]).0,
                    ),
                forall|i: int|
                    0 <= i < resources@.len() ==> {
                        let e = #[trigger] resources@[i];
                        e.0.x < w && e.0.y < h && scanned_before(
                            e.0.x as int,
                            e.0.y as int,
                            x as int,
                            y as int,
                        ) && matrix@[e.0.x as int]@[e.0.y as int] == GameCell::Resource(e.1)
                    },
                forall|i: int, j: int|
                    0 <= i < j < resources@.len() ==> (#[trigger] resources@[i]).0 != (
                    #[trigger] resources@[j]).0,
                forall|i: int, j: int|
                    0 <= i < j < resources@.len() ==> pos_lex_lt(
                        (#[trigger] resources@[i]).0,
                        (#[trigger] resources@[j]).0,
                    ),
                forall|a: int, b: int|
                    0 <= a < w && 0 <= b < h && scanned_before(a, b, x as int, y as int) ==> ((
                    #[trigger] matrix@[a]@[b]) matches GameCell::Bot(bt) ==> bots@.contains(
                        (Position { x: a as usize, y: b as usize }, bt),
                    )),
                forall|a: int, b: int|
                    0 <= a < w && 0 <= b < h && scanned_before(a, b, x as int, y as int) ==> ((
                    #[trigger] matrix@[a]@[b]) matches GameCell::Resource(res)
                        ==> resources@.contains(
                        (Position { x: a as usize, y: b as usize }, res),
                    )),
                bots@.len() == count_bot_cells(matrix@.take(x as int)) + count_bot_col(
                    matrix@[x as int]@.take(y as int),
                ),
                forall|c: crate::bot::Color|
                    #[trigger] count_bots_color(bots@, c) == count_cells_color(
                        matrix@.take(x as int),
                        c,
                    ) + count_col_color(matrix@[x as int]@.take(y as int), c),
            decreases h - y,
        {
            let p = Position { x, y };
            let ghost pre_bots = bots@;
            let ghost pre_res = resources@;
            match matrix[x][y] {
                GameCell::Bot(b) => {
                    bots.push((p, b));
                },
                GameCell::Resource(res) => {
                    resources.push((p, res));
                },
                GameCell::Empty => {},
            }
            y += 1;
            proof {
                assert(matrix@[x as int]@.take(y as int) =~= matrix@[x as int]@.take(y - 1).push(
                    matrix@[x as int]@[y - 1],
                ));
                lemma_count_bot_col_push(matrix@[x as int]@.take(y - 1), matrix@[x as int]@[y - 1]);
                assert forall|c: crate::bot::Color|
                    #[trigger] count_bots_color(bots@, c) == count_cells_color(
                    matrix@.take(x as int),
                    c,
                ) + count_col_color(matrix@[x as int]@.take(y as int), c) by {
                    lemma_count_col_color_push(
                        matrix@[x as int]@.take(y - 1),
                        matrix@[x as int]@[y - 1],
                        c,
                    );
                    match matrix@[x as int]@[y - 1] {
                        GameCell::Bot(bt) => {
                            lemma_count_bots_color_push(pre_bots, (p, bt), c);
                        },
                        _ => {},
                    }
                }
                assert forall|a: int, b2: int|
                    0 <= a < w && 0 <= b2 < h && scanned_before(a, b2, x as int, y as int) implies ((
                #[trigger] matrix@[a]@[b2]) matches GameCell::Bot(bt) ==> bots@.contains(
                    (Position { x: a as usize, y: b2 as usize }, bt),
                )) && ((matrix@[a]@[b2]) matches GameCell::Resource(res) ==> resources@.contains(
                    (Position { x: a as usize, y: b2 as usize }, res),
                )) by {
                    if a == x as int && b2 == y - 1 {
                        match matrix@[a]@[b2] {
                            GameCell::Bot(bt) => {
                                assert(bots@[bots@.len() - 1] == (p, bt));
                            },
                            GameCell::Resource(res) => {
                                assert(resources@[resources@.len() - 1] == (p, res));
                            },
                            GameCell::Empty => {},
                        }
                    } else {
                        match matrix@[a]@[b2] {
                            GameCell::Bot(bt) => {
                                assert(pre_bots.contains(
                                    (Position { x: a as usize, y: b2 as usize }, bt),
                                ));
                                let i = choose|i: int|
                                    0 <= i < pre_bots.len() && pre_bots[i] == (
                                    Position { x: a as usize, y: b2 as usize },
                                    bt,
                                    );
                                assert(bots@[i] == pre_bots[i]);
                            },
                            GameCell::Resource(res) => {
                                assert(pre_res.contains(
                                    (Position { x: a as usize, y: b2 as usize }, res),
                                ));
                                let i = choose|i: int|
                                    0 <= i < pre_res.len() && pre_res[i] == (
                                    Position { x: a as usize, y: b2 as usize },
                                    res,
                                    );
                                assert(resources@[i] == pre_res[i]);
                            },
                            GameCell::Empty => {},
                        }
                    }
                }
            }
        }
        proof {
            assert(matrix@[x as int]@.take(h as int) =~= matrix@[x as int]@);
            assert(matrix@.take(x + 1) =~= matrix@.take(x as int).push(matrix@[x as int]));
            lemma_count_bot_cells_push(matrix@.take(x as int), matrix@[x as int]);
            assert forall|c: crate::bot::Color|
                #[trigger] count_bots_color(bots@, c) == count_cells_color(
                matrix@.take(x + 1),
                c,
            ) by {
                lemma_count_cells_color_push(matrix@.take(x as int), matrix@[x as int], c);
            }
        }
        x += 1;
    }
    let r = GameState { map_width: w, map_height: h, bots, resources };
    proof {
        assert(matrix@.take(w as int) =~= matrix@);
    }
    proof {
        assert(r.wf());
        assert forall|a: int, b: int|
            0 <= a < MAP_WIDTH && 0 <= b < MAP_HEIGHT implies spec_cell(
            r,
            Position { x: a as usize, y: b as usize },
        ) == #[trigger] matrix@[a]@[b] by {
            let q = Position { x: a as usize, y: b as usize };
            match matrix@[a]@[b] {
                GameCell::Bot(bt) => {
                    assert(r.bots@.contains((q, bt)));
                    let i = choose|i: int| 0 <= i < r.bots@.len() && r.bots@[i] == (q, bt);
                    lemma_find_at_unique(r.bots@, i);
                },
                GameCell::Resource(res) => {
                    assert forall|j: int|
                        0 <= j < r.bots@.len() implies (#[trigger] r.bots@[j]).0 != q by {
                        if r.bots@[j].0 == q {
                            assert(matrix@[a]@[b] == GameCell::Bot(r.bots@[j].1));
                        }
                    }
                    lemma_find_at_miss(r.bots@, q);
                    assert(r.resources@.contains((q, res)));
                    let i = choose|i: int|
                        0 <= i < r.resources@.len() && r.resources@[i] == (q, res);
                    lemma_find_at_unique(r.resources@, i);
                },
                GameCell::Empty => {
                    assert forall|j: int|
                        0 <= j < r.bots@.len() implies (#[trigger] r.bots@[j]).0 != q by {
                        if r.bots@[j].0 == q {
                            assert(matrix@[a]@[b] == GameCell::Bot(r.bots@[j].1));
                        }
                    }
                    lemma_find_at_miss(r.bots@, q);
                    assert forall|j: int|
                        0 <= j < r.resources@.len() implies (#[trigger] r.resources@[j]).0 != q by {
                        if r.resources@[j].0 == q {
                            assert(matrix@[a]@[b] == GameCell::Resource(r.resources@[j].1));
                        }
                    }
                    lemma_find_at_miss(r.resources@, q);
                },
            }
        }
    }
    r
}

/// Appending an entry changes `find_at` only for its key, and only when
/// the key was absent.
pub proof fn lemma_find_at_push<T>(s: Seq<(Position, T)>, e: (Position, T), p: Position)
    ensures
        find_at(s.push(e), p) == (if find_at(s, p) is Some {
            find_at(s, p)
        } else if e.0 == p {
            Some(e.1)
        } else {
            None
        }),
    decreases s.len(),
{
    let t = s.push(e);
    if s.len() == 0 {
        assert(t.len() == 1);
        assert(t[0] == e);
        assert(t.drop_first() =~= Seq::<(Position, T)>::empty());
        assert(find_at(t.drop_first(), p) == None::<T>);
        assert(find_at(t, p) == (if e.0 == p {
            Some(e.1)
        } else {
            None
        }));
    } else {
        assert(t.len() == s.len() + 1);
        assert(t[0] == s[0]);
        assert(t.drop_first() =~= s.drop_first().push(e));
        lemma_find_at_push(s.drop_first(), e, p);
        assert(find_at(t, p) == (if t[0].0 == p {
            Some(t[0].1)
        } else {
            find_at(t.drop_first(), p)
        }));
    }
}

} // verus!
