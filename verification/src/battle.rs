//! Arena setup, the strategy roster, and the engine entry point.

use vstd::prelude::*;
use crate::actuators::Actuators;
use crate::bot::{Bot, BotStrategy, Color, ColorConfig};
use crate::direction::Direction;
use crate::constants::{
    AVERAGE_RESOURCE_GENERATION_PER_TICK, BOTS_STARTING_ENERGY, MAP_HEIGHT, MAP_WIDTH,
    MAX_RESOURCES, STARTING_SHIELD_RESISTANCE,
};
use crate::constants::TIREDNESS_TO_LOSE_ENERGY;
use crate::engine::{
    lemma_combat_upto_preserves, lemma_energy_monotonic, lemma_live_bots, resolve_tick,
    same_but_damage, spawn_resources, spec_apply_rotations, spec_collect_bots, spec_live_bots,
    spec_resolve_combat, spec_surviving_resources, spec_tire, spec_tire_bots,
};
use crate::movement::{lemma_conflict_keeps_cells, spec_dests, spec_resolve_movement};
use crate::rng::random_below;
use crate::state::{
    cell_color_weight, count_bot_cells, count_bots_color, count_cells_color, from_matrix,
    lemma_count_bot_cells_bounds, lemma_count_bot_cells_none, lemma_count_bot_cells_update,
    lemma_count_cells_color_none, lemma_count_cells_color_update, GameCell, GameState, Position,
};
use crate::strategy::{intent_ok, lemma_intent_ok_is_decided, run_strategy, spec_decided_intent};

verus! {

/// The strategy registered for `color`, if any: the first roster entry of
/// that color wins.
pub open spec fn spec_strategy_for(colors: Seq<ColorConfig>, color: Color) -> Option<BotStrategy>
    decreases colors.len(),
{
    if colors.len() == 0 {
        None
    } else if colors[0].color == color {
        Some(colors[0].strategy)
    } else {
        spec_strategy_for(colors.drop_first(), color)
    }
}

/// Look up the strategy registered for `color`.
pub fn strategy_for_color(colors: &Vec<ColorConfig>, color: Color) -> (r: Option<BotStrategy>)
    ensures
        r == spec_strategy_for(colors@, color),
{
    let n = colors.len();
    let mut i: usize = 0;
    proof {
        assert(colors@.skip(0) =~= colors@);
    }
    while i < n
        invariant
            n == colors@.len(),
            i <= n,
            spec_strategy_for(colors@, color) == spec_strategy_for(colors@.skip(i as int), color),
        decreases n - i,
    {
        let c = colors[i];
        proof {
            let tail = colors@.skip(i as int);
            assert(tail[0] == colors@[i as int]);
            assert(tail.drop_first() =~= colors@.skip(i + 1));
        }
        if c.color == color {
            return Some(c.strategy);
        }
        i += 1;
    }
    None
}

/// Ask each live bot's strategy for its intent, against the frozen
/// pre-tick snapshot.  A bot whose color has no registered strategy
/// requests nothing.
pub fn collect_intents(state: &GameState, colors: &Vec<ColorConfig>) -> (r: Vec<Actuators>)
    requires
        state.wf(),
    ensures
        r@.len() == state.bots@.len(),
        forall|i: int|
            0 <= i < r@.len() ==> (match spec_strategy_for(
                colors@,
                (#[trigger] state.bots@[i]).1.color,
            ) {
                Some(_) => intent_ok(*state, state.bots@[i].0, r@[i]),
                None => r@[i] == Actuators::spec_none(),
            }),
{
    let n = state.bots.len();
    let mut r: Vec<Actuators> = Vec::new();
    let mut i: usize = 0;
    while i < n
        invariant
            state.wf(),
            n == state.bots@.len(),
            i <= n,
            r@.len() == i,
            forall|k: int|
                0 <= k < i ==> (match spec_strategy_for(
                    colors@,
                    (#[trigger] state.bots@[k]).1.color,
                ) {
                    Some(_) => intent_ok(*state, state.bots@[k].0, r@[k]),
                    None => r@[k] == Actuators::spec_none(),
                }),
        decreases n - i,
    {
        let (p, b) = state.bots[i];
        proof {
            assert(state.spec_in_bounds(state.bots@[i as int].0));
        }
        let intent = match strategy_for_color(colors, b.color) {
            Some(strategy) => run_strategy(strategy, state, p),
            None => Actuators::none(),
        };
        r.push(intent);
        i += 1;
    }
    r
}

/// How one resolved tick with the intents `intents` relates the snapshot
/// `s` to the snapshot `r`: each intent is what the roster's strategy for
/// that bot could have produced (or the no-op intent for an unregistered
/// color), the bots of `r` are exactly the deterministic pipeline's
/// output, and the surviving resources stand unchanged at the front of
/// `r`'s resources, followed only by freshly spawned ones.
pub open spec fn spec_tick_rel(
    s: GameState,
    colors: Seq<ColorConfig>,
    intents: Seq<Actuators>,
    r: GameState,
) -> bool {
    let moved = spec_resolve_movement(
        s.map_width,
        s.map_height,
        spec_apply_rotations(s.bots@, intents),
        intents,
    );
    let surviving = spec_surviving_resources(s.resources@, moved);
    &&& intents.len() == s.bots@.len()
    &&& (forall|i: int|
        0 <= i < intents.len() ==> (match spec_strategy_for(
            colors,
            (#[trigger] s.bots@[i]).1.color,
        ) {
            Some(_) => intent_ok(s, s.bots@[i].0, intents[i]),
            None => intents[i] == Actuators::spec_none(),
        }))
    &&& r.bots@ == spec_live_bots(
        spec_tire_bots(spec_resolve_combat(spec_collect_bots(s.resources@, moved))),
    )
    &&& r.resources@.len() >= surviving.len()
    &&& r.resources@.subrange(0, surviving.len() as int) == surviving
    &&& r.resources@.len() <= surviving.len() + AVERAGE_RESOURCE_GENERATION_PER_TICK
    &&& (r.resources@.len() <= surviving.len() || r.resources@.len() <= MAX_RESOURCES)
}

/// One tick may take `s` to `r`: some roster-conformant intents resolve
/// that way.  The witnesses are in fact unique — see
/// `lemma_advance_rel_intents`.
pub open spec fn spec_advance_rel(s: GameState, colors: Seq<ColorConfig>, r: GameState) -> bool {
    exists|intents: Seq<Actuators>| spec_tick_rel(s, colors, intents, r)
}

/// The intents every bot's registered strategy decides on the snapshot
/// `s`, in bot order; an unregistered color yields the no-op intent.
pub open spec fn spec_roster_intents(s: GameState, colors: Seq<ColorConfig>) -> Seq<Actuators> {
    Seq::new(
        s.bots@.len(),
        |i: int|
            match spec_strategy_for(colors, s.bots@[i].1.color) {
                Some(_) => spec_decided_intent(s, s.bots@[i].0),
                None => Actuators::spec_none(),
            },
    )
}

/// The tick relation's intents are uniquely determined: the decision
/// contract pins each bot's intent, so any witness of the relation equals
/// `spec_roster_intents`.
pub proof fn lemma_tick_intents_determined(
    s: GameState,
    colors: Seq<ColorConfig>,
    intents: Seq<Actuators>,
    r: GameState,
)
    requires
        spec_tick_rel(s, colors, intents, r),
    ensures
        intents == spec_roster_intents(s, colors),
{
    assert forall|i: int| 0 <= i < intents.len() implies intents[i] == spec_roster_intents(
        s,
        colors,
    )[i] by {
        match spec_strategy_for(colors, s.bots@[i].1.color) {
            Some(_) => {
                lemma_intent_ok_is_decided(s, s.bots@[i].0, intents[i]);
            },
            None => {},
        }
    }
    assert(intents =~= spec_roster_intents(s, colors));
}

/// The existential of the one-tick relation collapses: every advance is
/// the tick resolved with the roster's decided intents, so any fact
/// proved of `spec_tick_rel` with those intents holds of every advance.
pub proof fn lemma_advance_rel_intents(s: GameState, colors: Seq<ColorConfig>, r: GameState)
    requires
        spec_advance_rel(s, colors, r),
    ensures
        spec_tick_rel(s, colors, spec_roster_intents(s, colors), r),
{
    let intents = choose|intents: Seq<Actuators>| spec_tick_rel(s, colors, intents, r);
    lemma_tick_intents_determined(s, colors, intents, r);
}

/// Advance the world by one tick: collect every live bot's intent, resolve
/// rotations, movement, collection, combat, attrition and death, then
/// spawn resources.  The next snapshot is well formed, holds no dead bot
/// and no more bots than before, and stands in the one-tick relation to
/// the old one.
pub fn advance(state: &GameState, colors: &Vec<ColorConfig>) -> (r: GameState)
    requires
        state.wf(),
        state.map_width > 0,
        state.map_height > 0,
    ensures
        r.wf(),
        r.map_width == state.map_width,
        r.map_height == state.map_height,
        forall|i: int| 0 <= i < r.bots@.len() ==> (#[trigger] r.bots@[i]).1.energy > 0,
        r.bots@.len() <= state.bots@.len(),
        spec_advance_rel(*state, colors@, r),
{
    let intents = collect_intents(state, colors);
    let mut next = resolve_tick(state, &intents);
    proof {
        let moved = spec_resolve_movement(
            state.map_width,
            state.map_height,
            spec_apply_rotations(state.bots@, intents@),
            intents@,
        );
        assert(next.resources@ == spec_surviving_resources(state.resources@, moved));
    }
    spawn_resources(&mut next);
    proof {
        let moved = spec_resolve_movement(
            state.map_width,
            state.map_height,
            spec_apply_rotations(state.bots@, intents@),
            intents@,
        );
        let surviving = spec_surviving_resources(state.resources@, moved);
        assert(next.resources@.subrange(0, surviving.len() as int) == surviving);
        assert(spec_tick_rel(*state, colors@, intents@, next));
    }
    next
}

/// Movement-conflict law, lifted to one resolved tick: when two bots'
/// collected intents request the same destination cell, the movement
/// stage leaves both on their pre-tick cells, they stand there through
/// collection, combat and attrition, and each that survives stands on its
/// pre-tick cell in the next snapshot.
pub proof fn lemma_tick_conflict_keeps_cells(
    s: GameState,
    colors: Seq<ColorConfig>,
    intents: Seq<Actuators>,
    r: GameState,
    i: int,
    j: int,
)
    requires
        spec_tick_rel(s, colors, intents, r),
        0 <= i < s.bots@.len(),
        0 <= j < s.bots@.len(),
        i != j,
        spec_dests(s.map_width, s.map_height, spec_apply_rotations(s.bots@, intents), intents)[i]
            is Some,
        spec_dests(s.map_width, s.map_height, spec_apply_rotations(s.bots@, intents), intents)[i]
            == spec_dests(
            s.map_width,
            s.map_height,
            spec_apply_rotations(s.bots@, intents),
            intents,
        )[j],
    ensures
        ({
            let moved = spec_resolve_movement(
                s.map_width,
                s.map_height,
                spec_apply_rotations(s.bots@, intents),
                intents,
            );
            let tired = spec_tire_bots(
                spec_resolve_combat(spec_collect_bots(s.resources@, moved)),
            );
            &&& moved[i].0 == s.bots@[i].0
            &&& moved[j].0 == s.bots@[j].0
            &&& tired[i].0 == s.bots@[i].0
            &&& tired[j].0 == s.bots@[j].0
            &&& (tired[i].1.energy > 0 ==> r.bots@.contains(tired[i]))
            &&& (tired[j].1.energy > 0 ==> r.bots@.contains(tired[j]))
        }),
{
    let rotated = spec_apply_rotations(s.bots@, intents);
    assert(rotated[i].0 == s.bots@[i].0);
    assert(rotated[j].0 == s.bots@[j].0);
    lemma_conflict_keeps_cells(s.map_width, s.map_height, rotated, intents, i, j);
    let moved = spec_resolve_movement(s.map_width, s.map_height, rotated, intents);
    let fed = spec_collect_bots(s.resources@, moved);
    let fought = spec_resolve_combat(fed);
    let tired = spec_tire_bots(fought);
    lemma_combat_upto_preserves(fed, fed.len() as int);
    assert(same_but_damage(fed[i], fought[i]));
    assert(same_but_damage(fed[j], fought[j]));
    assert(tired[i] == (fought[i].0, spec_tire(fought[i].1)));
    assert(tired[j] == (fought[j].0, spec_tire(fought[j].1)));
    lemma_live_bots(tired);
    if tired[i].1.energy > 0 {
        assert(tired.contains(tired[i]));
    }
    if tired[j].1.energy > 0 {
        assert(tired.contains(tired[j]));
    }
}

/// Energy monotonicity law, lifted to one resolved tick: a bot that after
/// movement stands on no resource cell, is pointed at by no chainsaw, and
/// stays below the tiredness threshold keeps its energy exactly — and, if
/// it held any energy, it stands in the next snapshot unchanged but for
/// one tick of tiredness.
pub proof fn lemma_tick_energy_unchanged(
    s: GameState,
    colors: Seq<ColorConfig>,
    intents: Seq<Actuators>,
    r: GameState,
    i: int,
)
    requires
        spec_tick_rel(s, colors, intents, r),
        0 <= i < s.bots@.len(),
        ({
            let moved = spec_resolve_movement(
                s.map_width,
                s.map_height,
                spec_apply_rotations(s.bots@, intents),
                intents,
            );
            &&& crate::state::find_at(s.resources@, moved[i].0) is None
            &&& (forall|j: int|
                0 <= j < moved.len() ==> crate::spatial::spec_step(
                    (#[trigger] moved[j]).0,
                    moved[j].1.chainsaw_direction,
                ) != (moved[i].0.x as int, moved[i].0.y as int))
            &&& moved[i].1.tiredness + 1 < TIREDNESS_TO_LOSE_ENERGY
        }),
    ensures
        ({
            let moved = spec_resolve_movement(
                s.map_width,
                s.map_height,
                spec_apply_rotations(s.bots@, intents),
                intents,
            );
            let tired = spec_tire_bots(
                spec_resolve_combat(spec_collect_bots(s.resources@, moved)),
            );
            &&& tired[i].0 == moved[i].0
            &&& tired[i].1.energy == moved[i].1.energy
            &&& tired[i].1.tiredness == moved[i].1.tiredness + 1
            &&& (moved[i].1.energy > 0 ==> r.bots@.contains(tired[i]))
        }),
{
    let rotated = spec_apply_rotations(s.bots@, intents);
    let moved = spec_resolve_movement(s.map_width, s.map_height, rotated, intents);
    lemma_energy_monotonic(s.resources@, moved, i);
    let fed = spec_collect_bots(s.resources@, moved);
    let fought = spec_resolve_combat(fed);
    let tired = spec_tire_bots(fought);
    lemma_combat_upto_preserves(fed, fed.len() as int);
    assert(same_but_damage(fed[i], fought[i]));
    assert(tired[i] == (fought[i].0, spec_tire(fought[i].1)));
    lemma_live_bots(tired);
    if moved[i].1.energy > 0 {
        assert(tired.contains(tired[i]));
    }
}

/// The total number of bots the roster asks for.
pub open spec fn spec_total_requested(colors: Seq<ColorConfig>) -> int
    decreases colors.len(),
{
    if colors.len() == 0 {
        0
    } else {
        colors[0].number_of_bots + spec_total_requested(colors.drop_first())
    }
}

/// One more roster entry asks for its own bot count on top.
proof fn lemma_total_requested_push(colors: Seq<ColorConfig>, e: ColorConfig)
    ensures
        spec_total_requested(colors.push(e)) == spec_total_requested(colors) + e.number_of_bots,
    decreases colors.len(),
{
    let t = colors.push(e);
    assert(spec_total_requested(t) == t[0].number_of_bots + spec_total_requested(t.drop_first()));
    if colors.len() == 0 {
        assert(t[0] == e);
        assert(t.drop_first() =~= Seq::<ColorConfig>::empty());
        assert(spec_total_requested(t.drop_first()) == 0);
    } else {
        assert(t[0] == colors[0]);
        assert(t.drop_first() =~= colors.drop_first().push(e));
        lemma_total_requested_push(colors.drop_first(), e);
    }
}

/// A roster prefix never asks for more bots than the whole roster.
proof fn lemma_total_requested_prefix(colors: Seq<ColorConfig>, k: int)
    requires
        0 <= k <= colors.len(),
    ensures
        spec_total_requested(colors.take(k)) <= spec_total_requested(colors),
    decreases colors.len() - k,
{
    if k == colors.len() {
        assert(colors.take(k) =~= colors);
    } else {
        assert(colors.take(k + 1) =~= colors.take(k).push(colors[k]));
        lemma_total_requested_push(colors.take(k), colors[k]);
        lemma_total_requested_prefix(colors, k + 1);
    }
}

/// The number of bots the roster asks for in color `c`, summed over every
/// entry of that color.
pub open spec fn spec_requested_for_color(colors: Seq<ColorConfig>, c: Color) -> int
    decreases colors.len(),
{
    if colors.len() == 0 {
        0
    } else {
        (if colors[0].color == c {
            colors[0].number_of_bots as int
        } else {
            0
        }) + spec_requested_for_color(colors.drop_first(), c)
    }
}

/// One more roster entry asks for its own bot count in its own color.
proof fn lemma_requested_for_color_push(colors: Seq<ColorConfig>, e: ColorConfig, c: Color)
    ensures
        spec_requested_for_color(colors.push(e), c) == spec_requested_for_color(colors, c) + (
        if e.color == c {
            e.number_of_bots as int
        } else {
            0
        }),
    decreases colors.len(),
{
    let t = colors.push(e);
    assert(spec_requested_for_color(t, c) == (if t[0].color == c {
        t[0].number_of_bots as int
    } else {
        0
    }) + spec_requested_for_color(t.drop_first(), c));
    if colors.len() == 0 {
        assert(t[0] == e);
        assert(t.drop_first() =~= Seq::<ColorConfig>::empty());
        assert(spec_requested_for_color(t.drop_first(), c) == 0);
    } else {
        assert(t[0] == colors[0]);
        assert(t.drop_first() =~= colors.drop_first().push(e));
        lemma_requested_for_color_push(colors.drop_first(), e, c);
    }
}

/// A random empty cell of the matrix, if one exists: a bounded number of
/// uniform probes, then a deterministic sweep so that a nearly full board
/// still yields its last free cell.
pub fn find_empty_position(map: &Vec<Vec<GameCell>>) -> (r: Option<Position>)
    requires
        map@.len() > 0,
        forall|i: int| 0 <= i < map@.len() ==> (#[trigger] map@[i])@.len() == map@[0]@.len(),
        map@[0]@.len() > 0,
    ensures
        r matches Some(p) ==> p.x < map@.len() && p.y < map@[0]@.len() && map@[p.x as int]@[p.y as int]
            == GameCell::Empty,
        r is None ==> forall|a: int, b: int|
            0 <= a < map@.len() && 0 <= b < map@[0]@.len() ==> (#[trigger] map@[a]@[b])
                != GameCell::Empty,
{
    let w = map.len();
    let h = map[0].len();
    let mut probes: usize = 0;
    while probes < w
        invariant
            w == map@.len(),
            h == map@[0]@.len(),
            w > 0,
            h > 0,
            forall|i: int| 0 <= i < w ==> (#[trigger] map@[i])@.len() == h,
        decreases w - probes,
    {
        let mut inner: usize = 0;
        while inner < h
            invariant
                w == map@.len(),
                h == map@[0]@.len(),
                w > 0,
                h > 0,
                forall|i: int| 0 <= i < w ==> (#[trigger] map@[i])@.len() == h,
            decreases h - inner,
        {
            let x = random_below(w);
            let y = random_below(h);
            if matches!(map[x][y], GameCell::Empty) {
                return Some(Position { x, y });
            }
            inner += 1;
        }
        probes += 1;
    }
    let mut x: usize = 0;
    while x < w
        invariant
            w == map@.len(),
            h == map@[0]@.len(),
            forall|i: int| 0 <= i < w ==> (#[trigger] map@[i])@.len() == h,
            x <= w,
            forall|a: int, b: int|
                0 <= a < x && 0 <= b < h ==> (#[trigger] map@[a]@[b]) != GameCell::Empty,
        decreases w - x,
    {
        let mut y: usize = 0;
        while y < h
            invariant
                w == map@.len(),
                h == map@[0]@.len(),
                forall|i: int| 0 <= i < w ==> (#[trigger] map@[i])@.len() == h,
                x < w,
                y <= h,
                forall|a: int, b: int|
                    0 <= a < x && 0 <= b < h ==> (#[trigger] map@[a]@[b]) != GameCell::Empty,
                forall|b: int| 0 <= b < y ==> (#[trigger] map@[x as int]@[b]) != GameCell::Empty,
            decreases h - y,
        {
            if matches!(map[x][y], GameCell::Empty) {
                return Some(Position { x, y });
            }
            y += 1;
        }
        x += 1;
    }
    None
}

/// A running arena: the current snapshot and the strategy roster,
/// established once at setup.
pub struct Battle {
    pub state: GameState,
    pub colors: Vec<ColorConfig>,
}

impl Battle {
    /// A battle is usable when its snapshot is well formed on a non-empty
    /// grid.
    pub open spec fn wf(self) -> bool {
        &&& self.state.wf()
        &&& self.state.map_width > 0
        &&& self.state.map_height > 0
    }

    /// Set up an arena of the configured size: for each roster entry,
    /// place its number of freshly built bots on random empty cells (as
    /// far as the board has room).
    pub fn new(colors: Vec<ColorConfig>) -> (r: Battle)
        ensures
            r.wf(),
            r.state.map_width == MAP_WIDTH,
            r.state.map_height == MAP_HEIGHT,
            r.colors == colors,
            forall|i: int|
                0 <= i < r.state.bots@.len() ==> {
                    let b = (#[trigger] r.state.bots@[i]).1;
                    b.energy == BOTS_STARTING_ENERGY && b.tiredness == 0 && b.shield_resistance
                        == STARTING_SHIELD_RESISTANCE && b.chainsaw_direction == Direction::Up
                        && b.shield_direction == Direction::Up
                },
            forall|i: int, j: int|
                0 <= i < j < r.state.bots@.len() ==> crate::state::pos_lex_lt(
                    (#[trigger] r.state.bots@[i]).0,
                    (#[trigger] r.state.bots@[j]).0,
                ),
            forall|i: int|
                0 <= i < r.state.bots@.len() ==> exists|k: int|
                    0 <= k < colors@.len() && (#[trigger] colors@[k]).color == (
                    #[trigger] r.state.bots@[i]).1.color,
            r.state.resources@.len() == 0,
            spec_total_requested(colors@) <= MAP_WIDTH * MAP_HEIGHT ==> r.state.bots@.len()
                == spec_total_requested(colors@),
            spec_total_requested(colors@) <= MAP_WIDTH * MAP_HEIGHT ==> forall|c: Color|
                #[trigger] count_bots_color(r.state.bots@, c) == spec_requested_for_color(
                    colors@,
                    c,
                ),
    {
        let mut map: Vec<Vec<GameCell>> = Vec::new();
        let mut x: usize = 0;
        while x < MAP_WIDTH
            invariant
                x <= MAP_WIDTH,
                map@.len() == x,
                forall|i: int|
                    0 <= i < x ==> (#[trigger] map@[i])@.len() == MAP_HEIGHT && forall|j: int|
                        0 <= j < MAP_HEIGHT ==> map@[i]@[j] == GameCell::Empty,
            decreases MAP_WIDTH - x,
        {
            let col = vec![GameCell::Empty; MAP_HEIGHT];
            map.push(col);
            x += 1;
        }
        proof {
            lemma_count_bot_cells_none(map@);
            assert(colors@.take(0) =~= Seq::<ColorConfig>::empty());
            assert forall|c: Color| #[trigger] count_cells_color(map@, c)
                == spec_requested_for_color(colors@.take(0), c) by {
                lemma_count_cells_color_none(map@, c);
            }
        }
        let nc = colors.len();
        let mut c: usize = 0;
        while c < nc
            invariant
                nc == colors@.len(),
                c <= nc,
                spec_total_requested(colors@) <= MAP_WIDTH * MAP_HEIGHT ==> count_bot_cells(map@)
                    == spec_total_requested(colors@.take(c as int)),
                forall|c2: Color|
                    #[trigger] count_cells_color(map@, c2) == spec_requested_for_color(
                        colors@.take(c as int),
                        c2,
                    ) || spec_total_requested(colors@) > MAP_WIDTH * MAP_HEIGHT,
                map@.len() == MAP_WIDTH,
                forall|i: int| 0 <= i < MAP_WIDTH ==> (#[trigger] map@[i])@.len() == MAP_HEIGHT,
                forall|a: int, b: int|
                    0 <= a < MAP_WIDTH && 0 <= b < MAP_HEIGHT ==> ((#[trigger] map@[a]@[b]) matches
                        GameCell::Bot(bt) ==> bt.energy == BOTS_STARTING_ENERGY && bt.tiredness == 0
                        && bt.shield_resistance == STARTING_SHIELD_RESISTANCE
                        && bt.chainsaw_direction == Direction::Up && bt.shield_direction
                        == Direction::Up && bt.wf() && (exists|k: int|
                        0 <= k < colors@.len() && (#[trigger] colors@[k]).color == bt.color)),
                forall|a: int, b: int|
                    0 <= a < MAP_WIDTH && 0 <= b < MAP_HEIGHT ==> !((#[trigger] map@[a]@[b]) matches
                        GameCell::Resource(res)),
            decreases nc - c,
        {
            let config = colors[c];
            let mut placed: usize = 0;
            while placed < config.number_of_bots
                invariant
                    nc == colors@.len(),
                    c < nc,
                    config == colors@[c as int],
                    placed <= config.number_of_bots,
                    spec_total_requested(colors@) <= MAP_WIDTH * MAP_HEIGHT ==> count_bot_cells(
                        map@,
                    ) == spec_total_requested(colors@.take(c as int)) + placed,
                    forall|c2: Color|
                        #[trigger] count_cells_color(map@, c2) == spec_requested_for_color(
                            colors@.take(c as int),
                            c2,
                        ) + (if colors@[c as int].color == c2 {
                            placed as int
                        } else {
                            0
                        }) || spec_total_requested(colors@) > MAP_WIDTH * MAP_HEIGHT,
                    map@.len() == MAP_WIDTH,
                    forall|i: int| 0 <= i < MAP_WIDTH ==> (#[trigger] map@[i])@.len() == MAP_HEIGHT,
                    forall|a: int, b: int|
                        0 <= a < MAP_WIDTH && 0 <= b < MAP_HEIGHT ==> ((#[trigger] map@[a]@[b])
                            matches GameCell::Bot(bt) ==> bt.energy == BOTS_STARTING_ENERGY
                            && bt.tiredness == 0 && bt.shield_resistance
                            == STARTING_SHIELD_RESISTANCE && bt.chainsaw_direction == Direction::Up
                            && bt.shield_direction == Direction::Up && bt.wf()
                            && (exists|k: int|
                            0 <= k < colors@.len() && (#[trigger] colors@[k]).color
                                == bt.color)),
                    forall|a: int, b: int|
                        0 <= a < MAP_WIDTH && 0 <= b < MAP_HEIGHT ==> !((#[trigger] map@[a]@[b])
                            matches GameCell::Resource(res)),
                decreases config.number_of_bots - placed,
            {
                if let Some(p) = find_empty_position(&map) {
                    let ghost pre = map@;
                    let fresh = Bot::new(config.color);
                    let row = &mut map[p.x];
                    row[p.y] = GameCell::Bot(fresh);
                    proof {
                        lemma_count_bot_cells_update(
                            pre,
                            p.x as int,
                            map@[p.x as int],
                            p.y as int,
                            GameCell::Bot(fresh),
                        );
                        assert forall|c2: Color| #[trigger] count_cells_color(map@, c2)
                            == count_cells_color(pre, c2) + cell_color_weight(
                            GameCell::Bot(fresh),
                            c2,
                        ) by {
                            lemma_count_cells_color_update(
                                pre,
                                p.x as int,
                                map@[p.x as int],
                                p.y as int,
                                GameCell::Bot(fresh),
                                c2,
                            );
                        }
                        assert forall|a: int, b: int|
                            0 <= a < MAP_WIDTH && 0 <= b < MAP_HEIGHT implies ((
                        #[trigger] map@[a]@[b]) matches GameCell::Bot(bt) ==> bt.energy
                            == BOTS_STARTING_ENERGY && bt.tiredness == 0 && bt.shield_resistance
                            == STARTING_SHIELD_RESISTANCE && bt.chainsaw_direction == Direction::Up
                            && bt.shield_direction == Direction::Up && bt.wf() && (exists|k: int|
                            0 <= k < colors@.len() && (#[trigger] colors@[k]).color
                                == bt.color)) && !(map@[a]@[b] matches
                            GameCell::Resource(res)) by {
                            if a == p.x as int {
                                if b == p.y as int {
                                    assert(colors@[c as int].color == fresh.color);
                                } else {
                                    assert(map@[a]@[b] == pre[a]@[b]);
                                }
                            } else {
                                assert(map@[a] == pre[a]);
                            }
                        }
                    }
                } else {
                    proof {
                        if spec_total_requested(colors@) <= MAP_WIDTH * MAP_HEIGHT {
                            // no empty cell is left, yet fewer bots stand on
                            // the board than the roster asks for in all
                            assert forall|a: int, b: int|
                                0 <= a < MAP_WIDTH && 0 <= b < MAP_HEIGHT implies (
                            #[trigger] map@[a]@[b]) is Bot by {}
                            lemma_count_bot_cells_bounds(map@, MAP_HEIGHT as int);
                            assert(colors@.take(c + 1) =~= colors@.take(c as int).push(
                                colors@[c as int],
                            ));
                            lemma_total_requested_push(colors@.take(c as int), colors@[c as int]);
                            lemma_total_requested_prefix(colors@, c + 1);
                            assert(false);
                        }
                    }
                }
                placed += 1;
            }
            proof {
                if spec_total_requested(colors@) <= MAP_WIDTH * MAP_HEIGHT {
                    assert(colors@.take(c + 1) =~= colors@.take(c as int).push(colors@[c as int]));
                    lemma_total_requested_push(colors@.take(c as int), colors@[c as int]);
                    assert forall|c2: Color| #[trigger] count_cells_color(map@, c2)
                        == spec_requested_for_color(colors@.take(c + 1), c2) by {
                        lemma_requested_for_color_push(
                            colors@.take(c as int),
                            colors@[c as int],
                            c2,
                        );
                    }
                }
            }
            c += 1;
        }
        let state = from_matrix(&map);
        proof {
            assert forall|i: int|
                0 <= i < state.bots@.len() implies {
                let b = (#[trigger] state.bots@[i]).1;
                b.energy == BOTS_STARTING_ENERGY && b.tiredness == 0 && b.shield_resistance
                    == STARTING_SHIELD_RESISTANCE && b.chainsaw_direction == Direction::Up
                    && b.shield_direction == Direction::Up && (exists|k: int|
                    0 <= k < colors@.len() && (#[trigger] colors@[k]).color == b.color)
            } by {
                let e = state.bots@[i];
                assert(state.spec_in_bounds(e.0));
                crate::state::lemma_find_at_unique(state.bots@, i);
                assert(crate::state::spec_cell(state, e.0) == map@[e.0.x as int]@[e.0.y as int]);
            }
            assert forall|i: int| 0 <= i < state.resources@.len() implies (
            #[trigger] state.resources@[i]).1.energy_gain < 0 by {
                let e = state.resources@[i];
                assert(state.spec_in_bounds(e.0));
                assert forall|j: int|
                    0 <= j < state.bots@.len() implies (#[trigger] state.bots@[j]).0 != e.0 by {
                    assert(state.bots@[j].0 != state.resources@[i].0);
                }
                crate::state::lemma_find_at_miss(state.bots@, e.0);
                crate::state::lemma_find_at_unique(state.resources@, i);
                assert(crate::state::spec_cell(state, e.0) == map@[e.0.x as int]@[e.0.y as int]);
            }
            assert(state.resources@.len() == 0) by {
                if state.resources@.len() > 0 {
                    assert(state.resources@[0].1.energy_gain < 0);
                }
            }
            if spec_total_requested(colors@) <= MAP_WIDTH * MAP_HEIGHT {
                assert(colors@.take(nc as int) =~= colors@);
                assert forall|c2: Color| #[trigger] count_bots_color(state.bots@, c2)
                    == spec_requested_for_color(colors@, c2) by {
                    assert(count_bots_color(state.bots@, c2) == count_cells_color(map@, c2));
                    assert(count_cells_color(map@, c2) == spec_requested_for_color(
                        colors@.take(nc as int),
                        c2,
                    ));
                }
            }
        }
        Battle { state, colors }
    }

    /// The strategy registered for `color`, if any.
    pub fn strategy_for(&self, color: Color) -> (r: Option<BotStrategy>)
        ensures
            r == spec_strategy_for(self.colors@, color),
    {
        strategy_for_color(&self.colors, color)
    }

    /// Advance the battle by one tick.
    pub fn update(&mut self)
        requires
            old(self).wf(),
        ensures
            final(self).wf(),
            final(self).colors == old(self).colors,
            final(self).state.map_width == old(self).state.map_width,
            final(self).state.map_height == old(self).state.map_height,
            forall|i: int|
                0 <= i < final(self).state.bots@.len() ==> (
                #[trigger] final(self).state.bots@[i]).1.energy > 0,
            final(self).state.bots@.len() <= old(self).state.bots@.len(),
            spec_advance_rel(old(self).state, old(self).colors@, final(self).state),
    {
        let next = advance(&self.state, &self.colors);
        self.state = next;
    }
}

} // verus!
