//! The tick resolution engine: the deterministic rules that turn a
//! snapshot plus every bot's actuator intent into the next snapshot.
//!
//! One tick applies, in order: rotations, movement conflict resolution,
//! resource collection, combat, attrition, death, and resource spawning.
//! Strategies only ever observe the pre-tick snapshot, so intent collection
//! is fully separated from mutation.

use vstd::prelude::*;
use crate::actuators::Actuators;
use crate::bot::Bot;
use crate::constants::{
    ATTACK_DAMAGE, AVERAGE_RESOURCE_GENERATION_PER_TICK, MAX_RESOURCES, RESOURCE_MAX_ENERGY_GAIN,
    RESOURCE_MIN_ENERGY_GAIN, TIREDNESS_TO_LOSE_ENERGY,
};
use crate::direction::{opposite_direction, spec_opposite, spec_rotate_direction, rotate_direction, Direction};
use crate::movement::{resolve_movement, spec_resolve_movement};
use crate::rng::random_below;
use crate::resource::Resource;
use crate::spatial::{bounded_adjacent_position, spec_in_bounds, spec_step};
use crate::state::{find_at, GameState, Position};

verus! {

/// Addition clamped at the top of the machine range.
pub open spec fn spec_sat_add(a: usize, b: usize) -> usize {
    if a + b <= usize::MAX {
        (a + b) as usize
    } else {
        usize::MAX
    }
}

/// Subtraction clamped at zero.
pub open spec fn spec_sat_sub(a: usize, b: usize) -> usize {
    if a >= b {
        (a - b) as usize
    } else {
        0
    }
}

/// Addition clamped at the top of the machine range.
pub fn sat_add(a: usize, b: usize) -> (r: usize)
    ensures
        r == spec_sat_add(a, b),
{
    if a <= usize::MAX - b {
        a + b
    } else {
        usize::MAX
    }
}

/// Subtraction clamped at zero.
pub fn sat_sub(a: usize, b: usize) -> (r: usize)
    ensures
        r == spec_sat_sub(a, b),
{
    if a >= b {
        a - b
    } else {
        0
    }
}

/// One bot after its requested shield and chainsaw rotations.
pub open spec fn spec_apply_rotation(b: Bot, a: Actuators) -> Bot {
    let b1 = match a.rotate_shield {
        None => b,
        Some(r) => Bot { shield_direction: spec_rotate_direction(b.shield_direction, r), ..b },
    };
    match a.rotate_chainsaw {
        None => b1,
        Some(r) => Bot { chainsaw_direction: spec_rotate_direction(b1.chainsaw_direction, r), ..b1 },
    }
}

/// All bots after their requested rotations; rotations never conflict since
/// each one only turns the owning bot.
pub open spec fn spec_apply_rotations(bots: Seq<(Position, Bot)>, intents: Seq<Actuators>) -> Seq<
    (Position, Bot),
> {
    Seq::new(bots.len(), |i: int| (bots[i].0, spec_apply_rotation(bots[i].1, intents[i])))
}

/// Apply every bot's requested rotations.
pub fn apply_rotations(bots: &Vec<(Position, Bot)>, intents: &Vec<Actuators>) -> (r: Vec<
    (Position, Bot),
>)
    requires
        intents@.len() == bots@.len(),
    ensures
        r@ == spec_apply_rotations(bots@, intents@),
{
    let n = bots.len();
    let mut r: Vec<(Position, Bot)> = Vec::new();
    let mut i: usize = 0;
    while i < n
        invariant
            n == bots@.len(),
            intents@.len() == n,
            i <= n,
            r@.len() == i,
            forall|k: int|
                0 <= k < i ==> #[trigger] r@[k] == (
                    bots@[k].0,
                    spec_apply_rotation(bots@[k].1, intents@[k]),
                ),
        decreases n - i,
    {
        let (p, b) = bots[i];
        let a = intents[i];
        let b1 = match a.rotate_shield {
            None => b,
            Some(rot) => Bot {
                shield_direction: rotate_direction(&b.shield_direction, &rot),
                ..b
            },
        };
        let b2 = match a.rotate_chainsaw {
            None => b1,
            Some(rot) => Bot {
                chainsaw_direction: rotate_direction(&b1.chainsaw_direction, &rot),
                ..b1
            },
        };
        r.push((p, b2));
        i += 1;
    }
    proof {
        assert(r@ =~= spec_apply_rotations(bots@, intents@));
    }
    r
}

/// Whether some bot of `bots` stands at `p`.
pub open spec fn has_bot_pos(bots: Seq<(Position, Bot)>, p: Position) -> bool {
    exists|i: int| 0 <= i < bots.len() && (#[trigger] bots[i]).0 == p
}

/// One bot after resource collection: standing on a resource cell grants
/// the resource's energy.
pub open spec fn spec_collect_bot(resources: Seq<(Position, Resource)>, e: (Position, Bot)) -> (
    Position,
    Bot,
) {
    match find_at(resources, e.0) {
        None => e,
        Some(res) => (e.0, Bot { energy: spec_sat_add(e.1.energy, res.energy_gain), ..e.1 }),
    }
}

/// All bots after resource collection.
pub open spec fn spec_collect_bots(
    resources: Seq<(Position, Resource)>,
    bots: Seq<(Position, Bot)>,
) -> Seq<(Position, Bot)> {
    Seq::new(bots.len(), |i: int| spec_collect_bot(resources, bots[i]))
}

/// The resources left after collection: those on cells no bot stands on.
pub open spec fn spec_surviving_resources(
    resources: Seq<(Position, Resource)>,
    bots: Seq<(Position, Bot)>,
) -> Seq<(Position, Resource)>
    decreases resources.len(),
{
    if resources.len() == 0 {
        Seq::empty()
    } else {
        let rest = spec_surviving_resources(resources.drop_first(), bots);
        if has_bot_pos(bots, resources[0].0) {
            rest
        } else {
            seq![resources[0]] + rest
        }
    }
}

/// What survives collection: exactly the uncollected entries, in order.
pub proof fn lemma_surviving_resources(
    resources: Seq<(Position, Resource)>,
    bots: Seq<(Position, Bot)>,
)
    ensures
        forall|e: (Position, Resource)|
            #[trigger] spec_surviving_resources(resources, bots).contains(e) ==> resources.contains(
                e,
            ) && !has_bot_pos(bots, e.0),
        forall|e: (Position, Resource)|
            #[trigger] resources.contains(e) && !has_bot_pos(bots, e.0)
                ==> spec_surviving_resources(resources, bots).contains(e),
    decreases resources.len(),
{
    if resources.len() > 0 {
        lemma_surviving_resources(resources.drop_first(), bots);
        let s = spec_surviving_resources(resources, bots);
        let rest = spec_surviving_resources(resources.drop_first(), bots);
        assert forall|e: (Position, Resource)| #[trigger] s.contains(e) implies resources.contains(
            e,
        ) && !has_bot_pos(bots, e.0) by {
            if has_bot_pos(bots, resources[0].0) {
                assert(rest.contains(e));
                let i = choose|i: int|
                    0 <= i < resources.drop_first().len() && resources.drop_first()[i] == e;
                assert(resources[i + 1] == e);
            } else {
                let i = choose|i: int| 0 <= i < s.len() && s[i] == e;
                if i == 0 {
                    assert(resources[0] == e);
                } else {
                    assert(rest[i - 1] == e);
                    assert(rest.contains(e));
                    let k = choose|k: int|
                        0 <= k < resources.drop_first().len() && resources.drop_first()[k] == e;
                    assert(resources[k + 1] == e);
                }
            }
        }
        assert forall|e: (Position, Resource)|
            #[trigger] resources.contains(e) && !has_bot_pos(bots, e.0) implies s.contains(e) by {
            let i = choose|i: int| 0 <= i < resources.len() && resources[i] == e;
            if i == 0 {
                if !has_bot_pos(bots, resources[0].0) {
                    assert(s[0] == e);
                }
            } else {
                assert(resources.drop_first()[i - 1] == e);
                assert(resources.drop_first().contains(e));
                assert(rest.contains(e));
                let k = choose|k: int| 0 <= k < rest.len() && rest[k] == e;
                if has_bot_pos(bots, resources[0].0) {
                } else {
                    assert(s[k + 1] == e);
                }
            }
        }
    }
}

/// Surviving resources keep pairwise different cells when the originals
/// had them.
pub proof fn lemma_surviving_resources_distinct(
    resources: Seq<(Position, Resource)>,
    bots: Seq<(Position, Bot)>,
)
    requires
        forall|i: int, j: int|
            0 <= i < j < resources.len() ==> (#[trigger] resources[i]).0 != (
            #[trigger] resources[j]).0,
    ensures
        forall|i: int, j: int|
            0 <= i < j < spec_surviving_resources(resources, bots).len() ==> (
            #[trigger] spec_surviving_resources(resources, bots)[i]).0 != (
            #[trigger] spec_surviving_resources(resources, bots)[j]).0,
    decreases resources.len(),
{
    if resources.len() > 0 {
        let rest = resources.drop_first();
        assert forall|i: int, j: int|
            0 <= i < j < rest.len() implies (#[trigger] rest[i]).0 != (#[trigger] rest[j]).0 by {
            assert(rest[i] == resources[i + 1]);
            assert(rest[j] == resources[j + 1]);
        }
        lemma_surviving_resources_distinct(rest, bots);
        lemma_surviving_resources(rest, bots);
        let s = spec_surviving_resources(resources, bots);
        let srest = spec_surviving_resources(rest, bots);
        if has_bot_pos(bots, resources[0].0) {
        } else {
            assert forall|i: int, j: int|
                0 <= i < j < s.len() implies (#[trigger] s[i]).0 != (#[trigger] s[j]).0 by {
                if i == 0 {
                    assert(s[j] == srest[j - 1]);
                    assert(srest.contains(srest[j - 1]));
                    assert(rest.contains(srest[j - 1]));
                    let k = choose|k: int| 0 <= k < rest.len() && rest[k] == srest[j - 1];
                    assert(resources[k + 1] == rest[k]);
                } else {
                    assert(s[i] == srest[i - 1]);
                    assert(s[j] == srest[j - 1]);
                }
            }
        }
    }
}

/// Let every bot standing on a resource cell eat the resource, and drop
/// the eaten resources.  Returns the fed bots and the surviving resources.
pub fn collect_resources(
    bots: &Vec<(Position, Bot)>,
    resources: &Vec<(Position, Resource)>,
) -> (r: (Vec<(Position, Bot)>, Vec<(Position, Resource)>))
    ensures
        r.0@ == spec_collect_bots(resources@, bots@),
        r.1@ == spec_surviving_resources(resources@, bots@),
{
    let n = bots.len();
    let mut fed: Vec<(Position, Bot)> = Vec::new();
    let mut i: usize = 0;
    while i < n
        invariant
            n == bots@.len(),
            i <= n,
            fed@.len() == i,
            forall|k: int|
                0 <= k < i ==> #[trigger] fed@[k] == spec_collect_bot(resources@, bots@[k]),
        decreases n - i,
    {
        let (p, b) = bots[i];
        let here = resource_on_cell(resources, p);
        let fed_bot = match here {
            None => (p, b),
            Some(res) => (p, Bot { energy: sat_add(b.energy, res.energy_gain), ..b }),
        };
        fed.push(fed_bot);
        i += 1;
    }
    proof {
        assert(fed@ =~= spec_collect_bots(resources@, bots@));
    }
    let m = resources.len();
    let mut surviving: Vec<(Position, Resource)> = Vec::new();
    let mut j: usize = 0;
    proof {
        assert(resources@.skip(0) =~= resources@);
        assert(surviving@ + spec_surviving_resources(resources@, bots@) =~= spec_surviving_resources(
            resources@,
            bots@,
        ));
    }
    while j < m
        invariant
            m == resources@.len(),
            j <= m,
            spec_surviving_resources(resources@, bots@) == surviving@ + spec_surviving_resources(
                resources@.skip(j as int),
                bots@,
            ),
        decreases m - j,
    {
        let (p, res) = resources[j];
        let ghost pre = surviving@;
        let occupied = position_has_bot(bots, p);
        if !occupied {
            surviving.push((p, res));
        }
        j += 1;
        proof {
            let tail = resources@.skip(j - 1);
            assert(tail[0] == resources@[j - 1]);
            assert(tail.drop_first() =~= resources@.skip(j as int));
            if occupied {
                assert(surviving@ + spec_surviving_resources(resources@.skip(j as int), bots@)
                    =~= pre + spec_surviving_resources(tail, bots@));
            } else {
                assert(surviving@ + spec_surviving_resources(resources@.skip(j as int), bots@)
                    =~= pre + (seq![(p, res)] + spec_surviving_resources(
                    resources@.skip(j as int),
                    bots@,
                )));
                assert(pre + (seq![(p, res)] + spec_surviving_resources(
                    resources@.skip(j as int),
                    bots@,
                )) =~= pre + spec_surviving_resources(tail, bots@));
            }
        }
    }
    proof {
        assert(resources@.skip(m as int) =~= Seq::<(Position, Resource)>::empty());
        assert(surviving@ =~= spec_surviving_resources(resources@, bots@));
    }
    (fed, surviving)
}

/// The first resource of the list lying at `p`, if any.
fn resource_on_cell(resources: &Vec<(Position, Resource)>, p: Position) -> (r: Option<Resource>)
    ensures
        r == find_at(resources@, p),
{
    let n = resources.len();
    let mut i: usize = 0;
    while i < n
        invariant
            n == resources@.len(),
            i <= n,
            forall|k: int| 0 <= k < i ==> (#[trigger] resources@[k]).0 != p,
        decreases n - i,
    {
        let (q, res) = resources[i];
        if q.x == p.x && q.y == p.y {
            proof {
                crate::state::lemma_find_at_hit(resources@, p, i as int);
            }
            return Some(res);
        }
        i += 1;
    }
    proof {
        crate::state::lemma_find_at_miss(resources@, p);
    }
    None
}

/// Whether some bot of the list stands at `p`.
fn position_has_bot(bots: &Vec<(Position, Bot)>, p: Position) -> (r: bool)
    ensures
        r == has_bot_pos(bots@, p),
{
    let n = bots.len();
    let mut i: usize = 0;
    while i < n
        invariant
            n == bots@.len(),
            i <= n,
            forall|k: int| 0 <= k < i ==> (#[trigger] bots@[k]).0 != p,
        decreases n - i,
    {
        let (q, _) = bots[i];
        if q.x == p.x && q.y == p.y {
            proof {
                assert(bots@[i as int].0 == p);
            }
            return true;
        }
        i += 1;
    }
    false
}

/// One chainsaw hit on a defender attacked from direction `attack_dir`
/// (the way the attacker's chainsaw points).  An intact shield facing the
/// attacker absorbs the damage into its resistance; otherwise the damage
/// comes off the defender's energy.  Both counters clamp at zero.
pub open spec fn spec_damaged(defender: Bot, attack_dir: Direction) -> Bot {
    if defender.shield_resistance > 0 && defender.shield_direction == spec_opposite(attack_dir) {
        Bot {
            shield_resistance: spec_sat_sub(defender.shield_resistance, ATTACK_DAMAGE),
            ..defender
        }
    } else {
        Bot { energy: spec_sat_sub(defender.energy, ATTACK_DAMAGE), ..defender }
    }
}

/// One chainsaw hit on a defender.
pub fn damage_bot(defender: Bot, attack_dir: Direction) -> (r: Bot)
    ensures
        r == spec_damaged(defender, attack_dir),
{
    let facing = opposite_direction(&attack_dir);
    if defender.shield_resistance > 0 && defender.shield_direction == facing {
        Bot { shield_resistance: sat_sub(defender.shield_resistance, ATTACK_DAMAGE), ..defender }
    } else {
        Bot { energy: sat_sub(defender.energy, ATTACK_DAMAGE), ..defender }
    }
}

/// The index of the bot standing on the cell `(x, y)`, if any.
pub open spec fn spec_target_index(bots: Seq<(Position, Bot)>, x: int, y: int) -> Option<int> {
    if exists|j: int|
        0 <= j < bots.len() && (#[trigger] bots[j]).0.x as int == x && bots[j].0.y as int == y {
        Some(
            choose|j: int|
                0 <= j < bots.len() && (#[trigger] bots[j]).0.x as int == x && bots[j].0.y as int
                    == y,
        )
    } else {
        None
    }
}

/// The world after attacker `i` swings its chainsaw: the bot on the cell
/// the chainsaw points at, if there is one, takes one hit.
pub open spec fn spec_one_attack(bots: Seq<(Position, Bot)>, i: int) -> Seq<(Position, Bot)> {
    let p = bots[i].0;
    let b = bots[i].1;
    let t = spec_step(p, b.chainsaw_direction);
    match spec_target_index(bots, t.0, t.1) {
        None => bots,
        Some(j) => bots.update(j, (bots[j].0, spec_damaged(bots[j].1, b.chainsaw_direction))),
    }
}

/// The world after the first `k` attackers, in list order, have swung.
pub open spec fn spec_combat_upto(bots: Seq<(Position, Bot)>, k: int) -> Seq<(Position, Bot)>
    decreases k,
{
    if k <= 0 {
        bots
    } else {
        spec_one_attack(spec_combat_upto(bots, k - 1), k - 1)
    }
}

/// The world after every bot has swung its chainsaw once, in list order.
pub open spec fn spec_resolve_combat(bots: Seq<(Position, Bot)>) -> Seq<(Position, Bot)> {
    spec_combat_upto(bots, bots.len() as int)
}

/// Whether `b` is `a` after zero or more chainsaw hits: everything but
/// energy and shield resistance unchanged, and those two never grown.
pub open spec fn same_but_damage(a: (Position, Bot), b: (Position, Bot)) -> bool {
    &&& b.0 == a.0
    &&& b.1.color == a.1.color
    &&& b.1.chainsaw_direction == a.1.chainsaw_direction
    &&& b.1.shield_direction == a.1.shield_direction
    &&& b.1.tiredness == a.1.tiredness
    &&& b.1.energy <= a.1.energy
    &&& b.1.shield_resistance <= a.1.shield_resistance
}

/// Combat never moves, turns or tires a bot; it only takes energy or
/// shield resistance away.
pub proof fn lemma_combat_upto_preserves(bots: Seq<(Position, Bot)>, k: int)
    ensures
        spec_combat_upto(bots, k).len() == bots.len(),
        forall|i: int|
            0 <= i < bots.len() ==> same_but_damage(
                bots[i],
                #[trigger] spec_combat_upto(bots, k)[i],
            ),
    decreases k,
{
    if k > 0 {
        lemma_combat_upto_preserves(bots, k - 1);
        let prev = spec_combat_upto(bots, k - 1);
        let next = spec_one_attack(prev, k - 1);
        let p = prev[k - 1].0;
        let b = prev[k - 1].1;
        let t = spec_step(p, b.chainsaw_direction);
        match spec_target_index(prev, t.0, t.1) {
            None => {},
            Some(j) => {
                assert(next == prev.update(
                    j,
                    (prev[j].0, spec_damaged(prev[j].1, b.chainsaw_direction)),
                ));
            },
        }
    }
}

/// The index of the bot of the list standing at `q`, if any.
fn find_bot_index(bots: &Vec<(Position, Bot)>, q: Position) -> (r: Option<usize>)
    ensures
        r matches Some(j) ==> j < bots@.len() && bots@[j as int].0 == q,
        r is None ==> forall|k: int| 0 <= k < bots@.len() ==> (#[trigger] bots@[k]).0 != q,
{
    let n = bots.len();
    let mut i: usize = 0;
    while i < n
        invariant
            n == bots@.len(),
            i <= n,
            forall|k: int| 0 <= k < i ==> (#[trigger] bots@[k]).0 != q,
        decreases n - i,
    {
        let (p, _) = bots[i];
        if p.x == q.x && p.y == q.y {
            proof {
                assert(bots@[i as int].0 == q);
            }
            return Some(i);
        }
        i += 1;
    }
    None
}

/// An element-by-element copy of a bot list.
fn clone_bots(v: &Vec<(Position, Bot)>) -> (r: Vec<(Position, Bot)>)
    ensures
        r@ == v@,
{
    let mut r: Vec<(Position, Bot)> = Vec::new();
    let mut i: usize = 0;
    while i < v.len()
        invariant
            i <= v@.len(),
            r@ == v@.subrange(0, i as int),
        decreases v@.len() - i,
    {
        r.push(v[i]);
        i += 1;
        proof {
            assert(r@ =~= v@.subrange(0, i as int));
        }
    }
    proof {
        assert(r@ =~= v@);
    }
    r
}

/// Let every bot swing its chainsaw once, in list order: each hit lands on
/// the adjacent bot the chainsaw points at and is absorbed by an intact
/// facing shield or taken from the defender's energy.
pub fn resolve_combat(width: usize, height: usize, bots: &Vec<(Position, Bot)>) -> (r: Vec<
    (Position, Bot),
>)
    requires
        forall|i: int|
            0 <= i < bots@.len() ==> spec_in_bounds(
                (#[trigger] bots@[i]).0.x as int,
                bots@[i].0.y as int,
                width as int,
                height as int,
            ),
        forall|i: int, j: int|
            0 <= i < j < bots@.len() ==> (#[trigger] bots@[i]).0 != (#[trigger] bots@[j]).0,
    ensures
        r@ == spec_resolve_combat(bots@),
{
    let n = bots.len();
    let mut v = clone_bots(bots);
    let mut i: usize = 0;
    while i < n
        invariant
            n == bots@.len(),
            v@ == spec_combat_upto(bots@, i as int),
            i <= n,
            forall|k: int|
                0 <= k < n ==> spec_in_bounds(
                    (#[trigger] bots@[k]).0.x as int,
                    bots@[k].0.y as int,
                    width as int,
                    height as int,
                ),
            forall|k: int, l: int|
                0 <= k < l < n ==> (#[trigger] bots@[k]).0 != (#[trigger] bots@[l]).0,
        decreases n - i,
    {
        proof {
            lemma_combat_upto_preserves(bots@, i as int);
            assert(v@.len() == n);
        }
        let (p, b) = v[i];
        let ghost prev = v@;
        proof {
            assert(same_but_damage(bots@[i as int], prev[i as int]));
            assert(p == bots@[i as int].0);
        }
        match bounded_adjacent_position(width, height, p, b.chainsaw_direction) {
            None => {
                proof {
                    let t = spec_step(p, b.chainsaw_direction);
                    assert forall|j: int|
                        0 <= j < prev.len() && (#[trigger] prev[j]).0.x as int == t.0
                            && prev[j].0.y as int == t.1 implies false by {
                        assert(same_but_damage(bots@[j], prev[j]));
                    }
                    assert(spec_target_index(prev, t.0, t.1) is None);
                    assert(spec_one_attack(prev, i as int) == prev);
                }
            },
            Some(q) => {
                match find_bot_index(&v, q) {
                    None => {
                        proof {
                            let t = spec_step(p, b.chainsaw_direction);
                            assert forall|j: int|
                                0 <= j < prev.len() && (#[trigger] prev[j]).0.x as int == t.0
                                    && prev[j].0.y as int == t.1 implies false by {
                                assert(prev[j].0 == q);
                            }
                            assert(spec_target_index(prev, t.0, t.1) is None);
                            assert(spec_one_attack(prev, i as int) == prev);
                        }
                    },
                    Some(j) => {
                        let (dp, db) = v[j];
                        let hurt = damage_bot(db, b.chainsaw_direction);
                        v[j] = (dp, hurt);
                        proof {
                            let t = spec_step(p, b.chainsaw_direction);
                            assert(prev[j as int].0 == q);
                            assert(prev[j as int].0.x as int == t.0 && prev[j as int].0.y as int
                                == t.1);
                            let j2 = spec_target_index(prev, t.0, t.1)->Some_0;
                            assert(prev[j2].0.x as int == t.0 && prev[j2].0.y as int == t.1);
                            assert(prev[j2].0 == prev[j as int].0);
                            assert forall|a: int, c: int|
                                0 <= a < c < prev.len() implies (#[trigger] prev[a]).0 != (
                            #[trigger] prev[c]).0 by {
                                assert(same_but_damage(bots@[a], prev[a]));
                                assert(same_but_damage(bots@[c], prev[c]));
                            }
                            assert(j2 == j as int);
                            assert(v@ =~= spec_one_attack(prev, i as int));
                        }
                    },
                }
            },
        }
        i += 1;
    }
    v
}

/// One bot a tick later: tiredness grows by one, and on reaching the
/// threshold it costs one energy and starts over.
pub open spec fn spec_tire(b: Bot) -> Bot {
    if b.tiredness + 1 >= TIREDNESS_TO_LOSE_ENERGY {
        Bot { energy: spec_sat_sub(b.energy, 1), tiredness: 0, ..b }
    } else {
        Bot { tiredness: (b.tiredness + 1) as usize, ..b }
    }
}

/// All bots a tick more tired.
pub open spec fn spec_tire_bots(bots: Seq<(Position, Bot)>) -> Seq<(Position, Bot)> {
    Seq::new(bots.len(), |i: int| (bots[i].0, spec_tire(bots[i].1)))
}

/// Tire every bot by one tick; bots that do nothing still slowly starve.
pub fn apply_attrition(bots: &Vec<(Position, Bot)>) -> (r: Vec<(Position, Bot)>)
    requires
        forall|i: int| 0 <= i < bots@.len() ==> (#[trigger] bots@[i]).1.tiredness < usize::MAX,
    ensures
        r@ == spec_tire_bots(bots@),
{
    let n = bots.len();
    let mut r: Vec<(Position, Bot)> = Vec::new();
    let mut i: usize = 0;
    while i < n
        invariant
            n == bots@.len(),
            i <= n,
            r@.len() == i,
            forall|k: int| 0 <= k < n ==> (#[trigger] bots@[k]).1.tiredness < usize::MAX,
            forall|k: int| 0 <= k < i ==> #[trigger] r@[k] == (bots@[k].0, spec_tire(bots@[k].1)),
        decreases n - i,
    {
        let (p, b) = bots[i];
        let tired = if b.tiredness + 1 >= TIREDNESS_TO_LOSE_ENERGY {
            Bot { energy: sat_sub(b.energy, 1), tiredness: 0, ..b }
        } else {
            Bot { tiredness: b.tiredness + 1, ..b }
        };
        r.push((p, tired));
        i += 1;
    }
    proof {
        assert(r@ =~= spec_tire_bots(bots@));
    }
    r
}

/// The bots that are still alive: those with energy left.
pub open spec fn spec_live_bots(bots: Seq<(Position, Bot)>) -> Seq<(Position, Bot)>
    decreases bots.len(),
{
    if bots.len() == 0 {
        Seq::empty()
    } else {
        let rest = spec_live_bots(bots.drop_first());
        if bots[0].1.energy > 0 {
            seq![bots[0]] + rest
        } else {
            rest
        }
    }
}

/// What survives death: exactly the entries with energy left, in order.
pub proof fn lemma_live_bots(bots: Seq<(Position, Bot)>)
    ensures
        forall|e: (Position, Bot)|
            #[trigger] spec_live_bots(bots).contains(e) ==> bots.contains(e) && e.1.energy > 0,
        forall|e: (Position, Bot)|
            #[trigger] bots.contains(e) && e.1.energy > 0 ==> spec_live_bots(bots).contains(e),
        forall|i: int|
            0 <= i < spec_live_bots(bots).len() ==> (#[trigger] spec_live_bots(
                bots,
            )[i]).1.energy > 0,
        spec_live_bots(bots).len() <= bots.len(),
    decreases bots.len(),
{
    if bots.len() > 0 {
        lemma_live_bots(bots.drop_first());
        let s = spec_live_bots(bots);
        let rest = spec_live_bots(bots.drop_first());
        assert forall|e: (Position, Bot)| #[trigger] s.contains(e) implies bots.contains(e)
            && e.1.energy > 0 by {
            let i = choose|i: int| 0 <= i < s.len() && s[i] == e;
            if bots[0].1.energy > 0 {
                if i == 0 {
                    assert(bots[0] == e);
                } else {
                    assert(rest[i - 1] == e);
                    assert(rest.contains(e));
                    let k = choose|k: int|
                        0 <= k < bots.drop_first().len() && bots.drop_first()[k] == e;
                    assert(bots[k + 1] == e);
                }
            } else {
                assert(rest[i] == e);
                assert(rest.contains(e));
                let k = choose|k: int| 0 <= k < bots.drop_first().len() && bots.drop_first()[k] == e;
                assert(bots[k + 1] == e);
            }
        }
        assert forall|e: (Position, Bot)| #[trigger] bots.contains(e) && e.1.energy > 0 implies s
            .contains(e) by {
            let i = choose|i: int| 0 <= i < bots.len() && bots[i] == e;
            if i == 0 {
                assert(s[0] == e);
            } else {
                assert(bots.drop_first()[i - 1] == e);
                assert(bots.drop_first().contains(e));
                assert(rest.contains(e));
                let k = choose|k: int| 0 <= k < rest.len() && rest[k] == e;
                if bots[0].1.energy > 0 {
                    assert(s[k + 1] == e);
                } else {
                    assert(s[k] == e);
                }
            }
        }
        assert forall|i: int| 0 <= i < s.len() implies (#[trigger] s[i]).1.energy > 0 by {
            if bots[0].1.energy > 0 {
                if i > 0 {
                    assert(s[i] == rest[i - 1]);
                }
            } else {
                assert(s[i] == rest[i]);
            }
        }
    }
}

/// Live bots keep pairwise different cells when the originals had them.
pub proof fn lemma_live_bots_distinct(bots: Seq<(Position, Bot)>)
    requires
        forall|i: int, j: int|
            0 <= i < j < bots.len() ==> (#[trigger] bots[i]).0 != (#[trigger] bots[j]).0,
    ensures
        forall|i: int, j: int|
            0 <= i < j < spec_live_bots(bots).len() ==> (#[trigger] spec_live_bots(bots)[i]).0 != (
            #[trigger] spec_live_bots(bots)[j]).0,
    decreases bots.len(),
{
    if bots.len() > 0 {
        let rest = bots.drop_first();
        assert forall|i: int, j: int|
            0 <= i < j < rest.len() implies (#[trigger] rest[i]).0 != (#[trigger] rest[j]).0 by {
            assert(rest[i] == bots[i + 1]);
            assert(rest[j] == bots[j + 1]);
        }
        lemma_live_bots_distinct(rest);
        lemma_live_bots(rest);
        let s = spec_live_bots(bots);
        let srest = spec_live_bots(rest);
        if bots[0].1.energy > 0 {
            assert forall|i: int, j: int|
                0 <= i < j < s.len() implies (#[trigger] s[i]).0 != (#[trigger] s[j]).0 by {
                if i == 0 {
                    assert(s[j] == srest[j - 1]);
                    assert(srest.contains(srest[j - 1]));
                    assert(rest.contains(srest[j - 1]));
                    let k = choose|k: int| 0 <= k < rest.len() && rest[k] == srest[j - 1];
                    assert(bots[k + 1] == rest[k]);
                } else {
                    assert(s[i] == srest[i - 1]);
                    assert(s[j] == srest[j - 1]);
                }
            }
        }
    }
}

/// Remove every bot whose energy has run out.
pub fn remove_dead_bots(bots: &Vec<(Position, Bot)>) -> (r: Vec<(Position, Bot)>)
    ensures
        r@ == spec_live_bots(bots@),
{
    let n = bots.len();
    let mut r: Vec<(Position, Bot)> = Vec::new();
    let mut i: usize = 0;
    proof {
        assert(bots@.skip(0) =~= bots@);
        assert(r@ + spec_live_bots(bots@) =~= spec_live_bots(bots@));
    }
    while i < n
        invariant
            n == bots@.len(),
            i <= n,
            spec_live_bots(bots@) == r@ + spec_live_bots(bots@.skip(i as int)),
        decreases n - i,
    {
        let (p, b) = bots[i];
        let ghost pre = r@;
        if b.energy > 0 {
            r.push((p, b));
        }
        i += 1;
        proof {
            let tail = bots@.skip(i - 1);
            assert(tail[0] == bots@[i - 1]);
            assert(tail.drop_first() =~= bots@.skip(i as int));
            if b.energy > 0 {
                assert(r@ + spec_live_bots(bots@.skip(i as int)) =~= pre + (seq![(p, b)]
                    + spec_live_bots(bots@.skip(i as int))));
                assert(pre + (seq![(p, b)] + spec_live_bots(bots@.skip(i as int))) =~= pre
                    + spec_live_bots(tail));
            } else {
                assert(r@ + spec_live_bots(bots@.skip(i as int)) =~= pre + spec_live_bots(tail));
            }
        }
    }
    proof {
        assert(bots@.skip(n as int) =~= Seq::<(Position, Bot)>::empty());
        assert(r@ =~= spec_live_bots(bots@));
    }
    r
}

/// Resolve one tick, given every bot's collected intent: rotations, then
/// movement conflict resolution, then resource collection, then combat,
/// then attrition, then death.  Resource spawning is separate, since it
/// draws on chance.  The result is well formed and holds no dead bot.
pub fn resolve_tick(state: &GameState, intents: &Vec<Actuators>) -> (r: GameState)
    requires
        state.wf(),
        intents@.len() == state.bots@.len(),
    ensures
        r.map_width == state.map_width,
        r.map_height == state.map_height,
        ({
            let moved = spec_resolve_movement(
                state.map_width,
                state.map_height,
                spec_apply_rotations(state.bots@, intents@),
                intents@,
            );
            &&& r.bots@ == spec_live_bots(
                spec_tire_bots(spec_resolve_combat(spec_collect_bots(state.resources@, moved))),
            )
            &&& r.resources@ == spec_surviving_resources(state.resources@, moved)
        }),
        r.wf(),
        forall|i: int| 0 <= i < r.bots@.len() ==> (#[trigger] r.bots@[i]).1.energy > 0,
        r.bots@.len() <= state.bots@.len(),
{
    let w = state.map_width;
    let h = state.map_height;
    let rotated = apply_rotations(&state.bots, intents);
    proof {
        assert forall|i: int| 0 <= i < rotated@.len() implies (#[trigger] rotated@[i]).0
            == state.bots@[i].0 by {}
        assert forall|i: int, j: int|
            0 <= i < j < rotated@.len() implies (#[trigger] rotated@[i]).0 != (
        #[trigger] rotated@[j]).0 by {
            assert(state.bots@[i].0 != state.bots@[j].0);
        }
        assert forall|i: int|
            0 <= i < rotated@.len() implies spec_in_bounds(
            (#[trigger] rotated@[i]).0.x as int,
            rotated@[i].0.y as int,
            w as int,
            h as int,
        ) by {
            assert(state.spec_in_bounds(state.bots@[i].0));
        }
    }
    let moved = resolve_movement(w, h, &rotated, intents);
    let (fed, surviving) = collect_resources(&moved, &state.resources);
    proof {
        assert(fed@.len() == moved@.len());
        assert forall|i: int|
            0 <= i < fed@.len() implies (#[trigger] fed@[i]).0 == moved@[i].0 && fed@[i].1.tiredness
            == moved@[i].1.tiredness && fed@[i].1.chainsaw_direction
            == moved@[i].1.chainsaw_direction by {}
        assert forall|i: int, j: int|
            0 <= i < j < fed@.len() implies (#[trigger] fed@[i]).0 != (#[trigger] fed@[j]).0 by {
            assert(moved@[i].0 != moved@[j].0);
        }
        assert forall|i: int|
            0 <= i < fed@.len() implies spec_in_bounds(
            (#[trigger] fed@[i]).0.x as int,
            fed@[i].0.y as int,
            w as int,
            h as int,
        ) by {
            assert(spec_in_bounds(moved@[i].0.x as int, moved@[i].0.y as int, w as int, h as int));
        }
    }
    let fought = resolve_combat(w, h, &fed);
    proof {
        lemma_combat_upto_preserves(fed@, fed@.len() as int);
        assert forall|i: int|
            0 <= i < fought@.len() implies (#[trigger] fought@[i]).1.tiredness < usize::MAX by {
            assert(same_but_damage(fed@[i], fought@[i]));
            assert(moved@[i].1.tiredness == state.bots@[i].1.tiredness);
            assert(state.bots@[i].1.wf());
        }
    }
    let tired = apply_attrition(&fought);
    let live = remove_dead_bots(&tired);
    proof {
        lemma_live_bots(tired@);
        lemma_live_bots_distinct(tired@);
        // each surviving stage keeps cells, bounds and tiredness in order
        assert forall|k: int|
            0 <= k < tired@.len() implies spec_in_bounds(
            (#[trigger] tired@[k]).0.x as int,
            tired@[k].0.y as int,
            w as int,
            h as int,
        ) && tired@[k].1.wf() && tired@[k].0 == moved@[k].0 by {
            assert(same_but_damage(fed@[k], fought@[k]));
            assert(tired@[k] == (fought@[k].0, spec_tire(fought@[k].1)));
        }
        assert forall|k: int, l: int|
            0 <= k < l < tired@.len() implies (#[trigger] tired@[k]).0 != (
        #[trigger] tired@[l]).0 by {
            assert(moved@[k].0 != moved@[l].0);
        }
        // live bots: in bounds, well formed, distinct
        assert forall|k: int|
            0 <= k < live@.len() implies spec_in_bounds(
            (#[trigger] live@[k]).0.x as int,
            live@[k].0.y as int,
            w as int,
            h as int,
        ) && live@[k].1.wf() by {
            assert(live@.contains(live@[k]));
            assert(tired@.contains(live@[k]));
            let j = choose|j: int| 0 <= j < tired@.len() && tired@[j] == live@[k];
            assert(spec_in_bounds(tired@[j].0.x as int, tired@[j].0.y as int, w as int, h as int));
        }
        // surviving resources: a subset of the old ones, on bot-free cells
        lemma_surviving_resources(state.resources@, moved@);
        lemma_surviving_resources_distinct(state.resources@, moved@);
        assert forall|k: int|
            0 <= k < surviving@.len() implies spec_in_bounds(
            (#[trigger] surviving@[k]).0.x as int,
            surviving@[k].0.y as int,
            w as int,
            h as int,
        ) && surviving@[k].1.wf() by {
            assert(surviving@.contains(surviving@[k]));
            assert(state.resources@.contains(surviving@[k]));
            let j = choose|j: int|
                0 <= j < state.resources@.len() && state.resources@[j] == surviving@[k];
            assert(state.spec_in_bounds(state.resources@[j].0));
        }
        // no live bot shares a cell with a surviving resource
        assert forall|k: int, l: int|
            0 <= k < live@.len() && 0 <= l < surviving@.len() implies (#[trigger] live@[k]).0 != (
        #[trigger] surviving@[l]).0 by {
            assert(live@.contains(live@[k]));
            assert(tired@.contains(live@[k]));
            let j = choose|j: int| 0 <= j < tired@.len() && tired@[j] == live@[k];
            assert(tired@[j].0 == moved@[j].0);
            assert(has_bot_pos(moved@, live@[k].0));
            assert(surviving@.contains(surviving@[l]));
        }
    }
    GameState { map_width: w, map_height: h, bots: live, resources: surviving }
}

/// Add up to the configured number of fresh resources on empty random
/// cells, each with a random gain within the configured bounds, while the
/// population stays under its cap.  The bots and the resources already on
/// the board are untouched.
pub fn spawn_resources(state: &mut GameState)
    requires
        old(state).wf(),
        old(state).map_width > 0,
        old(state).map_height > 0,
    ensures
        final(state).wf(),
        final(state).map_width == old(state).map_width,
        final(state).map_height == old(state).map_height,
        final(state).bots == old(state).bots,
        final(state).resources@.len() >= old(state).resources@.len(),
        final(state).resources@.subrange(0, old(state).resources@.len() as int)
            == old(state).resources@,
        final(state).resources@.len() <= old(state).resources@.len()
            || final(state).resources@.len() <= MAX_RESOURCES,
        final(state).resources@.len() <= old(state).resources@.len()
            + AVERAGE_RESOURCE_GENERATION_PER_TICK,
        old(state).bots@.len() == 0 && old(state).resources@.len() == 0
            ==> final(state).resources@.len() > 0,
{
    let ghost old_res = old(state).resources@;
    let mut added: usize = 0;
    proof {
        assert(state.resources@.subrange(0, old_res.len() as int) =~= old_res);
    }
    while added < AVERAGE_RESOURCE_GENERATION_PER_TICK
        invariant
            state.wf(),
            state.map_width == old(state).map_width,
            state.map_height == old(state).map_height,
            state.map_width > 0,
            state.map_height > 0,
            state.bots == old(state).bots,
            old_res == old(state).resources@,
            state.resources@.len() >= old_res.len(),
            state.resources@.subrange(0, old_res.len() as int) == old_res,
            state.resources@.len() <= old_res.len() || state.resources@.len() <= MAX_RESOURCES,
            added <= AVERAGE_RESOURCE_GENERATION_PER_TICK,
            state.resources@.len() <= old_res.len() + added,
            old(state).bots@.len() == 0 && old_res.len() == 0 && added >= 1
                ==> state.resources@.len() >= 1,
        decreases AVERAGE_RESOURCE_GENERATION_PER_TICK - added,
    {
        if state.resources.len() < MAX_RESOURCES {
            let x = random_below(state.map_width);
            let y = random_below(state.map_height);
            let p = Position { x, y };
            let bot_here = position_has_bot(&state.bots, p);
            let resource_here = resource_on_cell(&state.resources, p);
            if !bot_here && resource_here.is_none() {
                let gain = RESOURCE_MIN_ENERGY_GAIN + random_below(
                    RESOURCE_MAX_ENERGY_GAIN - RESOURCE_MIN_ENERGY_GAIN + 1,
                );
                let ghost pre = state.resources@;
                state.resources.push((p, Resource { energy_gain: gain }));
                proof {
                    crate::state::lemma_find_at_some(pre, p);
                    assert forall|i: int, j: int|
                        0 <= i < j < state.resources@.len() implies (
                    #[trigger] state.resources@[i]).0 != (#[trigger] state.resources@[j]).0 by {
                        if j == state.resources@.len() - 1 {
                            assert(state.resources@[i] == pre[i]);
                        } else {
                            assert(state.resources@[i] == pre[i]);
                            assert(state.resources@[j] == pre[j]);
                        }
                    }
                    assert forall|i: int, j: int|
                        0 <= i < state.bots@.len() && 0 <= j < state.resources@.len() implies (
                    #[trigger] state.bots@[i]).0 != (#[trigger] state.resources@[j]).0 by {
                        if j < pre.len() {
                            assert(state.resources@[j] == pre[j]);
                        } else {
                            assert(state.resources@[j].0 == p);
                        }
                    }
                    assert(state.resources@.subrange(0, old_res.len() as int) =~= pre.subrange(
                        0,
                        old_res.len() as int,
                    ));
                }
            }
        }
        added += 1;
    }
}

/// Shield absorption law: an attack on a bot whose intact shield faces the
/// attacker is absorbed entirely by shield resistance, clamped at zero,
/// with energy untouched; once the shield is destroyed, an attack takes
/// the full damage from energy instead.
pub proof fn lemma_shield_absorption(defender: Bot, attack_dir: Direction)
    ensures
        defender.shield_resistance > 0 && defender.shield_direction == spec_opposite(attack_dir)
            ==> spec_damaged(defender, attack_dir).energy == defender.energy && spec_damaged(
            defender,
            attack_dir,
        ).shield_resistance == spec_sat_sub(defender.shield_resistance, ATTACK_DAMAGE),
        defender.shield_resistance == 0 ==> spec_damaged(defender, attack_dir).energy
            == spec_sat_sub(defender.energy, ATTACK_DAMAGE) && spec_damaged(
            defender,
            attack_dir,
        ).shield_resistance == 0,
{
}

/// Combat leaves a bot alone when no bot's chainsaw points at its cell.
pub proof fn lemma_combat_spares_unattacked(bots: Seq<(Position, Bot)>, i: int, k: int)
    requires
        0 <= i < bots.len(),
        k <= bots.len(),
        forall|j: int|
            0 <= j < bots.len() ==> spec_step(
                (#[trigger] bots[j]).0,
                bots[j].1.chainsaw_direction,
            ) != (bots[i].0.x as int, bots[i].0.y as int),
    ensures
        spec_combat_upto(bots, k)[i] == bots[i],
    decreases k,
{
    if k > 0 {
        lemma_combat_spares_unattacked(bots, i, k - 1);
        lemma_combat_upto_preserves(bots, k - 1);
        let prev = spec_combat_upto(bots, k - 1);
        let p = prev[k - 1].0;
        let b = prev[k - 1].1;
        let t = spec_step(p, b.chainsaw_direction);
        assert(same_but_damage(bots[k - 1], prev[k - 1]));
        assert(t == spec_step(bots[k - 1].0, bots[k - 1].1.chainsaw_direction));
        match spec_target_index(prev, t.0, t.1) {
            None => {},
            Some(j) => {
                assert(prev[j].0.x as int == t.0 && prev[j].0.y as int == t.1);
                assert(same_but_damage(bots[j], prev[j]));
                assert(j != i);
            },
        }
    }
}

/// Energy monotonicity law: over the combat-and-bookkeeping half of a
/// tick, a bot that no chainsaw points at changes energy only by eating a
/// resource on its cell (adding the resource's gain) or by reaching the
/// tiredness threshold (losing exactly one); combat itself leaves it
/// untouched.
pub proof fn lemma_energy_monotonic(
    resources: Seq<(Position, Resource)>,
    moved: Seq<(Position, Bot)>,
    i: int,
)
    requires
        0 <= i < moved.len(),
        forall|j: int|
            0 <= j < moved.len() ==> spec_step(
                (#[trigger] moved[j]).0,
                moved[j].1.chainsaw_direction,
            ) != (moved[i].0.x as int, moved[i].0.y as int),
    ensures
        ({
            let fed = spec_collect_bots(resources, moved);
            let fought = spec_resolve_combat(fed);
            let tired = spec_tire_bots(fought);
            &&& (find_at(resources, moved[i].0) is None ==> fed[i].1.energy == moved[i].1.energy)
            &&& (find_at(resources, moved[i].0) matches Some(res) ==> fed[i].1.energy
                == spec_sat_add(moved[i].1.energy, res.energy_gain))
            &&& fought[i] == fed[i]
            &&& (moved[i].1.tiredness + 1 < TIREDNESS_TO_LOSE_ENERGY ==> tired[i].1.energy
                == fought[i].1.energy)
            &&& (moved[i].1.tiredness + 1 >= TIREDNESS_TO_LOSE_ENERGY ==> tired[i].1.energy
                == spec_sat_sub(fought[i].1.energy, 1))
        }),
{
    let fed = spec_collect_bots(resources, moved);
    assert forall|j: int|
        0 <= j < fed.len() implies spec_step((#[trigger] fed[j]).0, fed[j].1.chainsaw_direction)
        != (fed[i].0.x as int, fed[i].0.y as int) by {
        assert(fed[j].0 == moved[j].0 && fed[j].1.chainsaw_direction
            == moved[j].1.chainsaw_direction);
        assert(fed[i].0 == moved[i].0);
    }
    lemma_combat_upto_preserves(fed, fed.len() as int);
    lemma_combat_spares_unattacked(fed, i, fed.len() as int);
    assert(fed[i].1.tiredness == moved[i].1.tiredness);
    let fought = spec_resolve_combat(fed);
    let tired = spec_tire_bots(fought);
    assert(fought.len() == moved.len());
    assert(tired[i] == (fought[i].0, spec_tire(fought[i].1)));
}

} // verus!
