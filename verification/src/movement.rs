//! Movement conflict resolution.
//!
//! Every bot's requested destination is collected before any move is
//! committed.  A request is a candidate only if its destination is in
//! bounds and no other bot requests the same cell; a candidate is granted
//! only once the occupant of its destination, if any, has itself been
//! granted a move away.  Grants are computed by iterating that rule from
//! "nobody moves", so a cycle of bots waiting on one another — two bots
//! swapping places, for instance — stays put, and the bot-to-cell mapping
//! stays injective.

use vstd::prelude::*;
use crate::actuators::Actuators;
use crate::bot::Bot;
use crate::spatial::{bounded_adjacent_position, spec_in_bounds, spec_step, steps_to};
use crate::path::spec_step_pos;
use crate::state::Position;

verus! {

/// The in-bounds destination a bot at `pos` with intent `a` asks to move
/// to, if any; a request leaving the map counts as no request.
pub open spec fn spec_move_dest(w: usize, h: usize, pos: Position, a: Actuators) -> Option<
    Position,
> {
    match a.move_bot {
        None => None,
        Some(d) => if spec_in_bounds(spec_step(pos, d).0, spec_step(pos, d).1, w as int, h as int) {
            Some(spec_step_pos(pos, d))
        } else {
            None
        },
    }
}

/// The requested destinations of all bots.
pub open spec fn spec_dests(
    w: usize,
    h: usize,
    bots: Seq<(Position, Bot)>,
    intents: Seq<Actuators>,
) -> Seq<Option<Position>> {
    Seq::new(bots.len(), |i: int| spec_move_dest(w, h, bots[i].0, intents[i]))
}

/// The cells the bots stand on.
pub open spec fn spec_positions(bots: Seq<(Position, Bot)>) -> Seq<Position> {
    Seq::new(bots.len(), |i: int| bots[i].0)
}

/// A request that may move at all: it has an in-bounds destination that no
/// other bot also requests.
pub open spec fn spec_candidate(ds: Seq<Option<Position>>, i: int) -> bool {
    ds[i] is Some && forall|j: int| 0 <= j < ds.len() && j != i ==> (#[trigger] ds[j]) != ds[i]
}

/// One grant rule application: a candidate is granted when every bot
/// standing on its destination already holds a grant in `g`.
pub open spec fn spec_grant_step_ok(
    pos: Seq<Position>,
    ds: Seq<Option<Position>>,
    g: Seq<bool>,
    i: int,
) -> bool {
    spec_candidate(ds, i) && forall|j: int|
        0 <= j < pos.len() && (#[trigger] pos[j]) == ds[i]->Some_0 ==> g[j]
}

/// `k` synchronous applications of the grant rule, starting from "nobody
/// moves".
pub open spec fn spec_grants(pos: Seq<Position>, ds: Seq<Option<Position>>, k: nat) -> Seq<bool>
    decreases k,
{
    if k == 0 {
        Seq::new(ds.len(), |i: int| false)
    } else {
        let g = spec_grants(pos, ds, (k - 1) as nat);
        Seq::new(ds.len(), |i: int| spec_grant_step_ok(pos, ds, g, i))
    }
}

/// The granted moves: the grant rule iterated once per bot, which reaches
/// the least fixed point.
pub open spec fn spec_granted(pos: Seq<Position>, ds: Seq<Option<Position>>) -> Seq<bool> {
    spec_grants(pos, ds, pos.len() as nat)
}

/// The bots after movement: a granted bot stands on its destination,
/// every other bot stays where it was; nothing else changes.
pub open spec fn spec_resolve_movement(
    w: usize,
    h: usize,
    bots: Seq<(Position, Bot)>,
    intents: Seq<Actuators>,
) -> Seq<(Position, Bot)> {
    let ds = spec_dests(w, h, bots, intents);
    let g = spec_granted(spec_positions(bots), ds);
    Seq::new(
        bots.len(),
        |i: int|
            (
                if g[i] {
                    ds[i]->Some_0
                } else {
                    bots[i].0
                },
                bots[i].1,
            ),
    )
}

/// Grants only grow as the rule is iterated.
pub proof fn lemma_grants_monotone(pos: Seq<Position>, ds: Seq<Option<Position>>, k: nat)
    requires
        pos.len() == ds.len(),
    ensures
        forall|i: int|
            0 <= i < ds.len() && spec_grants(pos, ds, k)[i] ==> spec_grants(pos, ds, k + 1)[i],
    decreases k,
{
    if k > 0 {
        lemma_grants_monotone(pos, ds, (k - 1) as nat);
        let gp = spec_grants(pos, ds, (k - 1) as nat);
        let gk = spec_grants(pos, ds, k);
        assert forall|i: int| 0 <= i < ds.len() && gk[i] implies spec_grants(pos, ds, k + 1)[i] by {
            assert(spec_grant_step_ok(pos, ds, gp, i));
            assert forall|j: int|
                0 <= j < pos.len() && (#[trigger] pos[j]) == ds[i]->Some_0 implies gk[j] by {
                assert(gp[j]);
            }
            assert(spec_grant_step_ok(pos, ds, gk, i));
        }
    }
}

/// Grants at an earlier iteration hold at any later one.
pub proof fn lemma_grants_monotone_upto(pos: Seq<Position>, ds: Seq<Option<Position>>, k1: nat, k2: nat)
    requires
        pos.len() == ds.len(),
        k1 <= k2,
    ensures
        forall|i: int|
            0 <= i < ds.len() && spec_grants(pos, ds, k1)[i] ==> spec_grants(pos, ds, k2)[i],
    decreases k2 - k1,
{
    if k1 < k2 {
        lemma_grants_monotone(pos, ds, k1);
        lemma_grants_monotone_upto(pos, ds, (k1 + 1) as nat, k2);
    }
}

/// A granted bot is a candidate, and every bot on its destination is
/// granted too.
pub proof fn lemma_grants_sound(pos: Seq<Position>, ds: Seq<Option<Position>>, k: nat, i: int)
    requires
        pos.len() == ds.len(),
        0 <= i < ds.len(),
        spec_grants(pos, ds, k)[i],
    ensures
        spec_candidate(ds, i),
        forall|j: int|
            0 <= j < pos.len() && (#[trigger] pos[j]) == ds[i]->Some_0 ==> spec_grants(
                pos,
                ds,
                k,
            )[j],
{
    assert(k > 0);
    let gp = spec_grants(pos, ds, (k - 1) as nat);
    assert(spec_grant_step_ok(pos, ds, gp, i));
    lemma_grants_monotone_upto(pos, ds, (k - 1) as nat, k);
}

/// Two bots asking to swap cells both stay put, at every iteration.
pub proof fn lemma_swap_blocked(
    pos: Seq<Position>,
    ds: Seq<Option<Position>>,
    k: nat,
    i: int,
    j: int,
)
    requires
        pos.len() == ds.len(),
        0 <= i < ds.len(),
        0 <= j < ds.len(),
        ds[i] == Some(pos[j]),
        ds[j] == Some(pos[i]),
    ensures
        !spec_grants(pos, ds, k)[i],
        !spec_grants(pos, ds, k)[j],
    decreases k,
{
    if k > 0 {
        lemma_swap_blocked(pos, ds, (k - 1) as nat, i, j);
        let gp = spec_grants(pos, ds, (k - 1) as nat);
        if spec_grants(pos, ds, k)[i] {
            assert(spec_grant_step_ok(pos, ds, gp, i));
            assert(pos[j] == ds[i]->Some_0);
            assert(gp[j]);
        }
        if spec_grants(pos, ds, k)[j] {
            assert(spec_grant_step_ok(pos, ds, gp, j));
            assert(pos[i] == ds[j]->Some_0);
            assert(gp[i]);
        }
    }
}

/// Two bots asking for the same destination cell both keep their cells —
/// stated over the movement spec itself, so it lifts to the tick relation.
pub proof fn lemma_conflict_keeps_cells(
    w: usize,
    h: usize,
    bots: Seq<(Position, Bot)>,
    intents: Seq<Actuators>,
    i: int,
    j: int,
)
    requires
        intents.len() == bots.len(),
        0 <= i < bots.len(),
        0 <= j < bots.len(),
        i != j,
        spec_dests(w, h, bots, intents)[i] is Some,
        spec_dests(w, h, bots, intents)[i] == spec_dests(w, h, bots, intents)[j],
    ensures
        spec_resolve_movement(w, h, bots, intents)[i].0 == bots[i].0,
        spec_resolve_movement(w, h, bots, intents)[j].0 == bots[j].0,
{
    let ds = spec_dests(w, h, bots, intents);
    let pos = spec_positions(bots);
    assert(!spec_candidate(ds, i));
    assert(!spec_candidate(ds, j));
    if spec_granted(pos, ds)[i] {
        lemma_grants_sound(pos, ds, pos.len() as nat, i);
    }
    if spec_granted(pos, ds)[j] {
        lemma_grants_sound(pos, ds, pos.len() as nat, j);
    }
}

/// A candidate whose destination cell is free is granted.
pub proof fn lemma_move_into_free(pos: Seq<Position>, ds: Seq<Option<Position>>, i: int)
    requires
        pos.len() == ds.len(),
        0 <= i < ds.len(),
        spec_candidate(ds, i),
        forall|j: int| 0 <= j < pos.len() ==> (#[trigger] pos[j]) != ds[i]->Some_0,
    ensures
        spec_granted(pos, ds)[i],
{
    assert(spec_grant_step_ok(pos, ds, spec_grants(pos, ds, 0), i));
    assert(spec_grants(pos, ds, 1)[i]);
    lemma_grants_monotone_upto(pos, ds, 1, pos.len() as nat);
}

/// Compare two optional destinations.
fn eq_opt_pos(a: &Option<Position>, b: &Option<Position>) -> (r: bool)
    ensures
        r == (a == b),
{
    match (a, b) {
        (None, None) => true,
        (Some(p), Some(q)) => p.x == q.x && p.y == q.y,
        _ => false,
    }
}

/// Collect every bot's requested in-bounds destination.
fn compute_dests(
    width: usize,
    height: usize,
    bots: &Vec<(Position, Bot)>,
    intents: &Vec<Actuators>,
) -> (r: Vec<Option<Position>>)
    requires
        intents@.len() == bots@.len(),
        forall|i: int|
            0 <= i < bots@.len() ==> spec_in_bounds(
                (#[trigger] bots@[i]).0.x as int,
                bots@[i].0.y as int,
                width as int,
                height as int,
            ),
    ensures
        r@ == spec_dests(width, height, bots@, intents@),
{
    let n = bots.len();
    let mut r: Vec<Option<Position>> = Vec::new();
    let mut i: usize = 0;
    while i < n
        invariant
            n == bots@.len(),
            intents@.len() == n,
            i <= n,
            r@.len() == i,
            forall|k: int|
                0 <= k < i ==> r@[k] == spec_move_dest(
                    width,
                    height,
                    (#[trigger] bots@[k]).0,
                    intents@[k],
                ),
            forall|k: int|
                0 <= k < n ==> spec_in_bounds(
                    (#[trigger] bots@[k]).0.x as int,
                    bots@[k].0.y as int,
                    width as int,
                    height as int,
                ),
        decreases n - i,
    {
        let (p, _) = bots[i];
        let dest: Option<Position> = match intents[i].move_bot {
            None => None,
            Some(d) => {
                let q = bounded_adjacent_position(width, height, p, d);
                proof {
                    match q {
                        Some(qq) => {
                            assert(qq == spec_step_pos(p, d));
                        },
                        None => {},
                    }
                }
                q
            },
        };
        r.push(dest);
        i += 1;
    }
    proof {
        assert(r@ =~= spec_dests(width, height, bots@, intents@));
    }
    r
}

/// Mark every request whose destination no other bot also asks for.
fn compute_candidates(dests: &Vec<Option<Position>>) -> (r: Vec<bool>)
    ensures
        r@.len() == dests@.len(),
        forall|i: int| 0 <= i < dests@.len() ==> r@[i] == spec_candidate(dests@, i),
{
    let n = dests.len();
    let mut r: Vec<bool> = Vec::new();
    let mut i: usize = 0;
    while i < n
        invariant
            n == dests@.len(),
            i <= n,
            r@.len() == i,
            forall|k: int| 0 <= k < i ==> r@[k] == spec_candidate(dests@, k),
        decreases n - i,
    {
        let mut unique: bool = true;
        let mut j: usize = 0;
        while j < n
            invariant
                n == dests@.len(),
                i < n,
                j <= n,
                unique == (forall|k: int|
                    0 <= k < j && k != i ==> (#[trigger] dests@[k]) != dests@[i as int]),
            decreases n - j,
        {
            if j != i {
                if eq_opt_pos(&dests[j], &dests[i]) {
                    unique = false;
                }
            }
            j += 1;
        }
        let cand = dests[i].is_some() && unique;
        r.push(cand);
        i += 1;
    }
    r
}

/// Iterate the grant rule once per bot, starting from "nobody moves".
fn compute_grants(
    bots: &Vec<(Position, Bot)>,
    dests: &Vec<Option<Position>>,
    cand: &Vec<bool>,
) -> (r: Vec<bool>)
    requires
        dests@.len() == bots@.len(),
        cand@.len() == bots@.len(),
        forall|i: int| 0 <= i < dests@.len() ==> cand@[i] == spec_candidate(dests@, i),
    ensures
        r@ == spec_granted(spec_positions(bots@), dests@),
{
    let ghost pos = spec_positions(bots@);
    let n = bots.len();
    let mut g: Vec<bool> = vec![false; n];
    proof {
        assert(g@ =~= spec_grants(pos, dests@, 0));
    }
    let mut round: usize = 0;
    while round < n
        invariant
            n == bots@.len(),
            dests@.len() == n,
            cand@.len() == n,
            pos == spec_positions(bots@),
            forall|i: int| 0 <= i < n ==> cand@[i] == spec_candidate(dests@, i),
            round <= n,
            g@ == spec_grants(pos, dests@, round as nat),
            g@.len() == n,
        decreases n - round,
    {
        let mut g2: Vec<bool> = Vec::new();
        let mut i: usize = 0;
        while i < n
            invariant
                n == bots@.len(),
                dests@.len() == n,
                cand@.len() == n,
                g@.len() == n,
                pos == spec_positions(bots@),
                forall|k: int| 0 <= k < n ==> cand@[k] == spec_candidate(dests@, k),
                i <= n,
                g2@.len() == i,
                forall|k: int| 0 <= k < i ==> g2@[k] == spec_grant_step_ok(pos, dests@, g@, k),
            decreases n - i,
        {
            let mut ok = cand[i];
            if ok {
                if let Some(q) = dests[i] {
                    let mut j: usize = 0;
                    while j < n
                        invariant
                            n == bots@.len(),
                            g@.len() == n,
                            pos == spec_positions(bots@),
                            i < n,
                            j <= n,
                            q == dests@[i as int]->Some_0,
                            ok == (forall|k: int|
                                0 <= k < j && (#[trigger] pos[k]) == q ==> g@[k]),
                        decreases n - j,
                    {
                        let (bp, _) = bots[j];
                        proof {
                            assert(pos[j as int] == bp);
                        }
                        if bp.x == q.x && bp.y == q.y && !g[j] {
                            ok = false;
                        }
                        j += 1;
                    }
                    proof {
                        assert(spec_candidate(dests@, i as int));
                        assert(ok == spec_grant_step_ok(pos, dests@, g@, i as int));
                    }
                } else {
                    proof {
                        assert(false);
                    }
                }
            } else {
                proof {
                    assert(!spec_grant_step_ok(pos, dests@, g@, i as int));
                }
            }
            g2.push(ok);
            i += 1;
        }
        g = g2;
        round += 1;
        proof {
            assert(g@ =~= spec_grants(pos, dests@, round as nat));
        }
    }
    g
}

/// Resolve all movement requests at once.  A granted bot stands on its
/// destination, every other bot stays; nothing else about a bot changes.
/// Two bots requesting the same cell both stay, and the bots keep standing
/// on pairwise different in-bounds cells.
pub fn resolve_movement(
    width: usize,
    height: usize,
    bots: &Vec<(Position, Bot)>,
    intents: &Vec<Actuators>,
) -> (r: Vec<(Position, Bot)>)
    requires
        intents@.len() == bots@.len(),
        forall|i: int|
            0 <= i < bots@.len() ==> spec_in_bounds(
                (#[trigger] bots@[i]).0.x as int,
                bots@[i].0.y as int,
                width as int,
                height as int,
            ),
        forall|i: int, j: int|
            0 <= i < j < bots@.len() ==> (#[trigger] bots@[i]).0 != (#[trigger] bots@[j]).0,
    ensures
        r@ == spec_resolve_movement(width, height, bots@, intents@),
        r@.len() == bots@.len(),
        forall|i: int|
            0 <= i < r@.len() ==> (#[trigger] r@[i]).1 == bots@[i].1 && spec_in_bounds(
                r@[i].0.x as int,
                r@[i].0.y as int,
                width as int,
                height as int,
            ),
        forall|i: int, j: int|
            0 <= i < j < r@.len() ==> (#[trigger] r@[i]).0 != (#[trigger] r@[j]).0,
        forall|i: int, j: int|
            #![trigger spec_dests(width, height, bots@, intents@)[i], spec_dests(width, height, bots@, intents@)[j]]
            0 <= i < r@.len() && 0 <= j < r@.len() && i != j && spec_dests(
                width,
                height,
                bots@,
                intents@,
            )[i] is Some && spec_dests(width, height, bots@, intents@)[i] == spec_dests(
                width,
                height,
                bots@,
                intents@,
            )[j] ==> r@[i].0 == bots@[i].0 && r@[j].0 == bots@[j].0,
{
    let ghost pos = spec_positions(bots@);
    let n = bots.len();
    let dests = compute_dests(width, height, bots, intents);
    let cand = compute_candidates(&dests);
    let g = compute_grants(bots, &dests, &cand);
    proof {
        assert(g@.len() == n);
    }
    let mut r: Vec<(Position, Bot)> = Vec::new();
    let mut i: usize = 0;
    while i < n
        invariant
            n == bots@.len(),
            dests@ == spec_dests(width, height, bots@, intents@),
            g@ == spec_granted(spec_positions(bots@), dests@),
            g@.len() == n,
            dests@.len() == n,
            i <= n,
            r@.len() == i,
            forall|k: int|
                0 <= k < i ==> #[trigger] r@[k] == (
                    if g@[k] {
                        dests@[k]->Some_0
                    } else {
                        bots@[k].0
                    },
                    bots@[k].1,
                ),
        decreases n - i,
    {
        let (p, b) = bots[i];
        if g[i] {
            if let Some(q) = dests[i] {
                r.push((q, b));
            } else {
                proof {
                    lemma_grants_sound(spec_positions(bots@), dests@, n as nat, i as int);
                    assert(false);
                }
            }
        } else {
            r.push((p, b));
        }
        i += 1;
    }
    proof {
        let ds = spec_dests(width, height, bots@, intents@);
        assert(r@ =~= spec_resolve_movement(width, height, bots@, intents@));
        let gr = spec_granted(pos, ds);
        // every cell a bot ends on is in bounds
        assert forall|i2: int|
            0 <= i2 < r@.len() implies (#[trigger] r@[i2]).1 == bots@[i2].1 && spec_in_bounds(
            r@[i2].0.x as int,
            r@[i2].0.y as int,
            width as int,
            height as int,
        ) by {
            if gr[i2] {
                lemma_grants_sound(pos, ds, pos.len() as nat, i2);
            }
        }
        // the bots keep standing on pairwise different cells
        assert forall|i2: int, j2: int|
            0 <= i2 < j2 < r@.len() implies (#[trigger] r@[i2]).0 != (#[trigger] r@[j2]).0 by {
            if gr[i2] && gr[j2] {
                lemma_grants_sound(pos, ds, pos.len() as nat, i2);
                assert(ds[j2] != ds[i2]);
            } else if gr[i2] {
                lemma_grants_sound(pos, ds, pos.len() as nat, i2);
                if r@[i2].0 == r@[j2].0 {
                    assert(pos[j2] == ds[i2]->Some_0);
                    assert(gr[j2]);
                }
            } else if gr[j2] {
                lemma_grants_sound(pos, ds, pos.len() as nat, j2);
                if r@[i2].0 == r@[j2].0 {
                    assert(pos[i2] == ds[j2]->Some_0);
                    assert(gr[i2]);
                }
            } else {
                assert(bots@[i2].0 != bots@[j2].0);
            }
        }
        // two bots asking for the same cell both stay
        assert forall|i2: int, j2: int|
            #![trigger ds[i2], ds[j2]]
            0 <= i2 < r@.len() && 0 <= j2 < r@.len() && i2 != j2 && ds[i2] is Some
                && ds[i2] == ds[j2] implies r@[i2].0 == bots@[i2].0 && r@[j2].0
            == bots@[j2].0 by {
            if gr[i2] {
                lemma_grants_sound(pos, ds, pos.len() as nat, i2);
            }
            if gr[j2] {
                lemma_grants_sound(pos, ds, pos.len() as nat, j2);
            }
        }
    }
    r
}

} // verus!
