use bot_arena::{
    apply_attrition, apply_rotations, collect_resources, damage_bot, remove_dead_bots,
    resolve_combat, resolve_movement, resolve_tick, sat_add, sat_sub, spawn_resources, Actuators,
    Bot, Color, Direction, GameState, Position, Resource, Rotation, ATTACK_DAMAGE,
    AVERAGE_RESOURCE_GENERATION_PER_TICK, BOTS_STARTING_ENERGY, MAX_RESOURCES, RESOURCE_MAX_ENERGY_GAIN, RESOURCE_MIN_ENERGY_GAIN,
    STARTING_SHIELD_RESISTANCE, TIREDNESS_TO_LOSE_ENERGY,
};

fn bot(color: Color, chainsaw: Direction, shield: Direction) -> Bot {
    Bot {
        energy: BOTS_STARTING_ENERGY,
        color,
        chainsaw_direction: chainsaw,
        shield_direction: shield,
        tiredness: 0,
        shield_resistance: STARTING_SHIELD_RESISTANCE,
    }
}

fn noop() -> Actuators {
    Actuators { rotate_shield: None, rotate_chainsaw: None, move_bot: None }
}

fn move_intent(d: Direction) -> Actuators {
    Actuators { rotate_shield: None, rotate_chainsaw: None, move_bot: Some(d) }
}

#[test]
fn saturating_arithmetic_clamps() {
    assert_eq!(sat_sub(2, 3), 0);
    assert_eq!(sat_sub(5, 3), 2);
    assert_eq!(sat_add(usize::MAX, 1), usize::MAX);
    assert_eq!(sat_add(2, 3), 5);
}

#[test]
fn rotations_are_applied_unconditionally() {
    let bots = vec![(Position { x: 0, y: 0 }, bot(Color::Grey, Direction::Up, Direction::Up))];
    let intents = vec![Actuators {
        rotate_shield: Some(Rotation::Clockwise),
        rotate_chainsaw: Some(Rotation::Counterclockwise),
        move_bot: None,
    }];
    let turned = apply_rotations(&bots, &intents);
    assert_eq!(turned[0].1.shield_direction, Direction::Right);
    assert_eq!(turned[0].1.chainsaw_direction, Direction::Left);
}

#[test]
fn movement_into_free_cell_is_granted() {
    let bots = vec![(Position { x: 1, y: 1 }, bot(Color::Grey, Direction::Up, Direction::Up))];
    let moved = resolve_movement(4, 4, &bots, &vec![move_intent(Direction::Right)]);
    assert_eq!(moved[0].0, Position { x: 2, y: 1 });
}

#[test]
fn movement_off_the_board_is_ignored() {
    let bots = vec![(Position { x: 0, y: 0 }, bot(Color::Grey, Direction::Up, Direction::Up))];
    let moved = resolve_movement(4, 4, &bots, &vec![move_intent(Direction::Left)]);
    assert_eq!(moved[0].0, Position { x: 0, y: 0 });
}

#[test]
fn movement_conflict_cancels_both_contenders() {
    // both bots request the cell between them: neither moves
    let bots = vec![
        (Position { x: 0, y: 0 }, bot(Color::Grey, Direction::Up, Direction::Up)),
        (Position { x: 0, y: 2 }, bot(Color::Red, Direction::Up, Direction::Up)),
    ];
    let intents = vec![move_intent(Direction::Down), move_intent(Direction::Up)];
    let moved = resolve_movement(4, 4, &bots, &intents);
    assert_eq!(moved[0].0, Position { x: 0, y: 0 });
    assert_eq!(moved[1].0, Position { x: 0, y: 2 });
}

#[test]
fn movement_swap_is_blocked() {
    let bots = vec![
        (Position { x: 0, y: 0 }, bot(Color::Grey, Direction::Up, Direction::Up)),
        (Position { x: 0, y: 1 }, bot(Color::Red, Direction::Up, Direction::Up)),
    ];
    let intents = vec![move_intent(Direction::Down), move_intent(Direction::Up)];
    let moved = resolve_movement(4, 4, &bots, &intents);
    assert_eq!(moved[0].0, Position { x: 0, y: 0 });
    assert_eq!(moved[1].0, Position { x: 0, y: 1 });
}

#[test]
fn movement_train_follows_its_leader() {
    // the leader moves into a free cell, so the follower may take its cell
    let bots = vec![
        (Position { x: 0, y: 0 }, bot(Color::Grey, Direction::Up, Direction::Up)),
        (Position { x: 1, y: 0 }, bot(Color::Red, Direction::Up, Direction::Up)),
    ];
    let intents = vec![move_intent(Direction::Right), move_intent(Direction::Right)];
    let moved = resolve_movement(4, 4, &bots, &intents);
    assert_eq!(moved[1].0, Position { x: 2, y: 0 });
    assert_eq!(moved[0].0, Position { x: 1, y: 0 });
}

#[test]
fn movement_into_stationary_bot_is_blocked() {
    let bots = vec![
        (Position { x: 0, y: 0 }, bot(Color::Grey, Direction::Up, Direction::Up)),
        (Position { x: 1, y: 0 }, bot(Color::Red, Direction::Up, Direction::Up)),
    ];
    let intents = vec![move_intent(Direction::Right), noop()];
    let moved = resolve_movement(4, 4, &bots, &intents);
    assert_eq!(moved[0].0, Position { x: 0, y: 0 });
    assert_eq!(moved[1].0, Position { x: 1, y: 0 });
}

#[test]
fn resource_collection_feeds_the_bot_and_consumes_the_resource() {
    let bots = vec![(Position { x: 1, y: 1 }, bot(Color::Grey, Direction::Up, Direction::Up))];
    let resources = vec![
        (Position { x: 1, y: 1 }, Resource { energy_gain: 3 }),
        (Position { x: 2, y: 2 }, Resource { energy_gain: 2 }),
    ];
    let (fed, surviving) = collect_resources(&bots, &resources);
    assert_eq!(fed[0].1.energy, BOTS_STARTING_ENERGY + 3);
    assert_eq!(surviving.len(), 1);
    assert_eq!(surviving[0].0, Position { x: 2, y: 2 });
}

#[test]
fn intact_facing_shield_absorbs_the_hit() {
    // attacked from the left (the attacker's chainsaw points right), the
    // shield faces left and holds a resistance of 2
    let mut defender = bot(Color::Red, Direction::Up, Direction::Left);
    defender.shield_resistance = 2;
    let hit = damage_bot(defender, Direction::Right);
    assert_eq!(hit.energy, defender.energy);
    assert_eq!(hit.shield_resistance, 0); // 2 - ATTACK_DAMAGE, clamped at 0
}

#[test]
fn destroyed_shield_lets_damage_through() {
    let mut defender = bot(Color::Red, Direction::Up, Direction::Left);
    defender.shield_resistance = 0;
    let hit = damage_bot(defender, Direction::Right);
    assert_eq!(hit.energy, defender.energy - ATTACK_DAMAGE);
    assert_eq!(hit.shield_resistance, 0);
}

#[test]
fn averted_shield_lets_damage_through() {
    let defender = bot(Color::Red, Direction::Up, Direction::Down);
    let hit = damage_bot(defender, Direction::Right);
    assert_eq!(hit.energy, defender.energy - ATTACK_DAMAGE);
    assert_eq!(hit.shield_resistance, defender.shield_resistance);
}

#[test]
fn combat_hits_the_bot_the_chainsaw_points_at() {
    let bots = vec![
        (Position { x: 0, y: 0 }, bot(Color::Grey, Direction::Down, Direction::Up)),
        (Position { x: 0, y: 1 }, bot(Color::Red, Direction::Left, Direction::Right)),
    ];
    let fought = resolve_combat(4, 4, &bots);
    // the grey chainsaw points down at the red bot, whose shield faces away
    assert_eq!(fought[1].1.energy, BOTS_STARTING_ENERGY - ATTACK_DAMAGE);
    // the red chainsaw points left into an empty cell
    assert_eq!(fought[0].1.energy, BOTS_STARTING_ENERGY);
}

#[test]
fn attrition_tires_and_eventually_starves() {
    let mut b = bot(Color::Grey, Direction::Up, Direction::Up);
    b.tiredness = 0;
    let bots = vec![(Position { x: 0, y: 0 }, b)];
    let tired = apply_attrition(&bots);
    assert_eq!(tired[0].1.tiredness, 1);
    assert_eq!(tired[0].1.energy, BOTS_STARTING_ENERGY);

    let mut worn = bot(Color::Grey, Direction::Up, Direction::Up);
    worn.tiredness = TIREDNESS_TO_LOSE_ENERGY - 1;
    let bots2 = vec![(Position { x: 0, y: 0 }, worn)];
    let starved = apply_attrition(&bots2);
    assert_eq!(starved[0].1.tiredness, 0);
    assert_eq!(starved[0].1.energy, BOTS_STARTING_ENERGY - 1);
}

#[test]
fn dead_bots_are_removed() {
    let mut dead = bot(Color::Grey, Direction::Up, Direction::Up);
    dead.energy = 0;
    let bots = vec![
        (Position { x: 0, y: 0 }, dead),
        (Position { x: 1, y: 1 }, bot(Color::Red, Direction::Up, Direction::Up)),
    ];
    let live = remove_dead_bots(&bots);
    assert_eq!(live.len(), 1);
    assert_eq!(live[0].0, Position { x: 1, y: 1 });
}

#[test]
fn tick_adjacent_duel_deals_damage_and_moves_nobody() {
    // two adjacent bots, chainsaws already facing each other, shields clear:
    // one tick of mutual combat, no movement
    let state = GameState {
        map_width: 4,
        map_height: 4,
        bots: vec![
            (Position { x: 0, y: 0 }, bot(Color::Grey, Direction::Down, Direction::Right)),
            (Position { x: 0, y: 1 }, bot(Color::Red, Direction::Up, Direction::Right)),
        ],
        resources: Vec::new(),
    };
    let intents = vec![noop(), noop()];
    let next = resolve_tick(&state, &intents);
    assert_eq!(next.bots.len(), 2);
    for (p, b) in &next.bots {
        assert!(*p == Position { x: 0, y: 0 } || *p == Position { x: 0, y: 1 });
        assert_eq!(b.energy, BOTS_STARTING_ENERGY - ATTACK_DAMAGE);
        assert_eq!(b.tiredness, 1);
    }
}

#[test]
fn tick_combat_death_removes_the_bot() {
    // the defender holds exactly the attack damage in energy and dies of
    // the hit; it is absent from the next snapshot
    let mut frail = bot(Color::Red, Direction::Right, Direction::Right);
    frail.energy = ATTACK_DAMAGE;
    let state = GameState {
        map_width: 4,
        map_height: 4,
        bots: vec![
            (Position { x: 0, y: 0 }, bot(Color::Grey, Direction::Down, Direction::Right)),
            (Position { x: 0, y: 1 }, frail),
        ],
        resources: Vec::new(),
    };
    let intents = vec![noop(), noop()];
    let next = resolve_tick(&state, &intents);
    assert_eq!(next.bots.len(), 1);
    assert_eq!(next.bots[0].0, Position { x: 0, y: 0 });
    for (_, b) in &next.bots {
        assert!(b.energy > 0);
    }
}

#[test]
fn tick_energy_unchanged_without_combat_resource_or_exhaustion() {
    let state = GameState {
        map_width: 6,
        map_height: 6,
        bots: vec![
            (Position { x: 0, y: 0 }, bot(Color::Grey, Direction::Up, Direction::Up)),
            (Position { x: 5, y: 5 }, bot(Color::Red, Direction::Up, Direction::Up)),
        ],
        resources: Vec::new(),
    };
    let intents = vec![noop(), noop()];
    let next = resolve_tick(&state, &intents);
    for (_, b) in &next.bots {
        assert_eq!(b.energy, BOTS_STARTING_ENERGY);
        assert_eq!(b.tiredness, 1);
    }
}

#[test]
fn spawning_on_an_empty_board_always_succeeds() {
    // with no bot and no resource every random cell is free, so at least
    // one resource appears
    let mut state = GameState {
        map_width: 5,
        map_height: 5,
        bots: Vec::new(),
        resources: Vec::new(),
    };
    spawn_resources(&mut state);
    assert!(!state.resources.is_empty());
    assert!(state.resources.len() <= AVERAGE_RESOURCE_GENERATION_PER_TICK);
}

#[test]
fn spawning_respects_cap_bounds_and_existing_entries() {
    let mut state = GameState {
        map_width: 6,
        map_height: 6,
        bots: vec![(Position { x: 0, y: 0 }, bot(Color::Grey, Direction::Up, Direction::Up))],
        resources: vec![(Position { x: 3, y: 3 }, Resource { energy_gain: 2 })],
    };
    spawn_resources(&mut state);
    assert!(state.resources.len() <= MAX_RESOURCES);
    assert!(state.resources.len() <= 1 + AVERAGE_RESOURCE_GENERATION_PER_TICK);
    assert!(state.resources.len() >= 1);
    assert_eq!(state.resources[0].0, Position { x: 3, y: 3 });
    for (p, r) in &state.resources {
        assert!(p.x < 6 && p.y < 6);
        assert!(r.energy_gain >= RESOURCE_MIN_ENERGY_GAIN);
        assert!(r.energy_gain <= RESOURCE_MAX_ENERGY_GAIN);
        assert!(*p != Position { x: 0, y: 0 });
    }
    assert_eq!(state.bots.len(), 1);
}
