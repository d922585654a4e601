use bot_arena::{
    decide, grey, red, run_strategy, strategy_for_color, yellow, Bot, BotStrategy, Color,
    Direction, GameState, Position, Rotation, BOTS_STARTING_ENERGY, ColorConfig,
    STARTING_SHIELD_RESISTANCE,
};

fn bot_facing(color: Color, chainsaw: Direction, shield: Direction) -> Bot {
    Bot {
        energy: BOTS_STARTING_ENERGY,
        color,
        chainsaw_direction: chainsaw,
        shield_direction: shield,
        tiredness: 0,
        shield_resistance: STARTING_SHIELD_RESISTANCE,
    }
}

fn two_bot_state(
    a: (usize, usize, Direction, Direction),
    b: (usize, usize, Direction, Direction),
) -> GameState {
    GameState {
        map_width: 6,
        map_height: 6,
        bots: vec![
            (Position { x: a.0, y: a.1 }, bot_facing(Color::Grey, a.2, a.3)),
            (Position { x: b.0, y: b.1 }, bot_facing(Color::Red, b.2, b.3)),
        ],
        resources: Vec::new(),
    }
}

#[test]
fn lone_bot_requests_nothing() {
    let s = GameState {
        map_width: 4,
        map_height: 4,
        bots: vec![(
            Position { x: 1, y: 1 },
            bot_facing(Color::Grey, Direction::Up, Direction::Up),
        )],
        resources: Vec::new(),
    };
    let intent = decide(&s, Position { x: 1, y: 1 });
    assert!(intent.rotate_shield.is_none());
    assert!(intent.rotate_chainsaw.is_none());
    assert!(intent.move_bot.is_none());
}

#[test]
fn shield_turns_toward_adjacent_enemy() {
    // enemy to the right, shield currently up: one clockwise quarter turn
    let s = two_bot_state((1, 1, Direction::Up, Direction::Up), (2, 1, Direction::Up, Direction::Up));
    let intent = decide(&s, Position { x: 1, y: 1 });
    assert_eq!(intent.rotate_shield, Some(Rotation::Clockwise));
}

#[test]
fn shield_already_facing_enemy_stays() {
    let s = two_bot_state(
        (1, 1, Direction::Up, Direction::Right),
        (2, 1, Direction::Up, Direction::Up),
    );
    let intent = decide(&s, Position { x: 1, y: 1 });
    assert!(intent.rotate_shield.is_none());
}

#[test]
fn chainsaw_facing_enemy_takes_the_wrap_around_turn() {
    // the wrap-around case: the enemy direction equals the chainsaw facing,
    // so the chainsaw turns clockwise rather than standing still
    let s = two_bot_state(
        (1, 1, Direction::Right, Direction::Up),
        (2, 1, Direction::Up, Direction::Up),
    );
    let intent = decide(&s, Position { x: 1, y: 1 });
    assert_eq!(intent.rotate_chainsaw, Some(Rotation::Clockwise));
}

#[test]
fn chainsaw_turns_toward_adjacent_enemy() {
    // enemy to the left, chainsaw up: counterclockwise is the single turn
    let s = two_bot_state((1, 1, Direction::Up, Direction::Up), (0, 1, Direction::Up, Direction::Up));
    let intent = decide(&s, Position { x: 1, y: 1 });
    assert_eq!(intent.rotate_chainsaw, Some(Rotation::Counterclockwise));
}

#[test]
fn movement_heads_toward_closest_enemy() {
    let s = two_bot_state((0, 0, Direction::Up, Direction::Up), (0, 3, Direction::Up, Direction::Up));
    let intent = decide(&s, Position { x: 0, y: 0 });
    assert_eq!(intent.move_bot, Some(Direction::Down));
    let intent_back = decide(&s, Position { x: 0, y: 3 });
    assert_eq!(intent_back.move_bot, Some(Direction::Up));
}

#[test]
fn the_three_strategies_agree() {
    let s = two_bot_state((1, 2, Direction::Up, Direction::Left), (4, 2, Direction::Up, Direction::Up));
    let p = Position { x: 1, y: 2 };
    let a = grey(&s, p);
    let b = red(&s, p);
    let c = yellow(&s, p);
    let d = decide(&s, p);
    for other in [&b, &c, &d] {
        assert_eq!(a.rotate_shield, other.rotate_shield);
        assert_eq!(a.rotate_chainsaw, other.rotate_chainsaw);
        assert_eq!(a.move_bot, other.move_bot);
    }
}

#[test]
fn deciding_twice_gives_the_same_intent() {
    let s = two_bot_state((1, 1, Direction::Up, Direction::Left), (3, 2, Direction::Up, Direction::Up));
    let p = Position { x: 1, y: 1 };
    let a = decide(&s, p);
    let b = decide(&s, p);
    assert_eq!(a.rotate_shield, b.rotate_shield);
    assert_eq!(a.rotate_chainsaw, b.rotate_chainsaw);
    assert_eq!(a.move_bot, b.move_bot);
}

#[test]
fn roster_lookup_first_entry_wins() {
    let colors = vec![
        ColorConfig { color: Color::Grey, number_of_bots: 2, strategy: BotStrategy::Grey },
        ColorConfig { color: Color::Red, number_of_bots: 2, strategy: BotStrategy::Red },
        ColorConfig { color: Color::Grey, number_of_bots: 1, strategy: BotStrategy::Yellow },
    ];
    assert_eq!(strategy_for_color(&colors, Color::Grey), Some(BotStrategy::Grey));
    assert_eq!(strategy_for_color(&colors, Color::Red), Some(BotStrategy::Red));
    assert_eq!(strategy_for_color(&colors, Color::Blue), None);
}

#[test]
fn run_strategy_dispatches() {
    let s = two_bot_state((0, 0, Direction::Up, Direction::Up), (0, 3, Direction::Up, Direction::Up));
    let p = Position { x: 0, y: 0 };
    let via_enum = run_strategy(BotStrategy::Yellow, &s, p);
    let direct = yellow(&s, p);
    assert_eq!(via_enum.move_bot, direct.move_bot);
}
