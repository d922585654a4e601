use bot_arena::{
    advance, find_empty_position, from_matrix, state_to_matrix, Battle, Bot, BotStrategy, Color,
    ColorConfig, Direction, GameCell, GameState, Position, Resource, BOTS_STARTING_ENERGY,
    MAP_HEIGHT, MAP_WIDTH, STARTING_SHIELD_RESISTANCE,
};

fn roster() -> Vec<ColorConfig> {
    vec![
        ColorConfig { color: Color::Grey, number_of_bots: 2, strategy: BotStrategy::Grey },
        ColorConfig { color: Color::Red, number_of_bots: 3, strategy: BotStrategy::Red },
    ]
}

#[test]
fn fresh_bot_has_starting_stats() {
    let b = Bot::new(Color::Blue);
    assert_eq!(b.energy, BOTS_STARTING_ENERGY);
    assert_eq!(b.color, Color::Blue);
    assert_eq!(b.chainsaw_direction, Direction::Up);
    assert_eq!(b.shield_direction, Direction::Up);
    assert_eq!(b.tiredness, 0);
    assert_eq!(b.shield_resistance, STARTING_SHIELD_RESISTANCE);
    assert!(!b.is_shield_destroyed());
}

#[test]
fn shield_destroyed_at_zero_resistance() {
    let mut b = Bot::new(Color::Red);
    b.shield_resistance = 0;
    assert!(b.is_shield_destroyed());
}

#[test]
fn new_battle_places_the_requested_bots() {
    let battle = Battle::new(roster());
    assert_eq!(battle.state.map_width, MAP_WIDTH);
    assert_eq!(battle.state.map_height, MAP_HEIGHT);
    assert_eq!(battle.state.bots.len(), 5);
    assert!(battle.state.resources.is_empty());
    let mut greys = 0;
    let mut reds = 0;
    for (p, b) in &battle.state.bots {
        assert!(p.x < MAP_WIDTH && p.y < MAP_HEIGHT);
        assert_eq!(b.energy, BOTS_STARTING_ENERGY);
        assert_eq!(b.tiredness, 0);
        match b.color {
            Color::Grey => greys += 1,
            Color::Red => reds += 1,
            _ => panic!("unexpected color"),
        }
    }
    assert_eq!(greys, 2);
    assert_eq!(reds, 3);
    // pairwise different cells
    for i in 0..battle.state.bots.len() {
        for j in 0..i {
            assert_ne!(battle.state.bots[i].0, battle.state.bots[j].0);
        }
    }
}

#[test]
fn new_battle_sums_duplicate_roster_colors() {
    // two roster entries share a color: their requests add up per color
    let battle = Battle::new(vec![
        ColorConfig { color: Color::Grey, number_of_bots: 2, strategy: BotStrategy::Grey },
        ColorConfig { color: Color::Red, number_of_bots: 1, strategy: BotStrategy::Red },
        ColorConfig { color: Color::Grey, number_of_bots: 2, strategy: BotStrategy::Yellow },
    ]);
    assert_eq!(battle.state.bots.len(), 5);
    let greys = battle.state.bots.iter().filter(|(_, b)| b.color == Color::Grey).count();
    let reds = battle.state.bots.iter().filter(|(_, b)| b.color == Color::Red).count();
    assert_eq!(greys, 4);
    assert_eq!(reds, 1);
}

#[test]
fn battle_update_runs_a_tick() {
    let mut battle = Battle::new(roster());
    let before = battle.state.bots.len();
    for _ in 0..10 {
        battle.update();
    }
    assert!(battle.state.bots.len() <= before);
    for (_, b) in &battle.state.bots {
        assert!(b.energy > 0);
    }
}

#[test]
fn battle_strategy_for_reads_the_roster() {
    let battle = Battle::new(roster());
    assert_eq!(battle.strategy_for(Color::Red), Some(BotStrategy::Red));
    assert_eq!(battle.strategy_for(Color::Yellow), None);
}

#[test]
fn find_empty_position_on_a_full_board_fails() {
    let b = Bot::new(Color::Grey);
    let map = vec![vec![GameCell::Bot(b); 3]; 2];
    assert!(find_empty_position(&map).is_none());
}

#[test]
fn find_empty_position_finds_the_single_hole() {
    let b = Bot::new(Color::Grey);
    let mut map = vec![vec![GameCell::Bot(b); 3]; 2];
    map[1][2] = GameCell::Empty;
    assert_eq!(find_empty_position(&map), Some(Position { x: 1, y: 2 }));
}

#[test]
fn advancing_distant_duelists_cancels_in_the_middle() {
    // two strategy-driven bots two cells apart both head for the cell
    // between them; the movement conflict cancels both, so after one tick
    // nobody has moved and, with no combat possible, nobody lost energy
    let state = GameState {
        map_width: 4,
        map_height: 4,
        bots: vec![
            (Position { x: 0, y: 0 }, Bot::new(Color::Grey)),
            (Position { x: 0, y: 2 }, Bot::new(Color::Grey)),
        ],
        resources: Vec::new(),
    };
    let colors = vec![ColorConfig {
        color: Color::Grey,
        number_of_bots: 2,
        strategy: BotStrategy::Grey,
    }];
    let next = advance(&state, &colors);
    assert_eq!(next.bots.len(), 2);
    let mut cells: Vec<Position> = next.bots.iter().map(|(p, _)| *p).collect();
    cells.sort_by_key(|p| (p.x, p.y));
    assert_eq!(cells, vec![Position { x: 0, y: 0 }, Position { x: 0, y: 2 }]);
    for (_, b) in &next.bots {
        assert_eq!(b.energy, BOTS_STARTING_ENERGY);
    }
}

#[test]
fn matrix_round_trip_preserves_the_world() {
    let state = GameState {
        map_width: MAP_WIDTH,
        map_height: MAP_HEIGHT,
        bots: vec![
            (Position { x: 0, y: 0 }, Bot::new(Color::Grey)),
            (Position { x: 4, y: 7 }, Bot::new(Color::Red)),
        ],
        resources: vec![(Position { x: 2, y: 2 }, Resource { energy_gain: 4 })],
    };
    let matrix = state_to_matrix(&state);
    assert_eq!(matrix.len(), MAP_WIDTH);
    assert_eq!(matrix[0].len(), MAP_HEIGHT);
    assert_eq!(matrix[4][7], GameCell::Bot(Bot::new(Color::Red)));
    assert_eq!(matrix[2][2], GameCell::Resource(Resource { energy_gain: 4 }));
    assert_eq!(matrix[5][5], GameCell::Empty);
    let back = from_matrix(&matrix);
    assert_eq!(back.map_width, MAP_WIDTH);
    assert_eq!(back.map_height, MAP_HEIGHT);
    assert_eq!(back.bots.len(), 2);
    assert_eq!(back.resources.len(), 1);
    for (p, b) in &state.bots {
        assert!(back.bots.iter().any(|(q, c)| q == p && c == b));
    }
    assert_eq!(back.resources[0], (Position { x: 2, y: 2 }, Resource { energy_gain: 4 }));
}
