use bot_arena::{
    adjacent_enemy_direction, bot_at, closest_other_bot, direction_between, distance, has_bot,
    is_in_bounds, valid_adjacent_positions, Bot, Color, Direction, GameState, Position,
    SpatialError, BOTS_STARTING_ENERGY, STARTING_SHIELD_RESISTANCE,
};

fn fresh_bot(color: Color) -> Bot {
    Bot {
        energy: BOTS_STARTING_ENERGY,
        color,
        chainsaw_direction: Direction::Up,
        shield_direction: Direction::Up,
        tiredness: 0,
        shield_resistance: STARTING_SHIELD_RESISTANCE,
    }
}

fn state_with_bots(width: usize, height: usize, cells: &[(usize, usize)]) -> GameState {
    let mut bots = Vec::new();
    for &(x, y) in cells {
        bots.push((Position { x, y }, fresh_bot(Color::Red)));
    }
    GameState { map_width: width, map_height: height, bots, resources: Vec::new() }
}

#[test]
fn bounds_check() {
    assert!(is_in_bounds(0, 1, 2, 2));
    assert!(!is_in_bounds(2, 1, 2, 2));
    assert!(!is_in_bounds(1, 2, 2, 2));
}

#[test]
fn manhattan_distance_values() {
    assert_eq!(distance(Position { x: 0, y: 0 }, Position { x: 1, y: 1 }), 2);
    assert_eq!(distance(Position { x: 3, y: 7 }, Position { x: 3, y: 7 }), 0);
    assert_eq!(distance(Position { x: 5, y: 2 }, Position { x: 1, y: 4 }), 6);
}

#[test]
fn valid_adjacent_positions_center_in_canonical_order() {
    let s = state_with_bots(3, 3, &[]);
    let n = valid_adjacent_positions(&s, Position { x: 1, y: 1 });
    assert_eq!(n.len(), 4);
    assert_eq!(n[0], Position { x: 0, y: 1 });
    assert_eq!(n[1], Position { x: 2, y: 1 });
    assert_eq!(n[2], Position { x: 1, y: 0 });
    assert_eq!(n[3], Position { x: 1, y: 2 });
}

#[test]
fn valid_adjacent_positions_corner_filters_outside() {
    let s = state_with_bots(2, 2, &[]);
    let n = valid_adjacent_positions(&s, Position { x: 0, y: 0 });
    assert_eq!(n.len(), 2);
    assert_eq!(n[0], Position { x: 1, y: 0 });
    assert_eq!(n[1], Position { x: 0, y: 1 });
}

#[test]
fn direction_between_adjacent_cells() {
    let p = Position { x: 2, y: 2 };
    assert_eq!(direction_between(p, Position { x: 3, y: 2 }), Ok(Direction::Right));
    assert_eq!(direction_between(p, Position { x: 1, y: 2 }), Ok(Direction::Left));
    assert_eq!(direction_between(p, Position { x: 2, y: 1 }), Ok(Direction::Up));
    assert_eq!(direction_between(p, Position { x: 2, y: 3 }), Ok(Direction::Down));
}

#[test]
fn direction_between_rejects_unrelated_positions() {
    let p = Position { x: 0, y: 0 };
    assert_eq!(direction_between(p, Position { x: 2, y: 0 }), Err(SpatialError::NotAdjacent));
    assert_eq!(direction_between(p, Position { x: 1, y: 1 }), Err(SpatialError::NotAdjacent));
    assert_eq!(direction_between(p, p), Err(SpatialError::NotAdjacent));
}

#[test]
fn bot_lookup() {
    let s = state_with_bots(4, 4, &[(1, 2)]);
    assert!(has_bot(&s, Position { x: 1, y: 2 }));
    assert!(!has_bot(&s, Position { x: 2, y: 1 }));
    let b = bot_at(&s, Position { x: 1, y: 2 }).unwrap();
    assert_eq!(b.energy, BOTS_STARTING_ENERGY);
    assert!(bot_at(&s, Position { x: 0, y: 0 }).is_none());
}

#[test]
fn adjacent_enemy_first_match_in_canonical_order() {
    // enemies both left of and below the bot: Left comes first
    let s = state_with_bots(3, 3, &[(0, 1), (1, 2)]);
    assert_eq!(adjacent_enemy_direction(&s, Position { x: 1, y: 1 }), Some(Direction::Left));
    // only the one below remains
    let s2 = state_with_bots(3, 3, &[(1, 2)]);
    assert_eq!(adjacent_enemy_direction(&s2, Position { x: 1, y: 1 }), Some(Direction::Down));
    let s3 = state_with_bots(3, 3, &[]);
    assert_eq!(adjacent_enemy_direction(&s3, Position { x: 1, y: 1 }), None);
}

#[test]
fn closest_other_bot_minimizes_distance() {
    let s = state_with_bots(10, 10, &[(0, 0), (5, 5), (2, 1)]);
    assert_eq!(closest_other_bot(&s, Position { x: 0, y: 0 }), Some(Position { x: 2, y: 1 }));
}

#[test]
fn closest_other_bot_tie_first_seen_wins() {
    // (2, 0) and (0, 2) are both at distance 2; (2, 0) is listed first
    let s = state_with_bots(5, 5, &[(0, 0), (2, 0), (0, 2)]);
    assert_eq!(closest_other_bot(&s, Position { x: 0, y: 0 }), Some(Position { x: 2, y: 0 }));
}

#[test]
fn closest_other_bot_none_when_alone() {
    let s = state_with_bots(5, 5, &[(3, 3)]);
    assert_eq!(closest_other_bot(&s, Position { x: 3, y: 3 }), None);
}
