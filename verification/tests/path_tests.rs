use bot_arena::{
    distance, next_step_toward, shortest_path, Direction, GameState, Position, SpatialError,
};

fn empty_state(width: usize, height: usize) -> GameState {
    GameState { map_width: width, map_height: height, bots: Vec::new(), resources: Vec::new() }
}

fn assert_valid_path(from: Position, path: &[Position], to: Position) {
    assert!(!path.is_empty());
    assert_eq!(*path.last().unwrap(), to);
    let mut prev = from;
    for &step in path {
        assert_eq!(distance(prev, step), 1);
        prev = step;
    }
}

#[test]
fn shortest_path_length_equals_manhattan_distance() {
    let s = empty_state(5, 4);
    let cases = [
        ((0, 0), (4, 3)),
        ((0, 0), (0, 3)),
        ((2, 1), (2, 3)),
        ((4, 3), (0, 0)),
        ((1, 2), (3, 0)),
    ];
    for ((fx, fy), (tx, ty)) in cases {
        let from = Position { x: fx, y: fy };
        let to = Position { x: tx, y: ty };
        let path = shortest_path(&s, from, to).unwrap();
        assert_eq!(path.len(), distance(from, to));
        assert_valid_path(from, &path, to);
    }
}

#[test]
fn shortest_path_to_itself_is_empty() {
    let s = empty_state(3, 3);
    let p = Position { x: 1, y: 2 };
    let path = shortest_path(&s, p, p).unwrap();
    assert!(path.is_empty());
}

#[test]
fn shortest_path_straight_line() {
    let s = empty_state(10, 1);
    let path = shortest_path(&s, Position { x: 2, y: 0 }, Position { x: 5, y: 0 }).unwrap();
    assert_eq!(
        path,
        vec![
            Position { x: 3, y: 0 },
            Position { x: 4, y: 0 },
            Position { x: 5, y: 0 },
        ]
    );
}

#[test]
fn next_step_moves_one_cell_closer() {
    let s = empty_state(10, 10);
    assert_eq!(
        next_step_toward(&s, Position { x: 0, y: 0 }, Position { x: 0, y: 2 }),
        Ok(Direction::Down)
    );
    assert_eq!(
        next_step_toward(&s, Position { x: 0, y: 2 }, Position { x: 0, y: 0 }),
        Ok(Direction::Up)
    );
    assert_eq!(
        next_step_toward(&s, Position { x: 0, y: 0 }, Position { x: 3, y: 0 }),
        Ok(Direction::Right)
    );
    assert_eq!(
        next_step_toward(&s, Position { x: 3, y: 0 }, Position { x: 0, y: 0 }),
        Ok(Direction::Left)
    );
}

#[test]
fn next_step_tie_break_follows_canonical_order() {
    // two shortest first steps exist; the canonical order Left, Right,
    // Up, Down decides
    let s = empty_state(6, 6);
    // toward lower-right: Right beats Down
    assert_eq!(
        next_step_toward(&s, Position { x: 1, y: 1 }, Position { x: 2, y: 2 }),
        Ok(Direction::Right)
    );
    // toward lower-left: Left beats Down
    assert_eq!(
        next_step_toward(&s, Position { x: 2, y: 2 }, Position { x: 1, y: 3 }),
        Ok(Direction::Left)
    );
    // toward upper-right: Right beats Up
    assert_eq!(
        next_step_toward(&s, Position { x: 1, y: 1 }, Position { x: 2, y: 0 }),
        Ok(Direction::Right)
    );
    // toward upper-left: Left beats Up
    assert_eq!(
        next_step_toward(&s, Position { x: 2, y: 2 }, Position { x: 1, y: 1 }),
        Ok(Direction::Left)
    );
}

#[test]
fn next_step_toward_itself_has_no_first_step() {
    let s = empty_state(4, 4);
    let p = Position { x: 2, y: 2 };
    assert_eq!(next_step_toward(&s, p, p), Err(SpatialError::EmptyPath));
}
