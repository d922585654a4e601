use bot_arena::{opposite_direction, rotate_direction, shortest_rotation, Direction, Rotation};

const ALL_DIRECTIONS: [Direction; 4] = [
    Direction::Up,
    Direction::Down,
    Direction::Left,
    Direction::Right,
];

#[test]
fn rotate_clockwise_then_counterclockwise_is_identity() {
    for d in ALL_DIRECTIONS {
        let turned = rotate_direction(&rotate_direction(&d, &Rotation::Clockwise), &Rotation::Counterclockwise);
        assert_eq!(turned, d);
        let turned_back = rotate_direction(&rotate_direction(&d, &Rotation::Counterclockwise), &Rotation::Clockwise);
        assert_eq!(turned_back, d);
    }
}

#[test]
fn rotate_four_times_clockwise_is_identity() {
    for d in ALL_DIRECTIONS {
        let mut turned = d;
        for _ in 0..4 {
            turned = rotate_direction(&turned, &Rotation::Clockwise);
        }
        assert_eq!(turned, d);
    }
}

#[test]
fn rotate_clockwise_single_steps() {
    assert_eq!(rotate_direction(&Direction::Up, &Rotation::Clockwise), Direction::Right);
    assert_eq!(rotate_direction(&Direction::Right, &Rotation::Clockwise), Direction::Down);
    assert_eq!(rotate_direction(&Direction::Down, &Rotation::Clockwise), Direction::Left);
    assert_eq!(rotate_direction(&Direction::Left, &Rotation::Clockwise), Direction::Up);
}

#[test]
fn shortest_rotation_prefers_single_clockwise_step() {
    assert_eq!(shortest_rotation(&Direction::Up, &Direction::Right), Rotation::Clockwise);
    assert_eq!(shortest_rotation(&Direction::Right, &Direction::Down), Rotation::Clockwise);
    assert_eq!(shortest_rotation(&Direction::Down, &Direction::Left), Rotation::Clockwise);
    assert_eq!(shortest_rotation(&Direction::Left, &Direction::Up), Rotation::Clockwise);
}

#[test]
fn shortest_rotation_other_pairs_are_counterclockwise() {
    assert_eq!(shortest_rotation(&Direction::Up, &Direction::Left), Rotation::Counterclockwise);
    assert_eq!(shortest_rotation(&Direction::Up, &Direction::Down), Rotation::Counterclockwise);
    assert_eq!(shortest_rotation(&Direction::Left, &Direction::Right), Rotation::Counterclockwise);
}

#[test]
fn opposite_direction_pairs() {
    assert_eq!(opposite_direction(&Direction::Up), Direction::Down);
    assert_eq!(opposite_direction(&Direction::Down), Direction::Up);
    assert_eq!(opposite_direction(&Direction::Left), Direction::Right);
    assert_eq!(opposite_direction(&Direction::Right), Direction::Left);
}
