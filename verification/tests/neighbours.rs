use pixel_image::neighbours::{
    neighbours_adjacent, neighbours_all, neighbours_diagonal, neighbours_direction,
};
use pixel_image::{Direction, PixelError};

#[test]
fn all_neighbours_of_4_4() {
    assert_eq!(
        neighbours_all(4, 4),
        Ok([(3, 4), (5, 4), (4, 5), (4, 3), (3, 5), (3, 3), (5, 5), (5, 3)])
    );
}

#[test]
fn adjacent_neighbours_of_4_7() {
    assert_eq!(neighbours_adjacent(4, 7), Ok([(3, 7), (5, 7), (4, 8), (4, 6)]));
}

#[test]
fn diagonal_neighbours_of_4_7() {
    assert_eq!(neighbours_diagonal(4, 7), Ok([(3, 8), (3, 6), (5, 8), (5, 6)]));
}

#[test]
fn directional_neighbours_right_of_4_4() {
    assert_eq!(neighbours_direction(4, 4, Direction::Right), Ok([(5, 5), (5, 4), (5, 3)]));
}

#[test]
fn directional_neighbours_each_side() {
    assert_eq!(neighbours_direction(2, 9, Direction::Up), Ok([(1, 10), (2, 10), (3, 10)]));
    assert_eq!(neighbours_direction(2, 9, Direction::Down), Ok([(1, 8), (2, 8), (3, 8)]));
    assert_eq!(neighbours_direction(2, 9, Direction::Left), Ok([(1, 10), (1, 9), (1, 8)]));
    assert_eq!(neighbours_direction(2, 9, Direction::Right), Ok([(3, 10), (3, 9), (3, 8)]));
}

#[test]
fn a_zero_coordinate_is_refused() {
    for (x, y) in [(0u32, 0u32), (0, 1), (1, 0), (0, u32::MAX), (u32::MAX, 0)] {
        assert_eq!(neighbours_all(x, y), Err(PixelError::InvalidCoordinate));
        assert_eq!(neighbours_adjacent(x, y), Err(PixelError::InvalidCoordinate));
        assert_eq!(neighbours_diagonal(x, y), Err(PixelError::InvalidCoordinate));
        for direction in [Direction::Up, Direction::Down, Direction::Left, Direction::Right] {
            assert_eq!(neighbours_direction(x, y, direction), Err(PixelError::InvalidCoordinate));
        }
    }
}

#[test]
fn the_smallest_eligible_block_reaches_zero() {
    assert_eq!(
        neighbours_all(1, 1),
        Ok([(0, 1), (2, 1), (1, 2), (1, 0), (0, 2), (0, 0), (2, 2), (2, 0)])
    );
}

#[test]
fn the_step_past_the_largest_coordinate_wraps() {
    let m = u32::MAX;
    assert_eq!(neighbours_adjacent(m, 5), Ok([(m - 1, 5), (0, 5), (m, 6), (m, 4)]));
    assert_eq!(neighbours_diagonal(5, m), Ok([(4, 0), (4, m - 1), (6, 0), (6, m - 1)]));
    assert_eq!(neighbours_direction(m, m, Direction::Up), Ok([(m - 1, 0), (m, 0), (0, 0)]));
}
