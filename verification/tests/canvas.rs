use pixel_image::{Direction, PixelError, PixelImage};

const RED: [u8; 3] = [255, 3, 3];

#[test]
fn it_works() {
    let mut image: PixelImage = PixelImage::new(10, 800).unwrap();
    image.draw_pixel(0, 0, [255, 3, 3]).unwrap();
    image.draw_pixel(1, 1, [255, 3, 3]).unwrap();
    image.draw_pixel(2, 2, [255, 3, 3]).unwrap();
    image.draw_pixel(3, 3, [255, 3, 3]).unwrap();
    image.draw_pixel(4, 4, [255, 3, 3]).unwrap();
    for neighbour in image.get_neighbours_direction(4, 4, Direction::Right).unwrap() {
        image.draw_pixel(neighbour.0, neighbour.1, [255, 3, 3]).unwrap();
    }
    for (col, row) in [(0u32, 0u32), (1, 1), (2, 2), (3, 3), (4, 4), (5, 5), (5, 4), (5, 3)] {
        assert_eq!(image.pixel_at(col * 10, row * 10), Some((255, 3, 3, 255)));
        assert_eq!(image.pixel_at(col * 10 + 9, row * 10 + 9), Some((255, 3, 3, 255)));
    }
    assert_eq!(image.pixel_at(10, 0), Some((0, 0, 0, 0)));
    assert_eq!(image.pixel_at(60, 40), Some((0, 0, 0, 0)));
}

#[test]
fn new_keeps_a_side_that_is_a_multiple() {
    let image = PixelImage::new(10, 800).unwrap();
    assert_eq!(image.grid().size(), 800);
    assert_eq!(image.grid().resolution(), 10);
    assert_eq!(image.grid().blocks_per_side(), 80);
}

#[test]
fn new_rounds_the_side_up() {
    let image = PixelImage::new(10, 805).unwrap();
    assert_eq!(image.grid().size(), 810);
    assert_eq!(image.grid().blocks_per_side(), 81);
    assert_eq!(image.pixel_at(809, 809), Some((0, 0, 0, 0)));
    assert_eq!(image.pixel_at(810, 0), None);
}

#[test]
fn new_rejects_a_zero_resolution() {
    assert_eq!(PixelImage::new(0, 800).err(), Some(PixelError::InvalidResolution));
    assert_eq!(PixelImage::new(0, 0).err(), Some(PixelError::InvalidResolution));
}

#[test]
fn new_rejects_a_side_it_cannot_hold() {
    assert_eq!(PixelImage::new(10, 0).err(), Some(PixelError::InvalidDimensions));
    assert_eq!(PixelImage::new(7, u32::MAX).err(), Some(PixelError::InvalidDimensions));
    assert_eq!(PixelImage::new(1, u32::MAX).err(), Some(PixelError::InvalidDimensions));
}

#[test]
fn a_fresh_canvas_is_blank() {
    let image = PixelImage::new(2, 5).unwrap();
    assert_eq!(image.grid().size(), 6);
    for x in 0..6 {
        for y in 0..6 {
            assert_eq!(image.pixel_at(x, y), Some((0, 0, 0, 0)));
        }
    }
    assert_eq!(image.pixel_at(6, 0), None);
    assert_eq!(image.pixel_at(0, 6), None);
    assert_eq!(image.pixel_at(u32::MAX, u32::MAX), None);
}

#[test]
fn fill_sets_the_block_and_nothing_else() {
    let mut image = PixelImage::new(10, 800).unwrap();
    assert_eq!(image.draw_pixel(0, 0, RED), Ok(()));
    let mut set = 0;
    for x in 0..800 {
        for y in 0..800 {
            let expected = if x < 10 && y < 10 { (255, 3, 3, 255) } else { (0, 0, 0, 0) };
            assert_eq!(image.pixel_at(x, y), Some(expected));
            if x < 10 && y < 10 {
                set += 1;
            }
        }
    }
    assert_eq!(set, 100);
}

#[test]
fn fill_of_an_inner_block_keeps_earlier_fills() {
    let mut image = PixelImage::new(3, 9).unwrap();
    image.draw_pixel(1, 2, [1, 2, 3]).unwrap();
    image.draw_pixel(2, 2, [9, 8, 7]).unwrap();
    image.draw_pixel(1, 2, [4, 5, 6]).unwrap();
    for x in 0..9u32 {
        for y in 0..9u32 {
            let expected = match (x / 3, y / 3) {
                (1, 2) => (4, 5, 6, 255),
                (2, 2) => (9, 8, 7, 255),
                _ => (0, 0, 0, 0),
            };
            assert_eq!(image.pixel_at(x, y), Some(expected));
        }
    }
}

#[test]
fn fill_of_a_block_outside_the_grid_is_refused() {
    let mut image = PixelImage::new(10, 800).unwrap();
    assert_eq!(image.draw_pixel(80, 0, RED), Err(PixelError::UnknownBlock));
    assert_eq!(image.draw_pixel(0, 80, RED), Err(PixelError::UnknownBlock));
    assert_eq!(image.draw_pixel(u32::MAX, u32::MAX, RED), Err(PixelError::UnknownBlock));
    assert_eq!(image.draw_pixel(79, 79, RED), Ok(()));
    assert_eq!(image.pixel_at(0, 0), Some((0, 0, 0, 0)));
    assert_eq!(image.pixel_at(799, 799), Some((255, 3, 3, 255)));
}

#[test]
fn a_neighbour_beyond_the_grid_is_returned_and_then_refused() {
    let mut image = PixelImage::new(10, 20).unwrap();
    let found = image.get_neighbours_direction(1, 1, Direction::Right).unwrap();
    assert_eq!(found, [(2, 2), (2, 1), (2, 0)]);
    for (x, y) in found {
        assert_eq!(image.draw_pixel(x, y, RED), Err(PixelError::UnknownBlock));
    }
}

#[test]
fn pixels_lists_every_block_once() {
    let image = PixelImage::new(5, 14).unwrap();
    let coords = image.pixels();
    assert_eq!(
        coords,
        vec![(0, 0), (1, 0), (2, 0), (0, 1), (1, 1), (2, 1), (0, 2), (1, 2), (2, 2)]
    );
    assert_eq!(image.pixels(), coords);
}

#[test]
fn canvas_neighbour_queries() {
    let mut image = PixelImage::new(1, 1).unwrap();
    assert_eq!(
        image.get_neighbours_all(4, 4),
        Ok([(3, 4), (5, 4), (4, 5), (4, 3), (3, 5), (3, 3), (5, 5), (5, 3)])
    );
    assert_eq!(image.get_neighbours_adjascent(4, 4), Ok([(3, 4), (5, 4), (4, 5), (4, 3)]));
    assert_eq!(image.get_neighbours_diagonal(4, 4), Ok([(3, 5), (3, 3), (5, 5), (5, 3)]));
    assert_eq!(
        image.get_neighbours_direction(4, 4, Direction::Right),
        Ok([(5, 5), (5, 4), (5, 3)])
    );
    assert_eq!(image.get_neighbours_all(0, 4), Err(PixelError::InvalidCoordinate));
    assert_eq!(image.get_neighbours_adjascent(4, 0), Err(PixelError::InvalidCoordinate));
    assert_eq!(image.get_neighbours_diagonal(0, 0), Err(PixelError::InvalidCoordinate));
    assert_eq!(
        image.get_neighbours_direction(0, 1, Direction::Up),
        Err(PixelError::InvalidCoordinate)
    );
    assert_eq!(image.pixel_at(0, 0), Some((0, 0, 0, 0)));
}
