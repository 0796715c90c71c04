use pixel_image::grid::{corrected_size, Grid};
use pixel_image::PixelError;

#[test]
fn build_keeps_800_for_resolution_10() {
    let grid = Grid::build(10, 800).unwrap();
    assert_eq!(grid.size(), 800);
    assert_eq!(grid.blocks_per_side(), 80);
    assert_eq!(grid.coordinates().len(), 6400);
}

#[test]
fn build_corrects_805_to_810() {
    let grid = Grid::build(10, 805).unwrap();
    assert_eq!(grid.size(), 810);
    assert_eq!(grid.resolution(), 10);
}

#[test]
fn corrected_size_exact_values() {
    assert_eq!(corrected_size(10, 800), Ok(800));
    assert_eq!(corrected_size(10, 801), Ok(810));
    assert_eq!(corrected_size(10, 809), Ok(810));
    assert_eq!(corrected_size(10, 810), Ok(810));
    assert_eq!(corrected_size(10, 1), Ok(10));
    assert_eq!(corrected_size(1, 1), Ok(1));
    assert_eq!(corrected_size(1, u32::MAX), Ok(u32::MAX));
    assert_eq!(corrected_size(u32::MAX, 1), Ok(u32::MAX));
    assert_eq!(corrected_size(6, 4), Ok(6));
    assert_eq!(corrected_size(65536, 4294901760), Ok(4294901760));
}

#[test]
fn corrected_size_errors() {
    assert_eq!(corrected_size(0, 5), Err(PixelError::InvalidResolution));
    assert_eq!(corrected_size(0, 0), Err(PixelError::InvalidResolution));
    assert_eq!(corrected_size(5, 0), Err(PixelError::InvalidDimensions));
    assert_eq!(corrected_size(2, u32::MAX), Err(PixelError::InvalidDimensions));
    assert_eq!(corrected_size(65536, 4294901761), Err(PixelError::InvalidDimensions));
}

#[test]
fn corrected_size_is_the_multiple_in_the_window() {
    for resolution in 1..40u32 {
        for requested in 1..200u32 {
            let side = corrected_size(resolution, requested).unwrap();
            assert_eq!(side % resolution, 0);
            assert!(side >= requested);
            assert!(side < requested + resolution);
        }
    }
}

#[test]
fn corrected_size_agrees_with_the_search_over_squares() {
    for resolution in 1..30u64 {
        for requested in 1..150u64 {
            let mut side = requested;
            while (side * side) % (resolution * resolution) != 0 {
                side += 1;
            }
            assert_eq!(corrected_size(resolution as u32, requested as u32), Ok(side as u32));
        }
    }
}

#[test]
fn build_errors() {
    assert_eq!(Grid::build(0, 8).err(), Some(PixelError::InvalidResolution));
    assert_eq!(Grid::build(8, 0).err(), Some(PixelError::InvalidDimensions));
    assert_eq!(Grid::build(2, u32::MAX).err(), Some(PixelError::InvalidDimensions));
    assert_eq!(Grid::build(4096, 4294963200).err(), Some(PixelError::InvalidDimensions));
}

#[test]
fn block_holds_its_square_column_by_column() {
    let grid = Grid::build(2, 6).unwrap();
    assert_eq!(grid.block(0, 0), Some(&vec![(0, 0), (0, 1), (1, 0), (1, 1)]));
    assert_eq!(grid.block(2, 1), Some(&vec![(4, 2), (4, 3), (5, 2), (5, 3)]));
    assert_eq!(grid.block(1, 2), Some(&vec![(2, 4), (2, 5), (3, 4), (3, 5)]));
    assert_eq!(grid.block(3, 0), None);
    assert_eq!(grid.block(0, 3), None);
    assert_eq!(grid.block(u32::MAX, 0), None);
}

#[test]
fn blocks_partition_the_raster() {
    let grid = Grid::build(3, 10).unwrap();
    assert_eq!(grid.size(), 12);
    let mut seen = vec![0u32; 12 * 12];
    let coords = grid.coordinates();
    assert_eq!(coords.len(), 16);
    for (col, row) in coords {
        let block = grid.block(col, row).unwrap();
        assert_eq!(block.len(), 9);
        for &(x, y) in block {
            assert!(x < 12 && y < 12);
            assert_eq!((x / 3, y / 3), (col, row));
            seen[(y * 12 + x) as usize] += 1;
        }
    }
    assert!(seen.iter().all(|&n| n == 1));
}

#[test]
fn coordinates_run_row_after_row() {
    let grid = Grid::build(4, 8).unwrap();
    assert_eq!(grid.coordinates(), vec![(0, 0), (1, 0), (0, 1), (1, 1)]);
    let single = Grid::build(7, 3).unwrap();
    assert_eq!(single.size(), 7);
    assert_eq!(single.coordinates(), vec![(0, 0)]);
}
