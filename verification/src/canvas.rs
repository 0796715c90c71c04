//! The block canvas: a square raster and the grid of blocks over it.

use crate::error::PixelError;
use crate::grid::{
    block_area, build_outcome, grid_coordinates, lemma_block_covers_its_square,
    lemma_block_within_side, lemma_blocks_partition_raster, Grid,
};
use crate::neighbours::{
    adjacent_of, all_of, diagonal_of, direction_of, eligible, neighbours_adjacent, neighbours_all,
    neighbours_diagonal, neighbours_direction, Direction,
};
use crate::raster::{raster_area, raster_pixels, Raster, Rgba8};
use vstd::prelude::*;

verus! {

/// The pixels of a fresh raster of this side: every channel of every pixel
/// is zero.
pub open spec fn blank_pixels(side: u32) -> Map<(u32, u32), Rgba8> {
    Map::new(|p: (u32, u32)| p.0 < side && p.1 < side, |p: (u32, u32)| (0u8, 0u8, 0u8, 0u8))
}

/// `pixels` with every pixel of `area` set to `colour`, and the others as
/// they were.
pub open spec fn filled(pixels: Map<(u32, u32), Rgba8>, area: Set<(u32, u32)>, colour: Rgba8) -> Map<
    (u32, u32),
    Rgba8,
> {
    Map::new(
        |p: (u32, u32)| pixels.dom().contains(p),
        |p: (u32, u32)|
            if area.contains(p) {
                colour
            } else {
                pixels[p]
            },
    )
}

/// The colour that a fill writes: the three channels given, fully opaque.
pub open spec fn opaque(rgb: [u8; 3]) -> Rgba8 {
    (rgb[0], rgb[1], rgb[2], 255u8)
}

/// Whether one of the first `count` pixels of `block` is `p`.
spec fn painted(block: Seq<(u32, u32)>, count: int, p: (u32, u32)) -> bool {
    exists|k: int| 0 <= k < count && #[trigger] block[k] == p
}

/// A square raster cut into blocks, each of which is filled as a whole.
pub struct PixelImage {
    grid: Grid,
    raster: Raster,
}

impl PixelImage {
    /// The grid of blocks over the raster.
    pub closed spec fn spec_grid(&self) -> Grid {
        self.grid
    }

    /// The colour of each raw pixel of the raster.
    pub closed spec fn spec_pixels(&self) -> Map<(u32, u32), Rgba8> {
        raster_pixels(self.raster)
    }

    /// The invariant of a canvas: a well-formed grid, and a raster that is
    /// as wide and as high as the grid's side.
    pub open spec fn wf(&self) -> bool {
        &&& self.spec_grid().wf()
        &&& self.spec_pixels().dom() == raster_area(
            self.spec_grid().spec_size(),
            self.spec_grid().spec_size(),
        )
    }

    /// A canvas of blocks of side `pixel_resolution`. Its side is
    /// `image_size` rounded up to a multiple of the resolution, and every
    /// pixel starts with all channels zero. A zero resolution, a zero side
    /// and a side too large to hold are rejected.
    pub fn new(pixel_resolution: u32, image_size: u32) -> (result: Result<PixelImage, PixelError>)
        ensures
            result matches Ok(canvas) ==> canvas.wf() && canvas.spec_grid().spec_resolution()
                == pixel_resolution && build_outcome(pixel_resolution, image_size) == Ok::<
                u32,
                PixelError,
            >(canvas.spec_grid().spec_size()) && canvas.spec_pixels() == blank_pixels(
                canvas.spec_grid().spec_size(),
            ),
            result matches Ok(canvas) ==> canvas.spec_grid().spec_size() % pixel_resolution == 0
                && image_size <= canvas.spec_grid().spec_size() && canvas.spec_grid().spec_size()
                < image_size + pixel_resolution,
            result matches Err(e) ==> build_outcome(pixel_resolution, image_size) == Err::<
                u32,
                PixelError,
            >(e),
    {
        let grid = match Grid::build(pixel_resolution, image_size) {
            Ok(grid) => grid,
            Err(e) => { return Err(e); },
        };
        let side: u32 = grid.size();
        let raster = Raster::blank(side, side);
        proof {
            assert(raster_pixels(raster) =~= blank_pixels(side));
        }
        Ok(PixelImage { grid, raster })
    }

    /// The grid of blocks over the raster.
    pub fn grid(&self) -> (grid: &Grid)
        ensures
            *grid == self.spec_grid(),
    {
        &self.grid
    }

    /// The coordinates of all blocks, row after row.
    pub fn pixels(&self) -> (coords: Vec<(u32, u32)>)
        requires
            self.wf(),
        ensures
            coords@ == grid_coordinates(self.spec_grid().spec_blocks_per_side()),
            coords@.no_duplicates(),
            forall|c: (u32, u32)| coords@.contains(c) <==> self.spec_grid()@.dom().contains(c),
    {
        self.grid.coordinates()
    }

    /// The colour of the raw pixel at `(x, y)`, or `None` where the raster
    /// has no such pixel.
    pub fn pixel_at(&self, x: u32, y: u32) -> (colour: Option<Rgba8>)
        requires
            self.wf(),
        ensures
            x < self.spec_grid().spec_size() && y < self.spec_grid().spec_size() ==> colour
                == Some(self.spec_pixels()[(x, y)]),
            x >= self.spec_grid().spec_size() || y >= self.spec_grid().spec_size() ==> colour
                == None::<Rgba8>,
    {
        let side: u32 = self.grid.size();
        if x < side && y < side {
            assert(raster_area(side, side).contains((x, y)));
            Some(self.raster.get(x, y))
        } else {
            None
        }
    }

    /// Sets every raw pixel of the block at `(x, y)` to the given colour,
    /// fully opaque, and leaves the rest of the raster as it was. Where the
    /// grid has no such block, the canvas is left unchanged and
    /// `UnknownBlock` is returned.
    pub fn draw_pixel(&mut self, x: u32, y: u32, rgb: [u8; 3]) -> (result: Result<(), PixelError>)
        requires
            old(self).wf(),
        ensures
            final(self).wf(),
            final(self).spec_grid() == old(self).spec_grid(),
            old(self).spec_grid().has_block(x, y) ==> result == Ok::<(), PixelError>(())
                && final(self).spec_pixels() == filled(
                old(self).spec_pixels(),
                block_area(old(self).spec_grid().spec_resolution(), x, y),
                opaque(rgb),
            ),
            !old(self).spec_grid().has_block(x, y) ==> result == Err::<(), PixelError>(
                PixelError::UnknownBlock,
            ) && final(self).spec_pixels() == old(self).spec_pixels(),
    {
        let colour: Rgba8 = (rgb[0], rgb[1], rgb[2], 255u8);
        let block = match self.grid.block(x, y) {
            Some(block) => block,
            None => { return Err(PixelError::UnknownBlock); },
        };
        let ghost before = raster_pixels(self.raster);
        let ghost resolution = self.grid.spec_resolution();
        let ghost side = self.grid.spec_size();
        proof {
            lemma_blocks_partition_raster(resolution, side);
            assert(self.grid@.dom().contains((x, y)));
            assert forall|k: int| 0 <= k < block@.len() implies before.dom().contains(
                #[trigger] block@[k],
            ) by {
                assert(self.grid@[(x, y)].contains(block@[k]));
                assert(raster_area(side, side).contains(block@[k]));
            }
        }
        let mut i: usize = 0;
        while i < block.len()
            invariant
                i <= block@.len(),
                self.grid == old(self).grid,
                raster_pixels(self.raster).dom() == before.dom(),
                forall|k: int| 0 <= k < block@.len() ==> before.dom().contains(#[trigger] block@[k]),
                forall|p: (u32, u32)| #[trigger]
                    before.dom().contains(p) ==> raster_pixels(self.raster)[p] == if painted(
                        block@,
                        i as int,
                        p,
                    ) {
                        colour
                    } else {
                        before[p]
                    },
            decreases block@.len() - i,
        {
            let at: (u32, u32) = block[i];
            self.raster.set(at.0, at.1, colour);
            proof {
                assert(raster_pixels(self.raster).dom() =~= before.dom());
                assert forall|p: (u32, u32)| #[trigger]
                    before.dom().contains(p) implies raster_pixels(self.raster)[p] == if painted(
                    block@,
                    i + 1,
                    p,
                ) {
                    colour
                } else {
                    before[p]
                } by {
                    if p == at {
                        assert(block@[i as int] == p);
                    } else if painted(block@, i as int, p) {
                        let k = choose|k: int| 0 <= k < i && #[trigger] block@[k] == p;
                        assert(block@[k] == p);
                    } else if painted(block@, i + 1, p) {
                        let k = choose|k: int| 0 <= k < i + 1 && #[trigger] block@[k] == p;
                        assert(k < i);
                    }
                }
            }
            i += 1;
        }
        proof {
            let area = block_area(resolution, x, y);
            lemma_block_within_side(resolution, side, x, y);
            lemma_block_covers_its_square(resolution, x, y);
            assert forall|p: (u32, u32)| painted(block@, block@.len() as int, p) <==> area.contains(
                p,
            ) by {
                if painted(block@, block@.len() as int, p) {
                    let k = choose|k: int| 0 <= k < block@.len() && #[trigger] block@[k] == p;
                    assert(block@.contains(p));
                    assert(block@.to_set().contains(p));
                }
                if area.contains(p) {
                    assert(block@.to_set().contains(p));
                    assert(block@.contains(p));
                    let k = choose|k: int| 0 <= k < block@.len() && block@[k] == p;
                    assert(block@[k] == p);
                }
            }
            assert(raster_pixels(self.raster) =~= filled(before, area, colour));
        }
        Ok(())
    }

    /// All eight neighbours of the block at `(x, y)`; see
    /// [`neighbours_all`]. The canvas is not changed.
    pub fn get_neighbours_all(&mut self, x: u32, y: u32) -> (result: Result<
        [(u32, u32); 8],
        PixelError,
    >)
        ensures
            *final(self) == *old(self),
            eligible(x, y) ==> result.is_ok() && result.unwrap()@ == all_of(x, y),
            !eligible(x, y) ==> result == Err::<[(u32, u32); 8], PixelError>(
                PixelError::InvalidCoordinate,
            ),
    {
        neighbours_all(x, y)
    }

    /// The four neighbours that share an edge with the block at `(x, y)`;
    /// see [`neighbours_adjacent`]. The canvas is not changed.
    pub fn get_neighbours_adjascent(&mut self, x: u32, y: u32) -> (result: Result<
        [(u32, u32); 4],
        PixelError,
    >)
        ensures
            *final(self) == *old(self),
            eligible(x, y) ==> result.is_ok() && result.unwrap()@ == adjacent_of(x, y),
            !eligible(x, y) ==> result == Err::<[(u32, u32); 4], PixelError>(
                PixelError::InvalidCoordinate,
            ),
    {
        neighbours_adjacent(x, y)
    }

    /// The four neighbours that share only a corner with the block at
    /// `(x, y)`; see [`neighbours_diagonal`]. The canvas is not changed.
    pub fn get_neighbours_diagonal(&mut self, x: u32, y: u32) -> (result: Result<
        [(u32, u32); 4],
        PixelError,
    >)
        ensures
            *final(self) == *old(self),
            eligible(x, y) ==> result.is_ok() && result.unwrap()@ == diagonal_of(x, y),
            !eligible(x, y) ==> result == Err::<[(u32, u32); 4], PixelError>(
                PixelError::InvalidCoordinate,
            ),
    {
        neighbours_diagonal(x, y)
    }

    /// The three neighbours on one side of the block at `(x, y)`; see
    /// [`neighbours_direction`]. The canvas is not changed.
    pub fn get_neighbours_direction(&mut self, x: u32, y: u32, direction: Direction) -> (result:
        Result<[(u32, u32); 3], PixelError>)
        ensures
            *final(self) == *old(self),
            eligible(x, y) ==> result.is_ok() && result.unwrap()@ == direction_of(x, y, direction),
            !eligible(x, y) ==> result == Err::<[(u32, u32); 3], PixelError>(
                PixelError::InvalidCoordinate,
            ),
    {
        neighbours_direction(x, y, direction)
    }
}

} // verus!
