//! The grid of blocks over a square raster: the side is rounded up to a
//! multiple of the block resolution, and each block owns the square of raw
//! pixels under it.

use crate::error::PixelError;
use vstd::arithmetic::div_mod::{lemma_fundamental_div_mod, lemma_fundamental_div_mod_converse};
use vstd::prelude::*;

verus! {

/// `requested` rounded up to the nearest multiple of `resolution`.
pub open spec fn round_up(resolution: int, requested: int) -> int {
    ((requested + resolution - 1) / resolution) * resolution
}

/// Whether a square raster of this side, four bytes to the pixel, can be
/// held in memory: `4 * side * side` is at most `isize::MAX`.
pub open spec fn side_fits(side: int) -> bool {
    4 * (side * side) <= isize::MAX as int
}

/// The rounded side is a multiple of the resolution, is not below the
/// requested side, and exceeds it by less than one resolution.
pub proof fn lemma_round_up_bounds(resolution: int, requested: int)
    requires
        resolution >= 1,
        requested >= 1,
    ensures
        round_up(resolution, requested) % resolution == 0,
        round_up(resolution, requested) >= requested,
        round_up(resolution, requested) < requested + resolution,
        round_up(resolution, requested) / resolution == (requested + resolution - 1) / resolution,
{
    let n = requested + resolution - 1;
    let q = n / resolution;
    lemma_fundamental_div_mod(n, resolution);
    assert(resolution * q == q * resolution) by (nonlinear_arith);
    lemma_fundamental_div_mod_converse(q * resolution, resolution, q, 0);
}

/// Only one multiple of the resolution lies in the window that starts at the
/// requested side and is one resolution wide: the rounded side.
pub proof fn lemma_round_up_unique(resolution: int, requested: int, side: int)
    requires
        resolution >= 1,
        requested >= 1,
        side % resolution == 0,
        requested <= side < requested + resolution,
    ensures
        side == round_up(resolution, requested),
{
    lemma_round_up_bounds(resolution, requested);
    let r = round_up(resolution, requested);
    lemma_fundamental_div_mod(side, resolution);
    lemma_fundamental_div_mod(r, resolution);
    let a = side / resolution;
    let b = r / resolution;
    assert(a == b) by (nonlinear_arith)
        requires
            resolution >= 1,
            side == resolution * a,
            r == resolution * b,
            -resolution < side - r < resolution,
    ;
}

/// A side that is a multiple of the resolution has a square that is a
/// multiple of the resolution's square.
pub proof fn lemma_round_up_square(resolution: int, requested: int)
    requires
        resolution >= 1,
        requested >= 1,
    ensures
        (round_up(resolution, requested) * round_up(resolution, requested)) % (resolution
            * resolution) == 0,
{
    let q = (requested + resolution - 1) / resolution;
    let s = round_up(resolution, requested);
    assert(s * s == (q * q) * (resolution * resolution)) by (nonlinear_arith)
        requires
            s == q * resolution,
    ;
    assert(resolution * resolution >= 1) by (nonlinear_arith)
        requires
            resolution >= 1,
    ;
    lemma_fundamental_div_mod_converse(s * s, resolution * resolution, q * q, 0);
}

/// A number whose square is a multiple of the square of `r` is itself a
/// multiple of `r`.
pub proof fn lemma_square_multiple(r: int, s: int, k: int)
    requires
        r >= 1,
        s >= 0,
        s * s == k * (r * r),
    ensures
        s % r == 0,
    decreases r,
{
    let q = s / r;
    let t = s % r;
    lemma_fundamental_div_mod(s, r);
    if t != 0 {
        let u = k * r - q * s;
        let v = if u < 0 {
            -u
        } else {
            u
        };
        assert(s - q * r == t) by (nonlinear_arith)
            requires
                s == r * q + t,
        ;
        assert(u * u == k * (t * t)) by (nonlinear_arith)
            requires
                u == k * r - q * s,
                t == s - q * r,
                s * s == k * (r * r),
        ;
        assert(v * v == u * u) by (nonlinear_arith)
            requires
                v == u || v == -u,
        ;
        lemma_square_multiple(t, v, k);
        let m = v / t;
        lemma_fundamental_div_mod(v, t);
        assert(m >= 0) by (nonlinear_arith)
            requires
                v == t * m,
                v >= 0,
                t >= 1,
        ;
        assert(k == m * m) by (nonlinear_arith)
            requires
                v == t * m,
                v * v == k * (t * t),
                t >= 1,
        ;
        assert(s == m * r) by (nonlinear_arith)
            requires
                s * s == k * (r * r),
                k == m * m,
                s >= 0,
                m >= 0,
                r >= 1,
        ;
        lemma_fundamental_div_mod_converse(s, r, m, 0);
    }
}

/// The rounded side is the first side, counting up from the requested one,
/// whose square is a multiple of the resolution's square: the square of the
/// rounded side is such a multiple, and that of no `side` before it is.
pub proof fn lemma_round_up_is_first_square(resolution: int, requested: int, side: int)
    requires
        resolution >= 1,
        requested >= 1,
    ensures
        requested <= side < round_up(resolution, requested) ==> (side * side) % (resolution
            * resolution) != 0,
        (round_up(resolution, requested) * round_up(resolution, requested)) % (resolution
            * resolution) == 0,
{
    lemma_round_up_square(resolution, requested);
    lemma_round_up_bounds(resolution, requested);
    let area = resolution * resolution;
    assert(area >= 1) by (nonlinear_arith)
        requires
            area == resolution * resolution,
            resolution >= 1,
    ;
    if requested <= side < round_up(resolution, requested) && (side * side) % area == 0 {
        let k = (side * side) / area;
        lemma_fundamental_div_mod(side * side, area);
        assert(side * side == k * (resolution * resolution)) by (nonlinear_arith)
            requires
                side * side == area * k + 0,
                area == resolution * resolution,
        ;
        lemma_square_multiple(resolution, side, k);
        lemma_round_up_unique(resolution, requested, side);
    }
}

/// The side that a canvas gets for a block resolution and a requested side:
/// the requested side rounded up to a multiple of the resolution. A zero
/// resolution is rejected, and so is a zero side and a rounded side that no
/// `u32` holds.
pub fn corrected_size(resolution: u32, requested: u32) -> (result: Result<u32, PixelError>)
    ensures
        resolution == 0 ==> result == Err::<u32, PixelError>(PixelError::InvalidResolution),
        resolution > 0 && (requested == 0 || round_up(resolution as int, requested as int)
            > u32::MAX) ==> result == Err::<u32, PixelError>(PixelError::InvalidDimensions),
        resolution > 0 && requested > 0 && round_up(resolution as int, requested as int)
            <= u32::MAX ==> result == Ok::<u32, PixelError>(
            round_up(resolution as int, requested as int) as u32,
        ),
        result matches Ok(side) ==> side % resolution == 0 && requested <= side && side
            < requested + resolution,
{
    if resolution == 0 {
        return Err(PixelError::InvalidResolution);
    }
    if requested == 0 {
        return Err(PixelError::InvalidDimensions);
    }
    let wide: u64 = requested as u64 + resolution as u64 - 1;
    let count: u64 = wide / resolution as u64;
    proof {
        lemma_round_up_bounds(resolution as int, requested as int);
    }
    let side: u64 = count * resolution as u64;
    if side > u32::MAX as u64 {
        return Err(PixelError::InvalidDimensions);
    }
    Ok(side as u32)
}

/// The raw pixel that stands at place `k` of the block in column `col` and
/// row `row`: the block is walked column by column, each column downwards.
pub open spec fn block_pixel(resolution: u32, col: u32, row: u32, k: int) -> (u32, u32) {
    ((col * resolution + k / (resolution as int)) as u32, (row * resolution + k % (
    resolution as int)) as u32)
}

/// The raw pixels of the block in column `col` and row `row`, in the order
/// in which the grid stores them.
pub open spec fn block_pixels(resolution: u32, col: u32, row: u32) -> Seq<(u32, u32)> {
    Seq::new((resolution * resolution) as nat, |k: int| block_pixel(resolution, col, row, k))
}

/// The square of raw coordinates under the block in column `col` and row
/// `row`.
pub open spec fn block_area(resolution: u32, col: u32, row: u32) -> Set<(u32, u32)> {
    Set::new(
        |p: (u32, u32)|
            col * resolution <= p.0 < (col + 1) * resolution && row * resolution <= p.1 < (row
                + 1) * resolution,
    )
}

/// The block coordinate at place `i` of a grid that is `per_side` blocks
/// wide: rows follow one another, the column runs fastest.
pub open spec fn coordinate_at(per_side: int, i: int) -> (u32, u32) {
    ((i % per_side) as u32, (i / per_side) as u32)
}

/// The pixels of one block, built as the grid stores them.
fn build_block(resolution: u32, col: u32, row: u32) -> (pixels: Vec<(u32, u32)>)
    requires
        resolution > 0,
        (col + 1) * resolution <= u32::MAX,
        (row + 1) * resolution <= u32::MAX,
    ensures
        pixels@ == block_pixels(resolution, col, row),
{
    proof {
        assert(col * resolution + resolution == (col + 1) * resolution) by (nonlinear_arith);
        assert(row * resolution + resolution == (row + 1) * resolution) by (nonlinear_arith);
    }
    let offset_x: u32 = col * resolution;
    let offset_y: u32 = row * resolution;
    let mut pixels: Vec<(u32, u32)> = Vec::new();
    let mut x: u32 = 0;
    while x < resolution
        invariant
            resolution > 0,
            x <= resolution,
            offset_x == col * resolution,
            offset_y == row * resolution,
            offset_x + resolution <= u32::MAX,
            offset_y + resolution <= u32::MAX,
            pixels@.len() == x * resolution,
            forall|k: int|
                0 <= k < pixels@.len() ==> pixels@[k] == block_pixel(resolution, col, row, k),
        decreases resolution - x,
    {
        let mut y: u32 = 0;
        while y < resolution
            invariant
                resolution > 0,
                x < resolution,
                y <= resolution,
                offset_x == col * resolution,
                offset_y == row * resolution,
                offset_x + resolution <= u32::MAX,
                offset_y + resolution <= u32::MAX,
                pixels@.len() == x * resolution + y,
                forall|k: int|
                    0 <= k < pixels@.len() ==> pixels@[k] == block_pixel(resolution, col, row, k),
            decreases resolution - y,
        {
            proof {
                lemma_fundamental_div_mod_converse(
                    x * resolution + y,
                    resolution as int,
                    x as int,
                    y as int,
                );
            }
            pixels.push((offset_x + x, offset_y + y));
            y += 1;
        }
        proof {
            assert(x * resolution + resolution == (x + 1) * resolution) by (nonlinear_arith);
        }
        x += 1;
    }
    proof {
        assert(pixels@ =~= block_pixels(resolution, col, row));
    }
    pixels
}

/// The block under which a raw coordinate lies.
pub open spec fn owner(resolution: u32, p: (u32, u32)) -> (u32, u32) {
    (p.0 / resolution, p.1 / resolution)
}

/// A block has as many pixels as the square of the resolution, none of them
/// twice, and they are the raw coordinates of the square under it.
pub proof fn lemma_block_covers_its_square(resolution: u32, col: u32, row: u32)
    requires
        resolution > 0,
        (col + 1) * resolution <= u32::MAX,
        (row + 1) * resolution <= u32::MAX,
    ensures
        block_pixels(resolution, col, row).len() == resolution * resolution,
        block_pixels(resolution, col, row).no_duplicates(),
        block_pixels(resolution, col, row).to_set() == block_area(resolution, col, row),
{
    let res = resolution as int;
    let pixels = block_pixels(resolution, col, row);
    assert(res * res >= 0) by (nonlinear_arith);
    assert((col + 1) * res == col * res + res && (row + 1) * res == row * res + res)
        by (nonlinear_arith);
    assert(col * res >= 0 && row * res >= 0) by (nonlinear_arith)
        requires
            res > 0,
            col >= 0,
            row >= 0,
    ;
    assert forall|k: int| 0 <= k < res * res implies 0 <= #[trigger] (k / res) < res && 0 <= k
        % res < res by {
        lemma_fundamental_div_mod(k, res);
        assert(k / res < res) by (nonlinear_arith)
            requires
                k == res * (k / res) + k % res,
                0 <= k % res < res,
                k < res * res,
        ;
        assert(k / res >= 0) by (nonlinear_arith)
            requires
                k == res * (k / res) + k % res,
                0 <= k % res < res,
                k >= 0,
        ;
    }
    assert forall|i: int, j: int|
        0 <= i < pixels.len() && 0 <= j < pixels.len() && i != j implies pixels[i] != pixels[j] by {
        lemma_fundamental_div_mod(i, res);
        lemma_fundamental_div_mod(j, res);
        assert(0 <= i / res < res && 0 <= j / res < res);
    }
    assert forall|p: (u32, u32)|
        pixels.to_set().contains(p) <==> block_area(resolution, col, row).contains(p) by {
        if pixels.contains(p) {
            let k = choose|k: int| 0 <= k < pixels.len() && pixels[k] == p;
            assert(0 <= k / res < res);
        }
        if block_area(resolution, col, row).contains(p) {
            let dx = p.0 - col * res;
            let dy = p.1 - row * res;
            let k = dx * res + dy;
            assert(0 <= k < res * res) by (nonlinear_arith)
                requires
                    0 <= dx < res,
                    0 <= dy < res,
                    k == dx * res + dy,
            ;
            lemma_fundamental_div_mod_converse(k, res, dx, dy);
            assert(pixels[k] == p);
        }
    }
    assert(pixels.to_set() =~= block_area(resolution, col, row));
}

/// A block of the grid ends at or before the side of the raster.
pub proof fn lemma_block_within_side(resolution: u32, side: u32, col: u32, row: u32)
    requires
        resolution > 0,
        side % resolution == 0,
        col < side / resolution,
        row < side / resolution,
    ensures
        (col + 1) * resolution <= side,
        (row + 1) * resolution <= side,
{
    let res = resolution as int;
    let per_side = side as int / res;
    lemma_fundamental_div_mod(side as int, res);
    assert((col + 1) * res <= per_side * res && (row + 1) * res <= per_side * res && per_side
        * res == res * per_side) by (nonlinear_arith)
        requires
            col < per_side,
            row < per_side,
            res > 0,
    ;
}

/// The blocks of a grid cut the raster into squares: every raw coordinate
/// below the side lies in the block that owns it, and a block holds no raw
/// coordinate but those it owns, all of them below the side. So no raw
/// coordinate is in two blocks and none is left out.
pub proof fn lemma_blocks_partition_raster(resolution: u32, side: u32)
    requires
        resolution > 0,
        side % resolution == 0,
    ensures
        forall|p: (u32, u32)|
            p.0 < side && p.1 < side ==> grid_model(resolution, side).dom().contains(
                #[trigger] owner(resolution, p),
            ) && grid_model(resolution, side)[owner(resolution, p)].contains(p),
        forall|c: (u32, u32), p: (u32, u32)|
            grid_model(resolution, side).dom().contains(c) && (#[trigger] grid_model(
                resolution,
                side,
            )[c].contains(p)) ==> p.0 < side && p.1 < side && owner(resolution, p) == c,
        forall|c: (u32, u32)| #[trigger]
            grid_model(resolution, side).dom().contains(c) ==> grid_model(
                resolution,
                side,
            )[c].len() == resolution * resolution && grid_model(
                resolution,
                side,
            )[c].no_duplicates(),
{
    let res = resolution as int;
    let per_side = side as int / res;
    lemma_fundamental_div_mod(side as int, res);
    assert(res * per_side == side);
    assert forall|c: (u32, u32)| c.0 < per_side && c.1 < per_side implies (c.0 + 1) * res <= side
        && (c.1 + 1) * res <= side by {
        lemma_block_within_side(resolution, side, c.0, c.1);
    }
    assert forall|c: (u32, u32)| #[trigger]
        grid_model(resolution, side).dom().contains(c) implies grid_model(
        resolution,
        side,
    )[c].len() == resolution * resolution && grid_model(resolution, side)[c].no_duplicates() by {
        lemma_block_covers_its_square(resolution, c.0, c.1);
    }
    assert forall|p: (u32, u32)| p.0 < side && p.1 < side implies grid_model(
        resolution,
        side,
    ).dom().contains(#[trigger] owner(resolution, p)) && grid_model(resolution, side)[owner(
        resolution,
        p,
    )].contains(p) by {
        let c = owner(resolution, p);
        lemma_owner_bounds(res, per_side, p.0 as int);
        lemma_owner_bounds(res, per_side, p.1 as int);
        lemma_block_covers_its_square(resolution, c.0, c.1);
        assert(block_area(resolution, c.0, c.1).contains(p));
        assert(block_pixels(resolution, c.0, c.1).to_set().contains(p));
    }
    assert forall|c: (u32, u32), p: (u32, u32)|
        grid_model(resolution, side).dom().contains(c) && (#[trigger] grid_model(
            resolution,
            side,
        )[c].contains(p)) implies p.0 < side && p.1 < side && owner(resolution, p) == c by {
        lemma_block_covers_its_square(resolution, c.0, c.1);
        assert(block_pixels(resolution, c.0, c.1).to_set().contains(p));
        assert(block_area(resolution, c.0, c.1).contains(p));
        assert((c.0 + 1) * res == c.0 * res + res && (c.1 + 1) * res == c.1 * res + res)
            by (nonlinear_arith);
        lemma_fundamental_div_mod_converse(p.0 as int, res, c.0 as int, p.0 - c.0 * res);
        lemma_fundamental_div_mod_converse(p.1 as int, res, c.1 as int, p.1 - c.1 * res);
    }
}

/// A coordinate below `per_side * res` lies in the strip numbered
/// `v / res`, which is below `per_side`.
proof fn lemma_owner_bounds(res: int, per_side: int, v: int)
    requires
        res > 0,
        0 <= v < res * per_side,
    ensures
        0 <= v / res < per_side,
        (v / res) * res <= v < (v / res + 1) * res,
{
    lemma_fundamental_div_mod(v, res);
    let q = v / res;
    assert(q < per_side && q >= 0 && (q + 1) * res == q * res + res && res * q == q * res)
        by (nonlinear_arith)
        requires
            v == res * q + v % res,
            0 <= v % res < res,
            0 <= v < res * per_side,
    ;
}

/// The coordinates of all blocks of a grid that is `per_side` blocks wide,
/// row after row.
pub open spec fn grid_coordinates(per_side: int) -> Seq<(u32, u32)> {
    Seq::new((per_side * per_side) as nat, |i: int| coordinate_at(per_side, i))
}

/// The listing of a grid's coordinates names each block once, and nothing
/// that is not a block.
pub proof fn lemma_coordinates_are_the_blocks(per_side: int)
    requires
        0 <= per_side <= u32::MAX,
    ensures
        grid_coordinates(per_side).len() == per_side * per_side,
        grid_coordinates(per_side).no_duplicates(),
        forall|c: (u32, u32)|
            grid_coordinates(per_side).contains(c) <==> c.0 < per_side && c.1 < per_side,
{
    let coords = grid_coordinates(per_side);
    assert(per_side * per_side >= 0) by (nonlinear_arith);
    if per_side == 0 {
        assert(coords.len() == 0);
        assert forall|c: (u32, u32)| !coords.contains(c) by {}
    } else {
        assert forall|k: int| 0 <= k < per_side * per_side implies 0 <= #[trigger] (k / per_side)
            < per_side && 0 <= k % per_side < per_side by {
            lemma_fundamental_div_mod(k, per_side);
            assert(0 <= k / per_side < per_side) by (nonlinear_arith)
                requires
                    k == per_side * (k / per_side) + k % per_side,
                    0 <= k % per_side < per_side,
                    0 <= k < per_side * per_side,
            ;
        }
        assert forall|i: int, j: int|
            0 <= i < coords.len() && 0 <= j < coords.len() && i != j implies coords[i] != coords[j] by {
            lemma_fundamental_div_mod(i, per_side);
            lemma_fundamental_div_mod(j, per_side);
            assert(0 <= i / per_side < per_side && 0 <= j / per_side < per_side);
        }
        assert forall|c: (u32, u32)| coords.contains(c) <==> c.0 < per_side && c.1 < per_side by {
            if coords.contains(c) {
                let k = choose|k: int| 0 <= k < coords.len() && coords[k] == c;
                assert(0 <= k / per_side < per_side);
            }
            if c.0 < per_side && c.1 < per_side {
                let k = c.1 * per_side + c.0;
                assert(0 <= k < per_side * per_side) by (nonlinear_arith)
                    requires
                        0 <= c.0 < per_side,
                        0 <= c.1 < per_side,
                        k == c.1 * per_side + c.0,
                ;
                lemma_fundamental_div_mod_converse(k, per_side, c.1 as int, c.0 as int);
                assert(coords[k] == c);
            }
        }
    }
}

/// What a grid of this resolution over a raster of this side maps: each
/// block coordinate below `side / resolution` on both axes, to that block's
/// pixels.
pub open spec fn grid_model(resolution: u32, side: u32) -> Map<(u32, u32), Seq<(u32, u32)>> {
    Map::new(
        |c: (u32, u32)| c.0 < side / resolution && c.1 < side / resolution,
        |c: (u32, u32)| block_pixels(resolution, c.0, c.1),
    )
}

/// What building a grid gives: the side of the raster, or why there is none.
pub open spec fn build_outcome(resolution: u32, requested: u32) -> Result<u32, PixelError> {
    if resolution == 0 {
        Err(PixelError::InvalidResolution)
    } else if requested == 0 || round_up(resolution as int, requested as int) > u32::MAX
        || !side_fits(round_up(resolution as int, requested as int)) {
        Err(PixelError::InvalidDimensions)
    } else {
        Ok(round_up(resolution as int, requested as int) as u32)
    }
}

/// The blocks of a square raster, each with the raw pixels it covers. Built
/// once; nothing is added or removed afterwards.
pub struct Grid {
    resolution: u32,
    side: u32,
    blocks: Vec<Vec<(u32, u32)>>,
}

impl View for Grid {
    type V = Map<(u32, u32), Seq<(u32, u32)>>;

    /// The mapping from block coordinate to the block's pixels.
    open spec fn view(&self) -> Map<(u32, u32), Seq<(u32, u32)>> {
        grid_model(self.spec_resolution(), self.spec_size())
    }
}

impl Grid {
    /// The side of one block, in raw pixels.
    pub closed spec fn spec_resolution(&self) -> u32 {
        self.resolution
    }

    /// The side of the raster, in raw pixels.
    pub closed spec fn spec_size(&self) -> u32 {
        self.side
    }

    /// The number of blocks along one side.
    pub open spec fn spec_blocks_per_side(&self) -> int {
        self.spec_size() as int / self.spec_resolution() as int
    }

    /// Whether `(x, y)` names a block of this grid.
    pub open spec fn has_block(&self, x: u32, y: u32) -> bool {
        x < self.spec_blocks_per_side() && y < self.spec_blocks_per_side()
    }

    /// The stored blocks are those of the view, row after row.
    pub closed spec fn holds_model(&self) -> bool {
        let per_side = self.side as int / self.resolution as int;
        &&& self.blocks@.len() == per_side * per_side
        &&& forall|i: int|
            0 <= i < self.blocks@.len() ==> (#[trigger] self.blocks@[i])@ == block_pixels(
                self.resolution,
                coordinate_at(per_side, i).0,
                coordinate_at(per_side, i).1,
            )
    }

    /// The invariant of a grid: a positive resolution, a positive side that
    /// is a multiple of it, and the blocks of the view in store.
    pub open spec fn wf(&self) -> bool {
        &&& self.spec_resolution() > 0
        &&& self.spec_size() > 0
        &&& self.spec_size() % self.spec_resolution() == 0
        &&& side_fits(self.spec_size() as int)
        &&& self.holds_model()
    }

    /// Builds the grid for a block resolution and a requested side. The side
    /// is rounded up to a multiple of the resolution; a zero resolution, a
    /// zero side and a side too large to hold are rejected.
    pub fn build(resolution: u32, requested: u32) -> (result: Result<Grid, PixelError>)
        ensures
            result matches Ok(grid) ==> grid.wf() && grid.spec_resolution() == resolution
                && build_outcome(resolution, requested) == Ok::<u32, PixelError>(grid.spec_size()),
            result matches Ok(grid) ==> grid.spec_size() % resolution == 0 && requested
                <= grid.spec_size() && grid.spec_size() < requested + resolution,
            result matches Err(e) ==> build_outcome(resolution, requested) == Err::<
                u32,
                PixelError,
            >(e),
    {
        let side: u32 = match corrected_size(resolution, requested) {
            Ok(side) => side,
            Err(e) => { return Err(e); },
        };
        proof {
            assert(side * side <= 0xffff_ffff * 0xffff_ffff) by (nonlinear_arith)
                requires
                    0 <= side <= 0xffff_ffff,
            ;
        }
        let area: u64 = side as u64 * side as u64;
        if 4u128 * (area as u128) > isize::MAX as u128 {
            return Err(PixelError::InvalidDimensions);
        }
        let per_side: u32 = side / resolution;
        proof {
            lemma_fundamental_div_mod(side as int, resolution as int);
            assert(per_side * resolution == side) by (nonlinear_arith)
                requires
                    side == resolution * per_side + 0,
            ;
        }
        let mut blocks: Vec<Vec<(u32, u32)>> = Vec::new();
        let mut row: u32 = 0;
        while row < per_side
            invariant
                resolution > 0,
                row <= per_side,
                per_side * resolution == side,
                blocks@.len() == row * per_side,
                forall|i: int|
                    0 <= i < blocks@.len() ==> (#[trigger] blocks@[i])@ == block_pixels(
                        resolution,
                        coordinate_at(per_side as int, i).0,
                        coordinate_at(per_side as int, i).1,
                    ),
            decreases per_side - row,
        {
            let mut col: u32 = 0;
            while col < per_side
                invariant
                    resolution > 0,
                    row < per_side,
                    col <= per_side,
                    per_side * resolution == side,
                    blocks@.len() == row * per_side + col,
                    forall|i: int|
                        0 <= i < blocks@.len() ==> (#[trigger] blocks@[i])@ == block_pixels(
                            resolution,
                            coordinate_at(per_side as int, i).0,
                            coordinate_at(per_side as int, i).1,
                        ),
                decreases per_side - col,
            {
                proof {
                    assert((col + 1) * resolution <= per_side * resolution) by (nonlinear_arith)
                        requires
                            col < per_side,
                            resolution > 0,
                    ;
                    assert((row + 1) * resolution <= per_side * resolution) by (nonlinear_arith)
                        requires
                            row < per_side,
                            resolution > 0,
                    ;
                    lemma_fundamental_div_mod_converse(
                        row * per_side + col,
                        per_side as int,
                        row as int,
                        col as int,
                    );
                }
                let block = build_block(resolution, col, row);
                blocks.push(block);
                col += 1;
            }
            proof {
                assert(row * per_side + per_side == (row + 1) * per_side) by (nonlinear_arith);
            }
            row += 1;
        }
        Ok(Grid { resolution, side, blocks })
    }

    /// The side of one block, in raw pixels.
    pub fn resolution(&self) -> (resolution: u32)
        ensures
            resolution == self.spec_resolution(),
    {
        self.resolution
    }

    /// The side of the raster, in raw pixels.
    pub fn size(&self) -> (side: u32)
        ensures
            side == self.spec_size(),
    {
        self.side
    }

    /// The number of blocks along one side.
    pub fn blocks_per_side(&self) -> (count: u32)
        requires
            self.wf(),
        ensures
            count == self.spec_blocks_per_side(),
    {
        self.side / self.resolution
    }

    /// The raw pixels of the block at `(x, y)`, or `None` where the grid has
    /// no such block.
    pub fn block(&self, x: u32, y: u32) -> (result: Option<&Vec<(u32, u32)>>)
        requires
            self.wf(),
        ensures
            self.has_block(x, y) ==> result.is_some() && result.unwrap()@ == self@[(x, y)],
            !self.has_block(x, y) ==> result.is_none(),
    {
        let per_side: u32 = self.side / self.resolution;
        if x >= per_side || y >= per_side {
            return None;
        }
        proof {
            assert(y * per_side + x < per_side * per_side) by (nonlinear_arith)
                requires
                    x < per_side,
                    y < per_side,
            ;
            lemma_fundamental_div_mod_converse(
                y * per_side + x,
                per_side as int,
                y as int,
                x as int,
            );
        }
        let width: usize = per_side as usize;
        let column: usize = x as usize;
        let line: usize = y as usize;
        let total: usize = self.blocks.len();
        assert(line * width + column < total && 0 <= line * width) by (nonlinear_arith)
            requires
                line == y,
                width == per_side,
                column == x,
                y * per_side + x < per_side * per_side,
                total == per_side * per_side,
        ;
        let index: usize = line * width + column;
        Some(&self.blocks[index])
    }

    /// The coordinates of all blocks, row after row, the column running
    /// fastest.
    pub fn coordinates(&self) -> (coords: Vec<(u32, u32)>)
        requires
            self.wf(),
        ensures
            coords@ == grid_coordinates(self.spec_blocks_per_side()),
            coords@.no_duplicates(),
            forall|c: (u32, u32)| coords@.contains(c) <==> self@.dom().contains(c),
    {
        let per_side: u32 = self.side / self.resolution;
        let mut coords: Vec<(u32, u32)> = Vec::new();
        let mut row: u32 = 0;
        while row < per_side
            invariant
                row <= per_side,
                coords@.len() == row * per_side,
                forall|i: int|
                    0 <= i < coords@.len() ==> coords@[i] == coordinate_at(per_side as int, i),
            decreases per_side - row,
        {
            let mut col: u32 = 0;
            while col < per_side
                invariant
                    row < per_side,
                    col <= per_side,
                    coords@.len() == row * per_side + col,
                    forall|i: int|
                        0 <= i < coords@.len() ==> coords@[i] == coordinate_at(per_side as int, i),
                decreases per_side - col,
            {
                proof {
                    lemma_fundamental_div_mod_converse(
                        row * per_side + col,
                        per_side as int,
                        row as int,
                        col as int,
                    );
                }
                coords.push((col, row));
                col += 1;
            }
            proof {
                assert(row * per_side + per_side == (row + 1) * per_side) by (nonlinear_arith);
            }
            row += 1;
        }
        proof {
            assert(coords@ =~= grid_coordinates(per_side as int));
            lemma_coordinates_are_the_blocks(per_side as int);
        }
        coords
    }
}

/// The blocks of a well-formed grid cut its raster into squares. Every raw
/// coordinate below the side is a pixel of the block that owns it. A block
/// holds only raw coordinates below the side that it owns, so no two blocks
/// share one. And each block holds as many pixels as the square of the
/// resolution, none of them twice.
pub proof fn lemma_grid_partitions_raster(grid: Grid)
    requires
        grid.wf(),
    ensures
        forall|p: (u32, u32)|
            p.0 < grid.spec_size() && p.1 < grid.spec_size() ==> grid@.dom().contains(
                #[trigger] owner(grid.spec_resolution(), p),
            ) && grid@[owner(grid.spec_resolution(), p)].contains(p),
        forall|c: (u32, u32), p: (u32, u32)|
            grid@.dom().contains(c) && (#[trigger] grid@[c].contains(p)) ==> p.0 < grid.spec_size()
                && p.1 < grid.spec_size() && owner(grid.spec_resolution(), p) == c,
        forall|c: (u32, u32)| #[trigger]
            grid@.dom().contains(c) ==> grid@[c].len() == grid.spec_resolution()
                * grid.spec_resolution() && grid@[c].no_duplicates(),
{
    lemma_blocks_partition_raster(grid.spec_resolution(), grid.spec_size());
}

} // verus!
