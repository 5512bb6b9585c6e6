//! One whole run: parameters in, RGB pixels out.
use vstd::prelude::*;
use crate::color::ColorBase;
use crate::config::{Config, ConfigError, MAX_SCALE, side_of, levels_of, volume_of};
use crate::growth::{grow, fills_cube};
use crate::raster::{rescaled, to_pixels};

verus! {

/// A finished square image: `side × side` pixels, row by row, three bytes
/// (red, green, blue) each.
pub struct Raster {
    pub side: u32,
    pub pixels: Vec<u8>,
}

/// `pixels` holds, three bytes per location, the 8-bit colors of `grid`.
pub open spec fn shows(pixels: Seq<u8>, grid: Seq<ColorBase>, color_size: int) -> bool {
    &&& pixels.len() == 3 * grid.len()
    &&& forall|l: int| 0 <= l < grid.len() ==> {
        &&& pixels[3 * l] == rescaled((#[trigger] grid[l]).0 as int, color_size)
        &&& pixels[3 * l + 1] == rescaled(grid[l].1 as int, color_size)
        &&& pixels[3 * l + 2] == rescaled(grid[l].2 as int, color_size)
    }
}

/// Grows an image of side `scale³` in which each of the `scale⁶` colors of
/// the cube with `scale²` levels per channel appears once.
pub fn make_image(scale: usize, num_seeds: usize, seed: u64) -> (r: Result<Raster, ConfigError>)
    ensures
        scale == 0 <==> r == Err::<Raster, ConfigError>(ConfigError::ZeroScale),
        scale > MAX_SCALE <==> r == Err::<Raster, ConfigError>(ConfigError::ScaleTooLarge),
        1 <= scale <= MAX_SCALE && num_seeds == 0 <==> r == Err::<Raster, ConfigError>(
            ConfigError::ZeroSeeds,
        ),
        1 <= scale <= MAX_SCALE && num_seeds > volume_of(scale as int) <==> r == Err::<
            Raster,
            ConfigError,
        >(ConfigError::TooManySeeds),
        r is Ok ==> r->Ok_0.side == side_of(scale as int) && exists|g: Seq<ColorBase>|
            fills_cube(g, levels_of(scale as int)) && #[trigger] shows(
                r->Ok_0.pixels@,
                g,
                levels_of(scale as int),
            ),
{
    let cfg = match Config::new(scale, num_seeds, seed) {
        Ok(c) => c,
        Err(e) => {
            return Err(e);
        },
    };
    let grid = grow(&cfg);
    let cs = cfg.color_size();
    let side = cfg.size();
    proof {
        assert(grid@.len() <= 256 * 256 * 256) by (nonlinear_arith)
            requires grid@.len() == cs * cs * cs, cs <= 256;
    }
    let pixels = to_pixels(&grid, cs);
    let out = Raster { side: side as u32, pixels };
    assert(shows(out.pixels@, grid@, levels_of(scale as int)));
    Ok(out)
}

} // verus!
