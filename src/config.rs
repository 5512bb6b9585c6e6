//! Run parameters and their validation.
use vstd::prelude::*;

verus! {

/// The largest scale: its color cube has 256 levels per channel.
pub const MAX_SCALE: usize = 16;

/// The parameters of one run.
#[derive(Clone, Copy, Debug, PartialEq, Eq, Structural)]
pub struct Config {
    pub scale: usize,
    pub num_seeds: usize,
    pub seed: u64,
}

/// Why a set of parameters was rejected.
#[derive(Clone, Copy, Debug, PartialEq, Eq, Structural)]
pub enum ConfigError {
    /// The scale is zero.
    ZeroScale,
    /// The scale is above `MAX_SCALE`, so that a channel would need more than
    /// 256 levels.
    ScaleTooLarge,
    /// No seed colors were asked for.
    ZeroSeeds,
    /// More seed colors were asked for than the color cube holds.
    TooManySeeds,
}

/// The side of the canvas: `scale³`.
pub open spec fn side_of(scale: int) -> int {
    scale * scale * scale
}

/// The number of levels per channel: `scale²`.
pub open spec fn levels_of(scale: int) -> int {
    scale * scale
}

/// The number of colors, which is also the number of locations: `scale⁶`.
pub open spec fn volume_of(scale: int) -> int {
    levels_of(scale) * levels_of(scale) * levels_of(scale)
}

impl Config {
    pub open spec fn valid(&self) -> bool {
        &&& 1 <= self.scale <= MAX_SCALE
        &&& 1 <= self.num_seeds <= volume_of(self.scale as int)
    }

    /// Checks the parameters of a run.
    pub fn new(scale: usize, num_seeds: usize, seed: u64) -> (r: Result<Config, ConfigError>)
        ensures
            scale == 0 <==> r == Err::<Config, ConfigError>(ConfigError::ZeroScale),
            scale > MAX_SCALE <==> r == Err::<Config, ConfigError>(ConfigError::ScaleTooLarge),
            1 <= scale <= MAX_SCALE && num_seeds == 0 <==> r == Err::<Config, ConfigError>(
                ConfigError::ZeroSeeds,
            ),
            1 <= scale <= MAX_SCALE && num_seeds > volume_of(scale as int) <==> r == Err::<
                Config,
                ConfigError,
            >(ConfigError::TooManySeeds),
            r is Ok ==> r == Ok::<Config, ConfigError>(Config { scale, num_seeds, seed }),
            r is Ok ==> r->Ok_0.valid(),
    {
        if scale == 0 {
            return Err(ConfigError::ZeroScale);
        }
        if scale > MAX_SCALE {
            return Err(ConfigError::ScaleTooLarge);
        }
        if num_seeds == 0 {
            return Err(ConfigError::ZeroSeeds);
        }
        proof {
            assert(scale * scale <= 256) by (nonlinear_arith) requires 1 <= scale <= 16;
        }
        let cs = scale * scale;
        proof {
            assert(cs <= 256) by (nonlinear_arith) requires cs == scale * scale, scale <= 16;
            assert(cs * cs <= 256 * 256) by (nonlinear_arith) requires cs <= 256;
            assert(cs * cs * cs <= 256 * 256 * 256) by (nonlinear_arith) requires cs <= 256;
        }
        if num_seeds > cs * cs * cs {
            return Err(ConfigError::TooManySeeds);
        }
        Ok(Config { scale, num_seeds, seed })
    }

    /// The side of the canvas.
    pub fn size(&self) -> (r: usize)
        requires
            self.valid(),
        ensures
            r == side_of(self.scale as int),
            1 <= r <= 4096,
    {
        let s = self.scale;
        proof {
            assert(1 <= s * s * s <= 4096) by (nonlinear_arith) requires 1 <= s <= 16;
            assert(s * s <= 256) by (nonlinear_arith) requires 1 <= s <= 16;
        }
        s * s * s
    }

    /// The number of levels per channel.
    pub fn color_size(&self) -> (r: usize)
        requires
            self.valid(),
        ensures
            r == levels_of(self.scale as int),
            1 <= r <= 256,
    {
        let s = self.scale;
        proof {
            assert(1 <= s * s <= 256) by (nonlinear_arith) requires 1 <= s <= 16;
        }
        s * s
    }
}

} // verus!
