//! From color-bases to 8-bit RGB.
use vstd::prelude::*;
use crate::color::{ColorBase, in_cube};

verus! {

/// An 8-bit RGB color.
pub type Color = (u8, u8, u8);

/// `round(v * 255 / (color_size - 1))`, halves rounded up; 0 when there is a
/// single level.
pub open spec fn rescaled(v: int, color_size: int) -> int {
    if color_size <= 1 {
        0
    } else {
        (2 * v * 255 + (color_size - 1)) / (2 * (color_size - 1))
    }
}

/// Rescales one channel from `[0, color_size - 1]` to `[0, 255]`.
pub fn rescale_channel(v: u8, color_size: usize) -> (r: u8)
    requires
        1 <= color_size <= 256,
        (v as int) < color_size,
    ensures
        r == rescaled(v as int, color_size as int),
{
    if color_size == 1 {
        0
    } else {
        let d: u64 = (color_size - 1) as u64;
        let x: u64 = (2 * (v as u64) * 255 + d) / (2 * d);
        proof {
            let vv = v as int;
            let dd = d as int;
            let a = 2 * vv * 255 + dd;
            let m = 2 * dd;
            assert(a < m * 256) by (nonlinear_arith) requires vv <= dd, dd >= 1, a == 2 * vv * 255 + dd, m == 2 * dd;
            vstd::arithmetic::div_mod::lemma_fundamental_div_mod(a, m);
            let q = a / m;
            assert(0 <= q < 256) by (nonlinear_arith) requires a == m * q + a % m, 0 <= a % m, a < m * 256, m > 0, a >= 0;
        }
        x as u8
    }
}

/// The 8-bit color of a color-base.
pub fn color_base_to_color(cb: ColorBase, color_size: usize) -> (r: Color)
    requires
        1 <= color_size <= 256,
        (cb.0 as int) < color_size,
        (cb.1 as int) < color_size,
        (cb.2 as int) < color_size,
    ensures
        r.0 == rescaled(cb.0 as int, color_size as int),
        r.1 == rescaled(cb.1 as int, color_size as int),
        r.2 == rescaled(cb.2 as int, color_size as int),
{
    (rescale_channel(cb.0, color_size), rescale_channel(cb.1, color_size), rescale_channel(cb.2, color_size))
}

/// The RGB bytes of a grid of color-bases, three per location in grid order.
pub fn to_pixels(grid: &Vec<ColorBase>, color_size: usize) -> (r: Vec<u8>)
    requires
        1 <= color_size <= 256,
        3 * grid@.len() <= usize::MAX,
        forall|l: int| 0 <= l < grid@.len() ==> in_cube(#[trigger] grid@[l], color_size as int),
    ensures
        r@.len() == 3 * grid@.len(),
        forall|l: int| 0 <= l < grid@.len() ==> {
            &&& r@[3 * l] == rescaled((#[trigger] grid@[l]).0 as int, color_size as int)
            &&& r@[3 * l + 1] == rescaled(grid@[l].1 as int, color_size as int)
            &&& r@[3 * l + 2] == rescaled(grid@[l].2 as int, color_size as int)
        },
{
    let mut r: Vec<u8> = Vec::new();
    let mut l: usize = 0;
    while l < grid.len()
        invariant
            1 <= color_size <= 256,
            l <= grid@.len(),
            forall|l: int| 0 <= l < grid@.len() ==> in_cube(#[trigger] grid@[l], color_size as int),
            r@.len() == 3 * l,
            forall|k: int| 0 <= k < l ==> {
                &&& r@[3 * k] == rescaled((#[trigger] grid@[k]).0 as int, color_size as int)
                &&& r@[3 * k + 1] == rescaled(grid@[k].1 as int, color_size as int)
                &&& r@[3 * k + 2] == rescaled(grid@[k].2 as int, color_size as int)
            },
        decreases grid@.len() - l,
    {
        let (cr, cg, cb) = color_base_to_color(grid[l], color_size);
        r.push(cr);
        r.push(cg);
        r.push(cb);
        l = l + 1;
    }
    r
}

} // verus!
