//! Nearest-neighbor searches: over the canvas for a placed cell, over the
//! color cube for an unused color, and over the frontier for the member
//! nearest to a color.
use vstd::prelude::*;
use crate::color::{ColorBase, in_cube, code_of, color_code};
use crate::kernel::{within, norm3};
use crate::pool::Pool;

verus! {

/// The grid index of the cell at offset `off` from location `loc` (numbered
/// row-major on a `size × size` canvas), if that cell is on the canvas.
pub open spec fn cell_toward(size: int, loc: int, off: (i64, i64)) -> Option<int> {
    let r = loc / size + off.0;
    let c = loc % size + off.1;
    if 0 <= r < size && 0 <= c < size {
        Some(r * size + c)
    } else {
        None
    }
}

/// The color code placed at offset `off` from `loc`, if any.
pub open spec fn placed_toward(grid: Seq<Option<usize>>, size: int, loc: int, off: (i64, i64)) -> Option<usize> {
    match cell_toward(size, loc, off) {
        Some(l) => grid[l],
        None => None,
    }
}

/// Row and column of a location are on the canvas.
pub proof fn lemma_row_col(loc: int, size: int)
    requires
        1 <= size,
        0 <= loc < size * size,
    ensures
        0 <= loc / size < size,
        0 <= loc % size < size,
{
    vstd::arithmetic::div_mod::lemma_fundamental_div_mod(loc, size);
    let q = loc / size;
    assert(0 <= q < size) by (nonlinear_arith)
        requires loc == size * q + loc % size, 0 <= loc % size < size, 0 <= loc < size * size, size >= 1;
}

/// Scans `kernel` in order from location `loc` and returns the color code of
/// the first placed cell that it reaches.
pub fn reference_color(grid: &Vec<Option<usize>>, size: usize, kernel: &Vec<(i64, i64)>, loc: usize) -> (r: Option<usize>)
    requires
        1 <= size <= 4096,
        grid@.len() == size * size,
        loc < size * size,
        forall|j: int| 0 <= j < kernel@.len() ==> within(kernel@[j].0 as int, size - 1)
            && within(kernel@[j].1 as int, size - 1),
    ensures
        match r {
            Some(k) => exists|j: int| 0 <= j < kernel@.len()
                && placed_toward(grid@, size as int, loc as int, #[trigger] kernel@[j]) == Some(k)
                && forall|i: int| 0 <= i < j ==> placed_toward(grid@, size as int, loc as int, #[trigger] kernel@[i]) is None,
            None => forall|j: int| 0 <= j < kernel@.len() ==> placed_toward(grid@, size as int, loc as int, #[trigger] kernel@[j]) is None,
        },
{
    proof {
        lemma_row_col(loc as int, size as int);
    }
    let row: i64 = (loc / size) as i64;
    let col: i64 = (loc % size) as i64;
    let s: i64 = size as i64;
    let mut j: usize = 0;
    while j < kernel.len()
        invariant
            1 <= size <= 4096,
            s == size,
            row == loc / size,
            col == loc % size,
            0 <= row < size,
            0 <= col < size,
            grid@.len() == size * size,
            j <= kernel@.len(),
            forall|j: int| 0 <= j < kernel@.len() ==> within(kernel@[j].0 as int, size - 1)
                && within(kernel@[j].1 as int, size - 1),
            forall|i: int| 0 <= i < j ==> placed_toward(grid@, size as int, loc as int, #[trigger] kernel@[i]) is None,
        decreases kernel@.len() - j,
    {
        let (dr, dc) = kernel[j];
        let rr = row + dr;
        let cc = col + dc;
        if 0 <= rr && rr < s && 0 <= cc && cc < s {
            proof {
                assert(rr * s + cc < s * s) by (nonlinear_arith) requires 0 <= rr < s, 0 <= cc < s;
                assert(0 <= rr * s) by (nonlinear_arith) requires 0 <= rr, 0 <= s;
                assert(s * s <= 4096 * 4096) by (nonlinear_arith) requires 1 <= s <= 4096;
            }
            let idx: usize = (rr as usize) * size + (cc as usize);
            assert(cell_toward(size as int, loc as int, kernel@[j as int]) == Some(idx as int));
            match grid[idx] {
                Some(k) => {
                    return Some(k);
                },
                None => {},
            }
        }
        j = j + 1;
    }
    None
}

/// The color-base at offset `off` from `c`, if it lies in the cube.
pub open spec fn shifted(c: ColorBase, off: (i64, i64, i64), color_size: int) -> Option<ColorBase> {
    let x = c.0 + off.0;
    let y = c.1 + off.1;
    let z = c.2 + off.2;
    if 0 <= x < color_size && 0 <= y < color_size && 0 <= z < color_size {
        Some((x as u8, y as u8, z as u8))
    } else {
        None
    }
}

/// The color-base at offset `off` from `c`, if it lies in the cube and is unused.
pub open spec fn unused_toward(unused: Set<usize>, c: ColorBase, off: (i64, i64, i64), color_size: int) -> Option<ColorBase> {
    match shifted(c, off, color_size) {
        Some(d) => if unused.contains(code_of(d, color_size) as usize) {
            Some(d)
        } else {
            None
        },
        None => None,
    }
}

/// Scans the first `limit` offsets of `kernel` from `reference` and returns
/// the first unused color-base reached.
pub fn nearby_unused(
    unused: &Pool,
    color_size: usize,
    kernel: &Vec<(i64, i64, i64)>,
    limit: usize,
    reference: ColorBase,
) -> (r: Option<ColorBase>)
    requires
        unused.wf(),
        1 <= color_size <= 256,
        in_cube(reference, color_size as int),
        forall|j: int| 0 <= j < kernel@.len() ==> within(kernel@[j].0 as int, color_size - 1)
            && within(kernel@[j].1 as int, color_size - 1) && within(kernel@[j].2 as int, color_size - 1),
    ensures
        match r {
            Some(d) => exists|j: int| 0 <= j < limit && j < kernel@.len()
                && unused_toward(unused@, reference, #[trigger] kernel@[j], color_size as int) == Some(d)
                && forall|i: int| 0 <= i < j ==> unused_toward(unused@, reference, #[trigger] kernel@[i], color_size as int) is None,
            None => forall|j: int| 0 <= j < limit && j < kernel@.len()
                ==> unused_toward(unused@, reference, #[trigger] kernel@[j], color_size as int) is None,
        },
{
    let cs: i64 = color_size as i64;
    let mut j: usize = 0;
    while j < kernel.len() && j < limit
        invariant
            unused.wf(),
            1 <= color_size <= 256,
            cs == color_size,
            in_cube(reference, color_size as int),
            j <= kernel@.len(),
            forall|j: int| 0 <= j < kernel@.len() ==> within(kernel@[j].0 as int, color_size - 1)
                && within(kernel@[j].1 as int, color_size - 1) && within(kernel@[j].2 as int, color_size - 1),
            forall|i: int| 0 <= i < j ==> unused_toward(unused@, reference, #[trigger] kernel@[i], color_size as int) is None,
        decreases kernel@.len() - j,
    {
        let (dr, dg, db) = kernel[j];
        let x = reference.0 as i64 + dr;
        let y = reference.1 as i64 + dg;
        let z = reference.2 as i64 + db;
        if 0 <= x && x < cs && 0 <= y && y < cs && 0 <= z && z < cs {
            let d: ColorBase = (x as u8, y as u8, z as u8);
            assert(shifted(reference, kernel@[j as int], color_size as int) == Some(d));
            let k = color_code(d, color_size);
            if unused.contains(k) {
                return Some(d);
            }
        }
        j = j + 1;
    }
    None
}

/// Squared distance between two color-bases.
pub open spec fn dist2(a: ColorBase, b: ColorBase) -> int {
    norm3(a.0 as int - b.0 as int, a.1 as int - b.1 as int, a.2 as int - b.2 as int)
}

/// `a` is at least as good a choice as `b` for `reference`: nearer, or as near
/// and not lexicographically greater.
pub open spec fn no_worse(a: ColorBase, b: ColorBase, reference: ColorBase) -> bool {
    dist2(a, reference) < dist2(b, reference) || (dist2(a, reference) == dist2(b, reference) && (a.0
        < b.0 || (a.0 == b.0 && (a.1 < b.1 || (a.1 == b.1 && a.2 <= b.2)))))
}

proof fn lemma_dist2_bound(a: ColorBase, b: ColorBase)
    ensures
        0 <= dist2(a, b) <= 3 * 255 * 255,
{
    let x = a.0 as int - b.0 as int;
    let y = a.1 as int - b.1 as int;
    let z = a.2 as int - b.2 as int;
    assert(0 <= x * x <= 255 * 255) by (nonlinear_arith) requires -255 <= x <= 255;
    assert(0 <= y * y <= 255 * 255) by (nonlinear_arith) requires -255 <= y <= 255;
    assert(0 <= z * z <= 255 * 255) by (nonlinear_arith) requires -255 <= z <= 255;
}

fn distance_squared(a: ColorBase, b: ColorBase) -> (r: u64)
    ensures
        r == dist2(a, b),
{
    proof { lemma_dist2_bound(a, b); }
    let x: i64 = a.0 as i64 - b.0 as i64;
    let y: i64 = a.1 as i64 - b.1 as i64;
    let z: i64 = a.2 as i64 - b.2 as i64;
    proof {
        assert(0 <= x * x <= 255 * 255) by (nonlinear_arith) requires -255 <= x <= 255;
        assert(0 <= y * y <= 255 * 255) by (nonlinear_arith) requires -255 <= y <= 255;
        assert(0 <= z * z <= 255 * 255) by (nonlinear_arith) requires -255 <= z <= 255;
    }
    (x * x + y * y + z * z) as u64
}

/// The member of `members` nearest to `reference`, ties going to the
/// lexicographically smallest; `None` when there is none.
pub fn nearest_member(members: &Vec<ColorBase>, reference: ColorBase) -> (r: Option<ColorBase>)
    ensures
        r is None <==> members@.len() == 0,
        match r {
            Some(c) => members@.contains(c) && forall|i: int| 0 <= i < members@.len()
                ==> no_worse(c, #[trigger] members@[i], reference),
            None => true,
        },
{
    if members.len() == 0 {
        return None;
    }
    let mut best: ColorBase = members[0];
    let mut best_d: u64 = distance_squared(best, reference);
    let mut j: usize = 1;
    while j < members.len()
        invariant
            1 <= j <= members@.len(),
            members@.contains(best),
            best_d == dist2(best, reference),
            forall|i: int| 0 <= i < j ==> no_worse(best, #[trigger] members@[i], reference),
        decreases members@.len() - j,
    {
        let c = members[j];
        let d = distance_squared(c, reference);
        if d < best_d || (d == best_d && (c.0 < best.0 || (c.0 == best.0 && (c.1 < best.1 || (c.1
            == best.1 && c.2 < best.2))))) {
            best = c;
            best_d = d;
        }
        j = j + 1;
    }
    Some(best)
}

} // verus!
