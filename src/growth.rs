//! The growth engine: visits every location in a random order and gives it an
//! unused color close to the color of the nearest placed location.
use vstd::prelude::*;
use crate::color::{
    ColorBase, in_cube, code_of, color_at, cube_volume, adjacent, color_code, color_from_code,
    lemma_code, lemma_color_at,
};
use crate::kernel::{within, spatial_kernel, color_kernel, lemma_permutation_no_dups};
use crate::search::{
    cell_toward, placed_toward, lemma_row_col, reference_color, shifted, unused_toward,
    nearby_unused, no_worse, nearest_member,
};
use crate::pool::Pool;
use crate::frontier::Frontier;
use crate::config::{Config, side_of, levels_of};
use crate::random::{seeded_rng, shuffle_indices};

verus! {

/// The color-bases next to `c` in the cube whose codes are in `unused`.
pub open spec fn fresh_neighbors(c: ColorBase, color_size: int, unused: Set<usize>) -> Set<ColorBase> {
    Set::new(|x: ColorBase| adjacent(c, x) && in_cube(x, color_size) && unused.contains(code_of(x, color_size) as usize))
}

fn add_if_unused(boundary: &mut Frontier, unused: &Pool, x: ColorBase, color_size: usize)
    requires
        unused.wf(),
        1 <= color_size <= 256,
        in_cube(x, color_size as int),
    ensures
        final(boundary)@ == if unused@.contains(code_of(x, color_size as int) as usize) {
            old(boundary)@.insert(x)
        } else {
            old(boundary)@
        },
{
    let k = color_code(x, color_size);
    if unused.contains(k) {
        boundary.insert(x);
    }
}

/// Adds to the frontier each neighbor of `c` in the cube that is still unused.
pub fn expand_frontier(boundary: &mut Frontier, unused: &Pool, c: ColorBase, color_size: usize)
    requires
        unused.wf(),
        1 <= color_size <= 256,
        in_cube(c, color_size as int),
    ensures
        final(boundary)@ == old(boundary)@.union(fresh_neighbors(c, color_size as int, unused@)),
{
    let ghost b0 = boundary@;
    let ghost cs = color_size as int;
    let ghost u = unused@;
    let (r, g, b) = c;
    if r > 0 {
        add_if_unused(boundary, unused, (r - 1, g, b), color_size);
    }
    if (r as usize) + 1 < color_size {
        add_if_unused(boundary, unused, (r + 1, g, b), color_size);
    }
    if g > 0 {
        add_if_unused(boundary, unused, (r, g - 1, b), color_size);
    }
    if (g as usize) + 1 < color_size {
        add_if_unused(boundary, unused, (r, g + 1, b), color_size);
    }
    if b > 0 {
        add_if_unused(boundary, unused, (r, g, b - 1), color_size);
    }
    if (b as usize) + 1 < color_size {
        add_if_unused(boundary, unused, (r, g, b + 1), color_size);
    }
    proof {
        assert forall|x: ColorBase| boundary@.contains(x) <==> b0.union(fresh_neighbors(c, cs, u)).contains(x) by {
        }
        assert(boundary@ =~= b0.union(fresh_neighbors(c, cs, u)));
    }
}

/// The frontier invariant: every member lies in the cube, is unused, and is
/// next to a color-base that is already placed (no longer unused).
pub open spec fn frontier_sound(boundary: Set<ColorBase>, unused: Set<usize>, color_size: int) -> bool {
    forall|x: ColorBase| #[trigger] boundary.contains(x) ==> {
        &&& in_cube(x, color_size)
        &&& unused.contains(code_of(x, color_size) as usize)
        &&& exists|y: ColorBase| #[trigger] adjacent(y, x) && in_cube(y, color_size)
            && !unused.contains(code_of(y, color_size) as usize)
    }
}

/// Once a cell is placed, a complete kernel reaches a placed cell from every
/// location.
proof fn lemma_reference_exists(grid: Seq<Option<usize>>, size: int, kernel: Seq<(i64, i64)>, loc: int)
    requires
        1 <= size <= 4096,
        grid.len() == size * size,
        0 <= loc < size * size,
        forall|x: i64, y: i64| within(x as int, size - 1) && within(y as int, size - 1)
            ==> #[trigger] kernel.contains((x, y)),
        exists|l: int| 0 <= l < grid.len() && (#[trigger] grid[l]) is Some,
    ensures
        exists|j: int| 0 <= j < kernel.len() && (#[trigger] placed_toward(grid, size, loc, kernel[j])) is Some,
{
    let l = choose|l: int| 0 <= l < grid.len() && (#[trigger] grid[l]) is Some;
    lemma_row_col(l, size);
    lemma_row_col(loc, size);
    vstd::arithmetic::div_mod::lemma_fundamental_div_mod(l, size);
    let dr = (l / size - loc / size) as i64;
    let dc = (l % size - loc % size) as i64;
    assert(kernel.contains((dr, dc)));
    let j = choose|j: int| 0 <= j < kernel.len() && kernel[j] == (dr, dc);
    assert((l / size) * size + l % size == l) by (nonlinear_arith)
        requires l == size * (l / size) + l % size;
    assert(cell_toward(size, loc, kernel[j]) == Some(l));
    assert(placed_toward(grid, size, loc, kernel[j]) is Some);
}

/// Every unused color-base of the cube next to a placed one is in the
/// frontier.
pub open spec fn frontier_complete(boundary: Set<ColorBase>, unused: Set<usize>, color_size: int) -> bool {
    forall|x: ColorBase, y: ColorBase| #[trigger] adjacent(x, y) && in_cube(x, color_size) && in_cube(y, color_size)
        && !unused.contains(code_of(x, color_size) as usize) && unused.contains(code_of(y, color_size) as usize)
        ==> boundary.contains(y)
}

/// The number of unit steps between two color-bases.
pub open spec fn l1(a: ColorBase, b: ColorBase) -> nat {
    (if a.0 < b.0 { b.0 - a.0 } else { a.0 - b.0 }) as nat
    + (if a.1 < b.1 { b.1 - a.1 } else { a.1 - b.1 }) as nat
    + (if a.2 < b.2 { b.2 - a.2 } else { a.2 - b.2 }) as nat
}

/// The cube is connected: where one color-base is placed and another unused,
/// some placed color-base has an unused neighbor.
proof fn lemma_cube_connected(a: ColorBase, b: ColorBase, color_size: int, unused: Set<usize>)
    requires
        1 <= color_size <= 256,
        in_cube(a, color_size),
        in_cube(b, color_size),
        !unused.contains(code_of(a, color_size) as usize),
        unused.contains(code_of(b, color_size) as usize),
    ensures
        exists|x: ColorBase, y: ColorBase| #[trigger] adjacent(x, y) && in_cube(x, color_size)
            && in_cube(y, color_size) && !unused.contains(code_of(x, color_size) as usize)
            && unused.contains(code_of(y, color_size) as usize),
    decreases l1(a, b),
{
    let a2: ColorBase = if a.0 < b.0 {
        ((a.0 + 1) as u8, a.1, a.2)
    } else if a.0 > b.0 {
        ((a.0 - 1) as u8, a.1, a.2)
    } else if a.1 < b.1 {
        (a.0, (a.1 + 1) as u8, a.2)
    } else if a.1 > b.1 {
        (a.0, (a.1 - 1) as u8, a.2)
    } else if a.2 < b.2 {
        (a.0, a.1, (a.2 + 1) as u8)
    } else {
        (a.0, a.1, (a.2 - 1) as u8)
    };
    assert(a != b);
    assert(adjacent(a, a2));
    if unused.contains(code_of(a2, color_size) as usize) {
    } else {
        lemma_cube_connected(a2, b, color_size, unused);
    }
}

/// Placing an unused color-base `c` keeps the frontier sound and complete:
/// removing `c` from the unused set and the frontier, then adding the
/// neighbors of `c` that are still unused, gives again a frontier of exactly
/// the unused color-bases next to a placed one.
pub proof fn lemma_frontier_step(boundary: Set<ColorBase>, unused: Set<usize>, c: ColorBase, color_size: int)
    requires
        1 <= color_size <= 256,
        in_cube(c, color_size),
        unused.contains(code_of(c, color_size) as usize),
        frontier_sound(boundary, unused, color_size),
        frontier_complete(boundary, unused, color_size),
    ensures
        frontier_sound(
            boundary.remove(c).union(fresh_neighbors(c, color_size, unused.remove(code_of(c, color_size) as usize))),
            unused.remove(code_of(c, color_size) as usize),
            color_size,
        ),
        frontier_complete(
            boundary.remove(c).union(fresh_neighbors(c, color_size, unused.remove(code_of(c, color_size) as usize))),
            unused.remove(code_of(c, color_size) as usize),
            color_size,
        ),
{
    let k = code_of(c, color_size) as usize;
    let u1 = unused.remove(k);
    let b1 = boundary.remove(c).union(fresh_neighbors(c, color_size, u1));
    lemma_code(c, color_size);
    assert(color_size * color_size * color_size <= 256 * 256 * 256) by (nonlinear_arith)
        requires 1 <= color_size <= 256;
    assert forall|x: ColorBase| #[trigger] b1.contains(x) implies {
        &&& in_cube(x, color_size)
        &&& u1.contains(code_of(x, color_size) as usize)
        &&& exists|y: ColorBase| #[trigger] adjacent(y, x) && in_cube(y, color_size)
            && !u1.contains(code_of(y, color_size) as usize)
    } by {
        if boundary.contains(x) && x != c {
            lemma_code(x, color_size);
            assert(code_of(x, color_size) != code_of(c, color_size));
            assert(code_of(x, color_size) as usize != k);
            let y = choose|y: ColorBase| #[trigger] adjacent(y, x) && in_cube(y, color_size)
                && !unused.contains(code_of(y, color_size) as usize);
            assert(!u1.contains(code_of(y, color_size) as usize));
        } else {
            assert(adjacent(c, x));
            assert(!u1.contains(k));
        }
    }
    assert forall|x: ColorBase, y: ColorBase| #[trigger] adjacent(x, y) && in_cube(x, color_size)
        && in_cube(y, color_size) && !u1.contains(code_of(x, color_size) as usize)
        && u1.contains(code_of(y, color_size) as usize) implies b1.contains(y) by {
        lemma_code(y, color_size);
        lemma_code(x, color_size);
        if x == c {
        } else {
            assert(code_of(x, color_size) != code_of(c, color_size));
            assert(code_of(x, color_size) as usize != k);
            assert(unused.contains(code_of(y, color_size) as usize));
            assert(!unused.contains(code_of(x, color_size) as usize));
            assert(boundary.contains(y));
            assert(y != c);
        }
    }
}

/// Takes the color for one location out of `unused` and returns its code.
///
/// During seeding (`i < num_seeds`) the color is drawn at random; afterwards
/// it is the one that `growth_color` chooses.
fn pick_color(
    i: usize,
    num_seeds: usize,
    unused: &mut Pool,
    boundary: &Frontier,
    rng: &mut rand::rngs::StdRng,
    grid: &Vec<Option<usize>>,
    size: usize,
    spatial: &Vec<(i64, i64)>,
    colors: &Vec<(i64, i64, i64)>,
    color_size: usize,
    loc: usize,
) -> (k: usize)
    requires
        old(unused).wf(),
        old(unused).elems().len() > 0,
        1 <= size <= 4096,
        1 <= color_size <= 256,
        grid@.len() == size * size,
        loc < size * size,
        forall|j: int| 0 <= j < spatial@.len() ==> within(spatial@[j].0 as int, size - 1)
            && within(spatial@[j].1 as int, size - 1),
        forall|j: int| 0 <= j < colors@.len() ==> within(colors@[j].0 as int, color_size - 1)
            && within(colors@[j].1 as int, color_size - 1) && within(colors@[j].2 as int, color_size - 1),
        forall|l: int| 0 <= l < grid@.len() && (#[trigger] grid@[l]) is Some
            ==> grid@[l].unwrap() < cube_volume(color_size as int),
        frontier_sound(boundary@, old(unused)@, color_size as int),
        frontier_complete(boundary@, old(unused)@, color_size as int),
        forall|c: usize| #[trigger] old(unused)@.contains(c) ==> c < cube_volume(color_size as int),
        forall|l: int| 0 <= l < grid@.len() && (#[trigger] grid@[l]) is Some
            ==> !old(unused)@.contains(grid@[l].unwrap()),
        forall|x: i64, y: i64| within(x as int, size - 1) && within(y as int, size - 1)
            ==> #[trigger] spatial@.contains((x, y)),
        i >= num_seeds ==> exists|l: int| 0 <= l < grid@.len() && (#[trigger] grid@[l]) is Some,
    ensures
        final(unused).wf(),
        final(unused).universe() == old(unused).universe(),
        old(unused)@.contains(k),
        final(unused)@ == old(unused)@.remove(k),
        final(unused).elems().len() == old(unused).elems().len() - 1,
{
    proof {
        assert(unused@.contains(unused.elems()[0]));
    }
    if i < num_seeds {
        return match unused.remove_random(rng) {
            Some(k) => k,
            None => {
                proof {
                    assert(false);
                }
                0
            },
        };
    }
    let c = growth_color(unused, boundary, grid, size, spatial, colors, color_size, loc);
    let k = color_code(c, color_size);
    unused.remove(k);
    k
}

/// The growth rule for a color-base `c` chosen against reference color
/// `reference`: the first unused color-base that the first `limit` offsets
/// of `colors` reach, or, when they reach none, the frontier member nearest
/// to the reference (ties to the lexicographically smallest).
pub open spec fn chosen_by_rule(
    c: ColorBase,
    reference: ColorBase,
    unused: Set<usize>,
    frontier: Set<ColorBase>,
    colors: Seq<(i64, i64, i64)>,
    limit: int,
    color_size: int,
) -> bool {
    ||| exists|j: int| 0 <= j < limit && j < colors.len()
        && unused_toward(unused, reference, #[trigger] colors[j], color_size) == Some(c)
        && forall|i: int| 0 <= i < j ==> unused_toward(unused, reference, #[trigger] colors[i], color_size) is None
    ||| (forall|j: int| 0 <= j < limit && j < colors.len()
        ==> unused_toward(unused, reference, #[trigger] colors[j], color_size) is None)
        && frontier.contains(c) && forall|x: ColorBase| #[trigger] frontier.contains(x) ==> no_worse(c, x, reference)
}

/// The color-base given to location `loc` once seeding is over: the rule of
/// `chosen_by_rule`, against the color of the first placed cell that the
/// spatial kernel reaches from `loc`, scanning as many color offsets as the
/// frontier has members.
pub fn growth_color(
    unused: &Pool,
    boundary: &Frontier,
    grid: &Vec<Option<usize>>,
    size: usize,
    spatial: &Vec<(i64, i64)>,
    colors: &Vec<(i64, i64, i64)>,
    color_size: usize,
    loc: usize,
) -> (c: ColorBase)
    requires
        unused.wf(),
        unused.elems().len() > 0,
        1 <= size <= 4096,
        1 <= color_size <= 256,
        grid@.len() == size * size,
        loc < size * size,
        forall|j: int| 0 <= j < spatial@.len() ==> within(spatial@[j].0 as int, size - 1)
            && within(spatial@[j].1 as int, size - 1),
        forall|x: i64, y: i64| within(x as int, size - 1) && within(y as int, size - 1)
            ==> #[trigger] spatial@.contains((x, y)),
        forall|j: int| 0 <= j < colors@.len() ==> within(colors@[j].0 as int, color_size - 1)
            && within(colors@[j].1 as int, color_size - 1) && within(colors@[j].2 as int, color_size - 1),
        exists|l: int| 0 <= l < grid@.len() && (#[trigger] grid@[l]) is Some,
        forall|l: int| 0 <= l < grid@.len() && (#[trigger] grid@[l]) is Some
            ==> grid@[l].unwrap() < cube_volume(color_size as int)
                && !unused@.contains(grid@[l].unwrap()),
        forall|k: usize| #[trigger] unused@.contains(k) ==> k < cube_volume(color_size as int),
        frontier_sound(boundary@, unused@, color_size as int),
        frontier_complete(boundary@, unused@, color_size as int),
    ensures
        in_cube(c, color_size as int),
        unused@.contains(code_of(c, color_size as int) as usize),
        exists|j: int| 0 <= j < spatial@.len()
            && (forall|i: int| 0 <= i < j ==> placed_toward(grid@, size as int, loc as int, #[trigger] spatial@[i]) is None)
            && (#[trigger] placed_toward(grid@, size as int, loc as int, spatial@[j])) is Some
            && chosen_by_rule(
                c,
                color_at(placed_toward(grid@, size as int, loc as int, spatial@[j]).unwrap() as int, color_size as int),
                unused@,
                boundary@,
                colors@,
                boundary@.len() as int,
                color_size as int,
            ),
{
    let rk = match reference_color(grid, size, spatial, loc) {
        Some(rk) => rk,
        None => {
            proof {
                lemma_reference_exists(grid@, size as int, spatial@, loc as int);
                assert(false);
            }
            0
        },
    };
    let ghost jr = choose|j: int| 0 <= j < spatial@.len()
        && placed_toward(grid@, size as int, loc as int, #[trigger] spatial@[j]) == Some(rk)
        && forall|i: int| 0 <= i < j ==> placed_toward(grid@, size as int, loc as int, #[trigger] spatial@[i]) is None;
    proof {
        let l = cell_toward(size as int, loc as int, spatial@[jr]).unwrap();
        assert(0 <= l < size * size) by {
            lemma_row_col(loc as int, size as int);
            let r = (loc as int) / (size as int) + spatial@[jr].0;
            let c = (loc as int) % (size as int) + spatial@[jr].1;
            assert(r * size + c < size * size) by (nonlinear_arith)
                requires 0 <= r < size, 0 <= c < size;
            assert(0 <= r * size) by (nonlinear_arith) requires 0 <= r, 0 <= size;
        }
        assert(grid@[l] == Some(rk));
    }
    let refc = color_from_code(rk, color_size);
    let limit = boundary.len();
    if let Some(d) = nearby_unused(unused, color_size, colors, limit, refc) {
        proof {
            let j = choose|j: int| 0 <= j < limit && j < colors@.len()
                && unused_toward(unused@, refc, #[trigger] colors@[j], color_size as int) == Some(d)
                && forall|i: int| 0 <= i < j ==> unused_toward(unused@, refc, #[trigger] colors@[i], color_size as int) is None;
            assert(shifted(refc, colors@[j], color_size as int) == Some(d));
            assert(chosen_by_rule(d, refc, unused@, boundary@, colors@, limit as int, color_size as int));
        }
        return d;
    }
    let members = boundary.members();
    proof {
        // the frontier is not empty: the cube is connected
        let e = unused.elems()[0];
        assert(unused@.contains(e));
        lemma_color_at(e as int, color_size as int);
        lemma_code(refc, color_size as int);
        lemma_cube_connected(refc, color_at(e as int, color_size as int), color_size as int, unused@);
        let (x, y) = choose|x: ColorBase, y: ColorBase| #[trigger] adjacent(x, y) && in_cube(x, color_size as int)
            && in_cube(y, color_size as int) && !unused@.contains(code_of(x, color_size as int) as usize)
            && unused@.contains(code_of(y, color_size as int) as usize);
        assert(boundary@.contains(y));
        assert(members@.contains(y));
    }
    let c = match nearest_member(&members, refc) {
        Some(c) => c,
        None => {
            proof {
                assert(false);
            }
            (0, 0, 0)
        },
    };
    proof {
        let w = choose|w: int| 0 <= w < members@.len() && members@[w] == c;
        assert(boundary@.contains(members@[w]));
        assert forall|x: ColorBase| #[trigger] boundary@.contains(x) implies no_worse(c, x, refc) by {
            assert(members@.contains(x));
            let v = choose|v: int| 0 <= v < members@.len() && members@[v] == x;
            assert(no_worse(c, members@[v], refc));
        }
        assert(chosen_by_rule(c, refc, unused@, boundary@, colors@, limit as int, color_size as int));
    }
    c
}

/// `g` gives each color-base of the cube of side `color_size` to exactly one
/// location: it is as long as the cube is large, holds only color-bases of the
/// cube, none twice, and each of them.
pub open spec fn fills_cube(g: Seq<ColorBase>, color_size: int) -> bool {
    &&& g.len() == cube_volume(color_size)
    &&& forall|l: int| 0 <= l < g.len() ==> in_cube(#[trigger] g[l], color_size)
    &&& g.no_duplicates()
    &&& forall|c: ColorBase| in_cube(c, color_size) ==> #[trigger] g.contains(c)
}

/// Assigns to each location of the `size × size` canvas (row-major) a
/// color-base, each color-base of the cube exactly once.
pub fn grow(cfg: &Config) -> (r: Vec<ColorBase>)
    requires
        cfg.valid(),
    ensures
        r@.len() == side_of(cfg.scale as int) * side_of(cfg.scale as int),
        fills_cube(r@, levels_of(cfg.scale as int)),
{
    let size = cfg.size();
    let cs = cfg.color_size();
    proof {
        let s = cfg.scale as int;
        assert(size * size == cs * cs * cs) by (nonlinear_arith)
            requires size == s * s * s, cs == s * s;
        assert(size * size <= 4096 * 4096) by (nonlinear_arith) requires 1 <= size <= 4096;
    }
    let n: usize = size * size;
    let mut rng = seeded_rng(cfg.seed);
    let mut order: Vec<usize> = Vec::new();
    let mut l: usize = 0;
    while l < n
        invariant
            l <= n,
            order@.len() == l,
            forall|k: int| 0 <= k < l ==> order@[k] == k,
        decreases n - l,
    {
        order.push(l);
        l = l + 1;
    }
    let ghost ordered = order@;
    proof {
        assert forall|a: int, b: int| 0 <= a < ordered.len() && 0 <= b < ordered.len() && a != b
            implies ordered[a] != ordered[b] by {}
    }
    shuffle_indices(&mut order, &mut rng);
    proof {
        lemma_permutation_no_dups(ordered, order@);
        broadcast use vstd::seq_lib::to_multiset_contains;
        assert forall|t: usize| #[trigger] order@.contains(t) <==> ordered.contains(t) by {
            assert(order@.to_multiset().count(t) == ordered.to_multiset().count(t));
        }
        assert forall|k: int| 0 <= k < order@.len() implies #[trigger] order@[k] < n by {
            assert(order@.contains(order@[k]));
        }
        assert forall|t: usize| t < n implies #[trigger] order@.contains(t) by {
            assert(ordered[t as int] == t);
        }
        assert(order@.len() == n) by {
            vstd::seq_lib::to_multiset_len(order@);
            vstd::seq_lib::to_multiset_len(ordered);
        }
    }
    let spatial = spatial_kernel(size);
    let colors = color_kernel(cs);
    let mut grid: Vec<Option<usize>> = Vec::new();
    let mut l: usize = 0;
    while l < n
        invariant
            l <= n,
            grid@.len() == l,
            forall|k: int| 0 <= k < l ==> grid@[k] is None,
        decreases n - l,
    {
        grid.push(None);
        l = l + 1;
    }
    let mut unused = Pool::full(n);
    let mut boundary = Frontier::new();
    let ghost mut owner: Seq<int> = Seq::new(n as nat, |c: int| 0);
    proof {
        assert forall|x: ColorBase, y: ColorBase| #[trigger] adjacent(x, y) && in_cube(x, cs as int)
            && in_cube(y, cs as int) && !unused@.contains(code_of(x, cs as int) as usize)
            && unused@.contains(code_of(y, cs as int) as usize) implies boundary@.contains(y) by {
            lemma_code(x, cs as int);
        }
    }
    let mut i: usize = 0;
    while i < n
        invariant
            n == size * size,
            n == cube_volume(cs as int),
            1 <= size <= 4096,
            1 <= cs <= 256,
            i <= n,
            order@.len() == n,
            order@.no_duplicates(),
            forall|k: int| 0 <= k < n ==> #[trigger] order@[k] < n,
            grid@.len() == n,
            forall|k: int| i <= k < n ==> grid@[#[trigger] order@[k] as int] is None,
            forall|k: int| 0 <= k < i ==> grid@[#[trigger] order@[k] as int] is Some,
            forall|l: int| 0 <= l < n && (#[trigger] grid@[l]) is Some ==> grid@[l].unwrap() < n
                && !unused@.contains(grid@[l].unwrap()),
            forall|a: int, b: int| 0 <= a < n && 0 <= b < n && a != b && (#[trigger] grid@[a]) is Some
                && (#[trigger] grid@[b]) is Some ==> grid@[a] != grid@[b],
            owner.len() == n,
            forall|c: usize| c < n && !(#[trigger] unused@.contains(c)) ==> 0 <= owner[c as int] < n
                && grid@[owner[c as int]] == Some(c),
            unused.wf(),
            unused.universe() == n,
            unused.elems().len() == n - i,
            forall|c: usize| #[trigger] unused@.contains(c) ==> c < n,
            frontier_sound(boundary@, unused@, cs as int),
            frontier_complete(boundary@, unused@, cs as int),
            forall|j: int| 0 <= j < spatial@.len() ==> within(spatial@[j].0 as int, size - 1)
                && within(spatial@[j].1 as int, size - 1),
            forall|x: i64, y: i64| within(x as int, size - 1) && within(y as int, size - 1)
                ==> #[trigger] spatial@.contains((x, y)),
            cfg.valid(),
            forall|j: int| 0 <= j < colors@.len() ==> within(colors@[j].0 as int, cs - 1)
                && within(colors@[j].1 as int, cs - 1) && within(colors@[j].2 as int, cs - 1),
        decreases n - i,
    {
        let loc = order[i];
        proof {
            if i >= cfg.num_seeds {
                assert(grid@[order@[0] as int] is Some);
            }
        }
        let ghost u0 = unused@;
        let ghost g0 = grid@;
        let k = pick_color(i, cfg.num_seeds, &mut unused, &boundary, &mut rng, &grid, size, &spatial, &colors, cs, loc);
        let c = color_from_code(k, cs);
        let ghost b0 = boundary@;
        boundary.remove(c);
        expand_frontier(&mut boundary, &unused, c, cs);
        grid.set(loc, Some(k));
        proof {
            lemma_frontier_step(b0, u0, c, cs as int);
            assert(boundary@ == b0.remove(c).union(fresh_neighbors(c, cs as int, unused@)));
            owner = owner.update(k as int, loc as int);
            assert(g0[loc as int] is None);
            assert forall|a: int| 0 <= a < n && a != loc && (#[trigger] grid@[a]) is Some
                implies grid@[a] != Some(k) by {
                assert(g0[a] is Some);
                assert(!u0.contains(g0[a].unwrap()));
            }
            assert forall|kk: int| 0 <= kk < i + 1 implies grid@[#[trigger] order@[kk] as int] is Some by {
                if kk < i {
                    assert(g0[order@[kk] as int] is Some);
                }
            }
            assert forall|kk: int| i + 1 <= kk < n implies grid@[#[trigger] order@[kk] as int] is None by {
                assert(order@[kk] != order@[i as int]);
            }
            assert forall|cc: usize| cc < n && !(#[trigger] unused@.contains(cc)) implies 0 <= owner[cc as int] < n
                && grid@[owner[cc as int]] == Some(cc) by {
                if cc != k {
                    assert(!u0.contains(cc));
                    assert(g0[owner[cc as int]] == Some(cc));
                }
            }
        }
        i = i + 1;
    }
    proof {
        assert forall|l: int| 0 <= l < n implies (#[trigger] grid@[l]) is Some && grid@[l].unwrap() < n by {
            assert(order@.contains(l as usize));
            let kk = choose|kk: int| 0 <= kk < n && order@[kk] == l as usize;
            assert(grid@[order@[kk] as int] is Some);
        }
    }
    let mut out: Vec<ColorBase> = Vec::new();
    let mut l: usize = 0;
    while l < n
        invariant
            l <= n,
            n == cube_volume(cs as int),
            1 <= cs <= 256,
            grid@.len() == n,
            out@.len() == l,
            forall|k: int| 0 <= k < n ==> (#[trigger] grid@[k]) is Some && grid@[k].unwrap() < n,
            forall|k: int| 0 <= k < l ==> #[trigger] out@[k] == color_at(grid@[k].unwrap() as int, cs as int),
        decreases n - l,
    {
        match grid[l] {
            Some(k) => {
                out.push(color_from_code(k, cs));
            },
            None => {
                proof { assert(false); }
            },
        }
        l = l + 1;
    }
    proof {
        assert forall|a: int| 0 <= a < n implies in_cube(#[trigger] out@[a], cs as int) by {
            lemma_color_at(grid@[a].unwrap() as int, cs as int);
        }
        assert forall|a: int, b: int| 0 <= a < n && 0 <= b < n && a != b implies out@[a] != out@[b] by {
            lemma_color_at(grid@[a].unwrap() as int, cs as int);
            lemma_color_at(grid@[b].unwrap() as int, cs as int);
            assert(grid@[a] is Some && grid@[b] is Some);
        }
        assert forall|c: ColorBase| in_cube(c, cs as int) implies #[trigger] out@.contains(c) by {
            lemma_code(c, cs as int);
            let k = code_of(c, cs as int) as usize;
            assert(!unused@.contains(k));
            let w = owner[k as int];
            assert(out@[w] == c);
        }
        assert(out@.no_duplicates());
    }
    out
}

} // verus!
