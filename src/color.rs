//! Color-bases: points of the cube `[0, color_size)^3`, and their numbering
//! `(r * color_size + g) * color_size + b`.
use vstd::prelude::*;
use vstd::arithmetic::div_mod::{lemma_fundamental_div_mod, lemma_fundamental_div_mod_converse};

verus! {

/// One discretized color, one small integer per channel.
pub type ColorBase = (u8, u8, u8);

pub open spec fn in_cube(c: ColorBase, color_size: int) -> bool {
    (c.0 as int) < color_size && (c.1 as int) < color_size && (c.2 as int) < color_size
}

pub open spec fn cube_volume(color_size: int) -> int {
    color_size * color_size * color_size
}

pub open spec fn code_of(c: ColorBase, color_size: int) -> int {
    (c.0 as int * color_size + c.1 as int) * color_size + c.2 as int
}

pub open spec fn color_at(k: int, color_size: int) -> ColorBase {
    (((k / color_size) / color_size) as u8, ((k / color_size) % color_size) as u8, (k % color_size) as u8)
}

/// `a` and `b` differ by one in exactly one channel.
pub open spec fn adjacent(a: ColorBase, b: ColorBase) -> bool {
    ||| (a.1 == b.1 && a.2 == b.2 && (a.0 + 1 == b.0 || b.0 + 1 == a.0))
    ||| (a.0 == b.0 && a.2 == b.2 && (a.1 + 1 == b.1 || b.1 + 1 == a.1))
    ||| (a.0 == b.0 && a.1 == b.1 && (a.2 + 1 == b.2 || b.2 + 1 == a.2))
}

proof fn lemma_pair_bound(a: int, b: int, n: int)
    requires
        0 <= a < n,
        0 <= b < n,
    ensures
        0 <= a * n + b < n * n,
{
    assert(a * n + b < n * n) by (nonlinear_arith) requires 0 <= a < n, 0 <= b < n;
    assert(0 <= a * n) by (nonlinear_arith) requires 0 <= a, 0 <= n;
}

pub proof fn lemma_code(c: ColorBase, color_size: int)
    requires
        1 <= color_size <= 256,
        in_cube(c, color_size),
    ensures
        0 <= code_of(c, color_size) < cube_volume(color_size),
        color_at(code_of(c, color_size), color_size) == c,
{
    let n = color_size;
    lemma_pair_bound(c.0 as int, c.1 as int, n);
    let p = c.0 as int * n + c.1 as int;
    assert(p * n + c.2 < n * n * n) by (nonlinear_arith) requires 0 <= p < n * n, 0 <= c.2 < n;
    assert(0 <= p * n) by (nonlinear_arith) requires 0 <= p, 0 <= n;
    lemma_fundamental_div_mod_converse(p * n + c.2, n, p, c.2 as int);
    lemma_fundamental_div_mod_converse(p, n, c.0 as int, c.1 as int);
}

pub proof fn lemma_color_at(k: int, color_size: int)
    requires
        1 <= color_size <= 256,
        0 <= k < cube_volume(color_size),
    ensures
        in_cube(color_at(k, color_size), color_size),
        code_of(color_at(k, color_size), color_size) == k,
{
    let n = color_size;
    lemma_fundamental_div_mod(k, n);
    lemma_fundamental_div_mod(k / n, n);
    let q = k / n;
    assert(0 <= q < n * n) by (nonlinear_arith) requires k == n * q + k % n, 0 <= k % n < n, 0 <= k < n * n * n, n >= 1;
    assert(0 <= q / n < n) by (nonlinear_arith) requires q == n * (q / n) + q % n, 0 <= q % n < n, 0 <= q < n * n, n >= 1;
    assert(0 <= k % n < n);
    assert(0 <= q % n < n);
    assert(code_of(color_at(k, n), n) == ((q / n) * n + q % n) * n + k % n);
    assert((q / n) * n + q % n == q) by (nonlinear_arith) requires q == n * (q / n) + q % n;
    assert(q * n + k % n == k) by (nonlinear_arith) requires k == n * q + k % n;
}

/// The number of a color-base in the cube of side `color_size`.
pub fn color_code(c: ColorBase, color_size: usize) -> (r: usize)
    requires
        1 <= color_size <= 256,
        in_cube(c, color_size as int),
    ensures
        r == code_of(c, color_size as int),
        r < cube_volume(color_size as int),
        color_at(r as int, color_size as int) == c,
{
    proof {
        lemma_code(c, color_size as int);
        let n = color_size as int;
        lemma_pair_bound(c.0 as int, c.1 as int, n);
        assert(c.0 as int * n <= 256 * 256) by (nonlinear_arith) requires 0 <= c.0 < n, n <= 256;
        let p = c.0 as int * n + c.1 as int;
        assert(p * n <= 256 * 256 * 256) by (nonlinear_arith) requires 0 <= p < n * n, n <= 256;
    }
    ((c.0 as usize) * color_size + (c.1 as usize)) * color_size + (c.2 as usize)
}

/// The color-base numbered `k` in the cube of side `color_size`.
pub fn color_from_code(k: usize, color_size: usize) -> (r: ColorBase)
    requires
        1 <= color_size <= 256,
        k < cube_volume(color_size as int),
    ensures
        r == color_at(k as int, color_size as int),
        in_cube(r, color_size as int),
        code_of(r, color_size as int) == k,
{
    proof { lemma_color_at(k as int, color_size as int); }
    (((k / color_size) / color_size) as u8, ((k / color_size) % color_size) as u8, (k % color_size) as u8)
}

} // verus!
