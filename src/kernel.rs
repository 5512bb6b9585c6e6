//! Offset kernels: every displacement of a bounded box, ordered by squared
//! distance from the origin, ties going in the order of generation, which is
//! ascending lexicographic order of the components.
use vstd::prelude::*;

verus! {

/// A sort key: squared length, then up to three components.
pub type Keyed = (i64, i64, i64, i64);

/// Lexicographic `<=` on sort keys, the order of std's tuples.
pub open spec fn key_le(a: Keyed, b: Keyed) -> bool {
    a.0 < b.0 || (a.0 == b.0 && (a.1 < b.1 || (a.1 == b.1 && (a.2 < b.2 || (a.2 == b.2
        && a.3 <= b.3)))))
}

/// Relies on std's `slice::sort`: afterwards the elements are the same and
/// ascend in the lexicographic order of tuples.
#[verifier::external_body]
fn sort_keyed(v: &mut Vec<Keyed>)
    ensures
        final(v)@.to_multiset() == old(v)@.to_multiset(),
        forall|i: int, j: int|
            0 <= i < j < final(v)@.len() ==> key_le(#[trigger] final(v)@[i], #[trigger] final(v)@[j]),
{
    v.sort()
}

pub open spec fn norm2(dr: int, dc: int) -> int {
    dr * dr + dc * dc
}

pub open spec fn norm3(dr: int, dg: int, db: int) -> int {
    dr * dr + dg * dg + db * db
}

/// `a` comes strictly before `b` in the spatial kernel's order.
pub open spec fn spatial_before(a: (i64, i64), b: (i64, i64)) -> bool {
    norm2(a.0 as int, a.1 as int) < norm2(b.0 as int, b.1 as int) || (norm2(a.0 as int, a.1 as int)
        == norm2(b.0 as int, b.1 as int) && (a.0 < b.0 || (a.0 == b.0 && a.1 < b.1)))
}

/// `a` comes strictly before `b` in the color kernel's order.
pub open spec fn color_before(a: (i64, i64, i64), b: (i64, i64, i64)) -> bool {
    let na = norm3(a.0 as int, a.1 as int, a.2 as int);
    let nb = norm3(b.0 as int, b.1 as int, b.2 as int);
    na < nb || (na == nb && (a.0 < b.0 || (a.0 == b.0 && (a.1 < b.1 || (a.1 == b.1 && a.2
        < b.2)))))
}

pub open spec fn within(x: int, bound: int) -> bool {
    -bound <= x <= bound
}

pub open spec fn key2(x: int, y: int) -> Keyed {
    (norm2(x, y) as i64, x as i64, y as i64, 0i64)
}

pub open spec fn key3(x: int, y: int, z: int) -> Keyed {
    (norm3(x, y, z) as i64, x as i64, y as i64, z as i64)
}

proof fn lemma_norm2_bounds(x: int, y: int, b: int)
    requires
        0 <= b <= 4095,
        within(x, b),
        within(y, b),
    ensures
        0 <= norm2(x, y) <= 2 * 4095 * 4095,
{
    assert(0 <= x * x <= 4095 * 4095) by (nonlinear_arith) requires -4095 <= x <= 4095;
    assert(0 <= y * y <= 4095 * 4095) by (nonlinear_arith) requires -4095 <= y <= 4095;
}

proof fn lemma_sorted_distinct_strict(s: Seq<Keyed>, i: int, j: int)
    requires
        s.no_duplicates(),
        0 <= i < j < s.len(),
        key_le(s[i], s[j]),
    ensures
        key_le(s[i], s[j]) && s[i] != s[j],
{
}

/// A permutation of a sequence without duplicates has none.
pub proof fn lemma_permutation_no_dups<A>(old_s: Seq<A>, s: Seq<A>)
    requires
        old_s.no_duplicates(),
        s.to_multiset() == old_s.to_multiset(),
    ensures
        s.no_duplicates(),
{
    broadcast use vstd::multiset::group_multiset_axioms;
    broadcast use vstd::seq_lib::to_multiset_contains;
    old_s.lemma_multiset_has_no_duplicates();
    s.lemma_multiset_has_no_duplicates_conv();
}

/// Every displacement `(dr, dc)` with both components in `[-(size-1), size-1]`,
/// ordered by squared length and then lexicographically.
pub fn spatial_kernel(size: usize) -> (r: Vec<(i64, i64)>)
    requires
        1 <= size <= 4096,
    ensures
        forall|j: int| 0 <= j < r@.len() ==> within(r@[j].0 as int, size - 1)
            && within(r@[j].1 as int, size - 1),
        forall|i: int, j: int| 0 <= i < j < r@.len() ==> spatial_before(#[trigger] r@[i], #[trigger] r@[j]),
        forall|x: i64, y: i64| within(x as int, size - 1) && within(y as int, size - 1)
            ==> #[trigger] r@.contains((x, y)),
{
    let b: i64 = (size - 1) as i64;
    let mut v: Vec<Keyed> = Vec::new();
    let mut x: i64 = -b;
    while x <= b
        invariant
            0 <= b <= 4095,
            -b <= x <= b + 1,
            v@.no_duplicates(),
            forall|i: int| 0 <= i < v@.len() ==> within(v@[i].1 as int, b as int) && within(v@[i].2 as int, b as int)
                && #[trigger] v@[i] == key2(v@[i].1 as int, v@[i].2 as int) && v@[i].1 < x,
            forall|p: int, q: int| within(p, b as int) && within(q, b as int) && p < x
                ==> v@.contains(#[trigger] key2(p, q)),
        decreases b + 1 - x,
    {
        let mut y: i64 = -b;
        while y <= b
            invariant
                0 <= b <= 4095,
                -b <= x <= b,
                -b <= y <= b + 1,
                v@.no_duplicates(),
                forall|i: int| 0 <= i < v@.len() ==> within(v@[i].1 as int, b as int) && within(v@[i].2 as int, b as int)
                    && #[trigger] v@[i] == key2(v@[i].1 as int, v@[i].2 as int)
                    && (v@[i].1 < x || (v@[i].1 == x && v@[i].2 < y)),
                forall|p: int, q: int| within(p, b as int) && within(q, b as int) && (p < x || (p == x && q < y))
                    ==> v@.contains(#[trigger] key2(p, q)),
            decreases b + 1 - y,
        {
            proof {
                assert(x * x <= 4095 * 4095) by (nonlinear_arith) requires -4095 <= x <= 4095;
                assert(y * y <= 4095 * 4095) by (nonlinear_arith) requires -4095 <= y <= 4095;
                assert(x * x >= 0) by (nonlinear_arith);
                assert(y * y >= 0) by (nonlinear_arith);
            }
            let e: Keyed = (x * x + y * y, x, y, 0);
            let ghost old_v = v@;
            assert(e == key2(x as int, y as int));
            assert(!old_v.contains(e));
            v.push(e);
            proof {
                assert forall|p: int, q: int| within(p, b as int) && within(q, b as int) && (p < x || (p == x && q < y + 1))
                    implies v@.contains(#[trigger] key2(p, q)) by {
                    if p == x && q == y {
                        assert(v@[old_v.len() as int] == e);
                    } else {
                        assert(old_v.contains(key2(p, q)));
                        let k = choose|k: int| 0 <= k < old_v.len() && old_v[k] == key2(p, q);
                        assert(v@[k] == key2(p, q));
                    }
                }
                assert forall|i: int, j: int| 0 <= i < v@.len() && 0 <= j < v@.len() && i != j
                    implies v@[i] != v@[j] by {
                    if i == old_v.len() {
                        assert(old_v.contains(old_v[j]));
                    } else if j == old_v.len() {
                        assert(old_v.contains(old_v[i]));
                    }
                }
            }
            y = y + 1;
        }
        x = x + 1;
    }
    let ghost unsorted = v@;
    sort_keyed(&mut v);
    proof {
        lemma_permutation_no_dups(unsorted, v@);
        broadcast use vstd::seq_lib::to_multiset_contains;
        assert forall|t: Keyed| #[trigger] v@.contains(t) <==> unsorted.contains(t) by {
            assert(v@.to_multiset().count(t) == unsorted.to_multiset().count(t));
        }
        assert forall|i: int| 0 <= i < v@.len() implies within(v@[i].1 as int, b as int)
            && within(v@[i].2 as int, b as int) && #[trigger] v@[i] == key2(v@[i].1 as int, v@[i].2 as int) by {
            assert(v@.contains(v@[i]));
            assert(unsorted.contains(v@[i]));
        }
    }
    let mut r: Vec<(i64, i64)> = Vec::new();
    let mut j: usize = 0;
    while j < v.len()
        invariant
            0 <= b <= 4095,
            j <= v@.len(),
            r@.len() == j,
            v@.no_duplicates(),
            forall|i: int| 0 <= i < v@.len() ==> within(v@[i].1 as int, b as int) && within(v@[i].2 as int, b as int)
                && #[trigger] v@[i] == key2(v@[i].1 as int, v@[i].2 as int),
            forall|i: int| 0 <= i < j ==> #[trigger] r@[i] == (v@[i].1, v@[i].2),
        decreases v@.len() - j,
    {
        r.push((v[j].1, v[j].2));
        j = j + 1;
    }
    proof {
        assert forall|i: int, k: int| 0 <= i < k < r@.len() implies spatial_before(#[trigger] r@[i], #[trigger] r@[k]) by {
            lemma_sorted_distinct_strict(v@, i, k);
            let a = v@[i];
            let c = v@[k];
            lemma_norm2_bounds(a.1 as int, a.2 as int, b as int);
            lemma_norm2_bounds(c.1 as int, c.2 as int, b as int);
            assert(r@[i] == (a.1, a.2));
            assert(r@[k] == (c.1, c.2));
        }
        assert forall|p: i64, q: i64| within(p as int, b as int) && within(q as int, b as int)
            implies #[trigger] r@.contains((p, q)) by {
            assert(unsorted.contains(key2(p as int, q as int)));
            assert(v@.contains(key2(p as int, q as int)));
            let k = choose|k: int| 0 <= k < v@.len() && v@[k] == key2(p as int, q as int);
            assert(r@[k] == (p, q));
        }
    }
    r
}

proof fn lemma_norm3_bounds(x: int, y: int, z: int, b: int)
    requires
        0 <= b <= 255,
        within(x, b),
        within(y, b),
        within(z, b),
    ensures
        0 <= norm3(x, y, z) <= 3 * 255 * 255,
{
    assert(0 <= x * x <= 255 * 255) by (nonlinear_arith) requires -255 <= x <= 255;
    assert(0 <= y * y <= 255 * 255) by (nonlinear_arith) requires -255 <= y <= 255;
    assert(0 <= z * z <= 255 * 255) by (nonlinear_arith) requires -255 <= z <= 255;
}

/// Every displacement `(dr, dg, db)` with each component in
/// `[-(color_size-1), color_size-1]`, ordered by squared length and then
/// lexicographically.
pub fn color_kernel(color_size: usize) -> (r: Vec<(i64, i64, i64)>)
    requires
        1 <= color_size <= 256,
    ensures
        forall|j: int| 0 <= j < r@.len() ==> within(r@[j].0 as int, color_size - 1)
            && within(r@[j].1 as int, color_size - 1) && within(r@[j].2 as int, color_size - 1),
        forall|i: int, j: int| 0 <= i < j < r@.len() ==> color_before(#[trigger] r@[i], #[trigger] r@[j]),
        forall|x: i64, y: i64, z: i64| within(x as int, color_size - 1) && within(y as int, color_size - 1)
            && within(z as int, color_size - 1) ==> #[trigger] r@.contains((x, y, z)),
{
    let b: i64 = (color_size - 1) as i64;
    let mut v: Vec<Keyed> = Vec::new();
    let mut x: i64 = -b;
    while x <= b
        invariant
            0 <= b <= 255,
            -b <= x <= b + 1,
            v@.no_duplicates(),
            forall|i: int| 0 <= i < v@.len() ==> within(v@[i].1 as int, b as int) && within(v@[i].2 as int, b as int)
                && within(v@[i].3 as int, b as int)
                && #[trigger] v@[i] == key3(v@[i].1 as int, v@[i].2 as int, v@[i].3 as int) && v@[i].1 < x,
            forall|p: int, q: int, t: int| within(p, b as int) && within(q, b as int) && within(t, b as int) && p < x
                ==> v@.contains(#[trigger] key3(p, q, t)),
        decreases b + 1 - x,
    {
        let mut y: i64 = -b;
        while y <= b
            invariant
                0 <= b <= 255,
                -b <= x <= b,
                -b <= y <= b + 1,
                v@.no_duplicates(),
                forall|i: int| 0 <= i < v@.len() ==> within(v@[i].1 as int, b as int) && within(v@[i].2 as int, b as int)
                    && within(v@[i].3 as int, b as int)
                    && #[trigger] v@[i] == key3(v@[i].1 as int, v@[i].2 as int, v@[i].3 as int)
                    && (v@[i].1 < x || (v@[i].1 == x && v@[i].2 < y)),
                forall|p: int, q: int, t: int| within(p, b as int) && within(q, b as int) && within(t, b as int)
                    && (p < x || (p == x && q < y)) ==> v@.contains(#[trigger] key3(p, q, t)),
            decreases b + 1 - y,
        {
            let mut z: i64 = -b;
            while z <= b
                invariant
                    0 <= b <= 255,
                    -b <= x <= b,
                    -b <= y <= b,
                    -b <= z <= b + 1,
                    v@.no_duplicates(),
                    forall|i: int| 0 <= i < v@.len() ==> within(v@[i].1 as int, b as int) && within(v@[i].2 as int, b as int)
                        && within(v@[i].3 as int, b as int)
                        && #[trigger] v@[i] == key3(v@[i].1 as int, v@[i].2 as int, v@[i].3 as int)
                        && (v@[i].1 < x || (v@[i].1 == x && (v@[i].2 < y || (v@[i].2 == y && v@[i].3 < z)))),
                    forall|p: int, q: int, t: int| within(p, b as int) && within(q, b as int) && within(t, b as int)
                        && (p < x || (p == x && (q < y || (q == y && t < z)))) ==> v@.contains(#[trigger] key3(p, q, t)),
                decreases b + 1 - z,
            {
                proof {
                    assert(0 <= x * x <= 255 * 255) by (nonlinear_arith) requires -255 <= x <= 255;
                    assert(0 <= y * y <= 255 * 255) by (nonlinear_arith) requires -255 <= y <= 255;
                    assert(0 <= z * z <= 255 * 255) by (nonlinear_arith) requires -255 <= z <= 255;
                }
                let e: Keyed = (x * x + y * y + z * z, x, y, z);
                let ghost old_v = v@;
                assert(e == key3(x as int, y as int, z as int));
                assert(!old_v.contains(e));
                v.push(e);
                proof {
                    assert forall|p: int, q: int, t: int| within(p, b as int) && within(q, b as int) && within(t, b as int)
                        && (p < x || (p == x && (q < y || (q == y && t < z + 1)))) implies v@.contains(#[trigger] key3(p, q, t)) by {
                        if p == x && q == y && t == z {
                            assert(v@[old_v.len() as int] == e);
                        } else {
                            assert(old_v.contains(key3(p, q, t)));
                            let k = choose|k: int| 0 <= k < old_v.len() && old_v[k] == key3(p, q, t);
                            assert(v@[k] == key3(p, q, t));
                        }
                    }
                    assert forall|i: int, j: int| 0 <= i < v@.len() && 0 <= j < v@.len() && i != j
                        implies v@[i] != v@[j] by {
                        if i == old_v.len() {
                            assert(old_v.contains(old_v[j]));
                        } else if j == old_v.len() {
                            assert(old_v.contains(old_v[i]));
                        }
                    }
                }
                z = z + 1;
            }
            y = y + 1;
        }
        x = x + 1;
    }
    let ghost unsorted = v@;
    sort_keyed(&mut v);
    proof {
        lemma_permutation_no_dups(unsorted, v@);
        broadcast use vstd::seq_lib::to_multiset_contains;
        assert forall|t: Keyed| #[trigger] v@.contains(t) <==> unsorted.contains(t) by {
            assert(v@.to_multiset().count(t) == unsorted.to_multiset().count(t));
        }
        assert forall|i: int| 0 <= i < v@.len() implies within(v@[i].1 as int, b as int)
            && within(v@[i].2 as int, b as int) && within(v@[i].3 as int, b as int)
            && #[trigger] v@[i] == key3(v@[i].1 as int, v@[i].2 as int, v@[i].3 as int) by {
            assert(v@.contains(v@[i]));
            assert(unsorted.contains(v@[i]));
        }
    }
    let mut r: Vec<(i64, i64, i64)> = Vec::new();
    let mut j: usize = 0;
    while j < v.len()
        invariant
            0 <= b <= 255,
            j <= v@.len(),
            r@.len() == j,
            v@.no_duplicates(),
            forall|i: int| 0 <= i < v@.len() ==> within(v@[i].1 as int, b as int) && within(v@[i].2 as int, b as int)
                && within(v@[i].3 as int, b as int)
                && #[trigger] v@[i] == key3(v@[i].1 as int, v@[i].2 as int, v@[i].3 as int),
            forall|i: int| 0 <= i < j ==> #[trigger] r@[i] == (v@[i].1, v@[i].2, v@[i].3),
        decreases v@.len() - j,
    {
        r.push((v[j].1, v[j].2, v[j].3));
        j = j + 1;
    }
    proof {
        assert forall|i: int, k: int| 0 <= i < k < r@.len() implies color_before(#[trigger] r@[i], #[trigger] r@[k]) by {
            lemma_sorted_distinct_strict(v@, i, k);
            let a = v@[i];
            let c = v@[k];
            lemma_norm3_bounds(a.1 as int, a.2 as int, a.3 as int, b as int);
            lemma_norm3_bounds(c.1 as int, c.2 as int, c.3 as int, b as int);
            assert(r@[i] == (a.1, a.2, a.3));
            assert(r@[k] == (c.1, c.2, c.3));
        }
        assert forall|p: i64, q: i64, t: i64| within(p as int, b as int) && within(q as int, b as int)
            && within(t as int, b as int) implies #[trigger] r@.contains((p, q, t)) by {
            assert(unsorted.contains(key3(p as int, q as int, t as int)));
            assert(v@.contains(key3(p as int, q as int, t as int)));
            let k = choose|k: int| 0 <= k < v@.len() && v@[k] == key3(p as int, q as int, t as int);
            assert(r@[k] == (p, q, t));
        }
    }
    r
}

} // verus!
