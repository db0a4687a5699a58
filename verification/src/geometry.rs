//! Integer geometry of a stamp: the edge of the square buffer that holds a
//! silhouette of edge `size` under every rotation, and where the silhouette
//! and the stamp sit.
//!
//! A square of edge `size` turned about its centre sweeps a disc of diameter
//! `sqrt(2) * size`. The stamp is the smallest square whose edge is at least
//! that diameter and has the parity of `size`, so that the silhouette can be
//! centred in it on whole pixels.

use vstd::prelude::*;

verus! {

/// `r` is the integer ceiling of the square root of `n`.
pub open spec fn is_ceil_sqrt(n: nat, r: nat) -> bool {
    n <= r * r && (r > 0 ==> (r - 1) * (r - 1) < n)
}

/// The integer ceiling of the square root of `n`.
pub open spec fn ceil_sqrt(n: nat) -> nat {
    choose|r: nat| is_ceil_sqrt(n, r)
}

/// The edge of the stamp for a silhouette of edge `size`:
/// `ceil(sqrt(2) * size)`, plus one where that has not the parity of `size`.
pub open spec fn rotated_edge(size: nat) -> nat {
    let c = ceil_sqrt(2 * size * size);
    if c % 2 == size % 2 {
        c
    } else {
        c + 1
    }
}

/// The distance, on each axis, from the stamp's corner to the silhouette's.
pub open spec fn inset(size: nat) -> nat {
    (rotated_edge(size) / 2 - size / 2) as nat
}

/// The canvas coordinate of a stamp's first row or column, for a stamp of edge
/// `edge` centred at `center`.
pub open spec fn origin(center: int, edge: nat) -> int {
    center - edge / 2
}

proof fn lemma_square_monotonic(a: int, b: int)
    requires
        0 <= a <= b,
    ensures
        a * a <= b * b,
{
    assert(a * a <= b * b) by (nonlinear_arith)
        requires
            0 <= a <= b,
    ;
}

proof fn lemma_square_strictly_monotonic(a: int, b: int)
    requires
        0 <= a < b,
    ensures
        a * a < b * b,
{
    assert(a * a < b * b) by (nonlinear_arith)
        requires
            0 <= a < b,
    ;
}

/// At most one number is the ceiling of the square root of `n`.
pub proof fn lemma_ceil_sqrt_unique(n: nat, r1: nat, r2: nat)
    requires
        is_ceil_sqrt(n, r1),
        is_ceil_sqrt(n, r2),
    ensures
        r1 == r2,
{
    if r1 < r2 {
        lemma_square_monotonic(r1 as int, r2 - 1);
    } else if r2 < r1 {
        lemma_square_monotonic(r2 as int, r1 - 1);
    }
}

/// Whatever meets `is_ceil_sqrt` is `ceil_sqrt`.
pub proof fn lemma_ceil_sqrt_is(n: nat, r: nat)
    requires
        is_ceil_sqrt(n, r),
    ensures
        ceil_sqrt(n) == r,
{
    lemma_ceil_sqrt_unique(n, r, ceil_sqrt(n));
}

/// Every number has a ceiling of its square root.
pub proof fn lemma_ceil_sqrt_exists(n: nat)
    ensures
        is_ceil_sqrt(n, ceil_sqrt(n)),
    decreases n,
{
    if n == 0 {
        assert(is_ceil_sqrt(0, 0));
    } else {
        lemma_ceil_sqrt_exists((n - 1) as nat);
        let r = ceil_sqrt((n - 1) as nat);
        if n <= r * r {
            assert(is_ceil_sqrt(n, r));
        } else {
            assert(r * r == n - 1);
            assert((r + 1) * (r + 1) >= n) by (nonlinear_arith)
                requires
                    r * r == n - 1,
                    r >= 0,
            ;
            assert(((r + 1) - 1) * ((r + 1) - 1) == r * r);
            assert(is_ceil_sqrt(n, r + 1));
        }
    }
}

/// What fixes the stamp's edge `r = rotated_edge(size)`: it is no shorter than
/// the silhouette's, it has its parity, it reaches the silhouette's diagonal,
/// and the next shorter edge of that parity does not.
pub proof fn lemma_rotated_edge(size: nat)
    ensures
        rotated_edge(size) >= size,
        rotated_edge(size) % 2 == size % 2,
        2 * size * size <= rotated_edge(size) * rotated_edge(size),
        size >= 1 ==> rotated_edge(size) >= 3 && (rotated_edge(size) - 2) * (rotated_edge(size)
            - 2) < 2 * size * size,
        ceil_sqrt(2 * size * size) <= rotated_edge(size) <= ceil_sqrt(2 * size * size) + 1,
        ceil_sqrt(2 * size * size) <= 2 * size,
        rotated_edge(size) <= 2 * size + 1,
{
    let n: nat = 2 * size * size;
    let c = ceil_sqrt(n);
    let r = rotated_edge(size);
    lemma_ceil_sqrt_exists(n);
    lemma_square_monotonic(c as int, r as int);
    assert(size * size <= n) by (nonlinear_arith)
        requires
            n == 2 * size * size,
    ;
    if r < size {
        lemma_square_strictly_monotonic(r as int, size as int);
    }
    assert((2 * size) * (2 * size) >= n) by (nonlinear_arith)
        requires
            n == 2 * size * size,
    ;
    if c > 2 * size {
        lemma_square_monotonic(2 * (size as int), c - 1);
    }
    if size >= 1 {
        assert(n >= 2) by (nonlinear_arith)
            requires
                n == 2 * size * size,
                size >= 1,
        ;
        if c < 2 {
            lemma_square_monotonic(c as int, 1);
        }
        if r < 3 {
            // r == 2 with c == 2, so size is even and n >= 8 > c * c
            assert(size >= 2);
            assert(n >= 8) by (nonlinear_arith)
                requires
                    n == 2 * size * size,
                    size >= 2,
            ;
            assert(false);
        }
        lemma_square_monotonic(r - 2, c - 1);
    }
}

/// The stamp's edge does not shrink as the silhouette grows.
pub proof fn lemma_rotated_edge_monotonic(a: nat, b: nat)
    requires
        a <= b,
    ensures
        rotated_edge(a) <= rotated_edge(b),
{
    lemma_rotated_edge(a);
    lemma_rotated_edge(b);
    if 1 <= a < b {
        let na: int = (2 * a * a) as int;
        let nb: int = (2 * b * b) as int;
        let ca: int = ceil_sqrt(2 * a * a) as int;
        let cb: int = ceil_sqrt(2 * b * b) as int;
        lemma_ceil_sqrt_exists(2 * a * a);
        lemma_ceil_sqrt_exists(2 * b * b);
        // The two ceilings differ: the squares of a and b lie further apart
        // than the square of ca and the number it is the ceiling for.
        if cb <= ca {
            lemma_square_monotonic(cb, ca);
            assert(nb >= na + 4 * a + 2) by (nonlinear_arith)
                requires
                    na == 2 * a * a,
                    nb == 2 * b * b,
                    b >= a + 1,
                    a >= 0,
            ;
            assert((ca - 1) * (ca - 1) == ca * ca - 2 * ca + 1) by (nonlinear_arith);
            assert(false);
        }
    } else if a == 0 {
        assert(2 * a * a == 0);
        assert(is_ceil_sqrt(0, 0));
        lemma_ceil_sqrt_is(0, 0);
    }
}

/// No point of the silhouette leaves the stamp under any rotation: every
/// point `(x, y)` of the centred square of edge `size`, its border included,
/// lies within the disc inscribed in the stamp, which a rotation about the
/// stamp's centre maps to itself. Distances are doubled to stay whole.
pub proof fn lemma_silhouette_within_inscribed_disc(size: nat, x: int, y: int)
    requires
        inset(size) <= x <= inset(size) + size,
        inset(size) <= y <= inset(size) + size,
    ensures
        2 * inset(size) + size == rotated_edge(size),
        (2 * x - rotated_edge(size)) * (2 * x - rotated_edge(size)) + (2 * y - rotated_edge(size))
            * (2 * y - rotated_edge(size)) <= rotated_edge(size) * rotated_edge(size),
{
    let r = rotated_edge(size) as int;
    let s = size as int;
    lemma_rotated_edge(size);
    let dx = 2 * x - r;
    let dy = 2 * y - r;
    assert(-s <= dx <= s && -s <= dy <= s);
    assert(dx * dx <= s * s) by (nonlinear_arith)
        requires
            -s <= dx <= s,
    ;
    assert(dy * dy <= s * s) by (nonlinear_arith)
        requires
            -s <= dy <= s,
    ;
    assert(2 * size * size == s * s + s * s) by (nonlinear_arith)
        requires
            s == size,
    ;
}

/// The edge of the stamp for a silhouette of edge `size`.
pub fn stamp_edge(size: u32) -> (edge: u64)
    ensures
        edge == rotated_edge(size as nat),
        edge >= size,
        edge % 2 == size % 2,
        edge <= 2 * size + 1,
{
    proof {
        lemma_rotated_edge(size as nat);
    }
    if size == 0 {
        proof {
            assert(is_ceil_sqrt(0, 0));
            lemma_ceil_sqrt_is(0, 0);
            assert(2 * (size as nat) * (size as nat) == 0);
        }
        return 0;
    }
    let s: u128 = size as u128;
    assert(s * s <= 0xffff_ffff * 0xffff_ffff) by (nonlinear_arith)
        requires
            0 <= s <= 0xffff_ffff,
    ;
    assert(2 * s * s <= 2 * (0xffff_ffff * 0xffff_ffff)) by (nonlinear_arith)
        requires
            s * s <= 0xffff_ffff * 0xffff_ffff,
    ;
    let n: u128 = 2 * s * s;
    assert(n >= 2) by (nonlinear_arith)
        requires
            n == 2 * s * s,
            s >= 1,
    ;
    let mut lo: u128 = 1;
    let mut hi: u128 = 2 * s;
    assert(hi * hi >= n) by (nonlinear_arith)
        requires
            hi == 2 * s,
            n == 2 * s * s,
    ;
    while hi - lo > 1
        invariant
            1 <= lo < hi <= 2 * s,
            s <= 0xffff_ffff,
            lo * lo < n <= hi * hi,
        decreases hi - lo,
    {
        let mid: u128 = lo + (hi - lo) / 2;
        assert(mid * mid <= 0x2_0000_0000 * 0x2_0000_0000) by (nonlinear_arith)
            requires
                0 <= mid <= 0x2_0000_0000,
        ;
        if mid * mid >= n {
            hi = mid;
        } else {
            lo = mid;
        }
    }
    proof {
        assert(hi - 1 == lo);
        assert(is_ceil_sqrt(n as nat, hi as nat));
        lemma_ceil_sqrt_is(n as nat, hi as nat);
        assert(n as nat == 2 * (size as nat) * (size as nat)) by (nonlinear_arith)
            requires
                n == 2 * s * s,
                s == size,
        ;
    }
    let c: u64 = hi as u64;
    if c % 2 == (size as u64) % 2 {
        c
    } else {
        c + 1
    }
}

/// The distance, on each axis, from the stamp's corner to the corner of the
/// silhouette centred in it.
pub fn silhouette_inset(size: u32) -> (offset: u64)
    ensures
        offset == inset(size as nat),
        2 * offset + size == rotated_edge(size as nat),
{
    let edge: u64 = stamp_edge(size);
    edge / 2 - (size as u64) / 2
}

/// The canvas coordinate at which a stamp of edge `edge` starts on one axis
/// when it is centred at `center`.
pub fn stamp_origin(center: u32, edge: u64) -> (start: i64)
    ensures
        start == origin(center as int, edge as nat),
{
    (center as i64) - ((edge / 2) as i64)
}

} // verus!
