//! The pairing function: a total, invertible encoding from a signed
//! coordinate pair to a single non-negative index.
//!
//! Each signed coordinate is first folded onto the naturals by the zig-zag
//! encoding (`naturalize`), and the two naturals are then combined by the
//! Cantor-style diagonal enumeration (`cantor_pairing`). Both steps are
//! bijections, so every index denotes exactly one coordinate pair.

use vstd::prelude::*;

verus! {

/// Zig-zag encoding of a signed integer onto the naturals:
/// 0, -1, 1, -2, 2, ... map to 0, 1, 2, 3, 4, ...
pub open spec fn nat_of(n: int) -> nat {
    if n >= 0 {
        (2 * n) as nat
    } else {
        (2 * (-n) - 1) as nat
    }
}

/// Inverse of `nat_of`: an even natural u comes from u / 2, an odd one
/// from -((u + 1) / 2).
pub open spec fn int_of(u: nat) -> int {
    if u % 2 == 0 {
        u as int / 2
    } else {
        -((u as int + 1) / 2)
    }
}

/// Decoding after encoding gives the signed integer back.
pub proof fn lemma_int_of_nat_of(n: int)
    ensures
        int_of(nat_of(n)) == n,
{
}

/// Encoding after decoding gives the natural back.
pub proof fn lemma_nat_of_int_of(u: nat)
    ensures
        nat_of(int_of(u)) == u,
{
}

/// The w-th triangular number: the index at which diagonal w starts.
pub open spec fn tri(w: nat) -> nat {
    (w * (w + 1)) / 2
}

/// The index of the coordinate pair (x, y): zig-zag both coordinates onto
/// the naturals, then enumerate the natural plane diagonal by diagonal, in
/// order of increasing coordinate sum.
pub open spec fn pair_index(x: int, y: int) -> nat {
    tri(nat_of(x) + nat_of(y)) + nat_of(y)
}

/// The supported coordinate range: the index grows with the square of the
/// sum of the two naturalized coordinates, and this bound keeps that sum,
/// and with it every intermediate product, inside 64 bits.
pub open spec fn coord_in_range(n: int) -> bool {
    -0x4000_0000 <= n < 0x4000_0000
}

/// The product of two consecutive integers is even, so `tri` divides evenly.
proof fn lemma_tri_exact(w: nat)
    ensures
        2 * tri(w) == w * (w + 1),
{
    let h = w / 2;
    if w % 2 == 0 {
        assert(w * (w + 1) == 2 * (h * (w + 1))) by (nonlinear_arith)
            requires
                w == 2 * h,
        ;
    } else {
        assert(w * (w + 1) == 2 * (w * (h + 1))) by (nonlinear_arith)
            requires
                w + 1 == 2 * (h + 1),
        ;
    }
}

/// Each diagonal starts one past where the previous one ends.
proof fn lemma_tri_step(w: nat)
    ensures
        tri(w + 1) == tri(w) + w + 1,
{
    lemma_tri_exact(w);
    lemma_tri_exact(w + 1);
    assert((w + 1) * (w + 2) == w * (w + 1) + 2 * (w + 1)) by (nonlinear_arith);
}

/// Triangular numbers are monotone.
proof fn lemma_tri_mono(a: nat, b: nat)
    requires
        a <= b,
    ensures
        tri(a) <= tri(b),
{
    lemma_tri_exact(a);
    lemma_tri_exact(b);
    assert(a * (a + 1) <= b * (b + 1)) by (nonlinear_arith)
        requires
            0 <= a <= b,
    ;
}

/// The polynomial the executable pairing computes equals the diagonal
/// enumeration index, before the halving.
proof fn lemma_pair_poly(nx: nat, ny: nat)
    ensures
        nx * nx + nx + 2 * (nx * ny) + 3 * ny + ny * ny == 2 * (tri(nx + ny) + ny),
{
    lemma_tri_exact(nx + ny);
    assert(nx * nx + nx + 2 * (nx * ny) + 3 * ny + ny * ny == (nx + ny) * ((nx + ny) + 1) + 2
        * ny) by (nonlinear_arith);
}

/// Bounds for the executable pairing: with both naturalized coordinates
/// below 2^31, every intermediate term and the full sum fit in 64 bits.
proof fn lemma_pair_poly_bounds(nx: nat, ny: nat)
    requires
        nx < 0x8000_0000,
        ny < 0x8000_0000,
    ensures
        nx * nx <= 0x3FFF_FFFF_0000_0001,
        nx * ny <= 0x3FFF_FFFF_0000_0001,
        ny * ny <= 0x3FFF_FFFF_0000_0001,
{
    assert(nx * nx <= 0x7FFF_FFFF * 0x7FFF_FFFF && nx * ny <= 0x7FFF_FFFF * 0x7FFF_FFFF && ny * ny
        <= 0x7FFF_FFFF * 0x7FFF_FFFF) by (nonlinear_arith)
        requires
            nx <= 0x7FFF_FFFF,
            ny <= 0x7FFF_FFFF,
    ;
}

/// Zig-zag encode one coordinate. Total over `i64`: the result of the
/// widest input still fits in `u64`.
pub fn naturalize(n: i64) -> (r: u64)
    ensures
        r as nat == nat_of(n as int),
{
    if n >= 0 {
        (n as u64) * 2
    } else {
        let m: u64 = (-(n as i128)) as u64;
        m + (m - 1)
    }
}

/// Zig-zag decode one coordinate. Total over `u64`: the widest input decodes
/// to `i64::MIN`.
pub fn denaturalize(u: u64) -> (r: i64)
    ensures
        r as int == int_of(u as nat),
{
    if u % 2 == 0 {
        (u / 2) as i64
    } else {
        let h = u / 2;
        -(h as i64) - 1
    }
}

/// Combine a coordinate pair into its index. The supported coordinate
/// range keeps every intermediate product inside `u64`.
pub fn cantor_pairing(x: i64, y: i64) -> (r: u64)
    requires
        coord_in_range(x as int),
        coord_in_range(y as int),
    ensures
        r as nat == pair_index(x as int, y as int),
{
    let nx = naturalize(x);
    let ny = naturalize(y);
    proof {
        lemma_pair_poly_bounds(nx as nat, ny as nat);
        lemma_pair_poly(nx as nat, ny as nat);
    }
    (nx * nx + nx + 2 * (nx * ny) + 3 * ny + ny * ny) / 2
}

/// The diagonal that index z falls on: the largest w with tri(w) <= z.
pub open spec fn diag_of(z: nat) -> nat
    decreases z,
{
    if z == 0 {
        0
    } else if tri(diag_of((z - 1) as nat) + 1) <= z {
        diag_of((z - 1) as nat) + 1
    } else {
        diag_of((z - 1) as nat)
    }
}

/// Second coordinate recovered from index z: the offset of z inside its
/// diagonal, decoded back to a signed integer.
pub open spec fn unpair_y(z: nat) -> int {
    int_of((z - tri(diag_of(z))) as nat)
}

/// First coordinate recovered from index z: the rest of the diagonal,
/// decoded back to a signed integer.
pub open spec fn unpair_x(z: nat) -> int {
    int_of((diag_of(z) - (z - tri(diag_of(z)))) as nat)
}

/// `diag_of` lands z between two consecutive triangular numbers.
proof fn lemma_diag_bounds(z: nat)
    ensures
        tri(diag_of(z)) <= z < tri(diag_of(z) + 1),
    decreases z,
{
    if z == 0 {
        assert(diag_of(0) == 0);
        assert(tri(0) == 0);
        assert(tri(1) == 1);
    } else {
        let w0 = diag_of((z - 1) as nat);
        lemma_diag_bounds((z - 1) as nat);
        lemma_tri_step(w0);
        lemma_tri_step(w0 + 1);
        if tri(w0 + 1) <= z {
            assert(diag_of(z) == w0 + 1);
            assert(z - 1 < tri(w0 + 1));
            assert(z < tri(w0 + 2));
        } else {
            assert(diag_of(z) == w0);
            assert(tri(w0) <= z);
            assert(z < tri(w0 + 1));
        }
    }
}

/// The diagonal of z is the only w with tri(w) <= z < tri(w + 1).
proof fn lemma_diag_unique(z: nat, w: nat)
    requires
        tri(w) <= z,
        z < tri(w + 1),
    ensures
        diag_of(z) == w,
{
    let d = diag_of(z);
    lemma_diag_bounds(z);
    if d < w {
        lemma_tri_mono(d + 1, w);
    }
    if d > w {
        lemma_tri_mono(w + 1, d);
    }
}

/// Unpairing inverts pairing: the coordinates encoded into an index are
/// recovered exactly.
pub proof fn lemma_unpair_pair(x: int, y: int)
    ensures
        unpair_x(pair_index(x, y)) == x,
        unpair_y(pair_index(x, y)) == y,
{
    let nx = nat_of(x);
    let ny = nat_of(y);
    let z = pair_index(x, y);
    lemma_tri_step(nx + ny);
    lemma_diag_unique(z, nx + ny);
    lemma_int_of_nat_of(x);
    lemma_int_of_nat_of(y);
}

/// Pairing inverts unpairing: every index is the code of the coordinate
/// pair recovered from it.
pub proof fn lemma_pair_unpair(z: nat)
    ensures
        pair_index(unpair_x(z), unpair_y(z)) == z,
{
    let w = diag_of(z);
    lemma_diag_bounds(z);
    lemma_tri_step(w);
    let ny = (z - tri(w)) as nat;
    let nx = (w - ny) as nat;
    lemma_nat_of_int_of(ny);
    lemma_nat_of_int_of(nx);
}

/// The pairing function never sends two coordinate pairs to one index.
pub proof fn lemma_pair_injective(x1: int, y1: int, x2: int, y2: int)
    requires
        pair_index(x1, y1) == pair_index(x2, y2),
    ensures
        x1 == x2,
        y1 == y2,
{
    lemma_unpair_pair(x1, y1);
    lemma_unpair_pair(x2, y2);
}

/// Split an index back into its coordinate pair. Total over `u64`: the
/// diagonal is recovered by binary search over exact triangular numbers,
/// so no index needs more than 34-bit coordinates.
pub fn cantor_unpairing(z: u64) -> (r: (i64, i64))
    ensures
        r.0 as int == unpair_x(z as nat),
        r.1 as int == unpair_y(z as nat),
        pair_index(r.0 as int, r.1 as int) == z as nat,
{
    let mut lo: u64 = 0;
    let mut hi: u64 = 0x2_0000_0000;
    proof {
        lemma_tri_exact(0x2_0000_0000);
        assert(2 * tri(0x2_0000_0000) == 0x2_0000_0000 * 0x2_0000_0001);
    }
    while lo + 1 < hi
        invariant
            lo < hi <= 0x2_0000_0000,
            tri(lo as nat) <= z as nat,
            (z as nat) < tri(hi as nat),
        decreases hi - lo,
    {
        let mid = lo + (hi - lo) / 2;
        proof {
            assert((mid as u128) * ((mid as u128) + 1) <= 0x2_0000_0000 * 0x2_0000_0001)
                by (nonlinear_arith)
                requires
                    mid <= 0x2_0000_0000,
            ;
            lemma_tri_exact(mid as nat);
        }
        let t: u128 = (mid as u128) * ((mid as u128) + 1) / 2;
        if t <= z as u128 {
            lo = mid;
        } else {
            hi = mid;
        }
    }
    proof {
        lemma_diag_unique(z as nat, lo as nat);
        lemma_tri_step(lo as nat);
        lemma_tri_exact(lo as nat);
        assert((lo as u128) * ((lo as u128) + 1) == 2 * tri(lo as nat)) by (nonlinear_arith)
            requires
                2 * tri(lo as nat) == (lo as nat) * ((lo as nat) + 1),
        ;
    }
    let t: u64 = ((lo as u128) * ((lo as u128) + 1) / 2) as u64;
    let yn = z - t;
    let xn = lo - yn;
    let r = (denaturalize(xn), denaturalize(yn));
    proof {
        lemma_pair_unpair(z as nat);
    }
    r
}

} // verus!
