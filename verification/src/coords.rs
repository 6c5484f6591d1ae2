use vstd::prelude::*;
use vstd::arithmetic::div_mod::lemma_fundamental_div_mod;
use vstd::arithmetic::div_mod::lemma_fundamental_div_mod_converse;
use vstd::arithmetic::div_mod::lemma_div_multiples_vanish;
use vstd::arithmetic::div_mod::lemma_div_nonincreasing;
use vstd::arithmetic::div_mod::lemma_div_is_ordered;
use vstd::arithmetic::mul::lemma_mul_inequality;

verus! {

/// Tile index of a world coordinate for tiles of side `s`: division flooring
/// toward negative infinity, so that for a side of 16, world -1 lies in tile
/// -1 and world -16 in tile -1 as well, not in tile 0 or -2.
pub open spec fn tile_coord(w: int, s: int) -> int {
    w / s
}

/// World coordinate of the origin corner of tile `t`.
pub open spec fn world_coord(t: int, s: int) -> int {
    t * s
}

/// Dividing a negative value by a positive side is the negated rounded-up
/// division of its magnitude.
proof fn lemma_neg_div(m: int, s: int)
    requires
        1 <= s,
        1 <= m,
    ensures
        (-m) / s == -((m + s - 1) / s),
        (m + s - 1) / s <= m,
{
    lemma_fundamental_div_mod(m, s);
    let q = m / s;
    let r = m % s;
    assert(m == s * q + r);
    assert(0 <= q) by {
        lemma_div_nonincreasing(m, s);
        if q < 0 {
            assert(s * q <= q) by (nonlinear_arith)
                requires
                    1 <= s,
                    q < 0,
            ;
        }
    }
    if r == 0 {
        assert(m + s - 1 == q * s + (s - 1)) by (nonlinear_arith)
            requires
                m == s * q + r,
                r == 0,
        ;
        lemma_fundamental_div_mod_converse(m + s - 1, s, q, s - 1);
        assert(-m == (-q) * s + 0) by (nonlinear_arith)
            requires
                m == s * q + r,
                r == 0,
        ;
        lemma_fundamental_div_mod_converse(-m, s, -q, 0);
        assert(q <= m) by (nonlinear_arith)
            requires
                m == s * q + r,
                1 <= s,
                0 <= r,
                0 <= q,
        ;
    } else {
        assert(m + s - 1 == (q + 1) * s + (r - 1)) by (nonlinear_arith)
            requires
                m == s * q + r,
        ;
        lemma_fundamental_div_mod_converse(m + s - 1, s, q + 1, r - 1);
        assert(-m == (-q - 1) * s + (s - r)) by (nonlinear_arith)
            requires
                m == s * q + r,
        ;
        lemma_fundamental_div_mod_converse(-m, s, -q - 1, s - r);
        assert(q + 1 <= m) by (nonlinear_arith)
            requires
                m == s * q + r,
                1 <= s,
                1 <= r,
                0 <= q,
        ;
    }
}

/// World space to tile space, flooring toward negative infinity.
pub fn world_to_tile(w: i32, s: u32) -> (r: i32)
    requires
        1 <= s,
    ensures
        r as int == tile_coord(w as int, s as int),
{
    if w >= 0 {
        let q: u32 = (w as u32) / s;
        proof {
            lemma_div_nonincreasing(w as int, s as int);
        }
        q as i32
    } else {
        let mag: u64 = (-(w as i64)) as u64;
        let q: u64 = (mag + (s as u64) - 1) / (s as u64);
        proof {
            lemma_neg_div(mag as int, s as int);
        }
        (-(q as i64)) as i32
    }
}

/// Tile space back to world space.  The product must fit the coordinate
/// type; graphs keep their keys within that bound.
pub fn tile_to_world(t: i32, s: u32) -> (r: i32)
    requires
        i32::MIN <= t as int * s as int <= i32::MAX,
    ensures
        r as int == world_coord(t as int, s as int),
{
    ((t as i64) * (s as i64)) as i32
}

/// The tile that contains a world coordinate has a world coordinate of its
/// own within the coordinate type, for each of the three side lengths (all
/// of which divide the type's range evenly).
pub proof fn lemma_tile_div_fits(w: int, s: int)
    requires
        i32::MIN <= w <= i32::MAX,
        s == 16 || s == 32 || s == 64,
    ensures
        i32::MIN <= (w / s) * s <= i32::MAX,
{
    lemma_div_is_ordered(i32::MIN as int, w, s);
    lemma_div_is_ordered(w, i32::MAX as int, s);
    lemma_mul_inequality(i32::MIN as int / s, w / s, s);
    lemma_mul_inequality(w / s, i32::MAX as int / s, s);
    if s == 16 {
        assert((i32::MIN as int / 16) * 16 == i32::MIN as int);
        assert((i32::MAX as int / 16) * 16 <= i32::MAX as int);
    } else if s == 32 {
        assert((i32::MIN as int / 32) * 32 == i32::MIN as int);
        assert((i32::MAX as int / 32) * 32 <= i32::MAX as int);
    } else {
        assert((i32::MIN as int / 64) * 64 == i32::MIN as int);
        assert((i32::MAX as int / 64) * 64 <= i32::MAX as int);
    }
}

/// Coordinate conversion round trip: a tile coordinate taken to world space
/// and back is unchanged, for every tile coordinate — negative ones included
/// — and every positive side length.
pub proof fn lemma_tile_world_round_trip(t: int, s: int)
    requires
        1 <= s,
    ensures
        tile_coord(world_coord(t, s), s) == t,
{
    lemma_div_multiples_vanish(t, s);
    assert(t * s == s * t) by (nonlinear_arith);
}

} // verus!
