//! Leaflet classification: the one-axis periodic signed distance between
//! a marker and the membrane center, and the leaflet chosen by its sign.
//!
//! The decision is per frame and per atom, with no memory of earlier
//! frames: a marker that crosses the midplane simply changes leaflet.

use vstd::prelude::*;

verus! {

/// One of the two monolayers of the bilayer.
#[derive(Clone, Copy, Debug, PartialEq, Eq, Structural)]
pub enum Leaflet {
    /// Markers strictly above the membrane center.
    Upper,
    /// Markers at or below the membrane center.
    Lower,
}

/// The leaflet a signed offset selects: positive offsets are upper,
/// zero and negative offsets are lower.
pub open spec fn spec_leaflet_of(zdist: int) -> Leaflet {
    if zdist > 0 {
        Leaflet::Upper
    } else {
        Leaflet::Lower
    }
}

/// Classify a marker by the sign of its signed offset from the membrane
/// center. A marker exactly on the midplane belongs to the lower leaflet.
pub fn leaflet_of(zdist: i64) -> (r: Leaflet)
    ensures
        r == spec_leaflet_of(zdist as int),
{
    if zdist > 0 {
        Leaflet::Upper
    } else {
        Leaflet::Lower
    }
}

/// The representative of `d` in the half-open interval `(-l/2, l/2]`
/// modulo `l`: the signed minimum-image offset.
pub open spec fn spec_min_image(d: int, l: int) -> int
    recommends
        l > 0,
{
    let m = d % l;
    if 2 * m > l {
        m - l
    } else {
        m
    }
}

/// Signed one-axis minimum-image distance from `center` to `z` in a
/// periodic box of length `boxz`: the unique offset congruent to
/// `z - center` modulo `boxz` that lies in `(-boxz/2, boxz/2]`.
pub fn min_image_z(z: i64, center: i64, boxz: i64) -> (r: i64)
    requires
        boxz > 0,
    ensures
        r == spec_min_image(z - center, boxz as int),
        -(boxz as int) < 2 * r <= boxz,
        (r - (z - center)) % (boxz as int) == 0,
{
    let d: i128 = z as i128 - center as i128;
    let l: i128 = boxz as i128;
    let m: i128 = match d.checked_rem_euclid(l) {
        Some(m) => m,
        None => {
            proof {
                assert(false);
            }
            0
        },
    };
    proof {
        vstd::arithmetic::div_mod::lemma_mod_bound(d as int, l as int);
        lemma_min_image_congruent(d as int, l as int);
    }
    if 2 * m > l {
        (m - l) as i64
    } else {
        m as i64
    }
}

/// The minimum-image offset differs from `d` by a multiple of `l`.
proof fn lemma_min_image_congruent(d: int, l: int)
    requires
        l > 0,
    ensures
        (spec_min_image(d, l) - d) % l == 0,
{
    let m = d % l;
    vstd::arithmetic::div_mod::lemma_fundamental_div_mod(d, l);
    let q = d / l;
    assert(m - d == (-q) * l) by {
        vstd::arithmetic::mul::lemma_mul_is_commutative(q, l);
        vstd::arithmetic::mul::lemma_mul_unary_negation(q, l);
    }
    assert(((-q) * l) % l == 0) by {
        vstd::arithmetic::div_mod::lemma_mod_multiples_basic(-q, l);
    }
    if 2 * m > l {
        assert(m - l - d == (-q - 1) * l) by {
            vstd::arithmetic::mul::lemma_mul_is_distributive_sub_other_way(l, -q, 1);
            vstd::arithmetic::mul::lemma_mul_basics(l);
        }
        assert(((-q - 1) * l) % l == 0) by {
            vstd::arithmetic::div_mod::lemma_mod_multiples_basic(-q - 1, l);
        }
    }
}

} // verus!
