//! Where a page stands: four coordinates, packed into one scalar, and the
//! combination of that scalar with the number of the page's text.
//!
//! A combined value is a two-digit number in the base `multiplier`: the low
//! digit is the content, the high digit is the coordinate scalar.

use crate::alphabet::BABEL_SET;
use crate::bignat::{big_add, big_div_mod, big_mul, big_pow, BigNat};
use crate::error::{Error, Field};
use crate::page::PAGE_LENGTH;
use vstd::arithmetic::div_mod::{lemma_fundamental_div_mod_converse, lemma_mod_bound};
use vstd::arithmetic::power::{lemma_pow_positive, pow};
use vstd::prelude::*;

verus! {

/// The largest wall.
pub const MAX_WALL: u32 = 4;

/// The largest shelf of a wall.
pub const MAX_SHELF: u32 = 5;

/// The largest volume of a shelf.
pub const MAX_VOLUME: u32 = 32;

/// The largest page of a volume.
pub const MAX_PAGE: u32 = 410;

/// The place of a page. In the packed scalar the page takes the three lowest
/// decimal digits, the volume the next two, the shelf the next one, and the
/// wall all above.
#[derive(Debug, Clone, Copy, PartialEq, Eq, Structural)]
pub struct Coordinates {
    pub wall: u32,
    pub shelf: u32,
    pub volume: u32,
    pub page: u32,
}

/// The scalar that packs four coordinates.
pub open spec fn pack_spec(c: Coordinates) -> nat {
    (c.wall * 1_000_000 + c.shelf * 100_000 + c.volume * 1_000 + c.page) as nat
}

/// The coordinates that a scalar packs.
pub open spec fn unpack_spec(scalar: nat) -> (nat, nat, nat, nat) {
    (scalar / 1_000_000, (scalar / 100_000) % 10, (scalar / 1_000) % 100, scalar % 1_000)
}

/// The number of page texts there are: the number of page symbols raised to
/// the length of a page.
pub open spec fn multiplier_spec() -> nat {
    pow(BABEL_SET@.len() as int, PAGE_LENGTH as nat) as nat
}

/// The combined value of a content and a coordinate scalar.
pub open spec fn combine_spec(content: nat, scalar: nat) -> nat {
    content + scalar * multiplier_spec()
}

impl Coordinates {
    /// Whether each coordinate is within the bound of its field.
    pub open spec fn in_range(&self) -> bool {
        &&& self.wall <= MAX_WALL
        &&& self.shelf <= MAX_SHELF
        &&& self.volume <= MAX_VOLUME
        &&& self.page <= MAX_PAGE
    }

    /// Whether each coordinate fits the decimal digits that the packed scalar
    /// gives its field, so that no field runs into the next.
    pub open spec fn fits_widths(&self) -> bool {
        &&& self.shelf <= 9
        &&& self.volume <= 99
        &&& self.page <= 999
    }

    /// The first coordinate, in the order wall, shelf, volume, page, that is
    /// beyond its bound, with that bound.
    pub open spec fn first_violation(&self) -> Option<(Field, u32)> {
        if self.wall > MAX_WALL {
            Some((Field::Wall, MAX_WALL))
        } else if self.shelf > MAX_SHELF {
            Some((Field::Shelf, MAX_SHELF))
        } else if self.volume > MAX_VOLUME {
            Some((Field::Volume, MAX_VOLUME))
        } else if self.page > MAX_PAGE {
            Some((Field::Page, MAX_PAGE))
        } else {
            None
        }
    }

    /// Accepts coordinates that are in range, and names the first field that
    /// is not, with its bound.
    pub fn validate(&self) -> (r: Result<(), Error>)
        ensures
            match r {
                Ok(_) => self.in_range() && self.first_violation() is None,
                Err(e) => !self.in_range() && self.first_violation() == Some(
                    (e->field, e->bound),
                ) && e is CoordinateOutOfRange,
            },
    {
        if self.wall > MAX_WALL {
            Err(Error::CoordinateOutOfRange { field: Field::Wall, bound: MAX_WALL })
        } else if self.shelf > MAX_SHELF {
            Err(Error::CoordinateOutOfRange { field: Field::Shelf, bound: MAX_SHELF })
        } else if self.volume > MAX_VOLUME {
            Err(Error::CoordinateOutOfRange { field: Field::Volume, bound: MAX_VOLUME })
        } else if self.page > MAX_PAGE {
            Err(Error::CoordinateOutOfRange { field: Field::Page, bound: MAX_PAGE })
        } else {
            Ok(())
        }
    }

    /// Packs the four coordinates into one scalar.
    pub fn pack(&self) -> (r: u64)
        ensures
            r == pack_spec(*self),
    {
        (self.wall as u64) * 1_000_000 + (self.shelf as u64) * 100_000 + (self.volume as u64)
            * 1_000 + (self.page as u64)
    }

    /// Takes a scalar apart into the four coordinates it packs. Fails only
    /// when the wall would not fit its field.
    pub fn unpack(scalar: u64) -> (r: Option<Coordinates>)
        ensures
            match r {
                Some(c) => (c.wall as nat, c.shelf as nat, c.volume as nat, c.page as nat)
                    == unpack_spec(scalar as nat),
                None => unpack_spec(scalar as nat).0 > u32::MAX,
            },
    {
        let wall = scalar / 1_000_000;
        if wall > u32::MAX as u64 {
            return None;
        }
        Some(
            Coordinates {
                wall: wall as u32,
                shelf: ((scalar / 100_000) % 10) as u32,
                volume: ((scalar / 1_000) % 100) as u32,
                page: (scalar % 1_000) as u32,
            },
        )
    }
}

/// Unpacking a packed scalar gives back the four coordinates, whenever each
/// fits the digits of its field.
pub proof fn lemma_unpack_pack(c: Coordinates)
    requires
        c.fits_widths(),
    ensures
        unpack_spec(pack_spec(c)) == (c.wall as nat, c.shelf as nat, c.volume as nat, c.page as nat),
{
    let s = pack_spec(c) as int;
    let (w, h, v, p) = (c.wall as int, c.shelf as int, c.volume as int, c.page as int);
    lemma_fundamental_div_mod_converse(s, 1_000_000, w, h * 100_000 + v * 1_000 + p);
    lemma_fundamental_div_mod_converse(s, 100_000, w * 10 + h, v * 1_000 + p);
    lemma_fundamental_div_mod_converse(w * 10 + h, 10, w, h);
    lemma_fundamental_div_mod_converse(s, 1_000, w * 1_000 + h * 100 + v, p);
    lemma_fundamental_div_mod_converse(w * 1_000 + h * 100 + v, 100, w * 10 + h, v);
}

/// The number of page texts there are.
pub fn multiplier() -> (r: BigNat)
    ensures
        r@ == multiplier_spec(),
        r@ > 0,
{
    let base = BigNat::from_usize(BABEL_SET.len());
    proof {
        lemma_pow_positive(BABEL_SET@.len() as int, PAGE_LENGTH as nat);
    }
    big_pow(&base, PAGE_LENGTH)
}

/// Places the content below the coordinates in one number.
pub fn combine(content: &BigNat, coordinates: &Coordinates) -> (r: BigNat)
    ensures
        r@ == combine_spec(content@, pack_spec(*coordinates)),
{
    let loc = BigNat::from_u64(coordinates.pack());
    let mul = multiplier();
    big_add(content, &big_mul(&loc, &mul))
}

/// Takes a combined value apart into content and coordinate scalar, in that
/// order. The content is always below the multiplier.
pub fn decompose(combined: &BigNat) -> (r: (BigNat, BigNat))
    ensures
        r.0@ == combined@ % multiplier_spec(),
        r.1@ == combined@ / multiplier_spec(),
        r.0@ < multiplier_spec(),
{
    let mul = multiplier();
    let (scalar, content) = big_div_mod(combined, &mul);
    proof {
        lemma_mod_bound(combined@ as int, mul@ as int);
    }
    (content, scalar)
}

/// Taking a combined value apart gives back the content and the scalar it
/// was made of, whenever the content is below the multiplier.
pub proof fn lemma_decompose_combine(content: nat, scalar: nat)
    requires
        content < multiplier_spec(),
    ensures
        combine_spec(content, scalar) % multiplier_spec() == content,
        combine_spec(content, scalar) / multiplier_spec() == scalar,
{
    let m = multiplier_spec() as int;
    lemma_fundamental_div_mod_converse(
        combine_spec(content, scalar) as int,
        m,
        scalar as int,
        content as int,
    );
}

/// Whatever is taken apart, the content found is below the multiplier.
pub proof fn lemma_content_below_multiplier(combined: nat)
    ensures
        combined % multiplier_spec() < multiplier_spec(),
{
    lemma_pow_positive(BABEL_SET@.len() as int, PAGE_LENGTH as nat);
    lemma_mod_bound(combined as int, multiplier_spec() as int);
}

/// From a combined value both what it was made of can be had again: the
/// content, and through the scalar each of the four coordinates, whenever
/// the content is below the multiplier and each coordinate fits the digits
/// of its field.
pub proof fn lemma_coordinates_recovered(content: nat, c: Coordinates)
    requires
        content < multiplier_spec(),
        c.fits_widths(),
    ensures
        combine_spec(content, pack_spec(c)) % multiplier_spec() == content,
        unpack_spec(combine_spec(content, pack_spec(c)) / multiplier_spec()) == (
            c.wall as nat,
            c.shelf as nat,
            c.volume as nat,
            c.page as nat,
        ),
{
    lemma_decompose_combine(content, pack_spec(c));
    lemma_unpack_pack(c);
}

} // verus!
