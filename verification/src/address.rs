//! Addresses: where a page stands, and the name of the room it stands in.
//!
//! An address is written as five fields parted by colons: wall, shelf,
//! volume and page as decimal numbers, then the room.

use crate::alphabet::{lemma_decimal_set_distinct, DECIMAL_SET};
use crate::bignat::BigNat;
use crate::error::{Error, Field};
use crate::locator::{Coordinates, MAX_PAGE, MAX_SHELF, MAX_VOLUME, MAX_WALL};
use crate::radix::{
    decode, encode, lemma_decode_encode, lemma_decode_prefix, lemma_encode_within, position,
    to_arb_base, within,
};
use crate::text::{
    chars_of, fields, lemma_fields_join, lemma_fields_plain, split_fields, string_of,
};
use vstd::prelude::*;
use vstd::string::StringExecFns;

verus! {

/// The address of a page: a page of a volume on a shelf of a wall in a room.
#[derive(Debug)]
pub struct Address {
    /// The room, written over the address symbols.
    pub hex: String,
    /// Wall
    pub wall: u32,
    /// Shelf
    pub shelf: u32,
    /// Volume
    pub volume: u32,
    /// Page
    pub page: u32,
}

/// The decimal numeral of `n`, without leading zeros.
pub open spec fn decimal(n: nat) -> Seq<char> {
    encode(n, DECIMAL_SET@)
}

/// An address as it is written: the four coordinates and the room, parted by
/// colons.
pub open spec fn written(coordinates: Coordinates, room: Seq<char>) -> Seq<char> {
    decimal(coordinates.wall as nat) + seq![':'] + decimal(coordinates.shelf as nat) + seq![':']
        + decimal(coordinates.volume as nat) + seq![':'] + decimal(coordinates.page as nat)
        + seq![':'] + room
}

/// The number that a field of a written address denotes: an optional plus
/// sign, then one decimal digit or more, denoting a number that fits 32 bits.
pub open spec fn number_of(field: Seq<char>) -> Option<u32> {
    let digits = if field.len() > 0 && field[0] == '+' {
        field.skip(1)
    } else {
        field
    };
    if digits.len() > 0 && within(digits, DECIMAL_SET@) && decode(digits, DECIMAL_SET@)
        <= u32::MAX {
        Some(decode(digits, DECIMAL_SET@) as u32)
    } else {
        None
    }
}

/// The coordinate that a field denotes, which must be a number and within
/// the bound of its field.
pub open spec fn coordinate_of(field: Seq<char>, which: Field, bound: u32) -> Result<u32, Error> {
    match number_of(field) {
        None => Err(Error::NotANumber),
        Some(n) => if n > bound {
            Err(Error::CoordinateOutOfRange { field: which, bound })
        } else {
            Ok(n)
        },
    }
}

/// What a written address denotes: its coordinates and its room, or the
/// first thing wrong with it. The number of fields is judged first, then
/// wall, shelf, volume and page in that order. The room is taken as it is.
pub open spec fn parsed(text: Seq<char>) -> Result<(Coordinates, Seq<char>), Error> {
    let f = fields(text, ':');
    if f.len() != 5 {
        Err(Error::MalformedAddress)
    } else {
        match coordinate_of(f[0], Field::Wall, MAX_WALL) {
            Err(e) => Err(e),
            Ok(wall) => match coordinate_of(f[1], Field::Shelf, MAX_SHELF) {
                Err(e) => Err(e),
                Ok(shelf) => match coordinate_of(f[2], Field::Volume, MAX_VOLUME) {
                    Err(e) => Err(e),
                    Ok(volume) => match coordinate_of(f[3], Field::Page, MAX_PAGE) {
                        Err(e) => Err(e),
                        Ok(page) => Ok((Coordinates { wall, shelf, volume, page }, f[4])),
                    },
                },
            },
        }
    }
}

impl Address {
    /// The four coordinates of the address.
    pub open spec fn coordinates_spec(&self) -> Coordinates {
        Coordinates { wall: self.wall, shelf: self.shelf, volume: self.volume, page: self.page }
    }

    /// The four coordinates of the address.
    #[verifier::when_used_as_spec(coordinates_spec)]
    pub fn coordinates(&self) -> (r: Coordinates)
        ensures
            r == self.coordinates_spec(),
    {
        Coordinates { wall: self.wall, shelf: self.shelf, volume: self.volume, page: self.page }
    }

    /// The address as it is written: `wall:shelf:volume:page:room`.
    pub fn to_string(&self) -> (r: String)
        ensures
            r@ == written(self.coordinates(), self.hex@),
    {
        let mut out = write_decimal(self.wall);
        out.push(':');
        out.append(write_decimal(self.shelf).as_str());
        out.push(':');
        out.append(write_decimal(self.volume).as_str());
        out.push(':');
        out.append(write_decimal(self.page).as_str());
        out.push(':');
        out.append(self.hex.as_str());
        out
    }
}

/// Writes `n` in decimal.
pub fn write_decimal(n: u32) -> (r: String)
    ensures
        r@ == decimal(n as nat),
{
    to_arb_base(BigNat::from_u64(n as u64), DECIMAL_SET.as_slice())
}

/// Reads a field of a written address as a number.
pub fn read_number(field: &Vec<char>) -> (r: Option<u32>)
    ensures
        r == number_of(field@),
{
    let start: usize = if field.len() > 0 && field[0] == '+' {
        1
    } else {
        0
    };
    let ghost digits = if field@.len() > 0 && field@[0] == '+' {
        field@.skip(1)
    } else {
        field@
    };
    assert(digits =~= field@.skip(start as int));
    if start == field.len() {
        return None;
    }
    let mut acc: u32 = 0;
    let mut i: usize = start;
    while i < field.len()
        invariant
            start <= i <= field.len(),
            digits == field@.skip(start as int),
            digits.len() > 0,
            number_of(field@) == if within(digits, DECIMAL_SET@) && decode(digits, DECIMAL_SET@)
                <= u32::MAX {
                Some(decode(digits, DECIMAL_SET@) as u32)
            } else {
                None
            },
            within(digits.take(i - start), DECIMAL_SET@),
            acc == decode(digits.take(i - start), DECIMAL_SET@),
        decreases field.len() - i,
    {
        let ghost k = i - start;
        assert(digits.take(k + 1).drop_last() =~= digits.take(k));
        assert(digits.take(k + 1).last() == field@[i as int]);
        assert(digits[k] == field@[i as int]);
        assert(DECIMAL_SET@.len() == 10);
        let d = match position(DECIMAL_SET.as_slice(), field[i]) {
            Some(d) => d as u32,
            None => {
                return None;
            },
        };
        if acc > (u32::MAX - d) / 10 {
            proof {
                if within(digits, DECIMAL_SET@) {
                    lemma_decode_prefix(digits, DECIMAL_SET@, k + 1);
                }
            }
            return None;
        }
        acc = acc * 10 + d;
        assert forall|j: int| 0 <= j < k + 1 implies DECIMAL_SET@.contains(
            #[trigger] digits.take(k + 1)[j],
        ) by {
            if j < k {
                assert(digits.take(k + 1)[j] == digits.take(k)[j]);
            }
        }
        i += 1;
    }
    assert(digits.take(digits.len() as int) =~= digits);
    Some(acc)
}

/// Reads a field of a written address as the coordinate `which`, whose
/// largest value is `bound`.
pub fn read_coordinate(field: &Vec<char>, which: Field, bound: u32) -> (r: Result<u32, Error>)
    ensures
        r == coordinate_of(field@, which, bound),
{
    match read_number(field) {
        None => Err(Error::NotANumber),
        Some(n) => if n > bound {
            Err(Error::CoordinateOutOfRange { field: which, bound })
        } else {
            Ok(n)
        },
    }
}

/// Reads a written address, `wall:shelf:volume:page:room`.
pub fn parse_address(text: &str) -> (r: Result<Address, Error>)
    ensures
        match r {
            Ok(addr) => parsed(text@) == Ok::<(Coordinates, Seq<char>), Error>(
                (addr.coordinates(), addr.hex@),
            ),
            Err(e) => parsed(text@) == Err::<(Coordinates, Seq<char>), Error>(e),
        },
{
    let chars = chars_of(text);
    let split = split_fields(&chars, ':');
    if split.len() != 5 {
        return Err(Error::MalformedAddress);
    }
    let wall = match read_coordinate(&split[0], Field::Wall, MAX_WALL) {
        Ok(n) => n,
        Err(e) => {
            return Err(e);
        },
    };
    let shelf = match read_coordinate(&split[1], Field::Shelf, MAX_SHELF) {
        Ok(n) => n,
        Err(e) => {
            return Err(e);
        },
    };
    let volume = match read_coordinate(&split[2], Field::Volume, MAX_VOLUME) {
        Ok(n) => n,
        Err(e) => {
            return Err(e);
        },
    };
    let page = match read_coordinate(&split[3], Field::Page, MAX_PAGE) {
        Ok(n) => n,
        Err(e) => {
            return Err(e);
        },
    };
    Ok(Address { hex: string_of(&split[4]), wall, shelf, volume, page })
}

/// A decimal numeral is read back as the number it was written for.
pub proof fn lemma_number_of_decimal(n: u32)
    ensures
        number_of(decimal(n as nat)) == Some(n),
        !decimal(n as nat).contains(':'),
{
    let text = decimal(n as nat);
    lemma_decimal_set_distinct();
    lemma_decode_encode(n as nat, DECIMAL_SET@);
    lemma_encode_within(n as nat, DECIMAL_SET@);
    assert(DECIMAL_SET@.contains(text[0]));
    if text.contains(':') {
        let i = choose|i: int| 0 <= i < text.len() && text[i] == ':';
        assert(DECIMAL_SET@.contains(text[i]));
    }
}

/// Reading what `to_string` wrote gives the address back: for coordinates in
/// range and a room without a colon, `parse_address` undoes `to_string`.
pub proof fn lemma_parsed_written(coordinates: Coordinates, room: Seq<char>)
    requires
        coordinates.in_range(),
        !room.contains(':'),
    ensures
        parsed(written(coordinates, room)) == Ok::<(Coordinates, Seq<char>), Error>(
            (coordinates, room),
        ),
{
    let wall = decimal(coordinates.wall as nat);
    let shelf = decimal(coordinates.shelf as nat);
    let volume = decimal(coordinates.volume as nat);
    let page = decimal(coordinates.page as nat);
    let sep = seq![':'];
    lemma_number_of_decimal(coordinates.wall);
    lemma_number_of_decimal(coordinates.shelf);
    lemma_number_of_decimal(coordinates.volume);
    lemma_number_of_decimal(coordinates.page);
    lemma_fields_plain(wall, ':');
    lemma_fields_join(wall, shelf, ':');
    lemma_fields_join(wall + sep + shelf, volume, ':');
    lemma_fields_join(wall + sep + shelf + sep + volume, page, ':');
    lemma_fields_join(wall + sep + shelf + sep + volume + sep + page, room, ':');
    let f = fields(written(coordinates, room), ':');
    assert(f =~= seq![wall, shelf, volume, page, room]);
}

} // verus!
