//! The two operations of the library: finding the address at which a text
//! stands, and reading the page that stands at an address.

use crate::address::Address;
use crate::alphabet::{
    from_babel, lemma_babel_set_distinct, lemma_base64_set_distinct, to_babel, BABEL_SET,
    BASE64_SET,
};
use crate::chance::random_up_to;
use crate::error::Error;
use crate::locator::{
    combine, combine_spec, decompose, lemma_decompose_combine, multiplier_spec, pack_spec,
    Coordinates, MAX_PAGE, MAX_SHELF, MAX_VOLUME, MAX_WALL,
};
use crate::page::{left_pad, lemma_normalized_idempotent, normalize, normalized, PAGE_LENGTH};
use crate::radix::{
    decode, encode, from_arb_base, lemma_decode_bound, lemma_decode_encode, lemma_encode_decode,
    lemma_encode_len, pad_left, to_arb_base, within,
};
use vstd::arithmetic::power::lemma_pow_positive;
use vstd::prelude::*;

verus! {

/// The room in which the page of `text` stands at the given coordinates.
pub open spec fn located(text: Seq<char>, coordinates: Coordinates) -> Seq<char> {
    encode(
        combine_spec(decode(normalized(text), BABEL_SET@), pack_spec(coordinates)),
        BASE64_SET@,
    )
}

/// What `locate` answers: the room, or why there is none. Coordinates are
/// judged before the text.
pub open spec fn locate_spec(text: Seq<char>, coordinates: Coordinates) -> Result<
    Seq<char>,
    Error,
> {
    match coordinates.first_violation() {
        Some((field, bound)) => Err(Error::CoordinateOutOfRange { field, bound }),
        None => if within(normalized(text), BABEL_SET@) {
            Ok(located(text, coordinates))
        } else {
            Err(Error::InvalidCharacter)
        },
    }
}

/// The page that stands in `room`, whatever the coordinates.
pub open spec fn resolved(room: Seq<char>) -> Seq<char> {
    pad_left(
        encode(decode(room, BASE64_SET@) % multiplier_spec(), BABEL_SET@),
        PAGE_LENGTH as nat,
        BABEL_SET@[0],
    )
}

/// What `read` answers: the page, or why there is none. Coordinates are
/// judged before the room.
pub open spec fn read_spec(room: Seq<char>, coordinates: Coordinates) -> Result<Seq<char>, Error> {
    match coordinates.first_violation() {
        Some((field, bound)) => Err(Error::CoordinateOutOfRange { field, bound }),
        None => if within(room, BASE64_SET@) {
            Ok(resolved(room))
        } else {
            Err(Error::InvalidCharacter)
        },
    }
}

/// The address of the page of `text` at the given coordinates. Refuses
/// coordinates beyond their bounds, and a page that holds anything but page
/// symbols.
pub fn locate(text: &str, coordinates: Coordinates) -> (r: Result<Address, Error>)
    ensures
        match r {
            Ok(addr) => addr.coordinates() == coordinates && locate_spec(text@, coordinates) == Ok::<
                Seq<char>,
                Error,
            >(addr.hex@),
            Err(e) => locate_spec(text@, coordinates) == Err::<Seq<char>, Error>(e),
        },
{
    match coordinates.validate() {
        Err(e) => {
            return Err(e);
        },
        Ok(_) => {},
    }
    let page = normalize(text);
    let content = match from_babel(page.as_str()) {
        Ok(content) => content,
        Err(e) => {
            return Err(e);
        },
    };
    let combined = combine(&content, &coordinates);
    let hex = to_arb_base(combined, BASE64_SET.as_slice());
    Ok(
        Address {
            hex,
            wall: coordinates.wall,
            shelf: coordinates.shelf,
            volume: coordinates.volume,
            page: coordinates.page,
        },
    )
}

/// Searches the library for the page of `value`: draws a place for it at
/// random, and gives the address of the page at that place. Whatever place
/// was drawn, it is in range and the room is the one that belongs to it; only
/// a page that holds anything but page symbols is refused.
pub fn search(value: &str) -> (r: Result<Address, Error>)
    ensures
        match r {
            Ok(addr) => addr.coordinates().in_range() && locate_spec(value@, addr.coordinates())
                == Ok::<Seq<char>, Error>(addr.hex@),
            Err(e) => e == Error::InvalidCharacter && !within(normalized(value@), BABEL_SET@),
        },
{
    let wall = random_up_to(MAX_WALL);
    let shelf = random_up_to(MAX_SHELF);
    let volume = random_up_to(MAX_VOLUME);
    let page = random_up_to(MAX_PAGE);
    locate(value, Coordinates { wall, shelf, volume, page })
}

/// Reads the page at an address. Refuses coordinates beyond their bounds,
/// and a room that holds anything but address symbols.
pub fn read(addr: &Address) -> (r: Result<String, Error>)
    ensures
        match r {
            Ok(page) => page@.len() == PAGE_LENGTH && read_spec(addr.hex@, addr.coordinates())
                == Ok::<Seq<char>, Error>(page@),
            Err(e) => read_spec(addr.hex@, addr.coordinates()) == Err::<Seq<char>, Error>(e),
        },
{
    match addr.coordinates().validate() {
        Err(e) => {
            return Err(e);
        },
        Ok(_) => {},
    }
    let combined = match from_arb_base(addr.hex.as_str(), BASE64_SET.as_slice()) {
        Ok(combined) => combined,
        Err(e) => {
            return Err(e);
        },
    };
    let (content, _scalar) = decompose(&combined);
    proof {
        lemma_pow_positive(BABEL_SET@.len() as int, PAGE_LENGTH as nat);
        lemma_encode_len(content@, BABEL_SET@, PAGE_LENGTH as nat);
    }
    let text = to_babel(content);
    Ok(left_pad(text.as_str(), PAGE_LENGTH, BABEL_SET[0]))
}

/// Reading at an address that `locate` gave returns the page that was
/// located: for any text whose page holds only page symbols, and any
/// coordinates in range, `read` undoes `locate`.
pub proof fn lemma_read_locate(text: Seq<char>, coordinates: Coordinates)
    requires
        coordinates.in_range(),
        within(normalized(text), BABEL_SET@),
    ensures
        locate_spec(text, coordinates) == Ok::<Seq<char>, Error>(located(text, coordinates)),
        read_spec(located(text, coordinates), coordinates) == Ok::<Seq<char>, Error>(
            normalized(text),
        ),
{
    let page = normalized(text);
    let content = decode(page, BABEL_SET@);
    let scalar = pack_spec(coordinates);
    let combined = combine_spec(content, scalar);
    lemma_babel_set_distinct();
    lemma_base64_set_distinct();
    lemma_normalized_idempotent(text);
    lemma_decode_bound(page, BABEL_SET@);
    lemma_decompose_combine(content, scalar);
    lemma_decode_encode(combined, BASE64_SET@);
    lemma_encode_decode(page, BABEL_SET@);
}

} // verus!
