//! A reversible codec between pages of text and addresses in an imaginary
//! library that holds every possible page.
//!
//! A page is a text of fixed length over a small alphabet. Read as a numeral,
//! it is a number; together with the place where the page stands that number
//! is written over a larger alphabet, which gives the name of a room. From
//! the name of the room the page can be read back.

pub mod address;
pub mod alphabet;
pub mod bignat;
pub mod chance;
pub mod error;
pub mod library;
pub mod locator;
pub mod page;
pub mod radix;
pub mod text;

pub use address::{parse_address, read_coordinate, read_number, write_decimal, Address};
pub use alphabet::{from_babel, to_babel, BABEL_SET, BASE64_SET, DECIMAL_SET};
pub use bignat::BigNat;
pub use error::{Error, Field};
pub use library::{locate, read, search};
pub use locator::{
    combine, decompose, multiplier, Coordinates, MAX_PAGE, MAX_SHELF, MAX_VOLUME, MAX_WALL,
};
pub use page::{
    format_page, left_pad, normalize, pad_rand, random_filler, surround, COLUMNS, PAGE_LENGTH, ROWS,
};
pub use radix::{from_arb_base, position, to_arb_base};
