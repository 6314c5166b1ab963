//! The two fixed alphabets: the symbols a page is written with, and the
//! symbols an address is written with.

use crate::bignat::BigNat;
use crate::error::Error;
use crate::radix::{decode, encode, from_arb_base, to_arb_base, within};
use vstd::prelude::*;

verus! {

/// The symbols of a page: space, the lower-case letters, comma and full
/// stop. Space stands for the digit zero.
pub const BABEL_SET: [char; 29] = [
    ' ', 'a', 'b', 'c', 'd', 'e', 'f', 'g', 'h', 'i', 'j', 'k', 'l', 'm', 'n', 'o', 'p', 'q', 'r',
    's', 't', 'u', 'v', 'w', 'x', 'y', 'z', ',', '.',
];

/// The symbols of an address: upper-case and lower-case letters, digits,
/// hyphen and underscore.
pub const BASE64_SET: [char; 64] = [
    'A', 'B', 'C', 'D', 'E', 'F', 'G', 'H', 'I', 'J', 'K', 'L', 'M', 'N', 'O', 'P', 'Q', 'R', 'S',
    'T', 'U', 'V', 'W', 'X', 'Y', 'Z', 'a', 'b', 'c', 'd', 'e', 'f', 'g', 'h', 'i', 'j', 'k', 'l',
    'm', 'n', 'o', 'p', 'q', 'r', 's', 't', 'u', 'v', 'w', 'x', 'y', 'z', '0', '1', '2', '3', '4',
    '5', '6', '7', '8', '9', '-', '_',
];

/// The ten digits, with which coordinates are written.
pub const DECIMAL_SET: [char; 10] = ['0', '1', '2', '3', '4', '5', '6', '7', '8', '9'];

/// The number that a page text denotes, read as a numeral over the page
/// symbols. Fails when the text holds any other character.
pub fn from_babel(value: &str) -> (r: Result<BigNat, Error>)
    ensures
        match r {
            Ok(v) => within(value@, BABEL_SET@) && v@ == decode(value@, BABEL_SET@),
            Err(e) => e == Error::InvalidCharacter && !within(value@, BABEL_SET@),
        },
{
    from_arb_base(value, BABEL_SET.as_slice())
}

/// The page text that denotes `value`, without leading spaces.
pub fn to_babel(value: BigNat) -> (r: String)
    ensures
        r@ == encode(value@, BABEL_SET@),
{
    to_arb_base(value, BABEL_SET.as_slice())
}

/// No symbol occurs twice among the page symbols.
pub proof fn lemma_babel_set_distinct()
    ensures
        BABEL_SET@.len() == 29,
        BABEL_SET@[0] == ' ',
        BABEL_SET@.no_duplicates(),
{
    let s = BABEL_SET@;
    assert forall|i: int, j: int| 0 <= i < s.len() && 0 <= j < s.len() && i != j implies s[i]
        != s[j] by {
        lemma_babel_codes(i);
        lemma_babel_codes(j);
    }
}

/// No symbol occurs twice among the address symbols.
pub proof fn lemma_base64_set_distinct()
    ensures
        BASE64_SET@.len() == 64,
        BASE64_SET@.no_duplicates(),
{
    let s = BASE64_SET@;
    assert forall|i: int, j: int| 0 <= i < s.len() && 0 <= j < s.len() && i != j implies s[i]
        != s[j] by {
        lemma_base64_codes(i);
        lemma_base64_codes(j);
    }
}

/// No digit occurs twice among the ten digits, and neither a colon nor a
/// plus sign is one of them.
pub proof fn lemma_decimal_set_distinct()
    ensures
        DECIMAL_SET@.len() == 10,
        DECIMAL_SET@.no_duplicates(),
        !DECIMAL_SET@.contains(':'),
        !DECIMAL_SET@.contains('+'),
{
    let s = DECIMAL_SET@;
    assert forall|i: int| 0 <= i < s.len() implies s[i] as int == 48 + i by {
        assert(s[0] == '0' && s[1] == '1' && s[2] == '2' && s[3] == '3' && s[4] == '4');
        assert(s[5] == '5' && s[6] == '6' && s[7] == '7' && s[8] == '8' && s[9] == '9');
    }
}

/// Where each page symbol lies among the characters.
proof fn lemma_babel_codes(i: int)
    requires
        0 <= i < 29,
    ensures
        BABEL_SET@[i] as int == if i == 0 {
            32
        } else if i <= 26 {
            96 + i
        } else if i == 27 {
            44
        } else {
            46
        },
{
    let s = BABEL_SET@;
    assert(s[0] == ' ' && s[1] == 'a' && s[2] == 'b' && s[3] == 'c' && s[4] == 'd' && s[5] == 'e');
    assert(s[6] == 'f' && s[7] == 'g' && s[8] == 'h' && s[9] == 'i' && s[10] == 'j');
    assert(s[11] == 'k' && s[12] == 'l' && s[13] == 'm' && s[14] == 'n' && s[15] == 'o');
    assert(s[16] == 'p' && s[17] == 'q' && s[18] == 'r' && s[19] == 's' && s[20] == 't');
    assert(s[21] == 'u' && s[22] == 'v' && s[23] == 'w' && s[24] == 'x' && s[25] == 'y');
    assert(s[26] == 'z' && s[27] == ',' && s[28] == '.');
}

/// Where each address symbol lies among the characters.
proof fn lemma_base64_codes(i: int)
    requires
        0 <= i < 64,
    ensures
        BASE64_SET@[i] as int == if i <= 25 {
            65 + i
        } else if i <= 51 {
            71 + i
        } else if i <= 61 {
            i - 4
        } else if i == 62 {
            45
        } else {
            95
        },
{
    let s = BASE64_SET@;
    assert(s[0] == 'A' && s[1] == 'B' && s[2] == 'C' && s[3] == 'D' && s[4] == 'E' && s[5] == 'F');
    assert(s[6] == 'G' && s[7] == 'H' && s[8] == 'I' && s[9] == 'J' && s[10] == 'K');
    assert(s[11] == 'L' && s[12] == 'M' && s[13] == 'N' && s[14] == 'O' && s[15] == 'P');
    assert(s[16] == 'Q' && s[17] == 'R' && s[18] == 'S' && s[19] == 'T' && s[20] == 'U');
    assert(s[21] == 'V' && s[22] == 'W' && s[23] == 'X' && s[24] == 'Y' && s[25] == 'Z');
    assert(s[26] == 'a' && s[27] == 'b' && s[28] == 'c' && s[29] == 'd' && s[30] == 'e');
    assert(s[31] == 'f' && s[32] == 'g' && s[33] == 'h' && s[34] == 'i' && s[35] == 'j');
    assert(s[36] == 'k' && s[37] == 'l' && s[38] == 'm' && s[39] == 'n' && s[40] == 'o');
    assert(s[41] == 'p' && s[42] == 'q' && s[43] == 'r' && s[44] == 's' && s[45] == 't');
    assert(s[46] == 'u' && s[47] == 'v' && s[48] == 'w' && s[49] == 'x' && s[50] == 'y');
    assert(s[51] == 'z' && s[52] == '0' && s[53] == '1' && s[54] == '2' && s[55] == '3');
    assert(s[56] == '4' && s[57] == '5' && s[58] == '6' && s[59] == '7' && s[60] == '8');
    assert(s[61] == '9' && s[62] == '-' && s[63] == '_');
}

} // verus!
