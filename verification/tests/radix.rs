use babel::{
    from_arb_base, from_babel, position, to_arb_base, to_babel, BigNat, Error, BABEL_SET,
    BASE64_SET, DECIMAL_SET,
};

const TERNARY: [char; 3] = [' ', 'a', 'b'];
const HEX: [char; 16] =
    ['0', '1', '2', '3', '4', '5', '6', '7', '8', '9', 'a', 'b', 'c', 'd', 'e', 'f'];

#[test]
fn text_ab_in_base_three_is_five() {
    let value = from_arb_base("ab", &TERNARY).unwrap();
    assert_eq!(value.to_u64(), Some(5));
    assert_eq!(to_arb_base(BigNat::from_u64(5), &TERNARY), "ab");
    let back = from_arb_base(&to_arb_base(value, &TERNARY), &TERNARY).unwrap();
    assert_eq!(back.to_u64(), Some(5));
}

#[test]
fn text_zz_in_base_three_is_refused() {
    assert_eq!(from_arb_base("zz", &TERNARY).unwrap_err(), Error::InvalidCharacter);
}

#[test]
fn one_foreign_character_anywhere_is_refused() {
    assert_eq!(from_arb_base("abz", &TERNARY).unwrap_err(), Error::InvalidCharacter);
    assert_eq!(from_arb_base("zab", &TERNARY).unwrap_err(), Error::InvalidCharacter);
    assert_eq!(from_arb_base("a:b", &TERNARY).unwrap_err(), Error::InvalidCharacter);
}

#[test]
fn zero_is_the_first_symbol_alone() {
    assert_eq!(to_arb_base(BigNat::from_u64(0), &TERNARY), " ");
    assert_eq!(to_arb_base(BigNat::from_u64(0), &BASE64_SET), "A");
    assert_eq!(to_arb_base(BigNat::from_u64(0), &DECIMAL_SET), "0");
    assert_eq!(to_babel(BigNat::from_u64(0)), " ");
    assert_eq!(to_arb_base(BigNat { limbs: vec![] }, &HEX), "0");
    assert_eq!(to_arb_base(BigNat { limbs: vec![0, 0, 0] }, &HEX), "0");
}

#[test]
fn empty_text_is_zero() {
    assert!(from_arb_base("", &TERNARY).unwrap().is_zero());
    assert!(from_babel("").unwrap().is_zero());
}

#[test]
fn leading_zero_digits_collapse() {
    let value = from_arb_base("   ab", &TERNARY).unwrap();
    assert_eq!(to_arb_base(value, &TERNARY), "ab");
    let zero = from_arb_base("    ", &TERNARY).unwrap();
    assert_eq!(to_arb_base(zero, &TERNARY), " ");
}

#[test]
fn known_numerals() {
    assert_eq!(to_arb_base(BigNat::from_u64(255), &HEX), "ff");
    assert_eq!(to_arb_base(BigNat::from_u64(256), &HEX), "100");
    assert_eq!(to_arb_base(BigNat::from_u64(4294967296), &DECIMAL_SET), "4294967296");
    assert_eq!(to_arb_base(BigNat::from_u64(u64::MAX), &DECIMAL_SET), "18446744073709551615");
    assert_eq!(to_arb_base(BigNat::from_u64(u64::MAX), &HEX), "ffffffffffffffff");
    assert_eq!(to_arb_base(BigNat::from_u64(63), &BASE64_SET), "_");
    assert_eq!(to_arb_base(BigNat::from_u64(64), &BASE64_SET), "BA");
    assert_eq!(to_arb_base(BigNat::from_u64(28), &BABEL_SET), ".");
    assert_eq!(to_arb_base(BigNat::from_u64(29), &BABEL_SET), "a ");
    assert_eq!(from_arb_base("ff", &HEX).unwrap().to_u64(), Some(255));
    assert_eq!(from_arb_base("z", &BABEL_SET).unwrap().to_u64(), Some(26));
    assert_eq!(from_babel("a ").unwrap().to_u64(), Some(29));
    assert_eq!(from_babel(",.").unwrap().to_u64(), Some(27 * 29 + 28));
}

#[test]
fn numbers_of_several_limbs() {
    let two_to_the_96 = BigNat { limbs: vec![0, 0, 0, 1] };
    assert_eq!(to_arb_base(two_to_the_96, &DECIMAL_SET), "79228162514264337593543950336");
    let back = from_arb_base("79228162514264337593543950336", &DECIMAL_SET).unwrap();
    assert_eq!(back.to_u64(), None);
    assert_eq!(to_arb_base(back, &HEX), "1000000000000000000000000");
    let value = from_arb_base("123456789012345678901234567890", &DECIMAL_SET).unwrap();
    assert_eq!(to_arb_base(value, &HEX), "18ee90ff6c373e0ee4e3f0ad2");
}

#[test]
fn decode_undoes_encode() {
    for n in [0u64, 1, 2, 3, 28, 29, 63, 64, 4095, 4096, 1 << 32, u64::MAX] {
        for set in [&TERNARY[..], &HEX[..], &BABEL_SET[..], &BASE64_SET[..]] {
            let text = to_arb_base(BigNat::from_u64(n), set);
            assert_eq!(from_arb_base(&text, set).unwrap().to_u64(), Some(n));
        }
    }
}

#[test]
fn encode_undoes_decode_up_to_leading_zeros() {
    for text in ["a", "ab", "ba b", "bbbbbbbbbbbbbbbbbbbbbbbbbbbbbbbbbbbbbbbbbbbbbbbbbbbbbbbbbbbb"] {
        let value = from_arb_base(text, &TERNARY).unwrap();
        assert_eq!(to_arb_base(value, &TERNARY), text);
    }
}

#[test]
fn position_is_the_first_place() {
    assert_eq!(position(&TERNARY, ' '), Some(0));
    assert_eq!(position(&TERNARY, 'b'), Some(2));
    assert_eq!(position(&TERNARY, 'c'), None);
    assert_eq!(position(&['x', 'y', 'x'], 'x'), Some(0));
    assert_eq!(position(&[], 'x'), None);
    assert_eq!(position(&BASE64_SET, '_'), Some(63));
}

#[test]
fn a_repeated_symbol_stands_for_its_first_place() {
    let set = ['x', 'y', 'x'];
    assert_eq!(from_arb_base("yx", &set).unwrap().to_u64(), Some(3));
}

#[test]
fn page_text_of_foreign_characters_is_refused() {
    assert_eq!(from_babel("Upper").unwrap_err(), Error::InvalidCharacter);
    assert_eq!(from_babel("semi;colon").unwrap_err(), Error::InvalidCharacter);
}
