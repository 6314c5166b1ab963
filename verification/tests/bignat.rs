use babel::{combine, decompose, multiplier, to_babel, BigNat, Coordinates, DECIMAL_SET};
use babel::{to_arb_base, PAGE_LENGTH};

#[test]
fn small_numbers_come_back() {
    for n in [0u64, 1, 4294967295, 4294967296, 4294967297, u64::MAX] {
        assert_eq!(BigNat::from_u64(n).to_u64(), Some(n));
    }
    assert_eq!(BigNat::from_usize(3200).to_u64(), Some(3200));
}

#[test]
fn limbs_are_little_endian() {
    assert_eq!(BigNat { limbs: vec![7] }.to_u64(), Some(7));
    assert_eq!(BigNat { limbs: vec![0, 1] }.to_u64(), Some(4294967296));
    assert_eq!(BigNat { limbs: vec![5, 2, 0, 0] }.to_u64(), Some(2 * 4294967296 + 5));
    assert_eq!(BigNat { limbs: vec![] }.to_u64(), Some(0));
}

#[test]
fn what_does_not_fit_is_none() {
    assert_eq!(BigNat { limbs: vec![0, 0, 1] }.to_u64(), None);
    assert_eq!(BigNat { limbs: vec![1, 1, 0, 9] }.to_u64(), None);
}

#[test]
fn zero_has_many_forms() {
    assert!(BigNat { limbs: vec![] }.is_zero());
    assert!(BigNat { limbs: vec![0] }.is_zero());
    assert!(BigNat { limbs: vec![0, 0, 0] }.is_zero());
    assert!(BigNat::from_u64(0).is_zero());
    assert!(!BigNat::from_u64(1).is_zero());
    assert!(!BigNat { limbs: vec![0, 0, 1] }.is_zero());
}

#[test]
fn multiplier_is_one_followed_by_a_page_of_zeros() {
    let text = to_babel(multiplier());
    assert_eq!(text.len(), PAGE_LENGTH + 1);
    assert_eq!(text, format!("a{}", " ".repeat(PAGE_LENGTH)));
}

#[test]
fn multiplier_in_decimal() {
    let text = to_arb_base(multiplier(), &DECIMAL_SET);
    assert_eq!(text.len(), 4680);
    assert!(text.starts_with("471621154046"));
    assert!(text.ends_with("203417664001"));
}

#[test]
fn combine_places_the_scalar_above_the_content() {
    let place = Coordinates { wall: 0, shelf: 0, volume: 0, page: 2 };
    let combined = combine(&BigNat::from_u64(5), &place);
    let text = to_babel(combined);
    assert_eq!(text, format!("b{}e", " ".repeat(PAGE_LENGTH - 1)));
}

#[test]
fn decompose_undoes_combine() {
    let place = Coordinates { wall: 3, shelf: 2, volume: 17, page: 123 };
    let combined = combine(&BigNat::from_u64(123456789), &place);
    let (content, scalar) = decompose(&combined);
    assert_eq!(content.to_u64(), Some(123456789));
    assert_eq!(scalar.to_u64(), Some(3_217_123));
}

#[test]
fn decompose_of_a_bare_content() {
    let (content, scalar) = decompose(&BigNat::from_u64(42));
    assert_eq!(content.to_u64(), Some(42));
    assert!(scalar.is_zero());
    let (content, scalar) = decompose(&multiplier());
    assert!(content.is_zero());
    assert_eq!(scalar.to_u64(), Some(1));
}
