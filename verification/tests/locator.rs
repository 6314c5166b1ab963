use babel::{Coordinates, Error, Field, MAX_PAGE, MAX_SHELF, MAX_VOLUME, MAX_WALL};

#[test]
fn bounds_of_the_fields() {
    assert_eq!((MAX_WALL, MAX_SHELF, MAX_VOLUME, MAX_PAGE), (4, 5, 32, 410));
}

#[test]
fn pack_is_the_decimal_layout() {
    let place = Coordinates { wall: 3, shelf: 2, volume: 17, page: 123 };
    assert_eq!(place.pack(), 3_217_123);
    assert_eq!(Coordinates { wall: 0, shelf: 0, volume: 0, page: 0 }.pack(), 0);
    assert_eq!(Coordinates { wall: 4, shelf: 5, volume: 32, page: 410 }.pack(), 4_532_410);
    assert_eq!(Coordinates { wall: 1, shelf: 0, volume: 0, page: 0 }.pack(), 1_000_000);
    assert_eq!(Coordinates { wall: 0, shelf: 1, volume: 0, page: 0 }.pack(), 100_000);
    assert_eq!(Coordinates { wall: 0, shelf: 0, volume: 1, page: 0 }.pack(), 1_000);
    assert_eq!(Coordinates { wall: 0, shelf: 0, volume: 0, page: 1 }.pack(), 1);
}

#[test]
fn pack_never_overflows() {
    let place = Coordinates { wall: u32::MAX, shelf: u32::MAX, volume: u32::MAX, page: u32::MAX };
    assert_eq!(place.pack(), 4294967295u64 * 1_101_001);
}

#[test]
fn unpack_undoes_pack_within_the_widths() {
    for wall in [0, 4, 9, 4000] {
        for shelf in [0, 5, 9] {
            for volume in [0, 32, 99] {
                for page in [0, 410, 999] {
                    let place = Coordinates { wall, shelf, volume, page };
                    assert_eq!(Coordinates::unpack(place.pack()), Some(place));
                }
            }
        }
    }
}

#[test]
fn unpack_takes_the_digits_apart() {
    let place = Coordinates::unpack(3_217_123).unwrap();
    assert_eq!((place.wall, place.shelf, place.volume, place.page), (3, 2, 17, 123));
    let place = Coordinates::unpack(999_999).unwrap();
    assert_eq!((place.wall, place.shelf, place.volume, place.page), (0, 9, 99, 999));
}

#[test]
fn unpack_fails_when_the_wall_does_not_fit() {
    assert_eq!(Coordinates::unpack(u64::MAX), None);
    assert_eq!(Coordinates::unpack(4294967296 * 1_000_000), None);
    assert!(Coordinates::unpack(4294967295 * 1_000_000 + 999_999).is_some());
}

#[test]
fn a_field_beyond_its_width_runs_into_the_next() {
    let place = Coordinates { wall: 0, shelf: 10, volume: 0, page: 0 };
    let back = Coordinates::unpack(place.pack()).unwrap();
    assert_eq!((back.wall, back.shelf), (1, 0));
}

#[test]
fn validate_accepts_the_whole_range() {
    assert_eq!(Coordinates { wall: 0, shelf: 0, volume: 0, page: 0 }.validate(), Ok(()));
    assert_eq!(Coordinates { wall: 4, shelf: 5, volume: 32, page: 410 }.validate(), Ok(()));
}

#[test]
fn validate_names_the_first_field_beyond_its_bound() {
    assert_eq!(
        Coordinates { wall: 5, shelf: 0, volume: 0, page: 0 }.validate(),
        Err(Error::CoordinateOutOfRange { field: Field::Wall, bound: 4 })
    );
    assert_eq!(
        Coordinates { wall: 0, shelf: 6, volume: 0, page: 0 }.validate(),
        Err(Error::CoordinateOutOfRange { field: Field::Shelf, bound: 5 })
    );
    assert_eq!(
        Coordinates { wall: 0, shelf: 0, volume: 33, page: 0 }.validate(),
        Err(Error::CoordinateOutOfRange { field: Field::Volume, bound: 32 })
    );
    assert_eq!(
        Coordinates { wall: 0, shelf: 0, volume: 0, page: 411 }.validate(),
        Err(Error::CoordinateOutOfRange { field: Field::Page, bound: 410 })
    );
    assert_eq!(
        Coordinates { wall: 0, shelf: 9, volume: 99, page: 999 }.validate(),
        Err(Error::CoordinateOutOfRange { field: Field::Shelf, bound: 5 })
    );
}
