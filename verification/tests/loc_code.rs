use generic_octree::loc_code::{CHILD_LIMIT, HALF_UNIT, MAX_LEVEL};
use generic_octree::{LocCode, OctreeError, Orientation};

#[test]
fn root_is_the_sentinel() {
    assert_eq!(LocCode::root(), LocCode(1));
    assert_eq!(LocCode::root().get_level(), 0);
    assert!(LocCode::root().is_valid());
}

#[test]
fn child_appends_a_digit() {
    assert_eq!(LocCode(1).child(0), LocCode(8));
    assert_eq!(LocCode(1).child(7), LocCode(15));
    assert_eq!(LocCode(11).child(4), LocCode(92));
    assert_eq!(LocCode(0o1234).child(5), LocCode(0o12345));
}

#[test]
fn parent_drops_a_digit() {
    assert_eq!(LocCode(8).parent(), LocCode(1));
    assert_eq!(LocCode(15).parent(), LocCode(1));
    assert_eq!(LocCode(92).parent(), LocCode(11));
    assert_eq!(LocCode(1).parent(), LocCode(0));
}

#[test]
fn parent_of_child_is_the_code() {
    for selector in 0..8u8 {
        let code = LocCode(0o1735);
        assert_eq!(code.child(selector).parent(), code);
    }
}

#[test]
fn level_counts_the_digits() {
    assert_eq!(LocCode(8).get_level(), 1);
    assert_eq!(LocCode(15).get_level(), 1);
    assert_eq!(LocCode(64).get_level(), 2);
    assert_eq!(LocCode(0o1234567).get_level(), 6);
    assert_eq!(LocCode(1u64 << 63).get_level(), MAX_LEVEL);
}

#[test]
fn validity_of_codes() {
    assert!(LocCode(1).is_valid());
    assert!(LocCode(8).is_valid());
    assert!(LocCode(15).is_valid());
    assert!(LocCode(0o17777).is_valid());
    assert!(LocCode(1u64 << 63).is_valid());
    assert!(!LocCode(0).is_valid());
    assert!(!LocCode(2).is_valid());
    assert!(!LocCode(7).is_valid());
    assert!(!LocCode(16).is_valid());
    assert!(!LocCode(63).is_valid());
    assert!(!LocCode(CHILD_LIMIT).is_valid());
    assert!(LocCode(u64::MAX).is_valid());
    assert!(!LocCode(1u64 << 62).is_valid());
    assert!(!LocCode(u64::MAX >> 1).is_valid());
}

#[test]
fn child_at_a_corner() {
    assert_eq!(LocCode(1).child_at(Orientation::LBD), Ok(LocCode(11)));
    assert_eq!(LocCode(1).child_at(Orientation::RFU), Ok(LocCode(14)));
    assert_eq!(LocCode(11).child_at(Orientation::LBU), Ok(LocCode(88)));
}

#[test]
fn child_at_a_partial_tag_cannot_be_placed() {
    assert_eq!(
        LocCode(1).child_at(Orientation::N),
        Err(OctreeError::CannotPlace(8))
    );
    assert_eq!(
        LocCode(11).child_at(Orientation::LF),
        Err(OctreeError::CannotPlace(8))
    );
}

#[test]
fn center_of_the_root() {
    assert_eq!(
        LocCode(1).get_center_u32(),
        (0x8000_0000, 0x8000_0000, 0x8000_0000)
    );
    assert_eq!(HALF_UNIT, 0x8000_0000);
}

#[test]
fn centers_of_the_children_of_the_root() {
    let low: u32 = 0x4000_0000;
    let high: u32 = 0xC000_0000;
    assert_eq!(LocCode(8).get_center_u32(), (low, high, low));
    assert_eq!(LocCode(9).get_center_u32(), (low, high, high));
    assert_eq!(LocCode(10).get_center_u32(), (low, low, high));
    assert_eq!(LocCode(11).get_center_u32(), (low, low, low));
    assert_eq!(LocCode(12).get_center_u32(), (high, low, low));
    assert_eq!(LocCode(13).get_center_u32(), (high, low, high));
    assert_eq!(LocCode(14).get_center_u32(), (high, high, high));
    assert_eq!(LocCode(15).get_center_u32(), (high, high, low));
}

#[test]
fn center_two_levels_down() {
    // Child 7 (right, up, back) of child 3 (left, down, back) of the root.
    assert_eq!(
        LocCode(0o137).get_center_u32(),
        (0x6000_0000, 0x6000_0000, 0x2000_0000)
    );
}

#[test]
fn center_on_the_deepest_level() {
    let mut code = LocCode::root();
    for _ in 0..MAX_LEVEL {
        code = code.child(3);
    }
    assert_eq!(code.get_level(), MAX_LEVEL);
    let reach: u32 = 1 << (31 - MAX_LEVEL);
    assert_eq!(code.get_center_u32(), (reach, reach, reach));
}

#[test]
fn center_agrees_with_make_new_center() {
    let parent = LocCode(0o152);
    let center = parent.get_center_u32();
    let wide = (center.0 as u64, center.1 as u64, center.2 as u64);
    for tag in [
        Orientation::LBU,
        Orientation::LFU,
        Orientation::LFD,
        Orientation::LBD,
        Orientation::RBD,
        Orientation::RFD,
        Orientation::RFU,
        Orientation::RBU,
    ] {
        let child = parent.child_at(tag).unwrap();
        let moved = tag.make_new_center(child, wide);
        let expected = child.get_center_u32();
        assert_eq!(
            moved,
            (expected.0 as u64, expected.1 as u64, expected.2 as u64)
        );
    }
}

#[test]
fn codes_from_unsigned_integers() {
    assert_eq!(LocCode::from(9u8), LocCode(9));
    assert_eq!(LocCode::from(0o1234u16), LocCode(0o1234));
    assert_eq!(LocCode::from(0o12345670u32), LocCode(0o12345670));
    assert_eq!(LocCode::from(u64::MAX), LocCode(u64::MAX));
}

#[test]
fn shifts_of_codes() {
    assert_eq!(LocCode(11) << 3u8, LocCode(88));
    assert_eq!(LocCode(88) >> 3u8, LocCode(11));
    assert_eq!(LocCode(1) << 63u32, LocCode(1u64 << 63));
    assert_eq!(LocCode(u64::MAX) << 3u16, LocCode(u64::MAX - 7));
    assert_eq!(LocCode(1) >> 3u64, LocCode(0));
    assert_eq!(LocCode(0o1234) >> 0u8, LocCode(0o1234));
}

#[test]
fn bitwise_operators_on_codes() {
    assert_eq!(LocCode(88) | 5u8, LocCode(93));
    assert_eq!(LocCode(93) & 7u8, LocCode(5));
    assert_eq!(LocCode(93) ^ 1u64, LocCode(92));
    assert_eq!((LocCode(11) << 3u8) | 4u8, LocCode(11).child(4));
    assert_eq!(LocCode(0o1234) & 0o70u32, LocCode(0o30));
    assert_eq!(LocCode(0o1234) ^ 0o1234u16, LocCode(0));
}

#[test]
fn cells_of_codes() {
    let unit = generic_octree::loc_code::UNIT;
    let root = LocCode(1).cell();
    assert_eq!(root.lower(), (0, 0, 0));
    assert_eq!(root.upper(), (unit, unit, unit));
    assert_eq!(root.orientation(), Orientation::N);
    // Left, down, back of the root.
    let octant = LocCode(11).cell();
    assert_eq!(octant.lower(), (0, 0, 0));
    assert_eq!(octant.upper(), (unit / 2, unit / 2, unit / 2));
    // Right, up, front of the root, then left, up, back.
    let small = LocCode(0o160).cell();
    assert_eq!(small.lower(), (unit / 2, 3 * (unit / 4), unit / 2));
    assert_eq!(small.upper(), (3 * (unit / 4), unit, 3 * (unit / 4)));
    // Twenty-one times right, up, back.
    let deepest = LocCode(u64::MAX).cell();
    assert_eq!(deepest.upper(), (unit, unit, 1 << 11));
    assert_eq!(deepest.lower(), (unit - (1 << 11), unit - (1 << 11), 0));
}
