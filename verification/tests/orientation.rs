use generic_octree::{LocCode, Orientation};

const ALL: [Orientation; 27] = [
    Orientation::LBU,
    Orientation::LFU,
    Orientation::LFD,
    Orientation::LBD,
    Orientation::RBD,
    Orientation::RFD,
    Orientation::RFU,
    Orientation::RBU,
    Orientation::N,
    Orientation::L,
    Orientation::R,
    Orientation::F,
    Orientation::B,
    Orientation::U,
    Orientation::D,
    Orientation::LF,
    Orientation::LB,
    Orientation::RF,
    Orientation::RB,
    Orientation::FU,
    Orientation::FD,
    Orientation::BU,
    Orientation::BD,
    Orientation::LU,
    Orientation::LD,
    Orientation::RU,
    Orientation::RD,
];

#[test]
fn selectors_of_the_eight_corners() {
    assert_eq!(Orientation::LBU.selector(), 0);
    assert_eq!(Orientation::LFU.selector(), 1);
    assert_eq!(Orientation::LFD.selector(), 2);
    assert_eq!(Orientation::LBD.selector(), 3);
    assert_eq!(Orientation::RBD.selector(), 4);
    assert_eq!(Orientation::RFD.selector(), 5);
    assert_eq!(Orientation::RFU.selector(), 6);
    assert_eq!(Orientation::RBU.selector(), 7);
}

#[test]
fn partial_tags_have_selector_eight() {
    for tag in ALL.iter().skip(8) {
        assert_eq!(tag.selector(), 8);
        assert_eq!(u8::from(*tag), 8);
    }
}

#[test]
fn conversion_to_u8_is_the_selector() {
    for tag in ALL.iter() {
        assert_eq!(u8::from(*tag), tag.selector());
    }
}

#[test]
fn neutral_tag_yields_the_other_operand() {
    for tag in ALL.iter() {
        assert_eq!(Orientation::N | *tag, *tag);
        assert_eq!(*tag | Orientation::N, *tag);
    }
}

#[test]
fn corner_absorbs_anything() {
    for corner in ALL.iter().take(8) {
        for tag in ALL.iter() {
            assert_eq!(*corner | *tag, *corner);
        }
    }
}

#[test]
fn single_axis_tags_join_into_two_axis_tags() {
    assert_eq!(Orientation::L | Orientation::F, Orientation::LF);
    assert_eq!(Orientation::F | Orientation::L, Orientation::LF);
    assert_eq!(Orientation::R | Orientation::B, Orientation::RB);
    assert_eq!(Orientation::B | Orientation::U, Orientation::BU);
    assert_eq!(Orientation::D | Orientation::F, Orientation::FD);
    assert_eq!(Orientation::U | Orientation::R, Orientation::RU);
    assert_eq!(Orientation::L | Orientation::D, Orientation::LD);
}

#[test]
fn two_axis_tags_join_with_the_third_axis_into_corners() {
    assert_eq!(Orientation::LF | Orientation::U, Orientation::LFU);
    assert_eq!(Orientation::U | Orientation::LF, Orientation::LFU);
    assert_eq!(Orientation::BD | Orientation::R, Orientation::RBD);
    assert_eq!(Orientation::R | Orientation::BD, Orientation::RBD);
    assert_eq!(Orientation::LU | Orientation::B, Orientation::LBU);
    assert_eq!(Orientation::F | Orientation::RD, Orientation::RFD);
}

#[test]
fn tags_on_the_same_axis_keep_the_left_operand() {
    assert_eq!(Orientation::L | Orientation::R, Orientation::L);
    assert_eq!(Orientation::R | Orientation::L, Orientation::R);
    assert_eq!(Orientation::LF | Orientation::FU, Orientation::LF);
    assert_eq!(Orientation::U | Orientation::LU, Orientation::U);
}

#[test]
fn cuts_across_the_three_axes_always_end_in_a_corner() {
    for tag in ALL.iter() {
        for x in [Orientation::L, Orientation::R] {
            for y in [Orientation::D, Orientation::U] {
                for z in [Orientation::B, Orientation::F] {
                    assert!((((*tag | x) | y) | z).selector() <= 7);
                }
            }
        }
    }
}

#[test]
fn new_center_moves_towards_the_corner() {
    let half: u64 = 0x8000_0000;
    let quarter: u64 = 0x4000_0000;
    let center = (half, half, half);
    let child = LocCode(8);
    assert_eq!(
        Orientation::LBU.make_new_center(child, center),
        (half - quarter, half + quarter, half - quarter)
    );
    assert_eq!(
        Orientation::RFD.make_new_center(LocCode(13), center),
        (half + quarter, half - quarter, half + quarter)
    );
    assert_eq!(Orientation::LF.make_new_center(child, center), center);
    assert_eq!(Orientation::N.make_new_center(child, center), center);
    let eighth: u64 = 0x2000_0000;
    assert_eq!(
        Orientation::RBU.make_new_center(LocCode(71), (quarter, quarter, quarter)),
        (quarter + eighth, quarter + eighth, quarter - eighth)
    );
}
