use generic_octree::aabb::{max, min, PlaneAxis};
use generic_octree::loc_code::UNIT;
use generic_octree::{Orientation, Plane, AABB};

const HALF: u64 = UNIT / 2;
const QUARTER: u64 = UNIT / 4;

fn bounds(b: &AABB) -> (u64, u64, u64, u64, u64, u64) {
    let low = b.lower();
    let high = b.upper();
    (low.0, low.1, low.2, high.0, high.1, high.2)
}

fn volume(b: &AABB) -> u128 {
    let low = b.lower();
    let high = b.upper();
    ((high.0 - low.0) as u128) * ((high.1 - low.1) as u128) * ((high.2 - low.2) as u128)
}

#[test]
fn min_and_max_of_integers() {
    assert_eq!(min(3, 5), 3);
    assert_eq!(min(5, 3), 3);
    assert_eq!(max(3, 5), 5);
    assert_eq!(max(5, 3), 5);
    assert_eq!(min(4, 4), 4);
    assert_eq!(max(4, 4), 4);
}

#[test]
fn min_and_max_of_floats() {
    assert_eq!(min(0.25_f64, 0.5), 0.25);
    assert_eq!(max(0.25_f64, 0.5), 0.5);
    // Neither is greater than the other: the first comes back.
    assert!(min(f64::NAN, 1.0).is_nan());
    assert_eq!(min(1.0, f64::NAN), 1.0);
    assert!(max(f64::NAN, 1.0).is_nan());
    assert_eq!(max(1.0, f64::NAN), 1.0);
}

#[test]
fn new_puts_the_bounds_in_order() {
    let b = AABB::new(9, 2, 7, 1, 8, 3);
    assert_eq!(bounds(&b), (1, 2, 3, 9, 8, 7));
    assert_eq!(b.orientation(), Orientation::N);
}

#[test]
fn with_orientation_changes_the_tag_only() {
    let b = AABB::new(1, 2, 3, 4, 5, 6).with_orientation(Orientation::LF);
    assert_eq!(bounds(&b), (1, 2, 3, 4, 5, 6));
    assert_eq!(b.orientation(), Orientation::LF);
}

#[test]
fn slice_across_the_interior_gives_two_parts() {
    let parts = AABB::new(0, 0, 0, 10, 10, 10).slice(Plane(4, PlaneAxis::X));
    assert_eq!(parts.len(), 2);
    assert_eq!(bounds(&parts[0]), (0, 0, 0, 4, 10, 10));
    assert_eq!(parts[0].orientation(), Orientation::L);
    assert_eq!(bounds(&parts[1]), (4, 0, 0, 10, 10, 10));
    assert_eq!(parts[1].orientation(), Orientation::R);
}

#[test]
fn slice_along_y_and_z() {
    let parts = AABB::new(0, 0, 0, 10, 10, 10).slice(Plane(3, PlaneAxis::Y));
    assert_eq!(bounds(&parts[0]), (0, 0, 0, 10, 3, 10));
    assert_eq!(parts[0].orientation(), Orientation::D);
    assert_eq!(bounds(&parts[1]), (0, 3, 0, 10, 10, 10));
    assert_eq!(parts[1].orientation(), Orientation::U);
    let parts = AABB::new(0, 0, 0, 10, 10, 10).slice(Plane(7, PlaneAxis::Z));
    assert_eq!(bounds(&parts[0]), (0, 0, 0, 10, 10, 7));
    assert_eq!(parts[0].orientation(), Orientation::B);
    assert_eq!(bounds(&parts[1]), (0, 0, 7, 10, 10, 10));
    assert_eq!(parts[1].orientation(), Orientation::F);
}

#[test]
fn slice_at_an_edge_gives_no_empty_part() {
    let whole = AABB::new(2, 0, 0, 6, 4, 4);
    let at_upper = whole.slice(Plane(6, PlaneAxis::X));
    assert_eq!(at_upper.len(), 1);
    assert_eq!(bounds(&at_upper[0]), (2, 0, 0, 6, 4, 4));
    assert_eq!(at_upper[0].orientation(), Orientation::L);
    let at_lower = whole.slice(Plane(2, PlaneAxis::X));
    assert_eq!(at_lower.len(), 1);
    assert_eq!(bounds(&at_lower[0]), (2, 0, 0, 6, 4, 4));
    assert_eq!(at_lower[0].orientation(), Orientation::R);
}

#[test]
fn slice_of_a_box_beside_the_plane() {
    let whole = AABB::new(2, 0, 0, 6, 4, 4);
    let below = whole.slice(Plane(9, PlaneAxis::X));
    assert_eq!(below.len(), 1);
    assert_eq!(below[0].orientation(), Orientation::L);
    let above = whole.slice(Plane(1, PlaneAxis::X));
    assert_eq!(above.len(), 1);
    assert_eq!(above[0].orientation(), Orientation::R);
}

#[test]
fn slice_of_a_flat_box_on_the_plane_goes_to_the_lower_side() {
    let flat = AABB::new(5, 0, 0, 5, 4, 4);
    let parts = flat.slice(Plane(5, PlaneAxis::X));
    assert_eq!(parts.len(), 1);
    assert_eq!(parts[0].orientation(), Orientation::L);
}

#[test]
fn slice_joins_its_side_to_the_tag() {
    let tagged = AABB::new(0, 0, 0, 10, 10, 10).with_orientation(Orientation::LD);
    let parts = tagged.slice(Plane(5, PlaneAxis::Z));
    assert_eq!(parts[0].orientation(), Orientation::LBD);
    assert_eq!(parts[1].orientation(), Orientation::LFD);
}

#[test]
fn explode_the_unit_cube_gives_the_eight_octants() {
    let parts = AABB::new(0, 0, 0, UNIT, UNIT, UNIT).explode((HALF, HALF, HALF));
    assert_eq!(parts.len(), 8);
    let tags: Vec<Orientation> = parts.iter().map(|part| part.orientation()).collect();
    assert_eq!(
        tags,
        vec![
            Orientation::LBD,
            Orientation::LFD,
            Orientation::LBU,
            Orientation::LFU,
            Orientation::RBD,
            Orientation::RFD,
            Orientation::RBU,
            Orientation::RFU,
        ]
    );
    assert_eq!(bounds(&parts[0]), (0, 0, 0, HALF, HALF, HALF));
    assert_eq!(bounds(&parts[7]), (HALF, HALF, HALF, UNIT, UNIT, UNIT));
    assert_eq!(bounds(&parts[5]), (HALF, 0, HALF, UNIT, HALF, UNIT));
}

#[test]
fn explode_parts_have_the_volume_of_the_box() {
    let whole = AABB::new(3, 5, 7, 1000, 900, 800);
    let parts = whole.explode((400, 450, 20));
    assert_eq!(parts.len(), 8);
    let total: u128 = parts.iter().map(volume).sum();
    assert_eq!(total, volume(&whole));
    for part in parts.iter() {
        assert!(part.orientation().selector() <= 7);
        assert!(volume(part) > 0);
    }
}

#[test]
fn explode_of_a_box_in_one_octant_keeps_it_whole() {
    let whole = AABB::new(QUARTER, 0, HALF, HALF, QUARTER, UNIT);
    let parts = whole.explode((HALF, HALF, HALF));
    assert_eq!(parts.len(), 1);
    assert_eq!(bounds(&parts[0]), bounds(&whole));
    assert_eq!(parts[0].orientation(), Orientation::LFD);
}

#[test]
fn explode_of_the_half_cube() {
    // The lower half along Y, cut off at three quarters along Z.
    let whole = AABB::new(0, 0, 0, UNIT, HALF, 3 * QUARTER);
    let parts = whole.explode((HALF, HALF, HALF));
    assert_eq!(parts.len(), 4);
    let fitting: Vec<bool> = parts.iter().map(|part| part.fit_in(1, 21)).collect();
    assert_eq!(fitting, vec![true, false, true, false]);
}

#[test]
fn fit_in_asks_for_the_edge_of_a_cell() {
    let cell = AABB::new(0, HALF, 0, HALF, UNIT, HALF);
    assert!(cell.fit_in(1, 5));
    assert!(!cell.fit_in(2, 5));
    assert!(!cell.fit_in(0, 5));
    let small = AABB::new(QUARTER, QUARTER, 0, HALF, HALF, QUARTER);
    assert!(small.fit_in(2, 5));
    assert!(!small.fit_in(1, 5));
    let slab = AABB::new(0, 0, 0, HALF, HALF, QUARTER);
    assert!(!slab.fit_in(1, 5));
    assert!(!slab.fit_in(2, 5));
    assert!(AABB::new(0, 0, 0, UNIT, UNIT, UNIT).fit_in(0, 5));
    assert!(AABB::new(4, 4, 4, 5, 5, 5).fit_in(32, 40));
    assert!(!AABB::new(4, 4, 4, 5, 5, 5).fit_in(33, 40));
    assert!(!AABB::new(4, 4, 4, 4, 4, 4).fit_in(33, 40));
    assert!(!AABB::new(4, 4, 4, 4, 4, 4).fit_in(64, 70));
}

#[test]
fn fit_in_accepts_anything_at_the_depth_limit() {
    let odd = AABB::new(3, 5, 7, 11, 13, 17);
    assert!(odd.fit_in(4, 4));
    assert!(!odd.fit_in(3, 4));
    assert!(odd.fit_in(40, 40));
}

#[test]
fn offset_moves_both_corners() {
    let moved = AABB::new(1, 2, 3, 4, 5, 6)
        .with_orientation(Orientation::RU)
        .offset((10, 20, 30));
    assert_eq!(bounds(&moved), (11, 22, 33, 14, 25, 36));
    assert_eq!(moved.orientation(), Orientation::RU);
}

#[test]
fn normalize_with_rescales_each_axis() {
    let raw = AABB::new(UNIT, 2 * UNIT, 3 * UNIT, 2 * UNIT, 3 * UNIT, 4 * UNIT);
    let scaled = raw.normalize_with((4 * UNIT, 4 * UNIT, 8 * UNIT));
    assert_eq!(
        bounds(&scaled),
        (
            QUARTER,
            HALF,
            3 * (UNIT / 8),
            HALF,
            3 * QUARTER,
            HALF
        )
    );
    assert_eq!(scaled.orientation(), Orientation::N);
}

#[test]
fn normalize_with_rounds_down() {
    let raw = AABB::new(1, 1, 1, 2, 2, 2);
    let scaled = raw.normalize_with((3, 3, 3));
    assert_eq!(
        bounds(&scaled),
        (
            UNIT / 3,
            UNIT / 3,
            UNIT / 3,
            2 * UNIT / 3,
            2 * UNIT / 3,
            2 * UNIT / 3
        )
    );
}

#[test]
fn normalize_rescales_by_the_upper_x_bound() {
    let raw = AABB::new(2, 1, 4, 8, 6, 16);
    let scaled = raw.normalize();
    assert_eq!(
        bounds(&scaled),
        (QUARTER, UNIT / 8, HALF, UNIT, 3 * QUARTER, 2 * UNIT)
    );
}
