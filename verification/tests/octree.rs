use generic_octree::loc_code::UNIT;
use generic_octree::{LocCode, Octree, OctreeError, OctreeNode, AABB};

const HALF: u64 = UNIT / 2;
const QUARTER: u64 = UNIT / 4;
const EIGHTH: u64 = UNIT / 8;

fn units(fraction: f64) -> u64 {
    (fraction * (UNIT as f64)) as u64
}

fn cube(x1: f64, y1: f64, z1: f64, x2: f64, y2: f64, z2: f64) -> AABB {
    AABB::new(units(x1), units(y1), units(z1), units(x2), units(y2), units(z2))
}

fn leaves(tree: &Octree<u32>) -> Vec<(u64, u32)> {
    let mut pairs: Vec<(u64, u32)> = tree
        .entries()
        .into_iter()
        .map(|(code, value)| (code.0, value))
        .collect();
    pairs.sort();
    pairs
}

fn value_at(tree: &Octree<u32>, code: u64) -> Option<u32> {
    tree.lookup(LocCode(code)).map(|node| node.data)
}

/// Whether all eight children of a code are stored with equal values.
fn has_uniform_group(tree: &Octree<u32>, code: u64) -> bool {
    let first = match value_at(tree, code * 8) {
        Some(value) => value,
        None => return false,
    };
    (0..8).all(|selector| value_at(tree, code * 8 + selector) == Some(first))
}

fn is_compressed(tree: &Octree<u32>) -> bool {
    tree.entries()
        .iter()
        .all(|(code, _)| !has_uniform_group(tree, code.0 / 8))
}

/// Sum over the leaves of the volume of their cells, in cells of the
/// deepest level.
fn leaf_volume(tree: &Octree<u32>) -> u128 {
    let deepest = tree.max_depth();
    tree.entries()
        .iter()
        .map(|(code, _)| 1u128 << (3 * (deepest - code.get_level())))
        .sum()
}

#[test]
fn new_tree_is_empty() {
    let tree: Octree<u32> = Octree::new(5);
    assert_eq!(tree.size(), 0);
    assert_eq!(tree.max_depth(), 5);
    assert_eq!(tree.depth(), 0);
    assert!(tree.entries().is_empty());
    assert!(tree.lookup(LocCode(1)).is_none());
}

#[test]
fn with_capacity_gives_an_empty_tree_that_stores_leaves() {
    let mut tree: Octree<u32> = Octree::with_capacity(4, 100);
    assert_eq!(tree.size(), 0);
    assert_eq!(tree.max_depth(), 4);
    assert!(tree.lookup(LocCode(8)).is_none());
    tree.insert(LocCode(8), OctreeNode::new(3));
    assert_eq!(tree.size(), 1);
    assert_eq!(value_at(&tree, 8), Some(3));
}

#[test]
fn insert_stores_and_overwrites() {
    let mut tree: Octree<u32> = Octree::new(3);
    assert_eq!(tree.insert(LocCode(8), OctreeNode::new(1)), LocCode(8));
    assert_eq!(tree.insert(LocCode(9), OctreeNode::new(2)), LocCode(9));
    assert_eq!(tree.insert(LocCode(0o123), OctreeNode::new(3)), LocCode(0o123));
    assert_eq!(tree.size(), 3);
    assert_eq!(value_at(&tree, 8), Some(1));
    assert_eq!(value_at(&tree, 9), Some(2));
    assert_eq!(value_at(&tree, 0o123), Some(3));
    assert_eq!(value_at(&tree, 10), None);
    tree.insert(LocCode(9), OctreeNode::new(7));
    assert_eq!(tree.size(), 3);
    assert_eq!(value_at(&tree, 9), Some(7));
    assert_eq!(leaves(&tree), vec![(8, 1), (9, 7), (0o123, 3)]);
}

#[test]
fn remove_node_takes_one_leaf_away() {
    let mut tree: Octree<u32> = Octree::new(3);
    for (code, value) in [(8u64, 1u32), (9, 2), (10, 3), (11, 4)] {
        tree.insert(LocCode(code), OctreeNode::new(value));
    }
    tree.remove_node(LocCode(9));
    assert_eq!(leaves(&tree), vec![(8, 1), (10, 3), (11, 4)]);
    tree.remove_node(LocCode(9));
    assert_eq!(tree.size(), 3);
    tree.remove_node(LocCode(11));
    assert_eq!(leaves(&tree), vec![(8, 1), (10, 3)]);
    tree.remove_node(LocCode(8));
    tree.remove_node(LocCode(10));
    assert_eq!(tree.size(), 0);
    assert_eq!(value_at(&tree, 10), None);
    tree.insert(LocCode(10), OctreeNode::new(9));
    assert_eq!(leaves(&tree), vec![(10, 9)]);
}

#[test]
fn lookup_does_not_walk_to_ancestors() {
    let mut tree: Octree<u32> = Octree::new(3);
    tree.insert(LocCode(11), OctreeNode::new(5));
    assert_eq!(value_at(&tree, 11), Some(5));
    assert_eq!(value_at(&tree, 88), None);
    assert_eq!(value_at(&tree, 1), None);
}

#[test]
fn depth_is_the_deepest_level_stored() {
    let mut tree: Octree<u32> = Octree::new(4);
    tree.insert(LocCode(8), OctreeNode::new(1));
    assert_eq!(tree.depth(), 1);
    tree.insert(LocCode(0o1234), OctreeNode::new(1));
    assert_eq!(tree.depth(), 3);
    tree.insert(LocCode(0o17), OctreeNode::new(1));
    assert_eq!(tree.depth(), 3);
    tree.remove_node(LocCode(0o1234));
    assert_eq!(tree.depth(), 1);
}

#[test]
fn three_boxes_coalesce_into_the_root() {
    let mut tree: Octree<u32> = Octree::new(2);
    assert_eq!(tree.merge(cube(0.0, 0.0, 0.0, 1.0, 0.5, 0.75), 7), Ok(()));
    // Two octants of the root, and four cells in each of two more.
    assert_eq!(
        leaves(&tree),
        vec![
            (11, 7),
            (12, 7),
            (0o120, 7),
            (0o123, 7),
            (0o124, 7),
            (0o127, 7),
            (0o150, 7),
            (0o153, 7),
            (0o154, 7),
            (0o157, 7),
        ]
    );
    let naive_first = tree.size();
    assert_eq!(tree.merge(cube(0.0, 0.0, 0.75, 1.0, 0.5, 1.0), 7), Ok(()));
    assert_eq!(leaves(&tree), vec![(10, 7), (11, 7), (12, 7), (13, 7)]);
    assert_eq!(tree.merge(cube(0.0, 0.5, 0.0, 1.0, 1.0, 1.0), 7), Ok(()));
    assert_eq!(leaves(&tree), vec![(1, 7)]);
    // Placed octant by octant, the three boxes make 10 + 8 + 4 leaves.
    assert_eq!(naive_first, 10);
    assert!(tree.size() < 10 + 8 + 4);
    assert_eq!(tree.size(), 1);
}

#[test]
fn siblings_with_different_values_stay_apart() {
    let mut tree: Octree<u32> = Octree::new(2);
    assert_eq!(tree.merge(cube(0.0, 0.0, 0.0, 0.5, 0.5, 0.5), 1), Ok(()));
    assert_eq!(tree.merge(cube(0.5, 0.0, 0.0, 1.0, 0.5, 0.5), 2), Ok(()));
    assert_eq!(tree.size(), 2);
    assert_eq!(value_at(&tree, 11), Some(1));
    assert_eq!(value_at(&tree, 12), Some(2));
    assert!(tree.lookup(LocCode(1)).is_none());
}

#[test]
fn eight_siblings_of_which_one_differs_stay() {
    let mut tree: Octree<u32> = Octree::new(1);
    assert_eq!(tree.merge(cube(0.0, 0.0, 0.0, 1.0, 1.0, 0.5), 4), Ok(()));
    assert_eq!(tree.merge(cube(0.0, 0.0, 0.5, 1.0, 0.5, 1.0), 4), Ok(()));
    assert_eq!(tree.merge(cube(0.0, 0.5, 0.5, 0.5, 1.0, 1.0), 4), Ok(()));
    assert_eq!(tree.merge(cube(0.5, 0.5, 0.5, 1.0, 1.0, 1.0), 5), Ok(()));
    assert_eq!(tree.size(), 8);
    assert!(tree.lookup(LocCode(1)).is_none());
    assert_eq!(value_at(&tree, 14), Some(5));
    // Painting the odd one like the others lets all eight collapse.
    assert_eq!(tree.merge(cube(0.5, 0.5, 0.5, 1.0, 1.0, 1.0), 4), Ok(()));
    assert_eq!(leaves(&tree), vec![(1, 4)]);
}

#[test]
fn merge_overwrites_within_one_cell() {
    let mut tree: Octree<u32> = Octree::new(3);
    assert_eq!(tree.merge(cube(0.0, 0.0, 0.0, 0.5, 0.5, 0.5), 1), Ok(()));
    assert_eq!(tree.merge(cube(0.0, 0.0, 0.0, 0.5, 0.5, 0.5), 2), Ok(()));
    assert_eq!(leaves(&tree), vec![(11, 2)]);
}

#[test]
fn box_outside_the_cube_is_refused_and_changes_nothing() {
    let mut tree: Octree<u32> = Octree::new(3);
    assert_eq!(tree.merge(cube(0.0, 0.0, 0.0, 0.5, 0.5, 0.5), 1), Ok(()));
    let before = leaves(&tree);
    for outside in [
        AABB::new(0, 0, 0, UNIT + 1, UNIT, UNIT),
        AABB::new(0, 0, 0, UNIT, UNIT + 1, UNIT),
        AABB::new(0, 0, 0, UNIT, UNIT, UNIT + 1),
        AABB::new(2 * UNIT, 2 * UNIT, 2 * UNIT, 3 * UNIT, 3 * UNIT, 3 * UNIT),
    ] {
        assert_eq!(tree.merge(outside, 9), Err(OctreeError::OutsideTree));
        assert_eq!(leaves(&tree), before);
    }
}

#[test]
fn box_on_the_faces_of_the_cube_is_accepted() {
    let mut tree: Octree<u32> = Octree::new(3);
    assert_eq!(
        tree.merge(AABB::new(HALF, HALF, HALF, UNIT, UNIT, UNIT), 3),
        Ok(())
    );
    assert_eq!(leaves(&tree), vec![(14, 3)]);
}

#[test]
fn idempotence_on_a_box_that_collapses_nothing() {
    let mut once: Octree<u32> = Octree::new(3);
    assert_eq!(once.merge(cube(0.0, 0.0, 0.0, 1.0, 0.5, 0.75), 7), Ok(()));
    let mut twice: Octree<u32> = Octree::new(3);
    assert_eq!(twice.merge(cube(0.0, 0.0, 0.0, 1.0, 0.5, 0.75), 7), Ok(()));
    assert_eq!(twice.merge(cube(0.0, 0.0, 0.0, 1.0, 0.5, 0.75), 7), Ok(()));
    assert_eq!(leaves(&once), leaves(&twice));
    assert_eq!(once.size(), twice.size());
}

#[test]
fn idempotence_on_the_whole_cube() {
    let mut tree: Octree<u32> = Octree::new(4);
    assert_eq!(tree.merge(AABB::new(0, 0, 0, UNIT, UNIT, UNIT), 6), Ok(()));
    assert_eq!(leaves(&tree), vec![(1, 6)]);
    assert_eq!(tree.merge(AABB::new(0, 0, 0, UNIT, UNIT, UNIT), 6), Ok(()));
    assert_eq!(leaves(&tree), vec![(1, 6)]);
}

#[test]
fn idempotence_on_a_box_whose_own_leaves_collapse() {
    // The box falls into all eight cells below 0o13, which collapse; a
    // leaf with another value lies beside them and one with the same value
    // lies further off.
    let mut tree: Octree<u32> = Octree::new(2);
    assert_eq!(tree.merge(cube(0.5, 0.0, 0.0, 1.0, 0.5, 0.5), 9), Ok(()));
    assert_eq!(tree.merge(cube(0.5, 0.5, 0.5, 0.75, 0.75, 0.75), 4), Ok(()));
    assert_eq!(tree.merge(cube(0.1, 0.1, 0.1, 0.4, 0.4, 0.4), 4), Ok(()));
    let once = leaves(&tree);
    assert_eq!(once, vec![(0o13, 4), (0o14, 9), (0o163, 4)]);
    assert_eq!(tree.merge(cube(0.1, 0.1, 0.1, 0.4, 0.4, 0.4), 4), Ok(()));
    assert_eq!(leaves(&tree), once);
    assert_eq!(tree.size(), 3);
}

#[test]
fn idempotence_on_boxes_in_an_empty_tree() {
    for (b, max_depth) in [
        (cube(0.0, 0.0, 0.0, 1.0, 0.5, 0.75), 2),
        (cube(0.25, 0.25, 0.25, 0.75, 0.75, 0.75), 1),
        (cube(0.25, 0.25, 0.25, 0.75, 0.75, 0.75), 3),
        (cube(0.0, 0.0, 0.0, 0.5, 0.5, 1.0), 4),
        (cube(0.3, 0.1, 0.2, 0.9, 0.7, 0.6), 3),
        (cube(0.0, 0.0, 0.0, 1.0, 1.0, 1.0), 5),
        (cube(0.2, 0.2, 0.2, 0.2, 0.9, 0.9), 3),
    ] {
        let mut tree: Octree<u32> = Octree::new(max_depth);
        assert_eq!(tree.merge(b, 6), Ok(()));
        let once = leaves(&tree);
        assert_eq!(tree.merge(b, 6), Ok(()));
        assert_eq!(leaves(&tree), once);
    }
}

#[test]
fn second_merge_after_a_collapse_restores_the_painted_leaf() {
    // Seven octants, then the eighth: the eight collapse into the root.
    // Painting the eighth once more stores its leaf again, below the root.
    let mut tree: Octree<u32> = Octree::new(2);
    assert_eq!(tree.merge(cube(0.0, 0.0, 0.0, 1.0, 1.0, 0.5), 4), Ok(()));
    assert_eq!(tree.merge(cube(0.0, 0.0, 0.5, 1.0, 0.5, 1.0), 4), Ok(()));
    assert_eq!(tree.merge(cube(0.0, 0.5, 0.5, 0.5, 1.0, 1.0), 4), Ok(()));
    assert_eq!(tree.size(), 7);
    assert_eq!(tree.merge(cube(0.5, 0.5, 0.5, 1.0, 1.0, 1.0), 4), Ok(()));
    assert_eq!(leaves(&tree), vec![(1, 4)]);
    assert_eq!(tree.merge(cube(0.5, 0.5, 0.5, 1.0, 1.0, 1.0), 4), Ok(()));
    assert_eq!(leaves(&tree), vec![(1, 4), (14, 4)]);
}

#[test]
fn volume_of_the_whole_cube_is_conserved() {
    for max_depth in [1u32, 2, 5, 21] {
        let mut tree: Octree<u32> = Octree::new(max_depth);
        for _ in 0..3 {
            assert_eq!(tree.merge(AABB::new(0, 0, 0, UNIT, UNIT, UNIT), 6), Ok(()));
            assert_eq!(leaf_volume(&tree), 1u128 << (3 * max_depth));
        }
    }
}

#[test]
fn volume_of_slabs_that_fill_the_cube_is_conserved() {
    let mut tree: Octree<u32> = Octree::new(3);
    let mut painted: u128 = 0;
    for slab in 0..8u64 {
        let b = AABB::new(0, 0, slab * EIGHTH, UNIT, UNIT, (slab + 1) * EIGHTH);
        assert_eq!(tree.merge(b, 2), Ok(()));
        painted += 64;
        assert_eq!(leaf_volume(&tree), painted);
        assert!(is_compressed(&tree));
    }
    assert_eq!(leaves(&tree), vec![(1, 2)]);
    assert_eq!(leaf_volume(&tree), 512);
}

/// The box of a cell on the second level, by its coordinates in quarters.
fn quarter_cell(x: u64, y: u64, z: u64) -> AABB {
    AABB::new(
        x * QUARTER,
        y * QUARTER,
        z * QUARTER,
        (x + 1) * QUARTER,
        (y + 1) * QUARTER,
        (z + 1) * QUARTER,
    )
}

#[test]
fn volume_of_cells_that_fill_the_cube_is_conserved() {
    // Sixty-four cells with values that repeat in an irregular way, so
    // that some groups collapse and others do not.
    let mut tree: Octree<u32> = Octree::new(4);
    let mut painted: u128 = 0;
    for x in 0..4u64 {
        for y in 0..4u64 {
            for z in 0..4u64 {
                let value = ((x / 2) * (y + 1) + z / 2) as u32 % 3;
                assert_eq!(tree.merge(quarter_cell(x, y, z), value), Ok(()));
                painted += 64;
                assert_eq!(leaf_volume(&tree), painted);
                assert!(is_compressed(&tree));
            }
        }
    }
    assert_eq!(leaf_volume(&tree), 1u128 << 12);
    assert!(tree.size() < 64);
    assert!(tree.size() > 1);
}

#[test]
fn volume_of_mixed_cells_that_fill_the_cube_is_conserved() {
    // Seven octants and the eight cells of the eighth, one value each.
    let mut tree: Octree<u32> = Octree::new(3);
    let mut value = 0;
    for (x, y, z) in [
        (0u64, 0u64, 1u64),
        (0, 1, 0),
        (0, 1, 1),
        (1, 0, 0),
        (1, 0, 1),
        (1, 1, 0),
        (1, 1, 1),
    ] {
        let octant = AABB::new(
            x * HALF,
            y * HALF,
            z * HALF,
            (x + 1) * HALF,
            (y + 1) * HALF,
            (z + 1) * HALF,
        );
        value += 1;
        assert_eq!(tree.merge(octant, value), Ok(()));
    }
    for x in 0..2u64 {
        for y in 0..2u64 {
            for z in 0..2u64 {
                value += 1;
                assert_eq!(tree.merge(quarter_cell(x, y, z), value), Ok(()));
            }
        }
    }
    assert_eq!(tree.size(), 15);
    assert_eq!(leaf_volume(&tree), 512);
}

#[test]
fn volume_is_not_conserved_when_a_box_covers_a_leaf() {
    // A small cell, then the whole cube: the leaf of the small cell stays
    // below the leaf at the root.
    let mut tree: Octree<u32> = Octree::new(2);
    assert_eq!(tree.merge(quarter_cell(0, 0, 0), 2), Ok(()));
    assert_eq!(tree.merge(AABB::new(0, 0, 0, UNIT, UNIT, UNIT), 2), Ok(()));
    assert_eq!(leaves(&tree), vec![(1, 2), (0o133, 2)]);
    assert_eq!(leaf_volume(&tree), 64 + 1);
}

#[test]
fn painting_the_cell_of_a_code_stores_a_leaf_at_the_code() {
    for code in [0o13u64, 0o160, 0o1234, 0o17777] {
        let mut tree: Octree<u32> = Octree::new(4);
        assert_eq!(tree.merge(LocCode(code).cell(), 5), Ok(()));
        assert_eq!(leaves(&tree), vec![(code, 5)]);
    }
}

#[test]
fn cells_of_the_leaves_tile_the_boxes_that_were_painted() {
    let mut tree: Octree<u32> = Octree::new(3);
    let boxes = [
        cube(0.0, 0.0, 0.0, 0.5, 1.0, 0.25),
        cube(0.5, 0.25, 0.125, 1.0, 0.75, 0.625),
        cube(0.0, 0.0, 0.25, 0.5, 0.5, 1.0),
    ];
    let mut painted: u128 = 0;
    for (value, b) in boxes.iter().enumerate() {
        assert_eq!(tree.merge(*b, value as u32), Ok(()));
        let low = b.lower();
        let high = b.upper();
        painted += ((high.0 - low.0) / EIGHTH) as u128
            * ((high.1 - low.1) / EIGHTH) as u128
            * ((high.2 - low.2) / EIGHTH) as u128;
        assert_eq!(leaf_volume(&tree), painted);
    }
    // No two cells overlap, and each lies in the box with its value.
    let pairs = tree.entries();
    for (code, value) in pairs.iter() {
        let cell = code.cell();
        let b = boxes[*value as usize];
        assert!(b.lower().0 <= cell.lower().0 && cell.upper().0 <= b.upper().0);
        assert!(b.lower().1 <= cell.lower().1 && cell.upper().1 <= b.upper().1);
        assert!(b.lower().2 <= cell.lower().2 && cell.upper().2 <= b.upper().2);
        for (other, _) in pairs.iter() {
            if other != code {
                let there = other.cell();
                let apart = cell.upper().0 <= there.lower().0
                    || there.upper().0 <= cell.lower().0
                    || cell.upper().1 <= there.lower().1
                    || there.upper().1 <= cell.lower().1
                    || cell.upper().2 <= there.lower().2
                    || there.upper().2 <= cell.lower().2;
                assert!(apart);
            }
        }
    }
}

#[test]
fn no_uniform_group_after_any_merge() {
    let mut tree: Octree<u32> = Octree::new(3);
    let boxes = [
        (cube(0.0, 0.0, 0.0, 0.5, 0.5, 0.5), 1),
        (cube(0.125, 0.0, 0.0, 0.25, 0.125, 0.125), 2),
        (cube(0.0, 0.0, 0.0, 1.0, 0.5, 0.75), 1),
        (cube(0.3, 0.1, 0.2, 0.9, 0.7, 0.6), 3),
        (cube(0.5, 0.5, 0.5, 1.0, 1.0, 1.0), 3),
        (cube(0.0, 0.5, 0.0, 1.0, 1.0, 1.0), 1),
        (cube(0.0, 0.0, 0.75, 1.0, 0.5, 1.0), 1),
        (cube(0.0, 0.0, 0.0, 1.0, 1.0, 1.0), 1),
    ];
    for (b, value) in boxes {
        assert_eq!(tree.merge(b, value), Ok(()));
        assert!(is_compressed(&tree));
        for (code, _) in tree.entries() {
            assert!(code.is_valid());
            assert!(code.get_level() <= 3);
        }
    }
}

#[test]
fn coalescing_goes_up_several_levels_in_one_merge() {
    let mut tree: Octree<u32> = Octree::new(3);
    // Everything but one cell of the deepest level.
    assert_eq!(tree.merge(cube(0.0, 0.0, 0.125, 1.0, 1.0, 1.0), 9), Ok(()));
    assert_eq!(tree.merge(cube(0.0, 0.125, 0.0, 1.0, 1.0, 0.125), 9), Ok(()));
    assert_eq!(tree.merge(cube(0.125, 0.0, 0.0, 1.0, 0.125, 0.125), 9), Ok(()));
    assert_eq!(tree.size(), 7 + 7 + 7);
    assert!(is_compressed(&tree));
    assert_eq!(tree.depth(), 3);
    // The last cell lets its group collapse, then the group above, then
    // the one at the root.
    assert_eq!(tree.merge(cube(0.0, 0.0, 0.0, 0.125, 0.125, 0.125), 9), Ok(()));
    assert_eq!(leaves(&tree), vec![(1, 9)]);
    assert_eq!(tree.depth(), 0);
}

#[test]
fn deeper_groups_collapse_before_the_group_above_them() {
    // The cell 0o133 holds a leaf and, below it, leaves at its four left
    // children; six of its siblings hold leaves too.
    let mut tree: Octree<u32> = Octree::new(3);
    assert_eq!(tree.merge(cube(0.0, 0.0, 0.0, 0.125, 0.25, 0.25), 5), Ok(()));
    assert_eq!(tree.merge(cube(0.0, 0.0, 0.0, 0.25, 0.25, 0.25), 5), Ok(()));
    for (x, y, z) in [
        (0.0, 0.0, 0.25),
        (0.0, 0.25, 0.0),
        (0.0, 0.25, 0.25),
        (0.25, 0.0, 0.25),
        (0.25, 0.25, 0.0),
        (0.25, 0.25, 0.25),
    ] {
        assert_eq!(
            tree.merge(cube(x, y, z, x + 0.25, y + 0.25, z + 0.25), 5),
            Ok(())
        );
    }
    assert_eq!(tree.size(), 4 + 1 + 6);
    assert_eq!(value_at(&tree, 0o133), Some(5));
    assert_eq!(value_at(&tree, 0o134), None);
    // One box paints the four right children of 0o133 and the sibling
    // 0o134.  The children collapse first, then the eight siblings.
    assert_eq!(tree.merge(cube(0.125, 0.0, 0.0, 0.5, 0.25, 0.25), 5), Ok(()));
    assert_eq!(leaves(&tree), vec![(0o13, 5)]);
}

#[test]
fn depth_ceiling_stores_an_unaligned_box_in_one_leaf() {
    let mut tree: Octree<u32> = Octree::new(2);
    let odd = AABB::new(
        QUARTER + 5,
        HALF + 7,
        3 * QUARTER + 11,
        HALF - 13,
        3 * QUARTER - 17,
        UNIT - 19,
    );
    assert_eq!(tree.merge(odd, 8), Ok(()));
    // Left, up, front of the root; then right, down, front.
    assert_eq!(leaves(&tree), vec![(0o115, 8)]);
    assert_eq!(tree.size(), 1);
}

#[test]
fn depth_ceiling_on_the_deepest_tree() {
    let mut tree: Octree<u32> = Octree::new(21);
    assert_eq!(tree.merge(AABB::new(1, 1, 1, 2, 2, 2), 8), Ok(()));
    assert_eq!(tree.size(), 1);
    let (code, value) = tree.entries()[0];
    assert_eq!(value, 8);
    assert_eq!(code.get_level(), 21);
    // Twenty-one times the corner left, down, back.
    assert_eq!(code.0, (1u64 << 63) | 0o333_333_333_333_333_333_333);
}

#[test]
fn flat_box_is_stored_at_the_depth_limit() {
    let mut tree: Octree<u32> = Octree::new(2);
    assert_eq!(
        tree.merge(AABB::new(HALF, 0, 0, HALF, QUARTER, QUARTER), 1),
        Ok(())
    );
    // On the plane through the center of the root the flat box counts as
    // left; one level down it lies right of the plane, low and back.
    assert_eq!(leaves(&tree), vec![(0o134, 1)]);
}

#[test]
fn box_across_all_octants_at_depth_one() {
    let mut tree: Octree<u32> = Octree::new(1);
    assert_eq!(tree.merge(cube(0.25, 0.25, 0.25, 0.75, 0.75, 0.75), 3), Ok(()));
    // Every part is accepted at the depth limit, and the eight collapse.
    assert_eq!(leaves(&tree), vec![(1, 3)]);
}

#[test]
fn entries_list_every_leaf_once() {
    let mut tree: Octree<u32> = Octree::new(2);
    assert_eq!(tree.merge(cube(0.0, 0.0, 0.0, 1.0, 0.5, 0.75), 7), Ok(()));
    let pairs = tree.entries();
    assert_eq!(pairs.len(), tree.size());
    for (code, value) in pairs.iter() {
        assert_eq!(value_at(&tree, code.0), Some(*value));
    }
    let mut codes: Vec<u64> = pairs.iter().map(|(code, _)| code.0).collect();
    codes.sort();
    codes.dedup();
    assert_eq!(codes.len(), pairs.len());
}

#[test]
fn transform_fn_maps_each_value() {
    let mut tree: Octree<u32> = Octree::new(2);
    assert_eq!(tree.merge(cube(0.0, 0.0, 0.0, 0.5, 0.5, 0.5), 1), Ok(()));
    assert_eq!(tree.merge(cube(0.5, 0.0, 0.0, 1.0, 0.5, 0.5), 2), Ok(()));
    let mapped: Octree<String> = tree.transform_fn(|value| format!("#{}", value * 10));
    assert_eq!(mapped.size(), 2);
    assert_eq!(mapped.max_depth(), 2);
    assert_eq!(
        mapped.lookup(LocCode(11)).map(|node| node.data.clone()),
        Some("#10".to_string())
    );
    assert_eq!(
        mapped.lookup(LocCode(12)).map(|node| node.data.clone()),
        Some("#20".to_string())
    );
}

#[test]
fn transform_identity_keeps_the_leaves() {
    let mut tree: Octree<u32> = Octree::new(3);
    assert_eq!(tree.merge(cube(0.0, 0.0, 0.0, 1.0, 0.5, 0.75), 7), Ok(()));
    assert_eq!(tree.merge(cube(0.3, 0.1, 0.2, 0.9, 0.7, 0.6), 3), Ok(()));
    let before = leaves(&tree);
    let mapped: Octree<u32> = tree.transform_fn(|value| value);
    assert_eq!(leaves(&mapped), before);
    let converted: Octree<u32> = mapped.transform::<u32>();
    assert_eq!(leaves(&converted), before);
    let same: Octree<u32> = converted.transform_nodes_fn(|_, node| node);
    assert_eq!(leaves(&same), before);
}

#[test]
fn transform_converts_each_value() {
    let mut tree: Octree<u32> = Octree::new(2);
    assert_eq!(tree.merge(cube(0.0, 0.0, 0.0, 0.5, 0.5, 0.5), 1), Ok(()));
    assert_eq!(tree.merge(cube(0.5, 0.0, 0.0, 1.0, 0.5, 0.5), 2), Ok(()));
    let wide: Octree<u64> = tree.transform::<u64>();
    assert_eq!(wide.lookup(LocCode(11)).map(|node| node.data), Some(1u64));
    assert_eq!(wide.lookup(LocCode(12)).map(|node| node.data), Some(2u64));
    assert_eq!(wide.size(), 2);
}

#[test]
fn transform_nodes_fn_sees_the_code() {
    let mut tree: Octree<u32> = Octree::new(2);
    assert_eq!(tree.merge(cube(0.0, 0.0, 0.0, 0.5, 0.5, 0.5), 1), Ok(()));
    assert_eq!(tree.merge(cube(0.5, 0.0, 0.0, 1.0, 0.5, 0.5), 2), Ok(()));
    let mapped: Octree<u64> =
        tree.transform_nodes_fn(|code, node| OctreeNode::new(code.0 * 100 + node.data as u64));
    assert_eq!(mapped.lookup(LocCode(11)).map(|node| node.data), Some(1101));
    assert_eq!(mapped.lookup(LocCode(12)).map(|node| node.data), Some(1202));
}

#[test]
fn node_transforms() {
    let node = OctreeNode::new(7u8);
    assert_eq!(node.data, 7);
    let wide: OctreeNode<u32> = node.transform::<u32>();
    assert_eq!(wide.data, 7u32);
    let doubled = wide.transform_fn(|value| value * 2);
    assert_eq!(doubled.data, 14);
}
