use generic_octree::dot_vox::{can_convert, frame_edge, frame_model, model_to_octree};
use generic_octree::dot_vox::{candidate_shifts, kept_index, shifted_tree};
use generic_octree::dot_vox::{vox_to_octrees, voxel_box, voxel_to_aabb};
use generic_octree::dot_vox::{ConversionType, DotVoxData, Model, Size, Voxel};
use generic_octree::loc_code::UNIT;
use generic_octree::{LocCode, Octree};

fn block(at: (u8, u8, u8), edge: u8, color: u8) -> Vec<Voxel> {
    let mut voxels = vec![];
    for x in 0..edge {
        for y in 0..edge {
            for z in 0..edge {
                voxels.push(Voxel {
                    x: at.0 + x,
                    y: at.1 + y,
                    z: at.2 + z,
                    i: color,
                });
            }
        }
    }
    voxels
}

fn cube_size(edge: u32) -> Size {
    Size {
        x: edge,
        y: edge,
        z: edge,
    }
}

fn leaves(tree: &Octree<u32>) -> Vec<(u64, u32)> {
    let mut pairs: Vec<(u64, u32)> = tree
        .entries()
        .into_iter()
        .map(|(code, value)| (code.0, value))
        .collect();
    pairs.sort();
    pairs
}

#[test]
fn alive() {
    assert!(true);
}

#[test]
fn empty() {
    vox_to_octrees(
        DotVoxData {
            models: vec![],
            palette: vec![],
        },
        5,
        ConversionType::Default,
    );
}

#[test]
fn no_models_give_no_trees() {
    let trees = vox_to_octrees(
        DotVoxData {
            models: vec![],
            palette: vec![],
        },
        5,
        ConversionType::Default,
    );
    assert!(trees.is_empty());
}

#[test]
fn frame_is_the_next_power_of_two() {
    assert_eq!(frame_edge(&cube_size(1)), 1);
    assert_eq!(frame_edge(&cube_size(2)), 2);
    assert_eq!(frame_edge(&cube_size(3)), 4);
    assert_eq!(frame_edge(&cube_size(4)), 4);
    assert_eq!(frame_edge(&cube_size(5)), 8);
    assert_eq!(frame_edge(&cube_size(126)), 128);
    assert_eq!(frame_edge(&cube_size(256)), 256);
    assert_eq!(frame_edge(&cube_size(257)), 512);
    assert_eq!(frame_edge(&Size { x: 3, y: 9, z: 1 }), 16);
    assert_eq!(frame_edge(&Size { x: 1, y: 0, z: 33 }), 64);
    assert_eq!(frame_edge(&cube_size(0x4000_0000)), 0x4000_0000);
}

#[test]
fn box_of_a_voxel() {
    let cube = voxel_box(&Voxel {
        x: 3,
        y: 0,
        z: 255,
        i: 9,
    });
    assert_eq!(cube.lower(), (3 * UNIT, 0, 255 * UNIT));
    assert_eq!(cube.upper(), (4 * UNIT, UNIT, 256 * UNIT));
}

#[test]
fn framed_box_of_a_voxel() {
    let palette = [10u32, 20, 30];
    let voxel = Voxel {
        x: 1,
        y: 2,
        z: 3,
        i: 2,
    };
    let (cube, color) = voxel_to_aabb(
        voxel,
        (UNIT, 0, 2 * UNIT),
        (8 * UNIT, 8 * UNIT, 8 * UNIT),
        &palette,
    );
    assert_eq!(color, 30);
    assert_eq!(cube.lower(), (UNIT / 4, UNIT / 4, 5 * (UNIT / 8)));
    assert_eq!(cube.upper(), (3 * (UNIT / 8), 3 * (UNIT / 8), 3 * (UNIT / 4)));
}

#[test]
fn full_model_becomes_the_root() {
    let model = Model {
        size: cube_size(2),
        voxels: block((0, 0, 0), 2, 1),
    };
    let palette = [0u32, 77];
    let tree = model_to_octree(&model, 3, (0, 0, 0), (2 * UNIT, 2 * UNIT, 2 * UNIT), &palette);
    assert_eq!(leaves(&tree), vec![(1, 77)]);
}

#[test]
fn voxels_of_two_colors_stay_apart() {
    let mut voxels = block((0, 0, 0), 2, 0);
    voxels[5].i = 1;
    let model = Model {
        size: cube_size(2),
        voxels,
    };
    let palette = [5u32, 6];
    let tree = model_to_octree(&model, 3, (0, 0, 0), (2 * UNIT, 2 * UNIT, 2 * UNIT), &palette);
    assert_eq!(tree.size(), 8);
    // The sixth voxel is the one at (1, 0, 1): right, down, front.
    assert_eq!(tree.lookup(LocCode(13)).map(|node| node.data), Some(6));
    assert_eq!(tree.lookup(LocCode(11)).map(|node| node.data), Some(5));
}

#[test]
fn voxel_outside_the_frame_is_passed_over() {
    let model = Model {
        size: cube_size(2),
        voxels: vec![
            Voxel {
                x: 0,
                y: 0,
                z: 0,
                i: 0,
            },
            Voxel {
                x: 2,
                y: 0,
                z: 0,
                i: 0,
            },
        ],
    };
    let palette = [5u32];
    let tree = model_to_octree(&model, 3, (0, 0, 0), (2 * UNIT, 2 * UNIT, 2 * UNIT), &palette);
    assert_eq!(leaves(&tree), vec![(11, 5)]);
}

#[test]
fn default_conversion_centers_the_model() {
    let model = Model {
        size: cube_size(5),
        voxels: block((0, 0, 0), 2, 0),
    };
    let palette = [9u32];
    // The frame is 8 wide and the shift is 1: the block straddles cells.
    let tree = frame_model(&model, 3, ConversionType::Default, &palette);
    assert_eq!(tree.size(), 8);
    assert_eq!(tree.max_depth(), 3);
    // The voxel at (1, 1, 1): left, down, back three times but for the
    // last step, which is right, up, front.
    assert_eq!(tree.lookup(LocCode(0o1336)).map(|node| node.data), Some(9));
}

#[test]
fn optimal_conversion_keeps_the_last_of_the_smallest_trees() {
    let model = Model {
        size: cube_size(5),
        voxels: block((0, 0, 0), 2, 0),
    };
    let palette = [9u32];
    let tree = frame_model(&model, 3, ConversionType::Optimal, &palette);
    // At an even shift the eight voxels fill one cell.  The last even
    // shift is (2, 2, 2), where the block is the cell 0o136.
    assert_eq!(leaves(&tree), vec![(0o136, 9)]);
}

#[test]
fn worst_conversion_keeps_the_last_of_the_largest_trees() {
    let model = Model {
        size: cube_size(5),
        voxels: block((0, 0, 0), 2, 0),
    };
    let palette = [9u32];
    let tree = frame_model(&model, 3, ConversionType::Worst, &palette);
    assert_eq!(tree.size(), 8);
    // The last shift with an odd entry is (2, 2, 1): the block lies at
    // 2..4, 2..4, 1..3, half of it in the back of the cell 0o136 and half
    // in the front of the cell 0o137.
    let mut expected = vec![];
    for code in [0o1360u64, 0o1363, 0o1364, 0o1367] {
        expected.push((code, 9u32));
    }
    for code in [0o1371u64, 0o1372, 0o1375, 0o1376] {
        expected.push((code, 9u32));
    }
    expected.sort();
    assert_eq!(leaves(&tree), expected);
}

#[test]
fn one_tree_for_each_model() {
    let data = DotVoxData {
        models: vec![
            Model {
                size: cube_size(2),
                voxels: block((0, 0, 0), 2, 1),
            },
            Model {
                size: cube_size(4),
                voxels: block((0, 0, 0), 1, 0),
            },
        ],
        palette: vec![3, 4],
    };
    let trees = vox_to_octrees(data, 2, ConversionType::Default);
    assert_eq!(trees.len(), 2);
    assert_eq!(leaves(&trees[0]), vec![(1, 4)]);
    assert_eq!(leaves(&trees[1]), vec![(0o133, 3)]);
}

#[test]
fn models_that_a_conversion_can_take() {
    let palette = [1u32, 2];
    let fine = Model {
        size: cube_size(5),
        voxels: block((0, 0, 0), 2, 1),
    };
    assert!(can_convert(ConversionType::Default, &fine, &palette));
    assert!(can_convert(ConversionType::Optimal, &fine, &palette));
    assert!(can_convert(ConversionType::Worst, &fine, &palette));
    let tight = Model {
        size: cube_size(4),
        voxels: vec![],
    };
    assert!(can_convert(ConversionType::Default, &tight, &palette));
    assert!(!can_convert(ConversionType::Optimal, &tight, &palette));
    let flat = Model {
        size: Size { x: 4, y: 1, z: 1 },
        voxels: vec![],
    };
    assert!(!can_convert(ConversionType::Worst, &flat, &palette));
    let nothing = Model {
        size: cube_size(0),
        voxels: vec![],
    };
    assert!(!can_convert(ConversionType::Default, &nothing, &palette));
    let colorless = Model {
        size: cube_size(5),
        voxels: block((0, 0, 0), 1, 2),
    };
    assert!(!can_convert(ConversionType::Default, &colorless, &palette));
    let huge = Model {
        size: cube_size(0x4000_0001),
        voxels: vec![],
    };
    assert!(!can_convert(ConversionType::Default, &huge, &palette));
}

#[test]
fn conversion_preferences() {
    assert!(ConversionType::Optimal.prefers(3, 3));
    assert!(ConversionType::Optimal.prefers(2, 3));
    assert!(!ConversionType::Optimal.prefers(4, 3));
    assert!(ConversionType::Worst.prefers(3, 3));
    assert!(ConversionType::Worst.prefers(4, 3));
    assert!(!ConversionType::Worst.prefers(2, 3));
    assert!(ConversionType::Default.prefers(0, 9));
}

#[test]
fn shifts_in_the_order_in_which_they_are_tried() {
    let size = Size { x: 2, y: 3, z: 1 };
    // The frame is 4 wide: two shifts along X, one along Y, three along Z.
    assert_eq!(
        candidate_shifts(ConversionType::Optimal, &size),
        vec![
            (0, 0, 0),
            (0, 0, 1),
            (0, 0, 2),
            (1, 0, 0),
            (1, 0, 1),
            (1, 0, 2)
        ]
    );
    assert_eq!(
        candidate_shifts(ConversionType::Worst, &size),
        candidate_shifts(ConversionType::Optimal, &size)
    );
    assert_eq!(candidate_shifts(ConversionType::Default, &size), vec![(1, 0, 1)]);
    assert_eq!(candidate_shifts(ConversionType::Optimal, &cube_size(5)).len(), 27);
    assert_eq!(
        candidate_shifts(ConversionType::Default, &cube_size(4)),
        vec![(0, 0, 0)]
    );
}

#[test]
fn the_tree_that_is_kept() {
    let sizes = [5usize, 3, 8, 3, 8, 4];
    assert_eq!(kept_index(ConversionType::Optimal, &sizes), 3);
    assert_eq!(kept_index(ConversionType::Worst, &sizes), 4);
    assert_eq!(kept_index(ConversionType::Default, &sizes), 5);
    assert_eq!(kept_index(ConversionType::Optimal, &[7]), 0);
    assert_eq!(kept_index(ConversionType::Worst, &[1, 1, 1]), 2);
}

#[test]
fn trees_of_all_shifts_agree_with_the_tree_that_is_kept() {
    let model = Model {
        size: cube_size(5),
        voxels: block((0, 0, 0), 2, 0),
    };
    let palette = [9u32];
    for conversion in [ConversionType::Optimal, ConversionType::Worst] {
        let frame = frame_edge(&model.size);
        let trees: Vec<Octree<u32>> = candidate_shifts(conversion, &model.size)
            .iter()
            .map(|shift| shifted_tree(&model, 3, *shift, frame, &palette))
            .collect();
        let sizes: Vec<usize> = trees.iter().map(|tree| tree.size()).collect();
        let kept = kept_index(conversion, &sizes);
        assert_eq!(
            leaves(&trees[kept]),
            leaves(&frame_model(&model, 3, conversion, &palette))
        );
    }
}
