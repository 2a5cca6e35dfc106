//! Trees from voxel models.
//!
//! A model is a list of voxels, each a unit cube at whole coordinates with
//! an index into a palette.  To paint a model into a tree, the model is
//! set into a cubic frame whose edge is a power of two, at some offset,
//! and the frame is scaled down to the unit cube.
use vstd::prelude::*;
use crate::aabb::{AABB, Cuboid, rescaled};
use crate::loc_code::{MAX_LEVEL, UNIT};
use crate::octree::Octree;
use crate::orientation::Orientation;
use crate::paint::merged;

verus! {

/// Which offset of a model in its frame to keep.
#[derive(PartialEq, Eq, Structural, Clone, Copy, Debug)]
pub enum ConversionType {
    /// The offset that centers the model in its frame.
    Default,
    /// An offset that gives the tree with the fewest leaves.
    Optimal,
    /// An offset that gives the tree with the most leaves.
    Worst,
}

#[derive(Clone, Copy, Debug)]
pub struct Voxel {
    pub x: u8,
    pub y: u8,
    pub z: u8,
    /// Index of the voxel's color in the palette.
    pub i: u8,
}

#[derive(Clone, Copy, Debug)]
pub struct Size {
    pub x: u32,
    pub y: u32,
    pub z: u32,
}

#[derive(Debug)]
pub struct Model {
    pub size: Size,
    pub voxels: Vec<Voxel>,
}

#[derive(Debug)]
pub struct DotVoxData {
    pub models: Vec<Model>,
    pub palette: Vec<u32>,
}

/// The cube of a voxel: from its coordinates to one more along each axis,
/// where one is the extent of the unit cube.
pub open spec fn voxel_cuboid(voxel: Voxel) -> Cuboid {
    Cuboid {
        x1: voxel.x * 0x1_0000_0000,
        y1: voxel.y * 0x1_0000_0000,
        z1: voxel.z * 0x1_0000_0000,
        x2: (voxel.x + 1) * 0x1_0000_0000,
        y2: (voxel.y + 1) * 0x1_0000_0000,
        z2: (voxel.z + 1) * 0x1_0000_0000,
        orientation: Orientation::N,
    }
}

/// The cube of a voxel, moved by an offset and then rescaled.
pub open spec fn framed_cuboid(
    voxel: Voxel,
    offset: (u64, u64, u64),
    normalization_vector: (u64, u64, u64),
) -> Cuboid {
    voxel_cuboid(voxel).shifted((offset.0 as int, offset.1 as int, offset.2 as int)).scaled(
        (
            normalization_vector.0 as int,
            normalization_vector.1 as int,
            normalization_vector.2 as int,
        ),
    )
}

/// The bounds of the framed cube of a voxel can be computed in 64 bits.
pub open spec fn voxel_fits(
    voxel: Voxel,
    offset: (u64, u64, u64),
    normalization_vector: (u64, u64, u64),
) -> bool {
    let moved = voxel_cuboid(voxel).shifted((offset.0 as int, offset.1 as int, offset.2 as int));
    &&& moved.x2 <= u64::MAX
    &&& moved.y2 <= u64::MAX
    &&& moved.z2 <= u64::MAX
    &&& normalization_vector.0 > 0
    &&& normalization_vector.1 > 0
    &&& normalization_vector.2 > 0
    &&& rescaled(moved.x2, normalization_vector.0 as int) <= u64::MAX
    &&& rescaled(moved.y2, normalization_vector.1 as int) <= u64::MAX
    &&& rescaled(moved.z2, normalization_vector.2 as int) <= u64::MAX
}

/// The leaves after the voxels of a list were painted one after the other
/// into an empty tree, each as its framed cube with its color.  A voxel
/// whose framed cube does not lie in the unit cube is passed over.
pub open spec fn poured(
    voxels: Seq<Voxel>,
    offset: (u64, u64, u64),
    normalization_vector: (u64, u64, u64),
    palette: Seq<u32>,
    max_depth: nat,
) -> Map<u64, u32>
    decreases voxels.len(),
{
    if voxels.len() == 0 {
        Map::empty()
    } else {
        let before = poured(voxels.drop_last(), offset, normalization_vector, palette, max_depth);
        let voxel = voxels.last();
        let b = framed_cuboid(voxel, offset, normalization_vector);
        if b.in_unit_cube() {
            merged(before, b, palette[voxel.i as int], max_depth)
        } else {
            before
        }
    }
}

/// The cube of a voxel as a box.
pub fn voxel_box(voxel: &Voxel) -> (cube: AABB)
    ensures
        cube@ == voxel_cuboid(*voxel),
{
    let x: u64 = voxel.x as u64;
    let y: u64 = voxel.y as u64;
    let z: u64 = voxel.z as u64;
    AABB::new(x * UNIT, y * UNIT, z * UNIT, (x + 1) * UNIT, (y + 1) * UNIT, (z + 1) * UNIT)
}

/// The framed cube of a voxel and its color.
pub fn voxel_to_aabb(
    voxel: Voxel,
    offset: (u64, u64, u64),
    normalization_vector: (u64, u64, u64),
    palette: &[u32],
) -> (framed: (AABB, u32))
    requires
        voxel.i < palette@.len(),
        voxel_fits(voxel, offset, normalization_vector),
    ensures
        framed.0@ == framed_cuboid(voxel, offset, normalization_vector),
        framed.1 == palette@[voxel.i as int],
{
    (
        voxel_box(&voxel).offset(offset).normalize_with(normalization_vector),
        palette[voxel.i as usize],
    )
}

/// The tree of a model at one offset in its frame.
pub fn model_to_octree(
    model: &Model,
    max_depth: u32,
    offset: (u64, u64, u64),
    normalization_vector: (u64, u64, u64),
    palette: &[u32],
) -> (tree: Octree<u32>)
    requires
        1 <= max_depth <= MAX_LEVEL,
        forall|k: int|
            0 <= k < model.voxels.len() ==> (#[trigger] model.voxels@[k]).i < palette@.len()
                && voxel_fits(model.voxels@[k], offset, normalization_vector),
    ensures
        tree.wf(),
        tree.depth_limit() == max_depth,
        tree@ == poured(model.voxels@, offset, normalization_vector, palette@, max_depth as nat),
{
    let mut octree: Octree<u32> = Octree::new(max_depth);
    let mut k: usize = 0;
    while k < model.voxels.len()
        invariant
            k <= model.voxels.len(),
            octree.wf(),
            octree.depth_limit() == max_depth,
            forall|k: int|
                0 <= k < model.voxels.len() ==> (#[trigger] model.voxels@[k]).i < palette@.len()
                    && voxel_fits(model.voxels@[k], offset, normalization_vector),
            octree@ == poured(
                model.voxels@.take(k as int),
                offset,
                normalization_vector,
                palette@,
                max_depth as nat,
            ),
        decreases model.voxels.len() - k,
    {
        let (aabb, data) = voxel_to_aabb(model.voxels[k], offset, normalization_vector, palette);
        proof {
            let next = model.voxels@.take(k + 1);
            assert(next.drop_last() =~= model.voxels@.take(k as int));
            assert(next.last() == model.voxels@[k as int]);
        }
        let _ = octree.merge(aabb, data);
        k += 1;
    }
    assert(model.voxels@.take(k as int) =~= model.voxels@);
    octree
}

/// Greatest extent of a model that is taken: up to it the bounds of the
/// framed voxels are computed in 64 bits without overflow.
pub const MAX_EXTENT: u32 = 0x4000_0000;

/// The greatest of the three extents of a model.
pub open spec fn extent(size: Size) -> nat {
    if size.x >= size.y && size.x >= size.z {
        size.x as nat
    } else if size.y >= size.z {
        size.y as nat
    } else {
        size.z as nat
    }
}

/// `start` doubled until it is no less than `extent`.
pub open spec fn doubled_from(start: nat, extent: nat) -> nat
    decreases
            if start < extent {
                extent - start
            } else {
                0
            },
{
    if start >= extent || start == 0 {
        start
    } else {
        doubled_from(2 * start, extent)
    }
}

/// Edge of the frame of a model: the least power of two that is no less
/// than the greatest extent of the model.
pub open spec fn frame_size(size: Size) -> nat {
    doubled_from(1, extent(size))
}

/// Whether a shift, in voxels along each axis, is one that a conversion
/// tries: for the default conversion the shift that centers the model in
/// its frame, and otherwise every shift that is less than the room
/// between the model and its frame along each axis.
pub open spec fn shift_in_frame(
    conversion: ConversionType,
    size: Size,
    shift: (u32, u32, u32),
) -> bool {
    let frame = frame_size(size);
    match conversion {
        ConversionType::Default => {
            &&& shift.0 == (frame - size.x) / 2
            &&& shift.1 == (frame - size.y) / 2
            &&& shift.2 == (frame - size.z) / 2
        },
        _ => {
            &&& shift.0 < frame - size.x
            &&& shift.1 < frame - size.y
            &&& shift.2 < frame - size.z
        },
    }
}

/// The leaves of the tree of a model at a shift in its frame.
pub open spec fn framed(
    voxels: Seq<Voxel>,
    size: Size,
    palette: Seq<u32>,
    max_depth: nat,
    shift: (u32, u32, u32),
) -> Map<u64, u32> {
    let edge = (frame_size(size) * 0x1_0000_0000) as u64;
    poured(
        voxels,
        (
            (shift.0 * 0x1_0000_0000) as u64,
            (shift.1 * 0x1_0000_0000) as u64,
            (shift.2 * 0x1_0000_0000) as u64,
        ),
        (edge, edge, edge),
        palette,
        max_depth,
    )
}

/// Whether a shift is tried before another: shifts are tried in the order
/// of their X entries, then of their Y entries, then of their Z entries.
pub open spec fn tried_before(one: (u32, u32, u32), other: (u32, u32, u32)) -> bool {
    ||| one.0 < other.0
    ||| one.0 == other.0 && one.1 < other.1
    ||| one.0 == other.0 && one.1 == other.1 && one.2 < other.2
}

/// Whether a tree of `mine` leaves, made at the shift `at`, is kept when
/// a tree of `theirs` leaves was made at the shift `other`: the tree with
/// fewer leaves for the optimal conversion, with more leaves for the
/// worst, and of two trees with as many leaves the one tried last.
pub open spec fn kept_over(
    conversion: ConversionType,
    mine: nat,
    at: (u32, u32, u32),
    theirs: nat,
    other: (u32, u32, u32),
) -> bool {
    match conversion {
        ConversionType::Default => true,
        ConversionType::Optimal => mine < theirs || (mine == theirs && !tried_before(at, other)),
        ConversionType::Worst => mine > theirs || (mine == theirs && !tried_before(at, other)),
    }
}

/// Whether `leaves` are the leaves of the tree that a conversion keeps of
/// a model: the tree at a shift that the conversion tries, kept over the
/// tree at every other such shift.
pub open spec fn kept(
    conversion: ConversionType,
    voxels: Seq<Voxel>,
    size: Size,
    palette: Seq<u32>,
    max_depth: nat,
    leaves: Map<u64, u32>,
) -> bool {
    exists|shift: (u32, u32, u32)|
        {
            &&& shift_in_frame(conversion, size, shift)
            &&& leaves == #[trigger] framed(voxels, size, palette, max_depth, shift)
            &&& forall|other: (u32, u32, u32)|
                shift_in_frame(conversion, size, other) ==> kept_over(
                    conversion,
                    leaves.len(),
                    shift,
                    (#[trigger] framed(voxels, size, palette, max_depth, other)).len(),
                    other,
                )
        }
}

/// Whether a conversion can be made of a model: the model has an extent
/// within the limit and its voxels find their colors in the palette; for
/// a conversion that tries several shifts, the model leaves room in its
/// frame along each axis.
pub open spec fn convertible(conversion: ConversionType, model: Model, palette: Seq<u32>) -> bool {
    &&& 1 <= extent(model.size) <= MAX_EXTENT
    &&& forall|k: int|
        0 <= k < model.voxels.len() ==> (#[trigger] model.voxels@[k]).i < palette.len()
    &&& conversion != ConversionType::Default ==> {
        &&& model.size.x < frame_size(model.size)
        &&& model.size.y < frame_size(model.size)
        &&& model.size.z < frame_size(model.size)
    }
}

/// Doubling a start up to an extent ends below twice the extent.
pub(crate) proof fn lemma_doubled_bound(start: nat, extent: nat)
    requires
        1 <= start,
        start < 2 * extent,
    ensures
        extent <= doubled_from(start, extent) < 2 * extent,
    decreases
            if start < extent {
                extent - start
            } else {
                0
            },
{
    if start < extent {
        lemma_doubled_bound(2 * start, extent);
    }
}

/// Within the extent limit, the bounds of every framed voxel can be
/// computed in 64 bits.
pub(crate) proof fn lemma_voxel_fits(voxel: Voxel, shift: (u32, u32, u32), frame: nat)
    requires
        1 <= frame < 2 * MAX_EXTENT,
        shift.0 < 2 * MAX_EXTENT,
        shift.1 < 2 * MAX_EXTENT,
        shift.2 < 2 * MAX_EXTENT,
    ensures
        voxel_fits(
            voxel,
            (
                (shift.0 * 0x1_0000_0000) as u64,
                (shift.1 * 0x1_0000_0000) as u64,
                (shift.2 * 0x1_0000_0000) as u64,
            ),
            (
                (frame * 0x1_0000_0000) as u64,
                (frame * 0x1_0000_0000) as u64,
                (frame * 0x1_0000_0000) as u64,
            ),
        ),
{
    let edge: int = (frame * 0x1_0000_0000) as int;
    lemma_scaled_down((voxel.x + 1 + shift.0) * 0x1_0000_0000, edge);
    lemma_scaled_down((voxel.y + 1 + shift.1) * 0x1_0000_0000, edge);
    lemma_scaled_down((voxel.z + 1 + shift.2) * 0x1_0000_0000, edge);
}

/// Rescaling by no less than the extent of the unit cube does not make a
/// bound greater.
pub(crate) proof fn lemma_scaled_down(bound: int, by: int)
    requires
        0 <= bound,
        0x1_0000_0000 <= by,
    ensures
        0 <= rescaled(bound, by) <= bound,
{
    assert(bound * 0x1_0000_0000 <= bound * by) by (nonlinear_arith)
        requires
            0 <= bound,
            0x1_0000_0000 <= by,
    ;
    assert(0 <= bound * 0x1_0000_0000) by (nonlinear_arith)
        requires
            0 <= bound,
    ;
    vstd::arithmetic::div_mod::lemma_div_is_ordered(bound * 0x1_0000_0000, bound * by, by);
    vstd::arithmetic::div_mod::lemma_div_multiples_vanish(bound, by);
    assert(bound * by == by * bound) by (nonlinear_arith);
    vstd::arithmetic::div_mod::lemma_div_pos_is_pos(bound * 0x1_0000_0000, by);
}

/// Edge of the frame of a model.
pub fn frame_edge(size: &Size) -> (frame: u64)
    requires
        1 <= extent(*size) <= MAX_EXTENT,
    ensures
        frame == frame_size(*size),
        extent(*size) <= frame < 2 * extent(*size),
{
    let widest: u32 = if size.x >= size.y && size.x >= size.z {
        size.x
    } else if size.y >= size.z {
        size.y
    } else {
        size.z
    };
    let mut frame: u64 = 1;
    proof {
        lemma_doubled_bound(1, widest as nat);
    }
    while frame < widest as u64
        invariant
            1 <= frame < 2 * widest,
            widest <= MAX_EXTENT,
            doubled_from(frame as nat, widest as nat) == doubled_from(1, widest as nat),
        decreases
                if frame < widest {
                    widest - frame
                } else {
                    0
                },
    {
        frame = frame * 2;
    }
    frame
}

/// The tree of a model at a shift in its frame.
pub fn shifted_tree(
    model: &Model,
    max_depth: u32,
    shift: (u32, u32, u32),
    frame: u64,
    palette: &[u32],
) -> (tree: Octree<u32>)
    requires
        1 <= max_depth <= MAX_LEVEL,
        1 <= extent(model.size) <= MAX_EXTENT,
        frame == frame_size(model.size),
        1 <= frame < 2 * MAX_EXTENT,
        shift.0 < 2 * MAX_EXTENT,
        shift.1 < 2 * MAX_EXTENT,
        shift.2 < 2 * MAX_EXTENT,
        forall|k: int|
            0 <= k < model.voxels.len() ==> (#[trigger] model.voxels@[k]).i < palette@.len(),
    ensures
        tree.wf(),
        tree.depth_limit() == max_depth,
        tree@ == framed(model.voxels@, model.size, palette@, max_depth as nat, shift),
{
    let edge: u64 = frame * UNIT;
    let offset: (u64, u64, u64) = (
        (shift.0 as u64) * UNIT,
        (shift.1 as u64) * UNIT,
        (shift.2 as u64) * UNIT,
    );
    proof {
        assert forall|k: int| 0 <= k < model.voxels.len() implies voxel_fits(
            #[trigger] model.voxels@[k],
            offset,
            (edge, edge, edge),
        ) by {
            lemma_voxel_fits(model.voxels@[k], shift, frame as nat);
        }
    }
    model_to_octree(model, max_depth, offset, (edge, edge, edge), palette)
}

/// The shift that is tried after a shift, where `rooms` gives the number
/// of shifts along each axis.
fn next_shift(shift: (u32, u32, u32), rooms: (u64, u64, u64)) -> (next: (u32, u32, u32))
    requires
        shift.0 < rooms.0 <= u32::MAX,
        shift.1 < rooms.1 <= u32::MAX,
        shift.2 < rooms.2 <= u32::MAX,
    ensures
        next.0 <= rooms.0,
        next.0 < rooms.0 ==> next.1 < rooms.1 && next.2 < rooms.2,
        next.0 == rooms.0 ==> next.1 == 0 && next.2 == 0,
        tried_before(shift, next),
        forall|other: (u32, u32, u32)|
            other.1 < rooms.1 && other.2 < rooms.2 ==> (#[trigger] tried_before(other, next)
                <==> tried_before(other, shift) || other == shift),
{
    if (shift.2 as u64) + 1 < rooms.2 {
        (shift.0, shift.1, shift.2 + 1)
    } else if (shift.1 as u64) + 1 < rooms.1 {
        (shift.0, shift.1 + 1, 0)
    } else {
        (shift.0 + 1, 0, 0)
    }
}

impl ConversionType {
    /// Whether the conversion keeps a tree that was made later over the
    /// tree that it kept so far, given the numbers of their leaves.
    pub fn prefers(self, later: usize, so_far: usize) -> (replace: bool)
        ensures
            replace == match self {
                ConversionType::Optimal => later <= so_far,
                ConversionType::Worst => later >= so_far,
                ConversionType::Default => true,
            },
    {
        match self {
            ConversionType::Optimal => later <= so_far,
            ConversionType::Worst => later >= so_far,
            ConversionType::Default => true,
        }
    }
}

/// The shifts that a conversion tries of a model, in the order in which
/// it tries them.
pub fn candidate_shifts(conversion_type: ConversionType, size: &Size) -> (shifts: Vec<
    (u32, u32, u32),
>)
    requires
        1 <= extent(*size) <= MAX_EXTENT,
        conversion_type != ConversionType::Default ==> {
            &&& size.x < frame_size(*size)
            &&& size.y < frame_size(*size)
            &&& size.z < frame_size(*size)
        },
    ensures
        forall|i: int|
            0 <= i < shifts.len() ==> shift_in_frame(conversion_type, *size, #[trigger] shifts@[i]),
        forall|i: int, j: int|
            0 <= i < j < shifts.len() ==> tried_before(
                #[trigger] shifts@[i],
                #[trigger] shifts@[j],
            ),
        forall|shift: (u32, u32, u32)|
            shift_in_frame(conversion_type, *size, shift) ==> #[trigger] shifts@.contains(shift),
{
    let frame = frame_edge(size);
    let rooms: (u64, u64, u64) = (
        frame - size.x as u64,
        frame - size.y as u64,
        frame - size.z as u64,
    );
    let mut shifts: Vec<(u32, u32, u32)> = Vec::new();
    if conversion_type == ConversionType::Default {
        let centered: (u32, u32, u32) = (
            (rooms.0 / 2) as u32,
            (rooms.1 / 2) as u32,
            (rooms.2 / 2) as u32,
        );
        shifts.push(centered);
        assert(shifts@[0] == centered);
        return shifts;
    }
    let mut shift: (u32, u32, u32) = (0, 0, 0);
    while (shift.0 as u64) < rooms.0
        invariant
            conversion_type != ConversionType::Default,
            frame == frame_size(*size),
            frame < 2 * MAX_EXTENT,
            rooms.0 == frame - size.x,
            rooms.1 == frame - size.y,
            rooms.2 == frame - size.z,
            1 <= rooms.1,
            1 <= rooms.2,
            shift.0 <= rooms.0,
            shift.0 < rooms.0 ==> shift.1 < rooms.1 && shift.2 < rooms.2,
            shift.0 == rooms.0 ==> shift.1 == 0 && shift.2 == 0,
            forall|i: int|
                0 <= i < shifts.len() ==> shift_in_frame(
                    conversion_type,
                    *size,
                    #[trigger] shifts@[i],
                ) && tried_before(shifts@[i], shift),
            forall|i: int, j: int|
                0 <= i < j < shifts.len() ==> tried_before(
                    #[trigger] shifts@[i],
                    #[trigger] shifts@[j],
                ),
            forall|other: (u32, u32, u32)|
                shift_in_frame(conversion_type, *size, other) && tried_before(other, shift)
                    ==> #[trigger] shifts@.contains(other),
        decreases rooms.0 - shift.0, rooms.1 - shift.1, rooms.2 - shift.2,
    {
        let ghost before = shifts@;
        let ghost tried = shift;
        shifts.push(shift);
        shift = next_shift(shift, rooms);
        proof {
            assert(shifts@[shifts.len() - 1] == tried);
            assert forall|other: (u32, u32, u32)|
                shift_in_frame(conversion_type, *size, other) && tried_before(
                    other,
                    shift,
                ) implies #[trigger] shifts@.contains(other) by {
                assert(tried_before(other, tried) || other == tried);
                if other != tried {
                    assert(before.contains(other));
                    let i = choose|i: int| 0 <= i < before.len() && before[i] == other;
                    assert(shifts@[i] == other);
                }
            }
        }
    }
    proof {
        assert forall|other: (u32, u32, u32)|
            shift_in_frame(conversion_type, *size, other) implies #[trigger] shifts@.contains(
            other,
        ) by {
            assert(tried_before(other, shift));
        }
    }
    shifts
}

/// Which of the trees made at the shifts that a conversion tried is kept,
/// given the numbers of their leaves in the order of the shifts: for the
/// optimal conversion the last of the trees with the fewest leaves, for
/// the worst the last of those with the most, and else the last.
pub fn kept_index(conversion_type: ConversionType, sizes: &[usize]) -> (kept: usize)
    requires
        sizes@.len() > 0,
    ensures
        kept < sizes@.len(),
        conversion_type == ConversionType::Optimal ==> forall|j: int|
            0 <= j < sizes@.len() ==> sizes@[kept as int] < #[trigger] sizes@[j] || (
            sizes@[kept as int] == sizes@[j] && j <= kept),
        conversion_type == ConversionType::Worst ==> forall|j: int|
            0 <= j < sizes@.len() ==> sizes@[kept as int] > #[trigger] sizes@[j] || (
            sizes@[kept as int] == sizes@[j] && j <= kept),
        conversion_type == ConversionType::Default ==> kept == sizes@.len() - 1,
{
    let mut kept: usize = 0;
    let mut i: usize = 1;
    while i < sizes.len()
        invariant
            1 <= i <= sizes@.len(),
            kept < i,
            conversion_type == ConversionType::Optimal ==> forall|j: int|
                0 <= j < i ==> sizes@[kept as int] < #[trigger] sizes@[j] || (sizes@[kept as int]
                    == sizes@[j] && j <= kept),
            conversion_type == ConversionType::Worst ==> forall|j: int|
                0 <= j < i ==> sizes@[kept as int] > #[trigger] sizes@[j] || (sizes@[kept as int]
                    == sizes@[j] && j <= kept),
            conversion_type == ConversionType::Default ==> kept == i - 1,
        decreases sizes@.len() - i,
    {
        if conversion_type.prefers(sizes[i], sizes[kept]) {
            kept = i;
        }
        i += 1;
    }
    kept
}

/// Tells whether a conversion can be made of a model.
pub fn can_convert(conversion_type: ConversionType, model: &Model, palette: &[u32]) -> (possible:
    bool)
    ensures
        possible == convertible(conversion_type, *model, palette@),
{
    let size = model.size;
    if size.x == 0 && size.y == 0 && size.z == 0 {
        return false;
    }
    if size.x > MAX_EXTENT || size.y > MAX_EXTENT || size.z > MAX_EXTENT {
        return false;
    }
    let mut k: usize = 0;
    while k < model.voxels.len()
        invariant
            k <= model.voxels.len(),
            forall|j: int| 0 <= j < k ==> (#[trigger] model.voxels@[j]).i < palette@.len(),
        decreases model.voxels.len() - k,
    {
        if model.voxels[k].i as usize >= palette.len() {
            return false;
        }
        k += 1;
    }
    if conversion_type == ConversionType::Default {
        return true;
    }
    let frame = frame_edge(&size);
    (size.x as u64) < frame && (size.y as u64) < frame && (size.z as u64) < frame
}

/// The tree that a conversion keeps of a model.
pub fn frame_model(
    model: &Model,
    max_depth: u32,
    conversion_type: ConversionType,
    palette: &[u32],
) -> (tree: Octree<u32>)
    requires
        1 <= max_depth <= MAX_LEVEL,
        convertible(conversion_type, *model, palette@),
    ensures
        tree.wf(),
        tree.depth_limit() == max_depth,
        kept(conversion_type, model.voxels@, model.size, palette@, max_depth as nat, tree@),
{
    let frame = frame_edge(&model.size);
    let rooms: (u64, u64, u64) = (
        frame - model.size.x as u64,
        frame - model.size.y as u64,
        frame - model.size.z as u64,
    );
    if conversion_type == ConversionType::Default {
        let shift: (u32, u32, u32) = (
            (rooms.0 / 2) as u32,
            (rooms.1 / 2) as u32,
            (rooms.2 / 2) as u32,
        );
        let tree = shifted_tree(model, max_depth, shift, frame, palette);
        assert(shift_in_frame(conversion_type, model.size, shift));
        return tree;
    }
    let ghost voxels = model.voxels@;
    let ghost depth = max_depth as nat;
    let mut shift: (u32, u32, u32) = (0, 0, 0);
    let mut best = shifted_tree(model, max_depth, shift, frame, palette);
    let mut best_size: usize = best.size();
    let ghost mut best_shift: (u32, u32, u32) = shift;
    shift = next_shift(shift, rooms);
    while (shift.0 as u64) < rooms.0
        invariant
            1 <= max_depth <= MAX_LEVEL,
            convertible(conversion_type, *model, palette@),
            conversion_type != ConversionType::Default,
            frame == frame_size(model.size),
            1 <= frame < 2 * MAX_EXTENT,
            voxels == model.voxels@,
            depth == max_depth as nat,
            rooms.0 == frame - model.size.x,
            rooms.1 == frame - model.size.y,
            rooms.2 == frame - model.size.z,
            shift.0 <= rooms.0,
            shift.0 < rooms.0 ==> shift.1 < rooms.1 && shift.2 < rooms.2,
            shift.0 == rooms.0 ==> shift.1 == 0 && shift.2 == 0,
            best.wf(),
            best.depth_limit() == max_depth,
            best_size == best@.len(),
            shift_in_frame(conversion_type, model.size, best_shift),
            best@ == framed(voxels, model.size, palette@, depth, best_shift),
            forall|other: (u32, u32, u32)|
                shift_in_frame(conversion_type, model.size, other) && tried_before(other, shift)
                    ==> kept_over(
                    conversion_type,
                    best_size as nat,
                    best_shift,
                    (#[trigger] framed(voxels, model.size, palette@, depth, other)).len(),
                    other,
                ),
        decreases rooms.0 - shift.0, rooms.1 - shift.1, rooms.2 - shift.2,
    {
        let tree = shifted_tree(model, max_depth, shift, frame, palette);
        let size = tree.size();
        let replace = conversion_type.prefers(size, best_size);
        let ghost tried = shift;
        let ghost old_shift = best_shift;
        let ghost old_size = best_size;
        if replace {
            best = tree;
            best_size = size;
            proof {
                best_shift = shift;
            }
        }
        shift = next_shift(shift, rooms);
        proof {
            assert forall|other: (u32, u32, u32)|
                shift_in_frame(conversion_type, model.size, other) && tried_before(
                    other,
                    shift,
                ) implies kept_over(
                conversion_type,
                best_size as nat,
                best_shift,
                (#[trigger] framed(voxels, model.size, palette@, depth, other)).len(),
                other,
            ) by {
                assert(tried_before(other, tried) || other == tried);
                if other != tried {
                    assert(kept_over(
                        conversion_type,
                        old_size as nat,
                        old_shift,
                        framed(voxels, model.size, palette@, depth, other).len(),
                        other,
                    ));
                }
            }
        }
    }
    proof {
        assert forall|other: (u32, u32, u32)|
            shift_in_frame(conversion_type, model.size, other) implies kept_over(
            conversion_type,
            best@.len(),
            best_shift,
            (#[trigger] framed(voxels, model.size, palette@, depth, other)).len(),
            other,
        ) by {
            assert(tried_before(other, shift));
        }
    }
    best
}

/// The trees of the models of a file, one for each model, in their order.
pub fn vox_to_octrees(data: DotVoxData, max_depth: u32, conversion_type: ConversionType) -> (trees:
    Vec<Octree<u32>>)
    requires
        1 <= max_depth <= MAX_LEVEL,
        forall|m: int|
            0 <= m < data.models.len() ==> convertible(
                conversion_type,
                #[trigger] data.models@[m],
                data.palette@,
            ),
    ensures
        trees.len() == data.models.len(),
        forall|m: int|
            0 <= m < trees.len() ==> {
                &&& (#[trigger] trees@[m]).wf()
                &&& trees@[m].depth_limit() == max_depth
                &&& kept(
                    conversion_type,
                    data.models@[m].voxels@,
                    data.models@[m].size,
                    data.palette@,
                    max_depth as nat,
                    trees@[m]@,
                )
            },
{
    let mut trees: Vec<Octree<u32>> = Vec::new();
    let mut m: usize = 0;
    while m < data.models.len()
        invariant
            1 <= max_depth <= MAX_LEVEL,
            forall|m: int|
                0 <= m < data.models.len() ==> convertible(
                    conversion_type,
                    #[trigger] data.models@[m],
                    data.palette@,
                ),
            m <= data.models.len(),
            trees.len() == m,
            forall|j: int|
                0 <= j < m ==> {
                    &&& (#[trigger] trees@[j]).wf()
                    &&& trees@[j].depth_limit() == max_depth
                    &&& kept(
                        conversion_type,
                        data.models@[j].voxels@,
                        data.models@[j].size,
                        data.palette@,
                        max_depth as nat,
                        trees@[j]@,
                    )
                },
        decreases data.models.len() - m,
    {
        let tree = frame_model(
            &data.models[m],
            max_depth,
            conversion_type,
            data.palette.as_slice(),
        );
        trees.push(tree);
        m += 1;
    }
    trees
}

} // verus!
