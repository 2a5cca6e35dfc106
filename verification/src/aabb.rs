//! Axis-aligned boxes and the cuts that sort them into octants.
//!
//! Bounds are whole numbers of units, of which the unit cube has `UNIT`
//! along each axis, so every cut and every comparison is exact.
use vstd::prelude::*;
use vstd::std_specs::cmp::PartialOrdSpec;
use core::cmp::Ordering;
use crate::loc_code::UNIT;
use crate::orientation::Orientation;

verus! {

#[derive(Debug, Clone, Copy, PartialEq, Eq, Structural)]
pub enum PlaneAxis {
    X,
    Y,
    Z,
}

/// A plane at right angles to an axis, at a coordinate on that axis.
#[derive(Debug, Clone, Copy)]
pub struct Plane(pub u64, pub PlaneAxis);

/// The smaller of two values; the first when neither is greater.
pub fn min<T: PartialOrd>(a: T, b: T) -> (least: T)
    ensures
        T::obeys_partial_cmp_spec() ==> least == (if a.partial_cmp_spec(&b) == Some(
            Ordering::Greater,
        ) {
            b
        } else {
            a
        }),
{
    if a > b {
        b
    } else {
        a
    }
}

/// The larger of two values; the first when it is not less.
pub fn max<T: PartialOrd>(a: T, b: T) -> (most: T)
    ensures
        T::obeys_partial_cmp_spec() ==> most == (if a.partial_cmp_spec(&b) == Some(
            Ordering::Less,
        ) {
            b
        } else {
            a
        }),
{
    if a < b {
        b
    } else {
        a
    }
}

/// A box as a mathematical value: its lower and upper bound along each
/// axis, and the octant tag it has gathered so far.
pub struct Cuboid {
    pub x1: int,
    pub y1: int,
    pub z1: int,
    pub x2: int,
    pub y2: int,
    pub z2: int,
    pub orientation: Orientation,
}

/// Edge of a cell at `level`: the unit cube halved once per level.
pub open spec fn cell_edge(level: nat) -> int
    decreases level,
{
    if level == 0 {
        0x1_0000_0000
    } else {
        cell_edge((level - 1) as nat) / 2
    }
}

/// A bound rescaled so that `by` becomes the extent of the unit cube.
pub open spec fn rescaled(bound: int, by: int) -> int {
    bound * 0x1_0000_0000 / by
}

impl Cuboid {
    /// The box that spans two opposite corners, given in any order.
    pub open spec fn spanning(x1: int, y1: int, z1: int, x2: int, y2: int, z2: int) -> Cuboid {
        Cuboid {
            x1: if x1 <= x2 { x1 } else { x2 },
            y1: if y1 <= y2 { y1 } else { y2 },
            z1: if z1 <= z2 { z1 } else { z2 },
            x2: if x1 <= x2 { x2 } else { x1 },
            y2: if y1 <= y2 { y2 } else { y1 },
            z2: if z1 <= z2 { z2 } else { z1 },
            orientation: Orientation::N,
        }
    }

    /// Lower bounds are not negative and do not exceed upper bounds.
    pub open spec fn wf(self) -> bool {
        &&& 0 <= self.x1 <= self.x2
        &&& 0 <= self.y1 <= self.y2
        &&& 0 <= self.z1 <= self.z2
    }

    /// The box moved by an offset along each axis, under the same tag.
    pub open spec fn shifted(self, offset: (int, int, int)) -> Cuboid {
        Cuboid {
            x1: self.x1 + offset.0,
            y1: self.y1 + offset.1,
            z1: self.z1 + offset.2,
            x2: self.x2 + offset.0,
            y2: self.y2 + offset.1,
            z2: self.z2 + offset.2,
            orientation: self.orientation,
        }
    }

    /// The box with the bounds along each axis rescaled by the entry of
    /// `by` for that axis, under the neutral tag.
    pub open spec fn scaled(self, by: (int, int, int)) -> Cuboid {
        Cuboid {
            x1: rescaled(self.x1, by.0),
            y1: rescaled(self.y1, by.1),
            z1: rescaled(self.z1, by.2),
            x2: rescaled(self.x2, by.0),
            y2: rescaled(self.y2, by.1),
            z2: rescaled(self.z2, by.2),
            orientation: Orientation::N,
        }
    }

    /// The same box under another tag.
    pub open spec fn tagged(self, orientation: Orientation) -> Cuboid {
        Cuboid { orientation, ..self }
    }

    pub open spec fn volume(self) -> int {
        (self.x2 - self.x1) * (self.y2 - self.y1) * (self.z2 - self.z1)
    }

    /// Whether a point lies in the box, lower faces included and upper
    /// faces left out.
    pub open spec fn holds(self, x: int, y: int, z: int) -> bool {
        &&& self.x1 <= x < self.x2
        &&& self.y1 <= y < self.y2
        &&& self.z1 <= z < self.z2
    }

    /// The box lies in the unit cube.
    pub open spec fn in_unit_cube(self) -> bool {
        self.x2 <= UNIT && self.y2 <= UNIT && self.z2 <= UNIT
    }

    /// The parts of the box on the two sides of a plane, lower side first.
    /// A box that the plane does not cross in its interior stays whole: on
    /// the lower side when it ends at or before the plane, on the upper
    /// side otherwise.  Each part adds its side to the tag of the box.
    pub open spec fn sliced(self, axis: PlaneAxis, at: int) -> Seq<Cuboid> {
        let tag = self.orientation;
        match axis {
            PlaneAxis::X => if self.x1 < at && self.x2 > at {
                seq![
                    Cuboid { x2: at, orientation: tag.compose(Orientation::L), ..self },
                    Cuboid { x1: at, orientation: tag.compose(Orientation::R), ..self },
                ]
            } else if self.x2 <= at {
                seq![self.tagged(tag.compose(Orientation::L))]
            } else {
                seq![self.tagged(tag.compose(Orientation::R))]
            },
            PlaneAxis::Y => if self.y1 < at && self.y2 > at {
                seq![
                    Cuboid { y2: at, orientation: tag.compose(Orientation::D), ..self },
                    Cuboid { y1: at, orientation: tag.compose(Orientation::U), ..self },
                ]
            } else if self.y2 <= at {
                seq![self.tagged(tag.compose(Orientation::D))]
            } else {
                seq![self.tagged(tag.compose(Orientation::U))]
            },
            PlaneAxis::Z => if self.z1 < at && self.z2 > at {
                seq![
                    Cuboid { z2: at, orientation: tag.compose(Orientation::B), ..self },
                    Cuboid { z1: at, orientation: tag.compose(Orientation::F), ..self },
                ]
            } else if self.z2 <= at {
                seq![self.tagged(tag.compose(Orientation::B))]
            } else {
                seq![self.tagged(tag.compose(Orientation::F))]
            },
        }
    }

    /// The parts of the box in the octants around `center`: the box cut by
    /// the X plane, each part by the Y plane, and each of those by the Z
    /// plane, all three through `center`.
    pub open spec fn exploded(self, center: (int, int, int)) -> Seq<Cuboid> {
        spread(
            spread(self.sliced(PlaneAxis::X, center.0), PlaneAxis::Y, center.1),
            PlaneAxis::Z,
            center.2,
        )
    }

    /// Whether the box is accepted as a leaf at `depth`: it is a cube with
    /// the edge of a cell at that depth, or the depth is the deepest allowed.
    pub open spec fn fits(self, depth: nat, max_depth: nat) -> bool {
        ||| {
            &&& depth <= 32
            &&& self.x2 - self.x1 == cell_edge(depth)
            &&& self.y2 - self.y1 == cell_edge(depth)
            &&& self.z2 - self.z1 == cell_edge(depth)
        }
        ||| depth == max_depth
    }
}

/// The parts of each box of a sequence on the two sides of one plane, in
/// the order of the boxes.
pub open spec fn spread(boxes: Seq<Cuboid>, axis: PlaneAxis, at: int) -> Seq<Cuboid>
    decreases boxes.len(),
{
    if boxes.len() == 0 {
        Seq::empty()
    } else {
        spread(boxes.drop_last(), axis, at) + boxes.last().sliced(axis, at)
    }
}

/// Every part that `spread` gives was cut from one of the boxes.
pub(crate) proof fn lemma_spread_parts(boxes: Seq<Cuboid>, axis: PlaneAxis, at: int)
    ensures
        forall|k: int|
            0 <= k < spread(boxes, axis, at).len() ==> exists|j: int|
                0 <= j < boxes.len() && (#[trigger] boxes[j]).sliced(axis, at).contains(
                    #[trigger] spread(boxes, axis, at)[k],
                ),
    decreases boxes.len(),
{
    if boxes.len() > 0 {
        let front = boxes.drop_last();
        lemma_spread_parts(front, axis, at);
        let parts = spread(boxes, axis, at);
        let head = spread(front, axis, at);
        assert forall|k: int| 0 <= k < parts.len() implies exists|j: int|
            0 <= j < boxes.len() && (#[trigger] boxes[j]).sliced(axis, at).contains(
                #[trigger] parts[k],
            ) by {
            if k < head.len() {
                let j = choose|j: int|
                    0 <= j < front.len() && (#[trigger] front[j]).sliced(axis, at).contains(
                        head[k],
                    );
                assert(boxes[j] == front[j]);
            } else {
                let last = boxes.len() - 1;
                assert(boxes[last].sliced(axis, at)[k - head.len()] == parts[k]);
            }
        }
    }
}

/// The tag of the lower side of the plane across an axis.
pub open spec fn lower_tag(axis: PlaneAxis) -> Orientation {
    match axis {
        PlaneAxis::X => Orientation::L,
        PlaneAxis::Y => Orientation::D,
        PlaneAxis::Z => Orientation::B,
    }
}

/// The tag of the upper side of the plane across an axis.
pub open spec fn upper_tag(axis: PlaneAxis) -> Orientation {
    match axis {
        PlaneAxis::X => Orientation::R,
        PlaneAxis::Y => Orientation::U,
        PlaneAxis::Z => Orientation::F,
    }
}

impl Cuboid {
    /// The box lies within another.
    pub open spec fn within(self, outer: Cuboid) -> bool {
        &&& outer.x1 <= self.x1 && self.x2 <= outer.x2
        &&& outer.y1 <= self.y1 && self.y2 <= outer.y2
        &&& outer.z1 <= self.z1 && self.z2 <= outer.z2
    }
}

/// A part cut from a box is well formed, lies within the box, and adds the
/// tag of its side to the tag of the box.
pub(crate) proof fn lemma_sliced_part(b: Cuboid, axis: PlaneAxis, at: int, part: Cuboid)
    requires
        b.wf(),
        b.sliced(axis, at).contains(part),
    ensures
        part.wf(),
        part.within(b),
        part.orientation == b.orientation.compose(lower_tag(axis)) || part.orientation
            == b.orientation.compose(upper_tag(axis)),
{
    let parts = b.sliced(axis, at);
    let t = choose|t: int| 0 <= t < parts.len() && parts[t] == part;
    assert(parts[t] == part);
}

/// A tag that went through a cut across each axis names a corner.
pub(crate) proof fn lemma_cut_thrice(tag: Orientation, x: Orientation, y: Orientation, z: Orientation)
    requires
        x == Orientation::L || x == Orientation::R,
        y == Orientation::D || y == Orientation::U,
        z == Orientation::B || z == Orientation::F,
    ensures
        tag.compose(x).compose(y).compose(z).is_corner(),
{
}

/// Every part of an exploded box is well formed, lies within the box, and
/// is tagged with a corner.
pub proof fn lemma_exploded_parts(b: Cuboid, center: (int, int, int))
    requires
        b.wf(),
    ensures
        forall|k: int|
            0 <= k < b.exploded(center).len() ==> {
                let part = #[trigger] b.exploded(center)[k];
                &&& part.wf()
                &&& part.orientation.is_corner()
                &&& part.within(b)
            },
{
    let along_x = b.sliced(PlaneAxis::X, center.0);
    let along_y = spread(along_x, PlaneAxis::Y, center.1);
    let parts = b.exploded(center);
    lemma_spread_parts(along_x, PlaneAxis::Y, center.1);
    lemma_spread_parts(along_y, PlaneAxis::Z, center.2);
    assert forall|k: int| 0 <= k < parts.len() implies {
        let part = #[trigger] parts[k];
        &&& part.wf()
        &&& part.orientation.is_corner()
        &&& part.within(b)
    } by {
        let part = parts[k];
        let j = choose|j: int|
            0 <= j < along_y.len() && (#[trigger] along_y[j]).sliced(
                PlaneAxis::Z,
                center.2,
            ).contains(part);
        let slab = along_y[j];
        let i = choose|i: int|
            0 <= i < along_x.len() && (#[trigger] along_x[i]).sliced(
                PlaneAxis::Y,
                center.1,
            ).contains(slab);
        let half = along_x[i];
        lemma_sliced_part(b, PlaneAxis::X, center.0, half);
        lemma_sliced_part(half, PlaneAxis::Y, center.1, slab);
        lemma_sliced_part(slab, PlaneAxis::Z, center.2, part);
        lemma_cut_thrice(
            b.orientation,
            if half.orientation == b.orientation.compose(Orientation::L) {
                Orientation::L
            } else {
                Orientation::R
            },
            if slab.orientation == half.orientation.compose(Orientation::D) {
                Orientation::D
            } else {
                Orientation::U
            },
            if part.orientation == slab.orientation.compose(Orientation::B) {
                Orientation::B
            } else {
                Orientation::F
            },
        );
    }
}

/// Sum of the volumes of the boxes of a sequence.
pub open spec fn total_volume(boxes: Seq<Cuboid>) -> int
    decreases boxes.len(),
{
    if boxes.len() == 0 {
        0
    } else {
        total_volume(boxes.drop_last()) + boxes.last().volume()
    }
}

/// Number of boxes of a sequence in which a point lies.
pub open spec fn holders(boxes: Seq<Cuboid>, x: int, y: int, z: int) -> nat
    decreases boxes.len(),
{
    if boxes.len() == 0 {
        0
    } else {
        holders(boxes.drop_last(), x, y, z) + if boxes.last().holds(x, y, z) {
            1nat
        } else {
            0nat
        }
    }
}

/// Volumes and holders add up over sequences put end to end.
pub(crate) proof fn lemma_joined(front: Seq<Cuboid>, back: Seq<Cuboid>, x: int, y: int, z: int)
    ensures
        total_volume(front + back) == total_volume(front) + total_volume(back),
        holders(front + back, x, y, z) == holders(front, x, y, z) + holders(back, x, y, z),
    decreases back.len(),
{
    if back.len() == 0 {
        assert(front + back =~= front);
    } else {
        lemma_joined(front, back.drop_last(), x, y, z);
        assert((front + back).drop_last() =~= front + back.drop_last());
        assert((front + back).last() == back.last());
    }
}

/// The parts cut from a box have the volume of the box between them, and
/// a point lies in exactly one of them when it lies in the box, and in
/// none when it does not.
pub(crate) proof fn lemma_sliced_partition(b: Cuboid, axis: PlaneAxis, at: int, x: int, y: int, z: int)
    requires
        b.wf(),
    ensures
        total_volume(b.sliced(axis, at)) == b.volume(),
        holders(b.sliced(axis, at), x, y, z) == if b.holds(x, y, z) {
            1nat
        } else {
            0nat
        },
{
    let parts = b.sliced(axis, at);
    reveal_with_fuel(total_volume, 3);
    reveal_with_fuel(holders, 3);
    if parts.len() == 2 {
        assert(parts.drop_last().last() == parts[0]);
        assert(parts.drop_last().drop_last().len() == 0);
        let w = b.x2 - b.x1;
        let h = b.y2 - b.y1;
        let d = b.z2 - b.z1;
        assert(parts[0].volume() + parts[1].volume() == b.volume()) by {
            match axis {
                PlaneAxis::X => {
                    assert((at - b.x1) * h * d + (b.x2 - at) * h * d == w * h * d)
                        by (nonlinear_arith)
                        requires
                            w == b.x2 - b.x1,
                    ;
                },
                PlaneAxis::Y => {
                    assert(w * (at - b.y1) * d + w * (b.y2 - at) * d == w * h * d)
                        by (nonlinear_arith)
                        requires
                            h == b.y2 - b.y1,
                    ;
                },
                PlaneAxis::Z => {
                    assert(w * h * (at - b.z1) + w * h * (b.z2 - at) == w * h * d)
                        by (nonlinear_arith)
                        requires
                            d == b.z2 - b.z1,
                    ;
                },
            }
        }
    } else {
        assert(parts.drop_last().len() == 0);
    }
}

/// Cutting every box of a sequence at one plane keeps the total volume,
/// and keeps the number of boxes in which a point lies.
pub(crate) proof fn lemma_spread_partition(
    boxes: Seq<Cuboid>,
    axis: PlaneAxis,
    at: int,
    x: int,
    y: int,
    z: int,
)
    requires
        forall|k: int| 0 <= k < boxes.len() ==> (#[trigger] boxes[k]).wf(),
    ensures
        total_volume(spread(boxes, axis, at)) == total_volume(boxes),
        holders(spread(boxes, axis, at), x, y, z) == holders(boxes, x, y, z),
        forall|k: int|
            0 <= k < spread(boxes, axis, at).len() ==> (#[trigger] spread(boxes, axis, at)[k]).wf(),
    decreases boxes.len(),
{
    if boxes.len() > 0 {
        let front = boxes.drop_last();
        assert forall|k: int| 0 <= k < front.len() implies (#[trigger] front[k]).wf() by {
            assert(front[k] == boxes[k]);
        }
        lemma_spread_partition(front, axis, at, x, y, z);
        assert(boxes.last() == boxes[boxes.len() - 1]);
        lemma_sliced_partition(boxes.last(), axis, at, x, y, z);
        lemma_joined(spread(front, axis, at), boxes.last().sliced(axis, at), x, y, z);
        lemma_spread_parts(boxes, axis, at);
        assert forall|k: int| 0 <= k < spread(boxes, axis, at).len() implies (#[trigger] spread(
            boxes,
            axis,
            at,
        )[k]).wf() by {
            let part = spread(boxes, axis, at)[k];
            let j = choose|j: int|
                0 <= j < boxes.len() && (#[trigger] boxes[j]).sliced(axis, at).contains(part);
            lemma_sliced_part(boxes[j], axis, at, part);
        }
    }
}

/// The parts of an exploded box divide the box among them: their volumes
/// add up to the volume of the box, and a point lies in exactly one part
/// when it lies in the box, and in none when it does not.
pub proof fn lemma_exploded_partition(b: Cuboid, center: (int, int, int), x: int, y: int, z: int)
    requires
        b.wf(),
    ensures
        total_volume(b.exploded(center)) == b.volume(),
        holders(b.exploded(center), x, y, z) == if b.holds(x, y, z) {
            1nat
        } else {
            0nat
        },
{
    let along_x = b.sliced(PlaneAxis::X, center.0);
    let along_y = spread(along_x, PlaneAxis::Y, center.1);
    lemma_sliced_partition(b, PlaneAxis::X, center.0, x, y, z);
    assert forall|k: int| 0 <= k < along_x.len() implies (#[trigger] along_x[k]).wf() by {
        lemma_sliced_part(b, PlaneAxis::X, center.0, along_x[k]);
    }
    lemma_spread_partition(along_x, PlaneAxis::Y, center.1, x, y, z);
    lemma_spread_partition(along_y, PlaneAxis::Z, center.2, x, y, z);
}

/// The side of a tag along an axis.
#[verifier::opaque]
pub open spec fn side_along(tag: Orientation, axis: PlaneAxis) -> int {
    match axis {
        PlaneAxis::X => tag.x_side(),
        PlaneAxis::Y => tag.y_side(),
        PlaneAxis::Z => tag.z_side(),
    }
}

/// The weight of an axis in the order of tags: cuts across X come first,
/// then those across Y, then those across Z.
pub open spec fn axis_weight(axis: PlaneAxis) -> int {
    match axis {
        PlaneAxis::X => 9,
        PlaneAxis::Y => 3,
        PlaneAxis::Z => 1,
    }
}

/// The place of a tag in the order in which parts come out of the cuts.
#[verifier::opaque]
pub open spec fn tag_rank(tag: Orientation) -> int {
    9 * tag.x_side() + 3 * tag.y_side() + tag.z_side()
}

/// The tags of a sequence of boxes rise by at least `gap` from each box
/// to the next.
pub open spec fn ranked(boxes: Seq<Cuboid>, gap: int) -> bool {
    forall|i: int, j: int|
        0 <= i < j < boxes.len() ==> tag_rank((#[trigger] boxes[i]).orientation) + gap
            <= tag_rank((#[trigger] boxes[j]).orientation)
}

/// What a cut across an axis does to a tag that leaves the axis open: the
/// tag of a part fixes that axis and no other, and lies next to the tag of
/// the box in the order of tags, by the weight of the axis.
pub open spec fn cut_from(part: Orientation, whole: Orientation, axis: PlaneAxis) -> bool {
    &&& side_along(part, axis) != 0
    &&& forall|other: PlaneAxis|
        other != axis ==> #[trigger] side_along(part, other) == side_along(whole, other)
    &&& tag_rank(whole) - axis_weight(axis) <= tag_rank(part) <= tag_rank(whole) + axis_weight(
        axis,
    )
}

/// The parts cut from a box whose tag leaves the axis open come out lower
/// side first, each with the side it lies on added to the tag.
pub(crate) proof fn lemma_sliced_ranks(b: Cuboid, axis: PlaneAxis, at: int)
    requires
        side_along(b.orientation, axis) == 0,
    ensures
        ranked(b.sliced(axis, at), 2 * axis_weight(axis)),
        forall|k: int|
            0 <= k < b.sliced(axis, at).len() ==> cut_from(
                (#[trigger] b.sliced(axis, at)[k]).orientation,
                b.orientation,
                axis,
            ),
{
    reveal(side_along);
    reveal(tag_rank);
    let parts = b.sliced(axis, at);
    let lower = b.orientation.compose(lower_tag(axis));
    let upper = b.orientation.compose(upper_tag(axis));
    assert(cut_from(lower, b.orientation, axis) && cut_from(upper, b.orientation, axis)
        && tag_rank(lower) + 2 * axis_weight(axis) == tag_rank(upper)) by {
        lemma_cut_tags(b.orientation, axis);
    }
    assert forall|k: int| 0 <= k < parts.len() implies (#[trigger] parts[k]).orientation == lower
        || parts[k].orientation == upper by {}
    assert(parts.len() == 2 ==> parts[0].orientation == lower && parts[1].orientation == upper);
}

/// The two tags that a cut across an axis makes of a tag that leaves the
/// axis open.
pub(crate) proof fn lemma_cut_tags(tag: Orientation, axis: PlaneAxis)
    requires
        side_along(tag, axis) == 0,
    ensures
        cut_from(tag.compose(lower_tag(axis)), tag, axis),
        cut_from(tag.compose(upper_tag(axis)), tag, axis),
        tag_rank(tag.compose(lower_tag(axis))) + 2 * axis_weight(axis) == tag_rank(
            tag.compose(upper_tag(axis)),
        ),
{
    reveal(side_along);
    reveal(tag_rank);
    let lower = tag.compose(lower_tag(axis));
    let upper = tag.compose(upper_tag(axis));
    assert(lower.x_side() == tag.x_side() + lower_tag(axis).x_side());
    assert(lower.y_side() == tag.y_side() + lower_tag(axis).y_side());
    assert(lower.z_side() == tag.z_side() + lower_tag(axis).z_side());
    assert(upper.x_side() == tag.x_side() + upper_tag(axis).x_side());
    assert(upper.y_side() == tag.y_side() + upper_tag(axis).y_side());
    assert(upper.z_side() == tag.z_side() + upper_tag(axis).z_side());
    assert forall|other: PlaneAxis| other != axis implies #[trigger] side_along(lower, other)
        == side_along(tag, other) && side_along(upper, other) == side_along(tag, other) by {}
}

/// When the tags of a sequence of boxes leave an axis open and rise by
/// three times the weight of that axis from box to box, the tags of the
/// parts cut across that axis rise by the weight of the axis.
pub(crate) proof fn lemma_spread_ranks(boxes: Seq<Cuboid>, axis: PlaneAxis, at: int)
    requires
        forall|k: int|
            0 <= k < boxes.len() ==> side_along((#[trigger] boxes[k]).orientation, axis) == 0,
        ranked(boxes, 3 * axis_weight(axis)),
    ensures
        ranked(spread(boxes, axis, at), axis_weight(axis)),
        forall|k: int|
            0 <= k < spread(boxes, axis, at).len() ==> exists|i: int|
                0 <= i < boxes.len() && cut_from(
                    (#[trigger] spread(boxes, axis, at)[k]).orientation,
                    (#[trigger] boxes[i]).orientation,
                    axis,
                ),
    decreases boxes.len(),
{
    if boxes.len() > 0 {
        let front = boxes.drop_last();
        let last = boxes.last();
        let weight = axis_weight(axis);
        assert(last == boxes[boxes.len() - 1]);
        assert forall|k: int| 0 <= k < front.len() implies front[k] == boxes[k] by {}
        lemma_spread_ranks(front, axis, at);
        lemma_sliced_ranks(last, axis, at);
        let head = spread(front, axis, at);
        let tail = last.sliced(axis, at);
        let parts = spread(boxes, axis, at);
        assert(parts == head + tail);
        assert forall|k: int| 0 <= k < parts.len() implies exists|i: int|
            0 <= i < boxes.len() && cut_from(
                (#[trigger] parts[k]).orientation,
                (#[trigger] boxes[i]).orientation,
                axis,
            ) by {
            if k < head.len() {
                assert(parts[k] == head[k]);
                let i = choose|i: int|
                    0 <= i < front.len() && cut_from(
                        head[k].orientation,
                        (#[trigger] front[i]).orientation,
                        axis,
                    );
                assert(cut_from(parts[k].orientation, boxes[i].orientation, axis));
            } else {
                assert(parts[k] == tail[k - head.len()]);
                assert(cut_from(parts[k].orientation, boxes[boxes.len() - 1].orientation, axis));
            }
        }
        assert forall|i: int, j: int| 0 <= i < j < parts.len() implies tag_rank(
            (#[trigger] parts[i]).orientation,
        ) + weight <= tag_rank((#[trigger] parts[j]).orientation) by {
            if j < head.len() {
                assert(parts[i] == head[i] && parts[j] == head[j]);
            } else if i >= head.len() {
                assert(parts[i] == tail[i - head.len()] && parts[j] == tail[j - head.len()]);
            } else {
                assert(parts[i] == head[i] && parts[j] == tail[j - head.len()]);
                let source = choose|source: int|
                    0 <= source < front.len() && cut_from(
                        head[i].orientation,
                        (#[trigger] front[source]).orientation,
                        axis,
                    );
                assert(front[source] == boxes[source]);
                assert(tag_rank(boxes[source].orientation) + 3 * weight <= tag_rank(
                    boxes[boxes.len() - 1].orientation,
                ));
                assert(cut_from(tail[j - head.len()].orientation, last.orientation, axis));
            }
        }
    }
}

/// The parts of an exploded box under the neutral tag carry tags that
/// differ from part to part: no two parts lie in one octant.
pub proof fn lemma_exploded_tags_differ(b: Cuboid, center: (int, int, int))
    requires
        b.orientation == Orientation::N,
    ensures
        forall|i: int, j: int|
            0 <= i < j < b.exploded(center).len() ==> (
            #[trigger] b.exploded(center)[i]).orientation != (
            #[trigger] b.exploded(center)[j]).orientation,
{
    let along_x = b.sliced(PlaneAxis::X, center.0);
    let along_y = spread(along_x, PlaneAxis::Y, center.1);
    let parts = spread(along_y, PlaneAxis::Z, center.2);
    assert(side_along(b.orientation, PlaneAxis::X) == 0 && side_along(
        b.orientation,
        PlaneAxis::Y,
    ) == 0 && side_along(b.orientation, PlaneAxis::Z) == 0) by {
        reveal(side_along);
    }
    lemma_sliced_ranks(b, PlaneAxis::X, center.0);
    assert forall|k: int| 0 <= k < along_x.len() implies side_along(
        (#[trigger] along_x[k]).orientation,
        PlaneAxis::Y,
    ) == 0 && side_along(along_x[k].orientation, PlaneAxis::Z) == 0 by {
        assert(cut_from(along_x[k].orientation, b.orientation, PlaneAxis::X));
    }
    lemma_spread_ranks(along_x, PlaneAxis::Y, center.1);
    assert forall|k: int| 0 <= k < along_y.len() implies side_along(
        (#[trigger] along_y[k]).orientation,
        PlaneAxis::Z,
    ) == 0 by {
        let i = choose|i: int|
            0 <= i < along_x.len() && cut_from(
                along_y[k].orientation,
                (#[trigger] along_x[i]).orientation,
                PlaneAxis::Y,
            );
        assert(side_along(along_x[i].orientation, PlaneAxis::Z) == 0);
    }
    lemma_spread_ranks(along_y, PlaneAxis::Z, center.2);
    assert(ranked(parts, 1));
}

/// The box that spans two opposite corners with machine-word bounds.
pub open spec fn span_of(x1: u64, y1: u64, z1: u64, x2: u64, y2: u64, z2: u64) -> Cuboid {
    Cuboid::spanning(x1 as int, y1 as int, z1 as int, x2 as int, y2 as int, z2 as int)
}

/// The mathematical values of a sequence of boxes.
pub open spec fn views(boxes: Seq<AABB>) -> Seq<Cuboid> {
    boxes.map_values(|b: AABB| b@)
}

/// Cell edges are the powers of two from the unit downwards.
pub(crate) proof fn lemma_cell_edge_shift(level: u32)
    requires
        level <= 32,
    ensures
        cell_edge(level as nat) == (0x1_0000_0000u64 >> level) as int,
        cell_edge(level as nat) >= 1,
    decreases level,
{
    if level == 0 {
        assert(0x1_0000_0000u64 >> 0u32 == 0x1_0000_0000u64) by (bit_vector);
    } else {
        let above: u32 = (level - 1) as u32;
        lemma_cell_edge_shift(above);
        assert(above < 32 ==> (0x1_0000_0000u64 >> above) / 2 == 0x1_0000_0000u64 >> ((above
            + 1) as u32) && 0x1_0000_0000u64 >> ((above + 1) as u32) >= 1) by (bit_vector);
    }
}

#[derive(Debug, Clone, Copy)]
pub struct AABB {
    x1: u64,
    y1: u64,
    z1: u64,
    x2: u64,
    y2: u64,
    z2: u64,
    orientation: Orientation,
}

impl View for AABB {
    type V = Cuboid;

    closed spec fn view(&self) -> Cuboid {
        Cuboid {
            x1: self.x1 as int,
            y1: self.y1 as int,
            z1: self.z1 as int,
            x2: self.x2 as int,
            y2: self.y2 as int,
            z2: self.z2 as int,
            orientation: self.orientation,
        }
    }
}

impl AABB {
    /// Every box has its bounds in order.
    #[verifier::type_invariant]
    pub open spec fn inv(&self) -> bool {
        self@.wf() && self@.x2 <= u64::MAX && self@.y2 <= u64::MAX && self@.z2 <= u64::MAX
    }

    /// The box that spans two opposite corners, under the neutral tag.
    pub fn new(x1: u64, y1: u64, z1: u64, x2: u64, y2: u64, z2: u64) -> (made: AABB)
        ensures
            made@ == span_of(x1, y1, z1, x2, y2, z2),
            made.inv(),
    {
        AABB {
            x1: min(x1, x2),
            y1: min(y1, y2),
            z1: min(z1, z2),
            x2: max(x2, x1),
            y2: max(y1, y2),
            z2: max(z1, z2),
            orientation: Orientation::N,
        }
    }

    pub fn with_orientation(self, orientation: Orientation) -> (tagged: AABB)
        ensures
            tagged@ == self@.tagged(orientation),
            tagged.inv(),
    {
        proof {
            use_type_invariant(&self);
        }
        AABB { orientation, ..self }
    }

    pub fn orientation(&self) -> (tag: Orientation)
        ensures
            tag == self@.orientation,
    {
        self.orientation
    }

    /// Lower corner of the box.
    pub fn lower(&self) -> (corner: (u64, u64, u64))
        ensures
            corner.0 == self@.x1,
            corner.1 == self@.y1,
            corner.2 == self@.z1,
    {
        (self.x1, self.y1, self.z1)
    }

    /// Upper corner of the box.
    pub fn upper(&self) -> (corner: (u64, u64, u64))
        ensures
            corner.0 == self@.x2,
            corner.1 == self@.y2,
            corner.2 == self@.z2,
    {
        (self.x2, self.y2, self.z2)
    }

    /// Cuts the box at a plane.
    pub fn slice(self, plane: Plane) -> (pieces: Vec<AABB>)
        ensures
            views(pieces@) == self@.sliced(plane.1, plane.0 as int),
            1 <= pieces.len() <= 2,
    {
        proof {
            use_type_invariant(&self);
        }
        let orientation = self.orientation;
        let mut pieces: Vec<AABB> = Vec::new();
        match plane.1 {
            PlaneAxis::X => {
                if self.x1 < plane.0 && self.x2 > plane.0 {
                    pieces.push(
                        AABB::new(self.x1, self.y1, self.z1, plane.0, self.y2, self.z2)
                            .with_orientation(orientation | Orientation::L),
                    );
                    pieces.push(
                        AABB::new(plane.0, self.y1, self.z1, self.x2, self.y2, self.z2)
                            .with_orientation(orientation | Orientation::R),
                    );
                } else if self.x2 <= plane.0 {
                    pieces.push(self.with_orientation(orientation | Orientation::L));
                } else {
                    pieces.push(self.with_orientation(orientation | Orientation::R));
                }
            },
            PlaneAxis::Y => {
                if self.y1 < plane.0 && self.y2 > plane.0 {
                    pieces.push(
                        AABB::new(self.x1, self.y1, self.z1, self.x2, plane.0, self.z2)
                            .with_orientation(orientation | Orientation::D),
                    );
                    pieces.push(
                        AABB::new(self.x1, plane.0, self.z1, self.x2, self.y2, self.z2)
                            .with_orientation(orientation | Orientation::U),
                    );
                } else if self.y2 <= plane.0 {
                    pieces.push(self.with_orientation(orientation | Orientation::D));
                } else {
                    pieces.push(self.with_orientation(orientation | Orientation::U));
                }
            },
            PlaneAxis::Z => {
                if self.z1 < plane.0 && self.z2 > plane.0 {
                    pieces.push(
                        AABB::new(self.x1, self.y1, self.z1, self.x2, self.y2, plane.0)
                            .with_orientation(orientation | Orientation::B),
                    );
                    pieces.push(
                        AABB::new(self.x1, self.y1, plane.0, self.x2, self.y2, self.z2)
                            .with_orientation(orientation | Orientation::F),
                    );
                } else if self.z2 <= plane.0 {
                    pieces.push(self.with_orientation(orientation | Orientation::B));
                } else {
                    pieces.push(self.with_orientation(orientation | Orientation::F));
                }
            },
        }
        assert(views(pieces@) =~= self@.sliced(plane.1, plane.0 as int));
        pieces
    }

    /// Cuts the box into its parts in the octants around `center`.
    pub fn explode(self, center: (u64, u64, u64)) -> (pieces: Vec<AABB>)
        ensures
            views(pieces@) == self@.exploded((center.0 as int, center.1 as int, center.2 as int)),
    {
        let along_x = self.slice(Plane(center.0, PlaneAxis::X));
        let along_y = slice_each(&along_x, Plane(center.1, PlaneAxis::Y));
        slice_each(&along_y, Plane(center.2, PlaneAxis::Z))
    }

    /// The box moved by an offset along each axis.
    pub fn offset(self, offset: (u64, u64, u64)) -> (moved: AABB)
        requires
            self@.x2 + offset.0 <= u64::MAX,
            self@.y2 + offset.1 <= u64::MAX,
            self@.z2 + offset.2 <= u64::MAX,
        ensures
            moved@ == self@.shifted((offset.0 as int, offset.1 as int, offset.2 as int)),
            moved.inv(),
    {
        proof {
            use_type_invariant(&self);
        }
        AABB {
            x1: self.x1 + offset.0,
            y1: self.y1 + offset.1,
            z1: self.z1 + offset.2,
            x2: self.x2 + offset.0,
            y2: self.y2 + offset.1,
            z2: self.z2 + offset.2,
            orientation: self.orientation,
        }
    }

    /// The box with every bound rescaled so that its upper bound along X
    /// becomes the extent of the unit cube, under the neutral tag.
    pub fn normalize(self) -> (scaled: AABB)
        requires
            self@.x2 > 0,
            rescaled(self@.y2, self@.x2) <= u64::MAX,
            rescaled(self@.z2, self@.x2) <= u64::MAX,
        ensures
            scaled@ == self@.scaled((self@.x2, self@.x2, self@.x2)),
            scaled.inv(),
    {
        proof {
            use_type_invariant(&self);
            lemma_rescaled_ordered(self@.x1, self@.x2, self@.x2);
            lemma_rescaled_ordered(self@.y1, self@.y2, self@.x2);
            lemma_rescaled_ordered(self@.z1, self@.z2, self@.x2);
            lemma_rescaled_ordered(self@.x2, self@.x2, self@.x2);
            vstd::arithmetic::div_mod::lemma_div_multiples_vanish(0x1_0000_0000, self@.x2);
            assert(self@.x2 * 0x1_0000_0000 == 0x1_0000_0000 * self@.x2) by (nonlinear_arith);
        }
        let max_x = max(self.x1, self.x2);
        let max_y = max(self.x1, self.x2);
        let max_z = max(self.x1, self.x2);
        AABB::new(
            rescale(self.x1, max_x),
            rescale(self.y1, max_y),
            rescale(self.z1, max_z),
            rescale(self.x2, max_x),
            rescale(self.y2, max_y),
            rescale(self.z2, max_z),
        )
    }

    /// The box with the bounds along each axis rescaled so that the entry
    /// of `normalization_vector` for that axis becomes the extent of the
    /// unit cube, under the neutral tag.
    pub fn normalize_with(self, normalization_vector: (u64, u64, u64)) -> (scaled: AABB)
        requires
            normalization_vector.0 > 0,
            normalization_vector.1 > 0,
            normalization_vector.2 > 0,
            rescaled(self@.x2, normalization_vector.0 as int) <= u64::MAX,
            rescaled(self@.y2, normalization_vector.1 as int) <= u64::MAX,
            rescaled(self@.z2, normalization_vector.2 as int) <= u64::MAX,
        ensures
            scaled@ == self@.scaled(
                (
                    normalization_vector.0 as int,
                    normalization_vector.1 as int,
                    normalization_vector.2 as int,
                ),
            ),
            scaled.inv(),
    {
        proof {
            use_type_invariant(&self);
            lemma_rescaled_ordered(self@.x1, self@.x2, normalization_vector.0 as int);
            lemma_rescaled_ordered(self@.y1, self@.y2, normalization_vector.1 as int);
            lemma_rescaled_ordered(self@.z1, self@.z2, normalization_vector.2 as int);
        }
        AABB::new(
            rescale(self.x1, normalization_vector.0),
            rescale(self.y1, normalization_vector.1),
            rescale(self.z1, normalization_vector.2),
            rescale(self.x2, normalization_vector.0),
            rescale(self.y2, normalization_vector.1),
            rescale(self.z2, normalization_vector.2),
        )
    }

    /// Whether the box is accepted as a leaf at `depth`.
    pub fn fit_in(&self, depth: u32, max_depth: u32) -> (fitting: bool)
        ensures
            fitting == self@.fits(depth as nat, max_depth as nat),
    {
        proof {
            use_type_invariant(self);
        }
        if depth == max_depth {
            return true;
        }
        if depth > 32 {
            return false;
        }
        proof {
            lemma_cell_edge_shift(depth);
        }
        let edge_size: u64 = UNIT >> depth;
        self.x2 - self.x1 == edge_size && self.y2 - self.y1 == edge_size && self.z2 - self.z1
            == edge_size
    }
}

/// Rescaling keeps the order of bounds.
pub(crate) proof fn lemma_rescaled_ordered(low: int, high: int, by: int)
    requires
        0 <= low <= high,
        by > 0,
    ensures
        0 <= rescaled(low, by) <= rescaled(high, by),
{
    assert(0 <= low * 0x1_0000_0000 <= high * 0x1_0000_0000) by (nonlinear_arith)
        requires
            0 <= low <= high,
    ;
    vstd::arithmetic::div_mod::lemma_div_is_ordered(
        low * 0x1_0000_0000,
        high * 0x1_0000_0000,
        by,
    );
    vstd::arithmetic::div_mod::lemma_div_pos_is_pos(low * 0x1_0000_0000, by);
}

/// A bound rescaled so that `by` becomes the extent of the unit cube.
fn rescale(bound: u64, by: u64) -> (scaled: u64)
    requires
        by > 0,
        rescaled(bound as int, by as int) <= u64::MAX,
    ensures
        scaled == rescaled(bound as int, by as int),
{
    let wide: u128 = (bound as u128) * (UNIT as u128);
    (wide / (by as u128)) as u64
}

/// Cuts every box of a list at one plane.
fn slice_each(boxes: &Vec<AABB>, plane: Plane) -> (pieces: Vec<AABB>)
    ensures
        views(pieces@) == spread(views(boxes@), plane.1, plane.0 as int),
{
    let mut pieces: Vec<AABB> = Vec::new();
    let mut i: usize = 0;
    while i < boxes.len()
        invariant
            i <= boxes.len(),
            views(pieces@) == spread(views(boxes@).take(i as int), plane.1, plane.0 as int),
        decreases boxes.len() - i,
    {
        let mut parts = boxes[i].slice(plane);
        proof {
            let done = views(boxes@).take(i as int);
            let next = views(boxes@).take(i + 1);
            assert(next.drop_last() =~= done);
            assert(next.last() == boxes@[i as int]@);
            assert(views(pieces@ + parts@) =~= views(pieces@) + views(parts@));
        }
        pieces.append(&mut parts);
        i += 1;
    }
    assert(views(boxes@).take(i as int) =~= views(boxes@));
    pieces
}

} // verus!
