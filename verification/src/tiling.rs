//! Boxes on the grid of the deepest level, and the leaves that tile them.
use vstd::prelude::*;
use vstd::arithmetic::div_mod::{
    lemma_add_mod_noop, lemma_mod_self_0, lemma_small_mod, lemma_sub_mod_noop,
};
use crate::aabb::{
    Cuboid, PlaneAxis, cell_edge, holders, lemma_cell_edge_shift, lemma_exploded_partition,
    lemma_spread_parts, spread,
};
use crate::cells::{
    ancestor, antichain, below, cell_of, covered, lemma_ancestor_code, lemma_cell_holds_center,
    lemma_cell_nested, lemma_child_cell,
};
use crate::loc_code::{
    MAX_LEVEL, center_of, half_edge, is_code, lemma_child_is_code, lemma_code_has_room,
    lemma_half_edge_shift, lemma_level_bound, lemma_parent_is_code, level_of,
};
use crate::orientation::Orientation;
use crate::paint::{child_code, footprint, footprint_of};

verus! {

/// A coordinate lies on the grid whose lines are `edge` apart.
pub open spec fn on_grid(coordinate: int, edge: int) -> bool {
    coordinate % edge == 0
}

/// Every bound of a box lies on the grid of the cells of a level.
pub open spec fn aligned(b: Cuboid, level: nat) -> bool {
    let edge = cell_edge(level);
    &&& on_grid(b.x1, edge)
    &&& on_grid(b.y1, edge)
    &&& on_grid(b.z1, edge)
    &&& on_grid(b.x2, edge)
    &&& on_grid(b.y2, edge)
    &&& on_grid(b.z2, edge)
}

/// A box of positive extent along each axis.
pub open spec fn solid(b: Cuboid) -> bool {
    b.x1 < b.x2 && b.y1 < b.y2 && b.z1 < b.z2
}

/// Sums and differences of grid coordinates lie on the grid.
pub(crate) proof fn lemma_grid_sum(one: int, other: int, edge: int)
    requires
        edge > 0,
        on_grid(one, edge),
        on_grid(other, edge),
    ensures
        on_grid(one + other, edge),
        on_grid(one - other, edge),
{
    lemma_add_mod_noop(one, other, edge);
    lemma_sub_mod_noop(one, other, edge);
    assert(0int % edge == 0) by {
        lemma_small_mod(0, edge as nat);
    }
}

/// Between a grid line and the next lie no grid coordinates.
pub(crate) proof fn lemma_grid_gap(low: int, coordinate: int, edge: int)
    requires
        edge > 0,
        on_grid(low, edge),
        on_grid(coordinate, edge),
        low <= coordinate <= low + edge,
    ensures
        coordinate == low || coordinate == low + edge,
{
    lemma_grid_sum(coordinate, low, edge);
    let gap = coordinate - low;
    if gap < edge {
        lemma_small_mod(gap as nat, edge as nat);
    }
}

/// The edge of a cell is a whole number of edges of any deeper cell.
pub(crate) proof fn lemma_cell_edge_on_grid(level: nat, deeper: nat)
    requires
        level <= deeper <= 32,
    ensures
        cell_edge(deeper) >= 1,
        on_grid(cell_edge(level), cell_edge(deeper)),
    decreases deeper - level,
{
    lemma_cell_edge_shift(deeper as u32);
    if level == deeper {
        lemma_mod_self_0(cell_edge(deeper));
    } else {
        lemma_cell_edge_on_grid(level + 1, deeper);
        lemma_cell_edge_shift(level as u32);
        lemma_cell_edge_shift((level + 1) as u32);
        let below = cell_edge(level + 1);
        let shift: u32 = level as u32;
        assert(0x1_0000_0000u64 >> shift == 2 * (0x1_0000_0000u64 >> ((shift + 1) as u32)))
            by (bit_vector)
            requires
                shift < 32,
        ;
        assert(cell_edge(level) == below + below);
        lemma_grid_sum(below, below, cell_edge(deeper));
    }
}

/// Half the edge of a cell is the edge of the cells one level down.
pub(crate) proof fn lemma_half_is_edge_below(level: nat)
    requires
        level <= 31,
    ensures
        half_edge(level) == cell_edge(level + 1),
        2 * half_edge(level) == cell_edge(level),
{
    lemma_half_edge_shift(level as u32);
    lemma_cell_edge_shift(level as u32);
    lemma_cell_edge_shift((level + 1) as u32);
    let shift: u32 = level as u32;
    assert(0x1_0000_0000u64 >> ((shift + 1) as u32) == (0x8000_0000u32 >> shift) as u64
        && 0x1_0000_0000u64 >> shift == 2 * ((0x8000_0000u32 >> shift) as u64)) by (bit_vector)
        requires
            shift <= 31,
    ;
}

/// The center of a cell above a level lies on the grid of that level,
/// and so do the bounds of a cell at or above the level.
pub(crate) proof fn lemma_cell_on_grid(code: u64, level: nat)
    requires
        is_code(code),
        level_of(code) <= level <= MAX_LEVEL,
    ensures
        aligned(cell_of(code), level),
        level_of(code) < level ==> {
            &&& on_grid(center_of(code).0, cell_edge(level))
            &&& on_grid(center_of(code).1, cell_edge(level))
            &&& on_grid(center_of(code).2, cell_edge(level))
        },
    decreases code,
{
    let edge = cell_edge(level);
    lemma_cell_edge_on_grid(0, level);
    if code == 1 {
        assert(0int % edge == 0) by {
            lemma_small_mod(0, edge as nat);
        }
        if 0 < level {
            lemma_cell_edge_on_grid(1, level);
            assert(cell_edge(1) == 0x8000_0000) by {
                reveal_with_fuel(cell_edge, 2);
            }
        }
    } else {
        lemma_parent_is_code(code);
        let parent = code / 8;
        lemma_cell_on_grid(parent, level);
        lemma_level_bound(parent);
        lemma_code_has_room(parent);
        assert(child_code(parent, (code % 8) as int) == code);
        lemma_child_cell(parent, (code % 8) as u8);
        if level_of(code) < level {
            lemma_half_is_edge_below(level_of(code));
            lemma_cell_edge_on_grid(level_of(code) + 1, level);
            let step = half_edge(level_of(code));
            let above = center_of(parent);
            lemma_grid_sum(above.0, step, edge);
            lemma_grid_sum(above.1, step, edge);
            lemma_grid_sum(above.2, step, edge);
        }
    }
}

/// A solid box on the grid of a level that lies within a cell of that
/// level is the whole cell.
pub(crate) proof fn lemma_fills_cell(b: Cuboid, code: u64)
    requires
        is_code(code),
        level_of(code) <= MAX_LEVEL,
        solid(b),
        aligned(b, level_of(code)),
        b.within(cell_of(code)),
    ensures
        b.x1 == cell_of(code).x1,
        b.y1 == cell_of(code).y1,
        b.z1 == cell_of(code).z1,
        b.x2 == cell_of(code).x2,
        b.y2 == cell_of(code).y2,
        b.z2 == cell_of(code).z2,
        b.x2 - b.x1 == cell_edge(level_of(code)),
{
    let level = level_of(code);
    let edge = cell_edge(level);
    let cell = cell_of(code);
    lemma_cell_on_grid(code, level);
    lemma_half_is_edge_below(level);
    lemma_cell_edge_on_grid(level, level);
    lemma_grid_gap(cell.x1, b.x1, edge);
    lemma_grid_gap(cell.x1, b.x2, edge);
    lemma_grid_gap(cell.y1, b.y1, edge);
    lemma_grid_gap(cell.y1, b.y2, edge);
    lemma_grid_gap(cell.z1, b.z1, edge);
    lemma_grid_gap(cell.z1, b.z2, edge);
}

/// A point lies in a box of the sequence.
pub open spec fn held(boxes: Seq<Cuboid>, x: int, y: int, z: int) -> bool {
    exists|k: int| 0 <= k < boxes.len() && (#[trigger] boxes[k]).holds(x, y, z)
}

/// No point lies in two boxes of the sequence.
pub open spec fn disjoint(boxes: Seq<Cuboid>) -> bool {
    forall|i: int, j: int, x: int, y: int, z: int|
        0 <= i < j < boxes.len() ==> !(#[trigger] boxes[i].holds(x, y, z)
            && #[trigger] boxes[j].holds(x, y, z))
}

/// The number of boxes in which a point lies counts every such box.
pub(crate) proof fn lemma_holders_count(boxes: Seq<Cuboid>, x: int, y: int, z: int)
    ensures
        holders(boxes, x, y, z) >= 1 <==> held(boxes, x, y, z),
        forall|i: int, j: int|
            0 <= i < j < boxes.len() && (#[trigger] boxes[i]).holds(x, y, z) && (
            #[trigger] boxes[j]).holds(x, y, z) ==> holders(boxes, x, y, z) >= 2,
    decreases boxes.len(),
{
    if boxes.len() > 0 {
        let front = boxes.drop_last();
        lemma_holders_count(front, x, y, z);
        if held(front, x, y, z) {
            let k = choose|k: int| 0 <= k < front.len() && (#[trigger] front[k]).holds(x, y, z);
            assert(boxes[k].holds(x, y, z));
        }
        if held(boxes, x, y, z) {
            let k = choose|k: int| 0 <= k < boxes.len() && (#[trigger] boxes[k]).holds(x, y, z);
            if k < front.len() {
                assert(front[k].holds(x, y, z));
            }
        }
        if boxes.last().holds(x, y, z) {
            assert(boxes[boxes.len() - 1].holds(x, y, z));
        }
        assert forall|i: int, j: int|
            0 <= i < j < boxes.len() && (#[trigger] boxes[i]).holds(x, y, z) && (
            #[trigger] boxes[j]).holds(x, y, z) implies holders(boxes, x, y, z) >= 2 by {
            assert(front[i].holds(x, y, z));
            if j < front.len() {
                assert(front[j].holds(x, y, z));
            }
        }
    }
}

/// The bounds of a box along an axis.
pub open spec fn span(b: Cuboid, axis: PlaneAxis) -> (int, int) {
    match axis {
        PlaneAxis::X => (b.x1, b.x2),
        PlaneAxis::Y => (b.y1, b.y2),
        PlaneAxis::Z => (b.z1, b.z2),
    }
}

/// A part cut from a solid box on a grid, at a grid line, is a solid box
/// on the grid.  It lies on the side of the plane that its tag names.
pub(crate) proof fn lemma_sliced_solid(b: Cuboid, axis: PlaneAxis, at: int, part: Cuboid, edge: int)
    requires
        b.wf(),
        solid(b),
        b.sliced(axis, at).contains(part),
    ensures
        part.wf(),
        solid(part),
        part.within(b),
        on_grid(at, edge) && on_grid(b.x1, edge) && on_grid(b.x2, edge) ==> on_grid(part.x1, edge)
            && on_grid(part.x2, edge),
        on_grid(at, edge) && on_grid(b.y1, edge) && on_grid(b.y2, edge) ==> on_grid(part.y1, edge)
            && on_grid(part.y2, edge),
        on_grid(at, edge) && on_grid(b.z1, edge) && on_grid(b.z2, edge) ==> on_grid(part.z1, edge)
            && on_grid(part.z2, edge),
        (part.orientation == b.orientation.compose(crate::aabb::lower_tag(axis)) && span(
            part,
            axis,
        ).1 <= at) || (part.orientation == b.orientation.compose(crate::aabb::upper_tag(axis))
            && span(part, axis).0 >= at),
{
    let parts = b.sliced(axis, at);
    let t = choose|t: int| 0 <= t < parts.len() && parts[t] == part;
    assert(parts[t] == part);
}

/// Where a corner tag came from: the sides that the three cuts gave.
pub(crate) proof fn lemma_corner_sides(x: Orientation, y: Orientation, z: Orientation)
    requires
        x == Orientation::L || x == Orientation::R,
        y == Orientation::D || y == Orientation::U,
        z == Orientation::B || z == Orientation::F,
    ensures
        ({
            let tag = Orientation::N.compose(x).compose(y).compose(z);
            &&& tag.is_corner()
            &&& tag.corner_sides().0 == x.x_side()
            &&& tag.corner_sides().1 == y.y_side()
            &&& tag.corner_sides().2 == z.z_side()
        }),
{
}

/// The parts into which a solid box on the grid of a level explodes,
/// around the center of a cell above that level within which it lies:
/// each is a solid box on the grid and lies within the child cell that
/// its tag names; no two overlap; between them they take up the box.
pub(crate) proof fn lemma_exploded_tiles(b: Cuboid, code: u64, level: nat)
    requires
        b.wf(),
        b.orientation == Orientation::N,
        solid(b),
        aligned(b, level),
        is_code(code),
        level_of(code) < level <= MAX_LEVEL,
        b.within(cell_of(code)),
    ensures
        forall|k: int|
            0 <= k < b.exploded(center_of(code)).len() ==> {
                let part = #[trigger] b.exploded(center_of(code))[k];
                &&& part.wf()
                &&& solid(part)
                &&& aligned(part, level)
                &&& part.orientation.is_corner()
                &&& part.within(cell_of(child_code(code, part.orientation.selector_spec() as int)))
            },
        disjoint(b.exploded(center_of(code))),
        forall|x: int, y: int, z: int|
            #![trigger held(b.exploded(center_of(code)), x, y, z)]
            #![trigger b.holds(x, y, z)]
            held(b.exploded(center_of(code)), x, y, z) == b.holds(x, y, z),
{
    let center = center_of(code);
    let edge = cell_edge(level);
    let along_x = b.sliced(PlaneAxis::X, center.0);
    let along_y = spread(along_x, PlaneAxis::Y, center.1);
    let parts = b.exploded(center);
    lemma_cell_on_grid(code, level);
    lemma_code_has_room(code);
    lemma_spread_parts(along_x, PlaneAxis::Y, center.1);
    lemma_spread_parts(along_y, PlaneAxis::Z, center.2);
    assert forall|k: int| 0 <= k < parts.len() implies {
        let part = #[trigger] parts[k];
        &&& part.wf()
        &&& solid(part)
        &&& aligned(part, level)
        &&& part.orientation.is_corner()
        &&& part.within(cell_of(child_code(code, part.orientation.selector_spec() as int)))
    } by {
        let part = parts[k];
        let j = choose|j: int|
            0 <= j < along_y.len() && (#[trigger] along_y[j]).sliced(
                PlaneAxis::Z,
                center.2,
            ).contains(part);
        let slab = along_y[j];
        let i = choose|i: int|
            0 <= i < along_x.len() && (#[trigger] along_x[i]).sliced(
                PlaneAxis::Y,
                center.1,
            ).contains(slab);
        let half = along_x[i];
        lemma_sliced_solid(b, PlaneAxis::X, center.0, half, edge);
        lemma_sliced_solid(half, PlaneAxis::Y, center.1, slab, edge);
        lemma_sliced_solid(slab, PlaneAxis::Z, center.2, part, edge);
        let x = if half.orientation == Orientation::N.compose(Orientation::L) && half.x2
            <= center.0 {
            Orientation::L
        } else {
            Orientation::R
        };
        let y = if slab.orientation == half.orientation.compose(Orientation::D) && slab.y2
            <= center.1 {
            Orientation::D
        } else {
            Orientation::U
        };
        let z = if part.orientation == slab.orientation.compose(Orientation::B) && part.z2
            <= center.2 {
            Orientation::B
        } else {
            Orientation::F
        };
        lemma_corner_sides(x, y, z);
        assert(part.orientation == Orientation::N.compose(x).compose(y).compose(z));
        lemma_child_cell(code, part.orientation.selector_spec());
    }
    assert forall|x: int, y: int, z: int|
        #![trigger held(parts, x, y, z)]
        #![trigger b.holds(x, y, z)]
        held(parts, x, y, z) == b.holds(x, y, z) by {
        lemma_exploded_partition(b, center, x, y, z);
        lemma_holders_count(parts, x, y, z);
    }
    assert forall|i: int, j: int, x: int, y: int, z: int| 0 <= i < j < parts.len() implies !(
    #[trigger] parts[i].holds(x, y, z) && #[trigger] parts[j].holds(x, y, z)) by {
        lemma_exploded_partition(b, center, x, y, z);
        lemma_holders_count(parts, x, y, z);
    }
}

/// The codes of a set are location codes, their cells do not overlap,
/// and together the cells take up exactly the boxes of a sequence.
pub open spec fn tiling(keys: Set<u64>, boxes: Seq<Cuboid>) -> bool {
    &&& forall|key: u64| keys.contains(key) ==> is_code(key)
    &&& antichain(keys)
    &&& forall|x: int, y: int, z: int|
        #![trigger covered(keys, x, y, z)]
        #![trigger held(boxes, x, y, z)]
        covered(keys, x, y, z) == held(boxes, x, y, z)
}

/// Two codes of which one lies below the other have cells that share a
/// point: the center of the cell of the lower one.
pub(crate) proof fn lemma_related_share(one: u64, other: u64) -> (point: (int, int, int))
    requires
        is_code(one),
        is_code(other),
        below(one, other),
    ensures
        cell_of(one).holds(point.0, point.1, point.2),
        cell_of(other).holds(point.0, point.1, point.2),
{
    let up = choose|up: nat| #[trigger] ancestor(other, up) == one;
    lemma_ancestor_code(other, up);
    lemma_cell_nested(other, up);
    lemma_cell_holds_center(other);
    center_of(other)
}

/// Sets of codes that tile boxes which do not overlap tile, between them,
/// the boxes of both.
pub(crate) proof fn lemma_tiling_joined(
    one: Set<u64>,
    other: Set<u64>,
    front: Seq<Cuboid>,
    back: Seq<Cuboid>,
)
    requires
        tiling(one, front),
        tiling(other, back),
        disjoint(front + back),
    ensures
        tiling(one.union(other), front + back),
{
    let both = one.union(other);
    let boxes = front + back;
    assert forall|x: int, y: int, z: int|
        #![trigger covered(both, x, y, z)]
        #![trigger held(boxes, x, y, z)]
        covered(both, x, y, z) == held(boxes, x, y, z) by {
        if covered(both, x, y, z) {
            let key = choose|key: u64|
                both.contains(key) && (#[trigger] cell_of(key)).holds(x, y, z);
            if one.contains(key) {
                assert(covered(one, x, y, z));
                let k = choose|k: int|
                    0 <= k < front.len() && (#[trigger] front[k]).holds(x, y, z);
                assert(boxes[k].holds(x, y, z));
            } else {
                assert(covered(other, x, y, z));
                let k = choose|k: int| 0 <= k < back.len() && (#[trigger] back[k]).holds(x, y, z);
                assert(boxes[front.len() + k].holds(x, y, z));
            }
        }
        if held(boxes, x, y, z) {
            let k = choose|k: int| 0 <= k < boxes.len() && (#[trigger] boxes[k]).holds(x, y, z);
            if k < front.len() {
                assert(front[k].holds(x, y, z));
                assert(held(front, x, y, z));
                assert(covered(one, x, y, z));
                let key = choose|key: u64|
                    one.contains(key) && (#[trigger] cell_of(key)).holds(x, y, z);
                assert(both.contains(key));
            } else {
                assert(back[k - front.len()].holds(x, y, z));
                assert(held(back, x, y, z));
                assert(covered(other, x, y, z));
                let key = choose|key: u64|
                    other.contains(key) && (#[trigger] cell_of(key)).holds(x, y, z);
                assert(both.contains(key));
            }
        }
    }
    assert forall|high: u64, low: u64|
        both.contains(high) && both.contains(low) && high != low implies !below(high, low) by {
        if below(high, low) {
            let point = lemma_related_share(high, low);
            if one.contains(high) && other.contains(low) || other.contains(high) && one.contains(
                low,
            ) {
                assert(covered(one, point.0, point.1, point.2));
                assert(covered(other, point.0, point.1, point.2));
                assert(held(front, point.0, point.1, point.2));
                assert(held(back, point.0, point.1, point.2));
                let i = choose|i: int|
                    0 <= i < front.len() && (#[trigger] front[i]).holds(
                        point.0,
                        point.1,
                        point.2,
                    );
                let j = choose|j: int|
                    0 <= j < back.len() && (#[trigger] back[j]).holds(point.0, point.1, point.2);
                assert(boxes[i].holds(point.0, point.1, point.2));
                assert(boxes[front.len() + j].holds(point.0, point.1, point.2));
            }
        }
    }
}

/// The leaves into which a solid box on the grid of the deepest level
/// falls, inside a cell within which it lies, tile the box: their cells
/// do not overlap and take up exactly the box.
pub proof fn lemma_footprint_tiles(b: Cuboid, code: u64, depth: nat, max_depth: nat)
    requires
        b.wf(),
        b.orientation == Orientation::N,
        solid(b),
        aligned(b, max_depth),
        is_code(code),
        level_of(code) + 1 == depth,
        depth <= max_depth <= MAX_LEVEL,
        b.within(cell_of(code)),
    ensures
        tiling(footprint(b, code, depth, max_depth), seq![b]),
    decreases max_depth - depth, 1nat, 0nat,
{
    let pieces = b.exploded(center_of(code));
    lemma_exploded_tiles(b, code, max_depth);
    lemma_footprint_of_tiles(pieces, code, depth, max_depth);
    assert(footprint(b, code, depth, max_depth) == footprint_of(pieces, code, depth, max_depth));
    let cells = footprint(b, code, depth, max_depth);
    assert forall|x: int, y: int, z: int|
        #![trigger covered(cells, x, y, z)]
        #![trigger held(seq![b], x, y, z)]
        covered(cells, x, y, z) == held(seq![b], x, y, z) by {
        assert(held(pieces, x, y, z) == b.holds(x, y, z));
        assert(seq![b][0] == b);
        if b.holds(x, y, z) {
            assert(seq![b][0].holds(x, y, z));
        }
    }
}

/// The same, of the parts of a box in the octants of a cell.
pub(crate) proof fn lemma_footprint_of_tiles(pieces: Seq<Cuboid>, code: u64, depth: nat, max_depth: nat)
    requires
        forall|k: int|
            0 <= k < pieces.len() ==> {
                let part = #[trigger] pieces[k];
                &&& part.wf()
                &&& solid(part)
                &&& aligned(part, max_depth)
                &&& part.orientation.is_corner()
                &&& part.within(cell_of(child_code(code, part.orientation.selector_spec() as int)))
            },
        disjoint(pieces),
        is_code(code),
        level_of(code) + 1 == depth,
        depth <= max_depth <= MAX_LEVEL,
    ensures
        tiling(footprint_of(pieces, code, depth, max_depth), pieces),
    decreases max_depth - depth, 0nat, pieces.len(),
{
    let cells = footprint_of(pieces, code, depth, max_depth);
    if pieces.len() == 0 {
        assert(cells =~= Set::<u64>::empty());
    } else {
        let front = pieces.drop_last();
        let piece = pieces.last();
        let selector = piece.orientation.selector_spec();
        let child = child_code(code, selector as int);
        assert(piece == pieces[pieces.len() - 1]);
        assert forall|k: int| 0 <= k < front.len() implies front[k] == pieces[k] by {}
        lemma_code_has_room(code);
        lemma_child_is_code(code, selector);
        lemma_footprint_of_tiles(front, code, depth, max_depth);
        let before = footprint_of(front, code, depth, max_depth);
        let inner = piece.tagged(Orientation::N);
        let fresh = if piece.fits(depth, max_depth) {
            set![child]
        } else {
            footprint(inner, child, depth + 1, max_depth)
        };
        assert(cells == before.union(fresh)) by {
            assert(before.insert(child) =~= before.union(set![child]));
        }
        assert(tiling(fresh, seq![piece])) by {
            if piece.fits(depth, max_depth) {
                lemma_half_is_edge_below(depth);
                if depth == max_depth {
                    lemma_fills_cell(piece, child);
                }
                let cell = cell_of(child);
                assert(cell.x1 == piece.x1 && cell.x2 == piece.x2);
                assert(cell.y1 == piece.y1 && cell.y2 == piece.y2);
                assert(cell.z1 == piece.z1 && cell.z2 == piece.z2);
                assert forall|x: int, y: int, z: int|
                    #![trigger covered(fresh, x, y, z)]
                    #![trigger held(seq![piece], x, y, z)]
                    covered(fresh, x, y, z) == held(seq![piece], x, y, z) by {
                    assert(seq![piece][0] == piece);
                    if covered(fresh, x, y, z) {
                        assert(seq![piece][0].holds(x, y, z));
                    }
                    if held(seq![piece], x, y, z) {
                        assert(fresh.contains(child) && cell_of(child).holds(x, y, z));
                    }
                }
            } else {
                lemma_footprint_tiles(inner, child, depth + 1, max_depth);
                assert forall|x: int, y: int, z: int|
                    #![trigger covered(fresh, x, y, z)]
                    #![trigger held(seq![piece], x, y, z)]
                    covered(fresh, x, y, z) == held(seq![piece], x, y, z) by {
                    assert(seq![piece][0] == piece);
                    assert(seq![inner][0] == inner);
                    assert(covered(fresh, x, y, z) == held(seq![inner], x, y, z));
                    if held(seq![inner], x, y, z) {
                        assert(seq![piece][0].holds(x, y, z));
                    }
                    if held(seq![piece], x, y, z) {
                        assert(seq![inner][0].holds(x, y, z));
                    }
                }
            }
        }
        assert(front + seq![piece] =~= pieces);
        lemma_tiling_joined(before, fresh, front, seq![piece]);
    }
}

} // verus!
