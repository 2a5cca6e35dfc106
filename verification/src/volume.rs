//! The volume that the leaves of a tree take up.
use vstd::prelude::*;
use vstd::std_specs::cmp::PartialEqSpec;
use crate::aabb::{Cuboid, PlaneAxis, spread};
use crate::cells::{
    ancestor, antichain, below, cell_of, covered, lemma_ancestor_code, lemma_ancestor_step,
    lemma_cell_holds_center, lemma_child_cell, lemma_point_in_child, lemma_related,
};
use crate::loc_code::{
    CHILD_LIMIT, MAX_LEVEL, UNIT, center_of, is_code, lemma_child_is_code, lemma_code_has_room,
    level_of,
};
use crate::octree::keys_within;
use crate::orientation::Orientation;
use crate::paint::{
    TOP_CODE, child_code, children, collapsed, filled, footprint, footprint_of,
    lemma_settle_idle, lemma_sweep_skip, merged, painted, parents, settle, sweep, uniform,
};
use crate::tiling::{
    aligned, disjoint, held, lemma_footprint_tiles, lemma_related_share, lemma_tiling_joined,
    solid, tiling,
};

verus! {

/// Number of cells of the deepest level that a cell `room` levels above
/// them holds.
pub open spec fn cells_in(room: nat) -> nat
    decreases room,
{
    if room == 0 {
        1
    } else {
        8 * cells_in((room - 1) as nat)
    }
}

/// Volume of the leaves stored at `code` and up to `room` levels below
/// it, counted in cells `room` levels below `code`: every leaf counts with
/// the volume of its own cell.
pub open spec fn weight<D>(leaves: Map<u64, D>, code: u64, room: nat) -> nat
    decreases room,
{
    let own = if leaves.contains_key(code) {
        cells_in(room)
    } else {
        0
    };
    if room == 0 || code >= CHILD_LIMIT {
        own
    } else {
        let below = (room - 1) as nat;
        own + weight(leaves, child_code(code, 0), below) + weight(
            leaves,
            child_code(code, 1),
            below,
        ) + weight(leaves, child_code(code, 2), below) + weight(
            leaves,
            child_code(code, 3),
            below,
        ) + weight(leaves, child_code(code, 4), below) + weight(
            leaves,
            child_code(code, 5),
            below,
        ) + weight(leaves, child_code(code, 6), below) + weight(
            leaves,
            child_code(code, 7),
            below,
        )
    }
}

/// Volume of all leaves of a tree of `max_depth` levels, counted in cells
/// of the deepest level.  The unit cube holds `cells_in(max_depth)` of
/// them, so the leaves take up the volume of the unit cube when the two
/// numbers are equal.
pub open spec fn leaf_volume<D>(leaves: Map<u64, D>, max_depth: nat) -> nat {
    weight(leaves, 1, max_depth)
}

/// The unit cube as a box.
pub open spec fn unit_cube() -> Cuboid {
    Cuboid {
        x1: 0,
        y1: 0,
        z1: 0,
        x2: 0x1_0000_0000,
        y2: 0x1_0000_0000,
        z2: 0x1_0000_0000,
        orientation: Orientation::N,
    }
}

/// The unit cube falls into the eight children of the root.
pub(crate) proof fn lemma_unit_cube_footprint(max_depth: nat)
    requires
        1 <= max_depth,
    ensures
        footprint(unit_cube(), 1, 1, max_depth) == children(1),
{
    let b = unit_cube();
    let center = center_of(1);
    let along_x = b.sliced(PlaneAxis::X, center.0);
    let along_y = spread(along_x, PlaneAxis::Y, center.1);
    let pieces = spread(along_y, PlaneAxis::Z, center.2);
    assert(along_x.len() == 2);
    reveal_with_fuel(spread, 5);
    assert(along_x.drop_last().drop_last().len() == 0);
    assert(along_y =~= along_x[0].sliced(PlaneAxis::Y, center.1) + along_x[1].sliced(
        PlaneAxis::Y,
        center.1,
    ));
    assert(along_y.len() == 4);
    assert(along_y.drop_last().drop_last().drop_last().drop_last().len() == 0);
    assert(along_y.drop_last().last() == along_y[2]);
    assert(along_y.drop_last().drop_last().last() == along_y[1]);
    assert(along_y.drop_last().drop_last().drop_last().last() == along_y[0]);
    assert(pieces =~= along_y[0].sliced(PlaneAxis::Z, center.2) + along_y[1].sliced(
        PlaneAxis::Z,
        center.2,
    ) + along_y[2].sliced(PlaneAxis::Z, center.2) + along_y[3].sliced(PlaneAxis::Z, center.2));
    assert(pieces.len() == 8);
    assert(crate::aabb::cell_edge(1) == 0x8000_0000) by {
        reveal_with_fuel(crate::aabb::cell_edge, 2);
    }
    lemma_footprint_of_fitting(pieces, 8, 1, 1, max_depth);
    let cells = footprint_of(pieces, 1, 1, max_depth);
    assert(footprint(b, 1, 1, max_depth) == cells);
    assert(pieces.take(8) =~= pieces);
    assert(pieces[0].orientation == Orientation::LBD);
    assert(pieces[1].orientation == Orientation::LFD);
    assert(pieces[2].orientation == Orientation::LBU);
    assert(pieces[3].orientation == Orientation::LFU);
    assert(pieces[4].orientation == Orientation::RBD);
    assert(pieces[5].orientation == Orientation::RFD);
    assert(pieces[6].orientation == Orientation::RBU);
    assert(pieces[7].orientation == Orientation::RFU);
    assert forall|code: u64| children(1).contains(code) implies cells.contains(code) by {
        let k: int = if code == 11 {
            0
        } else if code == 10 {
            1
        } else if code == 8 {
            2
        } else if code == 9 {
            3
        } else if code == 12 {
            4
        } else if code == 13 {
            5
        } else if code == 15 {
            6
        } else {
            7
        };
        assert(code == child_code(1, pieces[k].orientation.selector_spec() as int));
    }
    assert forall|code: u64| cells.contains(code) implies children(1).contains(code) by {
        let k = choose|k: int|
            0 <= k < 8 && code == child_code(
                1,
                (#[trigger] pieces[k]).orientation.selector_spec() as int,
            );
        assert(pieces[k].orientation.selector_spec() <= 7);
    }
    assert(cells =~= children(1));
}

/// When the first `count` parts all fit, their footprint is the set of
/// the children that their tags name.
pub(crate) proof fn lemma_footprint_of_fitting(
    pieces: Seq<Cuboid>,
    count: nat,
    code: u64,
    depth: nat,
    max_depth: nat,
)
    requires
        count <= pieces.len(),
        forall|k: int| 0 <= k < count ==> (#[trigger] pieces[k]).fits(depth, max_depth),
    ensures
        forall|leaf: u64|
            footprint_of(pieces.take(count as int), code, depth, max_depth).contains(leaf)
                <==> exists|k: int|
                0 <= k < count && leaf == child_code(
                    code,
                    (#[trigger] pieces[k]).orientation.selector_spec() as int,
                ),
    decreases count,
{
    let taken = pieces.take(count as int);
    if count > 0 {
        lemma_footprint_of_fitting(pieces, (count - 1) as nat, code, depth, max_depth);
        assert(taken.drop_last() =~= pieces.take(count - 1));
        assert(taken.last() == pieces[count - 1]);
        let before = footprint_of(taken.drop_last(), code, depth, max_depth);
        let last = child_code(code, pieces[count - 1].orientation.selector_spec() as int);
        assert(footprint_of(taken, code, depth, max_depth) == before.insert(last));
    }
}

/// The leaves are stored at location codes within the limit, their cells
/// do not overlap, and together the cells take up what the cells of the
/// codes of `base` take up.
pub open spec fn tiles_like<D>(leaves: Map<u64, D>, base: Set<u64>, limit: u32) -> bool {
    &&& keys_within(leaves, limit)
    &&& antichain(leaves.dom())
    &&& forall|x: int, y: int, z: int|
        #![trigger covered(leaves.dom(), x, y, z)]
        #![trigger covered(base, x, y, z)]
        covered(leaves.dom(), x, y, z) == covered(base, x, y, z)
}

/// A code that lies a step or more above a location code differs from it.
pub(crate) proof fn lemma_above_differs(key: u64, up: nat)
    requires
        is_code(key),
        up >= 1,
    ensures
        ancestor(key, up) != key,
{
    if ancestor(key, up) >= 1 {
        lemma_ancestor_code(key, up);
    }
}

/// Collapsing a uniform group keeps the cells from overlapping and keeps
/// what they take up.
pub(crate) proof fn lemma_collapse_tiles<D: PartialEq>(
    leaves: Map<u64, D>,
    code: u64,
    base: Set<u64>,
    limit: u32,
)
    requires
        limit <= MAX_LEVEL,
        tiles_like(leaves, base, limit),
        uniform(leaves, code),
    ensures
        tiles_like(collapsed(leaves, code), base, limit),
{
    let next = collapsed(leaves, code);
    let first = child_code(code, 0);
    assert(leaves.contains_key(first));
    assert(first / 8 == code);
    assert(is_code(code) && level_of(code) < limit);
    assert forall|selector: u8| selector <= 7 implies leaves.contains_key(
        #[trigger] child_code(code, selector as int),
    ) by {}
    assert forall|one: u64, other: u64|
        next.dom().contains(one) && next.dom().contains(other) && one != other implies !below(
        one,
        other,
    ) by {
        if below(one, other) {
            let up = choose|up: nat| #[trigger] ancestor(other, up) == one;
            assert(up >= 1);
            if one == code {
                assert(leaves.contains_key(other));
                lemma_ancestor_step(other, up);
                let mid = ancestor(other, (up - 1) as nat);
                assert(mid / 8 == code);
                assert(mid >= 8);
                lemma_ancestor_code(other, (up - 1) as nat);
                assert(child_code(code, (mid % 8) as int) == mid);
                assert(leaves.contains_key(child_code(code, ((mid % 8) as u8) as int)));
                assert(up >= 2);
                lemma_above_differs(other, (up - 1) as nat);
                assert(below(mid, other));
            } else if other == code {
                assert(leaves.contains_key(one));
                assert(ancestor(first, up + 1) == ancestor(code, up));
                assert(below(one, first));
                assert(one / 8 != code);
            }
        }
    }
    assert forall|x: int, y: int, z: int|
        #![trigger covered(next.dom(), x, y, z)]
        #![trigger covered(base, x, y, z)]
        covered(next.dom(), x, y, z) == covered(base, x, y, z) by {
        if covered(next.dom(), x, y, z) {
            let key = choose|key: u64|
                next.dom().contains(key) && (#[trigger] cell_of(key)).holds(x, y, z);
            if key == code {
                let selector = lemma_point_in_child(code, x, y, z);
                let child = child_code(code, selector as int);
                assert(leaves.dom().contains(child) && cell_of(child).holds(x, y, z));
            } else {
                assert(leaves.dom().contains(key) && cell_of(key).holds(x, y, z));
            }
            assert(covered(leaves.dom(), x, y, z));
        }
        if covered(leaves.dom(), x, y, z) {
            let key = choose|key: u64|
                leaves.dom().contains(key) && (#[trigger] cell_of(key)).holds(x, y, z);
            if key / 8 == code {
                assert(child_code(code, (key % 8) as int) == key);
                lemma_child_cell(code, (key % 8) as u8);
                assert(next.dom().contains(code) && cell_of(code).holds(x, y, z));
            } else {
                assert(next.dom().contains(key) && cell_of(key).holds(x, y, z));
            }
            assert(covered(next.dom(), x, y, z));
        }
    }
}

/// A pass of collapsing keeps the cells from overlapping and keeps what
/// they take up.
pub(crate) proof fn lemma_sweep_tiles<D: PartialEq>(
    leaves: Map<u64, D>,
    flagged: Set<u64>,
    from: u64,
    base: Set<u64>,
    limit: u32,
)
    requires
        limit <= MAX_LEVEL,
        tiles_like(leaves, base, limit),
    ensures
        tiles_like(sweep(leaves, flagged, from).0, base, limit),
    decreases from,
{
    if from > 0 {
        if flagged.contains(from) && uniform(leaves, from) {
            lemma_collapse_tiles(leaves, from, base, limit);
            lemma_sweep_tiles(collapsed(leaves, from), flagged, (from - 1) as u64, base, limit);
        } else {
            lemma_sweep_tiles(leaves, flagged, (from - 1) as u64, base, limit);
        }
    }
}

/// Collapsing to the end keeps the cells from overlapping and keeps what
/// they take up.
pub(crate) proof fn lemma_settle_tiles<D: PartialEq>(
    leaves: Map<u64, D>,
    flagged: Set<u64>,
    top: u64,
    base: Set<u64>,
    limit: u32,
)
    requires
        limit <= MAX_LEVEL,
        tiles_like(leaves, base, limit),
    ensures
        tiles_like(settle(leaves, flagged, top), base, limit),
    decreases top,
{
    if top > 0 {
        lemma_sweep_tiles(leaves, flagged, top, base, limit);
        let pass = sweep(leaves, flagged, top);
        lemma_settle_tiles(pass.0, pass.1, top / 8, base, limit);
    }
}

/// Where no leaf is stored at a code or below it, the weight is zero.
pub(crate) proof fn lemma_weight_zero<D>(leaves: Map<u64, D>, code: u64, room: nat)
    requires
        forall|key: u64| leaves.contains_key(key) ==> !below(code, key),
    ensures
        weight(leaves, code, room) == 0,
    decreases room,
{
    assert(ancestor(code, 0) == code);
    assert(below(code, code));
    assert(!leaves.contains_key(code));
    if room > 0 && code < CHILD_LIMIT {
        let deeper = (room - 1) as nat;
        assert forall|selector: int| 0 <= selector < 8 implies #[trigger] weight(
            leaves,
            child_code(code, selector),
            deeper,
        ) == 0 by {
            let child = child_code(code, selector);
            assert forall|key: u64| leaves.contains_key(key) implies !below(child, key) by {
                if below(child, key) {
                    let up = choose|up: nat| #[trigger] ancestor(key, up) == child;
                    lemma_ancestor_step(key, up + 1);
                    assert(child / 8 == code);
                    assert(ancestor(key, up + 1) == code);
                    assert(below(code, key));
                }
            }
            lemma_weight_zero(leaves, child, deeper);
        }
        assert(weight(leaves, child_code(code, 0), deeper) == 0);
        assert(weight(leaves, child_code(code, 1), deeper) == 0);
        assert(weight(leaves, child_code(code, 2), deeper) == 0);
        assert(weight(leaves, child_code(code, 3), deeper) == 0);
        assert(weight(leaves, child_code(code, 4), deeper) == 0);
        assert(weight(leaves, child_code(code, 5), deeper) == 0);
        assert(weight(leaves, child_code(code, 6), deeper) == 0);
        assert(weight(leaves, child_code(code, 7), deeper) == 0);
    }
}

/// Where leaves whose cells do not overlap take up the whole cell of a
/// code, and none is stored above the code, their weight at the code is
/// the volume of that cell.
pub(crate) proof fn lemma_full_weight<D>(leaves: Map<u64, D>, code: u64, room: nat, limit: u32)
    requires
        limit <= MAX_LEVEL,
        keys_within(leaves, limit),
        antichain(leaves.dom()),
        is_code(code),
        level_of(code) + room == limit,
        forall|key: u64| leaves.contains_key(key) && key != code ==> !below(key, code),
        forall|x: int, y: int, z: int|
            cell_of(code).holds(x, y, z) ==> #[trigger] covered(leaves.dom(), x, y, z),
    ensures
        weight(leaves, code, room) == cells_in(room),
    decreases room,
{
    let deeper = (room - 1) as nat;
    if leaves.contains_key(code) {
        if room > 0 && code < CHILD_LIMIT {
            assert forall|selector: int| 0 <= selector < 8 implies #[trigger] weight(
                leaves,
                child_code(code, selector),
                deeper,
            ) == 0 by {
                let child = child_code(code, selector);
                lemma_child_is_code(code, selector as u8);
                assert forall|key: u64| leaves.contains_key(key) implies !below(child, key) by {
                    if below(child, key) {
                        let up = choose|up: nat| #[trigger] ancestor(key, up) == child;
                        lemma_ancestor_step(key, up + 1);
                        assert(child / 8 == code);
                        assert(ancestor(key, up + 1) == code);
                        assert(below(code, key));
                        lemma_ancestor_code(key, up);
                        assert(key != code);
                        assert(leaves.dom().contains(key) && leaves.dom().contains(code));
                    }
                }
                lemma_weight_zero(leaves, child, deeper);
            }
            assert(weight(leaves, child_code(code, 0), deeper) == 0);
            assert(weight(leaves, child_code(code, 1), deeper) == 0);
            assert(weight(leaves, child_code(code, 2), deeper) == 0);
            assert(weight(leaves, child_code(code, 3), deeper) == 0);
            assert(weight(leaves, child_code(code, 4), deeper) == 0);
            assert(weight(leaves, child_code(code, 5), deeper) == 0);
            assert(weight(leaves, child_code(code, 6), deeper) == 0);
            assert(weight(leaves, child_code(code, 7), deeper) == 0);
        }
    } else {
        lemma_cell_holds_center(code);
        let center = center_of(code);
        assert(covered(leaves.dom(), center.0, center.1, center.2));
        let key = choose|key: u64|
            leaves.dom().contains(key) && (#[trigger] cell_of(key)).holds(
                center.0,
                center.1,
                center.2,
            );
        assert(leaves.contains_key(key));
        if level_of(key) <= level_of(code) {
            lemma_related(key, code, center.0, center.1, center.2);
        }
        assert(room > 0);
        lemma_code_has_room(code);
        assert forall|selector: int| 0 <= selector < 8 implies #[trigger] weight(
            leaves,
            child_code(code, selector),
            deeper,
        ) == cells_in(deeper) by {
            let child = child_code(code, selector);
            lemma_child_is_code(code, selector as u8);
            lemma_child_cell(code, selector as u8);
            assert forall|other: u64| leaves.contains_key(other) && other != child implies !below(
                other,
                child,
            ) by {
                if below(other, child) {
                    let up = choose|up: nat| #[trigger] ancestor(child, up) == other;
                    assert(up >= 1);
                    assert(ancestor(child, up) == ancestor(code, (up - 1) as nat));
                    assert(below(other, code));
                }
            }
            lemma_full_weight(leaves, child, deeper, limit);
        }
        assert(weight(leaves, child_code(code, 0), deeper) == cells_in(deeper));
        assert(weight(leaves, child_code(code, 1), deeper) == cells_in(deeper));
        assert(weight(leaves, child_code(code, 2), deeper) == cells_in(deeper));
        assert(weight(leaves, child_code(code, 3), deeper) == cells_in(deeper));
        assert(weight(leaves, child_code(code, 4), deeper) == cells_in(deeper));
        assert(weight(leaves, child_code(code, 5), deeper) == cells_in(deeper));
        assert(weight(leaves, child_code(code, 6), deeper) == cells_in(deeper));
        assert(weight(leaves, child_code(code, 7), deeper) == cells_in(deeper));
    }
}

/// Leaves whose cells do not overlap and take up the whole unit cube have
/// the volume of the unit cube between them.
pub proof fn lemma_partition_volume<D>(leaves: Map<u64, D>, max_depth: u32)
    requires
        max_depth <= MAX_LEVEL,
        keys_within(leaves, max_depth),
        antichain(leaves.dom()),
        forall|x: int, y: int, z: int|
            0 <= x < UNIT && 0 <= y < UNIT && 0 <= z < UNIT ==> #[trigger] covered(
                leaves.dom(),
                x,
                y,
                z,
            ),
    ensures
        leaf_volume(leaves, max_depth as nat) == cells_in(max_depth as nat),
{
    assert forall|key: u64| leaves.contains_key(key) && key != 1 implies !below(key, 1) by {
        if below(key, 1) {
            let up = choose|up: nat| #[trigger] ancestor(1, up) == key;
            assert(up >= 1);
            crate::cells::lemma_ancestor_of_zero((up - 1) as nat);
            assert(ancestor(1, up) == ancestor(0, (up - 1) as nat));
        }
    }
    lemma_full_weight(leaves, 1, max_depth as nat, max_depth);
}

/// A box that can be painted without loss: a solid box under the neutral
/// tag, within the unit cube, with its bounds on the grid of the deepest
/// level.
pub open spec fn paintable(b: Cuboid, max_depth: nat) -> bool {
    &&& b.wf()
    &&& b.orientation == Orientation::N
    &&& solid(b)
    &&& aligned(b, max_depth)
    &&& b.in_unit_cube()
}

/// The codes of the leaves into which the boxes of a list fall.
pub open spec fn footprints(boxes: Seq<Cuboid>, max_depth: nat) -> Set<u64>
    decreases boxes.len(),
{
    if boxes.len() == 0 {
        Set::empty()
    } else {
        footprints(boxes.drop_last(), max_depth).union(footprint(boxes.last(), 1, 1, max_depth))
    }
}

/// Painting a box that can be painted without loss, where no leaf is yet,
/// keeps the cells of the leaves from overlapping, and adds the box to
/// what they take up.
pub proof fn lemma_merge_tiles<D: PartialEq>(
    leaves: Map<u64, D>,
    b: Cuboid,
    value: D,
    base: Set<u64>,
    max_depth: u32,
)
    requires
        1 <= max_depth <= MAX_LEVEL,
        tiles_like(leaves, base, max_depth),
        paintable(b, max_depth as nat),
        forall|x: int, y: int, z: int| !(#[trigger] covered(base, x, y, z) && b.holds(x, y, z)),
    ensures
        tiles_like(
            merged(leaves, b, value, max_depth as nat),
            base.union(footprint(b, 1, 1, max_depth as nat)),
            max_depth,
        ),
        tiling(footprint(b, 1, 1, max_depth as nat), seq![b]),
{
    let cells = footprint(b, 1, 1, max_depth as nat);
    let fresh = painted(leaves, cells, value);
    let more = base.union(cells);
    lemma_cell_holds_center(1);
    lemma_footprint_tiles(b, 1, 1, max_depth as nat);
    crate::laws::lemma_painted_keys(leaves, b, value, max_depth);
    assert(seq![b][0] == b);
    assert forall|x: int, y: int, z: int|
        #![trigger covered(fresh.dom(), x, y, z)]
        #![trigger covered(more, x, y, z)]
        covered(fresh.dom(), x, y, z) == covered(more, x, y, z) by {
        if covered(fresh.dom(), x, y, z) {
            let key = choose|key: u64|
                fresh.dom().contains(key) && (#[trigger] cell_of(key)).holds(x, y, z);
            if cells.contains(key) {
                assert(more.contains(key));
            } else {
                assert(leaves.dom().contains(key));
                assert(covered(leaves.dom(), x, y, z));
                assert(covered(base, x, y, z));
                let other = choose|other: u64|
                    base.contains(other) && (#[trigger] cell_of(other)).holds(x, y, z);
                assert(more.contains(other));
            }
        }
        if covered(more, x, y, z) {
            let key = choose|key: u64|
                more.contains(key) && (#[trigger] cell_of(key)).holds(x, y, z);
            if cells.contains(key) {
                assert(fresh.dom().contains(key));
            } else {
                assert(base.contains(key));
                assert(covered(base, x, y, z));
                assert(covered(leaves.dom(), x, y, z));
                let other = choose|other: u64|
                    leaves.dom().contains(other) && (#[trigger] cell_of(other)).holds(x, y, z);
                assert(fresh.dom().contains(other));
            }
        }
    }
    assert forall|high: u64, low: u64|
        fresh.dom().contains(high) && fresh.dom().contains(low) && high != low implies !below(
        high,
        low,
    ) by {
        if below(high, low) {
            let point = lemma_related_share(high, low);
            if cells.contains(high) != cells.contains(low) {
                let (painted_key, old_key) = if cells.contains(high) {
                    (high, low)
                } else {
                    (low, high)
                };
                assert(cells.contains(painted_key) && cell_of(painted_key).holds(
                    point.0,
                    point.1,
                    point.2,
                ));
                assert(covered(cells, point.0, point.1, point.2));
                assert(held(seq![b], point.0, point.1, point.2));
                assert(leaves.dom().contains(old_key) && cell_of(old_key).holds(
                    point.0,
                    point.1,
                    point.2,
                ));
                assert(covered(leaves.dom(), point.0, point.1, point.2));
                assert(covered(base, point.0, point.1, point.2));
            } else if !cells.contains(high) {
                assert(leaves.dom().contains(high) && leaves.dom().contains(low));
            }
        }
    }
    assert(tiles_like(fresh, more, max_depth));
    lemma_settle_tiles(fresh, parents(cells), TOP_CODE, more, max_depth);
}

/// After boxes that do not overlap were painted one after the other, each
/// a box that can be painted without loss, the cells of the leaves do not
/// overlap and take up exactly the boxes.
pub proof fn lemma_filled_tiles<D: PartialEq>(
    boxes: Seq<Cuboid>,
    values: Seq<D>,
    max_depth: u32,
)
    requires
        1 <= max_depth <= MAX_LEVEL,
        values.len() == boxes.len(),
        forall|k: int| 0 <= k < boxes.len() ==> paintable(#[trigger] boxes[k], max_depth as nat),
        disjoint(boxes),
    ensures
        tiles_like(
            filled(boxes, values, max_depth as nat),
            footprints(boxes, max_depth as nat),
            max_depth,
        ),
        tiling(footprints(boxes, max_depth as nat), boxes),
    decreases boxes.len(),
{
    let depth = max_depth as nat;
    if boxes.len() == 0 {
        let none = filled(boxes, values, depth);
        assert(none.dom() =~= Set::<u64>::empty());
    } else {
        let front = boxes.drop_last();
        let b = boxes.last();
        assert(b == boxes[boxes.len() - 1]);
        assert forall|k: int| 0 <= k < front.len() implies front[k] == boxes[k] by {}
        lemma_filled_tiles(front, values.drop_last(), max_depth);
        let before = filled(front, values.drop_last(), depth);
        let base = footprints(front, depth);
        assert forall|x: int, y: int, z: int| !(#[trigger] covered(base, x, y, z) && b.holds(
            x,
            y,
            z,
        )) by {
            if covered(base, x, y, z) && b.holds(x, y, z) {
                assert(held(front, x, y, z));
                let k = choose|k: int|
                    0 <= k < front.len() && (#[trigger] front[k]).holds(x, y, z);
                assert(boxes[k].holds(x, y, z));
                assert(boxes[boxes.len() - 1].holds(x, y, z));
            }
        }
        lemma_merge_tiles(before, b, values.last(), base, max_depth);
        assert(front + seq![b] =~= boxes);
        lemma_tiling_joined(base, footprint(b, 1, 1, depth), front, seq![b]);
    }
}

/// Volume is conserved: after a sequence of paintings of boxes that do
/// not overlap and take up the whole unit cube between them, each a box
/// that can be painted without loss, the leaves have the volume of the
/// unit cube between them, whatever the values.
pub proof fn lemma_volume_conservation<D: PartialEq>(
    boxes: Seq<Cuboid>,
    values: Seq<D>,
    max_depth: u32,
)
    requires
        1 <= max_depth <= MAX_LEVEL,
        values.len() == boxes.len(),
        forall|k: int| 0 <= k < boxes.len() ==> paintable(#[trigger] boxes[k], max_depth as nat),
        disjoint(boxes),
        forall|x: int, y: int, z: int|
            0 <= x < UNIT && 0 <= y < UNIT && 0 <= z < UNIT ==> #[trigger] held(boxes, x, y, z),
    ensures
        leaf_volume(filled(boxes, values, max_depth as nat), max_depth as nat) == cells_in(
            max_depth as nat,
        ),
{
    lemma_filled_tiles(boxes, values, max_depth);
    let leaves = filled(boxes, values, max_depth as nat);
    let cells = footprints(boxes, max_depth as nat);
    assert forall|x: int, y: int, z: int|
        0 <= x < UNIT && 0 <= y < UNIT && 0 <= z < UNIT implies #[trigger] covered(
        leaves.dom(),
        x,
        y,
        z,
    ) by {
        assert(held(boxes, x, y, z));
        assert(covered(cells, x, y, z));
    }
    lemma_partition_volume(leaves, max_depth);
}

/// Painting the whole unit cube puts one leaf at the root in place of
/// the leaves at the children of the root, and leaves deeper leaves alone.
pub proof fn lemma_whole_cube<D: PartialEq>(leaves: Map<u64, D>, value: D, max_depth: nat)
    requires
        1 <= max_depth,
        value.eq_spec(&value),
    ensures
        merged(leaves, unit_cube(), value, max_depth) == leaves.remove_keys(children(1)).insert(
            1,
            value,
        ),
        merged(merged(leaves, unit_cube(), value, max_depth), unit_cube(), value, max_depth)
            == merged(leaves, unit_cube(), value, max_depth),
{
    let once = leaves.remove_keys(children(1)).insert(1, value);
    assert(once.remove_keys(children(1)).insert(1, value) =~= once);
    lemma_whole_cube_once(leaves, value, max_depth);
    lemma_whole_cube_once(once, value, max_depth);
}

/// Painting the whole unit cube once.
proof fn lemma_whole_cube_once<D: PartialEq>(leaves: Map<u64, D>, value: D, max_depth: nat)
    requires
        1 <= max_depth,
        value.eq_spec(&value),
    ensures
        merged(leaves, unit_cube(), value, max_depth) == leaves.remove_keys(children(1)).insert(
            1,
            value,
        ),
{
    lemma_unit_cube_footprint(max_depth);
    let cells = children(1);
    let fresh = painted(leaves, cells, value);
    let flagged = parents(cells);
    assert(flagged =~= set![1u64]) by {
        assert(cells.contains(8));
    }
    lemma_sweep_skip(fresh, flagged, TOP_CODE, 1);
    assert(uniform(fresh, 1)) by {
        assert forall|selector: int| 0 <= selector < 8 implies fresh.contains_key(
            #[trigger] child_code(1, selector),
        ) && fresh[child_code(1, selector)] == value by {
            assert(cells.contains(child_code(1, selector)));
        }
        assert(cells.contains(child_code(1, 0)));
    }
    let after = collapsed(fresh, 1);
    assert(sweep(after, flagged, 0) == (after, Set::<u64>::empty()));
    assert(sweep(fresh, flagged, 1) == (after, Set::<u64>::empty()));
    lemma_settle_idle(after, TOP_CODE / 8);
    assert(settle(fresh, flagged, TOP_CODE) == after);
    assert(after =~= leaves.remove_keys(children(1)).insert(1, value));
}

/// A sequence of paintings of the whole unit cube with one value leaves
/// one leaf, the root, which has the volume of the unit cube: painting
/// the whole cube into an empty tree, or into the tree that such a
/// painting leaves, gives the root alone.
pub proof fn lemma_whole_cube_volume<D: PartialEq>(
    leaves: Map<u64, D>,
    value: D,
    max_depth: u32,
)
    requires
        1 <= max_depth <= MAX_LEVEL,
        value.eq_spec(&value),
        forall|key: u64| leaves.contains_key(key) ==> key == 1 || key / 8 == 1,
    ensures
        merged(leaves, unit_cube(), value, max_depth as nat) == map![1u64 => value],
        leaf_volume(merged(leaves, unit_cube(), value, max_depth as nat), max_depth as nat)
            == cells_in(max_depth as nat),
{
    lemma_whole_cube(leaves, value, max_depth as nat);
    let after = merged(leaves, unit_cube(), value, max_depth as nat);
    assert(after =~= map![1u64 => value]);
    lemma_cell_holds_center(1);
    assert forall|x: int, y: int, z: int|
        0 <= x < UNIT && 0 <= y < UNIT && 0 <= z < UNIT implies #[trigger] covered(
        after.dom(),
        x,
        y,
        z,
    ) by {
        assert(after.dom().contains(1) && cell_of(1).holds(x, y, z));
    }
    lemma_partition_volume(after, max_depth);
}

} // verus!
