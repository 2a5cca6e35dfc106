//! Cells as boxes, and boxes that lie in one cell.
use vstd::prelude::*;
use vstd::std_specs::cmp::PartialEqSpec;
use crate::aabb::{
    AABB, Cuboid, PlaneAxis, lemma_exploded_parts, lemma_exploded_tags_differ, spread,
};
use crate::laws::{lemma_footprint_codes, lemma_footprint_of_codes};
use crate::loc_code::{
    CHILD_LIMIT, LocCode, MAX_LEVEL, center_of, half_edge, is_code, lemma_child_is_code,
    lemma_code_has_room, lemma_half_edge_shift, lemma_level_bound, lemma_parent_is_code,
    level_of,
};
use crate::orientation::{Orientation, sides_of_selector};
use crate::paint::{child_code, footprint, footprint_of, merged, painted, parents, uniform};

verus! {

/// The cell that a code addresses, as a box: half an edge to either side
/// of its center along each axis.
pub open spec fn cell_of(code: u64) -> Cuboid {
    let center = center_of(code);
    let reach = half_edge(level_of(code));
    Cuboid {
        x1: center.0 - reach,
        y1: center.1 - reach,
        z1: center.2 - reach,
        x2: center.0 + reach,
        y2: center.1 + reach,
        z2: center.2 + reach,
        orientation: Orientation::N,
    }
}

impl LocCode {
    /// The cell that the code addresses, as a box under the neutral tag.
    pub fn cell(self) -> (cell: AABB)
        requires
            is_code(self.0),
        ensures
            cell@ == cell_of(self.0),
    {
        let center = self.get_center_u32();
        let level = self.get_level();
        proof {
            crate::loc_code::lemma_center_bounds(self.0);
            lemma_half_edge_shift(level);
            assert(0x8000_0000u64 >> level == (0x8000_0000u32 >> level) as u64) by (bit_vector)
                requires
                    level <= 31,
            ;
        }
        let reach: u64 = 0x8000_0000u64 >> level;
        let x: u64 = center.0 as u64;
        let y: u64 = center.1 as u64;
        let z: u64 = center.2 as u64;
        AABB::new(x - reach, y - reach, z - reach, x + reach, y + reach, z + reach)
    }
}

/// The box lies in the cell of a code and reaches beyond each of the
/// lower faces of that cell: when cut at the planes of the levels above,
/// it falls whole into that cell.
pub open spec fn lodged(b: Cuboid, code: u64) -> bool {
    let cell = cell_of(code);
    &&& b.within(cell)
    &&& cell.x1 < b.x2
    &&& cell.y1 < b.y2
    &&& cell.z1 < b.z2
}

/// The code that lies `up` levels above a code.
pub open spec fn ancestor(code: u64, up: nat) -> u64
    decreases up,
{
    if up == 0 {
        code
    } else {
        ancestor(code / 8, (up - 1) as nat)
    }
}

/// The cell of a child is the octant of its parent's cell at the corner
/// that the child's selector names.
pub proof fn lemma_child_cell(code: u64, selector: u8)
    requires
        is_code(code),
        code < CHILD_LIMIT,
        selector <= 7,
    ensures
        ({
            let child = cell_of(child_code(code, selector as int));
            let parent = cell_of(code);
            let center = center_of(code);
            let sides = sides_of_selector(selector as int);
            &&& child.x1 == if sides.0 < 0 { parent.x1 } else { center.0 }
            &&& child.x2 == if sides.0 < 0 { center.0 } else { parent.x2 }
            &&& child.y1 == if sides.1 < 0 { parent.y1 } else { center.1 }
            &&& child.y2 == if sides.1 < 0 { center.1 } else { parent.y2 }
            &&& child.z1 == if sides.2 < 0 { parent.z1 } else { center.2 }
            &&& child.z2 == if sides.2 < 0 { center.2 } else { parent.z2 }
            &&& child.within(parent)
        }),
{
    lemma_child_is_code(code, selector);
    lemma_level_bound(code);
    lemma_half_edge_shift(level_of(code) as u32);
}

/// A box that is lodged in a cell is lodged in every cell above it.
pub(crate) proof fn lemma_lodged_above(b: Cuboid, code: u64, up: nat)
    requires
        is_code(code),
        lodged(b, code),
        up <= level_of(code),
    ensures
        is_code(ancestor(code, up)),
        level_of(ancestor(code, up)) + up == level_of(code),
        lodged(b, ancestor(code, up)),
    decreases up,
{
    if up > 0 {
        lemma_parent_is_code(code);
        lemma_level_bound(code / 8);
        lemma_code_has_room(code / 8);
        lemma_child_cell(code / 8, (code % 8) as u8);
        lemma_lodged_above(b, code / 8, (up - 1) as nat);
    }
}

/// The step up from the ancestor `up - 1` levels above a code leads to the
/// ancestor `up` levels above it.
pub(crate) proof fn lemma_ancestor_step(code: u64, up: nat)
    requires
        up >= 1,
    ensures
        ancestor(code, up) == ancestor(code, (up - 1) as nat) / 8,
    decreases up,
{
    if up > 1 {
        lemma_ancestor_step(code / 8, (up - 1) as nat);
        assert(ancestor(code, up) == ancestor(code / 8, (up - 1) as nat));
        assert(ancestor(code, (up - 1) as nat) == ancestor(code / 8, (up - 2) as nat));
    } else {
        assert(ancestor(code, 1) == ancestor(code / 8, 0));
        assert(ancestor(code, 0) == code);
    }
}

/// A box lodged in a child cell explodes, around the center of the parent
/// cell, into one part: the box itself under the corner of that child.
pub(crate) proof fn lemma_lodged_explodes(b: Cuboid, code: u64, selector: u8)
    requires
        b.wf(),
        b.orientation == Orientation::N,
        is_code(code),
        code < CHILD_LIMIT,
        selector <= 7,
        lodged(b, child_code(code, selector as int)),
    ensures
        b.exploded(center_of(code)).len() == 1,
        b.exploded(center_of(code))[0].tagged(Orientation::N) == b,
        b.exploded(center_of(code))[0].orientation.selector_spec() == selector,
{
    lemma_child_cell(code, selector);
    let center = center_of(code);
    let along_x = b.sliced(PlaneAxis::X, center.0);
    assert(along_x.len() == 1);
    lemma_spread_single(along_x, PlaneAxis::Y, center.1);
    let along_y = spread(along_x, PlaneAxis::Y, center.1);
    assert(along_y.len() == 1);
    lemma_spread_single(along_y, PlaneAxis::Z, center.2);
}

/// Cutting a sequence of one box gives the parts of that box.
pub(crate) proof fn lemma_spread_single(boxes: Seq<Cuboid>, axis: PlaneAxis, at: int)
    requires
        boxes.len() == 1,
    ensures
        spread(boxes, axis, at) == boxes[0].sliced(axis, at),
{
    assert(boxes.drop_last().len() == 0);
    assert(spread(boxes.drop_last(), axis, at) == Seq::<Cuboid>::empty());
    assert(spread(boxes, axis, at) =~= boxes.last().sliced(axis, at));
}

/// Half edges shrink with the level.
pub(crate) proof fn lemma_half_edge_shrinks(shallow: nat, deep: nat)
    requires
        shallow < deep <= 31,
    ensures
        half_edge(shallow) >= 2 * half_edge(deep),
        half_edge(deep) >= 1,
    decreases deep - shallow,
{
    lemma_half_edge_shift(shallow as u32);
    lemma_half_edge_shift(deep as u32);
    if shallow + 1 < deep {
        lemma_half_edge_shrinks(shallow + 1, deep);
    }
}

/// Whether a box that falls whole into the cell of a code is accepted
/// there as a leaf: the cell lies on the deepest level, or the box is as
/// wide as the cell along each axis.
pub open spec fn settles_at(b: Cuboid, code: u64, max_depth: nat) -> bool {
    ||| level_of(code) == max_depth
    ||| {
        &&& b.x2 - b.x1 == 2 * half_edge(level_of(code))
        &&& b.y2 - b.y1 == 2 * half_edge(level_of(code))
        &&& b.z2 - b.z1 == 2 * half_edge(level_of(code))
    }
}

/// A box lodged in a cell in which it is accepted falls, from any cell
/// above, into the leaf of that cell and no other.
pub(crate) proof fn lemma_lodged_footprint(b: Cuboid, leaf: u64, up: nat, max_depth: nat)
    requires
        b.wf(),
        b.orientation == Orientation::N,
        is_code(leaf),
        level_of(leaf) <= max_depth <= MAX_LEVEL,
        1 <= up <= level_of(leaf),
        lodged(b, leaf),
        settles_at(b, leaf, max_depth),
    ensures
        footprint(b, ancestor(leaf, up), (level_of(leaf) - up + 1) as nat, max_depth) == set![leaf],
    decreases up,
{
    let deep = level_of(leaf);
    let above = ancestor(leaf, up);
    let below = ancestor(leaf, (up - 1) as nat);
    let depth = (deep - up + 1) as nat;
    lemma_ancestor_step(leaf, up);
    lemma_lodged_above(b, leaf, up);
    lemma_lodged_above(b, leaf, (up - 1) as nat);
    lemma_parent_is_code(below);
    lemma_code_has_room(above);
    let selector = (below % 8) as u8;
    assert(child_code(above, selector as int) == below);
    lemma_lodged_explodes(b, above, selector);
    let pieces = b.exploded(center_of(above));
    let piece = pieces[0];
    assert(pieces.last() == piece);
    assert(pieces.drop_last().len() == 0);
    assert(footprint_of(pieces.drop_last(), above, depth, max_depth) == Set::<u64>::empty());
    assert(footprint(b, above, depth, max_depth) == footprint_of(pieces, above, depth, max_depth));
    let shift: u32 = depth as u32;
    crate::aabb::lemma_cell_edge_shift(shift);
    lemma_half_edge_shift(shift);
    assert(0x1_0000_0000u64 >> shift == 2 * ((0x8000_0000u32 >> shift) as u64)) by (bit_vector)
        requires
            shift <= 31,
    ;
    if up == 1 {
        assert(below == leaf);
        assert(piece.fits(depth, max_depth));
        assert(footprint_of(pieces, above, depth, max_depth) =~= set![leaf]);
    } else {
        lemma_half_edge_shrinks(depth, deep);
        assert(!piece.fits(depth, max_depth));
        lemma_lodged_footprint(b, leaf, (up - 1) as nat, max_depth);
        assert(footprint_of(pieces, above, depth, max_depth) =~= set![leaf]);
    }
}

/// At the depth limit a box is stored whole, canonical cell or not: a box
/// lodged in a cell on the deepest level is painted into exactly one leaf,
/// at the code of that cell.
pub proof fn lemma_ceiling_single_leaf<D: PartialEq>(b: Cuboid, leaf: u64, max_depth: nat)
    requires
        b.wf(),
        b.orientation == Orientation::N,
        is_code(leaf),
        level_of(leaf) == max_depth,
        1 <= max_depth <= MAX_LEVEL,
        lodged(b, leaf),
    ensures
        footprint(b, 1, 1, max_depth) == set![leaf],
        forall|value: D|
            merged(Map::<u64, D>::empty(), b, value, max_depth) == map![leaf => value],
{
    lemma_lodged_above(b, leaf, max_depth);
    lemma_lodged_footprint(b, leaf, max_depth, max_depth);
    assert(ancestor(leaf, max_depth) == 1);
    assert forall|value: D|
        merged(Map::<u64, D>::empty(), b, value, max_depth) == map![leaf => value] by {
        let sibling: u64 = if leaf % 8 == 0 {
            (leaf + 1) as u64
        } else {
            (leaf - 1) as u64
        };
        assert(sibling / 8 == leaf / 8 && sibling != leaf && !Map::<u64, D>::empty().contains_key(
            sibling,
        ));
        lemma_single_leaf(Map::<u64, D>::empty(), b, leaf, value, max_depth);
        assert(Map::<u64, D>::empty().insert(leaf, value) =~= map![leaf => value]);
    }
}

/// Where a box falls into one leaf whose siblings are not all stored,
/// painting it stores that leaf and changes nothing else.
pub proof fn lemma_single_leaf<D: PartialEq>(
    leaves: Map<u64, D>,
    b: Cuboid,
    leaf: u64,
    value: D,
    max_depth: nat,
)
    requires
        footprint(b, 1, 1, max_depth) == set![leaf],
        exists|sibling: u64|
            sibling / 8 == leaf / 8 && sibling != leaf && !leaves.contains_key(sibling),
    ensures
        merged(leaves, b, value, max_depth) == leaves.insert(leaf, value),
{
    let cells = set![leaf];
    let fresh = painted(leaves, cells, value);
    let sibling = choose|sibling: u64|
        sibling / 8 == leaf / 8 && sibling != leaf && !leaves.contains_key(sibling);
    assert forall|code: u64| parents(cells).contains(code) implies !uniform(fresh, code) by {
        let child = choose|child: u64| cells.contains(child) && child / 8 == code;
        assert(child == leaf);
        if uniform(fresh, code) {
            assert(child_code(code, (sibling % 8) as int) == sibling);
            assert(fresh.contains_key(child_code(code, (sibling % 8) as int)));
        }
    }
    crate::laws::lemma_merge_twice(leaves, b, value, max_depth);
    assert(fresh =~= leaves.insert(leaf, value));
}

/// The cell of a code below the root, painted as a box, falls into the
/// leaf of that code and no other.
pub proof fn lemma_cell_footprint(code: u64, max_depth: nat)
    requires
        is_code(code),
        1 <= level_of(code) <= max_depth <= MAX_LEVEL,
    ensures
        cell_of(code).wf(),
        footprint(cell_of(code), 1, 1, max_depth) == set![code],
{
    crate::loc_code::lemma_center_bounds(code);
    lemma_half_edge_shift(level_of(code) as u32);
    lemma_lodged_above(cell_of(code), code, level_of(code));
    lemma_lodged_footprint(cell_of(code), code, level_of(code), max_depth);
    assert(ancestor(code, level_of(code)) == 1);
}

/// `key` is `code` or lies below it: some number of steps up from `key`
/// lead to `code`.
pub open spec fn below(code: u64, key: u64) -> bool {
    exists|up: nat| #[trigger] ancestor(key, up) == code
}

/// No code of the set lies below another: the cells of the set do not
/// overlap.
pub open spec fn antichain(keys: Set<u64>) -> bool {
    forall|one: u64, other: u64|
        keys.contains(one) && keys.contains(other) && one != other ==> !below(one, other)
}

/// A point lies in the cell of a code of the set.
pub open spec fn covered(keys: Set<u64>, x: int, y: int, z: int) -> bool {
    exists|key: u64| keys.contains(key) && (#[trigger] cell_of(key)).holds(x, y, z)
}

/// Steps up from a location code lead to location codes until the root
/// is passed.
pub(crate) proof fn lemma_ancestor_code(key: u64, up: nat)
    requires
        is_code(key),
        ancestor(key, up) >= 1,
    ensures
        up <= level_of(key),
        is_code(ancestor(key, up)),
        level_of(ancestor(key, up)) + up == level_of(key),
    decreases up,
{
    if up > 0 {
        if key == 1 {
            lemma_ancestor_of_zero((up - 1) as nat);
        } else {
            lemma_parent_is_code(key);
            lemma_ancestor_code(key / 8, (up - 1) as nat);
        }
    }
}

/// Steps up from zero stay at zero.
pub(crate) proof fn lemma_ancestor_of_zero(up: nat)
    ensures
        ancestor(0, up) == 0,
    decreases up,
{
    if up > 0 {
        lemma_ancestor_of_zero((up - 1) as nat);
    }
}

/// The cell of a code lies within the cell of every code above it.
pub(crate) proof fn lemma_cell_nested(key: u64, up: nat)
    requires
        is_code(key),
        up <= level_of(key),
    ensures
        is_code(ancestor(key, up)),
        cell_of(key).within(cell_of(ancestor(key, up))),
{
    crate::loc_code::lemma_center_bounds(key);
    lemma_level_bound(key);
    lemma_half_edge_shift(level_of(key) as u32);
    lemma_lodged_above(cell_of(key), key, up);
}

/// The center of a cell lies in the cell.
pub(crate) proof fn lemma_cell_holds_center(key: u64)
    requires
        is_code(key),
    ensures
        cell_of(key).holds(center_of(key).0, center_of(key).1, center_of(key).2),
        cell_of(key).wf(),
{
    crate::loc_code::lemma_center_bounds(key);
    lemma_level_bound(key);
    lemma_half_edge_shift(level_of(key) as u32);
}

/// A point of a cell lies in the cell of exactly one of its children.
pub(crate) proof fn lemma_point_in_child(code: u64, x: int, y: int, z: int) -> (selector: u8)
    requires
        is_code(code),
        code < CHILD_LIMIT,
        cell_of(code).holds(x, y, z),
    ensures
        selector <= 7,
        cell_of(child_code(code, selector as int)).holds(x, y, z),
        forall|other: u8|
            other <= 7 && cell_of(child_code(code, other as int)).holds(x, y, z) ==> other
                == selector,
{
    let center = center_of(code);
    let left = x < center.0;
    let down = y < center.1;
    let back = z < center.2;
    let selector: u8 = if left {
        if down {
            if back { 3 } else { 2 }
        } else {
            if back { 0 } else { 1 }
        }
    } else {
        if down {
            if back { 4 } else { 5 }
        } else {
            if back { 7 } else { 6 }
        }
    };
    lemma_child_cell(code, selector);
    assert forall|other: u8|
        other <= 7 && cell_of(child_code(code, other as int)).holds(x, y, z) implies other
        == selector by {
        lemma_child_cell(code, other);
    }
    selector
}

/// Two cells on one level that share a point are the same cell.
pub(crate) proof fn lemma_same_level(one: u64, other: u64, x: int, y: int, z: int)
    requires
        is_code(one),
        is_code(other),
        level_of(one) == level_of(other),
        cell_of(one).holds(x, y, z),
        cell_of(other).holds(x, y, z),
    ensures
        one == other,
    decreases one,
{
    if one != 1 && other != 1 {
        lemma_parent_is_code(one);
        lemma_parent_is_code(other);
        lemma_cell_nested(one, 1);
        lemma_cell_nested(other, 1);
        assert(ancestor(one, 1) == one / 8) by {
            assert(ancestor(one / 8, 0) == one / 8);
        }
        assert(ancestor(other, 1) == other / 8) by {
            assert(ancestor(other / 8, 0) == other / 8);
        }
        lemma_same_level(one / 8, other / 8, x, y, z);
        let parent = one / 8;
        lemma_level_bound(parent);
        lemma_code_has_room(parent);
        let selector = lemma_point_in_child(parent, x, y, z);
        assert(child_code(parent, (one % 8) as int) == one);
        assert(child_code(parent, (other % 8) as int) == other);
        assert((one % 8) as u8 == selector);
        assert((other % 8) as u8 == selector);
    }
}

/// Of two cells that share a point, the one that is not on a deeper level
/// is the other or lies above it.
pub proof fn lemma_related(high: u64, low: u64, x: int, y: int, z: int)
    requires
        is_code(high),
        is_code(low),
        level_of(high) <= level_of(low),
        cell_of(high).holds(x, y, z),
        cell_of(low).holds(x, y, z),
    ensures
        below(high, low),
{
    let up = (level_of(low) - level_of(high)) as nat;
    lemma_cell_holds_center(low);
    lemma_cell_nested(low, up);
    lemma_lodged_above(cell_of(low), low, up);
    lemma_same_level(high, ancestor(low, up), x, y, z);
}

/// Steps up add up.
pub(crate) proof fn lemma_ancestor_sum(key: u64, first: nat, then: nat)
    ensures
        ancestor(ancestor(key, first), then) == ancestor(key, first + then),
    decreases first,
{
    if first > 0 {
        lemma_ancestor_sum(key / 8, (first - 1) as nat, then);
    }
}

/// Two location codes on one level above one location code are the same.
pub(crate) proof fn lemma_one_way_up(key: u64, one: u64, other: u64)
    requires
        is_code(key),
        one >= 1,
        other >= 1,
        below(one, key),
        below(other, key),
        level_of(one) == level_of(other),
    ensures
        one == other,
{
    let up = choose|up: nat| #[trigger] ancestor(key, up) == one;
    let more = choose|more: nat| #[trigger] ancestor(key, more) == other;
    lemma_ancestor_code(key, up);
    lemma_ancestor_code(key, more);
}

/// Of two location codes that lie at or below two different children of
/// one cell, neither lies at or below the other.
pub(crate) proof fn lemma_cousins_apart(one: u64, other: u64, left: u64, right: u64)
    requires
        is_code(one),
        is_code(other),
        is_code(left),
        is_code(right),
        level_of(left) == level_of(right),
        left != right,
        below(left, one),
        below(right, other),
    ensures
        !below(one, other),
        !below(other, one),
{
    if below(one, other) {
        let up = choose|up: nat| #[trigger] ancestor(other, up) == one;
        let more = choose|more: nat| #[trigger] ancestor(one, more) == left;
        lemma_ancestor_sum(other, up, more);
        assert(ancestor(other, up + more) == left);
        lemma_one_way_up(other, left, right);
    }
    if below(other, one) {
        let up = choose|up: nat| #[trigger] ancestor(one, up) == other;
        let more = choose|more: nat| #[trigger] ancestor(other, more) == right;
        lemma_ancestor_sum(one, up, more);
        assert(ancestor(one, up + more) == right);
        lemma_one_way_up(one, left, right);
    }
}

/// The leaves into which a box under the neutral tag falls have cells
/// that do not overlap, and lie below the cell inside which it falls.
pub proof fn lemma_footprint_antichain(b: Cuboid, code: u64, depth: nat, max_depth: nat)
    requires
        b.wf(),
        b.orientation == Orientation::N,
        is_code(code),
        level_of(code) + 1 == depth,
        depth <= max_depth <= MAX_LEVEL,
    ensures
        antichain(footprint(b, code, depth, max_depth)),
        forall|leaf: u64| #[trigger]
            footprint(b, code, depth, max_depth).contains(leaf) ==> below(code, leaf) && leaf
                != code,
    decreases max_depth - depth, 1nat, 0nat,
{
    let pieces = b.exploded(center_of(code));
    lemma_exploded_parts(b, center_of(code));
    lemma_exploded_tags_differ(b, center_of(code));
    lemma_footprint_of_antichain(pieces, code, depth, max_depth);
    assert(footprint(b, code, depth, max_depth) == footprint_of(pieces, code, depth, max_depth));
    lemma_footprint_codes(b, code, depth, max_depth);
    lemma_code_has_room(code);
    assert forall|leaf: u64| #[trigger]
        footprint(b, code, depth, max_depth).contains(leaf) implies below(code, leaf) && leaf
        != code by {
        let k = choose|k: int|
            0 <= k < pieces.len() && below(
                child_code(code, (#[trigger] pieces[k]).orientation.selector_spec() as int),
                leaf,
            );
        let child = child_code(code, pieces[k].orientation.selector_spec() as int);
        lemma_child_is_code(code, pieces[k].orientation.selector_spec());
        let up = choose|up: nat| #[trigger] ancestor(leaf, up) == child;
        lemma_ancestor_step(leaf, up + 1);
        assert(ancestor(leaf, up + 1) == code);
    }
}

/// The same, of the parts of a box in the octants of a cell, no two of
/// which lie in one octant.
pub(crate) proof fn lemma_footprint_of_antichain(
    pieces: Seq<Cuboid>,
    code: u64,
    depth: nat,
    max_depth: nat,
)
    requires
        forall|k: int|
            0 <= k < pieces.len() ==> (#[trigger] pieces[k]).wf()
                && pieces[k].orientation.is_corner(),
        forall|i: int, j: int|
            0 <= i < j < pieces.len() ==> (#[trigger] pieces[i]).orientation != (
            #[trigger] pieces[j]).orientation,
        is_code(code),
        level_of(code) + 1 == depth,
        depth <= max_depth <= MAX_LEVEL,
    ensures
        antichain(footprint_of(pieces, code, depth, max_depth)),
        forall|leaf: u64| #[trigger]
            footprint_of(pieces, code, depth, max_depth).contains(leaf) ==> exists|k: int|
                0 <= k < pieces.len() && below(
                    child_code(code, (#[trigger] pieces[k]).orientation.selector_spec() as int),
                    leaf,
                ),
    decreases max_depth - depth, 0nat, pieces.len(),
{
    let cells = footprint_of(pieces, code, depth, max_depth);
    if pieces.len() > 0 {
        let front = pieces.drop_last();
        let piece = pieces.last();
        let last = pieces.len() - 1;
        let selector = piece.orientation.selector_spec();
        let child = child_code(code, selector as int);
        assert(piece == pieces[last]);
        assert forall|k: int| 0 <= k < front.len() implies front[k] == pieces[k] by {}
        lemma_code_has_room(code);
        lemma_child_is_code(code, selector);
        lemma_footprint_of_antichain(front, code, depth, max_depth);
        lemma_footprint_of_codes(front, code, depth, max_depth);
        let before = footprint_of(front, code, depth, max_depth);
        let inner = piece.tagged(Orientation::N);
        let fresh = if piece.fits(depth, max_depth) {
            set![child]
        } else if depth < max_depth {
            footprint(inner, child, depth + 1, max_depth)
        } else {
            Set::<u64>::empty()
        };
        assert(cells =~= before.union(fresh));
        if !piece.fits(depth, max_depth) && depth < max_depth {
            lemma_footprint_antichain(inner, child, depth + 1, max_depth);
            lemma_footprint_codes(inner, child, depth + 1, max_depth);
        }
        assert forall|leaf: u64| fresh.contains(leaf) implies below(child, leaf) && is_code(
            leaf,
        ) by {
            if piece.fits(depth, max_depth) {
                assert(ancestor(child, 0) == child);
            }
        }
        assert forall|leaf: u64| #[trigger] cells.contains(leaf) implies exists|k: int|
            0 <= k < pieces.len() && below(
                child_code(code, (#[trigger] pieces[k]).orientation.selector_spec() as int),
                leaf,
            ) by {
            if fresh.contains(leaf) {
                assert(below(
                    child_code(code, pieces[last].orientation.selector_spec() as int),
                    leaf,
                ));
            } else {
                let k = choose|k: int|
                    0 <= k < front.len() && below(
                        child_code(code, (#[trigger] front[k]).orientation.selector_spec() as int),
                        leaf,
                    );
                assert(below(
                    child_code(code, pieces[k].orientation.selector_spec() as int),
                    leaf,
                ));
            }
        }
        assert forall|one: u64, other: u64|
            cells.contains(one) && cells.contains(other) && one != other implies !below(
            one,
            other,
        ) by {
            if before.contains(one) != before.contains(other) || (fresh.contains(one)
                != fresh.contains(other)) {
                let (old, new) = if before.contains(one) && fresh.contains(other) {
                    (one, other)
                } else {
                    (other, one)
                };
                if before.contains(old) && fresh.contains(new) {
                    let k = choose|k: int|
                        0 <= k < front.len() && below(
                            child_code(
                                code,
                                (#[trigger] front[k]).orientation.selector_spec() as int,
                            ),
                            old,
                        );
                    let cousin = child_code(code, front[k].orientation.selector_spec() as int);
                    lemma_child_is_code(code, front[k].orientation.selector_spec());
                    assert(pieces[k].orientation != pieces[last].orientation);
                    assert(cousin != child);
                    lemma_cousins_apart(old, new, cousin, child);
                }
            }
        }
    }
}

} // verus!
