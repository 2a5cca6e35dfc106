//! What holds of painting, whatever the tree and the box.
use vstd::prelude::*;
use vstd::std_specs::cmp::PartialEqSpec;
use vstd::std_specs::convert::FromSpec;
use crate::aabb::{Cuboid, lemma_exploded_parts};
use crate::loc_code::{
    LocCode, MAX_LEVEL, center_of, is_code, lemma_child_is_code, lemma_code_has_room, level_of,
};
use crate::node::OctreeNode;
use crate::octree::{converted, keys_within, mapped_by, nodes_mapped_by};
use crate::orientation::Orientation;
use crate::paint::{
    TOP_CODE, child_code, children, collapsed, compressed, filled, footprint, footprint_of,
    lemma_settle_idle, merged, painted, parents, settle, sweep, uniform,
};

verus! {

/// The leaves into which a box falls inside a cell lie below that cell,
/// no deeper than the depth limit.
pub proof fn lemma_footprint_codes(b: Cuboid, code: u64, depth: nat, max_depth: nat)
    requires
        b.wf(),
        is_code(code),
        level_of(code) + 1 == depth,
        depth <= max_depth <= MAX_LEVEL,
    ensures
        forall|leaf: u64| #[trigger]
            footprint(b, code, depth, max_depth).contains(leaf) ==> is_code(leaf) && depth
                <= level_of(leaf) <= max_depth,
    decreases max_depth - depth, 1nat, 0nat,
{
    let pieces = b.exploded(center_of(code));
    lemma_exploded_parts(b, center_of(code));
    assert forall|k: int| 0 <= k < pieces.len() implies (#[trigger] pieces[k]).wf()
        && pieces[k].orientation.is_corner() by {
        assert(b.exploded(center_of(code))[k].wf());
    }
    lemma_footprint_of_codes(pieces, code, depth, max_depth);
    assert(footprint(b, code, depth, max_depth) == footprint_of(pieces, code, depth, max_depth));
}

/// The same, of the parts of a box in the octants of a cell.
pub(crate) proof fn lemma_footprint_of_codes(pieces: Seq<Cuboid>, code: u64, depth: nat, max_depth: nat)
    requires
        forall|k: int|
            0 <= k < pieces.len() ==> (#[trigger] pieces[k]).wf()
                && pieces[k].orientation.is_corner(),
        is_code(code),
        level_of(code) + 1 == depth,
        depth <= max_depth <= MAX_LEVEL,
    ensures
        forall|leaf: u64| #[trigger]
            footprint_of(pieces, code, depth, max_depth).contains(leaf) ==> is_code(leaf)
                && depth <= level_of(leaf) <= max_depth,
    decreases max_depth - depth, 0nat, pieces.len(),
{
    if pieces.len() > 0 {
        let piece = pieces.last();
        let selector = piece.orientation.selector_spec();
        let child = child_code(code, selector as int);
        lemma_code_has_room(code);
        lemma_child_is_code(code, selector);
        let front = pieces.drop_last();
        assert forall|k: int| 0 <= k < front.len() implies (#[trigger] front[k]).wf()
            && front[k].orientation.is_corner() by {
            assert(front[k] == pieces[k]);
        }
        lemma_footprint_of_codes(front, code, depth, max_depth);
        let before = footprint_of(front, code, depth, max_depth);
        assert(piece == pieces[pieces.len() - 1]);
        assert(is_code(child) && level_of(child) == depth);
        if piece.fits(depth, max_depth) {
            assert(footprint_of(pieces, code, depth, max_depth) == before.insert(child));
        } else if depth < max_depth {
            let inner = piece.tagged(Orientation::N);
            lemma_footprint_codes(inner, child, depth + 1, max_depth);
            assert(footprint_of(pieces, code, depth, max_depth) == before.union(
                footprint(inner, child, depth + 1, max_depth),
            ));
        } else {
            assert(footprint_of(pieces, code, depth, max_depth) == before);
        }
    }
}

/// Painting stores leaves at location codes within the depth limit only.
pub(crate) proof fn lemma_painted_keys<D>(
    leaves: Map<u64, D>,
    b: Cuboid,
    value: D,
    max_depth: u32,
)
    requires
        keys_within(leaves, max_depth),
        1 <= max_depth <= MAX_LEVEL,
        b.wf(),
    ensures
        keys_within(painted(leaves, footprint(b, 1, 1, max_depth as nat), value), max_depth),
{
    lemma_footprint_codes(b, 1, 1, max_depth as nat);
}

/// A group that is uniform once a set of codes was painted, in leaves that
/// had no uniform group before, has one of the painted codes among its
/// children.
pub(crate) proof fn lemma_painted_uniform<D: PartialEq>(
    leaves: Map<u64, D>,
    cells: Set<u64>,
    value: D,
    code: u64,
)
    requires
        compressed(leaves),
        uniform(painted(leaves, cells, value), code),
    ensures
        parents(cells).contains(code),
{
    let after = painted(leaves, cells, value);
    if !parents(cells).contains(code) {
        assert forall|selector: int| 0 <= selector < 8 implies !cells.contains(
            #[trigger] child_code(code, selector),
        ) by {
            let child = child_code(code, selector);
            if cells.contains(child) {
                assert(child / 8 == code);
            }
        }
        assert(uniform(leaves, code)) by {
            assert(!cells.contains(child_code(code, 0)));
            assert forall|selector: int| 0 <= selector < 8 implies leaves.contains_key(
                #[trigger] child_code(code, selector),
            ) by {
                assert(after.contains_key(child_code(code, selector)));
            }
            assert forall|selector: int| 0 <= selector < 8 implies leaves[child_code(
                code,
                0,
            )].eq_spec(&leaves[#[trigger] child_code(code, selector)]) by {
                assert(after[child_code(code, 0)].eq_spec(&after[child_code(code, selector)]));
            }
        }
    }
}

/// After a pass, every uniform group is flagged for the next pass, or was
/// left aside before the pass: nothing that the pass made uniform escapes.
pub(crate) proof fn lemma_sweep_flags<D: PartialEq>(
    leaves: Map<u64, D>,
    flagged: Set<u64>,
    from: u64,
    aside: Set<u64>,
    limit: u32,
)
    requires
        keys_within(leaves, limit),
        forall|code: u64| #[trigger]
            uniform(leaves, code) ==> (flagged.contains(code) && 1 <= code <= from)
                || aside.contains(code),
    ensures
        keys_within(sweep(leaves, flagged, from).0, limit),
        forall|code: u64| #[trigger]
            uniform(sweep(leaves, flagged, from).0, code) ==> sweep(
                leaves,
                flagged,
                from,
            ).1.contains(code) || aside.contains(code),
        forall|code: u64| #[trigger]
            sweep(leaves, flagged, from).1.contains(code) ==> 1 <= code <= from / 8,
    decreases from,
{
    if from > 0 {
        let below = (from - 1) as u64;
        if flagged.contains(from) && uniform(leaves, from) {
            let next = collapsed(leaves, from);
            let first = child_code(from, 0);
            assert(leaves.contains_key(first));
            assert(first / 8 == from);
            assert(is_code(from) && level_of(from) < limit);
            let more = if from / 8 > 0 {
                aside.insert(from / 8)
            } else {
                aside
            };
            assert forall|code: u64| #[trigger] uniform(next, code) implies (flagged.contains(
                code,
            ) && 1 <= code <= below) || more.contains(code) by {
                if code == from {
                    assert(next.contains_key(child_code(code, 0)));
                    assert(child_code(code, 0) / 8 == from);
                    assert(child_code(code, 0) != from);
                } else if code == from / 8 {
                    if from / 8 == 0 {
                        assert(next.contains_key(child_code(code, 0)));
                        assert(child_code(code, 0) == 0);
                    }
                } else {
                    assert forall|selector: int| 0 <= selector < 8 implies {
                        let child = #[trigger] child_code(code, selector);
                        leaves.contains_key(child) && next[child] == leaves[child]
                    } by {
                        let child = child_code(code, selector);
                        assert(next.contains_key(child));
                        assert(child / 8 == code);
                    }
                    assert(leaves.contains_key(child_code(code, 0)));
                    assert forall|selector: int| 0 <= selector < 8 implies leaves[child_code(
                        code,
                        0,
                    )].eq_spec(&leaves[#[trigger] child_code(code, selector)]) by {
                        assert(next[child_code(code, 0)].eq_spec(
                            &next[child_code(code, selector)],
                        ));
                    }
                    assert(uniform(leaves, code));
                }
            }
            lemma_sweep_flags(next, flagged, below, more, limit);
        } else {
            lemma_sweep_flags(leaves, flagged, below, aside, limit);
        }
    }
}

/// When every uniform group is flagged, the passes leave none.
pub(crate) proof fn lemma_settle_compresses<D: PartialEq>(
    leaves: Map<u64, D>,
    flagged: Set<u64>,
    top: u64,
    limit: u32,
)
    requires
        keys_within(leaves, limit),
        forall|code: u64| #[trigger]
            uniform(leaves, code) ==> flagged.contains(code) && 1 <= code <= top,
    ensures
        keys_within(settle(leaves, flagged, top), limit),
        compressed(settle(leaves, flagged, top)),
    decreases top,
{
    if top > 0 {
        lemma_sweep_flags(leaves, flagged, top, Set::<u64>::empty(), limit);
        let pass = sweep(leaves, flagged, top);
        lemma_settle_compresses(pass.0, pass.1, top / 8, limit);
    }
}

/// Painting a box into leaves that have no group of eight equal siblings
/// leaves no such group.
pub proof fn lemma_merge_keeps_compressed<D: PartialEq>(
    leaves: Map<u64, D>,
    b: Cuboid,
    value: D,
    max_depth: u32,
)
    requires
        keys_within(leaves, max_depth),
        1 <= max_depth <= MAX_LEVEL,
        b.wf(),
        compressed(leaves),
    ensures
        keys_within(merged(leaves, b, value, max_depth as nat), max_depth),
        compressed(merged(leaves, b, value, max_depth as nat)),
{
    let cells = footprint(b, 1, 1, max_depth as nat);
    let fresh = painted(leaves, cells, value);
    lemma_painted_keys(leaves, b, value, max_depth);
    assert forall|code: u64| #[trigger] uniform(fresh, code) implies parents(cells).contains(
        code,
    ) && 1 <= code <= TOP_CODE by {
        lemma_painted_uniform(leaves, cells, value, code);
        assert(fresh.contains_key(child_code(code, 0)));
    }
    lemma_settle_compresses(fresh, parents(cells), TOP_CODE, max_depth);
}

/// After any sequence of paintings into an empty tree, no group of eight
/// equal siblings is left, and every leaf is stored at a location code
/// within the depth limit.
pub proof fn lemma_merges_compressed<D: PartialEq>(
    boxes: Seq<Cuboid>,
    values: Seq<D>,
    max_depth: u32,
)
    requires
        1 <= max_depth <= MAX_LEVEL,
        values.len() == boxes.len(),
        forall|k: int| 0 <= k < boxes.len() ==> (#[trigger] boxes[k]).wf(),
    ensures
        keys_within(filled(boxes, values, max_depth as nat), max_depth),
        compressed(filled(boxes, values, max_depth as nat)),
    decreases boxes.len(),
{
    if boxes.len() > 0 {
        let front = boxes.drop_last();
        assert forall|k: int| 0 <= k < front.len() implies (#[trigger] front[k]).wf() by {
            assert(front[k] == boxes[k]);
        }
        lemma_merges_compressed(front, values.drop_last(), max_depth);
        assert(boxes.last() == boxes[boxes.len() - 1]);
        lemma_merge_keeps_compressed(
            filled(front, values.drop_last(), max_depth as nat),
            boxes.last(),
            values.last(),
            max_depth,
        );
    } else {
        let none = filled(boxes, values, max_depth as nat);
        assert forall|code: u64| !uniform(none, code) by {
            assert(!none.contains_key(child_code(code, 0)));
        }
    }
}

/// A pass over flagged codes of which none is uniform changes nothing and
/// flags nothing.
pub(crate) proof fn lemma_sweep_idle<D: PartialEq>(leaves: Map<u64, D>, flagged: Set<u64>, from: u64)
    requires
        forall|code: u64| flagged.contains(code) ==> !uniform(leaves, code),
    ensures
        sweep(leaves, flagged, from) == (leaves, Set::<u64>::empty()),
    decreases from,
{
    if from > 0 {
        lemma_sweep_idle(leaves, flagged, (from - 1) as u64);
    }
}

/// Painting the same box with the same value twice gives what painting it
/// once gives, whenever the first painting makes no group uniform among
/// the parents of the leaves that it stores.
pub proof fn lemma_merge_twice<D: PartialEq>(
    leaves: Map<u64, D>,
    b: Cuboid,
    value: D,
    max_depth: nat,
)
    requires
        forall|code: u64|
            parents(footprint(b, 1, 1, max_depth)).contains(code) ==> !uniform(
                painted(leaves, footprint(b, 1, 1, max_depth), value),
                code,
            ),
    ensures
        merged(leaves, b, value, max_depth) == painted(
            leaves,
            footprint(b, 1, 1, max_depth),
            value,
        ),
        merged(merged(leaves, b, value, max_depth), b, value, max_depth) == merged(
            leaves,
            b,
            value,
            max_depth,
        ),
{
    let cells = footprint(b, 1, 1, max_depth);
    let fresh = painted(leaves, cells, value);
    lemma_sweep_idle(fresh, parents(cells), TOP_CODE);
    lemma_settle_idle(fresh, TOP_CODE / 8);
    assert(settle(fresh, parents(cells), TOP_CODE) == fresh);
    assert(painted(fresh, cells, value) =~= fresh);
}

/// Mapping every value to itself gives the same leaves with the same
/// values.
pub proof fn lemma_transform_identity<D, F: Fn(D) -> D>(
    before: Map<u64, D>,
    after: Map<u64, D>,
    function: F,
)
    requires
        mapped_by(before, after, function),
        forall|value: D, result: D| call_ensures(function, (value,), result) ==> result == value,
    ensures
        after == before,
{
    assert(after =~= before);
}

/// Mapping every leaf to itself gives the same leaves with the same values.
pub proof fn lemma_transform_nodes_identity<
    D,
    F: Fn(LocCode, OctreeNode<D>) -> OctreeNode<D>,
>(before: Map<u64, D>, after: Map<u64, D>, function: F)
    requires
        nodes_mapped_by(before, after, function),
        forall|code: LocCode, node: OctreeNode<D>, result: OctreeNode<D>|
            call_ensures(function, (code, node), result) ==> result == node,
    ensures
        after == before,
{
    assert forall|code: u64| before.contains_key(code) implies after[code] == before[code] by {
        let node = OctreeNode { data: before[code] };
        let result = OctreeNode { data: after[code] };
        assert(call_ensures(function, (LocCode(code), node), result));
    }
    assert(after =~= before);
}

/// Converting every value into itself gives the same leaves with the same
/// values.
pub proof fn lemma_transform_same_type<D: From<D>>(before: Map<u64, D>, after: Map<u64, D>)
    requires
        converted(before, after),
        D::obeys_from_spec(),
        forall|value: D| D::from_spec(value) == value,
    ensures
        after == before,
{
    assert(after =~= before);
}

} // verus!
