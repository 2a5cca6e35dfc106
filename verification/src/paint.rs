//! What painting a box into a tree means.
//!
//! A box is placed by descent: it is cut into its parts in the octants of
//! the root cell, a part that is accepted as a leaf names the child cell
//! that it lies in, and any other part descends into that child.  The
//! leaves so named take the painted value.  After that, groups of eight
//! equal siblings collapse into their parent, pass by pass, each pass going
//! through the codes that the pass before flagged, from the greatest down.
use vstd::prelude::*;
use vstd::std_specs::cmp::PartialEqSpec;
use crate::aabb::Cuboid;
use crate::loc_code::{CHILD_LIMIT, center_of};
use crate::orientation::Orientation;

verus! {

/// The greatest value that has room for a further digit.
pub const TOP_CODE: u64 = 0x1FFF_FFFF_FFFF_FFFF;

/// The code of the child that a selector names.
pub open spec fn child_code(code: u64, selector: int) -> u64 {
    (code * 8 + selector) as u64
}

/// The codes whose last digit was appended to `code`.
pub open spec fn children(code: u64) -> Set<u64> {
    Set::new(|child: u64| child / 8 == code)
}

/// The codes that are one digit short of a code of a set.
pub open spec fn parents(codes: Set<u64>) -> Set<u64> {
    Set::new(|parent: u64| exists|code: u64| codes.contains(code) && code / 8 == parent)
}

/// All eight children of `code` hold leaves, and the value of the first
/// compares equal to the value of each.
pub open spec fn uniform<D: PartialEq>(leaves: Map<u64, D>, code: u64) -> bool {
    &&& code < CHILD_LIMIT
    &&& forall|selector: int|
        0 <= selector < 8 ==> leaves.contains_key(#[trigger] child_code(code, selector))
    &&& forall|selector: int|
        0 <= selector < 8 ==> leaves[child_code(code, 0)].eq_spec(
            &leaves[#[trigger] child_code(code, selector)],
        )
}

/// No group of eight siblings is left to collapse.
pub open spec fn compressed<D: PartialEq>(leaves: Map<u64, D>) -> bool {
    forall|code: u64| !uniform(leaves, code)
}

/// The leaves after the children of `code` gave way to one leaf at `code`
/// with the value of the first child.
pub open spec fn collapsed<D>(leaves: Map<u64, D>, code: u64) -> Map<u64, D> {
    leaves.remove_keys(children(code)).insert(code, leaves[child_code(code, 0)])
}

/// The leaves after `value` was stored at every code of a set.
pub open spec fn painted<D>(leaves: Map<u64, D>, codes: Set<u64>, value: D) -> Map<u64, D> {
    Map::new(
        |code: u64| leaves.contains_key(code) || codes.contains(code),
        |code: u64|
            if codes.contains(code) {
                value
            } else {
                leaves[code]
            },
    )
}

/// One pass of collapsing: goes through the codes from `from` down to 1,
/// and collapses each flagged code whose children are uniform by then.
/// Gives the leaves after the pass and the codes flagged for the next one:
/// the parents of the collapsed codes.
pub open spec fn sweep<D: PartialEq>(leaves: Map<u64, D>, flagged: Set<u64>, from: u64) -> (
    Map<u64, D>,
    Set<u64>,
)
    decreases from,
{
    if from == 0 {
        (leaves, Set::empty())
    } else if flagged.contains(from) && uniform(leaves, from) {
        let (after, raised) = sweep(collapsed(leaves, from), flagged, (from - 1) as u64);
        (
            after,
            if from / 8 > 0 {
                raised.insert(from / 8)
            } else {
                raised
            },
        )
    } else {
        sweep(leaves, flagged, (from - 1) as u64)
    }
}

/// Passes of collapsing until none is left to make.  `top` bounds the
/// flagged codes; each pass flags codes one digit shorter than the last.
pub open spec fn settle<D: PartialEq>(leaves: Map<u64, D>, flagged: Set<u64>, top: u64) -> Map<
    u64,
    D,
>
    decreases top,
{
    if top == 0 {
        leaves
    } else {
        let (after, raised) = sweep(leaves, flagged, top);
        settle(after, raised, top / 8)
    }
}

/// The codes of the leaves into which a box falls inside the cell `code`,
/// whose children lie at `depth`.
pub open spec fn footprint(b: Cuboid, code: u64, depth: nat, max_depth: nat) -> Set<u64>
    decreases max_depth - depth, 1nat, 0nat,
{
    footprint_of(b.exploded(center_of(code)), code, depth, max_depth)
}

/// The codes of the leaves into which the parts of a box in the octants of
/// the cell `code` fall.
pub open spec fn footprint_of(pieces: Seq<Cuboid>, code: u64, depth: nat, max_depth: nat) -> Set<
    u64,
>
    decreases max_depth - depth, 0nat, pieces.len(),
{
    if pieces.len() == 0 {
        Set::empty()
    } else {
        let piece = pieces.last();
        let child = child_code(code, piece.orientation.selector_spec() as int);
        let before = footprint_of(pieces.drop_last(), code, depth, max_depth);
        if piece.fits(depth, max_depth) {
            before.insert(child)
        } else if depth < max_depth {
            before.union(footprint(piece.tagged(Orientation::N), child, depth + 1, max_depth))
        } else {
            before
        }
    }
}

/// The leaves after a box was painted with a value.
pub open spec fn merged<D: PartialEq>(
    leaves: Map<u64, D>,
    b: Cuboid,
    value: D,
    max_depth: nat,
) -> Map<u64, D> {
    let cells = footprint(b, 1, 1, max_depth);
    settle(painted(leaves, cells, value), parents(cells), TOP_CODE)
}

/// The leaves after the boxes of a list were painted one after the other
/// into an empty tree, each with its value.
pub open spec fn filled<D: PartialEq>(boxes: Seq<Cuboid>, values: Seq<D>, max_depth: nat) -> Map<
    u64,
    D,
>
    decreases boxes.len(),
{
    if boxes.len() == 0 {
        Map::empty()
    } else {
        merged(
            filled(boxes.drop_last(), values.drop_last(), max_depth),
            boxes.last(),
            values.last(),
            max_depth,
        )
    }
}

/// A pass may start at any code that no flagged code lies above.
pub(crate) proof fn lemma_sweep_skip<D: PartialEq>(
    leaves: Map<u64, D>,
    flagged: Set<u64>,
    from: u64,
    to: u64,
)
    requires
        to <= from,
        forall|code: u64| to < code <= from ==> !flagged.contains(code),
    ensures
        sweep(leaves, flagged, from) == sweep(leaves, flagged, to),
    decreases from,
{
    if from > to {
        lemma_sweep_skip(leaves, flagged, (from - 1) as u64, to);
    }
}

/// The parents of a set with one more code.
pub(crate) proof fn lemma_parents_insert(codes: Set<u64>, code: u64)
    ensures
        parents(codes.insert(code)) == parents(codes).insert(code / 8),
{
    let more = codes.insert(code);
    assert forall|parent: u64|
        parents(more).contains(parent) <==> parents(codes).insert(code / 8).contains(
            parent,
        ) by {
        if parents(more).contains(parent) {
            let child = choose|child: u64| more.contains(child) && child / 8 == parent;
            if child != code {
                assert(codes.contains(child));
            }
        }
        if parents(codes).contains(parent) {
            let child = choose|child: u64| codes.contains(child) && child / 8 == parent;
            assert(more.contains(child));
        }
        if parent == code / 8 {
            assert(more.contains(code));
        }
    }
    assert(parents(more) =~= parents(codes).insert(code / 8));
}

/// The parents of the union of two sets.
pub(crate) proof fn lemma_parents_union(one: Set<u64>, other: Set<u64>)
    ensures
        parents(one.union(other)) == parents(one).union(parents(other)),
{
    let both = one.union(other);
    assert forall|parent: u64|
        parents(both).contains(parent) <==> parents(one).union(parents(other)).contains(
            parent,
        ) by {
        if parents(both).contains(parent) {
            let child = choose|child: u64| both.contains(child) && child / 8 == parent;
            if one.contains(child) {
                assert(parents(one).contains(parent));
            } else {
                assert(other.contains(child));
                assert(parents(other).contains(parent));
            }
        }
        if parents(one).contains(parent) {
            let child = choose|child: u64| one.contains(child) && child / 8 == parent;
            assert(both.contains(child));
        }
        if parents(other).contains(parent) {
            let child = choose|child: u64| other.contains(child) && child / 8 == parent;
            assert(both.contains(child));
        }
    }
    assert(parents(both) =~= parents(one).union(parents(other)));
}

/// With no code flagged, nothing collapses.
pub(crate) proof fn lemma_settle_idle<D: PartialEq>(leaves: Map<u64, D>, top: u64)
    ensures
        settle(leaves, Set::<u64>::empty(), top) == leaves,
    decreases top,
{
    if top > 0 {
        lemma_sweep_skip(leaves, Set::<u64>::empty(), top, 0);
        lemma_settle_idle(leaves, top / 8);
    }
}

} // verus!
