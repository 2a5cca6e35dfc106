//! What painting leaves behind when only painted leaves collapse, and
//! why painting the same box again then changes nothing.
//!
//! The painted leaves draw others in: a cell all of whose eight children
//! are painted leaves, or cells drawn in before, is drawn in too.  When
//! the leaves from before keep out of these groups, the tree after the
//! painting holds, of the cells drawn in, the outermost ones, and apart
//! from them what it held before.
use vstd::prelude::*;
use vstd::std_specs::cmp::PartialEqSpec;
use crate::aabb::Cuboid;
use crate::cells::{
    ancestor, below, lemma_ancestor_code, lemma_ancestor_step, lemma_footprint_antichain,
};
use crate::laws::lemma_footprint_codes;
use crate::loc_code::{
    CHILD_LIMIT, MAX_LEVEL, is_code, lemma_child_is_code, lemma_code_has_room,
    lemma_parent_is_code, level_of,
};
use crate::octree::keys_within;
use crate::orientation::Orientation;
use crate::paint::{
    TOP_CODE, child_code, children, collapsed, footprint, merged, painted, parents, settle,
    sweep, uniform,
};

verus! {

/// A cell is drawn in by a set of painted cells when it is one of them,
/// or all of its eight children are drawn in.  `room` is the number of
/// levels between the cell and the deepest level.
pub open spec fn drawn(cells: Set<u64>, code: u64, room: nat) -> bool
    decreases room, 1nat,
{
    cells.contains(code) || grouped(cells, code, room)
}

/// All eight children of a cell are drawn in.
pub open spec fn grouped(cells: Set<u64>, code: u64, room: nat) -> bool
    decreases room, 0nat,
{
    &&& room > 0
    &&& code < CHILD_LIMIT
    &&& forall|selector: int|
        0 <= selector < 8 ==> drawn(cells, #[trigger] child_code(code, selector), (room - 1) as nat)
}

/// The number of levels between a code and the deepest level.
pub open spec fn room_of(code: u64, max_depth: nat) -> nat {
    (max_depth - level_of(code)) as nat
}

/// A location code within the depth limit whose cell is drawn in.
pub open spec fn taken(cells: Set<u64>, code: u64, max_depth: nat) -> bool {
    &&& is_code(code)
    &&& level_of(code) <= max_depth
    &&& drawn(cells, code, room_of(code, max_depth))
}

/// A location code within the depth limit all of whose children are
/// drawn in: the root of a group that collapses.
pub open spec fn gathers(cells: Set<u64>, code: u64, max_depth: nat) -> bool {
    &&& is_code(code)
    &&& level_of(code) <= max_depth
    &&& grouped(cells, code, room_of(code, max_depth))
}

/// A cell that is drawn in and whose parent gathers no group: it is not
/// drawn further up.
pub open spec fn outermost(cells: Set<u64>, code: u64, max_depth: nat) -> bool {
    taken(cells, code, max_depth) && !gathers(cells, (code / 8) as u64, max_depth)
}

/// The leaves that a painting leaves behind when only painted leaves
/// collapse: a leaf with the painted value at each outermost cell, and
/// the leaves from before wherever no cell is drawn in.
pub open spec fn resting<D>(leaves: Map<u64, D>, cells: Set<u64>, value: D, max_depth: nat) -> Map<
    u64,
    D,
> {
    Map::new(
        |code: u64|
            if taken(cells, code, max_depth) {
                outermost(cells, code, max_depth)
            } else {
                leaves.contains_key(code)
            },
        |code: u64|
            if taken(cells, code, max_depth) {
                value
            } else {
                leaves[code]
            },
    )
}

/// No painted cell gathers a group: none has all eight children drawn in.
pub open spec fn bare(cells: Set<u64>, max_depth: nat) -> bool {
    forall|code: u64| cells.contains(code) ==> !#[trigger] gathers(cells, code, max_depth)
}

/// The leaves from before keep out of the groups that the painted cells
/// draw in: where a leaf is stored at the root of such a group, that root
/// is outermost and the leaf has the painted value; and no leaf from
/// before completes, with the painted value, a group of which some but
/// not all cells are drawn in.
pub open spec fn aloof<D>(leaves: Map<u64, D>, cells: Set<u64>, value: D, max_depth: nat) -> bool {
    &&& forall|code: u64|
        leaves.contains_key(code) && #[trigger] gathers(cells, code, max_depth) ==> outermost(
            cells,
            code,
            max_depth,
        ) && leaves[code] == value
    &&& forall|code: u64, drawn_in: int|
        0 <= drawn_in < 8 && code < CHILD_LIMIT && #[trigger] taken(
            cells,
            child_code(code, drawn_in),
            max_depth,
        ) && !gathers(cells, code, max_depth) ==> exists|selector: int|
            0 <= selector < 8 && !#[trigger] taken(cells, child_code(code, selector), max_depth)
                && !(leaves.contains_key(child_code(code, selector)) && leaves[child_code(
                code,
                selector,
            )] == value)
}

/// A cell is at hand when it is painted or was made by a collapse.
pub open spec fn at_hand(cells: Set<u64>, made: Set<u64>, code: u64) -> bool {
    cells.contains(code) || made.contains(code)
}

/// All eight children of a cell are at hand.
pub open spec fn ripe(cells: Set<u64>, made: Set<u64>, code: u64) -> bool {
    forall|selector: int|
        0 <= selector < 8 ==> at_hand(cells, made, #[trigger] child_code(code, selector))
}

/// No child of a cell is stored.
pub open spec fn emptied<D>(state: Map<u64, D>, code: u64) -> bool {
    forall|selector: int|
        0 <= selector < 8 ==> !state.contains_key(#[trigger] child_code(code, selector))
}

/// Every child of a cell that gathers a group was made by a collapse.
pub open spec fn built_up(cells: Set<u64>, made: Set<u64>, code: u64, max_depth: nat) -> bool {
    forall|selector: int|
        0 <= selector < 8 && gathers(cells, #[trigger] child_code(code, selector), max_depth)
            ==> made.contains(child_code(code, selector))
}

/// Some child of a cell is drawn in.
pub open spec fn touched(cells: Set<u64>, code: u64, max_depth: nat) -> bool {
    code < CHILD_LIMIT && exists|selector: int|
        0 <= selector < 8 && #[trigger] taken(cells, child_code(code, selector), max_depth)
}

/// The state in the middle of a pass of collapsing, when only painted
/// leaves collapse.  `made` holds the codes at which groups collapsed so
/// far, `flagged` the codes of this pass, of which those above `from` are
/// done with, and `aside` the codes flagged for the next pass.
pub open spec fn poised<D>(
    start: Map<u64, D>,
    cells: Set<u64>,
    value: D,
    max_depth: nat,
    state: Map<u64, D>,
    made: Set<u64>,
    flagged: Set<u64>,
    from: u64,
    aside: Set<u64>,
) -> bool {
    &&& forall|code: u64| #[trigger]
        state.contains_key(code) ==> is_code(code) && level_of(code) <= max_depth
    &&& forall|code: u64|
        !taken(cells, code, max_depth) ==> (#[trigger] state.contains_key(code)
            <==> start.contains_key(code)) && (state.contains_key(code) ==> state[code]
            == start[code])
    &&& forall|code: u64|
        taken(cells, code, max_depth) && #[trigger] state.contains_key(code) ==> state[code]
            == value
    &&& forall|code: u64|
        flagged.contains(code) || aside.contains(code) ==> #[trigger] touched(
            cells,
            code,
            max_depth,
        )
    &&& forall|code: u64| #[trigger]
        made.contains(code) ==> gathers(cells, code, max_depth) && emptied(state, code)
            && built_up(cells, made, code, max_depth)
    &&& forall|code: u64, selector: int|
        gathers(cells, code, max_depth) && !made.contains(code) && 0 <= selector < 8 && at_hand(
            cells,
            made,
            #[trigger] child_code(code, selector),
        ) ==> state.contains_key(child_code(code, selector))
    &&& forall|code: u64|
        gathers(cells, code, max_depth) && #[trigger] state.contains_key(code) ==> made.contains(
            code,
        ) || outermost(cells, code, max_depth)
    &&& forall|code: u64|
        at_hand(cells, made, code) && outermost(cells, code, max_depth)
            ==> #[trigger] state.contains_key(code)
    &&& forall|code: u64|
        gathers(cells, code, max_depth) && !made.contains(code) && #[trigger] ripe(
            cells,
            made,
            code,
        ) ==> (flagged.contains(code) && code <= from) || aside.contains(code)
}

/// What the children of a cell that gathers a group are, and what the
/// parent of a cell is to it.
pub(crate) proof fn lemma_gathers(cells: Set<u64>, code: u64, max_depth: nat)
    requires
        max_depth <= MAX_LEVEL,
    ensures
        gathers(cells, code, max_depth) <==> is_code(code) && level_of(code) < max_depth
            && forall|selector: int|
            0 <= selector < 8 ==> #[trigger] taken(cells, child_code(code, selector), max_depth),
        is_code(code) && level_of(code) < max_depth ==> code < CHILD_LIMIT && forall|
            selector: int,
        |
            0 <= selector < 8 ==> {
                let child = #[trigger] child_code(code, selector);
                &&& is_code(child)
                &&& level_of(child) == level_of(code) + 1
                &&& child / 8 == code
                &&& child % 8 == selector
            },
{
    if is_code(code) && level_of(code) < max_depth {
        lemma_code_has_room(code);
        assert forall|selector: int| 0 <= selector < 8 implies {
            let child = #[trigger] child_code(code, selector);
            &&& is_code(child)
            &&& level_of(child) == level_of(code) + 1
            &&& child / 8 == code
            &&& child % 8 == selector
        } by {
            lemma_child_is_code(code, selector as u8);
        }
        assert(room_of(code, max_depth) > 0);
        assert forall|selector: int| 0 <= selector < 8 implies (taken(
            cells,
            #[trigger] child_code(code, selector),
            max_depth,
        ) <==> drawn(
            cells,
            child_code(code, selector),
            (room_of(code, max_depth) - 1) as nat,
        )) by {
            lemma_child_is_code(code, selector as u8);
        }
    }
}

/// Values compare equal exactly when they are the same.
pub open spec fn plain_equality<D: PartialEq>() -> bool {
    forall|one: D, other: D| #[trigger] one.eq_spec(&other) <==> one == other
}

/// The painted cells are location codes below the root and within the
/// depth limit.
pub open spec fn placed(cells: Set<u64>, max_depth: nat) -> bool {
    forall|code: u64| #[trigger]
        cells.contains(code) ==> is_code(code) && 1 <= level_of(code) <= max_depth
}

/// A group that is uniform in the middle of a pass, at a flagged code, is
/// a group of cells that are drawn in, all at hand, and did not collapse
/// before.
pub(crate) proof fn lemma_uniform_gathers<D: PartialEq>(
    start: Map<u64, D>,
    cells: Set<u64>,
    value: D,
    max_depth: nat,
    state: Map<u64, D>,
    made: Set<u64>,
    flagged: Set<u64>,
    from: u64,
    aside: Set<u64>,
)
    requires
        max_depth <= MAX_LEVEL,
        plain_equality::<D>(),
        aloof(start, cells, value, max_depth),
        bare(cells, max_depth),
        placed(cells, max_depth),
        poised(start, cells, value, max_depth, state, made, flagged, from, aside),
        flagged.contains(from),
        uniform(state, from),
    ensures
        gathers(cells, from, max_depth),
        !made.contains(from),
        ripe(cells, made, from),
        state[child_code(from, 0)] == value,
{
    let code = from;
    assert(touched(cells, code, max_depth));
    let drawn_in = choose|selector: int|
        0 <= selector < 8 && #[trigger] taken(cells, child_code(code, selector), max_depth);
    let first = child_code(code, 0);
    assert(state.contains_key(child_code(code, drawn_in)));
    assert(state[first].eq_spec(&state[child_code(code, drawn_in)]));
    assert(state[first] == value);
    if !gathers(cells, code, max_depth) {
        let selector = choose|selector: int|
            0 <= selector < 8 && !#[trigger] taken(cells, child_code(code, selector), max_depth)
                && !(start.contains_key(child_code(code, selector)) && start[child_code(
                code,
                selector,
            )] == value);
        let odd = child_code(code, selector);
        assert(state.contains_key(odd));
        assert(state[first].eq_spec(&state[odd]));
    }
    lemma_gathers(cells, code, max_depth);
    if made.contains(code) {
        assert(emptied(state, code));
        assert(!state.contains_key(child_code(code, 0)));
    }
    assert forall|selector: int| 0 <= selector < 8 implies at_hand(
        cells,
        made,
        #[trigger] child_code(code, selector),
    ) by {
        let child = child_code(code, selector);
        assert(taken(cells, child, max_depth));
        assert(state.contains_key(child));
        if !cells.contains(child) {
            assert(gathers(cells, child, max_depth));
            assert(!outermost(cells, child, max_depth));
        }
    }
}

/// The codes flagged for the next pass once the group at a code has
/// collapsed.
pub open spec fn raised_by(aside: Set<u64>, code: u64) -> Set<u64> {
    if code / 8 > 0 {
        aside.insert((code / 8) as u64)
    } else {
        aside
    }
}

/// A collapse in the middle of a pass leaves the state poised.
pub(crate) proof fn lemma_collapse_poised<D: PartialEq>(
    start: Map<u64, D>,
    cells: Set<u64>,
    value: D,
    max_depth: nat,
    state: Map<u64, D>,
    made: Set<u64>,
    flagged: Set<u64>,
    from: u64,
    aside: Set<u64>,
)
    requires
        max_depth <= MAX_LEVEL,
        plain_equality::<D>(),
        aloof(start, cells, value, max_depth),
        bare(cells, max_depth),
        placed(cells, max_depth),
        poised(start, cells, value, max_depth, state, made, flagged, from, aside),
        flagged.contains(from),
        uniform(state, from),
    ensures
        from >= 1,
        poised(
            start,
            cells,
            value,
            max_depth,
            collapsed(state, from),
            made.insert(from),
            flagged,
            (from - 1) as u64,
            raised_by(aside, from),
        ),
{
    let code = from;
    let parent = (code / 8) as u64;
    let next = collapsed(state, code);
    let more = made.insert(code);
    let later = raised_by(aside, code);
    let below = (from - 1) as u64;
    lemma_uniform_gathers(start, cells, value, max_depth, state, made, flagged, from, aside);
    lemma_gathers(cells, code, max_depth);
    assert(code >= 1);
    assert(taken(cells, code, max_depth));
    assert(next[code] == value);
    assert forall|other: u64| next.contains_key(other) <==> (state.contains_key(other)
        && other / 8 != code) || other == code by {}
    assert forall|other: u64| other / 8 == code implies taken(cells, other, max_depth) by {
        assert(child_code(code, (other % 8) as int) == other);
    }
    // Codes flagged or set aside have a child that is drawn in.
    assert forall|other: u64|
        flagged.contains(other) || later.contains(other) implies #[trigger] touched(
        cells,
        other,
        max_depth,
    ) by {
        if other == parent && !aside.contains(other) && !flagged.contains(other) {
            assert(child_code(parent, (code % 8) as int) == code);
            assert(taken(cells, child_code(parent, (code % 8) as int), max_depth));
        }
    }
    // The parent of the collapsed code has not collapsed.
    if made.contains(parent) {
        assert(child_code(parent, (code % 8) as int) == code);
        assert(built_up(cells, made, parent, max_depth));
        assert(gathers(cells, child_code(parent, (code % 8) as int), max_depth));
    }
    assert forall|other: u64| #[trigger] more.contains(other) implies gathers(
        cells,
        other,
        max_depth,
    ) && emptied(next, other) && built_up(cells, more, other, max_depth) by {
        if other == code {
            assert forall|selector: int| 0 <= selector < 8 implies !next.contains_key(
                #[trigger] child_code(code, selector),
            ) by {
                assert(child_code(code, selector) / 8 == code);
            }
            assert forall|selector: int|
                0 <= selector < 8 && gathers(
                    cells,
                    #[trigger] child_code(code, selector),
                    max_depth,
                ) implies more.contains(child_code(code, selector)) by {
                let child = child_code(code, selector);
                assert(at_hand(cells, made, child));
            }
        } else {
            assert(emptied(state, other));
            assert(built_up(cells, made, other, max_depth));
            lemma_gathers(cells, other, max_depth);
            assert forall|selector: int| 0 <= selector < 8 implies !next.contains_key(
                #[trigger] child_code(other, selector),
            ) by {
                assert(child_code(other, selector) / 8 == other);
                assert(!state.contains_key(child_code(other, selector)));
            }
        }
    }
    assert forall|other: u64, selector: int|
        gathers(cells, other, max_depth) && !more.contains(other) && 0 <= selector < 8
            && at_hand(
            cells,
            more,
            #[trigger] child_code(other, selector),
        ) implies next.contains_key(child_code(other, selector)) by {
        let child = child_code(other, selector);
        lemma_gathers(cells, other, max_depth);
        assert(child / 8 == other);
        if child != code {
            assert(at_hand(cells, made, child));
        }
    }
    assert forall|other: u64|
        gathers(cells, other, max_depth) && #[trigger] next.contains_key(
            other,
        ) implies more.contains(other) || outermost(cells, other, max_depth) by {}
    assert forall|other: u64|
        at_hand(cells, more, other) && outermost(
            cells,
            other,
            max_depth,
        ) implies #[trigger] next.contains_key(other) by {
        if other != code {
            assert(at_hand(cells, made, other));
            assert(state.contains_key(other));
            if other / 8 == code {
                assert(gathers(cells, (other / 8) as u64, max_depth));
            }
        }
    }
    assert forall|other: u64|
        gathers(cells, other, max_depth) && !more.contains(other) && #[trigger] ripe(
            cells,
            more,
            other,
        ) implies (flagged.contains(other) && other <= below) || later.contains(other) by {
        lemma_gathers(cells, other, max_depth);
        if other == parent {
            assert(parent >= 1);
        } else {
            assert forall|selector: int| 0 <= selector < 8 implies at_hand(
                cells,
                made,
                #[trigger] child_code(other, selector),
            ) by {
                let child = child_code(other, selector);
                assert(at_hand(cells, more, child));
                assert(child / 8 == other);
            }
            assert(ripe(cells, made, other));
        }
    }
}

/// A code that is passed over in the middle of a pass leaves the state
/// poised.
pub(crate) proof fn lemma_passed_poised<D: PartialEq>(
    start: Map<u64, D>,
    cells: Set<u64>,
    value: D,
    max_depth: nat,
    state: Map<u64, D>,
    made: Set<u64>,
    flagged: Set<u64>,
    from: u64,
    aside: Set<u64>,
)
    requires
        max_depth <= MAX_LEVEL,
        plain_equality::<D>(),
        placed(cells, max_depth),
        poised(start, cells, value, max_depth, state, made, flagged, from, aside),
        from >= 1,
        !(flagged.contains(from) && uniform(state, from)),
    ensures
        poised(start, cells, value, max_depth, state, made, flagged, (from - 1) as u64, aside),
{
    let below = (from - 1) as u64;
    assert forall|other: u64|
        gathers(cells, other, max_depth) && !made.contains(other) && #[trigger] ripe(
            cells,
            made,
            other,
        ) implies (flagged.contains(other) && other <= below) || aside.contains(other) by {
        if other == from && flagged.contains(other) {
            lemma_gathers(cells, other, max_depth);
            assert forall|selector: int| 0 <= selector < 8 implies state.contains_key(
                #[trigger] child_code(other, selector),
            ) && state[child_code(other, selector)] == value by {
                assert(at_hand(cells, made, child_code(other, selector)));
            }
            assert(state.contains_key(child_code(other, 0)));
            assert(uniform(state, other));
        }
    }
}

/// The codes that a pass flags for the next one lie below an eighth of
/// the code at which the pass starts.
pub(crate) proof fn lemma_raised_bound<D: PartialEq>(state: Map<u64, D>, flagged: Set<u64>, from: u64)
    ensures
        forall|code: u64| #[trigger]
            sweep(state, flagged, from).1.contains(code) ==> 1 <= code <= from / 8,
    decreases from,
{
    if from > 0 {
        let below = (from - 1) as u64;
        let raised = sweep(state, flagged, from).1;
        if flagged.contains(from) && uniform(state, from) {
            lemma_raised_bound(collapsed(state, from), flagged, below);
            let rest = sweep(collapsed(state, from), flagged, below).1;
            assert forall|code: u64| #[trigger] raised.contains(code) implies 1 <= code <= from
                / 8 by {
                if code != from / 8 {
                    assert(rest.contains(code));
                }
            }
        } else {
            lemma_raised_bound(state, flagged, below);
            assert forall|code: u64| #[trigger] raised.contains(code) implies 1 <= code <= from
                / 8 by {
                assert(sweep(state, flagged, below).1.contains(code));
            }
        }
    }
}

/// A pass leaves the state poised.  Gives the codes at which groups have
/// collapsed by the end of the pass.
pub(crate) proof fn lemma_sweep_poised<D: PartialEq>(
    start: Map<u64, D>,
    cells: Set<u64>,
    value: D,
    max_depth: nat,
    state: Map<u64, D>,
    made: Set<u64>,
    flagged: Set<u64>,
    from: u64,
    aside: Set<u64>,
) -> (after: Set<u64>)
    requires
        max_depth <= MAX_LEVEL,
        plain_equality::<D>(),
        aloof(start, cells, value, max_depth),
        bare(cells, max_depth),
        placed(cells, max_depth),
        poised(start, cells, value, max_depth, state, made, flagged, from, aside),
    ensures
        poised(
            start,
            cells,
            value,
            max_depth,
            sweep(state, flagged, from).0,
            after,
            flagged,
            0,
            aside.union(sweep(state, flagged, from).1),
        ),
    decreases from,
{
    if from == 0 {
        assert(aside.union(sweep(state, flagged, from).1) =~= aside);
        made
    } else if flagged.contains(from) && uniform(state, from) {
        lemma_collapse_poised(start, cells, value, max_depth, state, made, flagged, from, aside);
        let below = (from - 1) as u64;
        let next = collapsed(state, from);
        let after = lemma_sweep_poised(
            start,
            cells,
            value,
            max_depth,
            next,
            made.insert(from),
            flagged,
            below,
            raised_by(aside, from),
        );
        assert(raised_by(aside, from).union(sweep(next, flagged, below).1) =~= aside.union(
            sweep(state, flagged, from).1,
        ));
        after
    } else {
        lemma_passed_poised(start, cells, value, max_depth, state, made, flagged, from, aside);
        lemma_sweep_poised(
            start,
            cells,
            value,
            max_depth,
            state,
            made,
            flagged,
            (from - 1) as u64,
            aside,
        )
    }
}

/// When no group is left to collapse, every cell that gathers a group has
/// seen it collapse.
pub(crate) proof fn lemma_all_made(cells: Set<u64>, made: Set<u64>, code: u64, max_depth: nat)
    requires
        max_depth <= MAX_LEVEL,
        forall|other: u64|
            gathers(cells, other, max_depth) && !made.contains(other) ==> !#[trigger] ripe(
                cells,
                made,
                other,
            ),
        gathers(cells, code, max_depth),
    ensures
        made.contains(code),
    decreases room_of(code, max_depth),
{
    if !made.contains(code) {
        lemma_gathers(cells, code, max_depth);
        assert(!ripe(cells, made, code));
        let selector = choose|selector: int|
            0 <= selector < 8 && !at_hand(cells, made, #[trigger] child_code(code, selector));
        let child = child_code(code, selector);
        assert(taken(cells, child, max_depth));
        assert(gathers(cells, child, max_depth));
        lemma_all_made(cells, made, child, max_depth);
    }
}

/// A poised state in which no code is flagged is what the painting
/// leaves behind.
pub(crate) proof fn lemma_poised_rests<D: PartialEq>(
    start: Map<u64, D>,
    cells: Set<u64>,
    value: D,
    max_depth: nat,
    state: Map<u64, D>,
    made: Set<u64>,
    flagged: Set<u64>,
)
    requires
        max_depth <= MAX_LEVEL,
        placed(cells, max_depth),
        poised(start, cells, value, max_depth, state, made, flagged, 0, Set::<u64>::empty()),
    ensures
        state == resting(start, cells, value, max_depth),
{
    let rest = resting(start, cells, value, max_depth);
    assert forall|code: u64| gathers(cells, code, max_depth) implies made.contains(code) by {
        lemma_all_made(cells, made, code, max_depth);
    }
    assert forall|code: u64| state.contains_key(code) <==> rest.contains_key(code) by {
        if taken(cells, code, max_depth) {
            let parent = (code / 8) as u64;
            if outermost(cells, code, max_depth) {
                if !cells.contains(code) {
                    assert(gathers(cells, code, max_depth));
                }
                assert(at_hand(cells, made, code));
            } else {
                assert(gathers(cells, parent, max_depth));
                lemma_gathers(cells, parent, max_depth);
                assert(made.contains(parent));
                assert(emptied(state, parent));
                assert(child_code(parent, (code % 8) as int) == code);
            }
        }
    }
    assert(state =~= rest);
}

/// Collapsing to the end, from a poised state at the start of a pass,
/// gives what the painting leaves behind.
pub(crate) proof fn lemma_settle_rests<D: PartialEq>(
    start: Map<u64, D>,
    cells: Set<u64>,
    value: D,
    max_depth: nat,
    state: Map<u64, D>,
    made: Set<u64>,
    flagged: Set<u64>,
    top: u64,
)
    requires
        max_depth <= MAX_LEVEL,
        plain_equality::<D>(),
        aloof(start, cells, value, max_depth),
        bare(cells, max_depth),
        placed(cells, max_depth),
        poised(start, cells, value, max_depth, state, made, flagged, top, Set::<u64>::empty()),
    ensures
        settle(state, flagged, top) == resting(start, cells, value, max_depth),
    decreases top,
{
    if top == 0 {
        lemma_poised_rests(start, cells, value, max_depth, state, made, flagged);
    } else {
        let after = lemma_sweep_poised(
            start,
            cells,
            value,
            max_depth,
            state,
            made,
            flagged,
            top,
            Set::<u64>::empty(),
        );
        let pass = sweep(state, flagged, top);
        lemma_raised_bound(state, flagged, top);
        assert(Set::<u64>::empty().union(pass.1) =~= pass.1);
        assert(poised(
            start,
            cells,
            value,
            max_depth,
            pass.0,
            after,
            pass.1,
            top / 8,
            Set::<u64>::empty(),
        ));
        lemma_settle_rests(start, cells, value, max_depth, pass.0, after, pass.1, top / 8);
    }
}

/// Below every cell that is drawn in lies a painted cell, or the cell is
/// one.
pub(crate) proof fn lemma_taken_has_leaf(cells: Set<u64>, code: u64, max_depth: nat) -> (leaf: u64)
    requires
        max_depth <= MAX_LEVEL,
        taken(cells, code, max_depth),
    ensures
        cells.contains(leaf),
        below(code, leaf),
    decreases room_of(code, max_depth),
{
    if cells.contains(code) {
        assert(ancestor(code, 0) == code);
        code
    } else {
        lemma_gathers(cells, code, max_depth);
        let child = child_code(code, 0);
        assert(taken(cells, child, max_depth));
        let leaf = lemma_taken_has_leaf(cells, child, max_depth);
        let up = choose|up: nat| #[trigger] ancestor(leaf, up) == child;
        lemma_ancestor_step(leaf, up + 1);
        assert(ancestor(leaf, up + 1) == code);
        leaf
    }
}

/// No leaf into which a box under the neutral tag falls gathers a group
/// of cells drawn in by those leaves.
pub proof fn lemma_painted_bare(b: Cuboid, max_depth: nat)
    requires
        b.wf(),
        b.orientation == Orientation::N,
        1 <= max_depth <= MAX_LEVEL,
    ensures
        bare(footprint(b, 1, 1, max_depth), max_depth),
{
    let cells = footprint(b, 1, 1, max_depth);
    lemma_footprint_antichain(b, 1, 1, max_depth);
    lemma_footprint_codes(b, 1, 1, max_depth);
    assert forall|code: u64| cells.contains(code) implies !#[trigger] gathers(
        cells,
        code,
        max_depth,
    ) by {
        if gathers(cells, code, max_depth) {
            lemma_gathers(cells, code, max_depth);
            let child = child_code(code, 0);
            assert(taken(cells, child, max_depth));
            let leaf = lemma_taken_has_leaf(cells, child, max_depth);
            let up = choose|up: nat| #[trigger] ancestor(leaf, up) == child;
            lemma_ancestor_step(leaf, up + 1);
            assert(ancestor(leaf, up + 1) == code);
            assert(below(code, leaf));
            lemma_ancestor_code(leaf, up + 1);
        }
    }
}

/// When the leaves from before keep out of the groups that the painted
/// leaves draw in, painting a box leaves a leaf with the painted value at
/// each outermost cell that is drawn in, and leaves the other leaves as
/// they were.
pub proof fn lemma_merge_rests<D: PartialEq>(
    leaves: Map<u64, D>,
    b: Cuboid,
    value: D,
    max_depth: u32,
)
    requires
        1 <= max_depth <= MAX_LEVEL,
        keys_within(leaves, max_depth),
        b.wf(),
        b.orientation == Orientation::N,
        plain_equality::<D>(),
        aloof(leaves, footprint(b, 1, 1, max_depth as nat), value, max_depth as nat),
    ensures
        merged(leaves, b, value, max_depth as nat) == resting(
            leaves,
            footprint(b, 1, 1, max_depth as nat),
            value,
            max_depth as nat,
        ),
{
    let depth = max_depth as nat;
    let cells = footprint(b, 1, 1, depth);
    let fresh = painted(leaves, cells, value);
    let flagged = parents(cells);
    let none = Set::<u64>::empty();
    lemma_footprint_codes(b, 1, 1, depth);
    lemma_painted_bare(b, depth);
    assert forall|code: u64| cells.contains(code) implies taken(cells, code, depth) by {}
    assert forall|code: u64| flagged.contains(code) implies #[trigger] touched(
        cells,
        code,
        depth,
    ) by {
        let child = choose|child: u64| cells.contains(child) && child / 8 == code;
        assert(child_code(code, (child % 8) as int) == child);
        assert(taken(cells, child_code(code, (child % 8) as int), depth));
    }
    assert forall|code: u64|
        gathers(cells, code, depth) && #[trigger] fresh.contains_key(code) implies outermost(
        cells,
        code,
        depth,
    ) by {}
    assert forall|code: u64|
        gathers(cells, code, depth) && !none.contains(code) && #[trigger] ripe(
            cells,
            none,
            code,
        ) implies (flagged.contains(code) && code <= TOP_CODE) || none.contains(code) by {
        lemma_gathers(cells, code, depth);
        let child = child_code(code, 0);
        assert(at_hand(cells, none, child));
        assert(cells.contains(child) && child / 8 == code);
    }
    assert(poised(leaves, cells, value, depth, fresh, none, flagged, TOP_CODE, none));
    lemma_settle_rests(leaves, cells, value, depth, fresh, none, flagged, TOP_CODE);
}

/// Painting the same box with the same value twice gives what painting it
/// once gives, whenever the leaves from before keep out of the groups
/// that the painted leaves draw in.
pub proof fn lemma_merge_again<D: PartialEq>(
    leaves: Map<u64, D>,
    b: Cuboid,
    value: D,
    max_depth: u32,
)
    requires
        1 <= max_depth <= MAX_LEVEL,
        keys_within(leaves, max_depth),
        b.wf(),
        b.orientation == Orientation::N,
        plain_equality::<D>(),
        aloof(leaves, footprint(b, 1, 1, max_depth as nat), value, max_depth as nat),
    ensures
        merged(merged(leaves, b, value, max_depth as nat), b, value, max_depth as nat) == merged(
            leaves,
            b,
            value,
            max_depth as nat,
        ),
{
    let depth = max_depth as nat;
    let cells = footprint(b, 1, 1, depth);
    let once = resting(leaves, cells, value, depth);
    lemma_merge_rests(leaves, b, value, max_depth);
    assert forall|code: u64, drawn_in: int|
        0 <= drawn_in < 8 && code < CHILD_LIMIT && #[trigger] taken(
            cells,
            child_code(code, drawn_in),
            depth,
        ) && !gathers(cells, code, depth) implies exists|selector: int|
        0 <= selector < 8 && !#[trigger] taken(cells, child_code(code, selector), depth) && !(
        once.contains_key(child_code(code, selector)) && once[child_code(code, selector)]
            == value) by {
        let selector = choose|selector: int|
            0 <= selector < 8 && !#[trigger] taken(cells, child_code(code, selector), depth) && !(
            leaves.contains_key(child_code(code, selector)) && leaves[child_code(code, selector)]
                == value);
        assert(!taken(cells, child_code(code, selector), depth));
    }
    assert(aloof(once, cells, value, depth));
    lemma_merge_rests(once, b, value, max_depth);
    assert(resting(once, cells, value, depth) =~= once);
}

/// In an empty tree no leaf from before is in the way.
pub(crate) proof fn lemma_empty_aloof<D>(cells: Set<u64>, value: D, max_depth: nat)
    requires
        max_depth <= MAX_LEVEL,
    ensures
        aloof(Map::<u64, D>::empty(), cells, value, max_depth),
{
    let none = Map::<u64, D>::empty();
    assert forall|code: u64, drawn_in: int|
        0 <= drawn_in < 8 && code < CHILD_LIMIT && #[trigger] taken(
            cells,
            child_code(code, drawn_in),
            max_depth,
        ) && !gathers(cells, code, max_depth) implies exists|selector: int|
        0 <= selector < 8 && !#[trigger] taken(cells, child_code(code, selector), max_depth) && !(
        none.contains_key(child_code(code, selector)) && none[child_code(code, selector)]
            == value) by {
        let child = child_code(code, drawn_in);
        assert(child / 8 == code);
        if code == 0 {
            assert(!taken(cells, child_code(code, 0), max_depth));
        } else {
            lemma_parent_is_code(child);
            lemma_gathers(cells, code, max_depth);
        }
    }
}

/// Painting the same box with the same value twice into an empty tree
/// gives what painting it once gives.
pub proof fn lemma_merge_again_in_empty<D: PartialEq>(b: Cuboid, value: D, max_depth: u32)
    requires
        1 <= max_depth <= MAX_LEVEL,
        b.wf(),
        b.orientation == Orientation::N,
        plain_equality::<D>(),
    ensures
        merged(
            merged(Map::<u64, D>::empty(), b, value, max_depth as nat),
            b,
            value,
            max_depth as nat,
        ) == merged(Map::<u64, D>::empty(), b, value, max_depth as nat),
{
    lemma_empty_aloof::<D>(footprint(b, 1, 1, max_depth as nat), value, max_depth as nat);
    lemma_merge_again(Map::<u64, D>::empty(), b, value, max_depth);
}

} // verus!
