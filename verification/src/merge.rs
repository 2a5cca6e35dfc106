//! Painting boxes into the tree, and collapsing what became uniform.
use vstd::prelude::*;
use vstd::std_specs::cmp::PartialEqSpec;
use crate::aabb::{AABB, lemma_exploded_parts, views};
use crate::error::OctreeError;
use crate::laws::lemma_merge_keeps_compressed;
use crate::loc_code::{
    CHILD_LIMIT, LocCode, UNIT, center_of, is_code, lemma_center_bounds, lemma_child_is_code,
    lemma_code_has_room, lemma_half_edge_shift, lemma_level_bound, level_of,
};
use crate::node::OctreeNode;
use crate::octree::Octree;
use crate::orientation::Orientation;
use crate::paint::{
    TOP_CODE, child_code, children, collapsed, compressed, footprint, footprint_of,
    lemma_parents_insert, lemma_parents_union, lemma_settle_idle, lemma_sweep_skip, merged,
    painted, parents, settle, sweep, uniform,
};
use crate::sort::{ascending, sort_codes};

verus! {

/// Each element is greater than the one that follows it.
pub open spec fn descending(codes: Seq<u64>) -> bool {
    forall|i: int, j: int| 0 <= i < j < codes.len() ==> codes[i] > codes[j]
}

/// The children of `code` whose selector is less than `selector`.
pub open spec fn children_below(code: u64, selector: int) -> Set<u64> {
    Set::new(|child: u64| child / 8 == code && child % 8 < selector)
}

/// The elements of a list with one more at its end are those of the list
/// and the one more.
pub(crate) proof fn lemma_pushed(codes: Seq<u64>, code: u64)
    ensures
        codes.push(code).to_set() == codes.to_set().insert(code),
{
    let longer = codes.push(code);
    assert(longer[codes.len() as int] == code);
    assert forall|other: u64| codes.contains(other) implies longer.contains(other) by {
        let k = choose|k: int| 0 <= k < codes.len() && codes[k] == other;
        assert(longer[k] == other);
    }
    assert(longer.to_set() =~= codes.to_set().insert(code));
}

/// The elements of a sorted list from the greatest down, each once.
fn distinct_descending(sorted: &Vec<u64>) -> (codes: Vec<u64>)
    requires
        ascending(sorted@),
    ensures
        descending(codes@),
        codes@.to_set() == sorted@.to_set(),
{
    let mut codes: Vec<u64> = Vec::new();
    let mut i: usize = sorted.len();
    while i > 0
        invariant
            i <= sorted.len(),
            ascending(sorted@),
            descending(codes@),
            forall|k: int| 0 <= k < codes.len() ==> sorted@.contains(#[trigger] codes@[k]),
            forall|j: int| i <= j < sorted.len() ==> codes@.contains(#[trigger] sorted@[j]),
            codes.len() > 0 ==> i < sorted.len() && codes@.last() == sorted@[i as int],
        decreases i,
    {
        i -= 1;
        let code = sorted[i];
        let ghost before = codes@;
        if codes.len() == 0 || codes[codes.len() - 1] != code {
            codes.push(code);
            assert(codes@.last() == code);
            assert forall|j: int| i <= j < sorted.len() implies codes@.contains(
                #[trigger] sorted@[j],
            ) by {
                if j > i {
                    let k = choose|k: int| 0 <= k < before.len() && before[k] == sorted@[j];
                    assert(codes@[k] == sorted@[j]);
                } else {
                    assert(codes@[codes.len() - 1] == sorted@[j]);
                }
            }
        } else {
            assert(codes@[codes.len() - 1] == sorted@[i as int]);
        }
    }
    assert(codes@.to_set() =~= sorted@.to_set()) by {
        assert forall|code: u64| sorted@.contains(code) implies codes@.contains(code) by {
            let j = choose|j: int| 0 <= j < sorted.len() && sorted@[j] == code;
            assert(codes@.contains(sorted@[j]));
        }
    }
    codes
}

impl<D: Copy + PartialEq> Octree<D> {
    /// Collapses the children of `code` into one leaf at `code` when all
    /// eight are stored and equal, and then gives the code to look at next,
    /// the parent of `code`.
    fn assemble(&mut self, code: LocCode) -> (raised: Option<LocCode>)
        requires
            old(self).wf(),
            D::obeys_eq_spec(),
            code.0 < CHILD_LIMIT,
        ensures
            final(self).wf(),
            final(self).depth_limit() == old(self).depth_limit(),
            uniform(old(self)@, code.0) ==> final(self)@ == collapsed(old(self)@, code.0)
                && raised == Some(LocCode(code.0 / 8)),
            !uniform(old(self)@, code.0) ==> final(self)@ == old(self)@ && raised.is_none(),
    {
        let first: D = match self.lookup(code.child(0)) {
            Some(node) => node.data,
            None => {
                assert(!self@.contains_key(child_code(code.0, 0)));
                return None;
            },
        };
        let mut selector: u8 = 0;
        while selector < 8
            invariant
                selector <= 8,
                self.wf(),
                code.0 < CHILD_LIMIT,
                D::obeys_eq_spec(),
                self@.contains_key(child_code(code.0, 0)),
                first == self@[child_code(code.0, 0)],
                forall|s: int|
                    0 <= s < selector ==> self@.contains_key(#[trigger] child_code(code.0, s))
                        && first.eq_spec(&self@[child_code(code.0, s)]),
            decreases 8 - selector,
        {
            match self.lookup(code.child(selector)) {
                Some(node) => {
                    if !(first == node.data) {
                        assert(!first.eq_spec(&self@[child_code(code.0, selector as int)]));
                        return None;
                    }
                },
                None => {
                    assert(!self@.contains_key(child_code(code.0, selector as int)));
                    return None;
                },
            }
            selector += 1;
        }
        assert(uniform(self@, code.0));
        let ghost before = self@;
        proof {
            assert(is_code(child_code(code.0, 0)));
            assert(child_code(code.0, 0) / 8 == code.0);
        }
        let mut selector: u8 = 0;
        while selector < 8
            invariant
                selector <= 8,
                self.wf(),
                code.0 < CHILD_LIMIT,
                self.depth_limit() == old(self).depth_limit(),
                self@ == before.remove_keys(children_below(code.0, selector as int)),
            decreases 8 - selector,
        {
            self.remove_node(code.child(selector));
            selector += 1;
            assert(self@ =~= before.remove_keys(children_below(code.0, selector as int)));
        }
        assert(self@ =~= before.remove_keys(children(code.0)));
        self.insert(code, OctreeNode::new(first));
        Some(code.parent())
    }

    /// One pass of collapsing over the flagged codes, from the greatest
    /// down.  Gives the codes to flag for the next pass.
    fn sweep_pass(&mut self, codes: &Vec<u64>, Ghost(top): Ghost<u64>) -> (raised: Vec<u64>)
        requires
            old(self).wf(),
            D::obeys_eq_spec(),
            descending(codes@),
            top <= TOP_CODE,
            forall|k: int| 0 <= k < codes.len() ==> 1 <= #[trigger] codes@[k] <= top,
        ensures
            final(self).wf(),
            final(self).depth_limit() == old(self).depth_limit(),
            final(self)@ == sweep(old(self)@, codes@.to_set(), top).0,
            raised@.to_set() == sweep(old(self)@, codes@.to_set(), top).1,
            descending(raised@),
            forall|k: int| 0 <= k < raised.len() ==> 1 <= #[trigger] raised@[k] <= top / 8,
    {
        let ghost start = self@;
        let ghost flagged = codes@.to_set();
        let ghost mut from: u64 = top;
        let mut raised: Vec<u64> = Vec::new();
        let mut i: usize = 0;
        while i < codes.len()
            invariant
                i <= codes.len(),
                self.wf(),
                self.depth_limit() == old(self).depth_limit(),
                D::obeys_eq_spec(),
                descending(codes@),
                flagged == codes@.to_set(),
                top <= TOP_CODE,
                from <= top,
                forall|k: int| 0 <= k < codes.len() ==> 1 <= #[trigger] codes@[k] <= top,
                forall|k: int| i <= k < codes.len() ==> #[trigger] codes@[k] <= from,
                forall|k: int| 0 <= k < i ==> #[trigger] codes@[k] > from,
                sweep(start, flagged, top).0 == sweep(self@, flagged, from).0,
                sweep(start, flagged, top).1 == sweep(self@, flagged, from).1.union(
                    raised@.to_set(),
                ),
                descending(raised@),
                forall|k: int| 0 <= k < raised.len() ==> 1 <= #[trigger] raised@[k] <= top / 8,
                raised.len() > 0 ==> i > 0 && raised@.last() >= codes@[i - 1] / 8,
            decreases codes.len() - i,
        {
            let code = codes[i];
            let ghost before = self@;
            let ghost raised_before = raised@;
            proof {
                assert forall|other: u64| code < other <= from implies !flagged.contains(
                    other,
                ) by {
                    if flagged.contains(other) {
                        let k = choose|k: int| 0 <= k < codes.len() && codes@[k] == other;
                        assert(codes@[k] == other);
                    }
                }
                lemma_sweep_skip(before, flagged, from, code);
                assert(codes@[i as int] == code);
                assert(flagged.contains(code));
            }
            match self.assemble(LocCode(code)) {
                Some(parent) => {
                    if parent.0 > 0 {
                        if raised.len() == 0 || raised[raised.len() - 1] != parent.0 {
                            raised.push(parent.0);
                            proof {
                                lemma_pushed(raised_before, parent.0);
                            }
                        } else {
                            assert(raised@[raised.len() - 1] == parent.0);
                            assert(raised@.to_set() =~= raised_before.to_set().insert(parent.0));
                        }
                    }
                },
                None => {},
            }
            proof {
                from = (code - 1) as u64;
                let next = sweep(self@, flagged, from);
                assert(sweep(start, flagged, top).1 =~= next.1.union(raised@.to_set()));
            }
            i += 1;
        }
        proof {
            assert forall|other: u64| 0 < other <= from implies !flagged.contains(other) by {
                if flagged.contains(other) {
                    let k = choose|k: int| 0 <= k < codes.len() && codes@[k] == other;
                    assert(codes@[k] == other);
                }
            }
            lemma_sweep_skip(self@, flagged, from, 0);
            assert(raised@.to_set() =~= sweep(start, flagged, top).1);
        }
        raised
    }

    /// Places the parts of a box that fall into the cell `loc_code`, whose
    /// center is `center` and whose children lie at `depth`, and notes in
    /// `dirty` the parent of each leaf that it stores.
    fn merge_inner(
        &mut self,
        aabb: AABB,
        data: D,
        center: (u64, u64, u64),
        depth: u32,
        loc_code: LocCode,
        dirty: &mut Vec<u64>,
    ) -> (outcome: Result<(), OctreeError>)
        requires
            old(self).wf(),
            1 <= depth <= old(self).depth_limit(),
            is_code(loc_code.0),
            level_of(loc_code.0) + 1 == depth,
            center.0 == center_of(loc_code.0).0,
            center.1 == center_of(loc_code.0).1,
            center.2 == center_of(loc_code.0).2,
            forall|k: int| 0 <= k < old(dirty).len() ==> 1 <= #[trigger] old(dirty)@[k] <= TOP_CODE,
        ensures
            final(self).wf(),
            final(self).depth_limit() == old(self).depth_limit(),
            outcome.is_ok(),
            final(self)@ == painted(
                old(self)@,
                footprint(aabb@, loc_code.0, depth as nat, old(self).depth_limit() as nat),
                data,
            ),
            final(dirty)@.to_set() == old(dirty)@.to_set().union(
                parents(
                    footprint(aabb@, loc_code.0, depth as nat, old(self).depth_limit() as nat),
                ),
            ),
            forall|k: int|
                0 <= k < final(dirty).len() ==> 1 <= #[trigger] final(dirty)@[k] <= TOP_CODE,
        decreases old(self).depth_limit() - depth,
    {
        let ghost start = self@;
        let ghost noted = dirty@;
        let ghost limit = self.depth_limit() as nat;
        let max_depth = self.max_depth();
        let blocks = aabb.explode(center);
        proof {
            use_type_invariant(&aabb);
            lemma_exploded_parts(aabb@, center_of(loc_code.0));
            lemma_code_has_room(loc_code.0);
        }
        let mut i: usize = 0;
        while i < blocks.len()
            invariant
                i <= blocks.len(),
                self.wf(),
                self.depth_limit() == old(self).depth_limit(),
                limit == self.depth_limit(),
                max_depth == self.depth_limit(),
                1 <= depth <= max_depth,
                is_code(loc_code.0),
                1 <= loc_code.0 < CHILD_LIMIT,
                level_of(loc_code.0) + 1 == depth,
                center.0 == center_of(loc_code.0).0,
                center.1 == center_of(loc_code.0).1,
                center.2 == center_of(loc_code.0).2,
                views(blocks@) == aabb@.exploded(center_of(loc_code.0)),
                forall|k: int|
                    0 <= k < blocks.len() ==> {
                        let part = #[trigger] aabb@.exploded(center_of(loc_code.0))[k];
                        part.wf() && part.orientation.is_corner()
                    },
                self@ == painted(
                    start,
                    footprint_of(views(blocks@).take(i as int), loc_code.0, depth as nat, limit),
                    data,
                ),
                dirty@.to_set() == noted.to_set().union(
                    parents(
                        footprint_of(
                            views(blocks@).take(i as int),
                            loc_code.0,
                            depth as nat,
                            limit,
                        ),
                    ),
                ),
                forall|k: int| 0 <= k < dirty.len() ==> 1 <= #[trigger] dirty@[k] <= TOP_CODE,
            decreases blocks.len() - i,
        {
            let block = blocks[i];
            let ghost done = views(blocks@).take(i as int);
            let ghost next = views(blocks@).take(i + 1);
            let ghost cells_done = footprint_of(done, loc_code.0, depth as nat, limit);
            let ghost noted_before = dirty@;
            proof {
                assert(next.drop_last() =~= done);
                assert(next.last() == block@);
                assert(views(blocks@)[i as int] == block@);
                assert(aabb@.exploded(center_of(loc_code.0))[i as int] == block@);
                lemma_child_is_code(loc_code.0, block@.orientation.selector_spec());
            }
            let child = match loc_code.child_at(block.orientation()) {
                Ok(child) => child,
                Err(error) => {
                    return Err(error);
                },
            };
            assert(child.0 == child_code(loc_code.0, block@.orientation.selector_spec() as int));
            if block.fit_in(depth, max_depth) {
                self.insert(child, OctreeNode::new(data));
                dirty.push(loc_code.0);
                proof {
                    let cells = cells_done.insert(child.0);
                    assert(footprint_of(next, loc_code.0, depth as nat, limit) == cells);
                    assert(self@ =~= painted(start, cells, data));
                    assert(child.0 / 8 == loc_code.0);
                    lemma_parents_insert(cells_done, child.0);
                    lemma_pushed(noted_before, loc_code.0);
                }
            } else {
                proof {
                    lemma_center_bounds(loc_code.0);
                    lemma_level_bound(loc_code.0);
                    lemma_half_edge_shift(level_of(loc_code.0) as u32);
                }
                let new_center = block.orientation().make_new_center(child, center);
                let inner = block.with_orientation(Orientation::N);
                match self.merge_inner(inner, data, new_center, depth + 1, child, dirty) {
                    Ok(()) => {},
                    Err(error) => {
                        return Err(error);
                    },
                }
                proof {
                    let deeper = footprint(inner@, child.0, (depth + 1) as nat, limit);
                    let cells = cells_done.union(deeper);
                    assert(footprint_of(next, loc_code.0, depth as nat, limit) == cells);
                    assert(self@ =~= painted(start, cells, data));
                    lemma_parents_union(cells_done, deeper);
                }
            }
            i += 1;
        }
        assert(views(blocks@).take(i as int) =~= views(blocks@));
        Ok(())
    }

    /// Paints a box with a value.
    ///
    /// A box that does not lie in the unit cube is refused and leaves the
    /// tree as it was.  Otherwise every leaf into which the box falls takes
    /// the value, and groups of eight equal siblings collapse into their
    /// parent until none is left among the codes that the painting touched.
    pub fn merge(&mut self, aabb: AABB, data: D) -> (outcome: Result<(), OctreeError>)
        requires
            old(self).wf(),
            D::obeys_eq_spec(),
        ensures
            final(self).wf(),
            final(self).depth_limit() == old(self).depth_limit(),
            !aabb@.in_unit_cube() ==> outcome == Err::<(), OctreeError>(OctreeError::OutsideTree)
                && final(self)@ == old(self)@,
            aabb@.in_unit_cube() ==> outcome.is_ok() && final(self)@ == merged(
                old(self)@,
                aabb@,
                data,
                old(self).depth_limit() as nat,
            ),
            compressed(old(self)@) ==> compressed(final(self)@),
    {
        let upper = aabb.upper();
        if upper.0 > UNIT || upper.1 > UNIT || upper.2 > UNIT {
            return Err(OctreeError::OutsideTree);
        }
        let ghost start = self@;
        let ghost cells = footprint(aabb@, 1, 1, self.depth_limit() as nat);
        let mut dirty: Vec<u64> = Vec::new();
        match self.merge_inner(
            aabb,
            data,
            (0x8000_0000, 0x8000_0000, 0x8000_0000),
            1,
            LocCode::root(),
            &mut dirty,
        ) {
            Ok(()) => {},
            Err(error) => {
                return Err(error);
            },
        }
        let ghost noted = dirty@;
        sort_codes(&mut dirty);
        let mut codes = distinct_descending(&dirty);
        proof {
            assert(noted.to_set() =~= parents(cells));
            assert forall|code: u64| dirty@.contains(code) <==> noted.contains(code) by {
                vstd::seq_lib::to_multiset_contains(dirty@, code);
                vstd::seq_lib::to_multiset_contains(noted, code);
            }
            assert(dirty@.to_set() =~= noted.to_set());
            assert forall|k: int| 0 <= k < codes.len() implies 1 <= #[trigger] codes@[k]
                <= TOP_CODE by {
                assert(codes@.to_set().contains(codes@[k]));
                assert(noted.contains(codes@[k]));
                let j = choose|j: int| 0 <= j < noted.len() && noted[j] == codes@[k];
            }
        }
        let ghost mut top: u64 = TOP_CODE;
        let ghost painted_leaves = self@;
        while codes.len() > 0
            invariant
                self.wf(),
                self.depth_limit() == old(self).depth_limit(),
                D::obeys_eq_spec(),
                descending(codes@),
                top <= TOP_CODE,
                forall|k: int| 0 <= k < codes.len() ==> 1 <= #[trigger] codes@[k] <= top,
                settle(painted_leaves, parents(cells), TOP_CODE) == settle(
                    self@,
                    codes@.to_set(),
                    top,
                ),
            decreases top,
        {
            assert(1 <= codes@[0] <= top);
            codes = self.sweep_pass(&codes, Ghost(top));
            proof {
                top = top / 8;
            }
        }
        proof {
            assert(codes@.to_set() =~= Set::<u64>::empty());
            lemma_settle_idle(self@, top);
            if compressed(start) {
                use_type_invariant(&aabb);
                lemma_merge_keeps_compressed(start, aabb@, data, self.depth_limit());
            }
        }
        Ok(())
    }
}

} // verus!
