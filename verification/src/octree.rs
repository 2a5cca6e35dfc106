//! The store of leaves: a sparse map from location codes to values.
//!
//! Leaves lie side by side in a vector, and a hash table finds the slot of
//! a code.  As a mathematical value the tree is the map from each stored
//! code to the value of its leaf.
use vstd::prelude::*;
use vstd::std_specs::convert::FromSpec;
use crate::index::{
    CodeIndex, index_get, index_insert, index_new, index_remove, index_with_capacity, slots_of,
};
use crate::loc_code::{LocCode, MAX_LEVEL, is_code, level_of};
use crate::node::OctreeNode;

verus! {

pub struct Octree<D> {
    index: CodeIndex,
    cells: Vec<(LocCode, OctreeNode<D>)>,
    max_depth: u32,
}

/// Every key of a map of leaves is a location code of at most `limit`
/// levels.
pub open spec fn keys_within<D>(leaves: Map<u64, D>, limit: u32) -> bool {
    forall|code: u64| #[trigger]
        leaves.contains_key(code) ==> is_code(code) && level_of(code) <= limit
}

/// Two maps of leaves have the same codes, and each value of the second is
/// a result of `function` at the value of the first.
pub open spec fn mapped_by<D, U, F: Fn(D) -> U>(
    before: Map<u64, D>,
    after: Map<u64, U>,
    function: F,
) -> bool {
    &&& after.dom() == before.dom()
    &&& forall|code: u64|
        before.contains_key(code) ==> call_ensures(
            function,
            (before[code],),
            #[trigger] after[code],
        )
}

/// Two maps of leaves have the same codes, and each value of the second is
/// converted from the value of the first.
pub open spec fn converted<D, U: From<D>>(before: Map<u64, D>, after: Map<u64, U>) -> bool {
    &&& after.dom() == before.dom()
    &&& forall|code: u64|
        before.contains_key(code) ==> call_ensures(
            U::from,
            (before[code],),
            #[trigger] after[code],
        )
    &&& U::obeys_from_spec() ==> forall|code: u64|
        before.contains_key(code) ==> #[trigger] after[code] == U::from_spec(before[code])
}

/// Two maps of leaves have the same codes, and each leaf of the second is
/// a result of `function` at the code and the leaf of the first.
pub open spec fn nodes_mapped_by<D, U, F: Fn(LocCode, OctreeNode<D>) -> OctreeNode<U>>(
    before: Map<u64, D>,
    after: Map<u64, U>,
    function: F,
) -> bool {
    &&& after.dom() == before.dom()
    &&& forall|code: u64|
        before.contains_key(code) ==> call_ensures(
            function,
            (LocCode(code), OctreeNode { data: before[code] }),
            OctreeNode { data: #[trigger] after[code] },
        )
}

/// Levels never decrease along the order of codes.
pub proof fn lemma_level_monotonic(low: u64, high: u64)
    requires
        low <= high,
    ensures
        level_of(low) <= level_of(high),
    decreases high,
{
    if low >= 8 {
        lemma_level_monotonic(low / 8, high / 8);
    }
}

impl<D> View for Octree<D> {
    type V = Map<u64, D>;

    closed spec fn view(&self) -> Map<u64, D> {
        Map::new(
            |code: u64| slots_of(self.index).contains_key(code),
            |code: u64| self.cells@[slots_of(self.index)[code] as int].1.data,
        )
    }
}

impl<D> Octree<D> {
    /// The deepest level at which the tree keeps leaves.
    pub closed spec fn depth_limit(&self) -> u32 {
        self.max_depth
    }

    /// The table and the vector of leaves agree: the table sends the code
    /// of each leaf to its slot, and holds nothing else.
    pub closed spec fn consistent(&self) -> bool {
        &&& forall|code: u64| #[trigger]
            slots_of(self.index).contains_key(code) ==> {
                &&& slots_of(self.index)[code] < self.cells.len()
                &&& self.cells@[slots_of(self.index)[code] as int].0.0 == code
            }
        &&& forall|i: int|
            0 <= i < self.cells.len() ==> {
                &&& slots_of(self.index).contains_key(#[trigger] self.cells@[i].0.0)
                &&& slots_of(self.index)[self.cells@[i].0.0] == i
            }
    }

    /// A tree is well formed when its parts agree, its depth limit is one
    /// that 64-bit codes can address, and every key is a location code
    /// within that limit.
    pub open spec fn wf(&self) -> bool {
        &&& self.consistent()
        &&& 1 <= self.depth_limit() <= MAX_LEVEL
        &&& keys_within(self@, self.depth_limit())
    }

    /// The codes of the leaves, in the order of their slots.
    closed spec fn stored_codes(&self) -> Seq<u64> {
        self.cells@.map_values(|cell: (LocCode, OctreeNode<D>)| cell.0.0)
    }

    /// A well-formed tree has finitely many leaves, as many as slots.
    proof fn lemma_count(&self)
        requires
            self.consistent(),
        ensures
            self@.dom().finite(),
            self@.dom().len() == self.cells.len(),
            self@.dom() == self.stored_codes().to_set(),
    {
        let codes = self.stored_codes();
        assert forall|i: int, j: int| 0 <= i < codes.len() && 0 <= j < codes.len() && i != j
            implies codes[i] != codes[j] by {
            assert(self.cells@[i].0.0 == codes[i]);
            assert(self.cells@[j].0.0 == codes[j]);
        }
        assert(self@.dom() =~= codes.to_set()) by {
            assert forall|code: u64| self@.dom().contains(code) implies codes.to_set().contains(
                code,
            ) by {
                let slot = slots_of(self.index)[code] as int;
                assert(codes[slot] == code);
            }
            assert forall|code: u64| codes.to_set().contains(code) implies self@.dom().contains(
                code,
            ) by {
                let i = choose|i: int| 0 <= i < codes.len() && codes[i] == code;
                assert(self.cells@[i].0.0 == code);
            }
        }
        vstd::seq_lib::seq_to_set_is_finite(codes);
        codes.unique_seq_to_set();
    }

    /// A tree with the table and the codes of a well-formed tree, slot by
    /// slot, is well formed and has the same codes.
    proof fn lemma_reshaped<U>(&self, tree: &Octree<U>)
        requires
            self.wf(),
            tree.index == self.index,
            tree.max_depth == self.max_depth,
            tree.cells.len() == self.cells.len(),
            forall|k: int|
                0 <= k < self.cells.len() ==> (#[trigger] tree.cells@[k]).0 == self.cells@[k].0,
        ensures
            tree.wf(),
            tree.depth_limit() == self.depth_limit(),
            tree@.dom() == self@.dom(),
    {
        assert(tree@.dom() =~= self@.dom());
        assert forall|k: int| 0 <= k < tree.cells.len() implies slots_of(
            tree.index,
        ).contains_key(#[trigger] tree.cells@[k].0.0) && slots_of(
            tree.index,
        )[tree.cells@[k].0.0] == k by {
            assert(tree.cells@[k].0 == self.cells@[k].0);
        }
        assert forall|code: u64| #[trigger]
            slots_of(tree.index).contains_key(code) implies slots_of(tree.index)[code]
            < tree.cells.len() && tree.cells@[slots_of(tree.index)[code] as int].0.0 == code by {
            let slot = slots_of(self.index)[code] as int;
            assert(tree.cells@[slot].0 == self.cells@[slot].0);
        }
        assert forall|code: u64| #[trigger] tree@.contains_key(code) implies is_code(code)
            && level_of(code) <= tree.depth_limit() by {
            assert(self@.contains_key(code));
        }
    }

    /// An empty tree that keeps leaves down to `max_depth`.
    pub fn new(max_depth: u32) -> (tree: Octree<D>)
        requires
            1 <= max_depth <= MAX_LEVEL,
        ensures
            tree.wf(),
            tree@ == Map::<u64, D>::empty(),
            tree.depth_limit() == max_depth,
    {
        let tree = Octree { index: index_new(), cells: Vec::new(), max_depth };
        assert(tree@ =~= Map::<u64, D>::empty());
        tree
    }

    /// An empty tree with room for `size` leaves.
    pub fn with_capacity(max_depth: u32, size: usize) -> (tree: Octree<D>)
        requires
            1 <= max_depth <= MAX_LEVEL,
            size <= usize::MAX / 128,
        ensures
            tree.wf(),
            tree@ == Map::<u64, D>::empty(),
            tree.depth_limit() == max_depth,
    {
        let tree = Octree {
            index: index_with_capacity(size),
            cells: Vec::with_capacity(size),
            max_depth,
        };
        assert(tree@ =~= Map::<u64, D>::empty());
        tree
    }

    /// The deepest level at which the tree keeps leaves.
    pub fn max_depth(&self) -> (limit: u32)
        ensures
            limit == self.depth_limit(),
    {
        self.max_depth
    }

    /// Number of leaves.
    pub fn size(&self) -> (count: usize)
        requires
            self.wf(),
        ensures
            self@.dom().finite(),
            count == self@.len(),
    {
        proof {
            self.lemma_count();
        }
        self.cells.len()
    }

    /// The leaf stored at exactly this code, if there is one.
    pub fn lookup(&self, loc_code: LocCode) -> (found: Option<&OctreeNode<D>>)
        requires
            self.wf(),
        ensures
            found.is_some() == self@.contains_key(loc_code.0),
            found.is_some() ==> found.unwrap().data == self@[loc_code.0],
    {
        match index_get(&self.index, loc_code.0) {
            Some(slot) => Some(&self.cells[slot].1),
            None => None,
        }
    }

    /// Stores a leaf at a code, in place of the leaf that was there.
    pub fn insert(&mut self, location: LocCode, node: OctreeNode<D>) -> (placed: LocCode)
        requires
            old(self).wf(),
            is_code(location.0),
            level_of(location.0) <= old(self).depth_limit(),
        ensures
            final(self).wf(),
            final(self).depth_limit() == old(self).depth_limit(),
            final(self)@ == old(self)@.insert(location.0, node.data),
            placed == location,
    {
        let ghost before = *self;
        match index_get(&self.index, location.0) {
            Some(slot) => {
                self.cells.set(slot, (location, node));
            },
            None => {
                index_insert(&mut self.index, location.0, self.cells.len());
                self.cells.push((location, node));
            },
        }
        assert(self@ =~= before@.insert(location.0, node.data));
        location
    }

    /// Removes the leaf at a code, if there is one.
    pub fn remove_node(&mut self, loc_code: LocCode)
        requires
            old(self).wf(),
        ensures
            final(self).wf(),
            final(self).depth_limit() == old(self).depth_limit(),
            final(self)@ == old(self)@.remove(loc_code.0),
    {
        let ghost before = *self;
        match index_remove(&mut self.index, loc_code.0) {
            Some(slot) => {
                self.cells.swap_remove(slot);
                if slot < self.cells.len() {
                    let moved: u64 = self.cells[slot].0.0;
                    index_insert(&mut self.index, moved, slot);
                }
            },
            None => {},
        }
        assert(self@ =~= before@.remove(loc_code.0));
    }

    /// The leaves themselves, each with its code, each once.
    pub fn into_entries(self) -> (pairs: Vec<(LocCode, OctreeNode<D>)>)
        requires
            self.wf(),
        ensures
            self@.dom().finite(),
            pairs.len() == self@.len(),
            forall|i: int|
                0 <= i < pairs.len() ==> self@.contains_pair(
                    (#[trigger] pairs@[i]).0.0,
                    pairs@[i].1.data,
                ),
            forall|i: int, j: int|
                0 <= i < j < pairs.len() ==> pairs@[i].0 != pairs@[j].0,
            forall|code: u64|
                self@.contains_key(code) ==> exists|i: int|
                    0 <= i < pairs.len() && (#[trigger] pairs@[i]).0 == LocCode(code)
                        && pairs@[i].1.data == self@[code],
    {
        proof {
            self.lemma_count();
            assert forall|k: int| 0 <= k < self.cells.len() implies self@.contains_pair(
                (#[trigger] self.cells@[k]).0.0,
                self.cells@[k].1.data,
            ) by {
                assert(slots_of(self.index).contains_key(self.cells@[k].0.0));
            }
            assert forall|k: int, j: int| 0 <= k < j < self.cells.len() implies self.cells@[k].0
                != self.cells@[j].0 by {
                assert(slots_of(self.index)[self.cells@[k].0.0] == k);
                assert(slots_of(self.index)[self.cells@[j].0.0] == j);
            }
            assert forall|code: u64| self@.contains_key(code) implies exists|k: int|
                0 <= k < self.cells.len() && (#[trigger] self.cells@[k]).0 == LocCode(code)
                    && self.cells@[k].1.data == self@[code] by {
                let slot = slots_of(self.index)[code] as int;
                assert(self.cells@[slot].0 == LocCode(code));
            }
        }
        self.cells
    }

    /// The deepest level at which a leaf is stored, and 0 for an empty tree.
    pub fn depth(&self) -> (deepest: u32)
        requires
            self.wf(),
        ensures
            forall|code: u64| self@.contains_key(code) ==> level_of(code) <= deepest,
            self@.dom().is_empty() ==> deepest == 0,
            !self@.dom().is_empty() ==> exists|code: u64|
                self@.contains_key(code) && level_of(code) == deepest,
    {
        let mut greatest: u64 = 1;
        let mut i: usize = 0;
        while i < self.cells.len()
            invariant
                self.wf(),
                i <= self.cells.len(),
                is_code(greatest),
                forall|j: int| 0 <= j < i ==> self.cells@[j].0.0 <= greatest,
                greatest == 1 || exists|j: int| 0 <= j < i && self.cells@[j].0.0 == greatest,
            decreases self.cells.len() - i,
        {
            let code: u64 = self.cells[i].0.0;
            assert(self@.contains_key(self.cells@[i as int].0.0));
            if code > greatest {
                greatest = code;
            }
            i += 1;
        }
        proof {
            assert forall|code: u64| self@.contains_key(code) implies level_of(code) <= level_of(
                greatest,
            ) by {
                let slot = slots_of(self.index)[code] as int;
                assert(self.cells@[slot].0.0 == code);
                lemma_level_monotonic(code, greatest);
            }
            if self.cells.len() > 0 {
                assert(self@.contains_key(self.cells@[0].0.0));
                if greatest != 1 {
                    let j = choose|j: int| 0 <= j < i && self.cells@[j].0.0 == greatest;
                    assert(self@.contains_key(self.cells@[j].0.0));
                } else {
                    lemma_level_monotonic(self.cells@[0].0.0, greatest);
                }
            } else {
                assert(self@.dom() =~= Set::<u64>::empty());
            }
        }
        LocCode(greatest).get_level()
    }
}

impl<D: Copy> Octree<D> {
    /// The leaves as pairs of code and value, each leaf once.
    pub fn entries(&self) -> (pairs: Vec<(LocCode, D)>)
        requires
            self.wf(),
        ensures
            self@.dom().finite(),
            pairs.len() == self@.len(),
            forall|i: int|
                0 <= i < pairs.len() ==> self@.contains_pair(
                    (#[trigger] pairs@[i]).0.0,
                    pairs@[i].1,
                ),
            forall|i: int, j: int|
                0 <= i < j < pairs.len() ==> pairs@[i].0 != pairs@[j].0,
            forall|code: u64|
                self@.contains_key(code) ==> exists|i: int|
                    0 <= i < pairs.len() && #[trigger] pairs@[i] == (LocCode(code), self@[code]),
    {
        proof {
            self.lemma_count();
        }
        let mut pairs: Vec<(LocCode, D)> = Vec::new();
        let mut i: usize = 0;
        while i < self.cells.len()
            invariant
                self.consistent(),
                i <= self.cells.len(),
                pairs.len() == i,
                forall|k: int|
                    0 <= k < i ==> #[trigger] pairs@[k] == (
                        self.cells@[k].0,
                        self.cells@[k].1.data,
                    ),
            decreases self.cells.len() - i,
        {
            pairs.push((self.cells[i].0, self.cells[i].1.data));
            i += 1;
        }
        proof {
            assert forall|k: int| 0 <= k < pairs.len() implies self@.contains_pair(
                (#[trigger] pairs@[k]).0.0,
                pairs@[k].1,
            ) by {
                assert(slots_of(self.index).contains_key(self.cells@[k].0.0));
            }
            assert forall|k: int, j: int| 0 <= k < j < pairs.len() implies pairs@[k].0
                != pairs@[j].0 by {
                assert(slots_of(self.index)[self.cells@[k].0.0] == k);
                assert(slots_of(self.index)[self.cells@[j].0.0] == j);
            }
            assert forall|code: u64| self@.contains_key(code) implies exists|k: int|
                0 <= k < pairs.len() && #[trigger] pairs@[k] == (LocCode(code), self@[code]) by {
                let slot = slots_of(self.index)[code] as int;
                assert(pairs@[slot] == (LocCode(code), self@[code]));
            }
        }
        pairs
    }

    /// The tree with each value converted into another type.
    pub fn transform<U: From<D>>(self) -> (tree: Octree<U>)
        requires
            self.wf(),
        ensures
            tree.wf(),
            tree.depth_limit() == self.depth_limit(),
            converted(self@, tree@),
    {
        let mut cells: Vec<(LocCode, OctreeNode<U>)> = Vec::new();
        let mut i: usize = 0;
        while i < self.cells.len()
            invariant
                i <= self.cells.len(),
                cells.len() == i,
                forall|k: int|
                    0 <= k < i ==> {
                        &&& (#[trigger] cells@[k]).0 == self.cells@[k].0
                        &&& call_ensures(U::from, (self.cells@[k].1.data,), cells@[k].1.data)
                        &&& U::obeys_from_spec() ==> cells@[k].1.data == U::from_spec(
                            self.cells@[k].1.data,
                        )
                    },
            decreases self.cells.len() - i,
        {
            let node = OctreeNode::new(self.cells[i].1.data);
            cells.push((self.cells[i].0, node.transform::<U>()));
            i += 1;
        }
        let tree = Octree { index: self.index, cells, max_depth: self.max_depth };
        proof {
            self.lemma_reshaped(&tree);
            assert forall|code: u64| self@.contains_key(code) implies call_ensures(
                U::from,
                (self@[code],),
                #[trigger] tree@[code],
            ) by {
                let slot = slots_of(self.index)[code] as int;
                assert(tree.cells@[slot].0 == self.cells@[slot].0);
            }
            if U::obeys_from_spec() {
                assert forall|code: u64| self@.contains_key(code) implies #[trigger] tree@[code]
                    == U::from_spec(self@[code]) by {
                    let slot = slots_of(self.index)[code] as int;
                    assert(tree.cells@[slot].0 == self.cells@[slot].0);
                }
            }
        }
        tree
    }

    /// The tree with each value mapped through a function.
    pub fn transform_fn<U, F: Fn(D) -> U>(self, function: F) -> (tree: Octree<U>)
        requires
            self.wf(),
            forall|code: u64|
                self@.contains_key(code) ==> call_requires(function, (#[trigger] self@[code],)),
        ensures
            tree.wf(),
            tree.depth_limit() == self.depth_limit(),
            mapped_by(self@, tree@, function),
    {
        let mut cells: Vec<(LocCode, OctreeNode<U>)> = Vec::new();
        let mut i: usize = 0;
        while i < self.cells.len()
            invariant
                self.consistent(),
                forall|code: u64|
                    self@.contains_key(code) ==> call_requires(
                        function,
                        (#[trigger] self@[code],),
                    ),
                i <= self.cells.len(),
                cells.len() == i,
                forall|k: int|
                    0 <= k < i ==> {
                        &&& (#[trigger] cells@[k]).0 == self.cells@[k].0
                        &&& call_ensures(function, (self.cells@[k].1.data,), cells@[k].1.data)
                    },
            decreases self.cells.len() - i,
        {
            proof {
                let code = self.cells@[i as int].0.0;
                assert(self@.contains_key(code));
                assert(self@[code] == self.cells@[i as int].1.data);
            }
            let node = OctreeNode::new(self.cells[i].1.data);
            cells.push((self.cells[i].0, node.transform_fn(&function)));
            i += 1;
        }
        let tree = Octree { index: self.index, cells, max_depth: self.max_depth };
        proof {
            self.lemma_reshaped(&tree);
            assert forall|code: u64| self@.contains_key(code) implies call_ensures(
                function,
                (self@[code],),
                #[trigger] tree@[code],
            ) by {
                let slot = slots_of(self.index)[code] as int;
                assert(tree.cells@[slot].0 == self.cells@[slot].0);
            }
        }
        tree
    }

    /// The tree with each leaf mapped through a function of its code and
    /// the leaf.
    pub fn transform_nodes_fn<U, F: Fn(LocCode, OctreeNode<D>) -> OctreeNode<U>>(
        self,
        function: F,
    ) -> (tree: Octree<U>)
        requires
            self.wf(),
            forall|code: u64|
                self@.contains_key(code) ==> call_requires(
                    function,
                    (LocCode(code), OctreeNode { data: #[trigger] self@[code] }),
                ),
        ensures
            tree.wf(),
            tree.depth_limit() == self.depth_limit(),
            nodes_mapped_by(self@, tree@, function),
    {
        let mut cells: Vec<(LocCode, OctreeNode<U>)> = Vec::new();
        let mut i: usize = 0;
        while i < self.cells.len()
            invariant
                self.consistent(),
                forall|code: u64|
                    self@.contains_key(code) ==> call_requires(
                        function,
                        (LocCode(code), OctreeNode { data: #[trigger] self@[code] }),
                    ),
                i <= self.cells.len(),
                cells.len() == i,
                forall|k: int|
                    0 <= k < i ==> {
                        &&& (#[trigger] cells@[k]).0 == self.cells@[k].0
                        &&& call_ensures(
                            function,
                            (self.cells@[k].0, OctreeNode { data: self.cells@[k].1.data }),
                            cells@[k].1,
                        )
                    },
            decreases self.cells.len() - i,
        {
            proof {
                let code = self.cells@[i as int].0.0;
                assert(self@.contains_key(code));
                assert(self@[code] == self.cells@[i as int].1.data);
            }
            let loc_code = self.cells[i].0;
            let node = OctreeNode::new(self.cells[i].1.data);
            cells.push((loc_code, function(loc_code, node)));
            i += 1;
        }
        let tree = Octree { index: self.index, cells, max_depth: self.max_depth };
        proof {
            self.lemma_reshaped(&tree);
            assert forall|code: u64| self@.contains_key(code) implies call_ensures(
                function,
                (LocCode(code), OctreeNode { data: self@[code] }),
                OctreeNode { data: #[trigger] tree@[code] },
            ) by {
                let slot = slots_of(self.index)[code] as int;
                assert(tree.cells@[slot].0 == self.cells@[slot].0);
            }
        }
        tree
    }
}

} // verus!
