//! Leaves of the tree.
use vstd::prelude::*;
use vstd::std_specs::convert::FromSpec;

verus! {

/// A leaf: the value with which its cell is painted.
#[derive(Debug)]
pub struct OctreeNode<D> {
    pub data: D,
}

impl<D> OctreeNode<D> {
    pub fn new(data: D) -> (node: OctreeNode<D>)
        ensures
            node.data == data,
    {
        OctreeNode { data }
    }

    /// The leaf with its value converted into another type.
    pub fn transform<U>(self) -> (node: OctreeNode<U>) where U: From<D>
        ensures
            call_ensures(U::from, (self.data,), node.data),
            U::obeys_from_spec() ==> node.data == U::from_spec(self.data),
    {
        OctreeNode { data: U::from(self.data) }
    }

    /// The leaf with its value mapped through a function.
    pub fn transform_fn<U, F>(self, function: F) -> (node: OctreeNode<U>) where F: Fn(D) -> U
        requires
            call_requires(function, (self.data,)),
        ensures
            call_ensures(function, (self.data,), node.data),
    {
        OctreeNode { data: function(self.data) }
    }
}

} // verus!
