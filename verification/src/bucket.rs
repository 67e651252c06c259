//! Weighted nodes: what a ring is built from.
use vstd::prelude::*;
use crate::addr::NodeAddr;

verus! {

/// The error for a node whose weight is zero.
#[derive(Clone, Copy, Debug, PartialEq, Eq)]
pub struct InvalidWeight;

/// A node and its weight. The weight is positive.
#[derive(Clone, Copy, Debug, PartialEq, Eq)]
pub struct Bucket {
    node: NodeAddr,
    weight: u32,
}

impl Bucket {
    #[verifier::type_invariant]
    spec fn positive(self) -> bool {
        self.weight > 0
    }

    /// The node's address.
    pub closed spec fn spec_node(&self) -> NodeAddr {
        self.node
    }

    /// The node's weight.
    pub closed spec fn spec_weight(&self) -> u32 {
        self.weight
    }

    /// A node with the given weight, which must be positive.
    pub fn new(node: NodeAddr, weight: u32) -> (bucket: Self)
        requires
            weight > 0,
        ensures
            bucket.node() == node,
            bucket.weight() == weight,
    {
        Self { node, weight }
    }

    /// A node with the given weight, or [`InvalidWeight`] if the weight is zero.
    pub fn try_new(node: NodeAddr, weight: u32) -> (made: Result<Self, InvalidWeight>)
        ensures
            weight == 0 <==> made is Err,
            made is Ok ==> made->Ok_0.node() == node && made->Ok_0.weight() == weight,
    {
        if weight == 0 {
            Err(InvalidWeight)
        } else {
            Ok(Self { node, weight })
        }
    }

    /// The node's address.
    #[verifier::when_used_as_spec(spec_node)]
    pub fn node(&self) -> (node: NodeAddr)
        ensures
            node == self.spec_node(),
    {
        self.node
    }

    /// The node's weight.
    #[verifier::when_used_as_spec(spec_weight)]
    pub fn weight(&self) -> (weight: u32)
        ensures
            weight == self.spec_weight(),
            weight > 0,
    {
        proof {
            use_type_invariant(self);
        }
        self.weight
    }
}

} // verus!
