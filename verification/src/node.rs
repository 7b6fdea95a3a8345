//! The compact node format that the shader walks.

use vstd::prelude::*;

verus! {

/// Top bit of `left_first`: set on leaves, clear on internal nodes.
pub const LEAF_FLAG: u32 = 0x8000_0000;

/// Mask that removes `LEAF_FLAG` from `left_first`.
pub const FIRST_MASK: u32 = 0x7fff_ffff;

/// A flattened BVH node, 32 bytes as the GPU reads it.
///
/// The bounds are the bit patterns of single-precision coordinates. For an
/// internal node `left_first` is the index of the left child and `tri_count`
/// that of the right child; for a leaf `left_first` is the offset of the first
/// triangle with `LEAF_FLAG` set and `tri_count` the number of triangles.
#[derive(Clone, Copy, Debug)]
pub struct Node {
    pub bound_min: [u32; 3],
    pub left_first: u32,
    pub bound_max: [u32; 3],
    pub tri_count: u32,
}

/// Whether a `left_first` word marks a leaf.
pub open spec fn is_leaf_word(left_first: u32) -> bool {
    left_first & LEAF_FLAG != 0
}

impl Node {
    /// The node that `make_internal` builds.
    pub open spec fn internal_spec(bound_min: [u32; 3], bound_max: [u32; 3], left: u32, right: u32) -> Node {
        Node { bound_min, left_first: left, bound_max, tri_count: right }
    }

    /// The node that `make_leaf` builds.
    pub open spec fn leaf_spec(bound_min: [u32; 3], bound_max: [u32; 3], first: u32, count: u32) -> Node {
        Node { bound_min, left_first: first | LEAF_FLAG, bound_max, tri_count: count }
    }

    /// An internal node with the given bounds and child indices.
    pub fn make_internal(bound_min: [u32; 3], bound_max: [u32; 3], left: u32, right: u32) -> (node: Node)
        ensures
            node == Node::internal_spec(bound_min, bound_max, left, right),
    {
        Node { bound_min, left_first: left, bound_max, tri_count: right }
    }

    /// A leaf with the given bounds covering triangles `first .. first + count`.
    pub fn make_leaf(bound_min: [u32; 3], bound_max: [u32; 3], first: u32, count: u32) -> (node: Node)
        ensures
            node == Node::leaf_spec(bound_min, bound_max, first, count),
    {
        Node { bound_min, left_first: first | LEAF_FLAG, bound_max, tri_count: count }
    }

    /// Whether this node is a leaf.
    pub fn is_leaf(&self) -> (leaf: bool)
        ensures
            leaf == is_leaf_word(self.left_first),
    {
        (self.left_first & LEAF_FLAG) != 0
    }

    /// The offset of the first triangle of a leaf (`left_first` without the flag).
    pub fn first_triangle(&self) -> (first: u32)
        ensures
            first == self.left_first & FIRST_MASK,
    {
        self.left_first & FIRST_MASK
    }
}

/// A leaf is always recognised as a leaf, and its first-triangle offset
/// reads back unchanged when it fits in 31 bits.
pub proof fn lemma_leaf_roundtrip(bound_min: [u32; 3], bound_max: [u32; 3], first: u32, count: u32)
    ensures
        is_leaf_word(Node::leaf_spec(bound_min, bound_max, first, count).left_first),
        first < LEAF_FLAG ==> Node::leaf_spec(bound_min, bound_max, first, count).left_first
            & FIRST_MASK == first,
        Node::leaf_spec(bound_min, bound_max, first, count).tri_count == count,
{
    assert((first | 0x8000_0000u32) & 0x8000_0000u32 != 0) by (bit_vector);
    assert(first < 0x8000_0000u32 ==> (first | 0x8000_0000u32) & 0x7fff_ffffu32 == first)
        by (bit_vector);
}

/// An internal node whose left child index fits in 31 bits is never taken
/// for a leaf, and it keeps both child indices as given.
pub proof fn lemma_internal_not_leaf(bound_min: [u32; 3], bound_max: [u32; 3], left: u32, right: u32)
    ensures
        left < LEAF_FLAG ==> !is_leaf_word(
            Node::internal_spec(bound_min, bound_max, left, right).left_first,
        ),
        Node::internal_spec(bound_min, bound_max, left, right).left_first == left,
        Node::internal_spec(bound_min, bound_max, left, right).tri_count == right,
{
    assert(left < 0x8000_0000u32 ==> left & 0x8000_0000u32 == 0) by (bit_vector);
}

} // verus!
