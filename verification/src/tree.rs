//! The BVH that the shader reads: triangles, their materials and the
//! flattened node array, with the builder that produces it.

use vstd::prelude::*;
use crate::order_key::{less_than, lemma_ieee_key_facts, POS_INF_BITS, NEG_INF_BITS};
use crate::permutation::{appears_in, lemma_appears_intro};
use crate::geometry::{
    Triangle, is_range_min, is_range_max, is_extent, arrange, triangle_span, same_vertices,
    lemma_extent_same_geometry, float_min, float_max, lemma_min_step, lemma_max_step,
};
use crate::build_node::{
    BuildNode, MAX_LEAF_SIZE, subtree_ok, lemma_subtree_frame, lemma_subtree_facts, flat, node_count,
    shape_ok, lemma_flat_len, flat_ok, node_span, lemma_flat_describes, goes_left,
    same_entries, splits_ok, split_made, lemma_same_entries_permuted, lemma_side_permuted, lemma_side_frame,
    lemma_splits_frame, flat_splits_ok, lemma_flat_splits, partition_result, built_order, choices_ok,
    leaves_end, leaf_count, lemma_flat_shape,
};
use crate::node::{Node, LEAF_FLAG};
use crate::permutation::{permutes_range, lemma_permutes_refl, lemma_permutes_trans, lemma_swap_permutes, lemma_permutes_bound, lemma_permutes_widen, lemma_permutes_same_geometry, lemma_appears_elim};

verus! {

/// What the split chooser `f` may answer: some vector listing `ids` handed
/// over with the box `lo`..`hi` can get `(axis, bits)` back.
pub open spec fn chooser_rel<F: Fn(Vec<usize>, [u32; 3], [u32; 3]) -> (usize, u32)>(f: F) -> spec_fn(
    Seq<usize>,
    [u32; 3],
    [u32; 3],
    usize,
    u32,
) -> bool {
    |ids: Seq<usize>, lo: [u32; 3], hi: [u32; 3], axis: usize, bits: u32|
        exists|v: Vec<usize>| v@ == ids && #[trigger] f.ensures((v, lo, hi), (axis, bits))
}

/// `p` lists every index below `n` exactly once.
pub open spec fn is_index_permutation(p: Seq<usize>, n: int) -> bool {
    &&& p.len() == n
    &&& p.no_duplicates()
    &&& forall|k: int| 0 <= k < n ==> #[trigger] p[k] < n
}

/// A triangle and centroid moved into place from `from` and `from_centroid`:
/// same vertices and material, same centroid, and a spare vector that
/// `normal` relates to the original triangle.
pub open spec fn placed_from(
    tri: Triangle,
    centroid: [u32; 3],
    from: Triangle,
    from_centroid: [u32; 3],
    normal: spec_fn(Triangle, [u32; 3]) -> bool,
) -> bool {
    &&& tri.a == from.a
    &&& tri.b == from.b
    &&& tri.c == from.c
    &&& tri.material == from.material
    &&& normal(from, tri.custom)
    &&& centroid == from_centroid
}

/// The indices `0..n` in order.
pub open spec fn identity_order(n: int) -> Seq<usize> {
    Seq::new(n as nat, |i: int| i as usize)
}

/// The outcome of a build over `old_tris`: the triangles and centroids are
/// the old ones in the order of some permutation, with the spare vector
/// related to each triangle by `normal`; there are at most `2n - 1` nodes;
/// and, when the node indices fit the format (below `LEAF_FLAG`), the node
/// array is a BVH over the new triangle order whose root covers all of them
/// (`flat_ok`), and each of its nodes over more than `MAX_LEAF_SIZE`
/// triangles was split, or left whole, as `chooser` asked (`flat_splits_ok`).
/// In array order the leaves cover `0..n` one after the other, and there is
/// one node fewer than twice the leaves (`leaves_end`, `leaf_count`).
/// The permutation is exactly the one the build makes: the flattening of a
/// tree whose recorded splits the chooser gave, each for the run in its
/// order at that point (`choices_ok`), and which orders the indices as
/// `built_order` says.
pub open spec fn built_from(
    nodes: Seq<Node>,
    tris: Seq<Triangle>,
    cents: Seq<[u32; 3]>,
    old_tris: Seq<Triangle>,
    old_cents: Seq<[u32; 3]>,
    normal: spec_fn(Triangle, [u32; 3]) -> bool,
    chooser: spec_fn(Seq<usize>, [u32; 3], [u32; 3], usize, u32) -> bool,
) -> bool {
    let n = old_tris.len() as int;
    &&& tris.len() == n
    &&& cents.len() == n
    &&& exists|p: Seq<usize>| {
        &&& is_index_permutation(p, n)
        &&& forall|k: int| 0 <= k < n ==> placed_from(
            #[trigger] tris[k],
            cents[k],
            old_tris[p[k] as int],
            old_cents[p[k] as int],
            normal,
        )
        &&& nodes.len() < LEAF_FLAG ==> flat_splits_ok(nodes, cents, p, 0, 0, chooser)
        &&& exists|root: BuildNode| {
            &&& #[trigger] flat(root, 0) == nodes
            &&& p == built_order(root, old_cents, identity_order(n), 0, n)
            &&& choices_ok(root, old_cents, identity_order(n), 0, n, chooser)
        }
    }
    &&& 1 <= nodes.len() <= 2 * n - 1
    &&& nodes.len() < LEAF_FLAG ==> flat_ok(nodes, tris, 0, 0) && node_span(nodes, 0) == n
    &&& nodes.len() < LEAF_FLAG ==> leaves_end(nodes, 0) == Some(n) && nodes.len() == 2 * leaf_count(nodes) - 1
}


/// `tri` and `centroid` are what group `t` of `indices` makes: the three
/// indexed positions, the material index, and a centroid sum that
/// `centroid` relates to the positions, stored in both places.
pub open spec fn mesh_triangle(
    tri: Triangle,
    centroid: [u32; 3],
    positions: Seq<[u32; 4]>,
    indices: Seq<u32>,
    t: int,
    material: u32,
    centroid_rel: spec_fn([u32; 4], [u32; 4], [u32; 4], [u32; 3]) -> bool,
) -> bool {
    &&& tri.a == positions[indices[3 * t] as int]
    &&& tri.b == positions[indices[3 * t + 1] as int]
    &&& tri.c == positions[indices[3 * t + 2] as int]
    &&& tri.material == material
    &&& tri.custom == centroid
    &&& centroid_rel(tri.a, tri.b, tri.c, centroid)
}

/// An indexed triangle mesh with one material. Positions are homogeneous
/// single-precision coordinates (bit patterns); every three entries of
/// `indices` form a triangle, and a trailing incomplete group is ignored.
pub struct Mesh<M> {
    pub positions: Vec<[u32; 4]>,
    pub indices: Vec<u32>,
    pub material: M,
}

/// A triangle soup with its materials and, once built, its BVH.
///
/// `sizes` holds the node count and the triangle count as the shader reads
/// them; `centroids[i]` is the centroid sum of `triangles[i]` while building.
#[derive(Debug)]
pub struct Tree<M> {
    pub sizes: [u32; 2],
    pub nodes: Vec<Node>,
    pub triangles: Vec<Triangle>,
    pub materials: Vec<M>,
    pub centroids: Vec<[u32; 3]>,
}

impl<M> Tree<M> {
    /// An empty tree.
    pub fn new() -> (tree: Self)
        ensures
            tree.sizes == [0u32, 0u32],
            tree.nodes@ == Seq::<Node>::empty(),
            tree.triangles@ == Seq::<Triangle>::empty(),
            tree.materials@ == Seq::<M>::empty(),
            tree.centroids@ == Seq::<[u32; 3]>::empty(),
    {
        Tree {
            triangles: Vec::new(),
            nodes: Vec::new(),
            materials: Vec::new(),
            sizes: [0, 0],
            centroids: Vec::new(),
        }
    }

    /// The exact box of the triangles `indices[start..end]`, as bit patterns.
    fn extent_of(&self, indices: &Vec<usize>, start: usize, end: usize) -> (r: ([u32; 3], [u32; 3]))
        requires
            start <= end <= indices.len(),
            forall|k: int| start <= k < end ==> #[trigger] indices@[k] < self.triangles.len(),
        ensures
            is_extent(r.0, r.1, arrange(self.triangles@, indices@), start as int, end as int),
    {
        let ghost ts = arrange(self.triangles@, indices@);
        proof {
            lemma_ieee_key_facts(POS_INF_BITS, NEG_INF_BITS);
        }
        let mut lo0: u32 = POS_INF_BITS;
        let mut lo1: u32 = POS_INF_BITS;
        let mut lo2: u32 = POS_INF_BITS;
        let mut hi0: u32 = NEG_INF_BITS;
        let mut hi1: u32 = NEG_INF_BITS;
        let mut hi2: u32 = NEG_INF_BITS;
        let mut i: usize = start;
        while i < end
            invariant
                start <= i <= end <= indices.len(),
                forall|k: int| start <= k < end ==> #[trigger] indices@[k] < self.triangles.len(),
                ts == arrange(self.triangles@, indices@),
                is_range_min(lo0, ts, start as int, i as int, 0),
                is_range_min(lo1, ts, start as int, i as int, 1),
                is_range_min(lo2, ts, start as int, i as int, 2),
                is_range_max(hi0, ts, start as int, i as int, 0),
                is_range_max(hi1, ts, start as int, i as int, 1),
                is_range_max(hi2, ts, start as int, i as int, 2),
            decreases end - i,
        {
            let tri = &self.triangles[indices[i]];
            assert(ts[i as int] == *tri);
            let (l0, h0) = triangle_span(tri, 0);
            let (l1, h1) = triangle_span(tri, 1);
            let (l2, h2) = triangle_span(tri, 2);
            proof {
                lemma_min_step(lo0, l0, ts, start as int, i as int, 0);
                lemma_min_step(lo1, l1, ts, start as int, i as int, 1);
                lemma_min_step(lo2, l2, ts, start as int, i as int, 2);
                lemma_max_step(hi0, h0, ts, start as int, i as int, 0);
                lemma_max_step(hi1, h1, ts, start as int, i as int, 1);
                lemma_max_step(hi2, h2, ts, start as int, i as int, 2);
            }
            lo0 = float_min(lo0, l0);
            lo1 = float_min(lo1, l1);
            lo2 = float_min(lo2, l2);
            hi0 = float_max(hi0, h0);
            hi1 = float_max(hi1, h1);
            hi2 = float_max(hi2, h2);
            i = i + 1;
        }
        let bmin = [lo0, lo1, lo2];
        let bmax = [hi0, hi1, hi2];
        (bmin, bmax)
    }

    /// Reorders `indices[start..end]` so that the triangles whose centroid
    /// lies below the split (by key, along `axis`) come first, and returns
    /// where the others begin.
    fn partition(&self, indices: &mut Vec<usize>, start: usize, end: usize, axis: usize, split: u32) -> (mid: usize)
        requires
            start < end <= old(indices).len(),
            axis < 3,
            forall|k: int| start <= k < end ==> #[trigger] old(indices)@[k] < self.centroids.len(),
        ensures
            start <= mid <= end,
            permutes_range(final(indices)@, old(indices)@, start as int, end as int),
            old(indices)@.no_duplicates() ==> final(indices)@.no_duplicates(),
            (final(indices)@, mid as int) == partition_result(
                self.centroids@,
                old(indices)@,
                start as int,
                end as int,
                axis as int,
                split,
            ),
            forall|k: int| start <= k < mid ==> goes_left(
                self.centroids@[#[trigger] final(indices)@[k] as int],
                axis as int,
                split,
            ),
            forall|k: int| mid <= k < end ==> !goes_left(
                self.centroids@[#[trigger] final(indices)@[k] as int],
                axis as int,
                split,
            ),
    {
        let ghost original = indices@;
        let mut left: usize = start;
        let mut right_end: usize = end;
        proof {
            lemma_permutes_refl(original, start as int, end as int);
        }
        while left < right_end
            invariant
                start <= left <= right_end <= end <= indices.len(),
                axis < 3,
                permutes_range(indices@, original, start as int, end as int),
                original.no_duplicates() ==> indices@.no_duplicates(),
                partition_result(self.centroids@, indices@, left as int, right_end as int, axis as int, split)
                    == partition_result(self.centroids@, original, start as int, end as int, axis as int, split),
                forall|k: int| start <= k < end ==> #[trigger] original[k] < self.centroids.len(),
                forall|k: int| start <= k < left ==> goes_left(
                    self.centroids@[#[trigger] indices@[k] as int],
                    axis as int,
                    split,
                ),
                forall|k: int| right_end <= k < end ==> !goes_left(
                    self.centroids@[#[trigger] indices@[k] as int],
                    axis as int,
                    split,
                ),
            decreases right_end - left,
        {
            proof {
                lemma_permutes_bound(indices@, original, start as int, end as int, self.centroids.len() as int);
            }
            let center = self.centroids[indices[left]];
            if less_than(center[axis], split) {
                left = left + 1;
            } else {
                let r = right_end - 1;
                let ghost before = indices@;
                let tmp = indices[left];
                let other = indices[r];
                indices.set(left, other);
                indices.set(r, tmp);
                proof {
                    assert(indices@ == before.update(left as int, before[r as int]).update(r as int, before[left as int]));
                    lemma_swap_permutes(before, left as int, r as int, start as int, end as int);
                    lemma_permutes_trans(original, before, indices@, start as int, end as int);
                    assert(indices@[r as int] == before[left as int]);
                }
                right_end = r;
            }
        }
        left
    }

    /// Builds the subtree over `indices[start..end]`, reordering that part of
    /// `indices` so that every subtree covers a contiguous run of it.
    /// `choose_split` picks the axis and the split position (a bit pattern)
    /// for a run longer than `MAX_LEAF_SIZE`, given the triangle indices of
    /// the run and its box.
    fn build_recursive<F>(&self, indices: &mut Vec<usize>, start: usize, end: usize, choose_split: &F) -> (node: BuildNode) where
        F: Fn(Vec<usize>, [u32; 3], [u32; 3]) -> (usize, u32),

        requires
            start < end <= old(indices).len(),
            old(indices).len() < LEAF_FLAG,
            self.centroids.len() >= self.triangles.len(),
            forall|k: int| start <= k < end ==> #[trigger] old(indices)@[k] < self.triangles.len(),
            forall|ids: Vec<usize>, lo: [u32; 3], hi: [u32; 3]| #[trigger] choose_split.requires((ids, lo, hi)),
            forall|ids: Vec<usize>, lo: [u32; 3], hi: [u32; 3], r: (usize, u32)|
                #[trigger] choose_split.ensures((ids, lo, hi), r) ==> r.0 < 3,
        ensures
            permutes_range(final(indices)@, old(indices)@, start as int, end as int),
            old(indices)@.no_duplicates() ==> final(indices)@.no_duplicates(),
            subtree_ok(node, arrange(self.triangles@, final(indices)@), start as int, end as int),
            splits_ok(node, self.centroids@, final(indices)@, start as int, end as int, chooser_rel(*choose_split)),
            final(indices)@ == built_order(node, self.centroids@, old(indices)@, start as int, end as int),
            choices_ok(node, self.centroids@, old(indices)@, start as int, end as int, chooser_rel(*choose_split)),
        decreases end - start,
    {
        let ghost tris = self.triangles@;
        let ghost idx0 = indices@;
        let (bmin, bmax) = self.extent_of(indices, start, end);
        let count = end - start;
        if count <= MAX_LEAF_SIZE {
            proof {
                lemma_permutes_refl(idx0, start as int, end as int);
            }
            return BuildNode::make_leaf(bmin, bmax, start as u32, count as u32);
        }
        let mut ids: Vec<usize> = Vec::new();
        let mut k: usize = start;
        while k < end
            invariant
                start <= k <= end <= indices.len(),
                ids@ == indices@.subrange(start as int, k as int),
            decreases end - k,
        {
            ids.push(indices[k]);
            k = k + 1;
        }
        let ghost handed = ids;
        proof {
            assert forall|k: int| 0 <= k < handed@.len() implies appears_in(#[trigger] handed@[k], idx0, start as int, end as int) by {
                lemma_appears_intro(handed@[k], idx0, start as int, end as int, start + k);
            }
            assert forall|j: int| start <= j < end implies appears_in(#[trigger] idx0[j], handed@, 0, handed@.len() as int) by {
                lemma_appears_intro(idx0[j], handed@, 0, handed@.len() as int, j - start);
            }
            assert(same_entries(handed@, idx0, start as int, end as int));
        }
        let (axis, split_bits) = choose_split(ids, bmin, bmax);
        proof {
            assert(chooser_rel(*choose_split)(handed@, bmin, bmax, axis, split_bits));
        }
        let mid = self.partition(indices, start, end, axis, split_bits);
        let ghost idx1 = indices@;
        proof {
            lemma_permutes_same_geometry(tris, idx1, idx0, start as int, end as int);
            lemma_extent_same_geometry(bmin, bmax, arrange(tris, idx0), arrange(tris, idx1), start as int, end as int);
            lemma_permutes_bound(idx1, idx0, start as int, end as int, tris.len() as int);
        }
        if mid == start || mid == end {
            let mut leaf = BuildNode::make_leaf(bmin, bmax, start as u32, count as u32);
            leaf.split = Ghost((axis, split_bits));
            proof {
                lemma_same_entries_permuted(handed@, idx0, idx1, start as int, end as int);
                assert(split_made(leaf, self.centroids@, idx1, start as int, end as int, handed@, axis, split_bits, chooser_rel(*choose_split)));
            }
            return leaf;
        }
        let left = self.build_recursive(indices, start, mid, choose_split);
        let ghost idx2 = indices@;
        proof {
            lemma_permutes_widen(idx2, idx1, start as int, end as int, start as int, mid as int);
            assert forall|k: int| mid <= k < end implies #[trigger] idx2[k] < tris.len() by {
                assert(idx2[k] == idx1[k]);
            }
        }
        let right = self.build_recursive(indices, mid, end, choose_split);
        let ghost idx3 = indices@;
        proof {
            lemma_permutes_widen(idx3, idx2, start as int, end as int, mid as int, end as int);
            lemma_permutes_trans(idx0, idx1, idx2, start as int, end as int);
            lemma_permutes_trans(idx0, idx2, idx3, start as int, end as int);
            lemma_permutes_same_geometry(tris, idx3, idx0, start as int, end as int);
            lemma_extent_same_geometry(bmin, bmax, arrange(tris, idx0), arrange(tris, idx3), start as int, end as int);
            let ts2 = arrange(tris, idx2);
            let ts3 = arrange(tris, idx3);
            assert forall|k: int| start <= k < mid implies same_vertices(#[trigger] ts2[k], ts3[k]) by {
                assert(idx3[k] == idx2[k]);
            }
            lemma_subtree_frame(left, ts2, ts3, start as int, mid as int);
            lemma_subtree_facts(left, ts3, start as int, mid as int);
            lemma_subtree_facts(right, ts3, mid as int, end as int);
            let cents = self.centroids@;
            let rel = chooser_rel(*choose_split);
            let key = split_bits;
            lemma_same_entries_permuted(handed@, idx0, idx3, start as int, end as int);
            lemma_side_permuted(cents, idx1, idx2, start as int, mid as int, axis as int, key, true);
            lemma_side_frame(cents, idx2, idx3, start as int, mid as int, axis as int, key, true);
            lemma_side_frame(cents, idx1, idx2, mid as int, end as int, axis as int, key, false);
            lemma_side_permuted(cents, idx2, idx3, mid as int, end as int, axis as int, key, false);
            lemma_splits_frame(left, cents, idx2, idx3, start as int, mid as int, rel);
        }
        let mut node = BuildNode::make_internal(bmin, bmax, Box::new(left), Box::new(right));
        node.split = Ghost((axis, split_bits));
        proof {
            assert(split_made(node, self.centroids@, idx3, start as int, end as int, handed@, axis, split_bits, chooser_rel(*choose_split)));
        }
        node
    }

    /// Appends the pre-order flattening of `node` to `nodes` and returns the
    /// index at which its root landed.
    fn flatten_tree(&mut self, node: &BuildNode) -> (index: u32)
        requires
            shape_ok(*node),
            old(self).nodes.len() + node_count(*node) <= u32::MAX,
        ensures
            final(self).nodes@ == old(self).nodes@ + flat(*node, old(self).nodes.len() as int),
            index == old(self).nodes.len(),
            final(self).triangles@ == old(self).triangles@,
            final(self).centroids@ == old(self).centroids@,
            final(self).materials@ == old(self).materials@,
            final(self).sizes == old(self).sizes,
        decreases node,
    {
        let ghost base = self.nodes.len() as int;
        let ghost start_nodes = self.nodes@;
        let node_index = self.nodes.len() as u32;
        match (&node.left, &node.right) {
            (Some(l), Some(r)) => {
                self.nodes.push(Node::make_internal(node.bounds_min, node.bounds_max, 0, 0));
                proof {
                    lemma_flat_len(**l, base + 1);
                    lemma_flat_len(**r, base + 1 + node_count(**l));
                }
                let left_index = self.flatten_tree(l);
                let right_index = self.flatten_tree(r);
                let mut n = self.nodes[node_index as usize];
                n.left_first = left_index;
                n.tri_count = right_index;
                self.nodes.set(node_index as usize, n);
                proof {
                    let lf = flat(**l, base + 1);
                    let rf = flat(**r, base + 1 + lf.len());
                    assert(self.nodes@ =~= start_nodes + flat(*node, base));
                }
            },
            _ => {
                self.nodes.push(Node::make_leaf(node.bounds_min, node.bounds_max, node.first_triangle, node.triangle_count));
                proof {
                    assert(self.nodes@ =~= start_nodes + flat(*node, base));
                }
            },
        }
        node_index
    }

    /// Builds the BVH over the current triangles.
    ///
    /// Runs of at most `MAX_LEAF_SIZE` triangles become leaves. A longer run
    /// is split where `choose_split` says (an axis and a position, as a bit
    /// pattern): triangles whose centroid lies below the position go left.
    /// When that leaves one side empty the run becomes a leaf too. The tree is
    /// flattened in pre-order into `nodes`, the triangles and centroids are
    /// put in leaf order, each triangle's spare vector is replaced by what
    /// `face_normal` gives for it, and `sizes` is updated. With no triangles
    /// nothing changes.
    ///
    /// A leaf keeps the offset of its first triangle in the 31 bits below
    /// `LEAF_FLAG`, so the triangle count must stay below `LEAF_FLAG`; every
    /// triangle needs a centroid.
    pub fn build<F, G>(&mut self, choose_split: &F, face_normal: &G) where
        F: Fn(Vec<usize>, [u32; 3], [u32; 3]) -> (usize, u32),
        G: Fn(Triangle) -> [u32; 3],

        requires
            old(self).triangles.len() < LEAF_FLAG,
            old(self).centroids.len() >= old(self).triangles.len(),
            forall|ids: Vec<usize>, lo: [u32; 3], hi: [u32; 3]| #[trigger] choose_split.requires((ids, lo, hi)),
            forall|ids: Vec<usize>, lo: [u32; 3], hi: [u32; 3], r: (usize, u32)|
                #[trigger] choose_split.ensures((ids, lo, hi), r) ==> r.0 < 3,
            forall|t: Triangle| #[trigger] face_normal.requires((t,)),
        ensures
            old(self).triangles.len() == 0 ==> {
                &&& final(self).nodes@ == old(self).nodes@
                &&& final(self).triangles@ == old(self).triangles@
                &&& final(self).centroids@ == old(self).centroids@
                &&& final(self).sizes == old(self).sizes
            },
            old(self).triangles.len() > 0 ==> built_from(
                final(self).nodes@,
                final(self).triangles@,
                final(self).centroids@,
                old(self).triangles@,
                old(self).centroids@,
                |t: Triangle, n: [u32; 3]| face_normal.ensures((t,), n),
                chooser_rel(*choose_split),
            ),
            old(self).triangles.len() > 0 ==> final(self).sizes == [
                final(self).nodes.len() as u32,
                final(self).triangles.len() as u32,
            ],
            final(self).materials@ == old(self).materials@,
    {
        let n = self.triangles.len();
        if n == 0 {
            return;
        }
        let ghost old_tris = self.triangles@;
        let ghost old_cents = self.centroids@;
        let mut indices: Vec<usize> = Vec::new();
        let mut i: usize = 0;
        while i < n
            invariant
                i <= n,
                indices.len() == i,
                forall|k: int| 0 <= k < i ==> #[trigger] indices@[k] == k,
            decreases n - i,
        {
            indices.push(i);
            i = i + 1;
        }
        proof {
            assert forall|x: int, y: int| 0 <= x < indices.len() && 0 <= y < indices.len() && x != y
                implies indices@[x] != indices@[y] by {
                assert(indices@[x] == x);
                assert(indices@[y] == y);
            }
            assert(indices@.no_duplicates());
        }
        let ghost initial = indices@;
        proof {
            assert(initial =~= identity_order(n as int));
        }
        let root = self.build_recursive(&mut indices, 0, n, choose_split);
        let ghost perm = indices@;
        proof {
            lemma_subtree_facts(root, arrange(old_tris, perm), 0, n as int);
            assert forall|k: int| 0 <= k < n implies #[trigger] perm[k] < n by {
                let j = lemma_appears_elim(perm[k], initial, 0, n as int);
                assert(initial[j] == j);
            }
        }
        self.nodes.clear();
        self.flatten_tree(&root);
        let mut new_triangles: Vec<Triangle> = Vec::with_capacity(n);
        let mut new_centroids: Vec<[u32; 3]> = Vec::with_capacity(n);
        let mut k: usize = 0;
        while k < n
            invariant
                k <= n,
                n == indices.len(),
                indices@ == perm,
                self.triangles@ == old_tris,
                self.centroids@ == old_cents,
                old_tris.len() == n,
                old_cents.len() >= n,
                forall|j: int| 0 <= j < n ==> #[trigger] perm[j] < n,
                forall|t: Triangle| #[trigger] face_normal.requires((t,)),
                new_triangles.len() == k,
                new_centroids.len() == k,
                forall|j: int| 0 <= j < k ==> placed_from(
                    #[trigger] new_triangles@[j],
                    new_centroids@[j],
                    old_tris[perm[j] as int],
                    old_cents[perm[j] as int],
                    |t: Triangle, n: [u32; 3]| face_normal.ensures((t,), n),
                ),
            decreases n - k,
        {
            let idx = indices[k];
            let mut tri = self.triangles[idx];
            let normal = face_normal(tri);
            tri.custom = normal;
            new_triangles.push(tri);
            new_centroids.push(self.centroids[idx]);
            k = k + 1;
        }
        self.triangles = new_triangles;
        self.centroids = new_centroids;
        self.sizes = [self.nodes.len() as u32, self.triangles.len() as u32];
        proof {
            let ts_a = arrange(old_tris, perm);
            let ts_f = self.triangles@;
            assert forall|j: int| 0 <= j < n implies same_vertices(#[trigger] ts_a[j], ts_f[j]) by {
                assert(placed_from(ts_f[j], self.centroids@[j], old_tris[perm[j] as int], old_cents[perm[j] as int],
                    |t: Triangle, n: [u32; 3]| face_normal.ensures((t,), n)));
            }
            lemma_subtree_frame(root, ts_a, ts_f, 0, n as int);
            lemma_flat_len(root, 0);
            assert(self.nodes@ =~= flat(root, 0));
            if self.nodes.len() < LEAF_FLAG {
                lemma_flat_describes(root, ts_f, 0, n as int, self.nodes@, 0);
                lemma_flat_shape(root, ts_f, 0, n as int, 0);
                assert forall|j: int| 0 <= j < n implies #[trigger] self.centroids@[j] == old_cents[perm[j] as int] by {
                    assert(placed_from(ts_f[j], self.centroids@[j], old_tris[perm[j] as int], old_cents[perm[j] as int],
                        |t: Triangle, n: [u32; 3]| face_normal.ensures((t,), n)));
                }
                lemma_flat_splits(root, ts_f, old_cents, perm, self.centroids@, 0, n as int, self.nodes@, 0, chooser_rel(*choose_split));
            }
            assert(is_index_permutation(perm, n as int));
        }
    }

    /// A tree holding just the given mesh (see `add_mesh`).
    pub fn from_mesh<H>(mesh: Mesh<M>, centroid_of: &H) -> (tree: Self) where
        H: Fn([u32; 4], [u32; 4], [u32; 4]) -> [u32; 3],

        requires
            forall|k: int| 0 <= k < (mesh.indices.len() / 3) * 3 ==> (#[trigger] mesh.indices@[k]) < mesh.positions.len(),
            forall|a: [u32; 4], b: [u32; 4], c: [u32; 4]| #[trigger] centroid_of.requires((a, b, c)),
        ensures
            tree.materials@ == seq![mesh.material],
            tree.nodes@ == Seq::<Node>::empty(),
            tree.sizes == [0u32, 0u32],
            tree.triangles.len() == mesh.indices.len() / 3,
            tree.centroids.len() == mesh.indices.len() / 3,
            forall|t: int| 0 <= t < mesh.indices.len() / 3 ==> mesh_triangle(
                #[trigger] tree.triangles@[t],
                tree.centroids@[t],
                mesh.positions@,
                mesh.indices@,
                t,
                0,
                |a: [u32; 4], b: [u32; 4], c: [u32; 4], r: [u32; 3]| centroid_of.ensures((a, b, c), r),
            ),
    {
        let mut tree = Tree::new();
        tree.add_mesh(mesh, centroid_of);
        proof {
            assert(Seq::<M>::empty().push(mesh.material) =~= seq![mesh.material]);
            assert forall|t: int| 0 <= t < mesh.indices.len() / 3 implies mesh_triangle(
                #[trigger] tree.triangles@[t],
                tree.centroids@[t],
                mesh.positions@,
                mesh.indices@,
                t,
                0,
                |a: [u32; 4], b: [u32; 4], c: [u32; 4], r: [u32; 3]| centroid_of.ensures((a, b, c), r),
            ) by {
                assert(tree.triangles@[0 + t] == tree.triangles@[t]);
                assert(tree.centroids@[0 + t] == tree.centroids@[t]);
            }
        }
        tree
    }

    /// Appends the mesh: its material goes to the end of `materials`, and
    /// each complete group of three indices becomes a triangle with that
    /// material's index, whose centroid sum (given by `centroid_of` for the
    /// three positions) is stored both as its spare vector and in
    /// `centroids`.
    pub fn add_mesh<H>(&mut self, mesh: Mesh<M>, centroid_of: &H) where
        H: Fn([u32; 4], [u32; 4], [u32; 4]) -> [u32; 3],

        requires
            forall|k: int| 0 <= k < (mesh.indices.len() / 3) * 3 ==> (#[trigger] mesh.indices@[k]) < mesh.positions.len(),
            forall|a: [u32; 4], b: [u32; 4], c: [u32; 4]| #[trigger] centroid_of.requires((a, b, c)),
        ensures
            final(self).materials@ == old(self).materials@.push(mesh.material),
            final(self).nodes@ == old(self).nodes@,
            final(self).sizes == old(self).sizes,
            final(self).triangles.len() == old(self).triangles.len() + mesh.indices.len() / 3,
            final(self).centroids.len() == old(self).centroids.len() + mesh.indices.len() / 3,
            forall|k: int| 0 <= k < old(self).triangles.len() ==> #[trigger] final(self).triangles@[k] == old(self).triangles@[k],
            forall|k: int| 0 <= k < old(self).centroids.len() ==> #[trigger] final(self).centroids@[k] == old(self).centroids@[k],
            forall|t: int| 0 <= t < mesh.indices.len() / 3 ==> mesh_triangle(
                #[trigger] final(self).triangles@[old(self).triangles.len() + t],
                final(self).centroids@[old(self).centroids.len() + t],
                mesh.positions@,
                mesh.indices@,
                t,
                old(self).materials.len() as u32,
                |a: [u32; 4], b: [u32; 4], c: [u32; 4], r: [u32; 3]| centroid_of.ensures((a, b, c), r),
            ),
    {
        let ghost old_self_nodes = self.nodes@;
        let ghost old_sizes = self.sizes;
        let material = self.materials.len() as u32;
        let Mesh { positions, indices, material: mesh_material } = mesh;
        self.materials.push(mesh_material);
        let ghost new_materials = self.materials@;
        let groups = indices.len() / 3;
        let ghost tri_base = self.triangles.len() as int;
        let ghost cent_base = self.centroids.len() as int;
        let ghost old_tris = self.triangles@;
        let ghost old_cents = self.centroids@;
        let mut t: usize = 0;
        while t < groups
            invariant
                t <= groups,
                groups == indices.len() / 3,
                forall|k: int| 0 <= k < groups * 3 ==> (#[trigger] indices@[k]) < positions.len(),
                forall|a: [u32; 4], b: [u32; 4], c: [u32; 4]| #[trigger] centroid_of.requires((a, b, c)),
                self.triangles.len() == tri_base + t,
                self.centroids.len() == cent_base + t,
                tri_base == old_tris.len(),
                cent_base == old_cents.len(),
                self.materials@ == new_materials,
                self.nodes@ == old_self_nodes,
                self.sizes == old_sizes,
                forall|k: int| 0 <= k < tri_base ==> #[trigger] self.triangles@[k] == old_tris[k],
                forall|k: int| 0 <= k < cent_base ==> #[trigger] self.centroids@[k] == old_cents[k],
                forall|u: int| 0 <= u < t ==> mesh_triangle(
                    #[trigger] self.triangles@[tri_base + u],
                    self.centroids@[cent_base + u],
                    positions@,
                    indices@,
                    u,
                    material,
                    |a: [u32; 4], b: [u32; 4], c: [u32; 4], r: [u32; 3]| centroid_of.ensures((a, b, c), r),
                ),
            decreases groups - t,
        {
            let a = positions[indices[3 * t] as usize];
            let b = positions[indices[3 * t + 1] as usize];
            let c = positions[indices[3 * t + 2] as usize];
            let center = centroid_of(a, b, c);
            self.centroids.push(center);
            self.triangles.push(Triangle { a, b, c, material, custom: center });
            proof {
                assert(self.triangles@[tri_base + t] == Triangle { a, b, c, material, custom: center });
                assert(self.centroids@[cent_base + t] == center);
                assert(mesh_triangle(
                    self.triangles@[tri_base + t],
                    self.centroids@[cent_base + t],
                    positions@,
                    indices@,
                    t as int,
                    material,
                    |a: [u32; 4], b: [u32; 4], c: [u32; 4], r: [u32; 3]| centroid_of.ensures((a, b, c), r),
                ));
            }
            t = t + 1;
        }
    }
}

impl<M> Default for Tree<M> {
    /// An empty tree, as `Tree::new` makes.
    fn default() -> (tree: Self)
        ensures
            tree.sizes == [0u32, 0u32],
            tree.nodes@ == Seq::<Node>::empty(),
            tree.triangles@ == Seq::<Triangle>::empty(),
            tree.materials@ == Seq::<M>::empty(),
            tree.centroids@ == Seq::<[u32; 3]>::empty(),
    {
        Tree::new()
    }
}

} // verus!
