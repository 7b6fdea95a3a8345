//! The pointer-based tree that the builder produces, what it means for it to
//! describe a run of triangles, and its pre-order flattening into `Node`s.

use vstd::prelude::*;
use crate::geometry::{Triangle, is_extent, same_vertices, same_geometry_in, lemma_extent_same_geometry, lemma_twin_intro};
use crate::order_key::float_lt;
use crate::permutation::{appears_in, permutes_range, lemma_appears_elim, lemma_appears_intro};
use crate::node::{Node, LEAF_FLAG, FIRST_MASK, is_leaf_word, lemma_leaf_roundtrip, lemma_internal_not_leaf};

verus! {

/// Runs of at most this many triangles always become a leaf.
pub const MAX_LEAF_SIZE: usize = 4;

/// A node of the tree while it is being built.
pub struct BuildNode {
    pub bounds_min: [u32; 3],
    pub bounds_max: [u32; 3],
    pub left: Option<Box<BuildNode>>,
    pub right: Option<Box<BuildNode>>,
    pub first_triangle: u32,
    pub triangle_count: u32,
    /// The axis and split position chosen for this node's run, when the run
    /// was long enough to be split (kept for the proofs only).
    pub split: Ghost<(usize, u32)>,
}

impl BuildNode {
    /// A leaf over triangles `first .. first + count`.
    pub fn make_leaf(bounds_min: [u32; 3], bounds_max: [u32; 3], first: u32, count: u32) -> (n: BuildNode)
        ensures
            n.bounds_min == bounds_min,
            n.bounds_max == bounds_max,
            n.left is None,
            n.right is None,
            n.first_triangle == first,
            n.triangle_count == count,
    {
        BuildNode { bounds_min, bounds_max, left: None, right: None, first_triangle: first, triangle_count: count, split: Ghost((0, 0)) }
    }

    /// An internal node over two subtrees.
    pub fn make_internal(bounds_min: [u32; 3], bounds_max: [u32; 3], left: Box<BuildNode>, right: Box<BuildNode>) -> (n: BuildNode)
        ensures
            n.bounds_min == bounds_min,
            n.bounds_max == bounds_max,
            n.left == Some(left),
            n.right == Some(right),
            n.first_triangle == 0,
            n.triangle_count == 0,
    {
        BuildNode { bounds_min, bounds_max, left: Some(left), right: Some(right), first_triangle: 0, triangle_count: 0, split: Ghost((0, 0)) }
    }
}

/// Every node has either two children or none.
pub open spec fn shape_ok(t: BuildNode) -> bool
    decreases t,
{
    match t.left {
        Some(l) => match t.right {
            Some(r) => shape_ok(*l) && shape_ok(*r),
            None => false,
        },
        None => t.right is None,
    }
}

/// Number of triangles under the node.
pub open spec fn covered(t: BuildNode) -> int
    decreases t,
{
    match t.left {
        Some(l) => match t.right {
            Some(r) => covered(*l) + covered(*r),
            None => t.triangle_count as int,
        },
        None => t.triangle_count as int,
    }
}

/// Number of nodes in the tree.
pub open spec fn node_count(t: BuildNode) -> int
    decreases t,
{
    match t.left {
        Some(l) => match t.right {
            Some(r) => 1 + node_count(*l) + node_count(*r),
            None => 1,
        },
        None => 1,
    }
}

/// The tree describes the run `ts[s..e]`: its leaves cover the run in order,
/// left to right, each node's box is the exact extent of the triangles under
/// it, runs of at most `MAX_LEAF_SIZE` triangles are leaves, and only longer
/// runs are split.
pub open spec fn subtree_ok(t: BuildNode, ts: Seq<Triangle>, s: int, e: int) -> bool
    decreases t,
{
    &&& s < e
    &&& is_extent(t.bounds_min, t.bounds_max, ts, s, e)
    &&& match t.left {
        Some(l) => match t.right {
            Some(r) => {
                &&& e - s > MAX_LEAF_SIZE
                &&& t.first_triangle == 0
                &&& t.triangle_count == 0
                &&& subtree_ok(*l, ts, s, s + covered(*l))
                &&& subtree_ok(*r, ts, s + covered(*l), e)
            },
            None => false,
        },
        None => {
            &&& t.right is None
            &&& t.first_triangle == s
            &&& t.triangle_count == e - s
        },
    }
}

pub proof fn lemma_subtree_facts(t: BuildNode, ts: Seq<Triangle>, s: int, e: int)
    requires
        subtree_ok(t, ts, s, e),
    ensures
        covered(t) == e - s,
        shape_ok(t),
        1 <= node_count(t) <= 2 * (e - s) - 1,
    decreases t,
{
    match t.left {
        Some(l) => match t.right {
            Some(r) => {
                lemma_subtree_facts(*l, ts, s, s + covered(*l));
                lemma_subtree_facts(*r, ts, s + covered(*l), e);
            },
            None => {},
        },
        None => {},
    }
}

/// Two runs with the same vertices position by position.
pub open spec fn same_run(ts1: Seq<Triangle>, ts2: Seq<Triangle>, s: int, e: int) -> bool {
    forall|k: int| s <= k < e ==> same_vertices(#[trigger] ts1[k], ts2[k])
}

pub proof fn lemma_same_run_geometry(ts1: Seq<Triangle>, ts2: Seq<Triangle>, s: int, e: int)
    requires
        same_run(ts1, ts2, s, e),
    ensures
        same_geometry_in(ts1, ts2, s, e),
{
    assert forall|k: int| s <= k < e implies crate::geometry::has_twin(#[trigger] ts1[k], ts2, s, e) by {
        lemma_twin_intro(ts1[k], ts2, s, e, k);
    }
    assert forall|j: int| s <= j < e implies crate::geometry::has_twin(#[trigger] ts2[j], ts1, s, e) by {
        assert(same_vertices(ts1[j], ts2[j]));
        lemma_twin_intro(ts2[j], ts1, s, e, j);
    }
}

/// What a tree says of a run depends only on the vertices in the run.
pub proof fn lemma_subtree_frame(t: BuildNode, ts1: Seq<Triangle>, ts2: Seq<Triangle>, s: int, e: int)
    requires
        subtree_ok(t, ts1, s, e),
        same_run(ts1, ts2, s, e),
    ensures
        subtree_ok(t, ts2, s, e),
    decreases t,
{
    lemma_same_run_geometry(ts1, ts2, s, e);
    lemma_extent_same_geometry(t.bounds_min, t.bounds_max, ts1, ts2, s, e);
    match t.left {
        Some(l) => match t.right {
            Some(r) => {
                let m = s + covered(*l);
                lemma_subtree_facts(*l, ts1, s, m);
                lemma_subtree_facts(*r, ts1, m, e);
                lemma_subtree_frame(*l, ts1, ts2, s, m);
                lemma_subtree_frame(*r, ts1, ts2, m, e);
            },
            None => {},
        },
        None => {},
    }
}

/// The pre-order flattening of the tree when its root lands at index `base`:
/// an internal node is followed by its left subtree and then its right one,
/// and it records where both start.
pub open spec fn flat(t: BuildNode, base: int) -> Seq<Node>
    decreases t,
{
    match t.left {
        Some(l) => match t.right {
            Some(r) => {
                let lf = flat(*l, base + 1);
                let rf = flat(*r, base + 1 + lf.len());
                seq![Node::internal_spec(t.bounds_min, t.bounds_max, (base + 1) as u32, (base + 1 + lf.len()) as u32)]
                    + lf + rf
            },
            None => seq![Node::leaf_spec(t.bounds_min, t.bounds_max, t.first_triangle, t.triangle_count)],
        },
        None => seq![Node::leaf_spec(t.bounds_min, t.bounds_max, t.first_triangle, t.triangle_count)],
    }
}

pub proof fn lemma_flat_len(t: BuildNode, base: int)
    ensures
        flat(t, base).len() == node_count(t),
    decreases t,
{
    match t.left {
        Some(l) => match t.right {
            Some(r) => {
                lemma_flat_len(*l, base + 1);
                lemma_flat_len(*r, base + 1 + flat(*l, base + 1).len());
            },
            None => {},
        },
        None => {},
    }
}

/// Where a tree's flattening sits in `nodes` at `base`, the root is at
/// `base`, the left subtree's flattening right after it, and the right
/// subtree's after that.
pub proof fn lemma_flat_children(t: BuildNode, base: int, nodes: Seq<Node>)
    requires
        0 <= base,
        base + node_count(t) <= nodes.len(),
        forall|k: int| 0 <= k < node_count(t) ==> nodes[base + k] == #[trigger] flat(t, base)[k],
    ensures
        nodes[base] == flat(t, base)[0],
        flat(t, base).len() == node_count(t),
        t.left is Some && t.right is Some ==> {
            let l = t.left->0;
            let r = t.right->0;
            &&& nodes[base] == Node::internal_spec(
                t.bounds_min,
                t.bounds_max,
                (base + 1) as u32,
                (base + 1 + node_count(*l)) as u32,
            )
            &&& node_count(t) == 1 + node_count(*l) + node_count(*r)
            &&& forall|k: int| 0 <= k < node_count(*l) ==> nodes[base + 1 + k] == #[trigger] flat(*l, base + 1)[k]
            &&& forall|k: int| 0 <= k < node_count(*r) ==> nodes[base + 1 + node_count(*l) + k]
                == #[trigger] flat(*r, base + 1 + node_count(*l))[k]
        },
{
    lemma_flat_len(t, base);
    assert(nodes[base + 0] == flat(t, base)[0]);
    match t.left {
        Some(l) => match t.right {
            Some(r) => {
                let lf = flat(*l, base + 1);
                lemma_flat_len(*l, base + 1);
                let rbase = base + 1 + lf.len();
                let rf = flat(*r, rbase);
                lemma_flat_len(*r, rbase);
                let whole = flat(t, base);
                assert(whole == seq![Node::internal_spec(t.bounds_min, t.bounds_max, (base + 1) as u32, rbase as u32)] + lf + rf);
                assert(whole[0] == Node::internal_spec(t.bounds_min, t.bounds_max, (base + 1) as u32, rbase as u32));
                assert forall|k: int| 0 <= k < node_count(*l) implies nodes[base + 1 + k] == #[trigger] flat(*l, base + 1)[k] by {
                    assert(whole[1 + k] == lf[k]);
                    assert(nodes[base + (1 + k)] == whole[1 + k]);
                }
                assert forall|k: int| 0 <= k < node_count(*r) implies nodes[base + 1 + node_count(*l) + k]
                    == #[trigger] flat(*r, base + 1 + node_count(*l))[k] by {
                    assert(whole[1 + lf.len() + k] == rf[k]);
                    assert(nodes[base + (1 + lf.len() + k)] == whole[1 + lf.len() + k]);
                }
            },
            None => {},
        },
        None => {},
    }
}

/// Reading the nodes in array order from triangle position `pos`: every
/// leaf starts where the previous leaf ended and holds at least one
/// triangle; the result is where the last leaf ends, or nothing if some
/// leaf breaks the chain.
pub open spec fn leaves_end(nodes: Seq<Node>, pos: int) -> Option<int>
    decreases nodes.len(),
{
    if nodes.len() == 0 {
        Some(pos)
    } else {
        match leaves_end(nodes.drop_last(), pos) {
            Some(p) => if is_leaf_word(nodes.last().left_first) {
                if nodes.last().left_first & FIRST_MASK == p && nodes.last().tri_count >= 1 {
                    Some(p + nodes.last().tri_count)
                } else {
                    None
                }
            } else {
                Some(p)
            },
            None => None,
        }
    }
}

/// Number of leaves in the array.
pub open spec fn leaf_count(nodes: Seq<Node>) -> int
    decreases nodes.len(),
{
    if nodes.len() == 0 {
        0
    } else {
        leaf_count(nodes.drop_last()) + if is_leaf_word(nodes.last().left_first) { 1int } else { 0int }
    }
}

pub proof fn lemma_leaves_concat(a: Seq<Node>, b: Seq<Node>, pos: int)
    ensures
        leaves_end(a + b, pos) == (match leaves_end(a, pos) {
            Some(p) => leaves_end(b, p),
            None => None,
        }),
        leaf_count(a + b) == leaf_count(a) + leaf_count(b),
    decreases b.len(),
{
    if b.len() == 0 {
        assert(a + b =~= a);
    } else {
        lemma_leaves_concat(a, b.drop_last(), pos);
        assert((a + b).drop_last() =~= a + b.drop_last());
        assert((a + b).last() == b.last());
    }
}

/// The flattening of a tree that describes the run `s..e` lists its leaves
/// in array order with runs that tile `s..e` one after the other, each leaf
/// holding at least one triangle, and has one node fewer than twice its
/// leaves.
pub proof fn lemma_flat_shape(t: BuildNode, ts: Seq<Triangle>, s: int, e: int, base: int)
    requires
        subtree_ok(t, ts, s, e),
        0 <= s,
        e < LEAF_FLAG,
        0 <= base,
        base + node_count(t) < LEAF_FLAG,
    ensures
        leaves_end(flat(t, base), s) == Some(e),
        flat(t, base).len() == 2 * leaf_count(flat(t, base)) - 1,
    decreases t,
{
    lemma_flat_len(t, base);
    lemma_subtree_facts(t, ts, s, e);
    match t.left {
        Some(l) => match t.right {
            Some(r) => {
                let m = s + covered(*l);
                lemma_subtree_facts(*l, ts, s, m);
                lemma_subtree_facts(*r, ts, m, e);
                let lf = flat(*l, base + 1);
                lemma_flat_len(*l, base + 1);
                let rbase = base + 1 + lf.len();
                let rf = flat(*r, rbase);
                lemma_flat_len(*r, rbase);
                let head = seq![Node::internal_spec(t.bounds_min, t.bounds_max, (base + 1) as u32, rbase as u32)];
                assert(flat(t, base) == head + lf + rf);
                lemma_internal_not_leaf(t.bounds_min, t.bounds_max, (base + 1) as u32, rbase as u32);
                assert(head.drop_last() =~= Seq::<Node>::empty());
                assert(leaves_end(Seq::<Node>::empty(), s) == Some(s));
                assert(leaf_count(Seq::<Node>::empty()) == 0);
                assert(head.last() == Node::internal_spec(t.bounds_min, t.bounds_max, (base + 1) as u32, rbase as u32));
                assert(leaves_end(head, s) == Some(s));
                assert(leaf_count(head) == 0);
                lemma_flat_shape(*l, ts, s, m, base + 1);
                lemma_flat_shape(*r, ts, m, e, rbase);
                lemma_leaves_concat(head, lf, s);
                lemma_leaves_concat(head + lf, rf, s);
            },
            None => {},
        },
        None => {
            lemma_leaf_roundtrip(t.bounds_min, t.bounds_max, t.first_triangle, t.triangle_count);
            let only = flat(t, base);
            assert(only.drop_last() =~= Seq::<Node>::empty());
            assert(leaves_end(Seq::<Node>::empty(), s) == Some(s));
            assert(leaf_count(Seq::<Node>::empty()) == 0);
            assert(only.last() == Node::leaf_spec(t.bounds_min, t.bounds_max, t.first_triangle, t.triangle_count));
        },
    }
}

/// Number of triangles under node `i` of a flattened tree, following child
/// links (which always point further along the array).
pub open spec fn node_span(nodes: Seq<Node>, i: int) -> int
    decreases nodes.len() - i,
{
    if 0 <= i < nodes.len() {
        if is_leaf_word(nodes[i].left_first) {
            nodes[i].tri_count as int
        } else {
            let l = nodes[i].left_first as int;
            let r = nodes[i].tri_count as int;
            if i < l < nodes.len() && i < r < nodes.len() {
                node_span(nodes, l) + node_span(nodes, r)
            } else {
                0
            }
        }
    } else {
        0
    }
}

/// Node `i` of a flattened tree describes the run of `ts` that starts at `s`:
/// a leaf names the run by offset and length, an internal node has its left
/// child right after it and its right child further on, the two children
/// describe consecutive parts of the run, every box is the exact extent of
/// its triangles, and only runs longer than `MAX_LEAF_SIZE` are split.
pub open spec fn flat_ok(nodes: Seq<Node>, ts: Seq<Triangle>, i: int, s: int) -> bool
    decreases nodes.len() - i,
{
    if 0 <= i < nodes.len() {
        let e = s + node_span(nodes, i);
        &&& s < e
        &&& e <= ts.len()
        &&& is_extent(nodes[i].bound_min, nodes[i].bound_max, ts, s, e)
        &&& if is_leaf_word(nodes[i].left_first) {
            nodes[i].left_first & FIRST_MASK == s
        } else {
            let l = nodes[i].left_first as int;
            let r = nodes[i].tri_count as int;
            if l == i + 1 && i < r < nodes.len() {
                &&& e - s > MAX_LEAF_SIZE
                &&& flat_ok(nodes, ts, l, s)
                &&& flat_ok(nodes, ts, r, s + node_span(nodes, l))
            } else {
                false
            }
        }
    } else {
        false
    }
}

/// A tree that describes a run flattens into nodes that describe it.
pub proof fn lemma_flat_describes(t: BuildNode, ts: Seq<Triangle>, s: int, e: int, nodes: Seq<Node>, base: int)
    requires
        subtree_ok(t, ts, s, e),
        e <= ts.len(),
        e < LEAF_FLAG,
        0 <= base,
        base + node_count(t) <= nodes.len(),
        nodes.len() < LEAF_FLAG,
        forall|k: int| 0 <= k < node_count(t) ==> nodes[base + k] == #[trigger] flat(t, base)[k],
    ensures
        flat_ok(nodes, ts, base, s),
        node_span(nodes, base) == e - s,
    decreases t,
{
    lemma_flat_len(t, base);
    lemma_subtree_facts(t, ts, s, e);
    assert(nodes[base] == flat(t, base)[0]);
    match t.left {
        Some(l) => match t.right {
            Some(r) => {
                let m = s + covered(*l);
                lemma_subtree_facts(*l, ts, s, m);
                lemma_subtree_facts(*r, ts, m, e);
                let rbase = base + 1 + node_count(*l);
                lemma_flat_children(t, base, nodes);
                lemma_flat_describes(*l, ts, s, m, nodes, base + 1);
                lemma_flat_describes(*r, ts, m, e, nodes, rbase);
                lemma_internal_not_leaf(t.bounds_min, t.bounds_max, (base + 1) as u32, rbase as u32);
            },
            None => {},
        },
        None => {
            lemma_leaf_roundtrip(t.bounds_min, t.bounds_max, t.first_triangle, t.triangle_count);
        },
    }
}


/// A centroid goes to the left part of a split when its coordinate along
/// `axis` is below the split position in IEEE order (so never when either is
/// NaN, and not `-0.0` against `+0.0`).
pub open spec fn goes_left(centroid: [u32; 3], axis: int, split: u32) -> bool {
    float_lt(centroid[axis], split)
}

/// Every triangle `idx[s..e]` is on the given side of the split.
pub open spec fn side_ok(cents: Seq<[u32; 3]>, idx: Seq<usize>, s: int, e: int, axis: int, split_key: u32, left: bool) -> bool {
    forall|k: int| s <= k < e ==> goes_left(cents[#[trigger] idx[k] as int], axis, split_key) == left
}

/// `ids` lists the entries of `idx[s..e]`, in some order.
pub open spec fn same_entries(ids: Seq<usize>, idx: Seq<usize>, s: int, e: int) -> bool {
    &&& ids.len() == e - s
    &&& forall|k: int| 0 <= k < ids.len() ==> appears_in(#[trigger] ids[k], idx, s, e)
    &&& forall|j: int| s <= j < e ==> appears_in(#[trigger] idx[j], ids, 0, ids.len() as int)
}

/// The split recorded at node `t` over `idx[s..e]`: the split chooser was
/// handed the entries of the run and the node's box and answered with
/// `axis` and the position `bits`; an internal node sends exactly the
/// triangles whose centroid goes left to its left child, and a leaf over a
/// long run stands where the split left one side empty.
pub open spec fn split_made(
    t: BuildNode,
    cents: Seq<[u32; 3]>,
    idx: Seq<usize>,
    s: int,
    e: int,
    ids: Seq<usize>,
    axis: usize,
    bits: u32,
    chooser: spec_fn(Seq<usize>, [u32; 3], [u32; 3], usize, u32) -> bool,
) -> bool {
    &&& same_entries(ids, idx, s, e)
    &&& axis < 3
    &&& chooser(ids, t.bounds_min, t.bounds_max, axis, bits)
    &&& match t.left {
        Some(l) => {
            let m = s + covered(*l);
            &&& side_ok(cents, idx, s, m, axis as int, bits, true)
            &&& side_ok(cents, idx, m, e, axis as int, bits, false)
        },
        None => side_ok(cents, idx, s, e, axis as int, bits, true) || side_ok(
            cents,
            idx,
            s,
            e,
            axis as int,
            bits,
            false,
        ),
    }
}

/// Every node over a run longer than `MAX_LEAF_SIZE` records the split that
/// the chooser asked for (see `split_made`).
pub open spec fn splits_ok(
    t: BuildNode,
    cents: Seq<[u32; 3]>,
    idx: Seq<usize>,
    s: int,
    e: int,
    chooser: spec_fn(Seq<usize>, [u32; 3], [u32; 3], usize, u32) -> bool,
) -> bool
    decreases t,
{
    &&& (e - s > MAX_LEAF_SIZE ==> exists|ids: Seq<usize>, axis: usize, bits: u32|
        #![trigger chooser(ids, t.bounds_min, t.bounds_max, axis, bits)]
        split_made(t, cents, idx, s, e, ids, axis, bits, chooser))
    &&& match t.left {
        Some(l) => match t.right {
            Some(r) => {
                &&& splits_ok(*l, cents, idx, s, s + covered(*l), chooser)
                &&& splits_ok(*r, cents, idx, s + covered(*l), e, chooser)
            },
            None => true,
        },
        None => true,
    }
}

/// Rearranging inside a range keeps the entries a list was matched with.
pub proof fn lemma_same_entries_permuted(ids: Seq<usize>, a: Seq<usize>, b: Seq<usize>, s: int, e: int)
    requires
        same_entries(ids, a, s, e),
        permutes_range(b, a, s, e),
    ensures
        same_entries(ids, b, s, e),
{
    assert forall|k: int| 0 <= k < ids.len() implies appears_in(#[trigger] ids[k], b, s, e) by {
        let j = lemma_appears_elim(ids[k], a, s, e);
        assert(appears_in(a[j], b, s, e));
    }
    assert forall|j: int| s <= j < e implies appears_in(#[trigger] b[j], ids, 0, ids.len() as int) by {
        let m = lemma_appears_elim(b[j], a, s, e);
        assert(appears_in(a[m], ids, 0, ids.len() as int));
    }
}

/// Rearranging inside a range keeps every entry on its side of a split.
pub proof fn lemma_side_permuted(cents: Seq<[u32; 3]>, a: Seq<usize>, b: Seq<usize>, s: int, e: int, axis: int, split_key: u32, left: bool)
    requires
        side_ok(cents, a, s, e, axis, split_key, left),
        permutes_range(b, a, s, e),
    ensures
        side_ok(cents, b, s, e, axis, split_key, left),
{
    assert forall|k: int| s <= k < e implies goes_left(cents[#[trigger] b[k] as int], axis, split_key) == left by {
        let j = lemma_appears_elim(b[k], a, s, e);
        assert(a[j] == b[k]);
    }
}

/// Membership in a run depends only on the entries of the run.
pub proof fn lemma_appears_frame(x: usize, a: Seq<usize>, b: Seq<usize>, s: int, e: int)
    requires
        appears_in(x, a, s, e),
        forall|k: int| s <= k < e ==> #[trigger] a[k] == b[k],
    ensures
        appears_in(x, b, s, e),
{
    let j = lemma_appears_elim(x, a, s, e);
    lemma_appears_intro(x, b, s, e, j);
}

/// Which side of a split a run is on depends only on the entries of the run.
pub proof fn lemma_side_frame(cents: Seq<[u32; 3]>, a: Seq<usize>, b: Seq<usize>, s: int, e: int, axis: int, split_key: u32, left: bool)
    requires
        side_ok(cents, a, s, e, axis, split_key, left),
        forall|k: int| s <= k < e ==> #[trigger] a[k] == b[k],
    ensures
        side_ok(cents, b, s, e, axis, split_key, left),
{
    assert forall|k: int| s <= k < e implies goes_left(cents[#[trigger] b[k] as int], axis, split_key) == left by {
        assert(a[k] == b[k]);
    }
}

pub proof fn lemma_covered_nonneg(t: BuildNode)
    ensures
        covered(t) >= 0,
    decreases t,
{
    match t.left {
        Some(l) => match t.right {
            Some(r) => {
                lemma_covered_nonneg(*l);
                lemma_covered_nonneg(*r);
            },
            None => {},
        },
        None => {},
    }
}

/// The recorded splits depend only on the entries inside the run.
pub proof fn lemma_splits_frame(
    t: BuildNode,
    cents: Seq<[u32; 3]>,
    a: Seq<usize>,
    b: Seq<usize>,
    s: int,
    e: int,
    chooser: spec_fn(Seq<usize>, [u32; 3], [u32; 3], usize, u32) -> bool,
)
    requires
        splits_ok(t, cents, a, s, e, chooser),
        forall|k: int| s <= k < e ==> #[trigger] a[k] == b[k],
        covered(t) == e - s,
        shape_ok(t),
    ensures
        splits_ok(t, cents, b, s, e, chooser),
    decreases t,
{
    if e - s > MAX_LEAF_SIZE {
        let (ids, axis, bits) = choose|ids: Seq<usize>, axis: usize, bits: u32|
            #![trigger chooser(ids, t.bounds_min, t.bounds_max, axis, bits)]
            split_made(t, cents, a, s, e, ids, axis, bits, chooser);
        assert forall|k: int| 0 <= k < ids.len() implies appears_in(#[trigger] ids[k], b, s, e) by {
            lemma_appears_frame(ids[k], a, b, s, e);
        }
        assert forall|j: int| s <= j < e implies appears_in(#[trigger] b[j], ids, 0, ids.len() as int) by {
            assert(appears_in(a[j], ids, 0, ids.len() as int));
        }
        let key = bits;
        match t.left {
            Some(l) => {
                let m = s + covered(*l);
                lemma_covered_nonneg(*l);
                match t.right {
                    Some(r) => lemma_covered_nonneg(*r),
                    None => {},
                }
                lemma_side_frame(cents, a, b, s, m, axis as int, key, true);
                lemma_side_frame(cents, a, b, m, e, axis as int, key, false);
            },
            None => {
                if side_ok(cents, a, s, e, axis as int, key, true) {
                    lemma_side_frame(cents, a, b, s, e, axis as int, key, true);
                } else {
                    lemma_side_frame(cents, a, b, s, e, axis as int, key, false);
                }
            },
        }
        assert(split_made(t, cents, b, s, e, ids, axis, bits, chooser));
    }
    match t.left {
        Some(l) => match t.right {
            Some(r) => {
                let m = s + covered(*l);
                lemma_covered_nonneg(*l);
                lemma_covered_nonneg(*r);
                lemma_splits_frame(*l, cents, a, b, s, m, chooser);
                lemma_splits_frame(*r, cents, a, b, m, e, chooser);
            },
            None => {},
        },
        None => {},
    }
}


/// Every position of `cents[s..e]` is on the given side of the split.
pub open spec fn side_at(cents: Seq<[u32; 3]>, s: int, e: int, axis: int, split_key: u32, left: bool) -> bool {
    forall|k: int| s <= k < e ==> goes_left(#[trigger] cents[k], axis, split_key) == left
}

/// `split_made` for node `i` of a flattened tree over positions `s..e`,
/// where position `k` holds the triangle that had index `perm[k]` and
/// `cents` is in position order.
pub open spec fn flat_split_made(
    nodes: Seq<Node>,
    cents: Seq<[u32; 3]>,
    perm: Seq<usize>,
    i: int,
    s: int,
    e: int,
    ids: Seq<usize>,
    axis: usize,
    bits: u32,
    chooser: spec_fn(Seq<usize>, [u32; 3], [u32; 3], usize, u32) -> bool,
) -> bool {
    &&& same_entries(ids, perm, s, e)
    &&& axis < 3
    &&& chooser(ids, nodes[i].bound_min, nodes[i].bound_max, axis, bits)
    &&& if is_leaf_word(nodes[i].left_first) {
        side_at(cents, s, e, axis as int, bits, true) || side_at(cents, s, e, axis as int, bits, false)
    } else {
        let m = s + node_span(nodes, nodes[i].left_first as int);
        &&& side_at(cents, s, m, axis as int, bits, true)
        &&& side_at(cents, m, e, axis as int, bits, false)
    }
}

/// Every node of a flattened tree over a run longer than `MAX_LEAF_SIZE`
/// records the split that the chooser asked for.
pub open spec fn flat_splits_ok(
    nodes: Seq<Node>,
    cents: Seq<[u32; 3]>,
    perm: Seq<usize>,
    i: int,
    s: int,
    chooser: spec_fn(Seq<usize>, [u32; 3], [u32; 3], usize, u32) -> bool,
) -> bool
    decreases nodes.len() - i,
{
    if 0 <= i < nodes.len() {
        let e = s + node_span(nodes, i);
        &&& (e - s > MAX_LEAF_SIZE ==> exists|ids: Seq<usize>, axis: usize, bits: u32|
            #![trigger chooser(ids, nodes[i].bound_min, nodes[i].bound_max, axis, bits)]
            flat_split_made(nodes, cents, perm, i, s, e, ids, axis, bits, chooser))
        &&& if is_leaf_word(nodes[i].left_first) {
            true
        } else {
            let l = nodes[i].left_first as int;
            let r = nodes[i].tri_count as int;
            if l == i + 1 && i < r < nodes.len() {
                &&& flat_splits_ok(nodes, cents, perm, l, s, chooser)
                &&& flat_splits_ok(nodes, cents, perm, r, s + node_span(nodes, l), chooser)
            } else {
                true
            }
        }
    } else {
        true
    }
}

/// The splits recorded in a tree carry over to its flattening.
pub proof fn lemma_flat_splits(
    t: BuildNode,
    ts: Seq<Triangle>,
    old_cents: Seq<[u32; 3]>,
    perm: Seq<usize>,
    cents: Seq<[u32; 3]>,
    s: int,
    e: int,
    nodes: Seq<Node>,
    base: int,
    chooser: spec_fn(Seq<usize>, [u32; 3], [u32; 3], usize, u32) -> bool,
)
    requires
        subtree_ok(t, ts, s, e),
        splits_ok(t, old_cents, perm, s, e, chooser),
        forall|k: int| s <= k < e ==> #[trigger] cents[k] == old_cents[perm[k] as int],
        e <= ts.len(),
        e < LEAF_FLAG,
        0 <= base,
        base + node_count(t) <= nodes.len(),
        nodes.len() < LEAF_FLAG,
        forall|k: int| 0 <= k < node_count(t) ==> nodes[base + k] == #[trigger] flat(t, base)[k],
    ensures
        flat_splits_ok(nodes, cents, perm, base, s, chooser),
    decreases t,
{
    lemma_flat_describes(t, ts, s, e, nodes, base);
    lemma_flat_len(t, base);
    lemma_subtree_facts(t, ts, s, e);
    assert(nodes[base] == flat(t, base)[0]);
    match t.left {
        Some(l) => match t.right {
            Some(r) => {
                let m = s + covered(*l);
                lemma_subtree_facts(*l, ts, s, m);
                lemma_subtree_facts(*r, ts, m, e);
                let rbase = base + 1 + node_count(*l);
                lemma_flat_children(t, base, nodes);
                lemma_flat_describes(*l, ts, s, m, nodes, base + 1);
                lemma_flat_describes(*r, ts, m, e, nodes, rbase);
                lemma_internal_not_leaf(t.bounds_min, t.bounds_max, (base + 1) as u32, rbase as u32);
                lemma_flat_splits(*l, ts, old_cents, perm, cents, s, m, nodes, base + 1, chooser);
                lemma_flat_splits(*r, ts, old_cents, perm, cents, m, e, nodes, rbase, chooser);
                if e - s > MAX_LEAF_SIZE {
                    let (ids, axis, bits) = choose|ids: Seq<usize>, axis: usize, bits: u32|
                        #![trigger chooser(ids, t.bounds_min, t.bounds_max, axis, bits)]
                        split_made(t, old_cents, perm, s, e, ids, axis, bits, chooser);
                    let key = bits;
                    assert forall|k: int| s <= k < m implies goes_left(#[trigger] cents[k], axis as int, key) == true by {
                        assert(cents[k] == old_cents[perm[k] as int]);
                        assert(goes_left(old_cents[perm[k] as int], axis as int, key) == true);
                    }
                    assert forall|k: int| m <= k < e implies goes_left(#[trigger] cents[k], axis as int, key) == false by {
                        assert(cents[k] == old_cents[perm[k] as int]);
                        assert(goes_left(old_cents[perm[k] as int], axis as int, key) == false);
                    }
                    assert(flat_split_made(nodes, cents, perm, base, s, e, ids, axis, bits, chooser));
                }
            },
            None => {},
        },
        None => {
            lemma_leaf_roundtrip(t.bounds_min, t.bounds_max, t.first_triangle, t.triangle_count);
            if e - s > MAX_LEAF_SIZE {
                let (ids, axis, bits) = choose|ids: Seq<usize>, axis: usize, bits: u32|
                    #![trigger chooser(ids, t.bounds_min, t.bounds_max, axis, bits)]
                    split_made(t, old_cents, perm, s, e, ids, axis, bits, chooser);
                let key = bits;
                let side = side_ok(old_cents, perm, s, e, axis as int, key, true);
                assert forall|k: int| s <= k < e implies goes_left(#[trigger] cents[k], axis as int, key) == side by {
                    assert(cents[k] == old_cents[perm[k] as int]);
                    assert(goes_left(old_cents[perm[k] as int], axis as int, key) == side);
                }
                assert(flat_split_made(nodes, cents, perm, base, s, e, ids, axis, bits, chooser));
            }
        },
    }
}


/// What `partition` does to `idx[left..right_end]`: a centroid that goes
/// left stays and the left end moves on; otherwise it is exchanged with the
/// last entry of the range, which then shrinks from the right. The result is
/// the rearranged array and the first position of the right part.
pub open spec fn partition_result(
    cents: Seq<[u32; 3]>,
    idx: Seq<usize>,
    left: int,
    right_end: int,
    axis: int,
    split: u32,
) -> (Seq<usize>, int)
    decreases right_end - left,
{
    if left >= right_end {
        (idx, left)
    } else if goes_left(cents[idx[left] as int], axis, split) {
        partition_result(cents, idx, left + 1, right_end, axis, split)
    } else {
        partition_result(
            cents,
            idx.update(left, idx[right_end - 1]).update(right_end - 1, idx[left]),
            left,
            right_end - 1,
            axis,
            split,
        )
    }
}

/// The index order that building `t` over `before[s..e]` leaves behind: a
/// run of at most `MAX_LEAF_SIZE` is untouched; a longer one is partitioned
/// by the node's split, and then, for an internal node, the left part and
/// the right part are ordered by the two subtrees in turn.
pub open spec fn built_order(t: BuildNode, cents: Seq<[u32; 3]>, before: Seq<usize>, s: int, e: int) -> Seq<usize>
    decreases t,
{
    if e - s <= MAX_LEAF_SIZE {
        before
    } else {
        let parted = partition_result(cents, before, s, e, t.split@.0 as int, t.split@.1);
        match t.left {
            Some(l) => match t.right {
                Some(r) => built_order(*r, cents, built_order(*l, cents, parted.0, s, parted.1), parted.1, e),
                None => parted.0,
            },
            None => parted.0,
        }
    }
}

/// Every node over a run longer than `MAX_LEAF_SIZE` has its split from the
/// chooser, which was handed exactly the run `before[s..e]` in its order at
/// that point and the node's box; an internal node's children cover the two
/// parts the partition made, and a leaf stands where one part was empty.
pub open spec fn choices_ok(
    t: BuildNode,
    cents: Seq<[u32; 3]>,
    before: Seq<usize>,
    s: int,
    e: int,
    chooser: spec_fn(Seq<usize>, [u32; 3], [u32; 3], usize, u32) -> bool,
) -> bool
    decreases t,
{
    if e - s <= MAX_LEAF_SIZE {
        true
    } else {
        let parted = partition_result(cents, before, s, e, t.split@.0 as int, t.split@.1);
        &&& t.split@.0 < 3
        &&& chooser(before.subrange(s, e), t.bounds_min, t.bounds_max, t.split@.0, t.split@.1)
        &&& match t.left {
            Some(l) => match t.right {
                Some(r) => {
                    &&& parted.1 == s + covered(*l)
                    &&& choices_ok(*l, cents, parted.0, s, parted.1, chooser)
                    &&& choices_ok(*r, cents, built_order(*l, cents, parted.0, s, parted.1), parted.1, e, chooser)
                },
                None => false,
            },
            None => parted.1 == s || parted.1 == e,
        }
    }
}

} // verus!
