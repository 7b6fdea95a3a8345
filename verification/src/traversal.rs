//! The stack-based walk of a flattened BVH that the shader performs, with
//! the counters that measure it.

use vstd::prelude::*;
use crate::node::{Node, FIRST_MASK, is_leaf_word};
use crate::geometry::Triangle;
use crate::build_node::{flat_ok, node_span};

verus! {

/// The walk stops after this many pops.
pub const MAX_STEPS: usize = 100;

/// Capacity of the node stack; children are pushed only while both fit.
pub const STACK_SIZE: usize = 32;

/// Bit pattern of the largest finite single-precision value: the starting
/// closest distance.
pub const FAR_BITS: u32 = 0x7f7f_ffff;

/// What one walk did.
#[derive(Debug)]
pub struct TraversalStats {
    pub steps: usize,
    pub nodes_visited: usize,
    pub triangles_tested: usize,
    pub hit: bool,
}

/// The state of a walk: (steps, nodes visited, triangles tested, hit,
/// closest distance so far as a bit pattern, stack of node indices).
pub type Walk = (int, int, int, bool, u32, Seq<u32>);

/// The state a walk starts in: the root on the stack.
pub open spec fn walk_start() -> Walk {
    (0, 0, 0, false, FAR_BITS, seq![0u32])
}

/// Testing triangles `i..end` of a leaf: each one counts as tested, and a
/// reported distance below the closest one so far becomes the closest one
/// and marks a hit.
pub open spec fn leaf_scan(tri_hit: Seq<Option<u32>>, i: int, end: int, tested: int, hit: bool, closest: u32) -> (int, bool, u32)
    decreases end - i,
{
    if i >= end {
        (tested, hit, closest)
    } else {
        match tri_hit[i] {
            Some(t) => if t < closest {
                leaf_scan(tri_hit, i + 1, end, tested + 1, true, t)
            } else {
                leaf_scan(tri_hit, i + 1, end, tested + 1, hit, closest)
            },
            None => leaf_scan(tri_hit, i + 1, end, tested + 1, hit, closest),
        }
    }
}

/// End of the triangles a leaf tests: its run, cut at the triangle count.
pub open spec fn leaf_end(node: Node, tri_len: int) -> int {
    let first = (node.left_first & FIRST_MASK) as int;
    if first + node.tri_count as int <= tri_len { first + node.tri_count as int } else { tri_len }
}

/// One pop of the walk. An index past the node array is skipped; a node
/// whose box the ray misses is counted and skipped; a leaf has its
/// triangles tested; an internal node pushes its right child and then its
/// left one (so the left is popped first) when both fit on the stack.
pub open spec fn walk_step(nodes: Seq<Node>, node_hit: Seq<bool>, tri_hit: Seq<Option<u32>>, w: Walk) -> Walk {
    let steps = w.0 + 1;
    let stack = w.5.drop_last();
    let idx = w.5.last() as int;
    if idx >= nodes.len() {
        (steps, w.1, w.2, w.3, w.4, stack)
    } else {
        let visited = w.1 + 1;
        let node = nodes[idx];
        if !node_hit[idx] {
            (steps, visited, w.2, w.3, w.4, stack)
        } else if is_leaf_word(node.left_first) {
            let first = (node.left_first & FIRST_MASK) as int;
            let scan = leaf_scan(tri_hit, first, leaf_end(node, tri_hit.len() as int), w.2, w.3, w.4);
            (steps, visited, scan.0, scan.1, scan.2, stack)
        } else if stack.len() + 2 <= STACK_SIZE {
            (steps, visited, w.2, w.3, w.4, stack.push(node.tri_count).push(node.left_first))
        } else {
            (steps, visited, w.2, w.3, w.4, stack)
        }
    }
}

/// The walk from state `w` with at most `fuel` more pops; it also stops when
/// the stack is empty.
pub open spec fn walk(nodes: Seq<Node>, node_hit: Seq<bool>, tri_hit: Seq<Option<u32>>, w: Walk, fuel: nat) -> Walk
    decreases fuel,
{
    if fuel == 0 || w.5.len() == 0 {
        w
    } else {
        walk(nodes, node_hit, tri_hit, walk_step(nodes, node_hit, tri_hit, w), (fuel - 1) as nat)
    }
}

/// The statistics of a walk over `nodes` with the given outcomes of the
/// box tests (`node_hit[i]` for node `i`) and triangle tests
/// (`triangle_hit[i]`: the distance to triangle `i`, as a bit pattern, if
/// the ray hits it).
pub open spec fn walk_stats(nodes: Seq<Node>, node_hit: Seq<bool>, tri_hit: Seq<Option<u32>>) -> Walk {
    if nodes.len() == 0 {
        (0, 0, 0, false, FAR_BITS, Seq::empty())
    } else {
        walk(nodes, node_hit, tri_hit, walk_start(), MAX_STEPS as nat)
    }
}

proof fn lemma_leaf_scan_grows(tri_hit: Seq<Option<u32>>, i: int, end: int, tested: int, hit: bool, closest: u32)
    ensures
        leaf_scan(tri_hit, i, end, tested, hit, closest).0 == tested + if end > i { end - i } else { 0 },
        leaf_scan(tri_hit, i, end, tested, hit, closest).1 ==> hit || end > i,
    decreases end - i,
{
    if i < end {
        lemma_leaf_scan_grows(tri_hit, i + 1, end, tested + 1, true, closest);
        lemma_leaf_scan_grows(tri_hit, i + 1, end, tested + 1, hit, closest);
        match tri_hit[i] {
            Some(t) => lemma_leaf_scan_grows(tri_hit, i + 1, end, tested + 1, true, t),
            None => {},
        }
    }
}

/// Walks `nodes` from the root as the shader does, popping at most
/// `MAX_STEPS` times, and reports what it did. `node_hit[i]` says whether the
/// ray meets the box of node `i`, and `triangle_hit[i]` gives the distance
/// to triangle `i` (as a bit pattern) when the ray meets it; distances are
/// compared as bit patterns, which orders the non-negative distances the
/// intersection test reports. An empty node array gives all zeros.
pub fn traverse_bvh(nodes: &Vec<Node>, node_hit: &Vec<bool>, triangle_hit: &Vec<Option<u32>>) -> (stats: TraversalStats)
    requires
        node_hit.len() == nodes.len(),
        triangle_hit.len() <= usize::MAX / MAX_STEPS,
    ensures
        stats.steps == walk_stats(nodes@, node_hit@, triangle_hit@).0,
        stats.nodes_visited == walk_stats(nodes@, node_hit@, triangle_hit@).1,
        stats.triangles_tested == walk_stats(nodes@, node_hit@, triangle_hit@).2,
        stats.hit == walk_stats(nodes@, node_hit@, triangle_hit@).3,
{
    let mut stats = TraversalStats { steps: 0, nodes_visited: 0, triangles_tested: 0, hit: false };
    if nodes.len() == 0 {
        return stats;
    }
    let tri_len = triangle_hit.len();
    let mut closest: u32 = FAR_BITS;
    let mut stack: Vec<u32> = Vec::new();
    stack.push(0);
    proof {
        assert(stack@ =~= seq![0u32]);
    }
    let ghost target = walk(nodes@, node_hit@, triangle_hit@, walk_start(), MAX_STEPS as nat);
    while stack.len() > 0 && stats.steps < MAX_STEPS
        invariant
            node_hit.len() == nodes.len(),
            tri_len == triangle_hit.len(),
            tri_len <= usize::MAX / MAX_STEPS,
            stats.steps <= MAX_STEPS,
            stats.nodes_visited <= stats.steps,
            stats.triangles_tested <= stats.steps * tri_len,
            stack.len() <= STACK_SIZE,
            walk(
                nodes@,
                node_hit@,
                triangle_hit@,
                (stats.steps as int, stats.nodes_visited as int, stats.triangles_tested as int, stats.hit, closest, stack@),
                (MAX_STEPS - stats.steps) as nat,
            ) == target,
        decreases MAX_STEPS - stats.steps,
    {
        let ghost before: Walk = (stats.steps as int, stats.nodes_visited as int, stats.triangles_tested as int, stats.hit, closest, stack@);
        let ghost after = walk_step(nodes@, node_hit@, triangle_hit@, before);
        proof {
            assert(stats.steps * tri_len + tri_len == (stats.steps + 1) * tri_len) by (nonlinear_arith);
            assert((stats.steps + 1) * tri_len <= MAX_STEPS * tri_len) by (nonlinear_arith)
                requires stats.steps + 1 <= MAX_STEPS;
            assert(MAX_STEPS * tri_len <= usize::MAX) by (nonlinear_arith)
                requires tri_len <= usize::MAX / MAX_STEPS;
        }
        stats.steps = stats.steps + 1;
        let node_idx = stack.pop().unwrap() as usize;
        if node_idx >= nodes.len() {
            proof {
                assert(stack@ =~= after.5);
            }
            continue;
        }
        let node = &nodes[node_idx];
        stats.nodes_visited = stats.nodes_visited + 1;
        if !node_hit[node_idx] {
            proof {
                assert(stack@ =~= after.5);
            }
            continue;
        }
        if node.is_leaf() {
            let first = node.first_triangle() as usize;
            let count = node.tri_count as usize;
            let end = if first <= tri_len && count <= tri_len - first { first + count } else { tri_len };
            let ghost scan = leaf_scan(triangle_hit@, first as int, end as int, stats.triangles_tested as int, stats.hit, closest);
            proof {
                assert(end as int == leaf_end(*node, tri_len as int));
                lemma_leaf_scan_grows(triangle_hit@, first as int, end as int, stats.triangles_tested as int, stats.hit, closest);
            }
            let mut i = first;
            let ghost steps_now = stats.steps;
            let ghost visited_now = stats.nodes_visited;
            while i < end
                invariant
                    stats.steps == steps_now,
                    stats.nodes_visited == visited_now,
                    steps_now <= MAX_STEPS,
                    visited_now <= steps_now,
                    steps_now * tri_len <= usize::MAX,
                    end <= tri_len,
                    tri_len == triangle_hit.len(),
                    first <= i || end <= first,
                    i <= end || end <= first,
                    stats.triangles_tested as int + (if end > i { end - i } else { 0 }) == scan.0,
                    scan.0 <= stats.steps * tri_len,
                    leaf_scan(triangle_hit@, i as int, end as int, stats.triangles_tested as int, stats.hit, closest) == scan,
                decreases end - i,
            {
                proof {
                    lemma_leaf_scan_grows(triangle_hit@, i as int, end as int, stats.triangles_tested as int, stats.hit, closest);
                }
                stats.triangles_tested = stats.triangles_tested + 1;
                match triangle_hit[i] {
                    Some(t) => {
                        if t < closest {
                            closest = t;
                            stats.hit = true;
                        }
                    },
                    None => {},
                }
                i = i + 1;
            }
            proof {
                assert(stack@ =~= after.5);
            }
        } else {
            if stack.len() + 2 <= STACK_SIZE {
                stack.push(node.tri_count);
                stack.push(node.left_first);
            }
            proof {
                assert(stack@ =~= after.5);
            }
        }
    }
    stats
}


/// Counters that every state of a walk satisfies.
pub open spec fn walk_inv(w: Walk) -> bool {
    &&& 0 <= w.1 <= w.0
    &&& 0 <= w.2
    &&& (w.3 ==> w.2 >= 1)
    &&& w.5.len() <= STACK_SIZE
}

proof fn lemma_walk_inv(nodes: Seq<Node>, node_hit: Seq<bool>, tri_hit: Seq<Option<u32>>, w: Walk, fuel: nat)
    requires
        walk_inv(w),
    ensures
        walk_inv(walk(nodes, node_hit, tri_hit, w, fuel)),
        walk(nodes, node_hit, tri_hit, w, fuel).0 <= w.0 + fuel,
        walk(nodes, node_hit, tri_hit, w, fuel).0 == w.0 + fuel || walk(nodes, node_hit, tri_hit, w, fuel).5.len() == 0,
    decreases fuel,
{
    if fuel > 0 && w.5.len() > 0 {
        let next = walk_step(nodes, node_hit, tri_hit, w);
        let idx = w.5.last() as int;
        if 0 <= idx < nodes.len() && node_hit[idx] && is_leaf_word(nodes[idx].left_first) {
            let first = (nodes[idx].left_first & FIRST_MASK) as int;
            lemma_leaf_scan_grows(tri_hit, first, leaf_end(nodes[idx], tri_hit.len() as int), w.2, w.3, w.4);
        }
        assert(walk_inv(next));
        lemma_walk_inv(nodes, node_hit, tri_hit, next, (fuel - 1) as nat);
    }
}

/// Whatever the tree and the test outcomes, a walk pops at most `MAX_STEPS`
/// times, visits at most one node per pop, never holds more than
/// `STACK_SIZE` entries, reports a hit only after testing some triangle, and
/// stops early only when nothing is left on the stack.
pub proof fn lemma_walk_bounds(nodes: Seq<Node>, node_hit: Seq<bool>, tri_hit: Seq<Option<u32>>)
    ensures
        walk_stats(nodes, node_hit, tri_hit).0 <= MAX_STEPS,
        walk_stats(nodes, node_hit, tri_hit).1 <= walk_stats(nodes, node_hit, tri_hit).0,
        walk_stats(nodes, node_hit, tri_hit).3 ==> walk_stats(nodes, node_hit, tri_hit).2 >= 1,
        walk_stats(nodes, node_hit, tri_hit).5.len() <= STACK_SIZE,
        walk_stats(nodes, node_hit, tri_hit).0 == MAX_STEPS || walk_stats(nodes, node_hit, tri_hit).5.len() == 0,
{
    if nodes.len() > 0 {
        lemma_walk_inv(nodes, node_hit, tri_hit, walk_start(), MAX_STEPS as nat);
    }
}


/// An internal node whose box is hit, with room on the stack, puts its right
/// child and then its left child on top of the stack, so that the left child
/// is the next node popped.
pub proof fn lemma_left_child_first(nodes: Seq<Node>, node_hit: Seq<bool>, tri_hit: Seq<Option<u32>>, w: Walk)
    requires
        w.5.len() > 0,
        0 <= w.5.last() < nodes.len(),
        node_hit[w.5.last() as int],
        !is_leaf_word(nodes[w.5.last() as int].left_first),
        w.5.len() + 1 <= STACK_SIZE,
    ensures
        walk_step(nodes, node_hit, tri_hit, w).5 == w.5.drop_last().push(nodes[w.5.last() as int].tri_count).push(
            nodes[w.5.last() as int].left_first,
        ),
        walk_step(nodes, node_hit, tri_hit, w).5.last() == nodes[w.5.last() as int].left_first,
{
}


/// The walk of the subtree at node `i` from state `w`, whose stack holds the
/// entries below `i`: the pop of `i` (see `walk_step`), then, for an internal
/// node whose box is hit and whose children fit on the stack, the walk of
/// the left subtree above the right child and then that of the right one.
/// The stack comes back as it was.
pub open spec fn sub_walk(nodes: Seq<Node>, node_hit: Seq<bool>, tri_hit: Seq<Option<u32>>, i: int, w: Walk) -> Walk
    decreases nodes.len() - i,
{
    let after = walk_step(nodes, node_hit, tri_hit, (w.0, w.1, w.2, w.3, w.4, w.5.push(i as u32)));
    if 0 <= i < nodes.len() && node_hit[i] && !is_leaf_word(nodes[i].left_first) {
        let l = nodes[i].left_first as int;
        let r = nodes[i].tri_count as int;
        if l == i + 1 && i < r < nodes.len() && w.5.len() + 2 <= STACK_SIZE {
            let wl = sub_walk(nodes, node_hit, tri_hit, l, (after.0, after.1, after.2, after.3, after.4, w.5.push(r as u32)));
            sub_walk(nodes, node_hit, tri_hit, r, (wl.0, wl.1, wl.2, wl.3, wl.4, w.5))
        } else {
            after
        }
    } else {
        after
    }
}

/// Number of pops the walk of the subtree at `i` takes.
pub open spec fn sub_pops(nodes: Seq<Node>, node_hit: Seq<bool>, i: int) -> nat
    decreases nodes.len() - i,
{
    if 0 <= i < nodes.len() && node_hit[i] && !is_leaf_word(nodes[i].left_first) {
        let l = nodes[i].left_first as int;
        let r = nodes[i].tri_count as int;
        if l == i + 1 && i < r < nodes.len() {
            1 + sub_pops(nodes, node_hit, l) + sub_pops(nodes, node_hit, r)
        } else {
            1
        }
    } else {
        1
    }
}

/// With `d` entries below node `i`, every internal node whose box is hit
/// finds room for both children on the stack.
pub open spec fn stack_fits(nodes: Seq<Node>, node_hit: Seq<bool>, i: int, d: int) -> bool
    decreases nodes.len() - i,
{
    if 0 <= i < nodes.len() && node_hit[i] && !is_leaf_word(nodes[i].left_first) {
        let l = nodes[i].left_first as int;
        let r = nodes[i].tri_count as int;
        if l == i + 1 && i < r < nodes.len() {
            &&& d + 2 <= STACK_SIZE
            &&& stack_fits(nodes, node_hit, l, d + 1)
            &&& stack_fits(nodes, node_hit, r, d)
        } else {
            true
        }
    } else {
        true
    }
}

/// Triangle `k` reports a distance below the starting closest distance.
pub open spec fn hit_at(tri_hit: Seq<Option<u32>>, k: int) -> bool {
    tri_hit[k] is Some && tri_hit[k]->0 < FAR_BITS
}

/// Some triangle of `s..e` reports a distance below the starting one.
pub open spec fn range_has_hit(tri_hit: Seq<Option<u32>>, s: int, e: int) -> bool {
    exists|k: int| s <= k < e && #[trigger] hit_at(tri_hit, k)
}

/// The box tests never miss a node that holds a hit triangle: for every node
/// of the subtree at `i` (over the run starting at `s`), a hit inside its run
/// means its box is hit.
pub open spec fn boxes_conservative(nodes: Seq<Node>, node_hit: Seq<bool>, tri_hit: Seq<Option<u32>>, i: int, s: int) -> bool
    decreases nodes.len() - i,
{
    if 0 <= i < nodes.len() {
        &&& (range_has_hit(tri_hit, s, s + node_span(nodes, i)) ==> node_hit[i])
        &&& if !is_leaf_word(nodes[i].left_first) {
            let l = nodes[i].left_first as int;
            let r = nodes[i].tri_count as int;
            if l == i + 1 && i < r < nodes.len() {
                &&& boxes_conservative(nodes, node_hit, tri_hit, l, s)
                &&& boxes_conservative(nodes, node_hit, tri_hit, r, s + node_span(nodes, l))
            } else {
                true
            }
        } else {
            true
        }
    } else {
        true
    }
}

proof fn lemma_sub_walk_is_walk(
    nodes: Seq<Node>,
    ts: Seq<Triangle>,
    node_hit: Seq<bool>,
    tri_hit: Seq<Option<u32>>,
    i: int,
    s: int,
    w: Walk,
    fuel: nat,
)
    requires
        flat_ok(nodes, ts, i, s),
        0 <= i < nodes.len(),
        nodes.len() <= u32::MAX,
        stack_fits(nodes, node_hit, i, w.5.len() as int),
        fuel >= sub_pops(nodes, node_hit, i),
    ensures
        walk(nodes, node_hit, tri_hit, (w.0, w.1, w.2, w.3, w.4, w.5.push(i as u32)), fuel) == walk(
            nodes,
            node_hit,
            tri_hit,
            sub_walk(nodes, node_hit, tri_hit, i, w),
            (fuel - sub_pops(nodes, node_hit, i)) as nat,
        ),
    decreases nodes.len() - i,
{
    let pushed = (w.0, w.1, w.2, w.3, w.4, w.5.push(i as u32));
    let after = walk_step(nodes, node_hit, tri_hit, pushed);
    assert(pushed.5.drop_last() =~= w.5);
    assert(pushed.5.last() == i as u32);
    if node_hit[i] && !is_leaf_word(nodes[i].left_first) {
        let l = nodes[i].left_first as int;
        let r = nodes[i].tri_count as int;
        if l == i + 1 && i < r < nodes.len() {
            let fl = (fuel - 1) as nat;
            let below = (after.0, after.1, after.2, after.3, after.4, w.5.push(r as u32));
            assert(after.5 == w.5.push(r as u32).push(l as u32));
            assert(after == (below.0, below.1, below.2, below.3, below.4, below.5.push(l as u32)));
            lemma_sub_walk_is_walk(nodes, ts, node_hit, tri_hit, l, s, below, fl);
            let wl = sub_walk(nodes, node_hit, tri_hit, l, below);
            lemma_sub_walk_stack(nodes, ts, node_hit, tri_hit, l, s, below);
            let fr = (fl - sub_pops(nodes, node_hit, l)) as nat;
            let rest = (wl.0, wl.1, wl.2, wl.3, wl.4, w.5);
            assert(wl == (rest.0, rest.1, rest.2, rest.3, rest.4, rest.5.push(r as u32)));
            lemma_sub_walk_is_walk(nodes, ts, node_hit, tri_hit, r, s + node_span(nodes, l), rest, fr);
        }
    }
}

proof fn lemma_sub_walk_stack(nodes: Seq<Node>, ts: Seq<Triangle>, node_hit: Seq<bool>, tri_hit: Seq<Option<u32>>, i: int, s: int, w: Walk)
    requires
        flat_ok(nodes, ts, i, s),
        nodes.len() <= u32::MAX,
    ensures
        sub_walk(nodes, node_hit, tri_hit, i, w).5 == w.5,
    decreases nodes.len() - i,
{
    let pushed = (w.0, w.1, w.2, w.3, w.4, w.5.push(i as u32));
    assert(pushed.5.drop_last() =~= w.5);
    let after = walk_step(nodes, node_hit, tri_hit, pushed);
    if 0 <= i < nodes.len() && node_hit[i] && !is_leaf_word(nodes[i].left_first) {
        let l = nodes[i].left_first as int;
        let r = nodes[i].tri_count as int;
        if l == i + 1 && i < r < nodes.len() && w.5.len() + 2 <= STACK_SIZE {
            let below = (after.0, after.1, after.2, after.3, after.4, w.5.push(r as u32));
            lemma_sub_walk_stack(nodes, ts, node_hit, tri_hit, l, s, below);
            let wl = sub_walk(nodes, node_hit, tri_hit, l, below);
            lemma_sub_walk_stack(nodes, ts, node_hit, tri_hit, r, s + node_span(nodes, l), (wl.0, wl.1, wl.2, wl.3, wl.4, w.5));
        }
    }
}

/// Closest distance so far: never above the start, and below it only after
/// a hit.
pub open spec fn closest_ok(w: Walk) -> bool {
    w.4 <= FAR_BITS && (w.4 < FAR_BITS ==> w.3)
}

proof fn lemma_leaf_scan_hits(tri_hit: Seq<Option<u32>>, i: int, end: int, tested: int, hit: bool, closest: u32)
    requires
        closest <= FAR_BITS,
        closest < FAR_BITS ==> hit,
        end <= tri_hit.len(),
        0 <= i,
    ensures
        leaf_scan(tri_hit, i, end, tested, hit, closest).2 <= FAR_BITS,
        leaf_scan(tri_hit, i, end, tested, hit, closest).2 < FAR_BITS ==> leaf_scan(tri_hit, i, end, tested, hit, closest).1,
        leaf_scan(tri_hit, i, end, tested, hit, closest).1 == (hit || range_has_hit(tri_hit, i, end)),
    decreases end - i,
{
    if i < end {
        match tri_hit[i] {
            Some(t) => if t < closest {
                lemma_leaf_scan_hits(tri_hit, i + 1, end, tested + 1, true, t);
            } else {
                lemma_leaf_scan_hits(tri_hit, i + 1, end, tested + 1, hit, closest);
            },
            None => lemma_leaf_scan_hits(tri_hit, i + 1, end, tested + 1, hit, closest),
        }
        if hit_at(tri_hit, i) {
            assert(range_has_hit(tri_hit, i, end));
        }
        if range_has_hit(tri_hit, i, end) && !hit_at(tri_hit, i) {
            let k = choose|k: int| i <= k < end && #[trigger] hit_at(tri_hit, k);
            assert(range_has_hit(tri_hit, i + 1, end));
        }
        if range_has_hit(tri_hit, i + 1, end) {
            let k = choose|k: int| i + 1 <= k < end && #[trigger] hit_at(tri_hit, k);
            assert(range_has_hit(tri_hit, i, end));
        }
    } else {
        if range_has_hit(tri_hit, i, end) {
            let k = choose|k: int| i <= k < end && #[trigger] hit_at(tri_hit, k);
        }
    }
}

proof fn lemma_sub_walk_hits(
    nodes: Seq<Node>,
    ts: Seq<Triangle>,
    node_hit: Seq<bool>,
    tri_hit: Seq<Option<u32>>,
    i: int,
    s: int,
    w: Walk,
)
    requires
        flat_ok(nodes, ts, i, s),
        nodes.len() <= u32::MAX,
        0 <= s,
        s + node_span(nodes, i) <= tri_hit.len(),
        boxes_conservative(nodes, node_hit, tri_hit, i, s),
        stack_fits(nodes, node_hit, i, w.5.len() as int),
        closest_ok(w),
    ensures
        closest_ok(sub_walk(nodes, node_hit, tri_hit, i, w)),
        sub_walk(nodes, node_hit, tri_hit, i, w).3 == (w.3 || range_has_hit(tri_hit, s, s + node_span(nodes, i))),
    decreases nodes.len() - i,
{
    reveal_with_fuel(flat_ok, 2);
    let e = s + node_span(nodes, i);
    let pushed = (w.0, w.1, w.2, w.3, w.4, w.5.push(i as u32));
    assert(pushed.5.drop_last() =~= w.5);
    let after = walk_step(nodes, node_hit, tri_hit, pushed);
    if !node_hit[i] {
    } else if is_leaf_word(nodes[i].left_first) {
        assert(leaf_end(nodes[i], tri_hit.len() as int) == e);
        lemma_leaf_scan_hits(tri_hit, s, e, w.2, w.3, w.4);
    } else {
        let l = nodes[i].left_first as int;
        let r = nodes[i].tri_count as int;
        let m = s + node_span(nodes, l);
        let below = (after.0, after.1, after.2, after.3, after.4, w.5.push(r as u32));
        lemma_sub_walk_hits(nodes, ts, node_hit, tri_hit, l, s, below);
        let wl = sub_walk(nodes, node_hit, tri_hit, l, below);
        let rest = (wl.0, wl.1, wl.2, wl.3, wl.4, w.5);
        lemma_sub_walk_hits(nodes, ts, node_hit, tri_hit, r, m, rest);
        if range_has_hit(tri_hit, s, e) {
            let k = choose|k: int| s <= k < e && #[trigger] hit_at(tri_hit, k);
            if k < m {
                assert(range_has_hit(tri_hit, s, m));
            } else {
                assert(range_has_hit(tri_hit, m, e));
            }
        }
        if range_has_hit(tri_hit, s, m) {
            let k = choose|k: int| s <= k < m && #[trigger] hit_at(tri_hit, k);
            assert(range_has_hit(tri_hit, s, e));
        }
        if range_has_hit(tri_hit, m, e) {
            let k = choose|k: int| m <= k < e && #[trigger] hit_at(tri_hit, k);
            assert(range_has_hit(tri_hit, s, e));
        }
    }
}

/// No hit is missed: over a BVH whose root describes all the triangles
/// (`flat_ok`), when the box tests never miss a box that holds a hit
/// triangle, every internal node whose box is hit finds room for its
/// children on the stack, and the walk needs no more than `MAX_STEPS` pops,
/// the walk reports a hit exactly when some triangle reports a distance
/// below the starting one, and it ends with an empty stack.
pub proof fn lemma_walk_finds_hits(nodes: Seq<Node>, ts: Seq<Triangle>, node_hit: Seq<bool>, tri_hit: Seq<Option<u32>>)
    requires
        flat_ok(nodes, ts, 0, 0),
        nodes.len() <= u32::MAX,
        tri_hit.len() == node_span(nodes, 0),
        boxes_conservative(nodes, node_hit, tri_hit, 0, 0),
        stack_fits(nodes, node_hit, 0, 0),
        sub_pops(nodes, node_hit, 0) <= MAX_STEPS,
    ensures
        walk_stats(nodes, node_hit, tri_hit).3 == range_has_hit(tri_hit, 0, tri_hit.len() as int),
        walk_stats(nodes, node_hit, tri_hit).5.len() == 0,
{
    let empty: Walk = (0, 0, 0, false, FAR_BITS, Seq::empty());
    assert(walk_start() == (empty.0, empty.1, empty.2, empty.3, empty.4, empty.5.push(0u32)));
    lemma_sub_walk_is_walk(nodes, ts, node_hit, tri_hit, 0, 0, empty, MAX_STEPS as nat);
    lemma_sub_walk_stack(nodes, ts, node_hit, tri_hit, 0, 0, empty);
    lemma_sub_walk_hits(nodes, ts, node_hit, tri_hit, 0, 0, empty);
    let done = sub_walk(nodes, node_hit, tri_hit, 0, empty);
    assert(walk(nodes, node_hit, tri_hit, done, (MAX_STEPS - sub_pops(nodes, node_hit, 0)) as nat) == done);
}

} // verus!
