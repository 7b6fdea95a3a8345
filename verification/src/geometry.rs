//! Triangles as the BVH stores them, and the exact extent of a run of
//! triangles along an axis, measured in order keys.

use vstd::prelude::*;
use crate::order_key::{is_nan, ieee_key, nan_bits, comparison_key, lemma_ieee_key_facts, POS_INF_BITS, NEG_INF_BITS};

verus! {

/// Comparison key of `+inf`: the starting value of a running minimum.
pub const KEY_POS_INF: u32 = 0xff80_0000;

/// Comparison key of `-inf`: the starting value of a running maximum.
pub const KEY_NEG_INF: u32 = 0x007f_ffff;

/// A triangle as uploaded to the GPU: three homogeneous vertices, a material
/// index and a spare vector (the centroid sum while building, the face normal
/// afterwards). Coordinates are single-precision bit patterns.
#[derive(Clone, Copy, Debug)]
pub struct Triangle {
    pub a: [u32; 4],
    pub b: [u32; 4],
    pub c: [u32; 4],
    pub material: u32,
    pub custom: [u32; 3],
}

/// Two triangles with the same three vertices.
pub open spec fn same_vertices(t: Triangle, u: Triangle) -> bool {
    t.a == u.a && t.b == u.b && t.c == u.c
}

pub open spec fn min_u32(x: u32, y: u32) -> u32 {
    if x <= y { x } else { y }
}

pub open spec fn max_u32(x: u32, y: u32) -> u32 {
    if x >= y { x } else { y }
}

/// Comparison key of a coordinate for a minimum: NaN counts as `+inf`,
/// which never lowers a minimum (`f32::min` skips NaN).
pub open spec fn low_key(x: u32) -> u32 {
    if is_nan(x) { KEY_POS_INF } else { ieee_key(x) }
}

/// Comparison key of a coordinate for a maximum: NaN counts as `-inf`.
pub open spec fn high_key(x: u32) -> u32 {
    if is_nan(x) { KEY_NEG_INF } else { ieee_key(x) }
}

/// Smallest vertex coordinate of the triangle along `axis`, as a key.
pub open spec fn tri_min_key(t: Triangle, axis: int) -> u32 {
    min_u32(min_u32(low_key(t.a[axis]), low_key(t.b[axis])), low_key(t.c[axis]))
}

/// Largest vertex coordinate of the triangle along `axis`, as a key.
pub open spec fn tri_max_key(t: Triangle, axis: int) -> u32 {
    max_u32(max_u32(high_key(t.a[axis]), high_key(t.b[axis])), high_key(t.c[axis]))
}

/// `v` is the coordinate along `axis` of one of the triangle's vertices.
pub open spec fn is_vertex_coord(v: u32, t: Triangle, axis: int) -> bool {
    v == t.a[axis] || v == t.b[axis] || v == t.c[axis]
}

/// `v` is what `f32::min`, started from `+inf`, gives over the vertex
/// coordinates of `ts[s..e]` along `axis`: not NaN, no greater (in IEEE
/// order) than any coordinate that is not NaN, and either `+inf` or one of
/// the coordinates. (Where `-0.0` and `+0.0` tie, either may come out.)
pub open spec fn is_range_min(v: u32, ts: Seq<Triangle>, s: int, e: int, axis: int) -> bool {
    &&& !is_nan(v)
    &&& ieee_key(v) <= KEY_POS_INF
    &&& forall|k: int| s <= k < e ==> ieee_key(v) <= #[trigger] tri_min_key(ts[k], axis)
    &&& (v == POS_INF_BITS || exists|k: int| s <= k < e && #[trigger] is_vertex_coord(v, ts[k], axis))
}

/// `v` is what `f32::max`, started from `-inf`, gives over the vertex
/// coordinates of `ts[s..e]` along `axis`.
pub open spec fn is_range_max(v: u32, ts: Seq<Triangle>, s: int, e: int, axis: int) -> bool {
    &&& !is_nan(v)
    &&& ieee_key(v) >= KEY_NEG_INF
    &&& forall|k: int| s <= k < e ==> ieee_key(v) >= #[trigger] tri_max_key(ts[k], axis)
    &&& (v == NEG_INF_BITS || exists|k: int| s <= k < e && #[trigger] is_vertex_coord(v, ts[k], axis))
}

/// The box `bmin`..`bmax` (bit patterns) is the axis-aligned extent of the
/// triangles `ts[s..e]` as `f32::min` / `f32::max` compute it from the empty
/// box `+inf`..`-inf`.
pub open spec fn is_extent(bmin: [u32; 3], bmax: [u32; 3], ts: Seq<Triangle>, s: int, e: int) -> bool {
    &&& is_range_min(bmin[0], ts, s, e, 0)
    &&& is_range_min(bmin[1], ts, s, e, 1)
    &&& is_range_min(bmin[2], ts, s, e, 2)
    &&& is_range_max(bmax[0], ts, s, e, 0)
    &&& is_range_max(bmax[1], ts, s, e, 1)
    &&& is_range_max(bmax[2], ts, s, e, 2)
}

/// The triangles picked by `idx`, in the order of `idx`.
pub open spec fn arrange(tris: Seq<Triangle>, idx: Seq<usize>) -> Seq<Triangle> {
    Seq::new(idx.len(), |k: int| tris[idx[k] as int])
}

/// Some triangle of `ts[s..e]` has the vertices of `t`.
pub closed spec fn has_twin(t: Triangle, ts: Seq<Triangle>, s: int, e: int) -> bool {
    exists|j: int| s <= j < e && same_vertices(t, ts[j])
}

pub proof fn lemma_twin_intro(t: Triangle, ts: Seq<Triangle>, s: int, e: int, j: int)
    requires
        s <= j < e,
        same_vertices(t, ts[j]),
    ensures
        has_twin(t, ts, s, e),
{
}

pub proof fn lemma_twin_elim(t: Triangle, ts: Seq<Triangle>, s: int, e: int) -> (j: int)
    requires
        has_twin(t, ts, s, e),
    ensures
        s <= j < e,
        same_vertices(t, ts[j]),
{
    choose|j: int| s <= j < e && same_vertices(t, ts[j])
}

/// `ts1[s..e]` and `ts2[s..e]` hold the same geometry, each triangle of one
/// matched by a triangle of the other.
pub open spec fn same_geometry_in(ts1: Seq<Triangle>, ts2: Seq<Triangle>, s: int, e: int) -> bool {
    &&& forall|k: int| s <= k < e ==> has_twin(#[trigger] ts1[k], ts2, s, e)
    &&& forall|j: int| s <= j < e ==> has_twin(#[trigger] ts2[j], ts1, s, e)
}

/// The extent of a run depends only on the geometry in it, not on its order.
pub proof fn lemma_extent_same_geometry(bmin: [u32; 3], bmax: [u32; 3], ts1: Seq<Triangle>, ts2: Seq<Triangle>, s: int, e: int)
    requires
        is_extent(bmin, bmax, ts1, s, e),
        same_geometry_in(ts1, ts2, s, e),
    ensures
        is_extent(bmin, bmax, ts2, s, e),
{
    assert forall|axis: int| 0 <= axis < 3 implies
        (is_range_min(bmin[axis], ts1, s, e, axis) ==> is_range_min(bmin[axis], ts2, s, e, axis))
        && (is_range_max(bmax[axis], ts1, s, e, axis) ==> is_range_max(bmax[axis], ts2, s, e, axis))
    by {
        let vmin = bmin[axis];
        let vmax = bmax[axis];
        if is_range_min(vmin, ts1, s, e, axis) {
            assert forall|j: int| s <= j < e implies ieee_key(vmin) <= #[trigger] tri_min_key(ts2[j], axis) by {
                let k = lemma_twin_elim(ts2[j], ts1, s, e);
                assert(tri_min_key(ts1[k], axis) == tri_min_key(ts2[j], axis));
            }
            if vmin != POS_INF_BITS {
                let k = choose|k: int| s <= k < e && #[trigger] is_vertex_coord(vmin, ts1[k], axis);
                let j = lemma_twin_elim(ts1[k], ts2, s, e);
                assert(is_vertex_coord(vmin, ts2[j], axis));
            }
        }
        if is_range_max(vmax, ts1, s, e, axis) {
            assert forall|j: int| s <= j < e implies ieee_key(vmax) >= #[trigger] tri_max_key(ts2[j], axis) by {
                let k = lemma_twin_elim(ts2[j], ts1, s, e);
                assert(tri_max_key(ts1[k], axis) == tri_max_key(ts2[j], axis));
            }
            if vmax != NEG_INF_BITS {
                let k = choose|k: int| s <= k < e && #[trigger] is_vertex_coord(vmax, ts1[k], axis);
                let j = lemma_twin_elim(ts1[k], ts2, s, e);
                assert(is_vertex_coord(vmax, ts2[j], axis));
            }
        }
    }
}

/// `f32::min` on bit patterns: a NaN argument gives way to the other one.
pub open spec fn min_bits(x: u32, y: u32) -> u32 {
    if is_nan(y) { x } else if is_nan(x) { y } else if ieee_key(y) < ieee_key(x) { y } else { x }
}

/// `f32::max` on bit patterns: a NaN argument gives way to the other one.
pub open spec fn max_bits(x: u32, y: u32) -> u32 {
    if is_nan(y) { x } else if is_nan(x) { y } else if ieee_key(y) > ieee_key(x) { y } else { x }
}

/// Computes `min_bits(x, y)`.
pub fn float_min(x: u32, y: u32) -> (r: u32)
    ensures
        r == min_bits(x, y),
{
    if nan_bits(y) {
        x
    } else if nan_bits(x) {
        y
    } else if comparison_key(y) < comparison_key(x) {
        y
    } else {
        x
    }
}

/// Computes `max_bits(x, y)`.
pub fn float_max(x: u32, y: u32) -> (r: u32)
    ensures
        r == max_bits(x, y),
{
    if nan_bits(y) {
        x
    } else if nan_bits(x) {
        y
    } else if comparison_key(y) > comparison_key(x) {
        y
    } else {
        x
    }
}

/// Smallest and largest vertex coordinate of the triangle along `axis`, as
/// `f32::min` / `f32::max` give them: NaN only when all three are NaN.
pub fn triangle_span(t: &Triangle, axis: usize) -> (r: (u32, u32))
    requires
        axis < 3,
    ensures
        is_nan(r.0) ==> tri_min_key(*t, axis as int) == KEY_POS_INF,
        !is_nan(r.0) ==> ieee_key(r.0) == tri_min_key(*t, axis as int) && is_vertex_coord(r.0, *t, axis as int),
        is_nan(r.1) ==> tri_max_key(*t, axis as int) == KEY_NEG_INF,
        !is_nan(r.1) ==> ieee_key(r.1) == tri_max_key(*t, axis as int) && is_vertex_coord(r.1, *t, axis as int),
{
    let (a, b, c) = (t.a[axis], t.b[axis], t.c[axis]);
    proof {
        lemma_ieee_key_facts(a, b);
        lemma_ieee_key_facts(b, c);
        lemma_ieee_key_facts(c, a);
    }
    let lo = float_min(float_min(a, b), c);
    let hi = float_max(float_max(a, b), c);
    (lo, hi)
}

/// Taking in one more triangle keeps a running minimum exact.
pub proof fn lemma_min_step(v: u32, r: u32, ts: Seq<Triangle>, s: int, i: int, axis: int)
    requires
        is_range_min(v, ts, s, i, axis),
        s <= i,
        is_nan(r) ==> tri_min_key(ts[i], axis) == KEY_POS_INF,
        !is_nan(r) ==> ieee_key(r) == tri_min_key(ts[i], axis) && is_vertex_coord(r, ts[i], axis),
    ensures
        is_range_min(min_bits(v, r), ts, s, i + 1, axis),
{
    let w = min_bits(v, r);
    lemma_ieee_key_facts(r, v);
    assert forall|k: int| s <= k < i + 1 implies ieee_key(w) <= #[trigger] tri_min_key(ts[k], axis) by {
        if k < i {
        }
    }
    if w != POS_INF_BITS && w == v {
        let k = choose|k: int| s <= k < i && #[trigger] is_vertex_coord(v, ts[k], axis);
        assert(is_vertex_coord(w, ts[k], axis));
    }
}

/// Taking in one more triangle keeps a running maximum exact.
pub proof fn lemma_max_step(v: u32, r: u32, ts: Seq<Triangle>, s: int, i: int, axis: int)
    requires
        is_range_max(v, ts, s, i, axis),
        s <= i,
        is_nan(r) ==> tri_max_key(ts[i], axis) == KEY_NEG_INF,
        !is_nan(r) ==> ieee_key(r) == tri_max_key(ts[i], axis) && is_vertex_coord(r, ts[i], axis),
    ensures
        is_range_max(max_bits(v, r), ts, s, i + 1, axis),
{
    let w = max_bits(v, r);
    lemma_ieee_key_facts(r, v);
    assert forall|k: int| s <= k < i + 1 implies ieee_key(w) >= #[trigger] tri_max_key(ts[k], axis) by {
        if k < i {
        }
    }
    if w != NEG_INF_BITS && w == v {
        let k = choose|k: int| s <= k < i && #[trigger] is_vertex_coord(v, ts[k], axis);
        assert(is_vertex_coord(w, ts[k], axis));
    }
}

} // verus!
