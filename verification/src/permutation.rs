//! Rearrangements of an index array that only move entries around inside a
//! given range.

use vstd::prelude::*;
use crate::geometry::{Triangle, arrange, same_geometry_in, has_twin, lemma_twin_intro};

verus! {

/// `x` is one of the entries `sq[s..e]`.
pub closed spec fn appears_in(x: usize, sq: Seq<usize>, s: int, e: int) -> bool {
    exists|j: int| s <= j < e && sq[j] == x
}

pub proof fn lemma_appears_intro(x: usize, sq: Seq<usize>, s: int, e: int, j: int)
    requires
        s <= j < e,
        sq[j] == x,
    ensures
        appears_in(x, sq, s, e),
{
}

pub proof fn lemma_appears_elim(x: usize, sq: Seq<usize>, s: int, e: int) -> (j: int)
    requires
        appears_in(x, sq, s, e),
    ensures
        s <= j < e,
        sq[j] == x,
{
    choose|j: int| s <= j < e && sq[j] == x
}

/// `new` is `old` with the entries of `old[s..e]` moved around inside
/// `s..e`: everything outside the range is untouched, and every entry of the
/// range on either side is found on the other side of it.
pub open spec fn permutes_range(new: Seq<usize>, old: Seq<usize>, s: int, e: int) -> bool {
    &&& new.len() == old.len()
    &&& 0 <= s <= e <= old.len()
    &&& forall|k: int| 0 <= k < new.len() && !(s <= k < e) ==> #[trigger] new[k] == old[k]
    &&& forall|k: int| s <= k < e ==> appears_in(#[trigger] new[k], old, s, e)
    &&& forall|j: int| s <= j < e ==> appears_in(#[trigger] old[j], new, s, e)
}

pub proof fn lemma_permutes_refl(a: Seq<usize>, s: int, e: int)
    requires
        0 <= s <= e <= a.len(),
    ensures
        permutes_range(a, a, s, e),
{
    assert forall|k: int| s <= k < e implies appears_in(#[trigger] a[k], a, s, e) by {
        lemma_appears_intro(a[k], a, s, e, k);
    }
}

pub proof fn lemma_permutes_trans(a: Seq<usize>, b: Seq<usize>, c: Seq<usize>, s: int, e: int)
    requires
        permutes_range(b, a, s, e),
        permutes_range(c, b, s, e),
    ensures
        permutes_range(c, a, s, e),
{
    assert forall|k: int| s <= k < e implies appears_in(#[trigger] c[k], a, s, e) by {
        let m = lemma_appears_elim(c[k], b, s, e);
        assert(appears_in(b[m], a, s, e));
    }
    assert forall|j: int| s <= j < e implies appears_in(#[trigger] a[j], c, s, e) by {
        let m = lemma_appears_elim(a[j], b, s, e);
        assert(appears_in(b[m], c, s, e));
    }
}

/// A rearrangement inside `s2..e2` is one inside any range around it.
pub proof fn lemma_permutes_widen(b: Seq<usize>, a: Seq<usize>, s: int, e: int, s2: int, e2: int)
    requires
        permutes_range(b, a, s2, e2),
        0 <= s <= s2,
        e2 <= e,
        e <= a.len(),
    ensures
        permutes_range(b, a, s, e),
{
    assert forall|k: int| s <= k < e implies appears_in(#[trigger] b[k], a, s, e) by {
        if s2 <= k < e2 {
            let j = lemma_appears_elim(b[k], a, s2, e2);
            lemma_appears_intro(b[k], a, s, e, j);
        } else {
            lemma_appears_intro(b[k], a, s, e, k);
        }
    }
    assert forall|j: int| s <= j < e implies appears_in(#[trigger] a[j], b, s, e) by {
        if s2 <= j < e2 {
            let k = lemma_appears_elim(a[j], b, s2, e2);
            lemma_appears_intro(a[j], b, s, e, k);
        } else {
            lemma_appears_intro(a[j], b, s, e, j);
        }
    }
}

/// Exchanging two entries inside the range is a rearrangement of it, and it
/// keeps the entries distinct if they were.
pub proof fn lemma_swap_permutes(a: Seq<usize>, i: int, j: int, s: int, e: int)
    requires
        0 <= s,
        s <= i < e,
        s <= j < e,
        e <= a.len(),
    ensures
        permutes_range(a.update(i, a[j]).update(j, a[i]), a, s, e),
        a.no_duplicates() ==> a.update(i, a[j]).update(j, a[i]).no_duplicates(),
{
    let b = a.update(i, a[j]).update(j, a[i]);
    assert forall|k: int| s <= k < e implies appears_in(#[trigger] b[k], a, s, e) by {
        let p = if k == j { i } else if k == i { j } else { k };
        assert(b[k] == a[p]);
        lemma_appears_intro(b[k], a, s, e, p);
    }
    assert forall|m: int| s <= m < e implies appears_in(#[trigger] a[m], b, s, e) by {
        let p = if m == j { if i == j { j } else { i } } else if m == i { j } else { m };
        assert(b[p] == a[m]);
        lemma_appears_intro(a[m], b, s, e, p);
    }
    if a.no_duplicates() {
        assert forall|x: int, y: int| 0 <= x < b.len() && 0 <= y < b.len() && x != y implies b[x] != b[y] by {
            let px = if x == j { i } else if x == i { j } else { x };
            let py = if y == j { i } else if y == i { j } else { y };
            assert(b[x] == a[px]);
            assert(b[y] == a[py]);
        }
    }
}

/// Rearranging the indices inside a range rearranges the picked triangles
/// inside it.
pub proof fn lemma_permutes_same_geometry(tris: Seq<Triangle>, new: Seq<usize>, old: Seq<usize>, s: int, e: int)
    requires
        permutes_range(new, old, s, e),
    ensures
        same_geometry_in(arrange(tris, new), arrange(tris, old), s, e),
{
    let t1 = arrange(tris, new);
    let t2 = arrange(tris, old);
    assert forall|k: int| s <= k < e implies has_twin(#[trigger] t1[k], t2, s, e) by {
        let j = lemma_appears_elim(new[k], old, s, e);
        lemma_twin_intro(t1[k], t2, s, e, j);
    }
    assert forall|j: int| s <= j < e implies has_twin(#[trigger] t2[j], t1, s, e) by {
        let k = lemma_appears_elim(old[j], new, s, e);
        lemma_twin_intro(t2[j], t1, s, e, k);
    }
}

/// A rearrangement keeps every entry of the range below any bound that held
/// for the range before.
pub proof fn lemma_permutes_bound(new: Seq<usize>, old: Seq<usize>, s: int, e: int, bound: int)
    requires
        permutes_range(new, old, s, e),
        forall|k: int| s <= k < e ==> #[trigger] old[k] < bound,
    ensures
        forall|k: int| s <= k < e ==> #[trigger] new[k] < bound,
{
    assert forall|k: int| s <= k < e implies #[trigger] new[k] < bound by {
        let nk = new[k];
        let j = lemma_appears_elim(nk, old, s, e);
        assert(old[j] < bound);
    }
}

} // verus!
