//! Four-neighbour connectivity of the foreground cells of a mask.
use vstd::prelude::*;
use crate::grid::MaskView;

verus! {

/// Cell `p` exists and is non-zero.
pub open spec fn is_foreground(m: MaskView, p: int) -> bool {
    0 <= p < m.cells.len() && m.cells[p] != 0
}

/// Column of the cell at row-major index `p`.
pub open spec fn col(m: MaskView, p: int) -> int {
    p % (m.width as int)
}

/// Row of the cell at row-major index `p`.
pub open spec fn row(m: MaskView, p: int) -> int {
    p / (m.width as int)
}

/// `p` and `q` are foreground cells that touch along an edge: one directly
/// above the other, or side by side within the same row.
pub open spec fn neighbours(m: MaskView, p: int, q: int) -> bool {
    &&& is_foreground(m, p)
    &&& is_foreground(m, q)
    &&& m.width > 0
    &&& {
        ||| q == p + m.width
        ||| p == q + m.width
        ||| (q == p + 1 && q % (m.width as int) != 0)
        ||| (p == q + 1 && p % (m.width as int) != 0)
    }
}

/// Step `i` of `s` goes between neighbours.
pub open spec fn step_ok(m: MaskView, s: Seq<int>, i: int) -> bool {
    neighbours(m, s[i], s[i + 1])
}

/// `s` is a non-empty walk through foreground cells, each step between neighbours.
pub open spec fn is_path(m: MaskView, s: Seq<int>) -> bool {
    &&& s.len() > 0
    &&& forall|i: int| 0 <= i < s.len() ==> is_foreground(m, #[trigger] s[i])
    &&& forall|i: int| 0 <= i < s.len() - 1 ==> #[trigger] step_ok(m, s, i)
}

/// Foreground cells `p` and `q` lie in the same four-connected component.
pub open spec fn connected(m: MaskView, p: int, q: int) -> bool {
    exists|s: Seq<int>| #[trigger] is_path(m, s) && s[0] == p && s.last() == q
}

/// Number of indices `i` in `0..k` with `f(i)`.
pub open spec fn count_where(k: nat, f: spec_fn(int) -> bool) -> nat
    decreases k,
{
    if k == 0 {
        0
    } else {
        count_where((k - 1) as nat, f) + if f(k - 1) { 1nat } else { 0nat }
    }
}

/// Number of cells in the component of `p`.
pub open spec fn component_area(m: MaskView, p: int) -> nat {
    count_where(m.cells.len(), |q: int| connected(m, p, q))
}

/// `(x1, y1, x2, y2, area)` is the bounding box (inclusive corners) and cell
/// count of the component of `p`.
pub open spec fn is_component_box(m: MaskView, p: int, x1: int, y1: int, x2: int, y2: int, area: int) -> bool {
    &&& forall|q: int| #[trigger] connected(m, p, q) ==>
        x1 <= col(m, q) <= x2 && y1 <= row(m, q) <= y2
    &&& exists|q: int| #[trigger] connected(m, p, q) && col(m, q) == x1
    &&& exists|q: int| #[trigger] connected(m, p, q) && col(m, q) == x2
    &&& exists|q: int| #[trigger] connected(m, p, q) && row(m, q) == y1
    &&& exists|q: int| #[trigger] connected(m, p, q) && row(m, q) == y2
    &&& area == component_area(m, p)
}

pub proof fn lemma_count_where_le(k: nat, f: spec_fn(int) -> bool)
    ensures
        count_where(k, f) <= k,
    decreases k,
{
    if k > 0 {
        lemma_count_where_le((k - 1) as nat, f);
    }
}

/// Counting two predicates that agree on `0..k` gives the same number.
pub proof fn lemma_count_where_ext(k: nat, f: spec_fn(int) -> bool, g: spec_fn(int) -> bool)
    requires
        forall|i: int| 0 <= i < k ==> #[trigger] f(i) == g(i),
    ensures
        count_where(k, f) == count_where(k, g),
    decreases k,
{
    if k > 0 {
        lemma_count_where_ext((k - 1) as nat, f, g);
    }
}

pub proof fn lemma_connected_refl(m: MaskView, p: int)
    requires
        is_foreground(m, p),
    ensures
        connected(m, p, p),
{
    let s = seq![p];
    assert(is_path(m, s));
}

pub proof fn lemma_connected_edge(m: MaskView, p: int, q: int)
    requires
        neighbours(m, p, q),
    ensures
        connected(m, p, q),
{
    let s = seq![p, q];
    assert(step_ok(m, s, 0));
    assert(is_path(m, s));
}

pub proof fn lemma_connected_foreground(m: MaskView, p: int, q: int)
    requires
        connected(m, p, q),
    ensures
        is_foreground(m, p),
        is_foreground(m, q),
{
    let s = choose|s: Seq<int>| #[trigger] is_path(m, s) && s[0] == p && s.last() == q;
    assert(is_foreground(m, s[0]));
    assert(is_foreground(m, s[s.len() - 1]));
}

pub proof fn lemma_connected_sym(m: MaskView, p: int, q: int)
    requires
        connected(m, p, q),
    ensures
        connected(m, q, p),
{
    let s = choose|s: Seq<int>| #[trigger] is_path(m, s) && s[0] == p && s.last() == q;
    let r = s.reverse();
    assert forall|i: int| 0 <= i < r.len() implies is_foreground(m, #[trigger] r[i]) by {
        assert(r[i] == s[s.len() - 1 - i]);
        assert(is_foreground(m, s[s.len() - 1 - i]));
    }
    assert forall|i: int| 0 <= i < r.len() - 1 implies #[trigger] step_ok(m, r, i) by {
        let j = s.len() - 2 - i;
        assert(step_ok(m, s, j));
        assert(r[i] == s[j + 1]);
        assert(r[i + 1] == s[j]);
    }
    assert(is_path(m, r));
    assert(r[0] == q);
    assert(r.last() == p);
}

pub proof fn lemma_connected_trans(m: MaskView, p: int, q: int, r: int)
    requires
        connected(m, p, q),
        connected(m, q, r),
    ensures
        connected(m, p, r),
{
    let s1 = choose|s: Seq<int>| #[trigger] is_path(m, s) && s[0] == p && s.last() == q;
    let s2 = choose|s: Seq<int>| #[trigger] is_path(m, s) && s[0] == q && s.last() == r;
    let t = s1 + s2.drop_first();
    assert forall|i: int| 0 <= i < t.len() implies is_foreground(m, #[trigger] t[i]) by {
        if i < s1.len() {
            assert(t[i] == s1[i]);
            assert(is_foreground(m, s1[i]));
        } else {
            assert(t[i] == s2[i - s1.len() + 1]);
            assert(is_foreground(m, s2[i - s1.len() + 1]));
        }
    }
    assert forall|i: int| 0 <= i < t.len() - 1 implies #[trigger] step_ok(m, t, i) by {
        if i < s1.len() - 1 {
            assert(step_ok(m, s1, i));
            assert(t[i] == s1[i] && t[i + 1] == s1[i + 1]);
        } else {
            let j = i - s1.len() + 1;
            assert(step_ok(m, s2, j));
            if i == s1.len() - 1 {
                assert(t[i] == s1.last());
                assert(t[i] == s2[0]);
            } else {
                assert(t[i] == s2[j]);
            }
            assert(t[i + 1] == s2[j + 1]);
        }
    }
    assert(is_path(m, t));
    if s2.len() == 1 {
        assert(t.last() == s1.last());
    } else {
        assert(t.last() == s2.last());
    }
}

proof fn lemma_path_prefix_same_label(m: MaskView, label: Seq<int>, s: Seq<int>, k: int)
    requires
        is_path(m, s),
        0 <= k < s.len(),
        forall|a: int, b: int| #[trigger] neighbours(m, a, b) ==> label[a] == label[b],
    ensures
        label[s[0]] == label[s[k]],
    decreases k,
{
    if k > 0 {
        lemma_path_prefix_same_label(m, label, s, k - 1);
        assert(step_ok(m, s, k - 1));
    }
}

/// A labelling that gives neighbours equal labels gives every connected pair equal labels.
pub proof fn lemma_connected_same_label(m: MaskView, label: Seq<int>, p: int, q: int)
    requires
        forall|a: int, b: int| #[trigger] neighbours(m, a, b) ==> label[a] == label[b],
        connected(m, p, q),
    ensures
        label[p] == label[q],
{
    let s = choose|s: Seq<int>| #[trigger] is_path(m, s) && s[0] == p && s.last() == q;
    lemma_path_prefix_same_label(m, label, s, s.len() - 1);
}

} // verus!
