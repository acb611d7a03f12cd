//! Bounding boxes of the four-connected components of a binary mask.
use vstd::prelude::*;
use crate::grid::{Mask, MaskView};
use crate::connectivity::{
    col, component_area, connected, count_where, is_component_box, is_foreground, lemma_connected_edge,
    lemma_connected_foreground, lemma_connected_refl, lemma_connected_same_label, lemma_connected_sym,
    lemma_connected_trans, lemma_count_where_ext, neighbours, row,
};
use crate::union_find::{redirect, UnionFind};

verus! {

/// `out` lists, one entry per component of at least `min_area` cells, the
/// component's `[x1, y1, x2, y2, area]`; `reps[k]` is a cell of the component
/// behind `out[k]`.
pub open spec fn boxes_witnessed(m: MaskView, min_area: nat, out: Seq<[i32; 5]>, reps: Seq<int>) -> bool {
    &&& reps.len() == out.len()
    &&& forall|k: int|
        0 <= k < out.len() ==> {
            &&& is_foreground(m, #[trigger] reps[k])
            &&& is_component_box(
                m,
                reps[k],
                out[k][0] as int,
                out[k][1] as int,
                out[k][2] as int,
                out[k][3] as int,
                out[k][4] as int,
            )
            &&& out[k][4] >= min_area
        }
    &&& forall|k: int, l: int|
        0 <= k < l < out.len() ==> !connected(m, #[trigger] reps[k], #[trigger] reps[l])
    &&& forall|p: int|
        is_foreground(m, p) && component_area(m, p) >= min_area ==> exists|k: int|
            0 <= k < out.len() && #[trigger] connected(m, p, reps[k])
}

/// The boxes of exactly the components with at least `min_area` cells.
pub open spec fn component_boxes(m: MaskView, min_area: nat, out: Seq<[i32; 5]>) -> bool {
    exists|reps: Seq<int>| boxes_witnessed(m, min_area, out, reps)
}

spec fn in_class(m: MaskView, cls: Seq<int>, r: int, p: int) -> bool {
    is_foreground(m, p) && cls[p] == r
}

/// Running box over the cells `0..k` of class `r`: `(x1, y1, x2, y2, count)`.
spec fn acc_box(m: MaskView, cls: Seq<int>, r: int, k: nat) -> Option<(int, int, int, int, int)>
    decreases k,
{
    if k == 0 {
        None
    } else {
        let prev = acc_box(m, cls, r, (k - 1) as nat);
        let p = k - 1;
        if in_class(m, cls, r, p) {
            let x = col(m, p);
            let y = row(m, p);
            match prev {
                None => Some((x, y, x, y, 1)),
                Some(b) => Some(
                    (
                        if x < b.0 { x } else { b.0 },
                        if y < b.1 { y } else { b.1 },
                        if x > b.2 { x } else { b.2 },
                        if y > b.3 { y } else { b.3 },
                        b.4 + 1,
                    ),
                ),
            }
        } else {
            prev
        }
    }
}

spec fn entry_matches(e: Option<(i32, i32, i32, i32, usize)>, a: Option<(int, int, int, int, int)>) -> bool {
    match e {
        None => a is None,
        Some(e) => a matches Some(a) && e.0 == a.0 && e.1 == a.1 && e.2 == a.2 && e.3 == a.3 && e.4 == a.4,
    }
}

proof fn lemma_acc_box(m: MaskView, cls: Seq<int>, r: int, k: nat)
    requires
        m.width > 0,
    ensures
        acc_box(m, cls, r, k) is None <==> forall|p: int| 0 <= p < k ==> !#[trigger] in_class(m, cls, r, p),
        acc_box(m, cls, r, k) matches Some(b) ==> {
            &&& forall|p: int|
                0 <= p < k && #[trigger] in_class(m, cls, r, p) ==> b.0 <= col(m, p) <= b.2 && b.1 <= row(
                    m,
                    p,
                ) <= b.3
            &&& exists|p: int| 0 <= p < k && #[trigger] in_class(m, cls, r, p) && col(m, p) == b.0
            &&& exists|p: int| 0 <= p < k && #[trigger] in_class(m, cls, r, p) && col(m, p) == b.2
            &&& exists|p: int| 0 <= p < k && #[trigger] in_class(m, cls, r, p) && row(m, p) == b.1
            &&& exists|p: int| 0 <= p < k && #[trigger] in_class(m, cls, r, p) && row(m, p) == b.3
            &&& b.4 == count_where(k, |q: int| in_class(m, cls, r, q))
            &&& 0 < b.4 <= k
        },
    decreases k,
{
    if k > 0 {
        lemma_acc_box(m, cls, r, (k - 1) as nat);
        let p = k - 1;
        if in_class(m, cls, r, p) {
            if acc_box(m, cls, r, (k - 1) as nat) is None {
                assert(count_where((k - 1) as nat, |q: int| in_class(m, cls, r, q)) == 0) by {
                    lemma_count_none(m, cls, r, (k - 1) as nat);
                }
            }
        }
    }
}

proof fn lemma_count_none(m: MaskView, cls: Seq<int>, r: int, k: nat)
    requires
        forall|p: int| 0 <= p < k ==> !#[trigger] in_class(m, cls, r, p),
    ensures
        count_where(k, |q: int| in_class(m, cls, r, q)) == 0,
    decreases k,
{
    if k > 0 {
        lemma_count_none(m, cls, r, (k - 1) as nat);
    }
}

spec fn labels_ok(m: MaskView, labels: Seq<i32>, lab_pix: Seq<int>, idx: int) -> bool {
    &&& labels.len() == m.cells.len()
    &&& forall|p: int|
        0 <= p < labels.len() ==> (#[trigger] labels[p] == -1 <==> !(p < idx && is_foreground(m, p)))
    &&& forall|p: int|
        0 <= p < idx && is_foreground(m, p) ==> 0 <= #[trigger] labels[p] < lab_pix.len()
            && lab_pix[labels[p] as int] == p
    &&& forall|l: int|
        0 <= l < lab_pix.len() ==> 0 <= #[trigger] lab_pix[l] < idx && is_foreground(m, lab_pix[l])
            && labels[lab_pix[l]] == l
}

spec fn fresh_tail(rep: Seq<int>, next: int) -> bool {
    forall|e: int|
        0 <= e < rep.len() ==> (e >= next ==> #[trigger] rep[e] == e) && (e < next ==> 0 <= rep[e] < next)
}

spec fn classes_connected(m: MaskView, rep: Seq<int>, lab_pix: Seq<int>) -> bool {
    forall|a: int, b: int|
        #![trigger rep[a], rep[b]]
        0 <= a < lab_pix.len() && 0 <= b < lab_pix.len() && rep[a] == rep[b] ==> connected(
            m,
            lab_pix[a],
            lab_pix[b],
        )
}

spec fn edges_merged(m: MaskView, rep: Seq<int>, labels: Seq<i32>, idx: int) -> bool {
    forall|p: int, q: int|
        0 <= p < idx && 0 <= q < idx && #[trigger] neighbours(m, p, q) ==> rep[labels[p] as int]
            == rep[labels[q] as int]
}

proof fn lemma_merge_keeps_classes_connected(
    m: MaskView,
    rep: Seq<int>,
    rep2: Seq<int>,
    lab_pix: Seq<int>,
    x: int,
    y: int,
)
    requires
        classes_connected(m, rep, lab_pix),
        0 <= x < lab_pix.len(),
        0 <= y < lab_pix.len(),
        lab_pix.len() <= rep.len(),
        connected(m, lab_pix[x], lab_pix[y]),
        rep2 == redirect(rep, rep[y], rep[x]) || rep2 == redirect(rep, rep[x], rep[y]),
    ensures
        classes_connected(m, rep2, lab_pix),
{
    assert forall|a: int, b: int|
        #![trigger rep2[a], rep2[b]]
        0 <= a < lab_pix.len() && 0 <= b < lab_pix.len() && rep2[a] == rep2[b] implies connected(
            m,
            lab_pix[a],
            lab_pix[b],
        ) by {
        if rep[a] == rep[b] {
        } else if rep[a] == rep[x] && rep[b] == rep[y] {
            assert(connected(m, lab_pix[a], lab_pix[x]));
            assert(connected(m, lab_pix[y], lab_pix[b]));
            lemma_connected_trans(m, lab_pix[a], lab_pix[x], lab_pix[y]);
            lemma_connected_trans(m, lab_pix[a], lab_pix[y], lab_pix[b]);
        } else {
            assert(rep[a] == rep[y] && rep[b] == rep[x]);
            assert(connected(m, lab_pix[a], lab_pix[y]));
            assert(connected(m, lab_pix[x], lab_pix[b]));
            lemma_connected_sym(m, lab_pix[x], lab_pix[y]);
            lemma_connected_trans(m, lab_pix[a], lab_pix[y], lab_pix[x]);
            lemma_connected_trans(m, lab_pix[a], lab_pix[x], lab_pix[b]);
        }
    }
}

/// Facts about the class labelling `cls` after the first pass.
spec fn classes_exact(m: MaskView, cls: Seq<int>, lab_pix: Seq<int>) -> bool {
    &&& cls.len() == m.cells.len()
    &&& forall|p: int, q: int| #[trigger] connected(m, p, q) ==> cls[p] == cls[q]
    &&& forall|p: int, q: int|
        #![trigger cls[p], cls[q]]
        is_foreground(m, p) && is_foreground(m, q) && cls[p] == cls[q] ==> connected(m, p, q)
    &&& forall|p: int|
        is_foreground(m, p) ==> 0 <= #[trigger] cls[p] < lab_pix.len() && is_foreground(
            m,
            lab_pix[cls[p]],
        ) && cls[lab_pix[cls[p]]] == cls[p]
}

proof fn lemma_classes_exact(
    m: MaskView,
    rep: Seq<int>,
    labels: Seq<i32>,
    lab_pix: Seq<int>,
    cls: Seq<int>,
)
    requires
        labels_ok(m, labels, lab_pix, m.cells.len() as int),
        rep.len() == m.cells.len(),
        lab_pix.len() <= rep.len(),
        fresh_tail(rep, lab_pix.len() as int),
        forall|e: int| 0 <= e < rep.len() ==> #[trigger] rep[rep[e]] == rep[e],
        classes_connected(m, rep, lab_pix),
        edges_merged(m, rep, labels, m.cells.len() as int),
        cls == Seq::new(
            m.cells.len(),
            |p: int|
                if is_foreground(m, p) {
                    rep[labels[p] as int]
                } else {
                    -1
                },
        ),
    ensures
        classes_exact(m, cls, lab_pix),
{
    let n = m.cells.len() as int;
    assert forall|a: int, b: int| #[trigger] neighbours(m, a, b) implies cls[a] == cls[b] by {
        assert(0 <= a < n && 0 <= b < n);
    }
    assert forall|p: int, q: int| #[trigger] connected(m, p, q) implies cls[p] == cls[q] by {
        lemma_connected_same_label(m, cls, p, q);
    }
    assert forall|p: int, q: int|
        #![trigger cls[p], cls[q]]
        is_foreground(m, p) && is_foreground(m, q) && cls[p] == cls[q] implies connected(m, p, q) by {
        let a = labels[p] as int;
        let b = labels[q] as int;
        assert(lab_pix[a] == p);
        assert(lab_pix[b] == q);
        assert(rep[a] == rep[b]);
    }
    assert forall|p: int| is_foreground(m, p) implies 0 <= #[trigger] cls[p] < lab_pix.len() && is_foreground(
        m,
        lab_pix[cls[p]],
    ) && cls[lab_pix[cls[p]]] == cls[p] by {
        let a = labels[p] as int;
        assert(0 <= a < lab_pix.len());
        let r = rep[a];
        assert(0 <= r < lab_pix.len());
        assert(rep[r] == r);
        let rp = lab_pix[r];
        assert(is_foreground(m, rp));
        assert(labels[rp] as int == r);
    }
}

/// The box grown for class `r` is the box of the component of `lab_pix[r]`.
proof fn lemma_root_box(m: MaskView, cls: Seq<int>, lab_pix: Seq<int>, r: int)
    requires
        classes_exact(m, cls, lab_pix),
        m.width > 0,
        acc_box(m, cls, r, m.cells.len()) is Some,
    ensures
        ({
            let b = acc_box(m, cls, r, m.cells.len())->0;
            let rp = lab_pix[r];
            &&& is_foreground(m, rp)
            &&& cls[rp] == r
            &&& forall|q: int| in_class(m, cls, r, q) <==> #[trigger] connected(m, rp, q)
            &&& is_component_box(m, rp, b.0, b.1, b.2, b.3, b.4)
        }),
{
    let n = m.cells.len();
    let b = acc_box(m, cls, r, n)->0;
    lemma_acc_box(m, cls, r, n);
    let p0 = choose|p: int| 0 <= p < n && #[trigger] in_class(m, cls, r, p) && col(m, p) == b.0;
    assert(in_class(m, cls, r, p0));
    assert(cls[p0] == r);
    let rp = lab_pix[r];
    assert(is_foreground(m, rp) && cls[rp] == r);
    assert forall|q: int| in_class(m, cls, r, q) <==> #[trigger] connected(m, rp, q) by {
        if connected(m, rp, q) {
            lemma_connected_foreground(m, rp, q);
        }
        if in_class(m, cls, r, q) {
            assert(cls[rp] == cls[q]);
        }
    }
    assert forall|q: int| #[trigger] connected(m, rp, q) implies b.0 <= col(m, q) <= b.2 && b.1 <= row(m, q) <= b.3 by {
        assert(in_class(m, cls, r, q));
    }
    let q1 = choose|p: int| 0 <= p < n && #[trigger] in_class(m, cls, r, p) && col(m, p) == b.0;
    let q2 = choose|p: int| 0 <= p < n && #[trigger] in_class(m, cls, r, p) && col(m, p) == b.2;
    let q3 = choose|p: int| 0 <= p < n && #[trigger] in_class(m, cls, r, p) && row(m, p) == b.1;
    let q4 = choose|p: int| 0 <= p < n && #[trigger] in_class(m, cls, r, p) && row(m, p) == b.3;
    assert(connected(m, rp, q1) && connected(m, rp, q2) && connected(m, rp, q3) && connected(m, rp, q4));
    lemma_count_where_ext(n, |q: int| in_class(m, cls, r, q), |q: int| connected(m, rp, q));
}

spec fn kept(e: Option<(i32, i32, i32, i32, usize)>, min_area: nat) -> bool {
    e matches Some(e) && e.4 >= min_area
}

spec fn output_entry(entries: Seq<Option<(i32, i32, i32, i32, usize)>>, o: [i32; 5], root: int) -> bool {
    &&& 0 <= root < entries.len()
    &&& entries[root] matches Some(e) && o[0] == e.0 && o[1] == e.1 && o[2] == e.2 && o[3] == e.3 && o[4] as int
        == e.4 as int
}

proof fn lemma_output(
    m: MaskView,
    cls: Seq<int>,
    lab_pix: Seq<int>,
    entries: Seq<Option<(i32, i32, i32, i32, usize)>>,
    min_area: nat,
    out: Seq<[i32; 5]>,
    reps: Seq<int>,
    roots: Seq<int>,
)
    requires
        classes_exact(m, cls, lab_pix),
        m.width > 0,
        entries.len() == lab_pix.len(),
        forall|r: int| 0 <= r < entries.len() ==> entry_matches(#[trigger] entries[r], acc_box(m, cls, r, m.cells.len())),
        out.len() == reps.len() == roots.len(),
        forall|k: int|
            0 <= k < out.len() ==> output_entry(entries, #[trigger] out[k], roots[k]) && kept(entries[roots[k]], min_area)
                && reps[k] == lab_pix[roots[k]],
        forall|k: int, l: int| 0 <= k < l < out.len() ==> #[trigger] roots[k] < #[trigger] roots[l],
        forall|r: int|
            0 <= r < entries.len() && kept(#[trigger] entries[r], min_area) ==> exists|k: int|
                0 <= k < roots.len() && roots[k] == r,
    ensures
        boxes_witnessed(m, min_area, out, reps),
{
    let n = m.cells.len();
    assert forall|k: int| 0 <= k < out.len() implies {
        &&& is_foreground(m, #[trigger] reps[k])
        &&& is_component_box(
            m,
            reps[k],
            out[k][0] as int,
            out[k][1] as int,
            out[k][2] as int,
            out[k][3] as int,
            out[k][4] as int,
        )
        &&& out[k][4] >= min_area
    } by {
        assert(output_entry(entries, out[k], roots[k]));
        assert(entry_matches(entries[roots[k]], acc_box(m, cls, roots[k], n)));
        lemma_root_box(m, cls, lab_pix, roots[k]);
    }
    assert forall|k: int, l: int| 0 <= k < l < out.len() implies !connected(m, #[trigger] reps[k], #[trigger] reps[l]) by {
        assert(output_entry(entries, out[k], roots[k]));
        assert(output_entry(entries, out[l], roots[l]));
        assert(entry_matches(entries[roots[k]], acc_box(m, cls, roots[k], n)));
        assert(entry_matches(entries[roots[l]], acc_box(m, cls, roots[l], n)));
        lemma_root_box(m, cls, lab_pix, roots[k]);
        lemma_root_box(m, cls, lab_pix, roots[l]);
        assert(roots[k] < roots[l]);
    }
    assert forall|p: int| is_foreground(m, p) && component_area(m, p) >= min_area implies exists|k: int|
        0 <= k < out.len() && #[trigger] connected(m, p, reps[k]) by {
        let r = cls[p];
        assert(0 <= r < lab_pix.len());
        lemma_acc_box(m, cls, r, n);
        assert(in_class(m, cls, r, p));
        assert(entry_matches(entries[r], acc_box(m, cls, r, n)));
        lemma_root_box(m, cls, lab_pix, r);
        let rp = lab_pix[r];
        assert(connected(m, rp, p));
        lemma_connected_sym(m, rp, p);
        assert forall|q: int| 0 <= q < n implies #[trigger] connected(m, p, q) == connected(m, rp, q) by {
            if connected(m, p, q) {
                lemma_connected_trans(m, rp, p, q);
            }
            if connected(m, rp, q) {
                lemma_connected_trans(m, p, rp, q);
            }
        }
        lemma_count_where_ext(n, |q: int| connected(m, p, q), |q: int| connected(m, rp, q));
        assert(kept(entries[r], min_area));
        let k = choose|k: int| 0 <= k < roots.len() && roots[k] == r;
        assert(reps[k] == rp);
        assert(connected(m, p, reps[k]));
    }
}

spec fn keeps_equalities(rep1: Seq<int>, rep2: Seq<int>) -> bool {
    forall|a: int, b: int|
        #![trigger rep2[a], rep2[b]]
        0 <= a < rep1.len() && 0 <= b < rep1.len() && rep1[a] == rep1[b] ==> rep2[a] == rep2[b]
}

/// Merges the classes of labels `x` and `y`, whose cells are connected.
fn link(uf: &mut UnionFind, x: i32, y: i32, Ghost(m): Ghost<MaskView>, Ghost(lab_pix): Ghost<Seq<int>>)
    requires
        old(uf).inv(),
        0 <= x < lab_pix.len(),
        0 <= y < lab_pix.len(),
        lab_pix.len() <= old(uf).size(),
        fresh_tail(old(uf).rep@, lab_pix.len() as int),
        classes_connected(m, old(uf).rep@, lab_pix),
        connected(m, lab_pix[x as int], lab_pix[y as int]),
    ensures
        final(uf).inv(),
        final(uf).size() == old(uf).size(),
        fresh_tail(final(uf).rep@, lab_pix.len() as int),
        classes_connected(m, final(uf).rep@, lab_pix),
        keeps_equalities(old(uf).rep@, final(uf).rep@),
        final(uf).rep@[x as int] == final(uf).rep@[y as int],
{
    let ghost rep1 = uf.rep@;
    uf.union(x, y);
    proof {
        let rep2 = uf.rep@;
        lemma_merge_keeps_classes_connected(m, rep1, rep2, lab_pix, x as int, y as int);
        assert(rep1[x as int] < lab_pix.len() && rep1[y as int] < lab_pix.len());
    }
}

/// Finds the four-connected components of the non-zero cells of `mask` and
/// returns, for each component of at least `min_area` cells, its inclusive
/// bounding box and cell count as `[x1, y1, x2, y2, area]`.
pub fn find_bounding_boxes(mask: &Mask, min_area: usize) -> (out: Vec<[i32; 5]>)
    requires
        mask@.cells.len() <= i32::MAX,
    ensures
        component_boxes(mask@, min_area as nat, out@),
{
    proof {
        use_type_invariant(mask);
        mask.lemma_view();
    }
    let ghost m = mask@;
    let n = mask.data.len();
    let w = mask.width;
    let mut uf = UnionFind::new(n);
    let mut labels: Vec<i32> = Vec::new();
    let mut i: usize = 0;
    while i < n
        invariant
            i <= n,
            labels@ == Seq::new(i as nat, |k: int| -1i32),
        decreases n - i,
    {
        labels.push(-1);
        i += 1;
    }
    let mut next_label: i32 = 0;
    let ghost mut lab_pix: Seq<int> = seq![];
    proof {
        assert(fresh_tail(uf.rep@, 0));
        assert(n > 0 ==> w > 0) by (nonlinear_arith)
            requires
                n == m.height * m.width,
                w == m.width,
        ;
    }
    // First pass: label every foreground cell and merge it with its upper and left neighbours.
    let mut idx: usize = 0;
    while idx < n
        invariant
            n == m.cells.len() <= i32::MAX,
            m == mask@,
            mask.data@ == m.cells,
            w == m.width,
            m.cells.len() == m.height * m.width,
            n > 0 ==> w > 0,
            idx <= n,
            uf.inv(),
            uf.size() == n,
            0 <= next_label == lab_pix.len() <= idx,
            labels_ok(m, labels@, lab_pix, idx as int),
            fresh_tail(uf.rep@, next_label as int),
            classes_connected(m, uf.rep@, lab_pix),
            edges_merged(m, uf.rep@, labels@, idx as int),
        decreases n - idx,
    {
        let ghost rep_before = uf.rep@;
        let ghost labels_before = labels@;
        let ghost pix_before = lab_pix;
        if mask.data[idx] != 0 {
            proof {
                assert(labels@[idx as int] == -1);
            }
            if labels[idx] == -1 {
                labels.set(idx, next_label);
                proof {
                    lab_pix = lab_pix.push(idx as int);
                }
                next_label += 1;
            }
            let current = labels[idx];
            proof {
                let lb = labels@;
                assert forall|p: int| 0 <= p < lb.len() implies (#[trigger] lb[p] == -1 <==> !(p < idx + 1
                    && is_foreground(m, p))) by {
                    if p != idx {
                        assert(lb[p] == labels_before[p]);
                    }
                }
                assert forall|p: int| 0 <= p < idx + 1 && is_foreground(m, p) implies 0 <= #[trigger] lb[p]
                    < lab_pix.len() && lab_pix[lb[p] as int] == p by {
                    if p != idx {
                        assert(lb[p] == labels_before[p]);
                        assert(lab_pix[lb[p] as int] == pix_before[lb[p] as int]);
                    }
                }
                assert forall|l: int| 0 <= l < lab_pix.len() implies 0 <= #[trigger] lab_pix[l] < idx + 1
                    && is_foreground(m, lab_pix[l]) && lb[lab_pix[l]] == l by {
                    if l < pix_before.len() {
                        assert(lab_pix[l] == pix_before[l]);
                    }
                }
                assert(labels_ok(m, labels@, lab_pix, idx + 1));
                assert(fresh_tail(uf.rep@, next_label as int));
                assert forall|a: int, b: int|
                    #![trigger uf.rep@[a], uf.rep@[b]]
                    0 <= a < lab_pix.len() && 0 <= b < lab_pix.len() && uf.rep@[a] == uf.rep@[b] implies connected(
                        m,
                        lab_pix[a],
                        lab_pix[b],
                    ) by {
                    if a == current as int || b == current as int {
                        assert(a == b);
                        lemma_connected_refl(m, idx as int);
                    }
                }
                assert(edges_merged(m, uf.rep@, labels@, idx as int));
            }
            if idx >= w && mask.data[idx - w] > 0 {
                let top = idx - w;
                if labels[top] != -1 {
                    let lt = labels[top];
                    proof {
                        assert(neighbours(m, top as int, idx as int));
                        lemma_connected_edge(m, idx as int, top as int);
                    }
                    link(&mut uf, current, lt, Ghost(m), Ghost(lab_pix));
                }
            }
            let ghost rep_mid = uf.rep@;
            proof {
                assert(idx == 0 ==> idx % w == 0) by (nonlinear_arith)
                    requires
                        w > 0,
                ;
            }
            if idx % w != 0 && mask.data[idx - 1] > 0 {
                let left = idx - 1;
                if labels[left] != -1 {
                    let ll = labels[left];
                    proof {
                        assert(neighbours(m, left as int, idx as int));
                        lemma_connected_edge(m, idx as int, left as int);
                    }
                    link(&mut uf, current, ll, Ghost(m), Ghost(lab_pix));
                }
            }
            proof {
                let rep = uf.rep@;
                assert forall|p: int, q: int|
                    0 <= p < idx + 1 && 0 <= q < idx + 1 && #[trigger] neighbours(m, p, q) implies rep[labels@[p] as int]
                    == rep[labels@[q] as int] by {
                    if p < idx && q < idx {
                        assert(rep_before[labels@[p] as int] == rep_before[labels@[q] as int]);
                    }
                }
                assert(fresh_tail(rep, next_label as int));
            }
        } else {
            proof {
                assert(labels_ok(m, labels@, lab_pix, idx + 1));
            }
        }
        idx += 1;
    }
    let ghost rep = uf.rep@;
    let ghost labels_final = labels@;
    let ghost cls = Seq::new(
        n as nat,
        |p: int|
            if is_foreground(m, p) {
                rep[labels_final[p] as int]
            } else {
                -1
            },
    );
    proof {
        assert forall|e: int| 0 <= e < rep.len() implies #[trigger] rep[rep[e]] == rep[e] by {
            assert(uf.parent@[rep[e]] as int == rep[e]);
        }
        lemma_classes_exact(m, rep, labels_final, lab_pix, cls);
    }
    // Second pass: grow one box per class representative.
    let count = next_label as usize;
    let mut entries: Vec<Option<(i32, i32, i32, i32, usize)>> = Vec::new();
    let mut j: usize = 0;
    while j < count
        invariant
            j <= count,
            entries@ == Seq::new(j as nat, |k: int| None::<(i32, i32, i32, i32, usize)>),
        decreases count - j,
    {
        entries.push(None);
        j += 1;
    }
    let mut idx: usize = 0;
    while idx < n
        invariant
            n == m.cells.len() <= i32::MAX,
            w == m.width,
            n > 0 ==> w > 0,
            idx <= n,
            uf.inv(),
            uf.size() == n,
            uf.rep@ == rep,
            labels@ == labels_final,
            count == lab_pix.len(),
            count <= n,
            labels_ok(m, labels_final, lab_pix, n as int),
            fresh_tail(rep, count as int),
            cls == Seq::new(
                n as nat,
                |p: int|
                    if is_foreground(m, p) {
                        rep[labels_final[p] as int]
                    } else {
                        -1
                    },
            ),
            entries@.len() == count,
            forall|r: int| 0 <= r < count ==> entry_matches(#[trigger] entries@[r], acc_box(m, cls, r, idx as nat)),
        decreases n - idx,
    {
        let ghost before = entries@;
        if labels[idx] != -1 {
            proof {
                assert(is_foreground(m, idx as int));
                assert(0 <= labels_final[idx as int] < count);
            }
            let root = uf.find(labels[idx]);
            proof {
                assert(0 <= root < count);
                assert(cls[idx as int] == root as int);
                lemma_acc_box(m, cls, root as int, idx as nat);
                assert(idx % w <= idx) by (nonlinear_arith)
                    requires
                        w > 0,
                ;
                assert(idx / w <= idx) by (nonlinear_arith)
                    requires
                        w > 0,
                ;
            }
            let x = (idx % w) as i32;
            let y = (idx / w) as i32;
            let ru = root as usize;
            let updated = match entries[ru] {
                None => Some((x, y, x, y, 1usize)),
                Some(e) => Some(
                    (
                        if x < e.0 { x } else { e.0 },
                        if y < e.1 { y } else { e.1 },
                        if x > e.2 { x } else { e.2 },
                        if y > e.3 { y } else { e.3 },
                        e.4 + 1,
                    ),
                ),
            };
            entries.set(ru, updated);
            proof {
                assert forall|r: int| 0 <= r < count implies entry_matches(
                    #[trigger] entries@[r],
                    acc_box(m, cls, r, (idx + 1) as nat),
                ) by {
                    if r != root as int {
                        assert(!in_class(m, cls, r, idx as int));
                        assert(entries@[r] == before[r]);
                    }
                }
            }
        } else {
            proof {
                assert forall|r: int| 0 <= r < count implies entry_matches(
                    #[trigger] entries@[r],
                    acc_box(m, cls, r, (idx + 1) as nat),
                ) by {
                    assert(!in_class(m, cls, r, idx as int));
                }
            }
        }
        idx += 1;
    }
    // Report the components that are large enough, one box each.
    let mut out: Vec<[i32; 5]> = Vec::new();
    let ghost mut reps: Seq<int> = seq![];
    let ghost mut roots: Seq<int> = seq![];
    let mut r: usize = 0;
    while r < count
        invariant
            r <= count,
            count == lab_pix.len(),
            entries@.len() == count,
            n == m.cells.len() <= i32::MAX,
            n > 0 ==> w > 0,
            w == m.width,
            forall|r2: int| 0 <= r2 < count ==> entry_matches(#[trigger] entries@[r2], acc_box(m, cls, r2, n as nat)),
            out@.len() == reps.len(),
            reps.len() == roots.len(),
            forall|k: int|
                0 <= k < out@.len() ==> output_entry(entries@, #[trigger] out@[k], roots[k]) && kept(
                    entries@[roots[k]],
                    min_area as nat,
                ) && reps[k] == lab_pix[roots[k]] && roots[k] < r,
            forall|k: int, l: int| 0 <= k < l < out@.len() ==> #[trigger] roots[k] < #[trigger] roots[l],
            forall|r2: int|
                0 <= r2 < r && kept(#[trigger] entries@[r2], min_area as nat) ==> exists|k: int|
                    0 <= k < roots.len() && roots[k] == r2,
        decreases count - r,
    {
        let ghost out0 = out@;
        let ghost reps0 = reps;
        let ghost roots0 = roots;
        proof {
            assert forall|k: int| 0 <= k < out0.len() implies #[trigger] roots0[k] < r by {
                assert(output_entry(entries@, out@[k], roots[k]));
            }
        }
        if let Some(e) = entries[r] {
            if e.4 >= min_area {
                proof {
                    assert(entry_matches(entries@[r as int], acc_box(m, cls, r as int, n as nat)));
                    lemma_acc_box(m, cls, r as int, n as nat);
                }
                let item = [e.0, e.1, e.2, e.3, e.4 as i32];
                proof {
                    assert(output_entry(entries@, item, r as int));
                }
                out.push(item);
                proof {
                    reps = reps.push(lab_pix[r as int]);
                    roots = roots.push(r as int);
                    assert forall|k: int|
                        0 <= k < out@.len() implies output_entry(entries@, #[trigger] out@[k], roots[k]) && kept(
                            entries@[roots[k]],
                            min_area as nat,
                        ) && reps[k] == lab_pix[roots[k]] && roots[k] < r + 1 by {
                        if k < out0.len() {
                            assert(out@[k] == out0[k]);
                            assert(roots[k] == roots0[k]);
                            assert(reps[k] == reps0[k]);
                        }
                    }
                    assert forall|k: int, l: int| 0 <= k < l < out@.len() implies #[trigger] roots[k] < #[trigger] roots[l] by {
                        if l < out0.len() {
                            assert(roots[k] == roots0[k] && roots[l] == roots0[l]);
                        } else {
                            assert(roots[k] == roots0[k]);
                            assert(roots0[k] < r);
                        }
                    }
                    assert forall|r2: int|
                        0 <= r2 < r + 1 && kept(#[trigger] entries@[r2], min_area as nat) implies exists|k: int|
                        0 <= k < roots.len() && roots[k] == r2 by {
                        if r2 < r {
                            let k = choose|k: int| 0 <= k < roots0.len() && roots0[k] == r2;
                            assert(roots[k] == roots0[k]);
                        } else {
                            assert(roots[roots.len() - 1] == r2);
                        }
                    }
                }
            }
        }
        proof {
            assert forall|k: int|
                0 <= k < out@.len() implies output_entry(entries@, #[trigger] out@[k], roots[k]) && kept(
                    entries@[roots[k]],
                    min_area as nat,
                ) && reps[k] == lab_pix[roots[k]] && roots[k] < r + 1 by {
                if k < out0.len() {
                    assert(roots0[k] < r);
                    assert(output_entry(entries@, out0[k], roots0[k]));
                }
            }
        }
        r += 1;
        proof {
            assert forall|k: int| 0 <= k < out@.len() implies #[trigger] roots[k] < r by {
                assert(output_entry(entries@, out@[k], roots[k]));
            }
            assert forall|k: int| 0 <= k < out@.len() implies #[trigger] reps[k] == lab_pix[roots[k]] by {
                assert(output_entry(entries@, out@[k], roots[k]));
            }
        }
    }
    proof {
        if n > 0 {
            lemma_output(m, cls, lab_pix, entries@, min_area as nat, out@, reps, roots);
        } else {
            if out@.len() > 0 {
                assert(output_entry(entries@, out@[0], roots[0]));
            }
            assert(boxes_witnessed(m, min_area as nat, out@, reps));
        }
    }
    out
}

} // verus!
