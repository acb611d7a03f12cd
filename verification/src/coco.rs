//! Regrouping of COCO annotations into one LabelMe shape list per image.
//!
//! A COCO dataset lists images, annotations that point at an image and a
//! category, and categories. The LabelMe form keeps, for every image in
//! order, the rectangles of its annotations in annotation order, each
//! labelled with its category's name. The bounding-box coordinates stay with
//! the caller; what is decided here is which annotation goes where, under
//! which label. The plain grouping of annotations by image, in the order the
//! images first occur, is here too.
use vstd::prelude::*;
use std::collections::HashMap;
use crate::connectivity::count_where;

verus! {

/// What the regrouping reads of a COCO annotation.
#[derive(Clone, Copy, Debug, PartialEq, Eq, Structural)]
pub struct CocoAnnotationRef {
    pub image_id: i64,
    pub category_id: i64,
    /// Number of values in the annotation's `bbox`; four are needed for a rectangle.
    pub bbox_len: usize,
}

/// A COCO category: its id and name.
#[derive(Clone, Debug)]
pub struct CocoCategoryRef {
    pub id: i64,
    pub name: String,
}

/// One LabelMe rectangle to emit: which annotation it comes from, and its label.
#[derive(Clone, Debug)]
pub struct PlannedShape {
    pub annotation: usize,
    pub label: String,
}

/// The name of the last category with id `id`, or `"unknown"` when none has it.
pub open spec fn category_label(cats: Seq<CocoCategoryRef>, id: i64) -> Seq<char>
    decreases cats.len(),
{
    if cats.len() == 0 {
        "unknown"@
    } else if cats.last().id == id {
        cats.last().name@
    } else {
        category_label(cats.drop_last(), id)
    }
}

/// Indices, in order, of the annotations among the first `k` that belong to
/// image `id` and have a full bounding box.
pub open spec fn image_annotations(anns: Seq<CocoAnnotationRef>, id: i64, k: nat) -> Seq<usize>
    decreases k,
{
    if k == 0 {
        seq![]
    } else {
        let prev = image_annotations(anns, id, (k - 1) as nat);
        let a = anns[k - 1];
        if a.image_id == id && a.bbox_len >= 4 {
            prev.push((k - 1) as usize)
        } else {
            prev
        }
    }
}

proof fn lemma_image_annotations_bounded(anns: Seq<CocoAnnotationRef>, id: i64, k: nat)
    requires
        k <= usize::MAX,
    ensures
        forall|t: int| 0 <= t < image_annotations(anns, id, k).len() ==> #[trigger] image_annotations(anns, id, k)[t] < k,
    decreases k,
{
    if k > 0 {
        lemma_image_annotations_bounded(anns, id, (k - 1) as nat);
        let prev = image_annotations(anns, id, (k - 1) as nat);
        let cur = image_annotations(anns, id, k);
        assert forall|t: int| 0 <= t < cur.len() implies #[trigger] cur[t] < k by {
            if t < prev.len() {
                assert(cur[t] == prev[t]);
            }
        }
    }
}

/// `shapes` are the rectangles of image `id`, labelled by category.
pub open spec fn shapes_of_image(
    shapes: Seq<PlannedShape>,
    anns: Seq<CocoAnnotationRef>,
    cats: Seq<CocoCategoryRef>,
    id: i64,
) -> bool {
    let picked = image_annotations(anns, id, anns.len());
    &&& shapes.len() == picked.len()
    &&& forall|j: int|
        0 <= j < shapes.len() ==> #[trigger] shapes[j].annotation == picked[j] && shapes[j].label@
            == category_label(cats, anns[picked[j] as int].category_id)
}

/// The label of a category id, the last category with that id winning.
pub fn category_label_of(cats: &Vec<CocoCategoryRef>, id: i64) -> (r: String)
    ensures
        r@ == category_label(cats@, id),
{
    let mut i: usize = cats.len();
    proof {
        assert(cats@.take(i as int) =~= cats@);
    }
    while i > 0
        invariant
            i <= cats@.len(),
            category_label(cats@, id) == category_label(cats@.take(i as int), id),
        decreases i,
    {
        assert(cats@.take(i as int).drop_last() =~= cats@.take(i - 1));
        if cats[i - 1].id == id {
            return cats[i - 1].name.clone();
        }
        i -= 1;
    }
    proof {
        reveal_strlit("unknown");
        assert(cats@.take(0) =~= Seq::<CocoCategoryRef>::empty());
    }
    "unknown".to_owned()
}

spec fn groups_ok(
    slots: Map<i64, usize>,
    groups: Seq<Vec<usize>>,
    slot_ids: Seq<i64>,
    anns: Seq<CocoAnnotationRef>,
    k: nat,
) -> bool {
    &&& groups.len() == slot_ids.len()
    &&& forall|s: int| 0 <= s < slot_ids.len() ==> slots.contains_key(#[trigger] slot_ids[s]) && slots[slot_ids[s]] == s
    &&& forall|id: i64| #[trigger] slots.contains_key(id) ==> slots[id] < slot_ids.len() && slot_ids[slots[id] as int] == id
    &&& forall|s: int| 0 <= s < slot_ids.len() ==> #[trigger] groups[s]@ == image_annotations(anns, slot_ids[s], k)
    &&& forall|id: i64| !#[trigger] slots.contains_key(id) ==> image_annotations(anns, id, k).len() == 0
}

/// For every image, in order, the rectangles to emit: the annotations of
/// that image that have a full bounding box, in annotation order, each
/// labelled with the name of its category (the last category listed with
/// that id), or `"unknown"` when no category has its id.
pub fn plan_coco_to_labelme(
    image_ids: &Vec<i64>,
    anns: &Vec<CocoAnnotationRef>,
    cats: &Vec<CocoCategoryRef>,
) -> (out: Vec<Vec<PlannedShape>>)
    ensures
        out@.len() == image_ids@.len(),
        forall|i: int| 0 <= i < out@.len() ==> shapes_of_image(#[trigger] out@[i]@, anns@, cats@, image_ids@[i]),
{
    broadcast use vstd::std_specs::hash::group_hash_axioms;

    let mut slots: HashMap<i64, usize> = HashMap::new();
    let mut groups: Vec<Vec<usize>> = Vec::new();
    let ghost mut slot_ids: Seq<i64> = seq![];
    let mut k: usize = 0;
    while k < anns.len()
        invariant
            k <= anns@.len(),
            groups_ok(slots@, groups@, slot_ids, anns@, k as nat),
        decreases anns@.len() - k,
    {
        let a = anns[k];
        let ghost before = groups@;
        if a.bbox_len >= 4 {
            match slots.get(&a.image_id) {
                Some(s) => {
                    let s = *s;
                    groups[s].push(k);
                    proof {
                        assert forall|t: int| 0 <= t < slot_ids.len() implies #[trigger] groups@[t]@
                            == image_annotations(anns@, slot_ids[t], (k + 1) as nat) by {
                            if t != s {
                                assert(groups@[t] == before[t]);
                            }
                        }
                    }
                },
                None => {
                    let slot = groups.len();
                    let mut g: Vec<usize> = Vec::new();
                    g.push(k);
                    groups.push(g);
                    slots.insert(a.image_id, slot);
                    proof {
                        assert(image_annotations(anns@, a.image_id, k as nat).len() == 0);
                        assert(image_annotations(anns@, a.image_id, k as nat) =~= seq![]);
                        slot_ids = slot_ids.push(a.image_id);
                        assert forall|t: int| 0 <= t < slot_ids.len() implies #[trigger] groups@[t]@
                            == image_annotations(anns@, slot_ids[t], (k + 1) as nat) by {
                            if t < slot {
                                assert(groups@[t] == before[t]);
                                assert(slot_ids[t] != a.image_id);
                            }
                        }
                    }
                },
            }
        } else {
            proof {
                assert forall|t: int| 0 <= t < slot_ids.len() implies #[trigger] groups@[t]@
                    == image_annotations(anns@, slot_ids[t], (k + 1) as nat) by {
                    assert(groups@[t] == before[t]);
                }
            }
        }
        k += 1;
    }
    let total = anns.len();
    let mut out: Vec<Vec<PlannedShape>> = Vec::new();
    let mut i: usize = 0;
    while i < image_ids.len()
        invariant
            i <= image_ids@.len(),
            groups_ok(slots@, groups@, slot_ids, anns@, anns@.len()),
            total == anns@.len(),
            out@.len() == i,
            forall|j: int| 0 <= j < i ==> shapes_of_image(#[trigger] out@[j]@, anns@, cats@, image_ids@[j]),
        decreases image_ids@.len() - i,
    {
        let id = image_ids[i];
        let ghost out0 = out@;
        proof {
            lemma_image_annotations_bounded(anns@, id, anns@.len());
        }
        let mut shapes: Vec<PlannedShape> = Vec::new();
        match slots.get(&id) {
            Some(s) => {
                let s = *s;
                let group = &groups[s];
                let mut j: usize = 0;
                while j < group.len()
                    invariant
                        j <= group@.len(),
                        group@ == image_annotations(anns@, id, anns@.len()),
                        forall|t: int| 0 <= t < group@.len() ==> #[trigger] group@[t] < anns@.len(),
                        shapes@.len() == j,
                        forall|t: int|
                            0 <= t < j ==> #[trigger] shapes@[t].annotation == group@[t] && shapes@[t].label@
                                == category_label(cats@, anns@[group@[t] as int].category_id),
                    decreases group@.len() - j,
                {
                    let idx = group[j];
                    let label = category_label_of(cats, anns[idx].category_id);
                    shapes.push(PlannedShape { annotation: idx, label });
                    j += 1;
                }
            },
            None => {},
        }
        proof {
            assert(shapes_of_image(shapes@, anns@, cats@, id));
        }
        out.push(shapes);
        proof {
            assert forall|j: int| 0 <= j < i + 1 implies shapes_of_image(#[trigger] out@[j]@, anns@, cats@, image_ids@[j]) by {
                if j < i {
                    assert(out@[j] == out0[j]);
                }
            }
        }
        i += 1;
    }
    out
}

/// Annotation `k` belongs to image `id` and has a full bounding box.
pub open spec fn boxed_in_image(anns: Seq<CocoAnnotationRef>, id: i64, k: int) -> bool {
    0 <= k < anns.len() && anns[k].image_id == id && anns[k].bbox_len >= 4
}

proof fn lemma_image_annotations_exact(anns: Seq<CocoAnnotationRef>, id: i64, k: nat)
    requires
        k <= anns.len(),
        anns.len() <= usize::MAX,
    ensures
        image_annotations(anns, id, k).len() == count_where(k, |m: int| boxed_in_image(anns, id, m)),
        forall|t: int|
            0 <= t < image_annotations(anns, id, k).len() ==> #[trigger] image_annotations(anns, id, k)[t] < k
                && boxed_in_image(anns, id, image_annotations(anns, id, k)[t] as int),
        forall|t1: int, t2: int|
            0 <= t1 < t2 < image_annotations(anns, id, k).len() ==> #[trigger] image_annotations(anns, id, k)[t1]
                < #[trigger] image_annotations(anns, id, k)[t2],
        forall|m: int|
            0 <= m < k && #[trigger] boxed_in_image(anns, id, m) ==> exists|t: int|
                0 <= t < image_annotations(anns, id, k).len() && #[trigger] image_annotations(anns, id, k)[t] == m,
    decreases k,
{
    if k > 0 {
        let k1 = (k - 1) as nat;
        lemma_image_annotations_exact(anns, id, k1);
        let prev = image_annotations(anns, id, k1);
        let cur = image_annotations(anns, id, k);
        assert forall|t: int| 0 <= t < prev.len() implies #[trigger] cur[t] == prev[t] by {}
        assert forall|m: int| 0 <= m < k && #[trigger] boxed_in_image(anns, id, m) implies exists|t: int|
            0 <= t < cur.len() && #[trigger] cur[t] == m by {
            if m < k1 {
                let t = choose|t: int| 0 <= t < prev.len() && #[trigger] prev[t] == m;
                assert(cur[t] == m);
            } else {
                assert(cur[prev.len() as int] == m);
            }
        }
    }
}

/// Every annotation of an image with a full bounding box becomes one of that
/// image's rectangles, however many the image has: for each image, the
/// rectangles planned for it are exactly as many as its annotations with a
/// full bounding box, each such annotation is among them, each comes from
/// such an annotation and carries its category's label, and they keep the
/// annotations' order.
pub proof fn lemma_every_box_planned(
    image_ids: Seq<i64>,
    anns: Seq<CocoAnnotationRef>,
    cats: Seq<CocoCategoryRef>,
    out: Seq<Vec<PlannedShape>>,
)
    requires
        anns.len() <= usize::MAX,
        out.len() == image_ids.len(),
        forall|i: int| 0 <= i < out.len() ==> shapes_of_image(#[trigger] out[i]@, anns, cats, image_ids[i]),
    ensures
        forall|i: int|
            0 <= i < out.len() ==> #[trigger] out[i]@.len() == count_where(
                anns.len(),
                |m: int| boxed_in_image(anns, image_ids[i], m),
            ),
        forall|i: int, k: int|
            0 <= i < out.len() && #[trigger] boxed_in_image(anns, image_ids[i], k) ==> exists|j: int|
                0 <= j < out[i]@.len() && #[trigger] out[i]@[j].annotation == k,
        forall|i: int, j: int|
            0 <= i < out.len() && 0 <= j < out[i]@.len() ==> boxed_in_image(
                anns,
                image_ids[i],
                #[trigger] out[i]@[j].annotation as int,
            ) && out[i]@[j].label@ == category_label(cats, anns[out[i]@[j].annotation as int].category_id),
        forall|i: int, j1: int, j2: int|
            0 <= i < out.len() && 0 <= j1 < j2 < out[i]@.len() ==> #[trigger] out[i]@[j1].annotation
                < #[trigger] out[i]@[j2].annotation,
{
    assert forall|i: int| 0 <= i < out.len() implies #[trigger] out[i]@.len() == count_where(
        anns.len(),
        |m: int| boxed_in_image(anns, image_ids[i], m),
    ) by {
        lemma_image_annotations_exact(anns, image_ids[i], anns.len());
    }
    assert forall|i: int, k: int|
        0 <= i < out.len() && #[trigger] boxed_in_image(anns, image_ids[i], k) implies exists|j: int|
            0 <= j < out[i]@.len() && #[trigger] out[i]@[j].annotation == k by {
        lemma_image_annotations_exact(anns, image_ids[i], anns.len());
        let picked = image_annotations(anns, image_ids[i], anns.len());
        let t = choose|t: int| 0 <= t < picked.len() && #[trigger] picked[t] == k;
        assert(out[i]@[t].annotation == k);
    }
    assert forall|i: int, j: int| 0 <= i < out.len() && 0 <= j < out[i]@.len() implies boxed_in_image(
        anns,
        image_ids[i],
        #[trigger] out[i]@[j].annotation as int,
    ) && out[i]@[j].label@ == category_label(cats, anns[out[i]@[j].annotation as int].category_id) by {
        lemma_image_annotations_exact(anns, image_ids[i], anns.len());
        let picked = image_annotations(anns, image_ids[i], anns.len());
        assert(out[i]@[j].annotation == picked[j]);
    }
    assert forall|i: int, j1: int, j2: int| 0 <= i < out.len() && 0 <= j1 < j2 < out[i]@.len() implies #[trigger] out[i]@[j1].annotation
        < #[trigger] out[i]@[j2].annotation by {
        lemma_image_annotations_exact(anns, image_ids[i], anns.len());
        let picked = image_annotations(anns, image_ids[i], anns.len());
        assert(out[i]@[j1].annotation == picked[j1]);
        assert(out[i]@[j2].annotation == picked[j2]);
    }
}

/// Indices, in order, of the first `k` annotations whose image is `id`.
pub open spec fn annotations_of(image_of: Seq<i64>, id: i64, k: nat) -> Seq<usize>
    decreases k,
{
    if k == 0 {
        seq![]
    } else {
        let prev = annotations_of(image_of, id, (k - 1) as nat);
        if image_of[k - 1] == id {
            prev.push((k - 1) as usize)
        } else {
            prev
        }
    }
}

/// The image ids of the first `k` annotations, each once, in the order of
/// their first annotation.
pub open spec fn images_in_order(image_of: Seq<i64>, k: nat) -> Seq<i64>
    decreases k,
{
    if k == 0 {
        seq![]
    } else {
        let prev = images_in_order(image_of, (k - 1) as nat);
        if prev.contains(image_of[k - 1]) {
            prev
        } else {
            prev.push(image_of[k - 1])
        }
    }
}

spec fn grouped_ok(slots: Map<i64, usize>, out: Seq<(i64, Vec<usize>)>, image_of: Seq<i64>, k: nat) -> bool {
    &&& out.len() == images_in_order(image_of, k).len()
    &&& forall|s: int| 0 <= s < out.len() ==> #[trigger] out[s].0 == images_in_order(image_of, k)[s]
    &&& forall|s: int| 0 <= s < out.len() ==> slots.contains_key(#[trigger] out[s].0) && slots[out[s].0] == s
    &&& forall|id: i64| #[trigger] slots.contains_key(id) ==> slots[id] < out.len() && out[slots[id] as int].0 == id
    &&& forall|s: int| 0 <= s < out.len() ==> #[trigger] out[s].1@ == annotations_of(image_of, out[s].0, k)
    &&& forall|id: i64| !#[trigger] slots.contains_key(id) ==> annotations_of(image_of, id, k).len() == 0
}

/// Groups annotations by image: for every image id, in the order of its
/// first annotation, the indices of its annotations in annotation order.
pub fn group_by_image(image_of: &Vec<i64>) -> (r: Vec<(i64, Vec<usize>)>)
    ensures
        r@.len() == images_in_order(image_of@, image_of@.len()).len(),
        forall|s: int|
            0 <= s < r@.len() ==> #[trigger] r@[s].0 == images_in_order(image_of@, image_of@.len())[s]
                && r@[s].1@ == annotations_of(image_of@, r@[s].0, image_of@.len()),
{
    broadcast use vstd::std_specs::hash::group_hash_axioms;

    let mut slots: HashMap<i64, usize> = HashMap::new();
    let mut out: Vec<(i64, Vec<usize>)> = Vec::new();
    let mut k: usize = 0;
    while k < image_of.len()
        invariant
            k <= image_of@.len(),
            grouped_ok(slots@, out@, image_of@, k as nat),
        decreases image_of@.len() - k,
    {
        let id = image_of[k];
        let ghost before = out@;
        let ghost order = images_in_order(image_of@, k as nat);
        match slots.get(&id) {
            Some(s) => {
                let s = *s;
                out[s].1.push(k);
                proof {
                    assert(order[s as int] == id);
                    assert(order.contains(id));
                    assert(images_in_order(image_of@, (k + 1) as nat) == order);
                    assert forall|t: int| 0 <= t < out@.len() implies #[trigger] out@[t].1@
                        == annotations_of(image_of@, out@[t].0, (k + 1) as nat) by {
                        if t != s {
                            assert(out@[t] == before[t]);
                        }
                    }
                    assert forall|t: int| 0 <= t < out@.len() implies #[trigger] out@[t].0 == images_in_order(
                        image_of@,
                        (k + 1) as nat,
                    )[t] by {
                        if t != s {
                            assert(out@[t] == before[t]);
                        }
                    }
                    assert forall|t: int| 0 <= t < out@.len() implies slots@.contains_key(#[trigger] out@[t].0)
                        && slots@[out@[t].0] == t by {
                        if t != s {
                            assert(out@[t] == before[t]);
                        }
                    }
                }
            },
            None => {
                let slot = out.len();
                let mut g: Vec<usize> = Vec::new();
                g.push(k);
                out.push((id, g));
                slots.insert(id, slot);
                proof {
                    assert(!order.contains(id)) by {
                        if order.contains(id) {
                            let t = choose|t: int| 0 <= t < order.len() && order[t] == id;
                            assert(before[t].0 == id);
                        }
                    }
                    assert(images_in_order(image_of@, (k + 1) as nat) == order.push(id));
                    assert(annotations_of(image_of@, id, k as nat) =~= seq![]);
                    assert forall|t: int| 0 <= t < out@.len() implies #[trigger] out@[t].1@
                        == annotations_of(image_of@, out@[t].0, (k + 1) as nat) by {
                        if t < slot {
                            assert(out@[t] == before[t]);
                            assert(before[t].0 != id);
                        }
                    }
                    assert forall|t: int| 0 <= t < out@.len() implies #[trigger] out@[t].0 == images_in_order(
                        image_of@,
                        (k + 1) as nat,
                    )[t] by {
                        if t < slot {
                            assert(out@[t] == before[t]);
                        }
                    }
                    assert forall|t: int| 0 <= t < out@.len() implies slots@.contains_key(#[trigger] out@[t].0)
                        && slots@[out@[t].0] == t by {
                        if t < slot {
                            assert(out@[t] == before[t]);
                            assert(before[t].0 != id);
                        }
                    }
                    assert forall|x: i64| #[trigger] slots@.contains_key(x) implies slots@[x] < out@.len()
                        && out@[slots@[x] as int].0 == x by {
                        if x != id {
                            assert(out@[slots@[x] as int] == before[slots@[x] as int]);
                        }
                    }
                }
            },
        }
        k += 1;
    }
    out
}

/// Annotation `k` belongs to image `id`.
pub open spec fn on_image(image_of: Seq<i64>, id: i64, k: int) -> bool {
    0 <= k < image_of.len() && image_of[k] == id
}

proof fn lemma_annotations_of_exact(image_of: Seq<i64>, id: i64, k: nat)
    requires
        k <= image_of.len(),
        image_of.len() <= usize::MAX,
    ensures
        annotations_of(image_of, id, k).len() == count_where(k, |m: int| on_image(image_of, id, m)),
        forall|t: int|
            0 <= t < annotations_of(image_of, id, k).len() ==> #[trigger] annotations_of(image_of, id, k)[t] < k
                && on_image(image_of, id, annotations_of(image_of, id, k)[t] as int),
        forall|t1: int, t2: int|
            0 <= t1 < t2 < annotations_of(image_of, id, k).len() ==> #[trigger] annotations_of(image_of, id, k)[t1]
                < #[trigger] annotations_of(image_of, id, k)[t2],
        forall|m: int|
            0 <= m < k && #[trigger] on_image(image_of, id, m) ==> exists|t: int|
                0 <= t < annotations_of(image_of, id, k).len() && #[trigger] annotations_of(image_of, id, k)[t] == m,
    decreases k,
{
    if k > 0 {
        let k1 = (k - 1) as nat;
        lemma_annotations_of_exact(image_of, id, k1);
        let prev = annotations_of(image_of, id, k1);
        let cur = annotations_of(image_of, id, k);
        assert forall|t: int| 0 <= t < prev.len() implies #[trigger] cur[t] == prev[t] by {}
        assert forall|m: int| 0 <= m < k && #[trigger] on_image(image_of, id, m) implies exists|t: int|
            0 <= t < cur.len() && #[trigger] cur[t] == m by {
            if m < k1 {
                let t = choose|t: int| 0 <= t < prev.len() && #[trigger] prev[t] == m;
                assert(cur[t] == m);
            } else {
                assert(cur[prev.len() as int] == m);
            }
        }
    }
}

proof fn lemma_images_in_order_facts(image_of: Seq<i64>, k: nat)
    requires
        k <= image_of.len(),
        image_of.len() <= usize::MAX,
    ensures
        forall|s1: int, s2: int|
            0 <= s1 < s2 < images_in_order(image_of, k).len() ==> #[trigger] images_in_order(image_of, k)[s1]
                != #[trigger] images_in_order(image_of, k)[s2],
        forall|m: int| 0 <= m < k ==> images_in_order(image_of, k).contains(#[trigger] image_of[m]),
        forall|s: int|
            0 <= s < images_in_order(image_of, k).len() ==> annotations_of(
                image_of,
                #[trigger] images_in_order(image_of, k)[s],
                k,
            ).len() > 0,
        forall|s1: int, s2: int|
            0 <= s1 < s2 < images_in_order(image_of, k).len() ==> annotations_of(
                image_of,
                #[trigger] images_in_order(image_of, k)[s1],
                k,
            )[0] < annotations_of(image_of, #[trigger] images_in_order(image_of, k)[s2], k)[0],
    decreases k,
{
    if k > 0 {
        let k1 = (k - 1) as nat;
        lemma_images_in_order_facts(image_of, k1);
        let prev = images_in_order(image_of, k1);
        let cur = images_in_order(image_of, k);
        let x = image_of[k1 as int];
        assert forall|s: int| 0 <= s < prev.len() implies annotations_of(image_of, #[trigger] prev[s], k).len() > 0
            && annotations_of(image_of, prev[s], k)[0] == annotations_of(image_of, prev[s], k1)[0]
            && annotations_of(image_of, prev[s], k)[0] < k1 by {
            lemma_annotations_of_exact(image_of, prev[s], k1);
        }
        if prev.contains(x) {
            assert(cur == prev);
        } else {
            assert(cur == prev.push(x));
            lemma_annotations_of_exact(image_of, x, k1);
            assert(annotations_of(image_of, x, k1).len() == 0) by {
                if annotations_of(image_of, x, k1).len() > 0 {
                    let m = annotations_of(image_of, x, k1)[0];
                    assert(on_image(image_of, x, m as int));
                    assert(prev.contains(image_of[m as int]));
                }
            }
            assert(annotations_of(image_of, x, k)[0] == k1);
            assert forall|s: int| 0 <= s < cur.len() implies annotations_of(image_of, #[trigger] cur[s], k).len() > 0 by {
                if s < prev.len() {
                    assert(cur[s] == prev[s]);
                }
            }
            assert forall|s1: int, s2: int| 0 <= s1 < s2 < cur.len() implies #[trigger] cur[s1] != #[trigger] cur[s2] by {
                assert(cur[s1] == prev[s1]);
                if s2 == prev.len() {
                    assert(prev.contains(cur[s1]));
                } else {
                    assert(cur[s2] == prev[s2]);
                }
            }
            assert forall|s1: int, s2: int| 0 <= s1 < s2 < cur.len() implies annotations_of(
                image_of,
                #[trigger] cur[s1],
                k,
            )[0] < annotations_of(image_of, #[trigger] cur[s2], k)[0] by {
                assert(cur[s1] == prev[s1]);
                if s2 < prev.len() {
                    assert(cur[s2] == prev[s2]);
                }
            }
        }
        assert forall|m: int| 0 <= m < k implies cur.contains(#[trigger] image_of[m]) by {
            if m < k1 {
                let s = choose|s: int| 0 <= s < prev.len() && prev[s] == image_of[m];
                if !prev.contains(x) {
                    assert(cur[s] == prev[s]);
                }
            } else if prev.contains(x) {
            } else {
                assert(cur[prev.len() as int] == x);
            }
        }
    }
}

/// Annotation `k` is in the group of image `id`.
pub open spec fn grouped_under(r: Seq<(i64, Vec<usize>)>, id: i64, k: int) -> bool {
    exists|s: int, j: int| 0 <= s < r.len() && 0 <= j < r[s].1@.len() && #[trigger] r[s].1@[j] == k && r[s].0 == id
}

/// Grouping by image loses and invents nothing: the groups are for distinct
/// images, every annotation is in the group of its image, a group holds
/// exactly its image's annotations (as many as that image has), in
/// annotation order, and the groups come in the order of each image's first
/// annotation.
pub proof fn lemma_grouping_complete(image_of: Seq<i64>, r: Seq<(i64, Vec<usize>)>)
    requires
        image_of.len() <= usize::MAX,
        r.len() == images_in_order(image_of, image_of.len()).len(),
        forall|s: int|
            0 <= s < r.len() ==> #[trigger] r[s].0 == images_in_order(image_of, image_of.len())[s] && r[s].1@
                == annotations_of(image_of, r[s].0, image_of.len()),
    ensures
        forall|s1: int, s2: int| 0 <= s1 < s2 < r.len() ==> #[trigger] r[s1].0 != #[trigger] r[s2].0,
        forall|k: int| 0 <= k < image_of.len() ==> grouped_under(r, #[trigger] image_of[k], k),
        forall|s: int|
            0 <= s < r.len() ==> #[trigger] r[s].1@.len() == count_where(
                image_of.len(),
                |m: int| on_image(image_of, r[s].0, m),
            ) && r[s].1@.len() > 0,
        forall|s: int, j: int|
            0 <= s < r.len() && 0 <= j < r[s].1@.len() ==> on_image(image_of, r[s].0, #[trigger] r[s].1@[j] as int),
        forall|s: int, j1: int, j2: int|
            0 <= s < r.len() && 0 <= j1 < j2 < r[s].1@.len() ==> #[trigger] r[s].1@[j1] < #[trigger] r[s].1@[j2],
        forall|s1: int, s2: int| 0 <= s1 < s2 < r.len() ==> #[trigger] r[s1].1@[0] < #[trigger] r[s2].1@[0],
{
    let n = image_of.len();
    let order = images_in_order(image_of, n);
    lemma_images_in_order_facts(image_of, n);
    assert forall|s1: int, s2: int| 0 <= s1 < s2 < r.len() implies #[trigger] r[s1].0 != #[trigger] r[s2].0 by {
        assert(order[s1] != order[s2]);
    }
    assert forall|k: int| 0 <= k < image_of.len() implies grouped_under(r, #[trigger] image_of[k], k) by {
        assert(order.contains(image_of[k]));
        let s = choose|s: int| 0 <= s < order.len() && order[s] == image_of[k];
        lemma_annotations_of_exact(image_of, image_of[k], n);
        assert(on_image(image_of, image_of[k], k));
        let j = choose|j: int|
            0 <= j < annotations_of(image_of, image_of[k], n).len() && #[trigger] annotations_of(
                image_of,
                image_of[k],
                n,
            )[j] == k;
        assert(r[s].0 == order[s]);
        assert(r[s].1@ == annotations_of(image_of, image_of[k], n));
        assert(r[s].1@[j] == k);
        assert(0 <= j < r[s].1@.len());
    }
    assert forall|s: int| 0 <= s < r.len() implies #[trigger] r[s].1@.len() == count_where(
        n,
        |m: int| on_image(image_of, r[s].0, m),
    ) && r[s].1@.len() > 0 by {
        lemma_annotations_of_exact(image_of, r[s].0, n);
        assert(annotations_of(image_of, order[s], n).len() > 0);
    }
    assert forall|s: int, j: int| 0 <= s < r.len() && 0 <= j < r[s].1@.len() implies on_image(
        image_of,
        r[s].0,
        #[trigger] r[s].1@[j] as int,
    ) by {
        lemma_annotations_of_exact(image_of, r[s].0, n);
        assert(r[s].1@[j] == annotations_of(image_of, r[s].0, n)[j]);
    }
    assert forall|s: int, j1: int, j2: int| 0 <= s < r.len() && 0 <= j1 < j2 < r[s].1@.len() implies #[trigger] r[s].1@[j1]
        < #[trigger] r[s].1@[j2] by {
        lemma_annotations_of_exact(image_of, r[s].0, n);
        assert(r[s].1@[j1] == annotations_of(image_of, r[s].0, n)[j1]);
        assert(r[s].1@[j2] == annotations_of(image_of, r[s].0, n)[j2]);
    }
    assert forall|s1: int, s2: int| 0 <= s1 < s2 < r.len() implies #[trigger] r[s1].1@[0] < #[trigger] r[s2].1@[0] by {
        assert(annotations_of(image_of, order[s1], n)[0] < annotations_of(image_of, order[s2], n)[0]);
    }
}

} // verus!
