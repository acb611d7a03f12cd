//! LabelMe shapes to YOLO label lines: which shapes become a line, and the
//! accounting of the ones that do not.
//!
//! Every shape read is counted exactly once: as emitted, as dropped (a shape
//! type the encoding cannot represent), as malformed (a supported shape type
//! with unusable geometry) or as an unknown class (a label outside the class
//! map). The geometry of emitted shapes is real-valued and is computed by the
//! caller from the outcome returned here.
use vstd::prelude::*;
use crate::connectivity::{count_where, lemma_count_where_ext};

verus! {

use crate::json::{
    json_object_text_field, json_pretty, json_with_text_field, object_text_field, pretty_text, serde_json_accepts,
    serde_json_value, serde_parse, set_text_field,
};

/// `class cx cy w h`, normalised.
pub const ENC_BBOX5: &'static str = "bbox5";

/// `class x1 y1 x2 y2 x3 y3 x4 y4`, normalised (oriented box corners).
pub const ENC_OBB9: &'static str = "obb9";

/// The label encodings this converter emits.
#[derive(Clone, Copy, Debug, PartialEq, Eq, Structural)]
pub enum LabelEncoding {
    Bbox5,
    Obb9,
}

/// The encoding a name selects, if any.
pub open spec fn encoding_named(name: Seq<char>) -> Option<LabelEncoding> {
    if name == "bbox5"@ {
        Some(LabelEncoding::Bbox5)
    } else if name == "obb9"@ {
        Some(LabelEncoding::Obb9)
    } else {
        None
    }
}

/// The text of two strings is equal.
pub fn str_equal(a: &str, b: &str) -> (r: bool)
    ensures
        r == (a@ == b@),
{
    a.to_owned() == b.to_owned()
}

/// Parses an encoding name; anything but `"bbox5"` and `"obb9"` is refused.
pub fn parse_encoding(name: &str) -> (r: Option<LabelEncoding>)
    ensures
        r == encoding_named(name@),
{
    proof {
        reveal_strlit("bbox5");
        reveal_strlit("obb9");
    }
    if str_equal(name, ENC_BBOX5) {
        Some(LabelEncoding::Bbox5)
    } else if str_equal(name, ENC_OBB9) {
        Some(LabelEncoding::Obb9)
    } else {
        None
    }
}

/// What `{:?}` prints for a string: the text quoted, with escapes.
pub uninterp spec fn debug_quoted(s: Seq<char>) -> Seq<char>;

/// `format!("{:?}", s)`: the result is `debug_quoted` of the text; no more is claimed.
#[verifier::external_body]
fn str_debug(s: &str) -> (r: String)
    ensures
        r@ == debug_quoted(s@),
{
    format!("{:?}", s)
}

/// The message for an encoding this converter cannot produce.
pub open spec fn unsupported_encoding_text(encoding: Seq<char>) -> Seq<char> {
    "unsupported label encoding "@ + debug_quoted(encoding) + "; this converter emits \"bbox5\" or \"obb9\""@
}

pub fn unsupported_encoding_message(encoding: &str) -> (msg: String)
    ensures
        msg@ == unsupported_encoding_text(encoding@),
{
    let mut msg = String::new();
    msg.append("unsupported label encoding ");
    let quoted = str_debug(encoding);
    msg.append(quoted.as_str());
    msg.append("; this converter emits \"bbox5\" or \"obb9\"");
    msg
}

/// How one file's shapes came out.
#[derive(Clone, Copy, Debug, PartialEq, Eq, Structural)]
pub struct ShapeCounts {
    /// Shapes written as a label line.
    pub emitted: usize,
    /// Shape types the active encoding cannot represent at all.
    pub dropped: usize,
    /// Shape types the encoding does handle, with unusable geometry.
    pub malformed: usize,
    /// Shapes whose label is not in the class map.
    pub unknown_class: usize,
}

impl Default for ShapeCounts {
    fn default() -> (r: ShapeCounts)
        ensures
            r == (ShapeCounts { emitted: 0, dropped: 0, malformed: 0, unknown_class: 0 }),
    {
        ShapeCounts { emitted: 0, dropped: 0, malformed: 0, unknown_class: 0 }
    }
}

impl ShapeCounts {
    /// All shapes accounted for.
    pub open spec fn total(self) -> int {
        self.emitted + self.dropped + self.malformed + self.unknown_class
    }

    /// Adds `other` bucket by bucket.
    pub fn add(&mut self, other: ShapeCounts)
        requires
            old(self).emitted + other.emitted <= usize::MAX,
            old(self).dropped + other.dropped <= usize::MAX,
            old(self).malformed + other.malformed <= usize::MAX,
            old(self).unknown_class + other.unknown_class <= usize::MAX,
        ensures
            final(self).emitted == old(self).emitted + other.emitted,
            final(self).dropped == old(self).dropped + other.dropped,
            final(self).malformed == old(self).malformed + other.malformed,
            final(self).unknown_class == old(self).unknown_class + other.unknown_class,
    {
        self.emitted = self.emitted + other.emitted;
        self.dropped = self.dropped + other.dropped;
        self.malformed = self.malformed + other.malformed;
        self.unknown_class = self.unknown_class + other.unknown_class;
    }
}

/// Class names to class indices. A name given twice maps to its last index.
pub struct ClassMap {
    entries: Vec<(String, usize)>,
}

/// The index the last entry named `label` gives, if any.
pub open spec fn class_lookup(entries: Seq<(Seq<char>, usize)>, label: Seq<char>) -> Option<usize>
    decreases entries.len(),
{
    if entries.len() == 0 {
        None
    } else if entries.last().0 == label {
        Some(entries.last().1)
    } else {
        class_lookup(entries.drop_last(), label)
    }
}

/// The texts and indices of a list of class entries.
pub open spec fn entries_view(entries: Seq<(String, usize)>) -> Seq<(Seq<char>, usize)> {
    Seq::new(entries.len(), |i: int| (entries[i].0@, entries[i].1))
}

impl View for ClassMap {
    type V = Seq<(Seq<char>, usize)>;

    closed spec fn view(&self) -> Seq<(Seq<char>, usize)> {
        entries_view(self.entries@)
    }
}

impl ClassMap {
    /// A map from name/index pairs, in the given order.
    pub fn from_pairs(pairs: Vec<(String, usize)>) -> (c: ClassMap)
        ensures
            c@ == entries_view(pairs@),
    {
        ClassMap { entries: pairs }
    }

    /// A map giving the `i`-th name the index `i`.
    pub fn from_class_list(names: &Vec<String>) -> (c: ClassMap)
        ensures
            c@ == Seq::new(names@.len(), |i: int| (names@[i]@, i as usize)),
    {
        let mut entries: Vec<(String, usize)> = Vec::new();
        let mut i: usize = 0;
        while i < names.len()
            invariant
                i <= names@.len(),
                entries@.len() == i,
                entries_view(entries@) =~= Seq::new(i as nat, |k: int| (names@[k]@, k as usize)),
            decreases names@.len() - i,
        {
            let ghost old_entries = entries@;
            let name = names[i].clone();
            entries.push((name, i));
            proof {
                assert(name == names@[i as int]);
                let ev = entries_view(entries@);
                let target = Seq::new((i + 1) as nat, |k: int| (names@[k]@, k as usize));
                assert forall|k: int| 0 <= k < i + 1 implies ev[k] == target[k] by {
                    if k < i {
                        assert(entries@[k] == old_entries[k]);
                        assert(entries_view(old_entries)[k] == (names@[k]@, k as usize));
                    } else {
                        assert(entries@[k] == (name, i));
                    }
                }
                assert(ev =~= target);
            }
            i += 1;
        }
        ClassMap { entries }
    }

    /// The index of `label`, if the map names it.
    pub fn lookup(&self, label: &str) -> (r: Option<usize>)
        ensures
            r == class_lookup(self@, label@),
    {
        let mut i: usize = self.entries.len();
        proof {
            assert(self@.take(i as int) =~= self@);
        }
        while i > 0
            invariant
                i <= self.entries@.len(),
                class_lookup(self@, label@) == class_lookup(self@.take(i as int), label@),
            decreases i,
        {
            let ghost pre = self@.take(i as int);
            assert(pre.drop_last() =~= self@.take(i - 1));
            let entry = &self.entries[i - 1];
            if str_equal(entry.0.as_str(), label) {
                return Some(entry.1);
            }
            i -= 1;
        }
        proof {
            assert(self@.take(0) =~= Seq::<(Seq<char>, usize)>::empty());
        }
        None
    }
}

/// Looking a name up in a class list gives the last position of that name,
/// and nothing when the list does not hold it.
pub proof fn lemma_class_list_lookup(names: Seq<Seq<char>>, label: Seq<char>)
    requires
        names.len() <= usize::MAX,
    ensures
        ({
            let entries = Seq::new(names.len(), |i: int| (names[i], i as usize));
            match class_lookup(entries, label) {
                Some(i) => i < names.len() && names[i as int] == label && forall|j: int|
                    i < j < names.len() ==> names[j] != label,
                None => forall|j: int| 0 <= j < names.len() ==> names[j] != label,
            }
        }),
    decreases names.len(),
{
    let entries = Seq::new(names.len(), |i: int| (names[i], i as usize));
    if names.len() > 0 {
        let rest = names.drop_last();
        lemma_class_list_lookup(rest, label);
        let rest_entries = Seq::new(rest.len(), |i: int| (rest[i], i as usize));
        assert(entries.drop_last() =~= rest_entries);
        assert(entries.last() == (names[names.len() - 1], (names.len() - 1) as usize));
        if names[names.len() - 1] != label {
            match class_lookup(rest_entries, label) {
                Some(i) => {
                    assert forall|j: int| i < j < names.len() implies names[j] != label by {
                        if j < rest.len() {
                            assert(rest[j] == names[j]);
                        }
                    }
                    assert(rest[i as int] == names[i as int]);
                },
                None => {
                    assert forall|j: int| 0 <= j < names.len() implies names[j] != label by {
                        if j < rest.len() {
                            assert(rest[j] == names[j]);
                        }
                    }
                },
            }
        }
    }
}

/// What the converter reads of one LabelMe shape: its label, its shape type
/// and how many points it has. The point coordinates stay with the caller.
#[derive(Clone, Debug)]
pub struct ShapeSummary {
    pub label: String,
    pub shape_type: String,
    pub point_count: usize,
}

/// The geometric kind of a shape that becomes a label line.
#[derive(Clone, Copy, Debug, PartialEq, Eq, Structural)]
pub enum ShapeKind {
    /// Two corner points; the first two points are used.
    Rectangle,
    /// Three or more vertices.
    Polygon,
}

/// What happens to one shape.
#[derive(Clone, Copy, Debug, PartialEq, Eq, Structural)]
pub enum ShapeOutcome {
    /// Written as a label line of class `class_idx`.
    Emit { class_idx: usize, kind: ShapeKind },
    /// A shape type the encoding cannot represent.
    Dropped,
    /// A rectangle with fewer than two points or a polygon with fewer than three.
    Malformed,
    /// A label the class map does not name.
    UnknownClass,
}

/// The outcome for a shape with the given class, type and number of points.
pub open spec fn shape_outcome(class: Option<usize>, shape_type: Seq<char>, point_count: nat) -> ShapeOutcome {
    match class {
        None => ShapeOutcome::UnknownClass,
        Some(c) => if shape_type == "rectangle"@ {
            if point_count < 2 {
                ShapeOutcome::Malformed
            } else {
                ShapeOutcome::Emit { class_idx: c, kind: ShapeKind::Rectangle }
            }
        } else if shape_type == "polygon"@ {
            if point_count < 3 {
                ShapeOutcome::Malformed
            } else {
                ShapeOutcome::Emit { class_idx: c, kind: ShapeKind::Polygon }
            }
        } else {
            ShapeOutcome::Dropped
        },
    }
}

pub open spec fn summary_outcome(classes: Seq<(Seq<char>, usize)>, s: ShapeSummary) -> ShapeOutcome {
    shape_outcome(class_lookup(classes, s.label@), s.shape_type@, s.point_count as nat)
}

/// Decides what becomes of one shape.
pub fn classify_shape(shape: &ShapeSummary, classes: &ClassMap) -> (r: ShapeOutcome)
    ensures
        r == summary_outcome(classes@, *shape),
{
    proof {
        reveal_strlit("rectangle");
        reveal_strlit("polygon");
    }
    let class_idx = match classes.lookup(shape.label.as_str()) {
        Some(idx) => idx,
        None => {
            return ShapeOutcome::UnknownClass;
        },
    };
    if str_equal(shape.shape_type.as_str(), "rectangle") {
        if shape.point_count < 2 {
            ShapeOutcome::Malformed
        } else {
            ShapeOutcome::Emit { class_idx, kind: ShapeKind::Rectangle }
        }
    } else if str_equal(shape.shape_type.as_str(), "polygon") {
        if shape.point_count < 3 {
            ShapeOutcome::Malformed
        } else {
            ShapeOutcome::Emit { class_idx, kind: ShapeKind::Polygon }
        }
    } else {
        ShapeOutcome::Dropped
    }
}

/// What becomes of a shape, by its label, type and number of points: a label
/// the class map does not name makes it an unknown class; for a label it maps
/// to class `c`, a rectangle with at least two points and a polygon with at
/// least three are emitted as that kind with class `c`, whatever the number of
/// points beyond that, a rectangle or polygon
/// with fewer points is malformed, and any other type is dropped.
pub proof fn lemma_shape_rules(classes: Seq<(Seq<char>, usize)>, shape: ShapeSummary, c: usize)
    ensures
        class_lookup(classes, shape.label@) is None ==> summary_outcome(classes, shape) == ShapeOutcome::UnknownClass,
        class_lookup(classes, shape.label@) == Some(c) && shape.shape_type@ == "rectangle"@ && shape.point_count >= 2
            ==> summary_outcome(classes, shape) == (ShapeOutcome::Emit { class_idx: c, kind: ShapeKind::Rectangle }),
        class_lookup(classes, shape.label@) == Some(c) && shape.shape_type@ == "rectangle"@ && shape.point_count < 2
            ==> summary_outcome(classes, shape) == ShapeOutcome::Malformed,
        class_lookup(classes, shape.label@) == Some(c) && shape.shape_type@ == "polygon"@ && shape.point_count >= 3
            ==> summary_outcome(classes, shape) == (ShapeOutcome::Emit { class_idx: c, kind: ShapeKind::Polygon }),
        class_lookup(classes, shape.label@) == Some(c) && shape.shape_type@ == "polygon"@ && shape.point_count < 3
            ==> summary_outcome(classes, shape) == ShapeOutcome::Malformed,
        class_lookup(classes, shape.label@) == Some(c) && shape.shape_type@ != "rectangle"@ && shape.shape_type@
            != "polygon"@ ==> summary_outcome(classes, shape) == ShapeOutcome::Dropped,
{
    reveal_strlit("rectangle");
    reveal_strlit("polygon");
    assert("rectangle"@ != "polygon"@) by {
        assert("rectangle"@[0] != "polygon"@[0]);
    }
}

/// Counts of each kind of outcome in `outcomes`.
pub open spec fn tally(outcomes: Seq<ShapeOutcome>) -> (nat, nat, nat, nat)
    decreases outcomes.len(),
{
    if outcomes.len() == 0 {
        (0, 0, 0, 0)
    } else {
        let t = tally(outcomes.drop_last());
        match outcomes.last() {
            ShapeOutcome::Emit { .. } => (t.0 + 1, t.1, t.2, t.3),
            ShapeOutcome::Dropped => (t.0, t.1 + 1, t.2, t.3),
            ShapeOutcome::Malformed => (t.0, t.1, t.2 + 1, t.3),
            ShapeOutcome::UnknownClass => (t.0, t.1, t.2, t.3 + 1),
        }
    }
}

proof fn lemma_tally_total(outcomes: Seq<ShapeOutcome>)
    ensures
        ({
            let t = tally(outcomes);
            t.0 + t.1 + t.2 + t.3 == outcomes.len()
        }),
    decreases outcomes.len(),
{
    if outcomes.len() > 0 {
        lemma_tally_total(outcomes.drop_last());
    }
}

/// Each count of `tally` is the number of outcomes of that kind: emitted,
/// dropped, malformed and unknown class, in that order.
pub proof fn lemma_tally_counts_kinds(outcomes: Seq<ShapeOutcome>)
    ensures
        tally(outcomes).0 == count_where(outcomes.len(), |i: int| outcomes[i] is Emit),
        tally(outcomes).1 == count_where(outcomes.len(), |i: int| outcomes[i] is Dropped),
        tally(outcomes).2 == count_where(outcomes.len(), |i: int| outcomes[i] is Malformed),
        tally(outcomes).3 == count_where(outcomes.len(), |i: int| outcomes[i] is UnknownClass),
    decreases outcomes.len(),
{
    if outcomes.len() > 0 {
        let prev = outcomes.drop_last();
        let n = prev.len();
        lemma_tally_counts_kinds(prev);
        lemma_count_where_ext(n, |i: int| outcomes[i] is Emit, |i: int| prev[i] is Emit);
        lemma_count_where_ext(n, |i: int| outcomes[i] is Dropped, |i: int| prev[i] is Dropped);
        lemma_count_where_ext(n, |i: int| outcomes[i] is Malformed, |i: int| prev[i] is Malformed);
        lemma_count_where_ext(n, |i: int| outcomes[i] is UnknownClass, |i: int| prev[i] is UnknownClass);
    }
}

/// Decides the outcome of every shape of one annotation, in order, and counts
/// them. Every shape lands in exactly one bucket, so the buckets add up to the
/// number of shapes read; the emitted ones are the label lines to write.
pub fn plan_annotation(shapes: &Vec<ShapeSummary>, classes: &ClassMap) -> (r: (Vec<ShapeOutcome>, ShapeCounts))
    ensures
        r.0@.len() == shapes@.len(),
        forall|i: int| 0 <= i < shapes@.len() ==> #[trigger] r.0@[i] == summary_outcome(classes@, shapes@[i]),
        (r.1.emitted as nat, r.1.dropped as nat, r.1.malformed as nat, r.1.unknown_class as nat) == tally(r.0@),
        r.1.total() == shapes@.len(),
{
    let mut outcomes: Vec<ShapeOutcome> = Vec::new();
    let mut counts = ShapeCounts { emitted: 0, dropped: 0, malformed: 0, unknown_class: 0 };
    let mut i: usize = 0;
    while i < shapes.len()
        invariant
            i <= shapes@.len(),
            outcomes@.len() == i,
            forall|k: int| 0 <= k < i ==> #[trigger] outcomes@[k] == summary_outcome(classes@, shapes@[k]),
            (counts.emitted as nat, counts.dropped as nat, counts.malformed as nat, counts.unknown_class as nat)
                == tally(outcomes@),
            counts.total() == i,
        decreases shapes@.len() - i,
    {
        let outcome = classify_shape(&shapes[i], classes);
        let ghost before = outcomes@;
        outcomes.push(outcome);
        proof {
            assert(outcomes@.drop_last() =~= before);
        }
        match outcome {
            ShapeOutcome::Emit { .. } => counts.emitted = counts.emitted + 1,
            ShapeOutcome::Dropped => counts.dropped = counts.dropped + 1,
            ShapeOutcome::Malformed => counts.malformed = counts.malformed + 1,
            ShapeOutcome::UnknownClass => counts.unknown_class = counts.unknown_class + 1,
        }
        i += 1;
    }
    (outcomes, counts)
}

/// Number of shapes among `shapes` whose label the class map does not name.
pub open spec fn unknown_labels(classes: Seq<(Seq<char>, usize)>, shapes: Seq<ShapeSummary>) -> nat
    decreases shapes.len(),
{
    if shapes.len() == 0 {
        0
    } else {
        unknown_labels(classes, shapes.drop_last()) + if class_lookup(classes, shapes.last().label@) is None {
            1nat
        } else {
            0nat
        }
    }
}

/// Shapes of an unknown class are exactly those whose label the class map
/// does not name: for the outcomes `plan_annotation` decides, the
/// unknown-class count is the number of such labels, and every other shape
/// lands in one of the other three buckets.
pub proof fn lemma_unknown_class_count(
    classes: Seq<(Seq<char>, usize)>,
    shapes: Seq<ShapeSummary>,
    outcomes: Seq<ShapeOutcome>,
)
    requires
        outcomes.len() == shapes.len(),
        forall|i: int| 0 <= i < shapes.len() ==> #[trigger] outcomes[i] == summary_outcome(classes, shapes[i]),
    ensures
        tally(outcomes).3 == unknown_labels(classes, shapes),
        tally(outcomes).0 + tally(outcomes).1 + tally(outcomes).2 == shapes.len() - unknown_labels(classes, shapes),
    decreases shapes.len(),
{
    lemma_tally_total(outcomes);
    if shapes.len() > 0 {
        let n = shapes.len() - 1;
        assert forall|i: int| 0 <= i < n implies #[trigger] outcomes.drop_last()[i] == summary_outcome(
            classes,
            shapes.drop_last()[i],
        ) by {
            assert(outcomes.drop_last()[i] == outcomes[i]);
            assert(shapes.drop_last()[i] == shapes[i]);
        }
        lemma_unknown_class_count(classes, shapes.drop_last(), outcomes.drop_last());
        assert(outcomes.last() == summary_outcome(classes, shapes.last()));
        lemma_tally_total(outcomes.drop_last());
    }
}

/// Sum of the per-file counts and number of files converted.
pub open spec fn tally_files(results: Seq<(bool, ShapeCounts)>) -> (nat, nat, nat, nat, nat)
    decreases results.len(),
{
    if results.len() == 0 {
        (0, 0, 0, 0, 0)
    } else {
        let t = tally_files(results.drop_last());
        let (ok, c) = results.last();
        (
            t.0 + if ok { 1nat } else { 0nat },
            t.1 + c.emitted as nat,
            t.2 + c.dropped as nat,
            t.3 + c.malformed as nat,
            t.4 + c.unknown_class as nat,
        )
    }
}

/// Totals over the files of a directory conversion: the number of files
/// converted and the sum of their shape counts.
pub fn total_conversions(results: &Vec<(bool, ShapeCounts)>) -> (r: (usize, ShapeCounts))
    requires
        tally_files(results@).1 <= usize::MAX,
        tally_files(results@).2 <= usize::MAX,
        tally_files(results@).3 <= usize::MAX,
        tally_files(results@).4 <= usize::MAX,
    ensures
        (r.0 as nat, r.1.emitted as nat, r.1.dropped as nat, r.1.malformed as nat, r.1.unknown_class as nat)
            == tally_files(results@),
{
    let mut totals = ShapeCounts::default();
    let mut files: usize = 0;
    let mut i: usize = 0;
    while i < results.len()
        invariant
            i <= results@.len(),
            (files as nat, totals.emitted as nat, totals.dropped as nat, totals.malformed as nat, totals.unknown_class as nat)
                == tally_files(results@.take(i as int)),
            files <= i,
            tally_files(results@).1 <= usize::MAX,
            tally_files(results@).2 <= usize::MAX,
            tally_files(results@).3 <= usize::MAX,
            tally_files(results@).4 <= usize::MAX,
        decreases results@.len() - i,
    {
        let (ok, counts) = results[i];
        proof {
            assert(results@.take(i + 1).drop_last() =~= results@.take(i as int));
            lemma_tally_files_prefix(results@, i + 1);
        }
        if ok {
            files += 1;
        }
        totals.add(counts);
        i += 1;
    }
    proof {
        assert(results@.take(results@.len() as int) =~= results@);
    }
    (files, totals)
}

/// The totals of a prefix never exceed the totals of the whole.
proof fn lemma_tally_files_prefix(results: Seq<(bool, ShapeCounts)>, k: int)
    requires
        0 <= k <= results.len(),
    ensures
        tally_files(results.take(k)).0 <= tally_files(results).0,
        tally_files(results.take(k)).1 <= tally_files(results).1,
        tally_files(results.take(k)).2 <= tally_files(results).2,
        tally_files(results.take(k)).3 <= tally_files(results).3,
        tally_files(results.take(k)).4 <= tally_files(results).4,
    decreases results.len(),
{
    if k < results.len() {
        assert(results.drop_last().take(k) =~= results.take(k));
        lemma_tally_files_prefix(results.drop_last(), k);
    } else {
        assert(results.take(k) =~= results);
    }
}

/// Shapes read over the files: the sum of each file's counts.
pub open spec fn shapes_read(results: Seq<(bool, ShapeCounts)>) -> int
    decreases results.len(),
{
    if results.len() == 0 {
        0
    } else {
        shapes_read(results.drop_last()) + results.last().1.total()
    }
}

/// The directory totals reconcile as each file's counts do: emitted,
/// dropped, malformed and unknown-class shapes together are all the shapes
/// read.
pub proof fn lemma_directory_totals_reconcile(results: Seq<(bool, ShapeCounts)>)
    ensures
        ({
            let t = tally_files(results);
            t.1 + t.2 + t.3 + t.4 == shapes_read(results)
        }),
    decreases results.len(),
{
    if results.len() > 0 {
        lemma_directory_totals_reconcile(results.drop_last());
    }
}

/// A directory holding one converted file gives that file's counts, so the
/// directory path and the single-file path agree.
pub proof fn lemma_directory_of_one_file(counts: ShapeCounts)
    ensures
        tally_files(seq![(true, counts)]) == (
            1nat,
            counts.emitted as nat,
            counts.dropped as nat,
            counts.malformed as nat,
            counts.unknown_class as nat,
        ),
{
    let one = seq![(true, counts)];
    assert(one.drop_last() =~= Seq::<(bool, ShapeCounts)>::empty());
    assert(tally_files(one.drop_last()) == (0nat, 0nat, 0nat, 0nat, 0nat));
    assert(one.last() == (true, counts));
}

/// The texts of a list of strings.
pub open spec fn texts(v: Seq<String>) -> Seq<Seq<char>> {
    Seq::new(v.len(), |i: int| v[i]@)
}

/// Image extensions tried, in order, when pairing a LabelMe file with its image.
pub open spec fn image_extensions() -> Seq<Seq<char>> {
    seq!["jpg"@, "jpeg"@, "png"@, "bmp"@, "webp"@]
}

/// The first `stem.ext`, for `ext` in `exts` in order, that `images` holds.
pub open spec fn first_present(stem: Seq<char>, images: Seq<Seq<char>>, exts: Seq<Seq<char>>) -> Option<Seq<char>>
    decreases exts.len(),
{
    if exts.len() == 0 {
        None
    } else {
        let candidate = stem + "."@ + exts[0];
        if images.contains(candidate) {
            Some(candidate)
        } else {
            first_present(stem, images, exts.drop_first())
        }
    }
}

/// The image path a LabelMe file named `stem` should record, when it differs
/// from the `current` one.
pub open spec fn image_path_fix_spec(stem: Seq<char>, images: Seq<Seq<char>>, current: Seq<char>) -> Option<Seq<char>> {
    match first_present(stem, images, image_extensions()) {
        Some(c) => if c == current {
            None
        } else {
            Some(c)
        },
        None => None,
    }
}

/// `images` holds a string with the text of `candidate`.
pub fn contains_text(images: &Vec<String>, candidate: &String) -> (r: bool)
    ensures
        r == texts(images@).contains(candidate@),
{
    let mut i: usize = 0;
    while i < images.len()
        invariant
            i <= images@.len(),
            forall|k: int| 0 <= k < i ==> images@[k]@ != candidate@,
        decreases images@.len() - i,
    {
        if images[i] == *candidate {
            proof {
                assert(texts(images@)[i as int] == candidate@);
            }
            return true;
        }
        i += 1;
    }
    proof {
        if texts(images@).contains(candidate@) {
            let k = choose|k: int| 0 <= k < texts(images@).len() && texts(images@)[k] == candidate@;
            assert(images@[k]@ == candidate@);
        }
    }
    false
}

/// Picks the image file name a LabelMe file named `stem` should point at:
/// the first of `stem.jpg`, `stem.jpeg`, `stem.png`, `stem.bmp`, `stem.webp`
/// among `images`. Returns it when it differs from `current`, and `None` when
/// no such image exists or the file already points at it.
pub fn image_path_fix(stem: &str, images: &Vec<String>, current: &str) -> (r: Option<String>)
    ensures
        match r {
            Some(p) => image_path_fix_spec(stem@, texts(images@), current@) == Some(p@),
            None => image_path_fix_spec(stem@, texts(images@), current@) is None,
        },
{
    proof {
        reveal_strlit("jpg");
        reveal_strlit("jpeg");
        reveal_strlit("png");
        reveal_strlit("bmp");
        reveal_strlit("webp");
        reveal_strlit(".");
    }
    let exts: [&str; 5] = ["jpg", "jpeg", "png", "bmp", "webp"];
    let ghost all = image_extensions();
    proof {
        assert(exts@.len() == 5);
        assert(forall|k: int| 0 <= k < 5 ==> exts@[k]@ == all[k]);
        assert(all.skip(0) =~= all);
    }
    let mut k: usize = 0;
    while k < 5
        invariant
            k <= 5,
            all == image_extensions(),
            forall|j: int| 0 <= j < 5 ==> exts@[j]@ == all[j],
            first_present(stem@, texts(images@), all) == first_present(stem@, texts(images@), all.skip(k as int)),
        decreases 5 - k,
    {
        let mut candidate = String::new();
        candidate.append(stem);
        candidate.append(".");
        candidate.append(exts[k]);
        proof {
            let rest = all.skip(k as int);
            assert(rest[0] == all[k as int]);
            assert(rest.drop_first() =~= all.skip(k + 1));
            assert(candidate@ == stem@ + "."@ + rest[0]);
        }
        if contains_text(images, &candidate) {
            if str_equal(candidate.as_str(), current) {
                return None;
            }
            return Some(candidate);
        }
        k += 1;
    }
    None
}

/// Fixing a file's image path settles it: the path a fix records is left as
/// it is when the fix is run again.
pub proof fn lemma_image_path_fix_settles(stem: Seq<char>, images: Seq<Seq<char>>, current: Seq<char>)
    ensures
        image_path_fix_spec(stem, images, current) matches Some(fixed) ==> image_path_fix_spec(stem, images, fixed)
            is None,
{
}

/// The text of a LabelMe file after its image path is fixed, when a fix is
/// due: `None` when the document is not an object or its `imagePath` (the
/// empty text when it has none, or none that is a string) is already the
/// image `image_path_fix_spec` picks for `stem`, or no image is found.
pub open spec fn fixed_labelme_text(text: Seq<char>, stem: Seq<char>, images: Seq<Seq<char>>) -> Option<Seq<char>> {
    let value = serde_json_value(text);
    match json_object_text_field(value, "imagePath"@) {
        None => None,
        Some(field) => {
            let current = match field {
                Some(t) => t,
                None => Seq::<char>::empty(),
            };
            match image_path_fix_spec(stem, images, current) {
                Some(fixed) => Some(json_pretty(json_with_text_field(value, "imagePath"@, fixed))),
                None => None,
            }
        },
    }
}

/// Fixes the image path of a LabelMe file named `stem` given its text: a
/// text serde_json refuses is an error (with the parser's message);
/// otherwise the new text, pretty-printed, when its `imagePath` must change
/// to the first image of `images` named `stem` with a known extension, and
/// `None` when nothing changes.
pub fn fix_image_path_text(text: &str, stem: &str, images: &Vec<String>) -> (r: Result<Option<String>, String>)
    ensures
        r is Ok <==> serde_json_accepts(text@),
        r matches Ok(o) ==> match fixed_labelme_text(text@, stem@, texts(images@)) {
            Some(t) => o matches Some(s) && s@ == t,
            None => o is None,
        },
{
    proof {
        reveal_strlit("");
    }
    let value = match serde_parse(text) {
        Ok(v) => v,
        Err(m) => return Err(m),
    };
    let field = match object_text_field(&value, "imagePath") {
        None => return Ok(None),
        Some(f) => f,
    };
    let current = match field {
        Some(t) => t,
        None => String::new(),
    };
    match image_path_fix(stem, images, current.as_str()) {
        None => Ok(None),
        Some(fixed) => {
            let updated = set_text_field(value, "imagePath", fixed);
            match pretty_text(&updated) {
                Ok(t) => Ok(Some(t)),
                Err(m) => Err(m),
            }
        },
    }
}

} // verus!
