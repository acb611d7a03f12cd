use vision_rust_core::labelme::{
    fix_image_path_text,
    image_path_fix, parse_encoding, plan_annotation, total_conversions, unsupported_encoding_message, ClassMap,
    LabelEncoding, ShapeCounts, ShapeKind, ShapeOutcome, ShapeSummary, ENC_BBOX5, ENC_OBB9,
};

fn shape(label: &str, shape_type: &str, point_count: usize) -> ShapeSummary {
    ShapeSummary { label: label.to_string(), shape_type: shape_type.to_string(), point_count }
}

fn class_map() -> ClassMap {
    ClassMap::from_pairs(vec![("part".to_string(), 0usize), ("hole".to_string(), 1usize)])
}

#[test]
fn unsupported_shapes_are_counted_not_dropped_silently() {
    let shapes = vec![
        shape("part", "rectangle", 2),
        shape("part", "circle", 2),
        shape("part", "polygon", 2),
        shape("ghost", "rectangle", 2),
    ];
    let (outcomes, counts) = plan_annotation(&shapes, &class_map());
    let ShapeCounts { emitted, dropped, malformed, unknown_class: unknown } = counts;
    assert_eq!(dropped, 1, "the circle must be reported");
    assert_eq!(malformed, 1, "the 2-point polygon is an error, not a report");
    assert_eq!(unknown, 1, "the unmapped label is counted separately");
    assert_eq!(emitted, 1);
    let lines = outcomes.iter().filter(|o| matches!(o, ShapeOutcome::Emit { .. })).count();
    assert_eq!(lines, 1);
    // read == emitted + dropped + malformed + unknown_class, always
    assert_eq!(4, emitted + dropped + malformed + unknown);
}

#[test]
fn an_unknown_encoding_is_rejected() {
    assert_eq!(parse_encoding("pose5+3k"), None);
    let msg = unsupported_encoding_message("pose5+3k");
    assert!(msg.contains("pose5+3k"), "{msg}");
    assert!(msg.contains("obb9"), "{msg}");
}

#[test]
fn unknown_encoding_message_is_exact() {
    assert_eq!(
        unsupported_encoding_message("pose5+3k"),
        "unsupported label encoding \"pose5+3k\"; this converter emits \"bbox5\" or \"obb9\""
    );
}

#[test]
fn known_encodings_parse() {
    assert_eq!(parse_encoding(ENC_BBOX5), Some(LabelEncoding::Bbox5));
    assert_eq!(parse_encoding(ENC_OBB9), Some(LabelEncoding::Obb9));
    assert_eq!(parse_encoding("BBOX5"), None);
    assert_eq!(parse_encoding(""), None);
}

#[test]
fn golden_fixture_shapes_are_all_emitted() {
    let shapes = vec![shape("part", "rectangle", 2), shape("hole", "polygon", 4)];
    let (outcomes, counts) = plan_annotation(&shapes, &class_map());
    assert_eq!(
        outcomes,
        vec![
            ShapeOutcome::Emit { class_idx: 0, kind: ShapeKind::Rectangle },
            ShapeOutcome::Emit { class_idx: 1, kind: ShapeKind::Polygon },
        ]
    );
    assert_eq!(counts, ShapeCounts { emitted: 2, dropped: 0, malformed: 0, unknown_class: 0 });
}

#[test]
fn short_rectangles_are_malformed_and_extra_points_are_fine() {
    let shapes = vec![shape("part", "rectangle", 1), shape("part", "rectangle", 5), shape("hole", "polygon", 3)];
    let (outcomes, _) = plan_annotation(&shapes, &class_map());
    assert_eq!(outcomes[0], ShapeOutcome::Malformed);
    assert_eq!(outcomes[1], ShapeOutcome::Emit { class_idx: 0, kind: ShapeKind::Rectangle });
    assert_eq!(outcomes[2], ShapeOutcome::Emit { class_idx: 1, kind: ShapeKind::Polygon });
}

#[test]
fn unknown_class_wins_over_shape_checks() {
    let shapes = vec![shape("ghost", "circle", 0)];
    let (outcomes, counts) = plan_annotation(&shapes, &class_map());
    assert_eq!(outcomes, vec![ShapeOutcome::UnknownClass]);
    assert_eq!(counts.unknown_class, 1);
}

#[test]
fn class_list_gives_the_last_index_of_a_repeated_name() {
    let names = vec!["a".to_string(), "b".to_string(), "a".to_string()];
    let classes = ClassMap::from_class_list(&names);
    assert_eq!(classes.lookup("a"), Some(2));
    assert_eq!(classes.lookup("b"), Some(1));
    assert_eq!(classes.lookup("c"), None);
}

#[test]
fn directory_totals_sum_the_files() {
    let results = vec![
        (true, ShapeCounts { emitted: 2, dropped: 0, malformed: 1, unknown_class: 0 }),
        (false, ShapeCounts::default()),
        (true, ShapeCounts { emitted: 1, dropped: 3, malformed: 0, unknown_class: 4 }),
    ];
    let (files, totals) = total_conversions(&results);
    assert_eq!(files, 2);
    assert_eq!(totals, ShapeCounts { emitted: 3, dropped: 3, malformed: 1, unknown_class: 4 });
}

#[test]
fn counts_add_bucket_by_bucket() {
    let mut a = ShapeCounts { emitted: 1, dropped: 2, malformed: 3, unknown_class: 4 };
    a.add(ShapeCounts { emitted: 10, dropped: 20, malformed: 30, unknown_class: 40 });
    assert_eq!(a, ShapeCounts { emitted: 11, dropped: 22, malformed: 33, unknown_class: 44 });
}

#[test]
fn image_path_fix_prefers_the_first_extension_present() {
    let images = vec!["a.png".to_string(), "a.jpeg".to_string(), "b.webp".to_string()];
    assert_eq!(image_path_fix("a", &images, "old.jpg"), Some("a.jpeg".to_string()));
    assert_eq!(image_path_fix("a", &images, "a.jpeg"), None);
    assert_eq!(image_path_fix("b", &images, ""), Some("b.webp".to_string()));
    assert_eq!(image_path_fix("c", &images, ""), None);
}

#[test]
fn directory_totals_reconcile_with_the_shapes_read() {
    let classes = class_map();
    let first = vec![shape("part", "rectangle", 2), shape("part", "circle", 2), shape("ghost", "polygon", 3)];
    let second = vec![shape("hole", "polygon", 2), shape("hole", "polygon", 4)];
    let (_, c1) = plan_annotation(&first, &classes);
    let (_, c2) = plan_annotation(&second, &classes);
    let (files, t) = total_conversions(&vec![(true, c1), (true, c2)]);
    assert_eq!(files, 2);
    assert_eq!(t.emitted + t.dropped + t.malformed + t.unknown_class, first.len() + second.len());
}

#[test]
fn a_directory_of_one_file_gives_that_files_counts() {
    let (_, counts) = plan_annotation(&vec![shape("part", "rectangle", 2), shape("hole", "polygon", 3)], &class_map());
    assert_eq!(total_conversions(&vec![(true, counts)]), (1, counts));
    assert_eq!(counts, ShapeCounts { emitted: 2, dropped: 0, malformed: 0, unknown_class: 0 });
}

#[test]
fn a_fixed_image_path_stays_fixed() {
    let images = vec!["scan.bmp".to_string(), "scan.webp".to_string()];
    let fixed = image_path_fix("scan", &images, "scan.tif").unwrap();
    assert_eq!(fixed, "scan.bmp");
    assert_eq!(image_path_fix("scan", &images, &fixed), None);
}

#[test]
fn unknown_class_counts_the_labels_the_map_lacks() {
    let shapes = vec![
        shape("ghost", "rectangle", 2),
        shape("part", "rectangle", 2),
        shape("ghost", "circle", 2),
        shape("spirit", "polygon", 1),
        shape("hole", "polygon", 1),
    ];
    let (_, counts) = plan_annotation(&shapes, &class_map());
    assert_eq!(counts.unknown_class, 3);
    assert_eq!(counts.emitted + counts.dropped + counts.malformed, 2);
}

#[test]
fn an_image_path_is_fixed_in_the_document_text() {
    let images = vec!["scan.png".to_string(), "scan.jpeg".to_string()];
    let text = r#"{"imagePath": "old/scan.tif", "shapes": [], "imageWidth": 4}"#;
    let fixed = fix_image_path_text(text, "scan", &images).unwrap().unwrap();
    let value: serde_json::Value = serde_json::from_str(&fixed).unwrap();
    assert_eq!(value["imagePath"], "scan.jpeg");
    assert_eq!(value["imageWidth"], 4);
    assert!(fixed.contains('\n'));
    assert_eq!(fix_image_path_text(&fixed, "scan", &images).unwrap(), None);
}

#[test]
fn a_missing_image_path_is_added_and_other_documents_are_left_alone() {
    let images = vec!["a.jpg".to_string()];
    let fixed = fix_image_path_text(r#"{"imagePath": 7}"#, "a", &images).unwrap().unwrap();
    assert_eq!(fixed, "{\n  \"imagePath\": \"a.jpg\"\n}");
    let added = fix_image_path_text("{}", "a", &images).unwrap().unwrap();
    assert_eq!(added, "{\n  \"imagePath\": \"a.jpg\"\n}");
    assert_eq!(fix_image_path_text("[1, 2]", "a", &images).unwrap(), None);
    assert_eq!(fix_image_path_text(r#"{"imagePath": "x.jpg"}"#, "b", &images).unwrap(), None);
    assert!(fix_image_path_text("{not json", "a", &images).is_err());
}
