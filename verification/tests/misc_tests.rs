use vision_rust_core::coco::{group_by_image, plan_coco_to_labelme, CocoAnnotationRef, CocoCategoryRef};
use vision_rust_core::download::{next_action, DownloadAction, DownloadEvent, DownloadStep};
use vision_rust_core::walk::{
    count_by_extension_keys, dir_within_depth, extension_matches, json_extensions, shared_image_extensions,
    total_size, training_image_extensions,
};

fn strings(v: &[&str]) -> Vec<String> {
    v.iter().map(|s| s.to_string()).collect()
}

#[test]
fn test_find_images() {
    let names = [("test1", Some("jpg")), ("test2", Some("png")), ("test3", Some("txt"))];
    let exts = strings(&["jpg", "png"]);
    let images: Vec<_> = names.iter().filter(|(_, e)| extension_matches(*e, &exts)).collect();
    assert_eq!(images.len(), 2);
}

#[test]
fn extension_filter_ignores_ascii_case() {
    let exts = strings(&["JPG"]);
    assert!(extension_matches(Some("jpg"), &exts));
    assert!(extension_matches(Some("Jpg"), &exts));
    assert!(!extension_matches(Some("jpeg"), &exts));
    assert!(!extension_matches(None, &exts));
    assert!(extension_matches(None, &Vec::new()));
}

#[test]
fn extension_lists() {
    assert_eq!(shared_image_extensions(), strings(&["jpg", "jpeg", "png", "bmp", "webp", "tiff"]));
    assert_eq!(training_image_extensions(), strings(&["jpg", "jpeg", "png", "bmp", "webp", "tiff", "tif"]));
    assert_eq!(json_extensions(), strings(&["json"]));
}

#[test]
fn depth_limit() {
    assert!(dir_within_depth(0, Some(0)));
    assert!(!dir_within_depth(1, Some(0)));
    assert!(dir_within_depth(99, None));
}

#[test]
fn extension_counts() {
    let exts = vec![Some("JPG".to_string()), None, Some("jpg".to_string()), Some("Png".to_string()), None];
    let counts = count_by_extension_keys(&exts);
    assert_eq!(counts, vec![("jpg".to_string(), 2), ("no_extension".to_string(), 2), ("png".to_string(), 1)]);
}

#[test]
fn sizes_add_up() {
    assert_eq!(total_size(&vec![1, 2, 3]), 6);
    assert_eq!(total_size(&vec![]), 0);
}

#[test]
fn coco_annotations_regroup_by_image() {
    let images = vec![1, 2, 3];
    let anns = vec![
        CocoAnnotationRef { image_id: 2, category_id: 7, bbox_len: 4 },
        CocoAnnotationRef { image_id: 1, category_id: 5, bbox_len: 4 },
        CocoAnnotationRef { image_id: 2, category_id: 9, bbox_len: 4 },
        CocoAnnotationRef { image_id: 2, category_id: 5, bbox_len: 3 },
        CocoAnnotationRef { image_id: 4, category_id: 5, bbox_len: 4 },
    ];
    let cats = vec![
        CocoCategoryRef { id: 5, name: "defect".to_string() },
        CocoCategoryRef { id: 7, name: "scratch".to_string() },
        CocoCategoryRef { id: 5, name: "dent".to_string() },
    ];
    let plan = plan_coco_to_labelme(&images, &anns, &cats);
    assert_eq!(plan.len(), 3);
    let view: Vec<Vec<(usize, String)>> =
        plan.iter().map(|s| s.iter().map(|p| (p.annotation, p.label.clone())).collect()).collect();
    assert_eq!(view[0], vec![(1, "dent".to_string())]);
    assert_eq!(view[1], vec![(0, "scratch".to_string()), (2, "unknown".to_string())]);
    assert!(view[2].is_empty());
}

#[test]
fn download_steps_in_order() {
    let url = "http://example.com/a.jpg";
    let expect = |e: DownloadEvent, s: DownloadStep| match next_action(e, url) {
        DownloadAction::Perform(step) => assert_eq!(step, s),
        other => panic!("unexpected {other:?}"),
    };
    expect(DownloadEvent::Started { has_parent: true }, DownloadStep::CreateParentDir);
    expect(DownloadEvent::Started { has_parent: false }, DownloadStep::SendRequest);
    expect(DownloadEvent::DirCreated, DownloadStep::SendRequest);
    expect(DownloadEvent::Responded { status: 200, status_text: "200 OK".to_string() }, DownloadStep::ReadBody);
    expect(DownloadEvent::BodyRead, DownloadStep::CreateFile);
    expect(DownloadEvent::FileCreated, DownloadStep::WriteFile);
    assert!(matches!(next_action(DownloadEvent::Written, url), DownloadAction::Succeed));
}

#[test]
fn download_failures_name_what_failed() {
    let url = "http://example.com/a.jpg";
    let fail = |e: DownloadEvent| match next_action(e, url) {
        DownloadAction::Fail(m) => m,
        other => panic!("unexpected {other:?}"),
    };
    assert_eq!(
        fail(DownloadEvent::Responded { status: 404, status_text: "404 Not Found".to_string() }),
        "HTTP 404 Not Found: http://example.com/a.jpg"
    );
    assert_eq!(fail(DownloadEvent::DirFailed("denied".to_string())), "Failed to create directory: denied");
    assert_eq!(fail(DownloadEvent::RequestFailed("timeout".to_string())), "Request failed: timeout");
    assert_eq!(fail(DownloadEvent::BodyFailed("eof".to_string())), "Failed to read response: eof");
    assert_eq!(fail(DownloadEvent::FileFailed("busy".to_string())), "Failed to create file: busy");
    assert_eq!(fail(DownloadEvent::WriteFailed("full".to_string())), "Failed to write file: full");
}

#[test]
fn extension_counts_add_up_to_the_files() {
    let exts = vec![
        Some("JPG".to_string()),
        None,
        Some("jpg".to_string()),
        Some("Png".to_string()),
        None,
        Some("tar".to_string()),
    ];
    let counts = count_by_extension_keys(&exts);
    assert_eq!(counts.iter().map(|(_, c)| c).sum::<usize>(), exts.len());
    assert_eq!(counts.len(), 4);
}

#[test]
fn annotations_group_by_image_in_order_of_first_sight() {
    let groups = group_by_image(&vec![7, 3, 7, 9, 3, 7]);
    assert_eq!(groups, vec![(7, vec![0, 2, 5]), (3, vec![1, 4]), (9, vec![3])]);
    assert!(group_by_image(&vec![]).is_empty());
}

#[test]
fn no_files_give_no_extension_keys() {
    assert!(count_by_extension_keys(&Vec::new()).is_empty());
    let counts = count_by_extension_keys(&vec![None]);
    assert_eq!(counts, vec![("no_extension".to_string(), 1)]);
}
