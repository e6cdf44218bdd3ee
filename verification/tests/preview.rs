use texforge::commands::preview::{out_dir, page_indexes, page_name};
use texforge::raster::{ink_coverage, make_solid, out_of_range};

#[test]
fn preview_out_of_range_page_errors() {
    let err = page_indexes("/p/preview-doc.pdf", Some(9), 2).unwrap_err();
    assert!(err.contains("out of range"));
    assert_eq!(err, "--page 9 is out of range (document has 2 pages)");
    assert!(page_indexes("/p/preview-doc.pdf", Some(0), 2).is_err());
    assert_eq!(
        page_indexes("/p/preview-doc.pdf", None, 0),
        Err("/p/preview-doc.pdf has no pages".to_string())
    );
}

#[test]
fn writes_pngs_for_all_pages() {
    let pages = page_indexes("/p/x.pdf", None, 2).unwrap();
    let names: Vec<String> = pages.iter().map(|i| page_name(*i, 2)).collect();
    assert_eq!(names, vec!["page-1.png", "page-2.png"]);
}

#[test]
fn single_page_flag_limits_output() {
    let pages = page_indexes("/p/x.pdf", Some(1), 2).unwrap();
    assert_eq!(pages, vec![0]);
}

#[test]
fn custom_out_dir_is_used() {
    assert_eq!(out_dir("/p", Some("/tmp/renders")), "/tmp/renders");
    assert_eq!(out_dir("/p", Some("renders")), "/p/renders");
    assert_eq!(out_dir("/p", None), "/p/preview");
}

#[test]
fn names_are_padded_to_sort_as_pages_do() {
    assert_eq!(page_name(0, 120), "page-001.png");
    assert_eq!(page_name(119, 120), "page-120.png");
    assert_eq!(page_name(8, 9), "page-9.png");
}

#[test]
fn raster_out_of_range_page_errors() {
    assert!(out_of_range(5, 2).contains("page 6 does not exist"));
}

#[test]
fn ink_coverage_distinguishes_blank_from_inked() {
    // The left half of each row is black.
    let row: Vec<u8> = [[0u8, 0, 0, 255], [0, 0, 0, 255], [255, 255, 255, 255], [255, 255, 255, 255]]
        .concat();
    let half = ink_coverage(&row.repeat(10));
    assert_eq!(half.pixels, 40);
    let share = half.ink as f64 / (255.0 * half.pixels as f64);
    assert!((share - 0.5).abs() < 0.02, "left-half fill should be ~50%, got {share}");
    let blank = ink_coverage(&[255; 400]);
    assert_eq!(blank.ink, 0);
    assert_eq!(ink_coverage(&[0, 0, 0, 255, 9, 9]).pixels, 1);
    assert_eq!(ink_coverage(&[10, 20, 31, 255]).ink, 235);
}

#[test]
fn fixture_renders_two_pages_with_opaque_alpha() {
    let mut rgba: Vec<u8> = vec![1, 2, 3, 0, 4, 5, 6, 7, 8];
    make_solid(&mut rgba);
    assert_eq!(rgba, vec![1, 2, 3, 255, 4, 5, 6, 255, 8]);
}
