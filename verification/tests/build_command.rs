use texforge::commands::build::{
    build_header, check_preview_page, compiled_pdf, entry_filename, is_relevant, pdf_name, pdf_path,
    preview_index, preview_temp_path, resolve_epoch, resolve_preview_path, session_time, status,
    watch_header, Watch, COOLDOWN,
};
use texforge::compiler;
use texforge::domain::project::Reproducible;

#[test]
fn flag_without_value_wins_with_default_epoch() {
    assert_eq!(
        resolve_epoch(Some(None), Some(Reproducible::Epoch(123))),
        Some(compiler::DEFAULT_EPOCH)
    );
}

#[test]
fn flag_with_value_wins_over_config() {
    assert_eq!(
        resolve_epoch(Some(Some(123)), Some(Reproducible::Enabled(true))),
        Some(123)
    );
}

#[test]
fn config_enabled_uses_default_epoch() {
    assert_eq!(
        resolve_epoch(None, Some(Reproducible::Enabled(true))),
        Some(compiler::DEFAULT_EPOCH)
    );
}

#[test]
fn config_explicit_epoch_used_when_no_flag() {
    assert_eq!(
        resolve_epoch(None, Some(Reproducible::Epoch(1700000000))),
        Some(1700000000)
    );
}

#[test]
fn config_disabled_or_absent_is_off() {
    assert_eq!(
        resolve_epoch(None, Some(Reproducible::Enabled(false))),
        None
    );
    assert_eq!(resolve_epoch(None, None), None);
}

#[test]
fn resolve_preview_path_defaults_and_joins_relative() {
    let root = "/proj";
    assert_eq!(
        resolve_preview_path(root, None),
        "/proj/preview.png"
    );
    assert_eq!(
        resolve_preview_path(root, Some("out/live.png")),
        "/proj/out/live.png"
    );
    assert_eq!(
        resolve_preview_path(root, Some("/abs/preview.png")),
        "/abs/preview.png"
    );
}

#[test]
fn out_of_range_preview_page_errors_without_touching_target() {
    let err = preview_index(9, 2).unwrap_err();
    assert_eq!(err, "--preview-page 9 is out of range (document has 2 pages)");
    assert!(err.contains("out of range"));
    assert_eq!(preview_index(0, 2), Err("--preview-page must be at least 1".to_string()));
    assert!(check_preview_page(0).is_err());
    assert!(check_preview_page(1).is_ok());
    assert_eq!(preview_index(2, 2), Ok(1));
    assert_eq!(preview_temp_path("/p/preview.png"), "/p/preview.png.tmp");
}

#[test]
fn the_pdf_is_named_after_the_title() {
    assert_eq!(pdf_name("My Thesis: Final"), "my-thesis-final.pdf");
    assert_eq!(pdf_path("/p", "T"), "/p/t.pdf");
    assert_eq!(entry_filename("src/main.tex"), "main.tex");
    assert_eq!(entry_filename(".."), "..");
    assert_eq!(compiled_pdf("/b", "src/main.tex"), Some("/b/main.pdf".to_string()));
    assert_eq!(compiled_pdf("/b", ".."), None);
}

#[test]
fn the_headers_say_what_is_built() {
    assert_eq!(
        build_header("T", Some(1), "/b"),
        "Building project: T\n  ◇ reproducible build (SOURCE_DATE_EPOCH pinned)\n  ◇ temp: /b\n"
    );
    assert_eq!(build_header("T", None, "/b"), "Building project: T\n  ◇ temp: /b\n");
    let header = watch_header("T", 2, Some("/p/preview.png"));
    assert!(header.starts_with("\x1B[2J\x1B[H\n "));
    assert!(header.contains("  T — watching  (2s debounce  Ctrl+C to stop)\n"));
    assert!(header.ends_with("  live preview → /p/preview.png\n"));
}

#[test]
fn the_status_shows_time_and_result() {
    assert_eq!(session_time(3723), "01:02:03");
    assert_eq!(session_time(360_000), "100:00:00");
    let ok = status(&Ok("t.pdf".to_string()), 3, 61);
    assert_eq!(
        ok,
        "\x1B[15;0H\x1B[J\n  session  \x1B[36m00:01:01\x1B[0m   builds  \x1B[36m3\x1B[0m\n\n  \x1B[32mt.pdf  ok\x1B[0m\n"
    );
    let err = status(&Err("a\nb".to_string()), 1, 0);
    assert!(err.ends_with("  \x1B[31merror:\x1B[0m\n    a\n    b\n"));
}

#[test]
fn only_sources_outside_the_build_directory_count() {
    let changed = |paths: &[&str]| -> Vec<String> { paths.iter().map(|p| p.to_string()).collect() };
    assert!(is_relevant(&changed(&["/p/a.png", "/p/ch/a.tex"]), "/b"));
    assert!(!is_relevant(&changed(&["/b/a.tex"]), "/b"));
    assert!(!is_relevant(&changed(&["/p/a.bib"]), "/b"));
    assert!(!is_relevant(&Vec::new(), "/b"));
}

const SECOND: u128 = 1_000_000_000;

#[test]
fn a_build_waits_until_sources_are_quiet() {
    let mut w = Watch::new(2, 0);
    assert!(!w.begin(100 * SECOND), "nothing has changed");
    w.notice(true, 10 * SECOND);
    assert!(!w.begin(11 * SECOND));
    w.notice(true, 11 * SECOND);
    assert!(!w.begin(12 * SECOND), "the second change starts the wait anew");
    assert!(w.begin(13 * SECOND));
    assert_eq!(w.builds, 2);
    assert!(!w.begin(20 * SECOND), "one build answers both changes");
}

#[test]
fn a_build_does_not_cause_a_build() {
    let mut w = Watch::new(0, 0);
    w.notice(true, 10 * SECOND);
    assert!(w.begin(10 * SECOND));
    w.built(12 * SECOND);
    w.notice(true, 12 * SECOND + COOLDOWN);
    assert!(!w.pending);
    w.notice(false, 60 * SECOND);
    assert!(!w.pending);
    w.notice(true, 12 * SECOND + COOLDOWN + 1);
    assert!(w.pending);
}

#[test]
fn the_state_is_shown_once_a_second() {
    let mut w = Watch::new(2, 0);
    assert!(!w.tick(SECOND - 1));
    assert!(w.tick(SECOND));
    assert!(!w.tick(SECOND + 5));
    assert!(w.tick(3 * SECOND));
}
