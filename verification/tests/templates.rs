use std::io::Write;

use texforge::commands::template::{available_text, installed_text, validate};
use texforge::templates::{
    download, embedded_general, is_stale, list_cached, list_remote, load_dir_recursive, refresh,
    remove_cached, resolve, resolve_step, template_path, Cached, FileMap, RefreshEnd,
    RegistryEntry, Resolution, ResolveStep, ResolvedTemplate, CACHE_META_FILE, CACHE_TTL_SECS,
};

fn text(name: &str, content: &str) -> (String, Vec<u8>) {
    (name.to_string(), content.as_bytes().to_vec())
}

/// What a template resolves to, given its cache and how a download goes.
fn resolved(name: &str, cached: Cached, now: u64, downloaded: Result<(), String>) -> Resolution {
    resolve(name, resolve_step(cached, now), downloaded)
}

/// A registry as a gzipped tar archive.
fn registry(files: &[(&str, &str)]) -> Vec<u8> {
    let mut builder = tar::Builder::new(flate2::write::GzEncoder::new(
        Vec::new(),
        flate2::Compression::default(),
    ));
    for (path, content) in files {
        let mut header = tar::Header::new_gnu();
        header.set_size(content.len() as u64);
        header.set_mode(0o644);
        header.set_cksum();
        builder.append_data(&mut header, path, content.as_bytes()).unwrap();
    }
    let mut gz = builder.into_inner().unwrap();
    gz.flush().unwrap();
    gz.finish().unwrap()
}

#[test]
fn embedded_general_has_required_files() {
    let t = embedded_general();
    assert!(t.files.contains_key("template.toml"));
    assert!(t.files.contains_key("main.tex"));
    assert!(t.files.contains_key("sections/body.tex"));
    assert!(t.files.contains_key("bib/references.bib"));
}

#[test]
fn embedded_general_main_tex_is_valid_utf8() {
    let t = embedded_general();
    let main = t.files.get("main.tex").unwrap();
    let text = std::str::from_utf8(main).expect("main.tex should be valid UTF-8");
    assert!(text.contains("\\documentclass"));
}

#[test]
fn embedded_general_template_toml_is_valid_toml() {
    let t = embedded_general();
    let toml_bytes = t.files.get("template.toml").unwrap();
    let text = std::str::from_utf8(toml_bytes).unwrap();
    let parsed: toml::Value = toml::from_str(text).expect("template.toml should be valid TOML");
    assert!(parsed.is_table());
}

#[test]
fn embedded_general_body_tex_not_empty() {
    let t = embedded_general();
    let body = t.files.get("sections/body.tex").unwrap();
    assert!(!body.is_empty());
}

#[test]
fn embedded_general_references_bib_not_empty() {
    let t = embedded_general();
    let bib = t.files.get("bib/references.bib").unwrap();
    assert!(!bib.is_empty());
}

#[test]
fn resolve_general_returns_embedded() {
    let t = embedded_general();
    assert!(t.files.contains_key("main.tex"));
}

#[test]
fn embedded_files_count_is_four() {
    let t = embedded_general();
    assert_eq!(t.files.len(), 4);
}

#[test]
fn embedded_general_toml_content_is_nonempty() {
    let t = embedded_general();
    let toml = t.files.get("template.toml").unwrap();
    assert!(!toml.is_empty());
    let text = std::str::from_utf8(toml).unwrap();
    assert!(text.contains("template"));
}

#[test]
fn list_cached_returns_vec() {
    assert_eq!(list_cached(&Vec::new()), Vec::<String>::new());
}

#[test]
fn list_cached_empty_when_no_templates() {
    assert!(list_cached(&Vec::new()).is_empty());
}

#[test]
fn list_cached_nonexistent_dir_returns_empty() {
    assert!(list_cached(&Vec::new()).is_empty());
}

#[test]
fn list_cached_returns_installed() {
    let dirs = vec!["thesis".to_string()];
    assert_eq!(list_cached(&dirs), vec!["thesis"]);
}

#[test]
fn list_cached_finds_cached_templates() {
    let dirs = vec!["thesis".to_string(), "article".to_string(), "cv".to_string()];
    let result = list_cached(&dirs);
    assert_eq!(result.len(), 3);
    for w in result.windows(2) {
        assert!(w[0] <= w[1]);
    }
}

#[test]
fn remove_cached_nonexistent_fails() {
    assert!(remove_cached("definitely-not-cached-xyz-123", false).is_err());
}

#[test]
fn remove_nonexistent_template_errors() {
    assert_eq!(
        remove_cached("definitely-not-cached-xyz", false),
        Err("Template 'definitely-not-cached-xyz' is not installed".to_string())
    );
}

#[test]
fn remove_cached_removes_existing() {
    assert!(remove_cached("__test_remove_temp__", true).is_ok());
}

#[test]
fn resolve_unknown_template_errors() {
    let result =
        resolved("nonexistent-template-xyz-123", Cached::Nothing, 10, Err("offline".to_string()));
    match result {
        Resolution::Missing(msg) => {
            assert!(msg.contains("not found"));
            assert!(msg.contains("nonexistent-template-xyz-123"));
        }
        other => panic!("resolved to {other:?}"),
    }
}

#[test]
fn validate_unknown_template_errors() {
    let result =
        resolved("definitely-not-a-template-xyz", Cached::Nothing, 10, Err("offline".to_string()));
    assert!(matches!(result, Resolution::Missing(_)));
}

#[test]
fn validate_general_template() {
    let result = resolved("general", Cached::Nothing, 10, Err("offline".to_string()));
    assert!(matches!(result, Resolution::Embedded));
    let out = validate("general", &embedded_general()).unwrap();
    assert_eq!(out, "  ◇ Template 'general' is valid\n");
}

#[test]
fn validate_general_has_all_required_files() {
    let files = embedded_general().files;
    assert!(files.contains_key("template.toml"));
    assert!(files.contains_key("main.tex"));
}

#[test]
fn a_template_without_its_manifest_is_not_valid() {
    let template = ResolvedTemplate { files: FileMap::new() };
    assert_eq!(
        validate("bare", &template),
        Err("Template 'bare' is missing template.toml".to_string())
    );
}

#[test]
fn load_dir_recursive_with_files() {
    let result = load_dir_recursive(vec![
        text("main.tex", "\\documentclass{article}"),
        text("sections/body.tex", "Hello"),
        text("refs.bib", "@misc{a}"),
    ]);
    assert!(result.files.contains_key("main.tex"));
    assert!(result.files.contains_key("sections/body.tex"));
    assert!(result.files.contains_key("refs.bib"));
    assert_eq!(result.files.len(), 3);
}

#[test]
fn load_dir_recursive_empty_dir() {
    assert!(load_dir_recursive(Vec::new()).files.is_empty());
}

#[test]
fn load_dir_recursive_file_contents_match() {
    let result = load_dir_recursive(vec![text("a.tex", "content_a")]);
    assert_eq!(result.files.get("a.tex").unwrap(), b"content_a");
}

#[test]
fn load_dir_recursive_skips_cache_meta_file() {
    let result = load_dir_recursive(vec![text("main.tex", "content"), text(CACHE_META_FILE, "{}")]);
    assert!(result.files.contains_key("main.tex"));
    assert!(!result.files.contains_key(CACHE_META_FILE));
    assert_eq!(result.files.len(), 1);
}

const NOW: u64 = 1_700_000_000;

#[test]
fn is_stale_returns_false_for_fresh_entry() {
    assert!(!is_stale(Some(NOW), NOW));
    assert!(!is_stale(Some(NOW - CACHE_TTL_SECS / 2), NOW));
}

#[test]
fn is_stale_returns_true_for_old_entry() {
    assert!(is_stale(Some(NOW - CACHE_TTL_SECS - 1), NOW));
    assert!(is_stale(Some(0), NOW));
}

#[test]
fn is_stale_returns_true_when_no_metadata() {
    assert!(is_stale(None, NOW));
}

#[test]
fn fresh_cache_served_without_network() {
    assert_eq!(resolve_step(Cached::FetchedAt(NOW), NOW), ResolveStep::UseCached);
    let result = resolved("t", Cached::FetchedAt(NOW), NOW, Err("no network".to_string()));
    assert!(matches!(result, Resolution::Cached(None)));
}

#[test]
fn stale_cache_falls_back_when_refresh_fails() {
    let result = resolved("t", Cached::FetchedAt(0), NOW, Err("no network".to_string()));
    match result {
        Resolution::Cached(Some(m)) => assert_eq!(
            m,
            "texforge: could not refresh template 't' (no network); using cached copy"
        ),
        other => panic!("resolved to {other:?}"),
    }
}

#[test]
fn cache_without_meta_is_treated_as_stale() {
    assert_eq!(resolve_step(Cached::Undated, NOW), ResolveStep::Refresh);
    let result = resolved("t", Cached::Undated, NOW, Err("no network".to_string()));
    assert!(matches!(result, Resolution::Cached(Some(_))));
}

#[test]
fn embedded_fallback_works_when_no_cache() {
    let result = resolved("general", Cached::Nothing, NOW, Err("no network".to_string()));
    assert!(matches!(result, Resolution::Embedded));
}

#[test]
fn stale_cache_refresh_returns_fresh_content() {
    let result = resolved("t", Cached::FetchedAt(0), NOW, Ok(()));
    assert!(matches!(result, Resolution::Downloaded));
}

#[test]
fn refresh_bypasses_ttl_on_fresh_entry() {
    // A forced refresh does not ask how old the cached copy is.
    assert!(matches!(refresh("t", true, Ok(())), RefreshEnd::Done));
}

#[test]
fn a_failed_refresh_keeps_the_cached_copy() {
    match refresh("t", true, Err("no network".to_string())) {
        RefreshEnd::Kept(m) => assert_eq!(
            m,
            "texforge: could not refresh template 't' (no network); keeping cached copy"
        ),
        other => panic!("ended with {other:?}"),
    }
    match refresh("t", false, Err("no network".to_string())) {
        RefreshEnd::Failed(m) => assert_eq!(m, "no network"),
        other => panic!("ended with {other:?}"),
    }
}

#[test]
fn a_template_is_taken_out_of_the_registry() {
    let bytes = registry(&[
        ("reg-main/README.md", "x"),
        ("reg-main/cv/main.tex", "cv main"),
        ("reg-main/thesis/main.tex", "thesis main"),
        ("reg-main/thesis/sections/a.tex", "a"),
    ]);
    let d = download(&bytes, "thesis");
    assert_eq!(d.fault, None);
    assert_eq!(d.files.len(), 2);
    assert_eq!(d.files.get("main.tex").unwrap(), b"thesis main");
    assert_eq!(d.files.get("sections/a.tex").unwrap(), b"a");
}

#[test]
fn a_template_that_the_registry_lacks_is_a_fault() {
    let bytes = registry(&[("reg-main/cv/main.tex", "cv main")]);
    let d = download(&bytes, "thesis");
    assert!(d.files.is_empty());
    assert!(d.fault.unwrap().contains("thesis"));
    assert!(download(b"not an archive", "thesis").fault.is_some());
}

#[test]
fn only_files_of_the_template_belong_to_it() {
    assert_eq!(template_path("top/cv/a/b.tex", false, "cv"), Some("a/b.tex".to_string()));
    assert_eq!(template_path("top/cv/a/", true, "cv"), None);
    assert_eq!(template_path("top/cv2/a.tex", false, "cv"), None);
    assert_eq!(template_path("cv", false, "cv"), None);
}

#[test]
fn the_registry_lists_directories_in_order() {
    let entry = |name: &str, kind: &str| RegistryEntry {
        name: name.to_string(),
        kind: kind.to_string(),
    };
    let entries = vec![entry("thesis", "dir"), entry("README.md", "file"), entry("cv", "dir")];
    assert_eq!(list_remote(&entries), vec!["cv", "thesis"]);
}

#[test]
fn list_local_only() {
    assert_eq!(installed_text(&Vec::new()), "Installed:\n  - general (built-in)\n");
    assert_eq!(
        installed_text(&vec!["cv".to_string()]),
        "Installed:\n  - general (built-in)\n  - cv\n"
    );
}

#[test]
fn installed_templates_are_not_offered() {
    let remote =
        Ok(vec!["general".to_string(), "cv".to_string(), "thesis".to_string()]);
    let cached = vec!["cv".to_string()];
    assert_eq!(
        available_text(&remote, &cached),
        "Available (not installed):\n  - thesis\n\nRun 'texforge template add <name>' to install.\n"
    );
    let none = Ok(vec!["general".to_string()]);
    assert!(available_text(&none, &cached).starts_with("Available (not installed): none\n"));
    let failed = Err("timeout".to_string());
    assert_eq!(available_text(&failed, &cached), "\nCould not reach registry: timeout\n");
}

#[test]
fn a_later_file_takes_the_place_of_an_earlier_one() {
    let mut files = FileMap::new();
    files.insert("a".to_string(), vec![1]);
    files.insert("b".to_string(), vec![2]);
    files.insert("a".to_string(), vec![3]);
    assert_eq!(files.len(), 2);
    assert_eq!(files.get("a").unwrap(), &vec![3]);
    assert_eq!(files.path(0), "a");
    assert_eq!(files.content(1), &vec![2]);
}

#[test]
fn load_from_cache_nonexistent_errors() {
    let result =
        resolved("no-such-template-xyz-abc", Cached::Nothing, NOW, Err("offline".to_string()));
    assert!(matches!(result, Resolution::Missing(_)));
}

#[test]
fn the_files_of_a_template_stand_under_its_name() {
    let entry = |path: &str, is_dir: bool| texforge::archives::ListedEntry {
        path: path.to_string(),
        tag: if is_dir { texforge::archives::DIRECTORY } else { texforge::archives::FILE },
        link: None,
        is_old: false,
    };
    let listing = texforge::archives::Listing {
        entries: vec![
            entry("root/", true),
            entry("root/thesis/", true),
            entry("root/thesis/main.tex", false),
            entry("root/other/main.tex", false),
        ],
        fault: None,
    };
    let contents = vec![Ok(vec![]), Ok(vec![]), Ok(b"a".to_vec()), Ok(b"b".to_vec())];
    let taken = texforge::templates::template_files(&listing, contents, "thesis");
    assert_eq!(taken.fault, None);
    assert_eq!(taken.files.len(), 1);
    assert_eq!(taken.files.get("main.tex"), Some(&b"a".to_vec()));
    let contents = vec![Ok(vec![]), Ok(vec![]), Err("broken".to_string()), Ok(vec![])];
    let taken = texforge::templates::template_files(&listing, contents, "thesis");
    assert_eq!(taken.fault, Some("broken".to_string()));
}
