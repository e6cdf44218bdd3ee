use texforge::commands::doctor::{
    extract_font_names, fonts_from_cache, format_tectonic_status, parse_version, report_cache,
    report_dictionaries, report_fonts, report_project, tectonic_cache_dir, verdict, CacheStats,
    FoundProject, ReadDictionary,
};
use texforge::linter::dictionary::InstalledDictionary;
use texforge::size::format_size;

// --- Tectonic status formatting (covers the missing-binary case) ---

#[test]
fn format_tectonic_status_missing_binary() {
    let out = format_tectonic_status(None);
    assert!(out.contains("not found"));
    assert!(!out.contains("present"));
}

#[test]
fn format_tectonic_status_present_with_version() {
    let path = "/usr/local/bin/tectonic";
    let out = format_tectonic_status(Some((path, Some("0.15.0"))));
    assert!(out.contains("present: /usr/local/bin/tectonic"));
    assert!(out.contains("version: 0.15.0"));
}

#[test]
fn format_tectonic_status_present_unknown_version() {
    let path = "/usr/local/bin/tectonic";
    let out = format_tectonic_status(Some((path, None)));
    assert!(out.contains("could not determine"));
}

// --- Version parsing ---

#[test]
fn parse_version_extracts_simple_semver() {
    assert_eq!(parse_version("tectonic 0.15.0\n"), Some("0.15.0".into()));
}

#[test]
fn parse_version_handles_concatenated_banner_output() {
    // Tectonic's actual `--version` output has no separator between the
    // clap-generated line and its own banner.
    assert_eq!(
        parse_version("tectonic 0.15.0Tectonic 0.15.0"),
        Some("0.15.0".into())
    );
}

#[test]
fn parse_version_none_when_absent() {
    assert_eq!(parse_version("no version info here"), None);
}

// --- Cache stats (covers the empty-cache case) ---

#[test]
fn report_cache_empty_cache_dir_does_not_panic() {
    let out = report_cache(Some("/c"), Some(CacheStats { size: 0, count: 0 }));
    assert_eq!(out, "Cache\n  location: /c\n  size: 0 B\n  entries: 0\n");
}

#[test]
fn report_cache_missing_dir_does_not_panic() {
    let out = report_cache(Some("/not-created-yet"), None);
    assert!(out.contains("not created yet"));
}

#[test]
fn report_cache_none_does_not_panic() {
    let out = report_cache(None, None);
    assert!(out.contains("could not determine cache location"));
}

#[test]
fn doctor_format_size_bytes() {
    assert_eq!(format_size(0), "0 B");
    assert_eq!(format_size(512), "512 B");
}

#[test]
fn doctor_format_size_kilobytes() {
    assert_eq!(format_size(2048), "2.0 KB");
}

#[test]
fn doctor_format_size_megabytes() {
    assert_eq!(format_size(65 * 1024 * 1024), "65.0 MB");
}

// --- Font extraction from bundle manifests ---

#[test]
fn extract_font_names_filters_by_extension() {
    let manifest = "article.cls 20144 abc\nlmroman12-regular.otf 110400 def\nec-lmr12.tfm 12092 ghi\ncmr10.pfb 5000 jkl\n";
    let fonts = extract_font_names(manifest);
    assert_eq!(fonts.len(), 2);
    assert!(fonts.contains(&"lmroman12-regular.otf".to_string()));
    assert!(fonts.contains(&"cmr10.pfb".to_string()));
    assert!(!fonts.contains(&"article.cls".to_string()));
    assert!(!fonts.contains(&"ec-lmr12.tfm".to_string()));
}

#[test]
fn extract_font_names_empty_manifest() {
    assert!(extract_font_names("").is_empty());
}

#[test]
fn extract_font_names_deduplicates() {
    let manifest = "font.otf 100 aaa\nfont.otf 100 bbb\n";
    assert_eq!(extract_font_names(manifest).len(), 1);
}

#[test]
fn fonts_from_cache_missing_manifests_dir_is_empty() {
    assert!(fonts_from_cache(&Vec::new()).is_empty());
}

#[test]
fn fonts_from_cache_reads_all_manifest_files() {
    let manifests = vec!["one.otf 1 x\n".to_string(), "two.pfb 1 y\n".to_string()];
    let fonts = fonts_from_cache(&manifests);
    assert_eq!(fonts.len(), 2);
    assert!(fonts.contains(&"one.otf".to_string()));
    assert!(fonts.contains(&"two.pfb".to_string()));
}

// --- Dictionary reporting ---

#[test]
fn report_dictionaries_runs_without_panicking() {
    assert_eq!(report_dictionaries(&Vec::new()), "Dictionaries\n  none installed\n");
    let dicts = vec![
        ReadDictionary {
            dictionary: InstalledDictionary::Wordlist {
                lang: "en".to_string(),
                path: "/d/en.txt".to_string(),
            },
            content: Ok("one\n\n  \ntwo\n".to_string()),
        },
        ReadDictionary {
            dictionary: InstalledDictionary::Wordlist {
                lang: "fr".to_string(),
                path: "/d/fr.txt".to_string(),
            },
            content: Err("denied".to_string()),
        },
        ReadDictionary {
            dictionary: InstalledDictionary::Hunspell {
                lang: "es".to_string(),
                dic_path: "/d/es.dic".to_string(),
                aff_path: "/d/es.aff".to_string(),
            },
            content: Err(String::new()),
        },
    ];
    assert_eq!(
        report_dictionaries(&dicts),
        "Dictionaries\n  en: /d/en.txt (2 words)\n  fr: /d/fr.txt (unreadable: denied)\n  es: hunspell dictionary (/d/es.dic, /d/es.aff)\n"
    );
}

// --- Project detection ---

#[test]
fn report_project_no_project_toml() {
    let out = report_project(&FoundProject::Missing { dir: "/p".to_string() });
    assert_eq!(out, "Project\n  \u{2717} not a texforge project (no project.toml in /p)\n");
}

#[test]
fn report_project_valid_project_toml() {
    let out = report_project(&FoundProject::Loaded {
        dir: "/p".to_string(),
        title: "T".to_string(),
        entry: "main.tex".to_string(),
    });
    assert_eq!(
        out,
        "Project\n  \u{2713} /p/project.toml\n    title: T\n    entry: main.tex\n"
    );
}

#[test]
fn report_project_invalid_project_toml() {
    let out = report_project(&FoundProject::Broken {
        dir: "/p".to_string(),
        fault: "bad".to_string(),
    });
    assert_eq!(
        out,
        "Project\n  \u{2717} /p/project.toml exists but failed to parse: bad\n"
    );
}

// --- Cache directory resolution respects TECTONIC_CACHE_DIR ---

#[test]
fn tectonic_cache_dir_honors_env_override() {
    let dir = tectonic_cache_dir(Some("/tmp/custom-tectonic-cache"), Some("/home/u/.cache"));
    assert_eq!(dir, Some("/tmp/custom-tectonic-cache".to_string()));
    let dir = tectonic_cache_dir(None, Some("/home/u/.cache"));
    assert_eq!(dir, Some("/home/u/.cache/Tectonic".to_string()));
    assert_eq!(tectonic_cache_dir(None, None), None);
}

#[test]
fn without_the_engine_the_diagnosis_fails() {
    assert!(verdict(true).is_ok());
    assert_eq!(
        verdict(false),
        Err("Tectonic is not present — builds cannot run".to_string())
    );
}

#[test]
fn only_the_first_fonts_are_named() {
    let manifest: String = (0..23).map(|i| format!("f{i:02}.otf 1 x\n")).collect();
    let fonts = extract_font_names(&manifest);
    let out = report_fonts(true, &fonts);
    assert!(out.starts_with("Fonts\n  23 font file(s) available\n    f00.otf\n"));
    assert!(out.ends_with("    f19.otf\n    ... and 3 more\n"));
    assert!(report_fonts(true, &Vec::new()).contains("0 fonts available"));
    assert!(report_fonts(false, &fonts).contains("could not determine"));
}

#[test]
fn font_extensions_are_taken_in_any_case() {
    assert_eq!(extract_font_names("B.OTF 1 x\na.Pfb 1 y\n"), vec!["B.OTF", "a.Pfb"]);
}

#[test]
fn versions_begin_with_a_digit_and_have_two_dots() {
    assert_eq!(parse_version("v 1.2 then .1.2.3 then 10.20.30!"), Some("10.20.30".to_string()));
}

#[test]
fn a_missing_directory_is_reported() {
    let out = report_project(&FoundProject::NoDirectory { fault: "gone".to_string() });
    assert!(out.contains("could not determine current directory: gone"));
}
