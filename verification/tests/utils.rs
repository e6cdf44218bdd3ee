use texforge::utils::{
    data_dir, find_bib_files, find_tex_files, mirror_target, sanitize_filename, templates_dir,
    walks_into,
};

fn files(names: &[&str]) -> Vec<String> {
    names.iter().map(|n| n.to_string()).collect()
}

#[test]
fn sanitize_basic_title() {
    assert_eq!(
        sanitize_filename("My Thesis: Final Version"),
        "my-thesis-final-version"
    );
}

#[test]
fn sanitize_collapses_separators() {
    assert_eq!(sanitize_filename("a  --  b"), "a-b");
}

#[test]
fn sanitize_keeps_unicode_alphanumerics() {
    assert_eq!(sanitize_filename("Análisis Numérico"), "análisis-numérico");
}

#[test]
fn sanitize_empty_string() {
    assert_eq!(sanitize_filename(""), "");
}

#[test]
fn sanitize_only_special_chars() {
    assert_eq!(sanitize_filename("@#$!"), "");
}

#[test]
fn sanitize_hyphens_preserved() {
    assert_eq!(sanitize_filename("my-tesis"), "my-tesis");
}

#[test]
fn sanitize_underscores_converted() {
    assert_eq!(sanitize_filename("my_tesis"), "my-tesis");
}

#[test]
fn sanitize_leading_trailing_hyphens() {
    assert_eq!(sanitize_filename("-hello-"), "hello");
}

#[test]
fn sanitize_multiple_consecutive_special() {
    assert_eq!(sanitize_filename("a:::b"), "a-b");
}

#[test]
fn mirror_assets_links_nested_assets_in_tex_dirs() {
    assert_eq!(
        mirror_target("/p/chapters/img.png", "/p", "/b"),
        Some("/b/chapters/img.png".to_string()),
        "nested asset should be mirrored"
    );
    assert_eq!(mirror_target("/p/refs.bib", "/p", "/b"), Some("/b/refs.bib".to_string()));
    assert_eq!(
        mirror_target("/p/chapters/ch1.tex", "/p", "/b"),
        None,
        ".tex files must not be mirrored"
    );
}

#[test]
fn mirror_assets_skips_hidden_and_legacy_build() {
    assert!(!walks_into("build", 1, "/p/build", "/b"));
    assert!(!walks_into(".hidden", 1, "/p/.hidden", "/b"));
    assert!(walks_into("build", 2, "/p/a/build", "/b"));
    assert!(!walks_into("out", 1, "/p/out", "/p/out"));
}

#[test]
fn mirror_assets_skips_tex_files() {
    assert_eq!(mirror_target("/p/main.tex", "/p", "/b"), None);
}

#[test]
fn mirror_assets_nested_dirs() {
    assert!(walks_into("a", 1, "/p/a", "/b"));
    assert!(walks_into("b", 2, "/p/a/b", "/b"));
    assert_eq!(mirror_target("/p/a/b/file.txt", "/p", "/b"), Some("/b/a/b/file.txt".to_string()));
}

#[test]
fn find_tex_files_finds_tex() {
    let found = find_tex_files("/p", &files(&["/p/main.tex", "/p/readme.md"]));
    assert_eq!(found.len(), 1);
    assert!(found[0].contains("main.tex"));
}

#[test]
fn find_tex_files_excludes_build() {
    let found = find_tex_files("/p", &files(&["/p/build/main.tex", "/p/main.tex"]));
    assert_eq!(found.len(), 1);
}

#[test]
fn find_bib_files_finds_bib() {
    let found = find_bib_files("/p", &files(&["/p/refs.bib", "/p/main.tex"]));
    assert_eq!(found.len(), 1);
    assert!(found[0].contains("refs.bib"));
}

#[test]
fn find_bib_files_excludes_build() {
    let found = find_bib_files("/p", &files(&["/p/build/refs.bib", "/p/refs.bib"]));
    assert_eq!(found.len(), 1);
}

#[test]
fn find_tex_files_nested() {
    let found = find_tex_files("/p", &files(&["/p/chapters/ch1.tex", "/p/chapters/ch2.tex"]));
    assert_eq!(found.len(), 2);
}

#[test]
fn data_dir_returns_path() {
    let path = data_dir(Some("/home/u")).unwrap();
    assert!(path.contains(".texforge"));
    assert_eq!(data_dir(None), Err("Could not determine home directory".to_string()));
}

#[test]
fn templates_dir_returns_path() {
    let path = templates_dir(Some("/home/u")).unwrap();
    assert!(path.contains("templates"));
    assert!(templates_dir(None).is_err());
}
