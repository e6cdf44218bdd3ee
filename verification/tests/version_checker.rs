use std::io::Write;

use texforge::version::SemVer;
use texforge::version_checker::{
    check_for_updates, check_size, extract_binary_from_tar_gz, get_architecture, get_local_version,
    get_os, get_release_download_url, is_cargo_managed, latest_stable_release, release_target,
    releases_url, resolve_cargo_bin_dir, CargoRootEnv, GitHubRelease, Unpacked, VersionCheckResult,
};

const OS: &str = "linux";
const ARCH: &str = "x86_64";

#[test]
fn test_get_local_version() {
    let version = get_local_version().unwrap();
    assert!(version.major > 0 || version.minor > 0 || version.patch > 0);
}

#[test]
fn test_get_release_download_url() {
    let version = SemVer::parse("1.2.3").unwrap();
    let url = get_release_download_url("UniverLab", "texforge", &version, OS, ARCH);
    assert!(url.contains("github.com"));
    assert!(url.contains("UniverLab"));
    assert!(url.contains("texforge"));
    assert!(url.contains("1.2.3"));
}

#[test]
fn test_version_check_result_struct() {
    let local = SemVer::parse("1.0.0").unwrap();
    let latest = SemVer::parse("2.0.0").unwrap();
    let result = VersionCheckResult {
        local_version: local.clone(),
        latest_stable: Some(latest.clone()),
        update_available: true,
    };
    assert_eq!(result.local_version, local);
    assert_eq!(result.latest_stable, Some(latest));
    assert!(result.update_available);
}

#[test]
fn test_version_check_no_update() {
    let local = SemVer::parse("2.0.0").unwrap();
    let latest = SemVer::parse("1.0.0").unwrap();
    let result = VersionCheckResult {
        local_version: local,
        latest_stable: Some(latest),
        update_available: false,
    };
    assert!(!result.update_available);
}

#[test]
fn test_version_check_no_latest() {
    let local = SemVer::parse("1.0.0").unwrap();
    let result = VersionCheckResult {
        local_version: local,
        latest_stable: None,
        update_available: false,
    };
    assert!(!result.update_available);
    assert!(result.latest_stable.is_none());
}

#[test]
fn test_get_release_download_url_contains_arch() {
    let version = SemVer::parse("1.0.0").unwrap();
    let url = get_release_download_url("owner", "repo", &version, OS, ARCH);
    assert!(url.contains(ARCH));
}

/// The asset name has to match what the release workflow publishes,
/// byte for byte, or the printed URL leads nowhere.
#[test]
fn download_url_matches_the_published_asset_name() {
    let version = SemVer::parse("0.7.0").unwrap();
    let url = get_release_download_url("UniverLab", "texforge", &version, OS, ARCH);
    let (target, ext) = release_target(OS, ARCH);

    assert!(
        url.ends_with(&format!("/texforge-v0.7.0-{target}.{ext}")),
        "asset name drifted from the release workflow: {url}"
    );
    assert!(
        url.contains("/releases/download/v0.7.0/"),
        "tag path lost its v prefix: {url}"
    );
}

#[test]
fn test_get_release_download_url_format() {
    let version = SemVer::parse("2.5.1").unwrap();
    let url = get_release_download_url("UniverLab", "texforge", &version, OS, ARCH);
    assert!(url.starts_with("https://github.com/"));
    assert!(url.contains("v2.5.1"));
    assert!(url.contains("texforge"));
}

#[test]
fn test_get_local_version_is_stable() {
    let version = get_local_version().unwrap();
    // CARGO_PKG_VERSION should be a stable release (no prerelease)
    assert!(version.is_stable());
}

#[test]
fn test_version_check_result_debug() {
    let local = SemVer::parse("1.0.0").unwrap();
    let result = VersionCheckResult {
        local_version: local,
        latest_stable: None,
        update_available: false,
    };
    let debug = format!("{:?}", result);
    assert!(debug.contains("VersionCheckResult"));
}

#[test]
fn test_version_check_result_clone() {
    let local = SemVer::parse("1.0.0").unwrap();
    let result = VersionCheckResult {
        local_version: local,
        latest_stable: None,
        update_available: false,
    };
    let cloned = result.clone();
    assert_eq!(result.local_version, cloned.local_version);
    assert_eq!(result.update_available, cloned.update_available);
}

// ── Cargo-managed install detection ──────────────────────────

#[test]
fn install_root_env_wins_over_cargo_home_and_default_home() {
    let env = CargoRootEnv {
        install_root: Some("/install-root".to_string()),
        cargo_home: Some("/cargo-home".to_string()),
        home: Some("/home/user".to_string()),
    };
    assert_eq!(
        resolve_cargo_bin_dir(&env),
        Some("/install-root/bin".to_string())
    );
}

#[test]
fn cargo_home_env_wins_over_default_home() {
    let env = CargoRootEnv {
        install_root: None,
        cargo_home: Some("/cargo-home".to_string()),
        home: Some("/home/user".to_string()),
    };
    assert_eq!(
        resolve_cargo_bin_dir(&env),
        Some("/cargo-home/bin".to_string())
    );
}

#[test]
fn default_home_cargo_dir_used_when_no_env_vars_set() {
    let env = CargoRootEnv {
        install_root: None,
        cargo_home: None,
        home: Some("/home/user".to_string()),
    };
    assert_eq!(
        resolve_cargo_bin_dir(&env),
        Some("/home/user/.cargo/bin".to_string())
    );
}

// ── Download + install ───────────────────────────────────────

/// Build a `.tar.gz` archive in memory containing the given entries.
fn build_tar_gz(entries: &[(&str, &[u8])]) -> Vec<u8> {
    let mut tar_data = Vec::new();
    {
        let mut builder = tar::Builder::new(&mut tar_data);
        for (name, content) in entries {
            let mut header = tar::Header::new_gnu();
            header.set_size(content.len() as u64);
            header.set_mode(0o755);
            header.set_cksum();
            builder.append_data(&mut header, name, *content).unwrap();
        }
        builder.finish().unwrap();
    }

    let mut encoder = flate2::write::GzEncoder::new(Vec::new(), flate2::Compression::default());
    encoder.write_all(&tar_data).unwrap();
    encoder.finish().unwrap()
}

#[test]
fn path_inside_cargo_root_is_detected_as_cargo_managed() {
    let env = CargoRootEnv {
        install_root: None,
        cargo_home: Some("/tmp/cargo-home".to_string()),
        home: None,
    };
    let bin = resolve_cargo_bin_dir(&env);
    assert!(is_cargo_managed(Some("/tmp/cargo-home/bin/texforge"), bin.as_deref()));
}

#[test]
fn path_outside_cargo_root_is_not_cargo_managed() {
    let env = CargoRootEnv {
        install_root: None,
        cargo_home: Some("/tmp/cargo-home".to_string()),
        home: None,
    };
    let bin = resolve_cargo_bin_dir(&env);
    assert!(!is_cargo_managed(Some("/tmp/elsewhere/texforge"), bin.as_deref()));
}

#[test]
fn uncanonicalizable_path_is_treated_as_not_cargo_managed() {
    assert!(!is_cargo_managed(None, Some("/cargo-home/bin")));
    assert!(!is_cargo_managed(Some("/cargo-home/bin/texforge"), None));
}

#[test]
fn valid_archive_replaces_binary_and_sets_executable() {
    let archive = build_tar_gz(&[("texforge", b"new binary content")]);
    match extract_binary_from_tar_gz(&archive, "texforge").unwrap() {
        Unpacked::File(binary) => assert_eq!(binary, b"new binary content"),
        other => panic!("expected a file, got {other:?}"),
    }
}

#[test]
fn missing_binary_entry_leaves_original_untouched() {
    let archive = build_tar_gz(&[("readme.txt", b"not a binary")]);
    assert!(extract_binary_from_tar_gz(&archive, "texforge").is_err());
}

#[test]
fn empty_binary_entry_is_rejected_and_original_untouched() {
    let archive = build_tar_gz(&[("texforge", b"")]);
    assert_eq!(
        extract_binary_from_tar_gz(&archive, "texforge").unwrap_err(),
        "extracted binary 'texforge' is empty"
    );
}

/// An archive with one entry of a kind and no content.
fn one_entry(kind: tar::EntryType, link: Option<&str>) -> Vec<u8> {
    let encoder = flate2::write::GzEncoder::new(Vec::new(), flate2::Compression::default());
    let mut builder = tar::Builder::new(encoder);
    let mut header = tar::Header::new_gnu();
    header.set_path("texforge").unwrap();
    header.set_size(0);
    header.set_mode(0o755);
    header.set_entry_type(kind);
    if let Some(target) = link {
        header.set_link_name(target).unwrap();
    }
    header.set_cksum();
    builder.append(&header, std::io::empty()).unwrap();
    builder.into_inner().unwrap().finish().unwrap()
}

#[test]
fn a_link_is_unpacked_as_a_link() {
    let soft = one_entry(tar::EntryType::Symlink, Some("bin/texforge"));
    match extract_binary_from_tar_gz(&soft, "texforge").unwrap() {
        Unpacked::SymbolicLink(target) => assert_eq!(target, "bin/texforge"),
        other => panic!("expected a symbolic link, got {other:?}"),
    }
    let hard = one_entry(tar::EntryType::Link, Some("bin/texforge"));
    match extract_binary_from_tar_gz(&hard, "texforge").unwrap() {
        Unpacked::HardLink(target) => assert_eq!(target, "bin/texforge"),
        other => panic!("expected a hard link, got {other:?}"),
    }
    let nowhere = one_entry(tar::EntryType::Symlink, None);
    assert_eq!(
        extract_binary_from_tar_gz(&nowhere, "texforge").unwrap_err(),
        "failed to extract binary from archive"
    );
    let directory = one_entry(tar::EntryType::Directory, None);
    assert_eq!(
        extract_binary_from_tar_gz(&directory, "texforge").unwrap_err(),
        "failed to extract binary from archive"
    );
    let note = one_entry(tar::EntryType::XGlobalHeader, None);
    assert_eq!(
        extract_binary_from_tar_gz(&note, "texforge").unwrap_err(),
        "extracted binary 'texforge' is empty"
    );
}

#[test]
fn a_link_is_checked_by_what_it_leads_to() {
    assert_eq!(check_size(Some(7), "texforge"), Ok(()));
    assert_eq!(
        check_size(Some(0), "texforge").unwrap_err(),
        "extracted binary 'texforge' is empty"
    );
    assert_eq!(
        check_size(None, "texforge").unwrap_err(),
        "failed to read extracted binary metadata"
    );
}

#[test]
fn what_is_no_archive_is_refused() {
    assert!(extract_binary_from_tar_gz(b"not an archive", "texforge").is_err());
}

fn release(tag: &str, prerelease: bool, draft: bool) -> GitHubRelease {
    GitHubRelease { tag_name: tag.to_string(), prerelease, draft }
}

#[test]
fn drafts_and_prereleases_are_passed_over() {
    let releases = vec![
        release("v9.0.0", false, true),
        release("v3.0.0", true, false),
        release("nightly", false, false),
        release("v2.1.0", false, false),
        release("v2.0.0", false, false),
    ];
    assert_eq!(latest_stable_release(&releases), SemVer::parse("2.1.0"));
    let result = check_for_updates(SemVer::parse("2.0.5").unwrap(), &releases);
    assert!(result.update_available);
    let result = check_for_updates(SemVer::parse("2.1.0").unwrap(), &releases);
    assert!(!result.update_available);
    let result = check_for_updates(SemVer::parse("2.1.0").unwrap(), &Vec::new());
    assert!(!result.update_available && result.latest_stable.is_none());
}

#[test]
fn releases_are_asked_of_the_repository() {
    assert_eq!(
        releases_url("UniverLab", "texforge"),
        "https://api.github.com/repos/UniverLab/texforge/releases"
    );
}

#[test]
fn test_get_architecture() {
    let arch = get_architecture(ARCH).unwrap();
    assert!(!arch.is_empty());
    assert!(arch == "x86_64" || arch == "aarch64" || arch == "arm");
}

#[test]
fn test_get_os() {
    let os = get_os(OS);
    assert!(!os.is_empty());
    assert!(os == "linux" || os == "macos" || os == "windows" || os == "unknown");
}

#[test]
fn test_get_architecture_nonempty() {
    let arch = get_architecture(ARCH).unwrap();
    assert!(!arch.is_empty());
}

#[test]
fn test_get_os_nonempty() {
    let os = get_os(OS);
    assert!(!os.is_empty());
}

#[test]
fn machines_that_are_not_known() {
    assert_eq!(get_architecture("riscv64"), None);
    assert_eq!(get_architecture("aarch64"), Some("aarch64"));
    assert_eq!(get_os("freebsd"), "unknown");
    assert_eq!(get_os("macos"), "macos");
}
