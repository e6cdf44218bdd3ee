use std::io::Write;

use texforge::compiler::{
    current_target, extract_line, failure_report, format_warnings, install_from_targz,
    install_from_zip, path_in_answer, refused_download, success_report, tectonic_archive, known_locations, locate_tectonic, parse_errors,
    parse_tectonic_error, parse_warnings, tectonic_command, tectonic_managed_path, CompileWarning,
    DEFAULT_EPOCH,
};
use texforge::linter::Severity;

#[test]
fn command_sets_source_date_epoch_when_pinned() {
    let cmd = tectonic_command("tectonic", "/tmp/root", "main.tex", Some(DEFAULT_EPOCH));
    assert_eq!(cmd.source_date_epoch, Some(DEFAULT_EPOCH.to_string()));
}

#[test]
fn command_omits_source_date_epoch_when_not_pinned() {
    let cmd = tectonic_command("tectonic", "/tmp/root", "main.tex", None);
    assert!(cmd.source_date_epoch.is_none());
}

#[test]
fn default_epoch_is_fixed_and_not_zero() {
    assert_eq!(DEFAULT_EPOCH, 1700000000);
}

#[test]
fn parse_errors_tectonic_style() {
    let raw = "error: main.tex:42: undefined control sequence \\foo";
    let errors = parse_errors(raw);
    assert_eq!(errors.len(), 1);
    assert_eq!(errors[0].file, "main.tex");
    assert_eq!(errors[0].line, 42);
    assert_eq!(errors[0].message, "undefined control sequence \\foo");
}

#[test]
fn parse_errors_bang_style() {
    let raw = "! Undefined control sequence.\nl.10 \\badcmd";
    let errors = parse_errors(raw);
    assert_eq!(errors.len(), 1);
    assert_eq!(errors[0].message, "Undefined control sequence.");
    assert_eq!(errors[0].line, 10);
}

#[test]
fn parse_errors_bang_no_line() {
    let raw = "! Missing $ inserted.";
    let errors = parse_errors(raw);
    assert_eq!(errors.len(), 1);
    assert_eq!(errors[0].message, "Missing $ inserted.");
    assert_eq!(errors[0].line, 0);
}

#[test]
fn parse_errors_multiple() {
    let raw = "error: a.tex:1: first error\nerror: b.tex:5: second error";
    let errors = parse_errors(raw);
    assert_eq!(errors.len(), 2);
    assert_eq!(errors[0].file, "a.tex");
    assert_eq!(errors[1].file, "b.tex");
    assert_eq!(errors[1].line, 5);
}

#[test]
fn parse_errors_empty() {
    let errors = parse_errors("");
    assert!(errors.is_empty());
}

#[test]
fn parse_errors_unrecognized_line() {
    let raw = "some random output\nnot an error";
    let errors = parse_errors(raw);
    assert!(errors.is_empty());
}

#[test]
fn parse_tectonic_error_with_location() {
    let mut errors = Vec::new();
    parse_tectonic_error("main.tex:10: undefined control sequence", &mut errors);
    assert_eq!(errors.len(), 1);
    assert_eq!(errors[0].file, "main.tex");
    assert_eq!(errors[0].line, 10);
    assert_eq!(errors[0].message, "undefined control sequence");
}

#[test]
fn parse_tectonic_error_without_colon_location() {
    let mut errors = Vec::new();
    parse_tectonic_error("some generic message", &mut errors);
    assert_eq!(errors.len(), 1);
    assert_eq!(errors[0].file, "");
    assert_eq!(errors[0].line, 0);
    assert_eq!(errors[0].message, "some generic message");
}

#[test]
fn parse_tectonic_error_non_numeric_line() {
    let mut errors = Vec::new();
    parse_tectonic_error("file.tex:abc: bad", &mut errors);
    assert_eq!(errors.len(), 1);
    assert_eq!(errors[0].file, "");
    assert_eq!(errors[0].line, 0);
}

#[test]
fn parse_errors_mixed_styles() {
    let raw = "error: a.tex:1: first\n! Second error.\nl.20 \\second";
    let errors = parse_errors(raw);
    assert_eq!(errors.len(), 2);
    assert_eq!(errors[0].file, "a.tex");
    assert_eq!(errors[1].line, 20);
}

#[test]
fn current_target_returns_known_value() {
    let target = current_target("linux", "x86_64").unwrap();
    assert!(!target.is_empty());
    assert!(target.contains("linux") || target.contains("macos") || target.contains("windows"));
}

#[test]
fn tectonic_managed_path_returns_home_texforge() {
    let result = tectonic_managed_path(Some("/home/u"), false);
    assert!(result.is_ok());
    let path = result.unwrap();
    assert!(path.contains(".texforge"));
    assert!(path.contains("bin"));
}

#[test]
fn locate_tectonic_returns_option() {
    let places = known_locations(Some("/home/u"), false);
    let none = vec![false; places.len()];
    assert_eq!(locate_tectonic(None, &places, &none), None);
    assert_eq!(
        locate_tectonic(Some("/usr/bin/tectonic"), &places, &none),
        Some("/usr/bin/tectonic".to_string())
    );
    let mut last = vec![false; places.len()];
    last[places.len() - 1] = true;
    assert_eq!(locate_tectonic(None, &places, &last), places.last().cloned());
}

#[test]
fn parse_errors_tectonic_with_complex_message() {
    let raw = "error: main.tex:100: undefined control sequence \\foo\\bar";
    let errors = parse_errors(raw);
    assert_eq!(errors.len(), 1);
    assert_eq!(errors[0].file, "main.tex");
    assert_eq!(errors[0].line, 100);
    assert!(errors[0].message.contains("\\foo\\bar"));
}

#[test]
fn parse_errors_l_line_without_number() {
    let raw = "! Error.\nl.abc \\badcmd";
    let errors = parse_errors(raw);
    assert_eq!(errors.len(), 1);
    assert_eq!(errors[0].message, "Error.");
    // l.abc doesn't parse as a number, so line stays 0
    assert_eq!(errors[0].line, 0);
}

#[test]
fn parse_tectonic_error_no_colon_in_rest() {
    // "error:" followed by text with no ": " separator
    let mut errors = Vec::new();
    parse_tectonic_error("just a message without colon", &mut errors);
    assert_eq!(errors.len(), 1);
    assert_eq!(errors[0].message, "just a message without colon");
    assert_eq!(errors[0].file, "");
    assert_eq!(errors[0].line, 0);
}

#[test]
fn parse_errors_whitespace_handling() {
    let raw = "  error: a.tex:5: msg  \n  ! Another.\n  l.10 x";
    let errors = parse_errors(raw);
    assert_eq!(errors.len(), 2);
    assert_eq!(errors[0].file, "a.tex");
    assert_eq!(errors[1].line, 10);
}

#[test]
fn parse_errors_empty_lines_between() {
    let raw = "\n\nerror: f.tex:1: e\n\n\n";
    let errors = parse_errors(raw);
    assert_eq!(errors.len(), 1);
    assert_eq!(errors[0].file, "f.tex");
}

#[test]
fn current_target_contains_valid_arch() {
    let target = current_target("linux", "x86_64").unwrap();
    assert!(target.contains("x86_64") || target.contains("aarch64") || target.contains("arm"));
}

#[test]
fn parse_errors_deeply_nested_path() {
    let raw = "error: /some/long/path/to/file.tex:42: bad thing";
    let errors = parse_errors(raw);
    assert_eq!(errors.len(), 1);
    assert_eq!(errors[0].file, "/some/long/path/to/file.tex");
    assert_eq!(errors[0].line, 42);
}

#[test]
fn parse_warnings_underfull_hbox() {
    let raw = "(main.tex\nUnderfull \\hbox (badness 1856) in paragraph at lines 58--59\n)";
    let warnings = parse_warnings(raw);
    assert_eq!(warnings.len(), 1);
    assert_eq!(warnings[0].file, "main.tex");
    assert_eq!(warnings[0].line, 58);
    assert_eq!(warnings[0].severity, Severity::Warning);
    assert_eq!(warnings[0].kind, "underfull hbox");
    assert!(warnings[0].message.contains("badness 1856"));
}

#[test]
fn parse_warnings_overfull_hbox() {
    let raw = "Overfull \\hbox (12.0pt too wide) in paragraph at lines 41--42";
    let warnings = parse_warnings(raw);
    assert_eq!(warnings.len(), 1);
    assert_eq!(warnings[0].kind, "overfull hbox");
    assert_eq!(warnings[0].line, 41);
    assert_eq!(warnings[0].file, "");
}

#[test]
fn parse_warnings_package_warning() {
    let raw =
        "Package hyperref Warning: Token not allowed in a PDF string (Unicode) on input line 12.";
    let warnings = parse_warnings(raw);
    assert_eq!(warnings.len(), 1);
    assert_eq!(warnings[0].kind, "package warning");
    assert_eq!(warnings[0].line, 12);
    assert!(warnings[0].message.contains("hyperref"));
}

#[test]
fn parse_warnings_latex_warning() {
    let raw = "LaTeX Warning: Reference `fig1' on page 1 undefined on input line 22.";
    let warnings = parse_warnings(raw);
    assert_eq!(warnings.len(), 1);
    assert_eq!(warnings[0].kind, "latex warning");
    assert_eq!(warnings[0].line, 22);
}

#[test]
fn parse_warnings_ignores_unrecognized_lines() {
    let raw = "some random output\n[]\\OT1/cmr/m/n/10 foo\nnot a warning";
    let warnings = parse_warnings(raw);
    assert!(warnings.is_empty());
}

#[test]
fn parse_warnings_empty_input() {
    assert!(parse_warnings("").is_empty());
}

#[test]
fn parse_warnings_file_tracking() {
    let raw = "(main.tex\n(chapter.tex\nUnderfull \\hbox (badness 1000) in paragraph at lines 1--2\n)\nUnderfull \\hbox (badness 2000) in paragraph at lines 3--4\n)";
    let warnings = parse_warnings(raw);
    assert_eq!(warnings.len(), 2);
    assert_eq!(warnings[0].file, "chapter.tex");
    assert_eq!(warnings[1].file, "main.tex");
}

#[test]
fn parse_warnings_badness_variant_ignored_when_not_badness() {
    let raw = "Underfull \\hbox (2.0pt too wide) in paragraph at lines 5--6";
    let warnings = parse_warnings(raw);
    assert!(warnings.is_empty());
}

#[test]
fn extract_line_from_markers() {
    assert_eq!(extract_line("in paragraph at lines 41--42"), 41);
    assert_eq!(extract_line("on input line 7."), 7);
    assert_eq!(extract_line("no marker here"), 0);
}

#[test]
fn format_warnings_summary_groups_by_file() {
    let warnings = vec![
        CompileWarning {
            file: "main.tex".into(),
            line: 58,
            severity: Severity::Warning,
            kind: "underfull hbox",
            message: "Underfull \\hbox (badness 1856)".into(),
        },
        CompileWarning {
            file: "main.tex".into(),
            line: 90,
            severity: Severity::Warning,
            kind: "underfull hbox",
            message: "Underfull \\hbox (badness 2000)".into(),
        },
        CompileWarning {
            file: "skills.tex".into(),
            line: 12,
            severity: Severity::Warning,
            kind: "package warning",
            message: "Package hyperref Warning: ...".into(),
        },
    ];
    let out = format_warnings(&warnings, false);
    assert!(out.starts_with("WARNINGS (3)\n"));
    assert!(out.contains("  main.tex: 2 underfull hbox"));
    assert!(out.contains("  skills.tex: 1 package warning"));
}

#[test]
fn format_warnings_verbose_lists_every_occurrence() {
    let warnings = vec![CompileWarning {
        file: "main.tex".into(),
        line: 58,
        severity: Severity::Warning,
        kind: "underfull hbox",
        message: "Underfull \\hbox (badness 1856) in paragraph at lines 58--59".into(),
    }];
    let out = format_warnings(&warnings, true);
    assert!(out.contains("WARNING [main.tex:58] underfull hbox:"));
    assert!(out.contains("badness 1856"));
}

#[test]
fn format_warnings_empty_is_empty() {
    assert!(format_warnings(&Vec::new(), false).is_empty());
    assert!(format_warnings(&Vec::new(), true).is_empty());
}

#[test]
fn the_engine_is_called_in_the_build_directory() {
    let cmd = tectonic_command("/opt/tectonic", "/tmp/root", "main.tex", None);
    assert_eq!(cmd.program, "/opt/tectonic");
    assert_eq!(cmd.current_dir, "/tmp/root");
    assert_eq!(cmd.args, vec!["/tmp/root/main.tex", "--outdir", "/tmp/root", "--keep-logs"]);
}

#[test]
fn unknown_platforms_have_no_engine() {
    assert_eq!(
        current_target("plan9", "x86_64"),
        Err("Unsupported platform for automatic tectonic installation".to_string())
    );
    assert_eq!(current_target("macos", "aarch64"), Ok("aarch64-apple-darwin"));
}

#[test]
fn without_a_home_there_is_no_managed_engine() {
    assert_eq!(
        tectonic_managed_path(None, true),
        Err("Could not determine home directory".to_string())
    );
    assert_eq!(
        tectonic_managed_path(Some("/home/u"), true),
        Ok("/home/u/.texforge/bin/tectonic.exe".to_string())
    );
}

fn zipped(entries: &[(&str, &[u8])]) -> Vec<u8> {
    let mut writer = zip::ZipWriter::new(std::io::Cursor::new(Vec::new()));
    for (name, content) in entries {
        writer.start_file(*name, zip::write::SimpleFileOptions::default()).unwrap();
        writer.write_all(content).unwrap();
    }
    writer.finish().unwrap().into_inner()
}

fn tarred(entries: &[(&str, &[u8])]) -> Vec<u8> {
    let mut builder = tar::Builder::new(flate2::write::GzEncoder::new(
        Vec::new(),
        flate2::Compression::default(),
    ));
    for (name, content) in entries {
        let mut header = tar::Header::new_gnu();
        header.set_size(content.len() as u64);
        header.set_mode(0o755);
        header.set_cksum();
        builder.append_data(&mut header, name, *content).unwrap();
    }
    builder.into_inner().unwrap().finish().unwrap()
}

#[test]
fn the_engine_is_taken_out_of_its_archive() {
    let archive = zipped(&[("readme.txt", b"x"), ("tectonic.exe", b"engine")]);
    assert_eq!(install_from_zip(&archive).unwrap(), b"engine");
    let archive = tarred(&[("readme.txt", b"x"), ("tectonic", b"engine")]);
    assert_eq!(install_from_targz(&archive).unwrap(), b"engine");
}

#[test]
fn an_archive_without_the_engine_is_refused() {
    assert!(install_from_zip(&zipped(&[("readme.txt", b"x")])).is_err());
    assert!(install_from_targz(&tarred(&[("readme.txt", b"x")])).is_err());
    assert!(install_from_zip(b"not an archive").is_err());
    assert!(install_from_targz(b"not an archive").is_err());
}

#[test]
fn archives_are_published_per_target() {
    let windows = tectonic_archive("x86_64-pc-windows-msvc");
    assert!(windows.is_zip && windows.url.ends_with(".zip"));
    let linux = tectonic_archive("x86_64-unknown-linux-musl");
    assert!(!linux.is_zip && linux.url.ends_with(".tar.gz"));
    assert_eq!(
        refused_download("404 Not Found", "https://x"),
        "Failed to download tectonic: HTTP 404 Not Found\nURL: https://x"
    );
}

#[test]
fn the_first_line_of_an_answer_is_the_path() {
    assert_eq!(path_in_answer("/usr/bin/tectonic\n/opt/x\n"), Some("/usr/bin/tectonic".to_string()));
    assert_eq!(path_in_answer(""), None);
}

#[test]
fn failures_are_reported_with_their_place() {
    let report = failure_report("error: main.tex:3: bad thing");
    assert!(report.contains("main.tex") && report.contains("3") && report.contains("bad thing"));
    assert_eq!(failure_report("  unclear  "), "Compilation failed:\nunclear");
    assert!(success_report("nothing of note", false).is_empty());
    assert!(success_report("LaTeX Warning: Reference undefined on input line 2.", false)
        .contains("WARNINGS (1)"));
}

#[test]
fn a_run_that_fails_is_an_error() {
    let run = |success: bool, stdout: &str, stderr: &str| texforge::compiler::EngineRun {
        success,
        stdout: stdout.to_string(),
        stderr: stderr.to_string(),
    };
    let failed = texforge::compiler::compile(&run(false, "a ", "b "), false);
    assert_eq!(failed, Err("Compilation failed:\na b".to_string()));
    assert_eq!(texforge::compiler::compile(&run(true, "quiet", ""), true), Ok(String::new()));
}
