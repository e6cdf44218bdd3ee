use texforge::linter::accents::{
    build_spell_text, compose_accent, extract_base_from_text_start, line_for_offset,
    try_resolve_accent, AccentBase,
};
use texforge::linter::dictionary::{
    installed_dictionaries, load_dictionary, DictionaryFiles, InstalledDictionary,
};
use texforge::linter::spell::{
    babel_language_from_usepackage, choose_download, describe_exit, ensure_dictionary,
    global_whitelist_path, lint_files, load_project_whitelist, parse_whitelist_words,
    project_whitelist_files, remote_for_language, resolve_language, skip_message, tail_lines, using_message,
    DictionaryAnswer, DictionaryLocation, DictionaryPlan, DownloadFailure, Present, RemoteSource,
    ToolFailure, ToolOutcome,
};
use texforge::linter::{LintFinding, Severity};
use texforge::texparse::tokenize_with_spans;

const MINI_AFF: &str = "SET UTF-8\n\nSFX S Y 1\nSFX S 0 es .\n";
const MINI_DIC: &str = "3\ngato\nsol/S\nperro\n";

/// What lies under a home directory, and the whitelist of a project.
#[derive(Default)]
struct Home {
    /// The dictionaries: their file names and contents.
    dicts: Vec<(&'static str, &'static str)>,
    spell_words: Option<&'static str>,
    project_words: Option<&'static str>,
    offline: bool,
}

impl Home {
    fn with(dicts: &[(&'static str, &'static str)]) -> Home {
        Home { dicts: dicts.to_vec(), offline: true, ..Home::default() }
    }

    fn read(&self, path: &str) -> Option<String> {
        self.dicts
            .iter()
            .find(|(name, _)| path == format!("/home/u/.texforge/dicts/{name}"))
            .map(|(_, content)| content.to_string())
    }

    fn has(&self, name: &str) -> bool {
        self.dicts.iter().any(|(n, _)| *n == name)
    }

    fn ensure(&self, lang: &str) -> DictionaryPlan {
        let present = Present {
            dic: self.has(&format!("{lang}.dic")),
            aff: self.has(&format!("{lang}.aff")),
            txt: self.has(&format!("{lang}.txt")),
        };
        ensure_dictionary(lang, Some("/home/u"), present, self.offline)
    }

    fn load(&self, location: &DictionaryLocation) -> DictionaryFiles {
        match location {
            DictionaryLocation::Wordlist(p) => DictionaryFiles::Wordlist(self.read(p)),
            DictionaryLocation::Hunspell { dic, aff } => {
                DictionaryFiles::Hunspell { aff: self.read(aff), dic: self.read(dic) }
            }
        }
    }

    fn answer(&self, lang: &str) -> DictionaryAnswer {
        match self.ensure(lang) {
            DictionaryPlan::Use(location) => {
                match load_dictionary(&location, &self.load(&location)) {
                    Ok(dictionary) => DictionaryAnswer::Ready { dictionary, location },
                    Err(reason) => DictionaryAnswer::Unavailable { expected: None, reason },
                }
            }
            DictionaryPlan::Fail(reason) => {
                DictionaryAnswer::Unavailable { expected: None, reason }
            }
            _ => panic!("nothing is fetched in a test"),
        }
    }

    fn lint(&self, files: &[(&str, &str)], default_lang: Option<&str>) -> Vec<LintFinding> {
        let files: Vec<(String, String)> =
            files.iter().map(|(n, s)| (n.to_string(), s.to_string())).collect();
        let lang = resolve_language(&files, default_lang).language;
        let whitelist = load_project_whitelist(&vec![
            self.project_words.map(str::to_string),
            self.spell_words.map(str::to_string),
        ]);
        lint_files(&files, default_lang, &self.answer(&lang), &whitelist).findings
    }
}

fn unknown(findings: &[LintFinding]) -> Vec<&LintFinding> {
    findings.iter().filter(|f| f.message.contains("Unknown word")).collect()
}

fn names(files: &[&str]) -> Vec<String> {
    files.iter().map(|n| format!("/d/{n}")).collect()
}

fn failed(detail: &str) -> ToolOutcome {
    ToolOutcome::Failed(ToolFailure { tool: "curl".to_string(), detail: detail.to_string() })
}

#[test]
fn tokenizer_integration_does_not_flag_commands_or_labels() {
    let home = Home::with(&[("english.txt", "hello\nworld\nthis\nis\nsome\ntext\nmore\n")]);
    let src = r#"\documentclass{article}
\begin{document}
Hello world. This is some text. \label{sec:intro} More text.
\end{document}"#;
    let findings = home.lint(&[("main.tex", src)], Some("english"));

    assert!(
        findings.is_empty(),
        "Expected no findings, got: {:?}",
        findings
    );
}

#[test]
fn installed_dictionaries_in_empty_dir_returns_empty() {
    assert!(installed_dictionaries("/d", &Vec::new()).is_empty());
}

#[test]
fn installed_dictionaries_in_missing_dir_returns_empty() {
    assert!(installed_dictionaries("/does-not-exist", &Vec::new()).is_empty());
}

#[test]
fn installed_dictionaries_in_lists_txt_files_sorted() {
    let dicts = installed_dictionaries("/d", &names(&["spanish.txt", "english.txt", "notes.md"]));
    let langs: Vec<&str> = dicts.iter().map(InstalledDictionary::lang).collect();
    assert_eq!(langs, vec!["english", "spanish"]);
}

/// A Hunspell pair is an installed dictionary in its own right.
#[test]
fn installed_dictionaries_in_reports_hunspell_pair() {
    let dicts = installed_dictionaries("/d", &names(&["spanish.dic", "spanish.aff"]));
    assert_eq!(dicts.len(), 1);
    match &dicts[0] {
        InstalledDictionary::Hunspell { lang, dic_path, aff_path } => {
            assert_eq!(lang, "spanish");
            assert!(dic_path.ends_with("spanish.dic"));
            assert!(aff_path.ends_with("spanish.aff"));
        }
        InstalledDictionary::Wordlist { path, .. } => {
            panic!("expected a Hunspell entry, got a Wordlist entry: {path}")
        }
    }
}

/// A lone `.dic` with no matching `.aff` is not a usable dictionary and
/// must not be reported as installed.
#[test]
fn installed_dictionaries_in_ignores_dic_without_aff() {
    let dicts = installed_dictionaries("/d", &names(&["spanish.dic"]));
    assert!(dicts.is_empty(), "a .dic with no .aff must not be reported as installed");
}

#[test]
fn ensure_dictionary_bails_in_test_harness_environment() {
    let home = Home { offline: true, ..Home::default() };
    assert!(matches!(home.ensure("spanish"), DictionaryPlan::Fail(_)));
}

/// Neither tool exists: must report that plainly, naming both tools, and must NOT claim a
/// transfer failure that never happened.
#[test]
fn download_with_tools_reports_missing_tools_by_name() {
    let err = choose_download(ToolOutcome::NotFound, ToolOutcome::NotFound)
        .expect_err("expected failure when neither tool exists");
    assert!(matches!(err, DownloadFailure::NoToolFound));
    let msg = err.describe("spanish", "https://example.invalid/dict.txt");
    assert!(msg.contains("curl"), "message should name curl: {}", msg);
    assert!(msg.contains("wget"), "message should name wget: {}", msg);
}

/// A tool that exists and runs but fails must have ITS failure reported (exit status).
#[test]
fn download_with_tools_reports_real_exit_status_when_tool_runs_but_fails() {
    let err = choose_download(failed(&describe_exit("exit status: 1", "")), ToolOutcome::NotFound)
        .expect_err("expected failure when curl exits non-zero");
    match &err {
        DownloadFailure::ToolError(f) => assert_eq!(f.tool, "curl"),
        DownloadFailure::NoToolFound => {
            panic!("curl exists and ran; must not report NoToolFound")
        }
    }
    let msg = err.describe("spanish", "https://example.invalid/dict.txt");
    assert!(msg.contains("curl"), "message should name curl: {}", msg);
    assert!(msg.contains("exit"), "message should carry the tool's exit status: {}", msg);
}

/// A 404 from a tool that ran must be called out explicitly as a missing-resource problem.
#[test]
fn download_with_tools_flags_http_404_as_missing_source() {
    let detail = describe_exit(
        "exit status: 22",
        "curl: (22) The requested URL returned error: 404\n",
    );
    let err = choose_download(failed(&detail), ToolOutcome::NotFound)
        .expect_err("expected failure on HTTP 404");
    let msg = err.describe("spanish", "https://example.invalid/spanish.txt");
    assert!(msg.contains("404"), "message should surface the 404 the tool reported: {}", msg);
    assert!(
        msg.to_lowercase().contains("source") || msg.to_lowercase().contains("exist"),
        "message should call out that the dictionary may not exist at the source: {}",
        msg
    );
}

#[test]
fn the_first_tool_that_succeeds_wins() {
    let bytes = choose_download(ToolOutcome::NotFound, ToolOutcome::Success(vec![7])).unwrap();
    assert_eq!(bytes, vec![7]);
    let bytes = choose_download(failed("x"), ToolOutcome::Success(vec![8])).unwrap();
    assert_eq!(bytes, vec![8]);
}

#[test]
fn babel_language_reads_the_option_not_the_package_name() {
    let args = vec!["spanish".to_string(), "babel".to_string()];
    assert_eq!(babel_language_from_usepackage(&args), Some("spanish".to_string()));
}

#[test]
fn babel_language_ignores_unrelated_packages() {
    let args = vec!["amsmath".to_string()];
    assert_eq!(babel_language_from_usepackage(&args), None);

    let args = vec!["utf8".to_string(), "inputenc".to_string()];
    assert_eq!(babel_language_from_usepackage(&args), None);
}

#[test]
fn babel_language_handles_babel_with_no_option() {
    let args = vec!["babel".to_string()];
    assert_eq!(babel_language_from_usepackage(&args), None);
}

#[test]
fn babel_language_handles_keyed_options_and_polyglossia() {
    let args = vec!["main=spanish".to_string(), "polyglossia".to_string()];
    assert_eq!(babel_language_from_usepackage(&args), Some("spanish".to_string()));
}

#[test]
fn resolve_language_infers_spanish_from_babel_preamble() {
    let src = "\\usepackage[spanish]{babel}\n\\begin{document}\nHola\n\\end{document}";
    let files = vec![("main.tex".to_string(), src.to_string())];
    assert_eq!(resolve_language(&files, None).language, "spanish");
}

#[test]
fn resolve_language_defaults_to_english_without_babel() {
    let src = "\\documentclass{article}\n\\begin{document}\nHello\n\\end{document}";
    let files = vec![("main.tex".to_string(), src.to_string())];
    assert_eq!(resolve_language(&files, None).language, "english");
}

#[test]
fn resolve_language_prefers_document_declaration_over_configured_default() {
    let src = "\\usepackage[spanish]{babel}\n\\begin{document}\nHola\n\\end{document}";
    let files = vec![("main.tex".to_string(), src.to_string())];
    assert_eq!(
        resolve_language(&files, Some("english")).language,
        "spanish"
    );
}

/// The precedence rule is not spanish-specific: any declared language
/// overrides the configured default.
#[test]
fn resolve_language_prefers_document_declaration_for_other_languages_too() {
    let src = "\\usepackage[french]{babel}\n\\begin{document}\nSalut\n\\end{document}";
    let files = vec![("main.tex".to_string(), src.to_string())];
    assert_eq!(resolve_language(&files, Some("english")).language, "french");
}

#[test]
fn resolve_language_uses_configured_default_without_babel() {
    let src = "\\documentclass{article}\n\\begin{document}\nHello\n\\end{document}";
    let files = vec![("main.tex".to_string(), src.to_string())];
    assert_eq!(
        resolve_language(&files, Some("english")).language,
        "english"
    );
}

#[test]
fn remote_for_language_returns_hunspell_pair_for_spanish() {
    assert!(matches!(
        remote_for_language("spanish"),
        Some(RemoteSource::Hunspell { .. })
    ));
    assert!(matches!(
        remote_for_language("es"),
        Some(RemoteSource::Hunspell { .. })
    ));
}

#[test]
fn remote_for_language_returns_single_url_for_english() {
    assert!(matches!(
        remote_for_language("english"),
        Some(RemoteSource::Wordlist(_))
    ));
}

#[test]
fn skip_message_is_one_line_and_names_language_path_and_reason() {
    let msg = skip_message(
        "spanish",
        Some("/home/user/.texforge/dicts/spanish.txt"),
        "network disabled during tests",
    );
    assert_eq!(msg.lines().count(), 1, "must be exactly one line: {}", msg);
    assert!(msg.contains("spanish"), "must name the language: {}", msg);
    assert!(
        msg.contains("/home/user/.texforge/dicts/spanish.txt"),
        "must name the expected dictionary path: {}",
        msg
    );
    assert!(
        msg.contains("network disabled during tests"),
        "must carry the reason: {}",
        msg
    );
}

#[test]
fn using_message_is_one_line_and_names_language_and_path_for_wordlist() {
    let msg = using_message(
        "spanish",
        &DictionaryLocation::Wordlist("/home/user/.texforge/dicts/spanish.txt".to_string()),
    );
    assert_eq!(msg.lines().count(), 1, "must be exactly one line: {}", msg);
    assert!(msg.contains("spanish"));
    assert!(msg.contains("/home/user/.texforge/dicts/spanish.txt"));
}

#[test]
fn using_message_names_both_files_for_hunspell() {
    let msg = using_message(
        "spanish",
        &DictionaryLocation::Hunspell {
            dic: "/home/user/.texforge/dicts/spanish.dic".to_string(),
            aff: "/home/user/.texforge/dicts/spanish.aff".to_string(),
        },
    );
    assert_eq!(msg.lines().count(), 1, "must be exactly one line: {}", msg);
    assert!(msg.contains("spanish"));
    assert!(msg.contains("/home/user/.texforge/dicts/spanish.dic"));
    assert!(msg.contains("/home/user/.texforge/dicts/spanish.aff"));
}

#[test]
fn spanish_document_with_only_english_dictionary_emits_no_unknown_word_warnings() {
    let home = Home::with(&[("english.txt", "hello\nworld\n")]);
    let src = "\\usepackage[spanish]{babel}\n\\begin{document}\n\
                   mentoría ahí universidad liderazgo soluciones\n\\end{document}";
    let findings = home.lint(&[("main.tex", src)], None);
    assert!(
        findings.is_empty(),
        "expected zero findings when the resolved language's dictionary is missing, got: {:?}",
        findings
    );
}

/// When a dictionary for the resolved language IS present, spell-check
/// must run against THAT dictionary, never a different language's —
/// proven by a Spanish word passing and an English-only word failing.
#[test]
fn spanish_document_checks_against_spanish_dictionary_not_english() {
    let home = Home::with(&[("spanish.txt", "mentoría\nahí\n"), ("english.txt", "hello\nworld\n")]);
    let src = "\\usepackage[spanish]{babel}\n\\begin{document}\n\
                   mentoría hello\n\\end{document}";
    let findings = home.lint(&[("main.tex", src)], None);
    assert!(
        !findings.iter().any(|f| f.message.contains("mentoría")),
        "'mentoría' is in the spanish dictionary and must not be flagged: {:?}",
        findings
    );
    assert!(
        findings.iter().any(|f| f.message.contains("hello")),
        "'hello' is English-only and must be flagged when checking against spanish, \
             proving no fallback to the english dictionary occurred: {:?}",
        findings
    );
}

/// The disagreement warning must be a `Warning`, name both languages, and
/// point at the line of the `\usepackage` that declared the language
/// which won. Also proves the skip path still runs (zero `Unknown word`
/// findings) so the disagreement warning is the only finding produced.
#[test]
fn disagreement_warning_names_both_languages_and_points_at_declaration() {
    let home = Home::with(&[("english.txt", "hello\nworld\n")]);
    let src = "\\usepackage[spanish]{babel}\n\\begin{document}\nHola\n\\end{document}";
    let findings = home.lint(&[("main.tex", src)], Some("english"));
    assert_eq!(
        findings.len(),
        1,
        "expected exactly one finding (the disagreement warning; spell-check itself is \
             skipped since no spanish dictionary is obtainable): {:?}",
        findings
    );
    let warning = &findings[0];
    assert!(matches!(warning.severity, Severity::Warning));
    assert!(
        warning.message.contains("spanish") && warning.message.contains("english"),
        "message must name both languages: {}",
        warning.message
    );
    assert_eq!(warning.file, "main.tex");
    assert_eq!(warning.line, 1, "must point at the \\usepackage line");
}

#[test]
fn no_disagreement_warning_when_declared_matches_configured_default() {
    let home = Home::with(&[]);
    let src = "\\usepackage[spanish]{babel}\n\\begin{document}\nHola\n\\end{document}";
    let findings = home.lint(&[("main.tex", src)], Some("spanish"));
    assert!(
        findings.is_empty(),
        "declared and configured language agree; expected no findings: {:?}",
        findings
    );
}

#[test]
fn no_disagreement_warning_without_babel_declaration() {
    let home = Home::with(&[("english.txt", "hello\nworld\n")]);
    let src = "\\documentclass{article}\n\\begin{document}\nhello world\n\\end{document}";
    let findings = home.lint(&[("main.tex", src)], Some("english"));
    assert!(
        findings.is_empty(),
        "no babel declaration means no disagreement is possible: {:?}",
        findings
    );
}

/// A multi-file project where two files declare the same language must
/// produce exactly one warning, not one per file.
#[test]
fn multi_file_project_with_matching_declarations_produces_one_warning() {
    let home = Home::with(&[("english.txt", "hello\nworld\n")]);
    let src_a = "\\usepackage[spanish]{babel}\n\\begin{document}\nHola\n\\end{document}";
    let src_b = "\\usepackage[spanish]{babel}\n\\begin{document}\nAdios\n\\end{document}";
    let findings = home.lint(&[("a.tex", src_a), ("b.tex", src_b)], Some("english"));
    let warnings: Vec<_> = findings
        .iter()
        .filter(|f| f.message.contains("Configured default language"))
        .collect();
    assert_eq!(
        warnings.len(),
        1,
        "two files declaring the same language must produce one warning, not two: {:?}",
        findings
    );
}

#[test]
fn hunspell_backend_accepts_a_stem() {
    let location = DictionaryLocation::Hunspell {
        dic: "/d/mini.dic".to_string(),
        aff: "/d/mini.aff".to_string(),
    };
    let files = DictionaryFiles::Hunspell {
        aff: Some(MINI_AFF.to_string()),
        dic: Some(MINI_DIC.to_string()),
    };
    let dict = load_dictionary(&location, &files).unwrap();
    assert!(
        dict.contains("gato"),
        "'gato' is a bare stem in the fixture .dic"
    );
}

/// The whole point of the change: a form that is NOT itself a line in
/// the fixture `.dic`, but IS generated by the fixture `.aff`'s suffix
/// rule (`sol/S` plus `SFX S 0 es .` yields "soles"), must be accepted.
/// A test that only checked stems would pass against the old
/// plain-wordlist backend too and would prove nothing about this change.
#[test]
fn hunspell_backend_accepts_affix_generated_form() {
    let location = DictionaryLocation::Hunspell {
        dic: "/d/mini.dic".to_string(),
        aff: "/d/mini.aff".to_string(),
    };
    let files = DictionaryFiles::Hunspell {
        aff: Some(MINI_AFF.to_string()),
        dic: Some(MINI_DIC.to_string()),
    };
    let dict = load_dictionary(&location, &files).unwrap();
    assert!(
        dict.contains("soles"),
        "'soles' is generated from stem 'sol' by the SFX S rule; it is not present verbatim in mini.dic"
    );
}

#[test]
fn hunspell_backend_rejects_word_not_in_stems_or_generated_forms() {
    let location = DictionaryLocation::Hunspell {
        dic: "/d/mini.dic".to_string(),
        aff: "/d/mini.aff".to_string(),
    };
    let files = DictionaryFiles::Hunspell {
        aff: Some(MINI_AFF.to_string()),
        dic: Some(MINI_DIC.to_string()),
    };
    let dict = load_dictionary(&location, &files).unwrap();
    assert!(!dict.contains("xylophone"));
}

#[test]
fn wordlist_backend_still_accepts_and_rejects_exactly_as_before() {
    let files = DictionaryFiles::Wordlist(Some("hello\nworld\n".to_string()));
    let dict =
        load_dictionary(&DictionaryLocation::Wordlist("/d/english.txt".to_string()), &files)
            .unwrap();
    assert!(dict.contains("hello"));
    assert!(dict.contains("world"));
    assert!(!dict.contains("goodbye"));
}

/// Where both a `.txt` and a pair exist for one language, the pair is chosen.
#[test]
fn ensure_dictionary_prefers_hunspell_pair_when_both_present() {
    let home = Home::with(&[
        ("spanish.txt", "hola\n"),
        ("spanish.dic", MINI_DIC),
        ("spanish.aff", MINI_AFF),
    ]);
    match home.ensure("spanish") {
        DictionaryPlan::Use(DictionaryLocation::Hunspell { dic, aff }) => {
            assert_eq!(dic, "/home/u/.texforge/dicts/spanish.dic");
            assert_eq!(aff, "/home/u/.texforge/dicts/spanish.aff");
        }
        _ => panic!("expected the Hunspell pair to win over the wordlist"),
    }
}

/// A `.dic` present with no `.aff` is not usable — it must be treated
/// the same as "no dictionary available" (falling through to the normal
/// missing-dictionary path and its skip message), never a panic.
#[test]
fn lint_files_treats_dic_without_aff_as_no_dictionary_available() {
    let home = Home::with(&[("spanish.dic", MINI_DIC)]);
    let src = "\\usepackage[spanish]{babel}\n\\begin{document}\nHola\n\\end{document}";
    let findings = home.lint(&[("main.tex", src)], None);
    assert!(
        findings.is_empty(),
        "a lone .dic with no .aff must be treated as no dictionary available, not crash or \
             check against it: {:?}",
        findings
    );
}

#[test]
fn spanish_document_checks_against_installed_hunspell_pair() {
    let home = Home::with(&[("spanish.dic", MINI_DIC), ("spanish.aff", MINI_AFF)]);
    let src = "\\usepackage[spanish]{babel}\n\\begin{document}\n\
                   sol soles perro xilofonoinventado\n\\end{document}";
    let findings = home.lint(&[("main.tex", src)], None);
    assert!(
        !findings.iter().any(|f| f.message.contains("'sol'")),
        "stem 'sol' must be accepted: {:?}",
        findings
    );
    assert!(
        !findings.iter().any(|f| f.message.contains("'soles'")),
        "affix-generated form 'soles' must be accepted: {:?}",
        findings
    );
    assert!(
        findings
            .iter()
            .any(|f| f.message.contains("xilofonoinventado")),
        "a genuine misspelling must still be flagged: {:?}",
        findings
    );
}

/// The four real tokens from the reported document must each be checked
/// as their joined form, not fragmented on the `{}` empty-group ligature
/// workaround.
#[test]
fn ligature_workaround_empty_groups_are_checked_as_joined_words() {
    let home = Home::with(&[("english.txt", "artificial\nworkflows\nmlflow\nlocal\nfirst\n")]);
    let src = "\\begin{document}\nArtif{}icial workf{}lows MLf{}low local-f{}irst\n\
                   \\end{document}";
    let findings = home.lint(&[("main.tex", src)], Some("english"));
    assert!(
        findings.is_empty(),
        "empty-group ligature workarounds must be checked as joined words, not fragments: {:?}",
        findings
    );
}

/// A genuine misspelling written with the empty-group idiom must still
/// be reported, exactly once, as the joined word — never as fragments,
/// since a fragment is not something the author can search for.
#[test]
fn misspelled_word_with_empty_group_is_reported_as_joined_word() {
    let home = Home::with(&[("english.txt", "hello\nworld\n")]);
    let src = "\\begin{document}\nHello Wrongwo{}rd world\n\\end{document}";
    let findings = home.lint(&[("main.tex", src)], Some("english"));
    assert_eq!(
        findings.len(),
        1,
        "expected exactly one finding for the joined misspelling: {:?}",
        findings
    );
    assert!(
        findings[0].message.contains("wrongword"),
        "must report the joined word: {:?}",
        findings
    );
    assert!(
        !findings
            .iter()
            .any(|f| f.message.contains("wrongwo'") || f.message.contains("'rd")),
        "must not report fragments of the joined word: {:?}",
        findings
    );
}

/// A `{}` at the start or end of a word, and two empty groups inside one
/// word, must all be stripped correctly rather than merely the common
/// mid-word case.
#[test]
fn empty_group_at_start_end_and_doubled_behave_sanely() {
    let home = Home::with(&[("english.txt", "begin\nend\nmiddlepoint\n")]);
    let src = "\\begin{document}\n{}Begin End{} Middle{}Po{}int\n\\end{document}";
    let findings = home.lint(&[("main.tex", src)], Some("english"));
    assert!(
        findings.is_empty(),
        "leading/trailing/doubled empty groups must all be stripped: {:?}",
        findings
    );
}

#[test]
fn global_whitelist_path_is_home_texforge_spell_words() {
    assert_eq!(
        global_whitelist_path(Some("/home/u")),
        Some("/home/u/.texforge/spell-words".to_string())
    );
    assert_eq!(global_whitelist_path(None), None);
}

#[test]
fn the_project_has_two_places_for_its_words() {
    assert_eq!(project_whitelist_files(), vec!["spell-whitelist.txt", ".texforge/spell-words"]);
}

#[test]
fn parse_whitelist_words_skips_blank_and_comment_lines_and_lowercases() {
    let content = "Docker\n# a comment\n\nAcme\n";
    let words = parse_whitelist_words(content);
    assert_eq!(words.len(), 2);
    assert!(words.contains("docker"));
    assert!(words.contains("acme"));
}

#[test]
fn a_global_only_word_is_accepted_in_a_project_with_no_whitelist_file() {
    let home = Home { spell_words: Some("docker\n"), ..Home::with(&[("english.txt", "hello\nworld\n")]) };
    let src = "\\begin{document}\nHello docker world\n\\end{document}";
    let findings = home.lint(&[("main.tex", src)], Some("english"));
    assert!(
        findings.is_empty(),
        "'docker' is in the global personal dictionary and must be accepted: {:?}",
        findings
    );
}

/// A missing (or unreadable) global personal dictionary must not fail
/// `check`, and must not change which findings are produced — reading it
/// is best-effort, same as the project-local files.
#[test]
fn missing_global_whitelist_yields_no_error_and_no_findings_change() {
    let home = Home::with(&[("english.txt", "hello\nworld\n")]);
    let src = "\\begin{document}\nHello docker world\n\\end{document}";
    let findings = home.lint(&[("main.tex", src)], Some("english"));
    assert_eq!(
        findings.len(),
        1,
        "no global dictionary present: 'docker' should still be flagged, and lint_files \
             must not error: {:?}",
        findings
    );
    assert!(findings[0].message.contains("docker"));
}

#[test]
fn project_and_global_whitelists_union_rather_than_override() {
    let home = Home { spell_words: Some("acme\n"), project_words: Some("docker\n"), ..Home::with(&[("english.txt", "hello\nworld\n")]) };
    let src = "\\begin{document}\nHello docker acme world\n\\end{document}";
    let findings = home.lint(&[("main.tex", src)], Some("english"));
    assert!(
        findings.is_empty(),
        "words from both the project and global lists must be accepted together: {:?}",
        findings
    );
}

#[test]
fn unknown_word_suggestion_names_spell_add_and_local_flag() {
    let home = Home::with(&[("english.txt", "hello\nworld\n")]);
    let src = "\\begin{document}\nHello zzzznotaword world\n\\end{document}";
    let findings = home.lint(&[("main.tex", src)], Some("english"));
    assert_eq!(findings.len(), 1);
    let suggestion = findings[0].suggestion.as_deref().unwrap_or("");
    assert!(
        suggestion.contains("texforge spell add"),
        "suggestion must name the new command: {}",
        suggestion
    );
    assert!(
        suggestion.contains("--local"),
        "suggestion must mention --local, since global is now the default: {}",
        suggestion
    );
    assert!(
        !suggestion.contains("--global"),
        "suggestion should not point at --global now that it is the default: {}",
        suggestion
    );
}

#[test]
fn symbol_form_accents_resolve_brace_and_direct() {
    let home = Home::with(&[("spanish.txt", "violación\n"), ("english.txt", "hello\nworld\n")]);
    let src = "\\usepackage[spanish]{babel}\n\\begin{document}\n\
                    violaci\\'{o}n\n\\end{document}";
    let findings = home.lint(&[("main.tex", src)], None);
    let unknown = unknown(&findings);
    assert!(
        unknown.is_empty(),
        "violación (brace form) must not be flagged: {:?}",
        unknown
    );
}

#[test]
fn symbol_form_accents_resolve_space_form() {
    let home = Home::with(&[("spanish.txt", "café\n"), ("english.txt", "hello\nworld\n")]);
    let src = "\\usepackage[spanish]{babel}\n\\begin{document}\n\
                    caf\\' e\n\\end{document}";
    let findings = home.lint(&[("main.tex", src)], None);
    let unknown = unknown(&findings);
    assert!(
        unknown.is_empty(),
        "café (symbol-form space variant \\' e) must not be flagged: {:?}",
        unknown
    );
}

#[test]
fn letter_form_accents_resolve_brace_form_through_lint_files() {
    let home = Home::with(&[("spanish.txt", "français\n"), ("english.txt", "hello\nworld\n")]);
    let src = "\\usepackage[spanish]{babel}\n\\begin{document}\n\
                    fran\\c{c}ais\n\\end{document}";
    let findings = home.lint(&[("main.tex", src)], None);
    assert!(
        !findings.iter().any(|f| f.message.contains("fran")),
        "français (letter-form \\c{{c}}) must not produce 'fran': {:?}",
        findings
    );
    assert!(
        !findings.iter().any(|f| f.message.contains("'ais'")),
        "français (letter-form \\c{{c}}) must not eat 'ais': {:?}",
        findings
    );
}

#[test]
fn letter_form_accents_resolve_space_form_through_lint_files() {
    let home = Home::with(&[("spanish.txt", "č\n"), ("english.txt", "hello\nworld\n")]);
    let src = "\\usepackage[spanish]{babel}\n\\begin{document}\n\
                    \\v c\n\\end{document}";
    let findings = home.lint(&[("main.tex", src)], None);
    let unknown = unknown(&findings);
    assert!(
        unknown.is_empty(),
        "\\v c (space form) must resolve: {:?}",
        unknown
    );
}

#[test]
fn spanish_document_with_accent_macros_produces_zero_warnings() {
    let home = Home::with(&[("spanish.txt", "universidad\ncoincidencia\ncomparación\nnúmero\nmás\naquí\n"), ("english.txt", "hello\nworld\n")]);
    let src = "\\usepackage[spanish]{babel}\n\\begin{document}\n\
                    universidad coincidencia comparaci\\'{o}n n\\'umero \
                    m\\'as aqu\\'{\\i}\n\\end{document}";
    let findings = home.lint(&[("main.tex", src)], None);
    let unknown = unknown(&findings);
    assert!(
        unknown.is_empty(),
        "Spanish document with accent macros must produce zero unknown-word warnings: {:?}",
        unknown
    );
}

#[test]
fn discretionary_hyphen_does_not_split_a_word() {
    let home = Home::with(&[("spanish.txt", "importancia\n"), ("english.txt", "hello\nworld\n")]);
    let src = "\\usepackage[spanish]{babel}\n\\begin{document}\n\
                    impor\\-tancia\n\\end{document}";
    let findings = home.lint(&[("main.tex", src)], None);
    let unknown = unknown(&findings);
    assert!(
        unknown.is_empty(),
        "a discretionary hyphen must not split a word: {:?}",
        unknown
    );
}

#[test]
fn document_with_letter_form_macro_produces_zero_warnings() {
    let home = Home::with(&[("spanish.txt", "čeština\n"), ("english.txt", "hello\nworld\n")]);
    let src = "\\usepackage[spanish]{babel}\n\\begin{document}\n\
                    \\v{c}e\\v{s}tina\n\\end{document}";
    let findings = home.lint(&[("main.tex", src)], None);
    let unknown = unknown(&findings);
    assert!(
        unknown.is_empty(),
        "document with letter-form macros must produce zero warnings: {:?}",
        unknown
    );
}

#[test]
fn misspelling_with_accent_macro_is_reported_as_composed_word() {
    let home = Home::with(&[("spanish.txt", "hola\n"), ("english.txt", "hello\nworld\n")]);
    let src = "\\usepackage[spanish]{babel}\n\\begin{document}\n\
                    xyz\\'{a}bc\n\\end{document}";
    let findings = home.lint(&[("main.tex", src)], None);
    assert!(
        findings.iter().any(|f| f.message.contains("xyzábc")),
        "misspelling with accent must be reported as composed word 'xyzábc': {:?}",
        findings
    );
}

#[test]
fn fran_c_ais_does_not_eat_following_words() {
    let home = Home::with(&[("spanish.txt", "français\nmás\npalabras\n"), ("english.txt", "hello\nworld\nmore\nwords\n")]);
    let src = "\\usepackage[spanish]{babel}\n\\begin{document}\n\
                fran\\c{c}ais m\\'as palabras\n\\end{document}";
    let findings = home.lint(&[("main.tex", src)], None);
    let unknown = unknown(&findings);
    assert!(
        unknown.is_empty(),
        "fran\\c{{c}}ais m\\'as palabras must produce zero unknown-word warnings \
         (must not eat 'ais', 'm\\'as', or 'palabras'): {:?}",
        unknown
    );
}

#[test]
fn unknown_macro_breaks_word_rather_than_absorbing_letters() {
    let home = Home::with(&[("spanish.txt", "hola\n"), ("english.txt", "hello\nworld\n")]);
    let src = "\\usepackage[spanish]{babel}\n\\begin{document}\n\
                    abc\\unknownmacro def\n\\end{document}";
    let findings = home.lint(&[("main.tex", src)], None);
    let unknown_words: Vec<_> = findings
        .iter()
        .filter_map(|f| {
            f.message
                .strip_prefix("Unknown word: '")
                .and_then(|s| s.strip_suffix('\''))
                .map(String::from)
        })
        .collect();
    assert!(
        unknown_words.contains(&"abc".to_string()),
        "unknown macro must break word, leaving 'abc' to be checked: {:?}",
        unknown_words
    );
    assert!(
        unknown_words.contains(&"def".to_string()),
        "text after unknown macro must not be swallowed: {:?}",
        unknown_words
    );
}

#[test]
fn dotless_i_with_accent_resolves() {
    let home = Home::with(&[("spanish.txt", "mercurio\níndice\n"), ("english.txt", "hello\nworld\n")]);
    let src = "\\usepackage[spanish]{babel}\n\\begin{document}\n\
                    mercurio \\'{\\i}ndice\n\\end{document}";
    let findings = home.lint(&[("main.tex", src)], None);
    let unknown = unknown(&findings);
    assert!(
        !unknown.iter().any(|f| f.message.contains("'ndice'")),
        "\\ '{{\\i}} must resolve to 'í', not leave 'ndice': {:?}",
        unknown
    );
}

#[test]
fn all_accent_forms_resolve_via_helper() {
    assert_eq!(compose_accent('\'', 'e'), Some('é'));
    assert_eq!(compose_accent('`', 'a'), Some('à'));
    assert_eq!(compose_accent('^', 'o'), Some('ô'));
    assert_eq!(compose_accent('"', 'u'), Some('ü'));
    assert_eq!(compose_accent('~', 'n'), Some('ñ'));
    assert_eq!(compose_accent('=', 'a'), Some('ā'));
    assert_eq!(compose_accent('.', 'e'), Some('ė'));
    assert_eq!(compose_accent('c', 'c'), Some('ç'));
    assert_eq!(compose_accent('v', 's'), Some('š'));
    assert_eq!(compose_accent('u', 'a'), Some('ă'));
    assert_eq!(compose_accent('H', 'u'), Some('ű'));
    assert_eq!(compose_accent('r', 'a'), Some('å'));
    assert_eq!(compose_accent('k', 'e'), Some('ę'));
}

#[test]
fn no_dictionary_is_fetched_without_a_home_or_a_source() {
    let none = Present { dic: false, aff: false, txt: false };
    assert!(matches!(ensure_dictionary("spanish", None, none, false), DictionaryPlan::Fail(_)));
    assert!(matches!(
        ensure_dictionary("klingon", Some("/home/u"), none, false),
        DictionaryPlan::Fail(_)
    ));
    match ensure_dictionary("english", Some("/home/u"), none, false) {
        DictionaryPlan::FetchWordlist { path, .. } => {
            assert_eq!(path, "/home/u/.texforge/dicts/english.txt")
        }
        _ => panic!("the word list should be fetched"),
    }
    assert!(matches!(
        ensure_dictionary("spanish", Some("/home/u"), none, false),
        DictionaryPlan::FetchHunspell { .. }
    ));
}

#[test]
fn a_damaged_pair_is_refused() {
    let location = DictionaryLocation::Hunspell { dic: "d".to_string(), aff: "a".to_string() };
    let missing = DictionaryFiles::Hunspell { aff: Some(String::new()), dic: None };
    assert_eq!(
        load_dictionary(&location, &missing).err(),
        Some("Failed to read Hunspell dictionary file: d".to_string())
    );
    let unreadable = DictionaryFiles::Hunspell { aff: None, dic: None };
    assert_eq!(
        load_dictionary(&location, &unreadable).err(),
        Some("Failed to read Hunspell affix file: a".to_string())
    );
    let damaged = DictionaryFiles::Hunspell {
        aff: Some("SFX S Y notanumber\n".to_string()),
        dic: Some("1\nsol\n".to_string()),
    };
    assert!(load_dictionary(&location, &damaged)
        .err()
        .unwrap()
        .starts_with("Failed to parse Hunspell dictionary (d, a): "));
}

#[test]
fn babel_options_name_languages() {
    let known = |o: &str| texforge::linter::spell::normalize_babel_option(o);
    assert_eq!(known("spanish"), Some("spanish".to_string()));
    assert_eq!(known("main=spanish"), Some("spanish".to_string()));
    assert_eq!(known("shorthands=off"), None);
}

#[test]
fn a_pair_knows_the_words_of_its_files() {
    let location = DictionaryLocation::Hunspell { dic: "d".to_string(), aff: "a".to_string() };
    let files = DictionaryFiles::Hunspell {
        aff: Some(MINI_AFF.to_string()),
        dic: Some(MINI_DIC.to_string()),
    };
    let d = load_dictionary(&location, &files).ok().unwrap();
    assert!(d.contains("gato") && d.contains("soles") && !d.contains("gatos"));
}

#[test]
fn a_line_that_may_outgrow_a_stem_is_refused() {
    let location = DictionaryLocation::Hunspell { dic: "d".to_string(), aff: "a".to_string() };
    let pair = |word: String| DictionaryFiles::Hunspell {
        aff: Some(MINI_AFF.to_string()),
        dic: Some(format!("1\n{word}\n")),
    };
    let long = format!("a{}", "\u{130}".repeat(32767));
    assert_eq!(
        load_dictionary(&location, &pair(long)).err().unwrap(),
        "Failed to parse Hunspell dictionary (d, a): a line of the word file is too long"
    );
    assert!(load_dictionary(&location, &pair("a".repeat(21846))).is_ok());
    assert!(load_dictionary(&location, &pair("a".repeat(65535))).is_ok());
    assert!(load_dictionary(&location, &pair("\u{e9}".repeat(32767))).is_ok());
    assert!(load_dictionary(&location, &pair("\u{416}".repeat(32767))).is_ok());
    let over = load_dictionary(&location, &pair("a".repeat(65536))).err().unwrap();
    assert!(over.ends_with("word is too long (longer than u16::MAX bytes)"), "{over}");
    let widest = format!("a{}", "\u{130}".repeat(10922));
    assert!(load_dictionary(&location, &pair(widest)).is_ok());
}

#[test]
fn an_argument_is_enough_behind_the_last_token() {
    let args = vec![" c ".to_string()];
    for k in [0usize, 5, usize::MAX] {
        let found = try_resolve_accent("c", &args, &Vec::new(), k);
        assert!(matches!(found, Some(('ç', AccentBase::Argument))));
        assert!(try_resolve_accent("c", &Vec::new(), &Vec::new(), k).is_none());
    }
}

#[test]
fn positions_count_bytes() {
    let source = "ñandú\n\\'{e}tude $x";
    let scanned = tokenize_with_spans(source);
    let starts: Vec<usize> = scanned.tokens.iter().map(|t| t.start).collect();
    assert_eq!(starts[0], 0);
    assert_eq!(starts[1], source.find('\\').unwrap());
    assert_eq!(scanned.unclosed_math, vec![source.find('$').unwrap()]);
    let (text, pieces) = build_spell_text(&scanned.tokens, source);
    assert!(text.starts_with("ñandú\nétude "));
    assert_eq!(pieces[..3], [(0, 1), ("ñandú\n".len(), 2), ("ñandú\né".len(), 2)]);
    assert_eq!(line_for_offset(&pieces, text.find("étude").unwrap()), 2);
    assert_eq!(extract_base_from_text_start("\u{a0}{e}x"), Some(('e', 5)));
}

#[test]
fn tool_output_is_told_on_one_line() {
    let tail = tail_lines("a\n\n  b  \r\nc\n", 2);
    assert_eq!(tail, "b | c");
    let msg = skip_message("spanish", None, &tail);
    assert_eq!(
        msg,
        "Spell-check skipped: resolved language 'spanish', but its dictionary \
         (<unknown: could not determine home directory>) is unavailable: b | c"
    );
    assert_eq!(tail_lines("one\ntwo", 5), "one | two");
    assert_eq!(tail_lines("one\ntwo", 0), "");
}

#[test]
fn letters_grow_no_more_than_stems_leave_room_for() {
    for c in '\0'..=char::MAX {
        let lower: usize = c.to_lowercase().map(char::len_utf8).sum();
        let upper: usize = c.to_uppercase().map(char::len_utf8).sum();
        let grows = matches!(c, '\u{130}' | '\u{23a}' | '\u{23e}');
        assert!(lower <= c.len_utf8() + usize::from(grows), "{c:?}");
        let plain = (c <= '\u{17f}' && c != '\u{149}')
            || (('\u{391}'..='\u{3ce}').contains(&c) && c != '\u{3b0}')
            || ('\u{400}'..='\u{52f}').contains(&c);
        let room = if plain { 0 } else { 4 };
        assert!(upper <= c.len_utf8() + room, "{c:?}");
    }
}

#[test]
fn a_turkic_pair_needs_room_for_the_dotless_letter() {
    let location = DictionaryLocation::Hunspell { dic: "d".to_string(), aff: "a".to_string() };
    let pair = |lang: &str| DictionaryFiles::Hunspell {
        aff: Some(format!("SET UTF-8\nLANG {lang}\n")),
        dic: Some(format!("1\na{}\n", "I".repeat(40000))),
    };
    assert!(load_dictionary(&location, &pair("es")).is_ok());
    assert!(load_dictionary(&location, &pair("tr")).is_err());
}
