use texforge::formatter::bib::{format_bib, try_format_bib};
use texforge::linter::accents::compose_accent;
use texforge::linter::install::{
    install_start, install_step, InstallAction, InstallEvent, PairFiles, Stage,
};
use texforge::number::{parse_u64, show, show_hex};
use texforge::order::{before_str, sort};
use texforge::paths::{
    extension_of, file_name_of, file_stem_of, goes_up, join, relative_to, same_path, set_extension,
    under,
};
use texforge::position::{byte_length, byte_offsets, line_of_byte, string_length};
use texforge::pdftext::{expand_ligatures, format_page_breaks, normalize_pdf_text, page_breaks};
use texforge::texparse::{tokenize, TokenizedFile};
use texforge::utils::sanitize_filename;
use texforge::wordcount::{count_by_file, count_document};
use texforge::texutil::{
    collect_tex_files, extract_commands, resolve_tex_path, strip_comment, SourceFile,
};
use texforge::version::SemVer;
use texforge::wordset::WordSet;

fn file(path: &str, content: Option<&str>) -> SourceFile {
    SourceFile { path: path.to_string(), content: content.map(str::to_string) }
}

#[test]
fn formatting_twice_changes_nothing() {
    let messy = "\\begin{a}\n\n\n   x % {\n\\begin{verbatim}\n   raw\n\\end{verbatim}\n }\n\\end{a}";
    let once = texforge::formatter::format(messy);
    assert_eq!(texforge::formatter::format(&once), once);
    let bib = try_format_bib("@Book{k,Title={A  B},year=1999}").unwrap();
    assert_eq!(try_format_bib(&bib).unwrap(), bib);
}

#[test]
fn numbers_are_read_as_they_are_shown() {
    for n in [0u64, 7, 10, 4096, u64::MAX] {
        assert_eq!(parse_u64(&show(n)), Some(n));
        assert_eq!(show(n), n.to_string());
        assert_eq!(show_hex(n), format!("{n:016x}"));
    }
    assert_eq!(parse_u64("18446744073709551616"), None);
    assert_eq!(parse_u64("+5"), Some(5));
    assert_eq!(parse_u64(""), None);
    assert_eq!(parse_u64("x"), None);
}

#[test]
fn texts_are_ordered_as_strings_are() {
    let words: Vec<String> =
        ["b", "", "a", "ab", "é", "z", "Z"].iter().map(|w| w.to_string()).collect();
    let mut expected = words.clone();
    expected.sort();
    assert_eq!(sort(&words), expected);
    for a in &words {
        for b in &words {
            assert_eq!(before_str(a, b), a < b);
        }
    }
}

#[test]
fn paths_behave_as_in_the_standard_library() {
    for p in ["/a/b.tex", "a/b/", "a//b/./c.tar.gz", "..", "/", "", "./x", ".hidden", "a/.."] {
        let std = std::path::Path::new(p);
        assert_eq!(file_name_of(p), std.file_name().map(|s| s.to_string_lossy().to_string()));
        assert_eq!(extension_of(p), std.extension().map(|s| s.to_string_lossy().to_string()));
        assert_eq!(file_stem_of(p), std.file_stem().map(|s| s.to_string_lossy().to_string()));
        assert_eq!(set_extension(p, "pdf"), std.with_extension("pdf").to_string_lossy());
        for q in ["x", "/y", "", "a/b"] {
            assert_eq!(join(p, q), std.join(q).to_string_lossy());
            assert_eq!(under(p, q), std.starts_with(q));
            assert_eq!(same_path(p, q), std == std::path::Path::new(q));
            if let Some(r) = relative_to(p, q) {
                assert!(same_path(&join(q, &r), p));
            }
            assert_eq!(
                relative_to(p, q),
                std.strip_prefix(q).ok().map(|r| r.to_string_lossy().to_string())
            );
        }
    }
    assert!(goes_up("a/../b") && !goes_up("a..b"));
}

#[test]
fn positions_agree_in_characters_and_bytes() {
    let text = "αβ\nγ\nx";
    let chars: Vec<char> = text.chars().collect();
    assert_eq!(byte_length(&chars), text.len() as u128);
    assert_eq!(string_length(text), text.len());
    assert_eq!(byte_offsets(text), vec![0, 2, 4, 5, 7, 8, 9]);
    assert_eq!(line_of_byte(&chars, 0), 1);
    assert_eq!(line_of_byte(&chars, 5), 2);
    let byte = text.char_indices().nth(5).unwrap().0;
    assert_eq!(line_of_byte(&chars, byte as u128), 3);
}

#[test]
fn comments_end_lines_unless_escaped() {
    assert_eq!(strip_comment("a % b"), "a ");
    assert_eq!(strip_comment(r"50\% % c"), r"50\% ");
    assert_eq!(strip_comment("plain"), "plain");
    let once = strip_comment("a % b % c");
    assert_eq!(strip_comment(&once), once);
    assert_eq!(extract_commands(r"\cite[p. 1]{ a } \cite{b}", "cite"), vec!["a", "b"]);
}

#[test]
fn files_are_collected_once_and_circles_are_named() {
    let tree = vec![
        file("/p/main.tex", Some("\\input{a}\n\\input{b}\n% \\input{c}")),
        file("/p/a.tex", Some("\\input{main}")),
        file("/p/b.tex", None),
        file("/p/c.tex", Some("")),
    ];
    let c = collect_tex_files("/p", "main.tex", &tree);
    assert_eq!(c.files, vec!["/p/main.tex", "/p/a.tex", "/p/b.tex"]);
    assert_eq!(c.circular.len(), 1);
    assert_eq!(resolve_tex_path("/p", "ch/one"), "/p/ch/one.tex");
    assert_eq!(resolve_tex_path("/p", "ch/one.sty"), "/p/ch/one.sty");
}

#[test]
fn versions_are_read_as_they_are_shown() {
    for v in ["0.0.0", "1.2.3", "10.20.30-rc.1", "4294967295.0.1"] {
        let parsed = SemVer::parse(v).unwrap();
        assert_eq!(parsed.to_string(), v);
        assert_eq!(SemVer::parse(&parsed.to_string()), Some(parsed));
    }
    let a = SemVer::parse("1.0.0-alpha").unwrap();
    let b = SemVer::parse("1.0.0-beta").unwrap();
    let c = SemVer::parse("1.0.0").unwrap();
    assert!(a < b && b < c && a < c);
    assert!(c.is_newer_than(&b) && !b.is_newer_than(&c) && !c.is_newer_than(&c));
}

#[test]
fn a_set_holds_each_word_once() {
    let mut set = WordSet::new();
    for w in ["b", "a", "b"] {
        set.insert(w);
    }
    assert_eq!(set.len(), 2);
    assert!(set.contains("a") && set.contains("b") && !set.contains("c"));
}

#[test]
fn formatting_keeps_the_lines_that_are_not_blank() {
    let solid = |s: &str| -> Vec<String> {
        s.lines().map(|l| l.trim().to_string()).filter(|l| !l.is_empty()).collect()
    };
    let messy = "\\section{A}\n\n\n   some    text\n\\begin{itemize}\n\\item x\n\\end{itemize}\n\n";
    assert_eq!(solid(&texforge::formatter::format(messy)), solid(messy));
}

#[test]
fn formatting_leaves_verbatim_lines_alone() {
    let source = "\\begin{verbatim}\n   kept as it is   \n\\end{verbatim}\n";
    assert!(texforge::formatter::format(source).contains("\n   kept as it is   \n"));
}

#[test]
fn a_bibliography_that_is_not_balanced_is_left_alone() {
    for source in ["@a{k, t = {x \"} y\"}}", "@a(k, t = })", "@a(k, t = }{)", "@a{k, t = {5\" a}}"] {
        assert_eq!(try_format_bib(source), None, "{source}");
        assert_eq!(format_bib(source), source);
    }
    let quoted = "@a(k, t = \"x {y} z\", u = {say \"hi\"})";
    let once = format_bib(quoted);
    assert_eq!(once, "@a{k,\n  t = \"x {y} z\",\n  u = {say \"hi\"},\n}\n");
    assert_eq!(format_bib(&once), once);
}

#[test]
fn a_quote_inside_braces_stands_alone() {
    let source = "@a{k, t = {5\" disk}, u = {3\" disk}}";
    let once = format_bib(source);
    assert_eq!(once, "@a{k,\n  t = {5\" disk},\n  u = {3\" disk},\n}\n");
    assert_eq!(format_bib(&once), once);
    let accents = "@book{k, author = {G{\\\"o}del}, title = {M{\\\"u}ller}}";
    let once = format_bib(accents);
    assert_eq!(
        once,
        "@book{k,\n  author = {G{\\\"o}del},\n  title  = {M{\\\"u}ller},\n}\n"
    );
    assert_eq!(format_bib(&once), once);
    let across = format_bib("@a{k, t = {5\" a}}\n@b{j, t = {3\" b}}");
    assert_eq!(across, "@a{k,\n  t = {5\" a}} @b{j,\n  t = {3\" b},\n}\n");
    assert_eq!(format_bib(&across), across);
}

#[test]
fn entries_without_a_key_lose_no_definition() {
    let once = try_format_bib("@STRING(acm = \"A, B\")\n@Misc{x}").unwrap();
    assert_eq!(once, "@string{acm = \"A, B\"}\n\n@misc{x\n}\n");
    assert_eq!(try_format_bib(&once).unwrap(), once);
    let several = "@string{a = {x}, b = {y}}";
    assert_eq!(try_format_bib(several), None);
    assert_eq!(format_bib(several), several);
}

#[test]
fn bibliographies_in_braces_have_one_form() {
    let source = "@Book{ñandú,  Title = {A {B,  =C}},{x,y=z} = {1} , year=1999, }\n@misc{k}";
    let once = format_bib(source);
    assert_eq!(
        once,
        "@book{ñandú,\n  title   = {A {B, =C}},\n  {x,y=z} = {1},\n  year    = 1999,\n}\n\n@misc{k\n}\n"
    );
    assert_eq!(format_bib(&once), once);
}

#[test]
fn sanitized_names_are_tidy_and_stay() {
    for title in ["  My -- Title! ", "---", "", "Ünï cøde", "a_b", "X1--Y2"] {
        let name = sanitize_filename(title);
        assert!(!name.starts_with('-') && !name.ends_with('-') && !name.contains("--"), "{name}");
        assert_eq!(sanitize_filename(&name), name);
        assert_eq!(name.is_empty(), !title.chars().any(char::is_alphanumeric));
    }
    assert_eq!(sanitize_filename("  My -- Title! "), "my-title");
}

#[test]
fn normalized_text_stays() {
    for raw in ["Arti\u{FB01}cial Learn-\ning", "a-\r\n\nb-\nc-\n-d", "so\u{AD}ft -\nx", "1-\n2"] {
        let once = normalize_pdf_text(raw);
        assert_eq!(normalize_pdf_text(&once), once);
        assert!(!once.contains('\u{AD}') && !once.contains('\u{FB01}'));
    }
    assert_eq!(normalize_pdf_text("a-\r\n\nb-\nc-\n-d"), "abc-\n-d");
}

#[test]
fn capitals_compose_as_small_letters_do() {
    for accent in "'`^\"~=.cvuHrk?".chars() {
        for base in 'a'..='z' {
            let small = compose_accent(accent, base);
            assert!(small.map_or(true, |c| !c.is_ascii() && c.is_alphabetic()));
            let big = compose_accent(accent, base.to_ascii_uppercase());
            assert_eq!(big, small.map(|c| c.to_uppercase().next().unwrap()));
            if let Some(c) = small {
                assert!(!c.is_ascii() && c.is_alphabetic() && c.is_lowercase());
            }
        }
    }
}

#[test]
fn a_section_that_is_on_no_page_changes_nothing() {
    let pages: Vec<String> = vec!["One\ntext".to_string(), "2 Two\n".to_string()];
    let all: Vec<(String, String)> = [("1", "One"), ("1.1", "Nowhere"), ("2", "Two")]
        .iter()
        .map(|(n, t)| (n.to_string(), t.to_string()))
        .collect();
    let mut fewer = all.clone();
    fewer.remove(1);
    let shown = |s: &Vec<(String, String)>| format_page_breaks(&page_breaks(&pages, s));
    assert_eq!(shown(&all), shown(&fewer));
    assert_eq!(shown(&all), "page=1 section=1 title=One\npage=2 section=2 title=Two");
}

#[test]
fn the_words_of_the_files_add_up() {
    let files: Vec<TokenizedFile> = [
        ("a.tex", "\\begin{document}\nzero\n\\section{One two}\nthree four\n"),
        ("b.tex", "five\n\\section{Six}\nseven\n\\end{document}\n"),
    ]
    .iter()
    .map(|(path, source)| TokenizedFile { path: path.to_string(), tokens: tokenize(source) })
    .collect();
    let by_file = count_by_file("d", &files);
    let by_section = count_document("d", &files);
    assert_eq!(by_file.total_words, by_section.total_words);
    assert_eq!(by_file.sections.len(), 2);
    assert_eq!(by_file.sections.iter().map(|s| s.words).sum::<usize>(), by_file.total_words);
}

#[test]
fn half_a_pair_is_never_left() {
    let files = PairFiles {
        dic_url: "u1".into(),
        aff_url: "u2".into(),
        dic: "es.dic".into(),
        aff: "es.aff".into(),
        dic_tmp: "es.dic.part".into(),
        aff_tmp: "es.aff.part".into(),
    };
    // The step that fails: behind the last one, none does.
    for failing in 0..7 {
        let mut there: Vec<String> = Vec::new();
        let (mut stage, mut action) = install_start(&files);
        let mut step = 0;
        let message = loop {
            let event = if step == failing {
                InstallEvent::Failed("refused".into())
            } else {
                InstallEvent::Done
            };
            match action {
                InstallAction::Succeed(_) => break None,
                InstallAction::Fail(m) => break Some(m),
                InstallAction::Move { to, .. } if step != failing => there.push(to),
                InstallAction::Remove { path } => there.retain(|p| *p != path),
                _ => {}
            }
            (stage, action) = install_step(&files, stage, &event);
            step += 1;
        };
        let expected = [
            Some("refused"),
            Some("refused"),
            Some("Failed to write es.dic.part"),
            Some("Failed to write es.aff.part"),
            Some("Failed to install es.dic"),
            Some("Failed to install es.aff"),
            None,
        ];
        assert_eq!(message.as_deref(), expected[failing]);
        assert_eq!(there.len(), if failing == 6 { 2 } else { 0 }, "step {failing}");
        assert_eq!(stage == Stage::Installed, failing == 6);
    }
}

#[test]
fn nothing_occurs_around_every_character() {
    assert_eq!(texforge::formatter::count_occurrences("abc", ""), 4);
}

#[test]
fn copies_and_assets_stay_in_the_build_directory() {
    let copy = texforge::diagrams::copy_path("/p", "/p/ch/a.tex", "/tmp/b/");
    assert_eq!(copy, "/tmp/b/ch/a.tex");
    assert!(under(&copy, "/tmp/b"));
    let asset = texforge::utils::mirror_target("/p/img/x.png", "/p", "/tmp/b").unwrap();
    assert!(under(&asset, "/tmp/b"));
    assert_eq!(texforge::utils::mirror_target("/p/a.tex", "/p", "/tmp/b"), None);
    assert_eq!(texforge::diagrams::copy_path("/p", "/q/a.tex", "/tmp/b"), "/q/a.tex");
}

#[test]
fn keys_that_are_cited_are_not_unused() {
    let mut keys = WordSet::new();
    for key in ["b", "a", "c"] {
        keys.insert(key);
    }
    let files = |text: &str| vec![("main.tex".to_string(), text.to_string())];
    let unused = |text: &str| texforge::linter::bib::unused(&keys, &files(text));
    assert_eq!(unused("\\cite{c}"), vec!["a", "b"]);
    assert!(unused("\\nocite{*}").is_empty());
}

#[test]
fn bibliographies_in_latin_letters_have_one_form() {
    let source = "@LIBRÓ{k, ÁÑO = 1999, Číslo = {5}}";
    let once = format_bib(source);
    assert_eq!(once, "@libró{k,\n  áño     = 1999,\n  číslo   = {5},\n}\n");
    assert_eq!(format_bib(&once), once);
    for title in ["Año Nuevo", "ŽLUŤOUČKÝ KŮŇ", "Ÿ × ÷ ß"] {
        let name = sanitize_filename(title);
        assert_eq!(name.to_lowercase(), name);
        assert_eq!(sanitize_filename(&name), name);
    }
    assert_eq!(sanitize_filename("ŽLUŤOUČKÝ KŮŇ"), "žluťoučký-kůň");
}

#[test]
fn latin_letters_and_their_small_letters_stand_in_rows() {
    for c in '\0'..='\u{17f}' {
        if c == '\u{130}' {
            continue;
        }
        let n = c as u32;
        let small = match n {
            0x41..=0x5a | 0xc0..=0xd6 | 0xd8..=0xde => n + 32,
            0x100..=0x137 | 0x14a..=0x177 if n % 2 == 0 => n + 1,
            0x139..=0x148 | 0x179..=0x17e if n % 2 == 1 => n + 1,
            0x178 => 0xff,
            _ => n,
        };
        assert_eq!(c.to_lowercase().map(|l| l as u32).collect::<Vec<_>>(), vec![small], "{c:?}");
    }
    for c in '\u{80}'..='\u{24f}' {
        let letter = matches!(c, '\u{aa}' | '\u{b5}' | '\u{ba}')
            || (c >= '\u{c0}' && c != '\u{d7}' && c != '\u{f7}');
        let number = matches!(c, '\u{b2}' | '\u{b3}' | '\u{b9}' | '\u{bc}'..='\u{be}');
        assert_eq!(c.is_alphabetic(), letter, "{c:?}");
        assert_eq!(c.is_alphanumeric(), letter || number, "{c:?}");
    }
}

#[test]
fn ligatures_are_spelled_out_one_by_one() {
    let (a, b) = ("e\u{FB03}cient \u{FB02}", "\u{FB01}le \u{FB06}op");
    let whole = expand_ligatures(&format!("{a}{b}"));
    assert_eq!(whole, format!("{}{}", expand_ligatures(a), expand_ligatures(b)));
    assert_eq!(whole, "efficient flfile stop");
}

#[test]
fn every_input_that_is_there_is_followed() {
    let tree = vec![
        file("/p/main.tex", Some("\\input{a}\n\\input{gone}\n\\input{b}")),
        file("/p/a.tex", Some("\\input{deep}")),
        file("/p/deep.tex", Some("")),
        file("/p/b.tex", Some("% \\input{idle}")),
        file("/p/idle.tex", Some("")),
    ];
    let c = collect_tex_files("/p", "main.tex", &tree);
    assert_eq!(c.files, vec!["/p/main.tex", "/p/a.tex", "/p/deep.tex", "/p/b.tex"]);
}

#[test]
fn later_pages_belong_to_later_sections() {
    let section = |n: &str, t: &str| (n.to_string(), t.to_string());
    let sections = vec![section("1", "Alpha"), section("2", "Beta"), section("3", "Gamma")];
    let pages: Vec<String> =
        ["1 Alpha\ntext", "more\n2 Beta\n", "3 Gamma\n1 Alpha\n", "end"].map(String::from).to_vec();
    let breaks = page_breaks(&pages, &sections);
    let shown: Vec<&str> = breaks.iter().map(|b| b.section.as_deref().unwrap()).collect();
    assert_eq!(shown, vec!["1", "1", "3", "3"]);
}

#[test]
fn the_lines_of_a_formatted_source_are_those_of_the_source() {
    let source = "\\begin{verbatim}\na\r\r\n\n  b\n\\end{verbatim}\n\n\n  c  \n";
    let solid = |s: &str| -> Vec<String> {
        s.lines().map(|l| l.trim().to_string()).filter(|l| !l.is_empty()).collect()
    };
    assert_eq!(solid(&texforge::formatter::format(source)), solid(source));
    assert_eq!(solid(&texforge::formatter::format("\n \n")), solid(""));
}
