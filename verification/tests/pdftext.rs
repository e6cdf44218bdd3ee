use lopdf::{Dictionary, Document, Object, ObjectId, Stream, StringFormat};
use texforge::linter::Severity;
use texforge::pdfdoc::{PdfDocument, PdfFault, PdfObject};
use texforge::pdftext::{
    expand_ligatures, fidelity_findings, fidelity_missing_words, format_page_breaks,
    check_quality, is_valid_pdf_date, line_is_section_heading, normalize_pdf_text, page_breaks, pdf_info,
    quality_findings,
    rejoin_hyphenated_linebreaks, significant_words, MissingWord, WordCounts, PDF_DATE_EXPECTED,
};
use texforge::texparse::{tokenize, Token, TokenizedFile};

fn text(s: &str) -> Object {
    Object::String(s.as_bytes().to_vec(), StringFormat::Literal)
}

fn dict(entries: Vec<(&str, Object)>) -> Dictionary {
    let mut d = Dictionary::new();
    for (k, v) in entries {
        d.set(k, v);
    }
    d
}

fn object_of(o: &Object) -> PdfObject {
    match o {
        Object::Null => PdfObject::Null,
        Object::Boolean(_) => PdfObject::Boolean,
        Object::Integer(_) => PdfObject::Integer,
        Object::Real(_) => PdfObject::Real,
        Object::Name(b) => PdfObject::Name(b.clone()),
        Object::String(b, _) => PdfObject::Text(b.clone()),
        Object::Array(a) => PdfObject::Array(a.iter().map(object_of).collect()),
        Object::Dictionary(d) => dictionary_of(d),
        Object::Stream(_) => PdfObject::Stream,
        Object::Reference(id) => PdfObject::Reference(*id),
    }
}

fn dictionary_of(d: &Dictionary) -> PdfObject {
    PdfObject::Dictionary(d.iter().map(|(k, v)| (k.clone(), object_of(v))).collect())
}

/// What a file holds.
fn document(bytes: &[u8]) -> PdfDocument {
    let file = Document::load_mem(bytes).unwrap();
    PdfDocument {
        trailer: dictionary_of(&file.trailer),
        objects: file.objects.iter().map(|(id, o)| (*id, object_of(o))).collect(),
        pages: file.get_pages().into_values().collect(),
    }
}

/// A font, with its program where it is embedded.
fn font(doc: &mut Document, name: &str, embedded: bool) -> ObjectId {
    let mut f = dict(vec![
        ("Type", Object::Name(b"Font".to_vec())),
        ("Subtype", Object::Name(b"Type1".to_vec())),
        ("BaseFont", Object::Name(name.as_bytes().to_vec())),
    ]);
    if embedded {
        let program = doc.add_object(Stream::new(Dictionary::new(), vec![1, 2, 3]));
        let descriptor = doc.add_object(dict(vec![
            ("Type", Object::Name(b"FontDescriptor".to_vec())),
            ("FontFile", Object::Reference(program)),
        ]));
        f.set("FontDescriptor", Object::Reference(descriptor));
    }
    doc.add_object(f)
}

/// A document with one font on all of its pages, and the given metadata.
fn pdf(pages: usize, name: &str, embedded: bool, info: Vec<(&str, Object)>) -> Vec<u8> {
    let mut doc = Document::with_version("1.5");
    let font_id = font(&mut doc, name, embedded);
    let pages_id = doc.new_object_id();
    let mut kids: Vec<Object> = Vec::new();
    for _ in 0..pages {
        let resources =
            dict(vec![("Font", Object::Dictionary(dict(vec![("F1", Object::Reference(font_id))])))]);
        let content = doc.add_object(Stream::new(Dictionary::new(), b"BT ET".to_vec()));
        let page = doc.add_object(dict(vec![
            ("Type", Object::Name(b"Page".to_vec())),
            ("Parent", Object::Reference(pages_id)),
            ("Resources", Object::Dictionary(resources)),
            ("Contents", Object::Reference(content)),
        ]));
        kids.push(Object::Reference(page));
    }
    let count = kids.len() as i64;
    doc.objects.insert(
        pages_id,
        Object::Dictionary(dict(vec![
            ("Type", Object::Name(b"Pages".to_vec())),
            ("Kids", Object::Array(kids)),
            ("Count", Object::Integer(count)),
        ])),
    );
    let catalog = doc.add_object(dict(vec![
        ("Type", Object::Name(b"Catalog".to_vec())),
        ("Pages", Object::Reference(pages_id)),
    ]));
    doc.trailer.set("Root", Object::Reference(catalog));
    let info_id = doc.add_object(dict(info));
    doc.trailer.set("Info", Object::Reference(info_id));
    let mut out = Vec::new();
    doc.save_to(&mut out).unwrap();
    out
}

/// One page, an embedded font and metadata in order.
fn sound_pdf() -> Vec<u8> {
    pdf(
        1,
        "LMRoman10-Regular",
        true,
        vec![("Creator", text("tectonic")), ("CreationDate", text("D:20260807144421-00'00'"))],
    )
}

/// Two pages, a font that is not embedded, and dates that are out of order.
fn malformed_pdf() -> Vec<u8> {
    pdf(
        2,
        "Helvetica",
        false,
        vec![("CreationDate", text("July 28, 2026")), ("ModDate", text("August 7, 2026"))],
    )
}

fn pages() -> Vec<String> {
    vec![
        "Introduction\nArti\u{FB01}cial Intelligence and Deep Learn-\ning.".to_string(),
        "Methods\nMore content on page two.".to_string(),
    ]
}

#[test]
fn expand_ligatures_maps_common_codepoints() {
    assert_eq!(expand_ligatures("Arti\u{FB01}cial"), "Artificial");
    assert_eq!(expand_ligatures("ML\u{FB02}ow"), "MLflow");
    assert_eq!(expand_ligatures("work\u{FB02}ows"), "workflows");
    assert_eq!(expand_ligatures("local-\u{FB01}rst"), "local-first");
    assert_eq!(expand_ligatures("\u{FB00}\u{FB03}\u{FB04}"), "ffffiffl");
}

#[test]
fn rejoin_hyphenated_linebreaks_merges_split_words() {
    assert_eq!(
        rejoin_hyphenated_linebreaks("Deep Learn-\ning"),
        "Deep Learning"
    );
    assert_eq!(
        rejoin_hyphenated_linebreaks("Deep Learn-\r\ning"),
        "Deep Learning"
    );
    // Real hyphen in a compound must stay.
    assert_eq!(rejoin_hyphenated_linebreaks("local-first"), "local-first");
}

#[test]
fn normalize_handles_ligatures_and_hyphenation_together() {
    let raw = "Arti\u{FB01}cial Deep Learn-\ning work\u{FB02}ows";
    assert_eq!(
        normalize_pdf_text(raw),
        "Artificial Deep Learning workflows"
    );
}

#[test]
fn page_breaks_ignore_a_title_mentioned_inside_prose_te9() {
    let pages = vec![
        "Jane Doe\ncontacto@example.com\nFundador de UniverLab.org y contribuidor activo en open source\nPerfil Profesional\nExperiencia Laboral\nSix positions of professional experience follow.".to_string(),
        "UniverLab.org\nFormación Académica\nHabilidades Técnicas\nRust, Python, and more.".to_string(),
    ];
    let sections = vec![
        ("1".into(), "Perfil Profesional".into()),
        ("2".into(), "Experiencia Laboral".into()),
        ("3".into(), "UniverLab.org".into()),
        ("4".into(), "Formación Académica".into()),
        ("5".into(), "Habilidades Técnicas".into()),
    ];
    let breaks = page_breaks(&pages, &sections);
    let formatted = format_page_breaks(&breaks);
    assert_eq!(
        formatted,
        "page=1 section=1 title=Perfil Profesional\npage=2 section=3 title=UniverLab.org"
    );
}

#[test]
fn page_breaks_title_only_in_prose_never_matches() {
    let pages = vec![
        "This report inline-mentions Special Report but never as a heading.".to_string(),
        "More filler text on the second page, still no heading line.".to_string(),
    ];
    let sections = vec![("1".into(), "Special Report".into())];
    let breaks = page_breaks(&pages, &sections);
    let formatted = format_page_breaks(&breaks);
    assert_eq!(formatted, "page=1 section= title=\npage=2 section= title=");
}

#[test]
fn page_breaks_carry_over_when_first_heading_is_preceded_by_body_text() {
    let pages = vec![
        "Alpha\nBody text under Alpha continues here.".to_string(),
        "Trailing body text from Alpha spills onto this page.\nBeta\nMore Beta content."
            .to_string(),
    ];
    let sections = vec![("1".into(), "Alpha".into()), ("2".into(), "Beta".into())];
    let breaks = page_breaks(&pages, &sections);
    let formatted = format_page_breaks(&breaks);
    assert_eq!(
        formatted,
        "page=1 section=1 title=Alpha\npage=2 section=1 title=Alpha"
    );
}

#[test]
fn page_breaks_several_headings_on_one_page_first_wins() {
    let pages = vec![
        "Cover page with no headings at all.".to_string(),
        "Gamma\nDelta\nBody text under Delta.".to_string(),
        "Body continues, no new heading here.".to_string(),
    ];
    let sections = vec![("1".into(), "Gamma".into()), ("2".into(), "Delta".into())];
    let breaks = page_breaks(&pages, &sections);
    let formatted = format_page_breaks(&breaks);
    assert_eq!(
        formatted,
        "page=1 section= title=\npage=2 section=1 title=Gamma\npage=3 section=1 title=Gamma"
    );
}

#[test]
fn page_breaks_pages_before_first_heading_are_unattributed() {
    let pages = vec![
        "Cover page with no headings at all.".to_string(),
        "Epsilon\nBody text under Epsilon.".to_string(),
    ];
    let sections = vec![("1".into(), "Epsilon".into())];
    let breaks = page_breaks(&pages, &sections);
    let formatted = format_page_breaks(&breaks);
    assert_eq!(
        formatted,
        "page=1 section= title=\npage=2 section=1 title=Epsilon"
    );
}

#[test]
fn line_is_section_heading_matches_dotted_numbering() {
    assert!(line_is_section_heading(
        "2.4. Estilos de Diagrama (style)",
        "Estilos de Diagrama (style)"
    ));
}

#[test]
fn line_is_section_heading_matches_single_level_numbering() {
    assert!(line_is_section_heading(
        "2. Diagramas Embebidos",
        "Diagramas Embebidos"
    ));
}

#[test]
fn line_is_section_heading_matches_three_level_numbering() {
    assert!(line_is_section_heading("2.4.1 Something", "Something"));
}

#[test]
fn line_is_section_heading_rejects_table_of_contents_line_te_d() {
    assert!(!line_is_section_heading(
        "2.4. Estilos de Diagrama (style) . . . . . . . . . . . . . . . . . 3",
        "Estilos de Diagrama (style)"
    ));
}

#[test]
fn line_is_section_heading_matches_unnumbered_heading() {
    assert!(line_is_section_heading(
        "Estilos de Diagrama (style)",
        "Estilos de Diagrama (style)"
    ));
}

#[test]
fn page_breaks_numbered_heading_matches_and_toc_does_not_te_d() {
    let pages = vec![
        "Table of Contents\n2.4. Estilos de Diagrama (style) . . . . . . . . . . . . . . . . . 3"
            .to_string(),
        "Some other page with no heading.".to_string(),
        "2.4. Estilos de Diagrama (style)\nBody text about diagram styles follows."
            .to_string(),
    ];
    let sections = vec![("2.4".into(), "Estilos de Diagrama (style)".into())];
    let breaks = page_breaks(&pages, &sections);
    let formatted = format_page_breaks(&breaks);
    assert_eq!(
        formatted,
        "page=1 section= title=\npage=2 section= title=\npage=3 section=2.4 title=Estilos de Diagrama (style)"
    );
}

#[test]
fn pdf_date_accepts_spec_shape_and_timezone() {
    assert!(is_valid_pdf_date("D:20260807144421"));
    assert!(is_valid_pdf_date("D:20260807144421Z"));
    assert!(is_valid_pdf_date("D:20260807144421-00'00'"));
    assert!(is_valid_pdf_date("D:20260807144421+05'30'"));
    assert!(!is_valid_pdf_date("July 28, 2026"));
    assert!(!is_valid_pdf_date("D:20260807"));
    assert!(!is_valid_pdf_date(""));
}

#[test]
fn fidelity_flags_missing_words_without_flooding() {
    let mut source = WordCounts::new();
    source.insert("Artificial", 3);
    source.insert("MLflow", 1);
    source.insert("present", 1);
    // Raw ligature text — without normalize, words are missing.
    let raw = "Arti\u{FB01}cial ML\u{FB02}ow present";
    let missing_raw = fidelity_missing_words(&source, raw);
    assert!(
        missing_raw
            .iter()
            .any(|m| m.word == "Artificial" && m.count == 3),
        "{missing_raw:?}"
    );
    // After normalize, only nothing missing for these.
    let missing_norm = fidelity_missing_words(&source, &normalize_pdf_text(raw));
    assert!(missing_norm.is_empty(), "{missing_norm:?}");
}

#[test]
fn fidelity_findings_are_warnings_with_empty_group_suggestion() {
    let missing = vec![MissingWord {
        word: "Artificial".into(),
        count: 3,
    }];
    let findings = fidelity_findings(&missing);
    assert_eq!(findings.len(), 1);
    assert_eq!(findings[0].severity, Severity::Warning);
    let suggestion = findings[0].suggestion.as_deref().unwrap();
    assert!(
        suggestion.contains("Artif{}icial"),
        "suggestion was {suggestion}"
    );
    assert!(
        !suggestion.to_lowercase().contains("disableligatures")
            || suggestion.contains("do not work")
    );
}

#[test]
fn significant_words_skip_math_and_preamble() {
    let files = vec![TokenizedFile {
        path: "main.tex".to_string(),
        tokens: vec![
            Token::Command {
                name: "documentclass".into(),
                args: vec!["article".into()],
            },
            Token::Text("IgnorePreamble".into()),
            Token::BeginDocument,
            Token::Text("Hello $x$ world Artificial".into()),
            Token::BeginMath,
            Token::EndMath,
            Token::Text(" and MLflow.".into()),
        ],
    }];
    let words = significant_words(&files);
    assert!(words.contains_key("Hello"));
    assert!(words.contains_key("world"));
    assert!(words.contains_key("Artificial"));
    assert!(words.contains_key("MLflow"));
    assert!(!words.contains_key("IgnorePreamble"));
}

#[test]
fn tabular_column_spec_is_excluded_from_significant_words() {
    let source = "\\begin{document}\n\\begin{tabular}{@{}>{\\bfseries}p{3cm}>{\\raggedright\\arraybackslash}p{5.5cm}@{}}\nName & Alice \\\\\n\\end{tabular}\n\\end{document}\n";
    let files = vec![TokenizedFile {
        path: "main.tex".to_string(),
        tokens: tokenize(source),
    }];
    let words = significant_words(&files);
    assert!(!words.contains_key("p{3cm"), "{words:?}");
    assert!(!words.contains_key("p{5.5cm"), "{words:?}");
    assert!(words.contains_key("Name"), "{words:?}");
    assert!(words.contains_key("Alice"), "{words:?}");
}

#[test]
fn ligature_workaround_empty_group_matches_rendered_word() {
    let source =
        "\\begin{document}\nWe streamlined the workf{}lows for the team.\n\\end{document}\n";
    let files = vec![TokenizedFile {
        path: "main.tex".to_string(),
        tokens: tokenize(source),
    }];
    let words = significant_words(&files);
    assert!(words.contains_key("workflows"), "{words:?}");
    assert!(!words.contains_key("workf{}lows"), "{words:?}");

    let missing = fidelity_missing_words(&words, "We streamlined the workflows for the team.");
    assert!(missing.is_empty(), "{missing:?}");
}

#[test]
fn genuinely_missing_word_still_warns() {
    let mut source = WordCounts::new();
    source.insert("Nonexistent", 1);
    let missing = fidelity_missing_words(&source, "some other text entirely");
    assert_eq!(missing.len(), 1);
    assert_eq!(missing[0].word, "Nonexistent");
}

#[test]
fn package_options_and_hypersetup_keys_are_excluded_from_significant_words() {
    let source = "\\usepackage[hyphens]{url}\n\\hypersetup{pdfcreationdate={\\today}, colorlinks=true}\n\\setlength{\\parindent}{0pt}\n\\begin{document}\nHello world.\n\\end{document}\n";
    let files = vec![TokenizedFile {
        path: "main.tex".to_string(),
        tokens: tokenize(source),
    }];
    let words = significant_words(&files);
    assert!(words.contains_key("Hello"), "{words:?}");
    assert!(words.contains_key("world"), "{words:?}");
    assert!(!words.contains_key("hyphens"), "{words:?}");
    assert!(!words.contains_key("pdfcreationdate"), "{words:?}");
    assert!(!words.contains_key("colorlinks"), "{words:?}");
    assert!(!words.contains_key("parindent"), "{words:?}");
}

#[test]
fn page_breaks_are_machine_readable() {
    let sections = vec![
        ("1".into(), "Introduction".into()),
        ("2".into(), "Methods".into()),
    ];
    let breaks = page_breaks(&pages(), &sections);
    let formatted = format_page_breaks(&breaks);
    assert_eq!(
        formatted,
        "page=1 section=1 title=Introduction\npage=2 section=2 title=Methods"
    );
}

#[test]
fn page_breaks_skip_a_permanently_unmatched_section_between_matches() {
    let sections = vec![
        ("1".into(), "Introduction".into()),
        (
            "1.1".into(),
            "AI Engineer en Accenture Julio 2026 -- Actual".into(),
        ),
        ("2".into(), "Methods".into()),
    ];
    let breaks = page_breaks(&pages(), &sections);
    let formatted = format_page_breaks(&breaks);
    assert_eq!(
        formatted,
        "page=1 section=1 title=Introduction\npage=2 section=2 title=Methods"
    );
}

#[test]
fn pdf_info_reports_pages_fonts_and_metadata() {
    let info = pdf_info(&document(&sound_pdf())).unwrap();
    assert_eq!(info.pages, 1);
    assert!(!info.fonts.is_empty());
    assert!(
        info.fonts.iter().all(|f| f.embedded),
        "fonts should all be embedded: {:?}",
        info.fonts
    );
    assert!(
        info.fonts.iter().any(|f| f.pages == vec![1]),
        "page-level fonts should record page 1: {:?}",
        info.fonts
    );
    assert_eq!(info.metadata.creator.as_deref(), Some("tectonic"));
}

#[test]
fn embedded_fixture_is_silent_for_quality_checks() {
    let info = pdf_info(&document(&sound_pdf())).unwrap();
    let findings = quality_findings(&info);
    assert!(
        findings.is_empty(),
        "embedded fonts + well-formed dates must be silent: {findings:?}"
    );
}

#[test]
fn malformed_date_fixture_warns_with_expected_shape() {
    let info = pdf_info(&document(&malformed_pdf())).unwrap();
    assert_eq!(
        info.metadata.creation_date.as_deref(),
        Some("July 28, 2026")
    );
    assert_eq!(info.metadata.mod_date.as_deref(), Some("August 7, 2026"));

    let findings = quality_findings(&info);
    let date_findings: Vec<_> = findings
        .iter()
        .filter(|f| f.message.contains("CreationDate") || f.message.contains("ModDate"))
        .collect();
    assert_eq!(date_findings.len(), 2, "{findings:?}");
    for f in &date_findings {
        assert_eq!(f.severity, Severity::Warning);
        assert!(
            f.message.contains(PDF_DATE_EXPECTED),
            "must name expected shape: {}",
            f.message
        );
    }
    assert!(date_findings
        .iter()
        .any(|f| f.message.contains("July 28, 2026")));
    assert!(date_findings
        .iter()
        .any(|f| f.message.contains("August 7, 2026")));
}

#[test]
fn non_embedded_font_warns_with_page_list() {
    let info = pdf_info(&document(&malformed_pdf())).unwrap();
    let helvetica = info
        .fonts
        .iter()
        .find(|f| f.name == "Helvetica")
        .expect("Helvetica present");
    assert!(!helvetica.embedded);
    assert_eq!(helvetica.pages, vec![1, 2]);

    let findings = quality_findings(&info);
    let font_finding = findings
        .iter()
        .find(|f| f.message.contains("Helvetica") && f.message.contains("not embedded"))
        .expect("non-embedded font warning");
    assert_eq!(font_finding.severity, Severity::Warning);
    assert!(
        font_finding.message.contains("pages: 1, 2"),
        "{}",
        font_finding.message
    );
}

#[test]
fn metadata_may_be_utf16_or_damaged() {
    let bytes = pdf(
        1,
        "F",
        true,
        vec![
            ("Title", Object::String(vec![0xFE, 0xFF, 0, b'T', 0xD8, 0x3D, 0xDE, 0x00, 0xD8, 0x00], StringFormat::Literal)),
            ("Author", Object::String(vec![b'A', 0xFF], StringFormat::Literal)),
        ],
    );
    let info = pdf_info(&document(&bytes)).unwrap();
    assert_eq!(info.metadata.title.as_deref(), Some("T\u{1F600}\u{FFFD}"));
    assert_eq!(info.metadata.author.as_deref(), Some("A\u{FFFD}"));
    assert_eq!(info.metadata.subject, None);
}

#[test]
fn a_font_that_descends_from_itself_is_refused() {
    let mut doc = Document::with_version("1.5");
    let font_id = doc.new_object_id();
    doc.objects.insert(
        font_id,
        Object::Dictionary(dict(vec![
            ("Type", Object::Name(b"Font".to_vec())),
            ("Subtype", Object::Name(b"Type0".to_vec())),
            ("BaseFont", Object::Name(b"Loop".to_vec())),
            ("DescendantFonts", Object::Array(vec![Object::Reference(font_id)])),
        ])),
    );
    let pages_id = doc.new_object_id();
    let resources =
        dict(vec![("Font", Object::Dictionary(dict(vec![("F1", Object::Reference(font_id))])))]);
    let page = doc.add_object(dict(vec![
        ("Type", Object::Name(b"Page".to_vec())),
        ("Parent", Object::Reference(pages_id)),
        ("Resources", Object::Dictionary(resources)),
    ]));
    doc.objects.insert(
        pages_id,
        Object::Dictionary(dict(vec![
            ("Type", Object::Name(b"Pages".to_vec())),
            ("Kids", Object::Array(vec![Object::Reference(page)])),
            ("Count", Object::Integer(1)),
        ])),
    );
    let catalog = doc.add_object(dict(vec![
        ("Type", Object::Name(b"Catalog".to_vec())),
        ("Pages", Object::Reference(pages_id)),
    ]));
    doc.trailer.set("Root", Object::Reference(catalog));
    let mut out = Vec::new();
    doc.save_to(&mut out).unwrap();
    assert!(matches!(pdf_info(&document(&out)), Err(PdfFault::EndlessFont)));
}

#[test]
fn words_are_counted_and_ordered() {
    let mut counts = WordCounts::new();
    counts.insert("beta", 2);
    counts.insert("alpha", 1);
    counts.insert("beta", 5);
    assert_eq!(counts.len(), 2);
    assert_eq!(counts.entry(0), ("alpha".to_string(), 1));
    assert_eq!(counts.entry(1), ("beta".to_string(), 5));
    assert_eq!(counts.get("gamma"), None);
}

#[test]
fn the_quality_of_a_file_is_that_of_what_it_holds() {
    for data in [sound_pdf(), malformed_pdf()] {
        let info = pdf_info(&document(&data)).unwrap();
        let expected: Vec<String> =
            quality_findings(&info).iter().map(|f| f.to_string()).collect();
        let found: Vec<String> = check_quality(&document(&data))
            .unwrap()
            .iter()
            .map(|f| f.to_string())
            .collect();
        assert_eq!(found, expected);
    }
}

#[test]
fn the_first_pair_of_a_word_is_broken() {
    let advice = |word: &str| -> String {
        let missing = vec![MissingWord { word: word.into(), count: 1 }];
        fidelity_findings(&missing)[0].suggestion.clone().unwrap()
    };
    assert!(advice("fluffy").contains("`f{}luffy`"));
    assert!(advice("efFIcient").contains("`ef{}FIcient`"));
    assert!(advice("offline").contains("`of{}fline`"));
    assert!(advice("final fluff").contains("`f{}inal fluff`"));
    assert!(advice("elf").starts_with("Ensure the word survives"));
}
