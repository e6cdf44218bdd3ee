//! Static linting rules.

pub mod accents;
pub mod bib;
pub mod blocks;
pub mod checks;
pub mod composing;
pub mod dictionary;
pub mod engine;
pub mod entries;
pub mod fetching;
pub mod glyphic;
pub mod glyphs;
pub mod install;
pub mod nesting;
pub mod notices;
pub mod references;
pub mod shelf;
pub mod spell;
pub mod spelling;
pub mod titles;
pub mod vocabulary;

use vstd::prelude::*;

use crate::number;
use crate::paths;
use crate::text;
use crate::texutil::{self, CollectionView, Source, SourceFile, SourceView, TraversalView};
use crate::wordset::{self, WordSet};

verus! {

/// Severity of a lint finding.
#[derive(Debug, Clone, Copy, PartialEq, Eq, Structural)]
pub enum Severity {
    Error,
    Warning,
}

impl Severity {
    /// The name of a severity.
    pub open spec fn name(self) -> Seq<char> {
        match self {
            Severity::Error => "ERROR"@,
            Severity::Warning => "WARNING"@,
        }
    }

    /// The name of a severity.
    pub fn to_string(&self) -> (r: String)
        ensures
            r@ == self.name(),
    {
        match self {
            Severity::Error => text::lit("ERROR"),
            Severity::Warning => text::lit("WARNING"),
        }
    }
}

/// A lint finding with location, severity, and suggestion.
#[derive(Debug)]
pub struct LintFinding {
    pub file: String,
    pub line: usize,
    pub severity: Severity,
    pub message: String,
    pub suggestion: Option<String>,
}

/// What a [`LintFinding`] says.
#[verifier::ext_equal]
pub struct FindingView {
    pub file: Seq<char>,
    pub line: int,
    pub severity: Severity,
    pub message: Seq<char>,
    pub suggestion: Option<Seq<char>>,
}

impl View for LintFinding {
    type V = FindingView;

    open spec fn view(&self) -> FindingView {
        FindingView {
            file: self.file@,
            line: self.line as int,
            severity: self.severity,
            message: self.message@,
            suggestion: text::opt_text(self.suggestion),
        }
    }
}

impl FindingView {
    /// A finding as a line for the terminal, with its suggestion on a second line.
    pub open spec fn shown(self) -> Seq<char> {
        let head = "  "@ + self.file + ":"@ + number::decimal(self.line as nat) + " — "@
            + self.message;
        match self.suggestion {
            Some(s) => head + "\n    suggestion: "@ + s,
            None => head,
        }
    }
}

impl LintFinding {
    /// The finding as a line for the terminal, with its suggestion on a second line.
    pub fn to_string(&self) -> (r: String)
        ensures
            r@ == self@.shown(),
    {
        let mut out = text::cat3("  ", self.file.as_str(), ":");
        text::push(&mut out, number::show_size(self.line).as_str());
        text::push(&mut out, " — ");
        text::push(&mut out, self.message.as_str());
        if let Some(s) = &self.suggestion {
            text::push(&mut out, "\n    suggestion: ");
            text::push(&mut out, s.as_str());
        }
        out
    }
}

/// What a sequence of findings says.
pub open spec fn findings_view(v: Seq<LintFinding>) -> Seq<FindingView> {
    Seq::new(v.len(), |k: int| v[k]@)
}

pub broadcast proof fn lemma_findings_push(v: Seq<LintFinding>, x: LintFinding)
    ensures
        #[trigger] findings_view(v.push(x)) == findings_view(v).push(x@),
{
    assert(findings_view(v.push(x)) =~= findings_view(v).push(x@));
}

/// A finding with a suggestion.
pub open spec fn advice(
    file: Seq<char>,
    line: int,
    severity: Severity,
    message: Seq<char>,
    suggestion: Seq<char>,
) -> FindingView {
    FindingView { file, line, severity, message, suggestion: Some(suggestion) }
}

/// A finding without a suggestion.
pub open spec fn remark(
    file: Seq<char>,
    line: int,
    severity: Severity,
    message: Seq<char>,
) -> FindingView {
    FindingView { file, line, severity, message, suggestion: None }
}

/// A finding with a suggestion.
pub(crate) fn advise(
    file: &str,
    line: usize,
    severity: Severity,
    message: String,
    suggestion: String,
) -> (r: LintFinding)
    ensures
        r@ == advice(file@, line as int, severity, message@, suggestion@),
{
    LintFinding { file: text::lit(file), line, severity, message, suggestion: Some(suggestion) }
}

/// A finding without a suggestion.
pub(crate) fn note(file: &str, line: usize, severity: Severity, message: String) -> (r: LintFinding)
    ensures
        r@ == remark(file@, line as int, severity, message@),
{
    LintFinding { file: text::lit(file), line, severity, message, suggestion: None }
}

/// Appends findings.
pub(crate) fn append(out: &mut Vec<LintFinding>, more: Vec<LintFinding>)
    ensures
        findings_view(final(out)@) == findings_view(old(out)@) + findings_view(more@),
{
    let mut more = more;
    let ghost before = out@;
    let ghost added = more@;
    out.append(&mut more);
    assert(findings_view(out@) =~= findings_view(before) + findings_view(added));
}

// ---------------------------------------------------------------------------
// Linting a project
// ---------------------------------------------------------------------------

/// Why a project cannot be linted.
#[derive(Debug)]
pub enum LintError {
    /// The file at this path is there, but cannot be read as text.
    Unreadable(String),
}

/// The first of the files, from the `k`-th on, that cannot be read.
pub open spec fn unreadable(
    files: Seq<Seq<char>>,
    tree: Seq<(Seq<char>, Option<Seq<char>>)>,
    k: int,
) -> Option<Seq<char>>
    decreases files.len() - k,
{
    if k < 0 || k >= files.len() {
        None
    } else if texutil::source_at(tree, files[k]) is Text {
        unreadable(files, tree, k + 1)
    } else {
        Some(files[k])
    }
}

/// The name of each file relative to the root, with its text.
pub open spec fn contents(
    root: Seq<char>,
    files: Seq<Seq<char>>,
    tree: Seq<(Seq<char>, Option<Seq<char>>)>,
) -> Seq<(Seq<char>, Seq<char>)> {
    Seq::new(
        files.len(),
        |k: int|
            (
                paths::relative_or_self(files[k], root),
                match texutil::source_at(tree, files[k]) {
                    SourceView::Text(t) => t,
                    _ => Seq::empty(),
                },
            ),
    )
}

/// What `\input` reaches from an entry point.
pub open spec fn reached(
    root: Seq<char>,
    entry: Seq<char>,
    tree: Seq<(Seq<char>, Option<Seq<char>>)>,
) -> CollectionView {
    texutil::collected(TraversalView::start(root, entry), tree)
}

/// The texts of files, each with its name relative to the root.
pub fn read_contents(root: &str, files: &Vec<String>, tree: &Vec<SourceFile>) -> (r: Result<
    Vec<(String, String)>,
    LintError,
>)
    ensures
        match r {
            Ok(v) => unreadable(text::texts(files@), texutil::tree_view(tree@), 0) is None
                && spell::files_view(v@) == contents(
                root@,
                text::texts(files@),
                texutil::tree_view(tree@),
            ),
            Err(LintError::Unreadable(p)) => unreadable(
                text::texts(files@),
                texutil::tree_view(tree@),
                0,
            ) == Some(p@),
        },
{
    let ghost all = text::texts(files@);
    let ghost t = texutil::tree_view(tree@);
    let ghost whole = contents(root@, all, t);
    let mut out: Vec<(String, String)> = Vec::new();
    let mut k: usize = 0;
    assert(spell::files_view(out@) =~= whole.take(0));
    while k < files.len()
        invariant
            k <= files@.len(),
            all == text::texts(files@),
            t == texutil::tree_view(tree@),
            whole == contents(root@, all, t),
            unreadable(all, t, 0) == unreadable(all, t, k as int),
            spell::files_view(out@) == whole.take(k as int),
        decreases files@.len() - k,
    {
        let path = files[k].as_str();
        assert(all[k as int] == path@);
        match texutil::find_source(tree, path) {
            Source::Text(content) => {
                let ghost before = spell::files_view(out@);
                out.push((paths::relative_or_path(path, root), content));
                assert(spell::files_view(out@) =~= before.push(whole[k as int]));
                assert(whole.take(k + 1) =~= whole.take(k as int).push(whole[k as int]));
            },
            _ => {
                return Err(LintError::Unreadable(text::lit(path)));
            },
        }
        k = k + 1;
    }
    assert(whole.take(k as int) =~= whole);
    Ok(out)
}

/// The paths that the lines of a file ask about, from the `k`-th line on.
pub open spec fn asked_by_lines(root: Seq<char>, ls: Seq<Seq<char>>, k: int) -> Seq<Seq<char>>
    decreases ls.len() - k,
{
    if k < 0 || k >= ls.len() {
        Seq::empty()
    } else {
        let line = texutil::uncommented(ls[k]);
        inputs_at(root, texutil::commands_in(line, "input"@)) + joined_all(
            root,
            texutil::commands_in(line, "includegraphics"@),
        ) + joined_all(root, texutil::commands_in(line, "lstinputlisting"@)) + joined_all(
            root,
            checks::minted_files(line),
        ) + asked_by_lines(root, ls, k + 1)
    }
}

/// The paths of `\input` targets.
pub open spec fn inputs_at(root: Seq<char>, args: Seq<Seq<char>>) -> Seq<Seq<char>> {
    Seq::new(args.len(), |k: int| texutil::tex_path(root, args[k]))
}

/// The paths of files seen from the root.
pub open spec fn joined_all(root: Seq<char>, args: Seq<Seq<char>>) -> Seq<Seq<char>> {
    Seq::new(args.len(), |k: int| paths::joined(root, args[k]))
}

/// The paths that the files ask about, from the `k`-th on.
pub open spec fn asked_by_files(
    root: Seq<char>,
    files: Seq<(Seq<char>, Seq<char>)>,
    k: int,
) -> Seq<Seq<char>>
    decreases files.len() - k,
{
    if k < 0 || k >= files.len() {
        Seq::empty()
    } else {
        asked_by_lines(root, text::lines(files[k].1), 0) + asked_by_files(root, files, k + 1)
    }
}

fn push_joined(root: &str, args: &Vec<&[char]>, out: &mut Vec<String>)
    ensures
        text::texts(final(out)@) == text::texts(old(out)@) + joined_all(
            root@,
            text::slices(args@),
        ),
{
    broadcast use text::lemma_texts_push;

    let ghost before = text::texts(out@);
    let ghost all = joined_all(root@, text::slices(args@));
    let mut k: usize = 0;
    assert(before + all.take(0) =~= before);
    while k < args.len()
        invariant
            k <= args@.len(),
            all == joined_all(root@, text::slices(args@)),
            text::texts(out@) == before + all.take(k as int),
        decreases args@.len() - k,
    {
        let arg = text::string_of(args[k]);
        assert(before + all.take(k + 1) =~= (before + all.take(k as int)).push(all[k as int]));
        out.push(paths::join(root, arg.as_str()));
        k = k + 1;
    }
    assert(all.take(k as int) =~= all);
}

fn push_inputs(root: &str, args: &Vec<&[char]>, out: &mut Vec<String>)
    ensures
        text::texts(final(out)@) == text::texts(old(out)@) + inputs_at(
            root@,
            text::slices(args@),
        ),
{
    broadcast use text::lemma_texts_push;

    let ghost before = text::texts(out@);
    let ghost all = inputs_at(root@, text::slices(args@));
    let mut k: usize = 0;
    assert(before + all.take(0) =~= before);
    while k < args.len()
        invariant
            k <= args@.len(),
            all == inputs_at(root@, text::slices(args@)),
            text::texts(out@) == before + all.take(k as int),
        decreases args@.len() - k,
    {
        let arg = text::string_of(args[k]);
        assert(before + all.take(k + 1) =~= (before + all.take(k as int)).push(all[k as int]));
        out.push(texutil::resolve_tex_path(root, arg.as_str()));
        k = k + 1;
    }
    assert(all.take(k as int) =~= all);
}

/// The paths that linting the files asks about: those of `\input`, `\includegraphics`,
/// `\lstinputlisting` and `\inputminted`.
pub fn probe_paths(root: &str, files: &Vec<(String, String)>) -> (r: Vec<String>)
    ensures
        text::texts(r@) == asked_by_files(root@, spell::files_view(files@), 0),
{
    let ghost all = spell::files_view(files@);
    let mut out: Vec<String> = Vec::new();
    let mut k: usize = 0;
    assert(text::texts(out@) + asked_by_files(root@, all, 0) =~= asked_by_files(root@, all, 0));
    while k < files.len()
        invariant
            k <= files@.len(),
            all == spell::files_view(files@),
            text::texts(out@) + asked_by_files(root@, all, k as int) == asked_by_files(
                root@,
                all,
                0,
            ),
        decreases files@.len() - k,
    {
        assert(all[k as int] == (files@[k as int].0@, files@[k as int].1@));
        let ghost start = text::texts(out@);
        let c = text::chars_of(files[k].1.as_str());
        let ls = text::lines_of(c.as_slice());
        let ghost lines = text::lines(all[k as int].1);
        let mut i: usize = 0;
        while i < ls.len()
            invariant
                i <= ls@.len(),
                lines == text::slices(ls@),
                text::texts(out@) + asked_by_lines(root@, lines, i as int) == start
                    + asked_by_lines(root@, lines, 0),
            decreases ls@.len() - i,
        {
            assert(lines[i as int] == ls@[i as int]@);
            let ghost done = text::texts(out@);
            let line = texutil::without_comment(ls[i]);
            let inputs = texutil::command_arguments(line, "input");
            push_inputs(root, &inputs, &mut out);
            let graphics = texutil::command_arguments(line, "includegraphics");
            push_joined(root, &graphics, &mut out);
            let listings = texutil::command_arguments(line, "lstinputlisting");
            push_joined(root, &listings, &mut out);
            let minted = checks::extract_inputminted_files(line);
            push_joined(root, &minted, &mut out);
            proof {
                let a = inputs_at(root@, text::slices(inputs@));
                let b = joined_all(root@, text::slices(graphics@));
                let d = joined_all(root@, text::slices(listings@));
                let e = joined_all(root@, text::slices(minted@));
                let rest = asked_by_lines(root@, lines, i + 1);
                assert(done + (a + b + d + e + rest) =~= (done + a + b + d + e) + rest);
            }
            i = i + 1;
        }
        proof {
            let here = asked_by_lines(root@, lines, 0);
            let rest = asked_by_files(root@, all, k + 1);
            assert(text::texts(out@) + Seq::<Seq<char>>::empty() =~= text::texts(out@));
            assert(start + (here + rest) =~= (start + here) + rest);
        }
        k = k + 1;
    }
    assert(text::texts(out@) + Seq::<Seq<char>>::empty() =~= text::texts(out@));
    out
}

/// How spelling is checked: not at all under a test harness; else with the configured
/// default language, the dictionary for the language of the document, and the accepted
/// words.
pub struct SpellSetup {
    pub harness: bool,
    pub default_lang: Option<String>,
    pub answer: spell::DictionaryAnswer,
    pub whitelist: WordSet,
}

/// What linting found, and the line about spell checking where it was reached.
#[derive(Debug)]
pub struct LintReport {
    pub findings: Vec<LintFinding>,
    pub notice: Option<String>,
}

/// The findings about `\input` targets that name a file already visited.
pub open spec fn circular_findings(circular: Seq<(Seq<char>, Seq<char>)>) -> Seq<FindingView> {
    Seq::new(
        circular.len(),
        |k: int|
            advice(
                circular[k].0,
                0,
                Severity::Error,
                "Circular \\input detected: "@ + circular[k].1,
                "Remove the circular reference"@,
            ),
    )
}

/// The findings about one file: references, environments, diagrams, glyphs.
pub open spec fn file_findings(known: checks::Known, rel: Seq<char>, content: Seq<char>) -> Seq<
    FindingView,
> {
    checks::reference_findings(known, rel, text::lines(content), 0)
        + checks::environment_findings(rel, content) + checks::diagram_findings(
        rel,
        content,
        "mermaid"@,
        0,
    ) + checks::diagram_findings(rel, content, "graphviz"@, 0) + checks::diagram_findings(
        rel,
        content,
        "d2"@,
        0,
    ) + glyphs::file_findings(rel, content)
}

/// The findings about the files from the `k`-th on.
pub open spec fn files_findings(
    known: checks::Known,
    files: Seq<(Seq<char>, Seq<char>)>,
    k: int,
) -> Seq<FindingView>
    decreases files.len() - k,
{
    if k < 0 || k >= files.len() {
        Seq::empty()
    } else {
        file_findings(known, files[k].0, files[k].1) + files_findings(known, files, k + 1)
    }
}

/// The finding about keys of the bibliography that are never cited.
pub open spec fn unused_findings(bib_file: Seq<char>, unused: Seq<Seq<char>>) -> Seq<FindingView> {
    if unused.len() == 0 {
        Seq::empty()
    } else {
        seq![
            advice(
                bib_file,
                0,
                Severity::Warning,
                "Unused .bib entries (never cited): "@ + text::join(unused, ", "@),
                "Cite them with \\cite or remove them from the bibliography"@,
            ),
        ]
    }
}

/// The keys of a bibliography file; none where it cannot be read.
pub open spec fn keys_at(
    tree: Seq<(Seq<char>, Option<Seq<char>>)>,
    path: Seq<char>,
) -> Seq<Seq<char>> {
    match texutil::source_at(tree, path) {
        SourceView::Text(t) => bib::bib_keys(t),
        _ => Seq::empty(),
    }
}

/// The findings about the files of a project, given their texts: circular inputs, the
/// findings about each file, keys never cited, spelling, and the engine.
pub open spec fn project_findings(
    root: Seq<char>,
    bib_file: Option<Seq<char>>,
    tree: Seq<(Seq<char>, Option<Seq<char>>)>,
    setup: SpellSetup,
    circular: Seq<(Seq<char>, Seq<char>)>,
    files: Seq<(Seq<char>, Seq<char>)>,
) -> Seq<FindingView> {
    let keys = match bib_file {
        Some(b) => keys_at(tree, paths::joined(root, b)),
        None => Seq::empty(),
    };
    let known = checks::Known {
        tree,
        root,
        bib: match bib_file {
            Some(_) => Some(keys),
            None => None,
        },
        labels: wordset::distinct(bib::files_label(files, 0)),
    };
    circular_findings(circular) + files_findings(known, files, 0) + unused_findings(
        match bib_file {
            Some(b) => b,
            None => Seq::empty(),
        },
        bib::unused_keys(keys, files),
    ) + (if setup.harness {
        Seq::empty()
    } else {
        spell::spelling_findings(
            files,
            text::opt_text(setup.default_lang),
            setup.answer,
            setup.whitelist@,
        )
    }) + engine::engine_findings(files)
}

/// The line about spell checking.
pub open spec fn project_notice(
    setup: SpellSetup,
    files: Seq<(Seq<char>, Seq<char>)>,
) -> Seq<char> {
    if setup.harness {
        "Spell-check skipped: test harness detected and no default language configured"@
    } else {
        spell::spelling_notice(files, text::opt_text(setup.default_lang), setup.answer)
    }
}

fn report_circular(circular: &Vec<(String, String)>) -> (r: Vec<LintFinding>)
    ensures
        findings_view(r@) == circular_findings(texutil::pair_texts(circular@)),
{
    broadcast use lemma_findings_push;

    let ghost all = texutil::pair_texts(circular@);
    let ghost whole = circular_findings(all);
    let mut out: Vec<LintFinding> = Vec::new();
    let mut k: usize = 0;
    assert(findings_view(out@) =~= whole.take(0));
    while k < circular.len()
        invariant
            k <= circular@.len(),
            all == texutil::pair_texts(circular@),
            whole == circular_findings(all),
            findings_view(out@) == whole.take(k as int),
        decreases circular@.len() - k,
    {
        assert(whole.take(k + 1) =~= whole.take(k as int).push(whole[k as int]));
        out.push(
            advise(
                circular[k].0.as_str(),
                0,
                Severity::Error,
                text::cat2("Circular \\input detected: ", circular[k].1.as_str()),
                text::lit("Remove the circular reference"),
            ),
        );
        k = k + 1;
    }
    assert(whole.take(k as int) =~= whole);
    out
}

proof fn lemma_six(
    z: Seq<FindingView>,
    a: Seq<FindingView>,
    b: Seq<FindingView>,
    c: Seq<FindingView>,
    d: Seq<FindingView>,
    e: Seq<FindingView>,
    f: Seq<FindingView>,
)
    ensures
        z + (a + b + c + d + e + f) == z + a + b + c + d + e + f,
{
    assert(z + (a + b + c + d + e + f) =~= z + a + b + c + d + e + f);
}

fn check_file(
    tree: &Vec<SourceFile>,
    root: &str,
    rel: &str,
    content: &str,
    bib: Option<&WordSet>,
    labels: &WordSet,
    out: &mut Vec<LintFinding>,
)
    requires
        labels.wf(),
        bib matches Some(b) ==> b.wf(),
    ensures
        findings_view(final(out)@) == findings_view(old(out)@) + file_findings(
            checks::known(tree@, root@, bib, *labels),
            rel@,
            content@,
        ),
{
    let ghost known = checks::known(tree@, root@, bib, *labels);
    proof {
        lemma_six(
            findings_view(out@),
            checks::reference_findings(known, rel@, text::lines(content@), 0),
            checks::environment_findings(rel@, content@),
            checks::diagram_findings(rel@, content@, "mermaid"@, 0),
            checks::diagram_findings(rel@, content@, "graphviz"@, 0),
            checks::diagram_findings(rel@, content@, "d2"@, 0),
            glyphs::file_findings(rel@, content@),
        );
    }
    checks::check_references(tree, root, rel, content, bib, labels, out);
    checks::check_environments(rel, content, out);
    checks::check_diagram_blocks(rel, content, "mermaid", out);
    checks::check_diagram_blocks(rel, content, "graphviz", out);
    checks::check_diagram_blocks(rel, content, "d2", out);
    append(out, glyphs::lint_file(rel, content));
}

fn check_files(
    tree: &Vec<SourceFile>,
    root: &str,
    files: &Vec<(String, String)>,
    bib: Option<&WordSet>,
    labels: &WordSet,
    out: &mut Vec<LintFinding>,
)
    requires
        labels.wf(),
        bib matches Some(b) ==> b.wf(),
    ensures
        findings_view(final(out)@) == findings_view(old(out)@) + files_findings(
            checks::known(tree@, root@, bib, *labels),
            spell::files_view(files@),
            0,
        ),
{
    let ghost all = spell::files_view(files@);
    let ghost known = checks::known(tree@, root@, bib, *labels);
    let ghost before = findings_view(out@);
    let ghost whole = files_findings(known, all, 0);
    let mut k: usize = 0;
    assert(findings_view(out@) + whole =~= before + whole);
    while k < files.len()
        invariant
            k <= files@.len(),
            all == spell::files_view(files@),
            labels.wf(),
            bib matches Some(b) ==> b.wf(),
            known == checks::known(tree@, root@, bib, *labels),
            findings_view(out@) + files_findings(known, all, k as int) == before + whole,
        decreases files@.len() - k,
    {
        assert(all[k as int] == (files@[k as int].0@, files@[k as int].1@));
        let ghost done = findings_view(out@);
        let rel = files[k].0.as_str();
        let content = files[k].1.as_str();
        check_file(tree, root, rel, content, bib, labels, out);
        proof {
            let here = file_findings(known, rel@, content@);
            let rest = files_findings(known, all, k + 1);
            assert(done + (here + rest) =~= (done + here) + rest);
        }
        k = k + 1;
    }
    assert(findings_view(out@) + Seq::<FindingView>::empty() =~= findings_view(out@));
}

fn keys_in(tree: &Vec<SourceFile>, path: &str) -> (r: WordSet)
    ensures
        r.wf(),
        r@ == keys_at(texutil::tree_view(tree@), path@),
{
    match texutil::find_source(tree, path) {
        Source::Text(t) => bib::parse_bib_keys(t.as_str()),
        _ => WordSet::new(),
    }
}

/// Run all lint rules on the files that `\input` reaches from `entry`, given all files.
/// An entry point that is not there is the one finding; a file that cannot be read is
/// an error.
pub fn lint(
    root: &str,
    entry: &str,
    bib_file: Option<&str>,
    tree: &Vec<SourceFile>,
    setup: &SpellSetup,
) -> (r: Result<LintReport, LintError>)
    requires
        setup.answer.wf(),
        setup.whitelist.wf(),
    ensures
        ({
            let t = texutil::tree_view(tree@);
            let c = reached(root@, entry@, t);
            let files = contents(root@, c.files, t);
            if !checks::exists_at(t, paths::joined(root@, entry@)) {
                r matches Ok(report) && findings_view(report.findings@) == seq![
                    advice(
                        entry@,
                        0,
                        Severity::Error,
                        "Entry point file does not exist"@,
                        "Create "@ + entry@,
                    ),
                ] && report.notice is None
            } else if unreadable(c.files, t, 0) is Some {
                r matches Err(LintError::Unreadable(p)) && p@ == unreadable(c.files, t, 0)->0
            } else {
                r matches Ok(report) && findings_view(report.findings@) == project_findings(
                    root@,
                    text::opt_str(bib_file),
                    t,
                    *setup,
                    c.circular,
                    files,
                ) && text::opt_text(report.notice) == Some(project_notice(*setup, files))
            }
        }),
{
    let ghost t = texutil::tree_view(tree@);
    let ghost c = reached(root@, entry@, t);
    let entry_path = paths::join(root, entry);
    if !checks::there_is(tree, entry_path.as_str()) {
        let mut findings: Vec<LintFinding> = Vec::new();
        findings.push(
            advise(
                entry,
                0,
                Severity::Error,
                text::lit("Entry point file does not exist"),
                text::cat2("Create ", entry),
            ),
        );
        assert(findings_view(findings@) =~= seq![findings@[0]@]);
        return Ok(LintReport { findings, notice: None });
    }
    let collected = texutil::collect_tex_files(root, entry, tree);
    let files = match read_contents(root, &collected.files, tree) {
        Ok(f) => f,
        Err(e) => {
            return Err(e);
        },
    };
    let ghost all = contents(root@, c.files, t);
    let mut findings = report_circular(&collected.circular);
    let keys = match bib_file {
        Some(b) => keys_in(tree, paths::join(root, b).as_str()),
        None => WordSet::new(),
    };
    let labels = bib::collect_labels(&files);
    let known_bib = match bib_file {
        Some(_) => Some(&keys),
        None => None,
    };
    check_files(tree, root, &files, known_bib, &labels, &mut findings);
    let unused = bib::unused(&keys, &files);
    let ghost f1 = findings_view(findings@);
    if unused.len() > 0 {
        let name = match bib_file {
            Some(b) => b,
            None => "",
        };
        proof {
            reveal_strlit("");
            assert(""@ =~= Seq::<char>::empty());
        }
        let ghost prior = findings@;
        findings.push(
            advise(
                name,
                0,
                Severity::Warning,
                text::cat2(
                    "Unused .bib entries (never cited): ",
                    text::joined(&unused, ", ").as_str(),
                ),
                text::lit("Cite them with \\cite or remove them from the bibliography"),
            ),
        );
        proof {
            lemma_findings_push(prior, findings@.last());
            assert(findings@ =~= prior.push(findings@.last()));
        }
    }
    let ghost bib_view = match bib_file {
        Some(b) => b@,
        None => Seq::empty(),
    };
    let ghost f2 = unused_findings(bib_view, bib::unused_keys(keys@, all));
    assert(findings_view(findings@) =~= f1 + f2);
    let notice = if setup.harness {
        text::lit("Spell-check skipped: test harness detected and no default language configured")
    } else {
        let lang = match &setup.default_lang {
            Some(l) => Some(l.as_str()),
            None => None,
        };
        let report = spell::lint_files(&files, lang, &setup.answer, &setup.whitelist);
        append(&mut findings, report.findings);
        report.notice
    };
    let ghost f3 = if setup.harness {
        Seq::empty()
    } else {
        spell::spelling_findings(
            all,
            text::opt_text(setup.default_lang),
            setup.answer,
            setup.whitelist@,
        )
    };
    assert(findings_view(findings@) =~= f1 + f2 + f3);
    append(&mut findings, engine::lint_files(&files));
    Ok(LintReport { findings, notice: Some(notice) })
}

} // verus!
