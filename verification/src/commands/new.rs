//! The `new` command: a project from a template.

use vstd::prelude::*;
use vstd::string::StrSliceExecFns;

use crate::pdfdoc;
use crate::paths;
use crate::templates::{self, FileMap};
use crate::text::{self, chars_of};

verus! {

// ---------------------------------------------------------------------------
// Names
// ---------------------------------------------------------------------------

/// Whether a character is refused in a project name.
pub open spec fn is_refused(c: char) -> bool {
    ||| c == '@'
    ||| c == '#'
    ||| c == '$'
    ||| c == '!'
    ||| c == '&'
    ||| c == '|'
    ||| c == ';'
    ||| c == '`'
    ||| c == '"'
    ||| c == '\''
    ||| c == '*'
    ||| c == '?'
}

/// The first refused character of a name, from the `k`-th on.
pub open spec fn first_refused(name: Seq<char>, k: int) -> Option<char>
    decreases name.len() - k,
{
    if k < 0 || k >= name.len() {
        None
    } else if is_refused(name[k]) {
        Some(name[k])
    } else {
        first_refused(name, k + 1)
    }
}

/// What is wrong with a project name, if anything.
pub open spec fn name_fault(name: Seq<char>) -> Option<Seq<char>> {
    if name.len() == 0 {
        Some("Project name cannot be empty"@)
    } else if paths::is_absolute(name) {
        Some("Project name cannot be an absolute path"@)
    } else if paths::has_parent(name) {
        Some("Project name cannot contain '..' (path traversal)"@)
    } else if name.contains('/') || name.contains('\\') {
        Some("Project name cannot contain path separators"@)
    } else if name.contains(' ') {
        Some("Project name cannot contain spaces — use hyphens instead (e.g. 'mi-tesis')"@)
    } else if first_refused(name, 0) is Some {
        Some(
            "Project name contains invalid character: '"@ + seq![first_refused(name, 0)->0] + "'"@,
        )
    } else if text::trim(name).len() == 0 {
        Some("Project name cannot be only whitespace"@)
    } else {
        None
    }
}

fn refused(c: char) -> (r: bool)
    ensures
        r == is_refused(c),
{
    c == '@' || c == '#' || c == '$' || c == '!' || c == '&' || c == '|' || c == ';' || c == '`'
        || c == '"' || c == '\'' || c == '*' || c == '?'
}

fn find_refused(name: &[char]) -> (r: Option<char>)
    ensures
        r == first_refused(name@, 0),
{
    let mut k: usize = 0;
    while k < name.len()
        invariant
            k <= name@.len(),
            first_refused(name@, 0) == first_refused(name@, k as int),
        decreases name@.len() - k,
    {
        if refused(name[k]) {
            return Some(name[k]);
        }
        k = k + 1;
    }
    None
}

/// Validate a project name: it is not empty, it does not leave the directory, and it has
/// no separators, spaces or special characters.
pub fn validate_project_name(name: &str) -> (r: Result<(), String>)
    ensures
        match r {
            Ok(_) => name_fault(name@) is None,
            Err(m) => name_fault(name@) == Some(m@),
        },
{
    let c = chars_of(name);
    let s = c.as_slice();
    if s.len() == 0 {
        return Err(text::lit("Project name cannot be empty"));
    }
    if paths::absolute(name) {
        return Err(text::lit("Project name cannot be an absolute path"));
    }
    if paths::goes_up(name) {
        return Err(text::lit("Project name cannot contain '..' (path traversal)"));
    }
    if text::has_ch(s, '/') || text::has_ch(s, '\\') {
        return Err(text::lit("Project name cannot contain path separators"));
    }
    if text::has_ch(s, ' ') {
        return Err(
            text::lit(
                "Project name cannot contain spaces — use hyphens instead (e.g. 'mi-tesis')",
            ),
        );
    }
    if let Some(bad) = find_refused(s) {
        let mut m = text::lit("Project name contains invalid character: '");
        m.push(bad);
        text::push(&mut m, "'");
        assert(m@ =~= "Project name contains invalid character: '"@ + seq![bad] + "'"@);
        return Err(m);
    }
    if text::trimmed(s).len() == 0 {
        return Err(text::lit("Project name cannot be only whitespace"));
    }
    Ok(())
}

// ---------------------------------------------------------------------------
// Files
// ---------------------------------------------------------------------------

/// What stands for a value in a template.
pub open spec fn placeholder(key: Seq<char>) -> Seq<char> {
    "{{"@ + key + "}}"@
}

/// Keys and their values.
pub open spec fn value_views(v: Seq<(String, String)>) -> Seq<(Seq<char>, Seq<char>)> {
    Seq::new(v.len(), |k: int| (v[k].0@, v[k].1@))
}

/// A text with the first `k` values put in, one after the other.
pub open spec fn substituted(
    content: Seq<char>,
    values: Seq<(Seq<char>, Seq<char>)>,
    k: int,
) -> Seq<char>
    decreases k,
{
    if k <= 0 || k > values.len() {
        content
    } else {
        text::replace(
            substituted(content, values, k - 1),
            placeholder(values[k - 1].0),
            values[k - 1].1,
        )
    }
}

/// Put values in place of `{{name}}`. What has no value is left as it is.
pub fn apply_substitutions(content: &str, values: &Vec<(String, String)>) -> (r: String)
    ensures
        r@ == substituted(content@, value_views(values@), values@.len() as int),
{
    let ghost all = value_views(values@);
    let mut out = text::lit(content);
    let mut k: usize = 0;
    while k < values.len()
        invariant
            k <= values@.len(),
            all == value_views(values@),
            out@ == substituted(content@, all, k as int),
        decreases values@.len() - k,
    {
        assert(all[k as int] == (values@[k as int].0@, values@[k as int].1@));
        let mark = text::cat3("{{", values[k].0.as_str(), "}}");
        let c = chars_of(out.as_str());
        out = text::replaced(c.as_slice(), mark.as_str(), values[k].1.as_str());
        k = k + 1;
    }
    out
}

/// What a file of a template becomes in a project. Values are put into `.tex` files;
/// every other file is taken as it is.
pub open spec fn project_content(
    path: Seq<char>,
    content: Seq<u8>,
    values: Seq<(Seq<char>, Seq<char>)>,
) -> Seq<u8> {
    if text::ends_with(path, ".tex"@) {
        vstd::utf8::encode_utf8(
            substituted(pdfdoc::utf8_lossy(content), values, values.len() as int),
        )
    } else {
        content
    }
}

/// The files of a project, given those of its template from the `k`-th on. The manifest
/// of the template is not one of them.
pub open spec fn project_files_from(
    files: Seq<(Seq<char>, Seq<u8>)>,
    values: Seq<(Seq<char>, Seq<char>)>,
    k: int,
) -> Seq<(Seq<char>, Seq<u8>)>
    decreases files.len() - k,
{
    if k < 0 || k >= files.len() {
        Seq::empty()
    } else if files[k].0 == "template.toml"@ {
        project_files_from(files, values, k + 1)
    } else {
        seq![(files[k].0, project_content(files[k].0, files[k].1, values))] + project_files_from(
            files,
            values,
            k + 1,
        )
    }
}

/// The files of a project, given those of its template and the values to put in.
pub fn project_files(files: &FileMap, values: &Vec<(String, String)>) -> (r: Vec<
    (String, Vec<u8>),
>)
    ensures
        templates::file_views(r@) == project_files_from(files@, value_views(values@), 0),
{
    let ghost all = files@;
    let ghost vs = value_views(values@);
    let n: usize = files.len();
    let mut out: Vec<(String, Vec<u8>)> = Vec::new();
    let mut k: usize = 0;
    assert(templates::file_views(out@) + project_files_from(all, vs, 0) =~= project_files_from(
        all,
        vs,
        0,
    ));
    while k < n
        invariant
            k <= n == files@.len(),
            all == files@,
            vs == value_views(values@),
            templates::file_views(out@) + project_files_from(all, vs, k as int)
                == project_files_from(all, vs, 0),
        decreases n - k,
    {
        let path = files.path(k);
        if !text::same_str(path, "template.toml") {
            let c = chars_of(path);
            let content: Vec<u8> = if text::ends(c.as_slice(), ".tex") {
                let t = pdfdoc::from_utf8_lossy(files.content(k));
                apply_substitutions(t.as_str(), values).as_str().as_bytes_vec()
            } else {
                copied(files.content(k))
            };
            let ghost done = templates::file_views(out@);
            let ghost one = (path@, content@);
            let ghost rest = project_files_from(all, vs, k + 1);
            assert(one == (all[k as int].0, project_content(all[k as int].0, all[k as int].1, vs)));
            out.push((text::lit(path), content));
            assert(templates::file_views(out@) =~= done.push(one));
            assert(done + (seq![one] + rest) =~= done.push(one) + rest);
        }
        k = k + 1;
    }
    assert(templates::file_views(out@) + project_files_from(all, vs, k as int)
        =~= templates::file_views(out@));
    out
}

fn copied(bytes: &[u8]) -> (r: Vec<u8>)
    ensures
        r@ == bytes@,
{
    let mut out: Vec<u8> = Vec::new();
    let mut k: usize = 0;
    while k < bytes.len()
        invariant
            k <= bytes@.len(),
            out@ == bytes@.take(k as int),
        decreases bytes@.len() - k,
    {
        out.push(bytes[k]);
        assert(out@ =~= bytes@.take(k + 1));
        k = k + 1;
    }
    assert(out@ =~= bytes@);
    out
}

/// The configuration of a new project.
pub fn project_toml(name: &str, template: &str) -> (r: String)
    ensures
        r@ == "[documento]\ntitulo = \""@ + name@ + "\"\nautor = \"Author\"\ntemplate = \""@
            + template@
            + "\"\n\n[compilacion]\nentry = \"main.tex\"\nbibliografia = \"bib/references.bib\"\n"@,
{
    text::cat5(
        "[documento]\ntitulo = \"",
        name,
        "\"\nautor = \"Author\"\ntemplate = \"",
        template,
        "\"\n\n[compilacion]\nentry = \"main.tex\"\nbibliografia = \"bib/references.bib\"\n",
    )
}

// ---------------------------------------------------------------------------
// Reports
// ---------------------------------------------------------------------------

/// The template of a project where none is named.
pub const DEFAULT_TEMPLATE: &'static str = "general";

/// The refusal of a project whose directory exists.
pub fn directory_exists(name: &str) -> (r: String)
    ensures
        r@ == "Directory '"@ + name@ + "' already exists"@,
{
    text::cat3("Directory '", name, "' already exists")
}

/// What is reported before a project is created.
pub fn creating(name: &str, template: &str) -> (r: String)
    ensures
        r@ == "Creating project '"@ + name@ + "' with template '"@ + template@ + "'...\n"@,
{
    text::cat5("Creating project '", name, "' with template '", template, "'...\n")
}

/// What is reported once a project is created.
pub fn created(name: &str) -> (r: String)
    ensures
        r@ == "  ◇ Project '"@ + name@ + "' created successfully\n\n  cd "@ + name@
            + "\n  texforge build\n"@,
{
    text::cat5(
        "  ◇ Project '",
        name,
        "' created successfully\n\n  cd ",
        name,
        "\n  texforge build\n",
    )
}

// ---------------------------------------------------------------------------
// Laws
// ---------------------------------------------------------------------------

/// A project with a valid name is made in a directory right below the current one: the
/// name is not empty, not absolute, and neither goes up nor holds a separator.
pub proof fn law_valid_names_stay_inside(name: Seq<char>)
    requires
        name_fault(name) is None,
    ensures
        name.len() > 0,
        !paths::is_absolute(name),
        !paths::has_parent(name),
        !name.contains('/'),
        !name.contains('\\'),
{
}

/// A text without any placeholder of the values is left as it is.
pub proof fn law_no_placeholder_no_change(
    content: Seq<char>,
    values: Seq<(Seq<char>, Seq<char>)>,
    k: int,
)
    requires
        forall|i: int|
            0 <= i < values.len() ==> !text::contains(
                content,
                placeholder((#[trigger] values[i]).0),
            ),
    ensures
        substituted(content, values, k) == content,
    decreases k,
{
    if 0 < k <= values.len() {
        law_no_placeholder_no_change(content, values, k - 1);
        text::lemma_contains_find(content, placeholder(values[k - 1].0));
    }
}

proof fn lemma_project_files(
    files: Seq<(Seq<char>, Seq<u8>)>,
    values: Seq<(Seq<char>, Seq<char>)>,
    k: int,
    j: int,
)
    requires
        0 <= k,
        0 <= j < project_files_from(files, values, k).len(),
    ensures
        project_files_from(files, values, k)[j].0 != "template.toml"@,
        exists|i: int|
            k <= i < files.len() && (#[trigger] files[i]).0 == project_files_from(
                files,
                values,
                k,
            )[j].0,
    decreases files.len() - k,
{
    if k < files.len() {
        if files[k].0 == "template.toml"@ {
            lemma_project_files(files, values, k + 1, j);
        } else if j > 0 {
            lemma_project_files(files, values, k + 1, j - 1);
        } else {
            assert(files[k].0 == project_files_from(files, values, k)[j].0);
        }
    }
}

/// Every file of a project is one of its template, and never the manifest.
pub proof fn law_project_files_are_those_of_the_template(
    files: Seq<(Seq<char>, Seq<u8>)>,
    values: Seq<(Seq<char>, Seq<char>)>,
    j: int,
)
    requires
        0 <= j < project_files_from(files, values, 0).len(),
    ensures
        project_files_from(files, values, 0)[j].0 != "template.toml"@,
        exists|i: int|
            0 <= i < files.len() && (#[trigger] files[i]).0 == project_files_from(
                files,
                values,
                0,
            )[j].0,
{
    lemma_project_files(files, values, 0, j);
}

} // verus!
