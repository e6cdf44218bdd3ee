//! The `template` command: what templates there are, and whether one is complete.

use vstd::prelude::*;

use crate::templates::{self, ResolvedTemplate};
use crate::text;

verus! {

broadcast use text::lemma_texts_push;

/// The first `k` names, each on a line.
pub open spec fn bullets(names: Seq<Seq<char>>, k: int) -> Seq<char>
    decreases k,
{
    if k <= 0 || k > names.len() {
        Seq::empty()
    } else {
        bullets(names, k - 1) + "  - "@ + names[k - 1] + "\n"@
    }
}

/// A head with the names below it, each on a line.
fn bulleted(head: &str, names: &Vec<String>) -> (r: String)
    ensures
        r@ == head@ + bullets(text::texts(names@), names@.len() as int),
{
    let ghost all = text::texts(names@);
    let mut out = text::lit(head);
    let mut k: usize = 0;
    assert(head@ + bullets(all, 0) =~= head@);
    while k < names.len()
        invariant
            k <= names@.len(),
            all == text::texts(names@),
            out@ == head@ + bullets(all, k as int),
        decreases names@.len() - k,
    {
        assert(all[k as int] == names@[k as int]@);
        let ghost before = bullets(all, k as int);
        text::push(&mut out, "  - ");
        text::push(&mut out, names[k].as_str());
        text::push(&mut out, "\n");
        assert(out@ =~= head@ + (before + "  - "@ + all[k as int] + "\n"@));
        k = k + 1;
    }
    out
}

/// The list of the installed templates.
pub fn installed_text(cached: &Vec<String>) -> (r: String)
    ensures
        r@ == "Installed:\n  - general (built-in)\n"@ + bullets(
            text::texts(cached@),
            cached@.len() as int,
        ),
{
    bulleted("Installed:\n  - general (built-in)\n", cached)
}

/// The templates of the registry, from the `k`-th on, that are not installed.
pub open spec fn not_installed(
    remote: Seq<Seq<char>>,
    cached: Seq<Seq<char>>,
    k: int,
) -> Seq<Seq<char>>
    decreases remote.len() - k,
{
    if k < 0 || k >= remote.len() {
        Seq::empty()
    } else if remote[k] != "general"@ && !cached.contains(remote[k]) {
        seq![remote[k]] + not_installed(remote, cached, k + 1)
    } else {
        not_installed(remote, cached, k + 1)
    }
}

/// The templates of the registry that are not installed.
pub fn available(remote: &Vec<String>, cached: &Vec<String>) -> (r: Vec<String>)
    ensures
        text::texts(r@) == not_installed(text::texts(remote@), text::texts(cached@), 0),
{
    let ghost rs = text::texts(remote@);
    let ghost cs = text::texts(cached@);
    let mut out: Vec<String> = Vec::new();
    let mut k: usize = 0;
    assert(text::texts(out@) + not_installed(rs, cs, 0) =~= not_installed(rs, cs, 0));
    while k < remote.len()
        invariant
            k <= remote@.len(),
            rs == text::texts(remote@),
            cs == text::texts(cached@),
            text::texts(out@) + not_installed(rs, cs, k as int) == not_installed(rs, cs, 0),
        decreases remote@.len() - k,
    {
        assert(rs[k as int] == remote@[k as int]@);
        let name = remote[k].as_str();
        if !text::same_str(name, "general") && !text::listed(cached, name) {
            let ghost done = text::texts(out@);
            let ghost rest = not_installed(rs, cs, k + 1);
            out.push(text::lit(name));
            assert(done + (seq![name@] + rest) =~= text::texts(out@) + rest);
        }
        k = k + 1;
    }
    assert(text::texts(out@) + not_installed(rs, cs, k as int) =~= text::texts(out@));
    out
}

/// The list of the templates that can be installed.
pub open spec fn available_list(names: Seq<Seq<char>>) -> Seq<char> {
    (if names.len() == 0 {
        "Available (not installed): none\n"@
    } else {
        "Available (not installed):\n"@ + bullets(names, names.len() as int)
    }) + "\nRun 'texforge template add <name>' to install.\n"@
}

/// The list of the templates that can be installed, given what the registry answered.
pub fn available_text(remote: &Result<Vec<String>, String>, cached: &Vec<String>) -> (r: String)
    ensures
        r@ == match remote {
            Ok(names) => available_list(
                not_installed(text::texts(names@), text::texts(cached@), 0),
            ),
            Err(e) => "\nCould not reach registry: "@ + e@ + "\n"@,
        },
{
    match remote {
        Ok(names) => {
            let open = available(names, cached);
            assert(open@.len() == text::texts(open@).len());
            let head = if open.len() == 0 {
                text::lit("Available (not installed): none\n")
            } else {
                bulleted("Available (not installed):\n", &open)
            };
            text::cat2(head.as_str(), "\nRun 'texforge template add <name>' to install.\n")
        },
        Err(e) => text::cat3("\nCould not reach registry: ", e.as_str(), "\n"),
    }
}

/// Whether a template is complete: it has its manifest.
pub fn validate(name: &str, template: &ResolvedTemplate) -> (r: Result<String, String>)
    ensures
        match r {
            Ok(m) => templates::content_of(template.files@, "template.toml"@) is Some && m@
                == "  ◇ Template '"@ + name@ + "' is valid\n"@,
            Err(m) => templates::content_of(template.files@, "template.toml"@) is None && m@
                == "Template '"@ + name@ + "' is missing template.toml"@,
        },
{
    if template.files.contains_key("template.toml") {
        Ok(text::cat3("  ◇ Template '", name, "' is valid\n"))
    } else {
        Err(text::cat3("Template '", name, "' is missing template.toml"))
    }
}

/// The built-in template is complete.
pub proof fn law_built_in_is_valid()
    ensures
        templates::content_of(templates::general_files(), "template.toml"@) is Some,
{
}

} // verus!
