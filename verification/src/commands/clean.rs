//! The `clean` command: the PDF and the old build directory are removed.

use vstd::prelude::*;

use crate::commands::build;
use crate::paths;
use crate::text;

verus! {

/// What may be removed from a project: its PDF, and the old build directory.
#[derive(Debug)]
pub struct CleanPlan {
    pub pdf: String,
    pub build: String,
}

/// What may be removed from a project.
pub fn plan(root: &str, title: &str) -> (r: CleanPlan)
    ensures
        r.pdf@ == paths::joined(root@, build::pdf_file(title@)),
        r.build@ == paths::joined(root@, "build"@),
{
    CleanPlan { pdf: build::pdf_path(root, title), build: paths::join(root, "build") }
}

/// What is reported, given what was removed.
pub open spec fn clean_text(title: Seq<char>, pdf_removed: bool, build_removed: bool) -> Seq<char> {
    if !pdf_removed && !build_removed {
        "Nothing to clean.\n"@
    } else {
        (if pdf_removed {
            "  ◇ "@ + build::pdf_file(title) + " removed\n"@
        } else {
            Seq::empty()
        }) + if build_removed {
            "  ◇ build/ removed\n"@
        } else {
            Seq::empty()
        }
    }
}

/// What is reported, given what was removed.
pub fn report(title: &str, pdf_removed: bool, build_removed: bool) -> (r: String)
    ensures
        r@ == clean_text(title@, pdf_removed, build_removed),
{
    if !pdf_removed && !build_removed {
        return text::lit("Nothing to clean.\n");
    }
    let mut out = if pdf_removed {
        text::cat3("  ◇ ", build::pdf_name(title).as_str(), " removed\n")
    } else {
        String::new()
    };
    if build_removed {
        let ghost before = out@;
        text::push(&mut out, "  ◇ build/ removed\n");
        assert(out@ =~= before + "  ◇ build/ removed\n"@);
    } else {
        assert(out@ + Seq::<char>::empty() =~= out@);
    }
    out
}

} // verus!
