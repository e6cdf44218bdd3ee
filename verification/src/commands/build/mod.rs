//! The `build` command: one build, and builds again whenever a source changes.

use vstd::prelude::*;

use crate::commands::init::BANNER;
use crate::compiler;
use crate::domain::project::Reproducible;
use crate::number;
use crate::paths;
use crate::text::{self, chars_of};
use crate::utils;

verus! {

/// The epoch of a build.
pub open spec fn epoch_of(cli: Option<Option<u64>>, config: Option<Reproducible>) -> Option<u64> {
    match cli {
        Some(Some(epoch)) => Some(epoch),
        Some(None) => Some(compiler::DEFAULT_EPOCH),
        None => match config {
            Some(Reproducible::Enabled(true)) => Some(compiler::DEFAULT_EPOCH),
            Some(Reproducible::Epoch(epoch)) => Some(epoch),
            _ => None,
        },
    }
}

/// The epoch that a build is pinned to, if any. The flag wins over the configuration; a
/// flag without a value pins the default epoch, and so does a configuration that is
/// switched on without one.
pub fn resolve_epoch(cli: Option<Option<u64>>, config: Option<Reproducible>) -> (r: Option<u64>)
    ensures
        r == epoch_of(cli, config),
{
    match cli {
        Some(Some(epoch)) => Some(epoch),
        Some(None) => Some(compiler::DEFAULT_EPOCH),
        None => match config {
            Some(Reproducible::Enabled(on)) => if on {
                Some(compiler::DEFAULT_EPOCH)
            } else {
                None
            },
            Some(Reproducible::Epoch(epoch)) => Some(epoch),
            None => None,
        },
    }
}

/// What is reported before a build.
pub fn build_header(title: &str, epoch: Option<u64>, build_dir: &str) -> (r: String)
    ensures
        r@ == "Building project: "@ + title@ + "\n"@ + (if epoch is Some {
            "  ◇ reproducible build (SOURCE_DATE_EPOCH pinned)\n"@
        } else {
            Seq::empty()
        }) + "  ◇ temp: "@ + build_dir@ + "\n"@,
{
    let mut out = text::cat3("Building project: ", title, "\n");
    let ghost head = out@;
    if epoch.is_some() {
        text::push(&mut out, "  ◇ reproducible build (SOURCE_DATE_EPOCH pinned)\n");
    } else {
        assert(out@ =~= head + Seq::<char>::empty());
    }
    text::push(&mut out, "  ◇ temp: ");
    text::push(&mut out, build_dir);
    text::push(&mut out, "\n");
    out
}

/// The file that is compiled in the build directory.
pub open spec fn entry_name(entry: Seq<char>) -> Seq<char> {
    match paths::file_name(entry) {
        Some(n) => n,
        None => entry,
    }
}

/// The file that is compiled in the build directory.
pub fn entry_filename(entry: &str) -> (r: String)
    ensures
        r@ == entry_name(entry@),
{
    match paths::file_name_of(entry) {
        Some(n) => n,
        None => text::lit(entry),
    }
}

/// The name of the PDF of a document.
pub open spec fn pdf_file(title: Seq<char>) -> Seq<char> {
    utils::file_name_of(title) + ".pdf"@
}

/// The name of the PDF of a document.
pub fn pdf_name(title: &str) -> (r: String)
    ensures
        r@ == pdf_file(title@),
{
    text::cat2(utils::sanitize_filename(title).as_str(), ".pdf")
}

/// Where the PDF of a document is published.
pub fn pdf_path(root: &str, title: &str) -> (r: String)
    ensures
        r@ == paths::joined(root@, pdf_file(title@)),
{
    paths::join(root, pdf_name(title).as_str())
}

/// Where the engine leaves the PDF of an entry in the build directory; none where the
/// entry names no file.
pub fn compiled_pdf(build_dir: &str, entry: &str) -> (r: Option<String>)
    ensures
        text::opt_text(r) == match paths::file_name(paths::with_extension(entry@, "pdf"@)) {
            Some(n) => Some(paths::joined(build_dir@, n)),
            None => None,
        },
{
    match paths::file_name_of(paths::set_extension(entry, "pdf").as_str()) {
        Some(n) => Some(paths::join(build_dir, n.as_str())),
        None => None,
    }
}

// ---------------------------------------------------------------------------
// The live preview
// ---------------------------------------------------------------------------

/// An image of one page that is written after each successful build.
#[derive(Debug)]
pub struct LivePreview {
    /// The page, counted from one.
    pub page: usize,
    /// Where the image goes; `preview.png` in the project root where nothing is said.
    pub out: Option<String>,
}

/// Where the image goes. A relative path is taken from the project root.
pub fn resolve_preview_path(root: &str, out: Option<&str>) -> (r: String)
    ensures
        r@ == paths::joined(
            root@,
            match out {
                Some(p) => p@,
                None => "preview.png"@,
            },
        ),
{
    match out {
        Some(p) => paths::join(root, p),
        None => paths::join(root, "preview.png"),
    }
}

/// Where the image is written before it takes the place of the last one.
pub fn preview_temp_path(target: &str) -> (r: String)
    ensures
        r@ == target@ + ".tmp"@,
{
    text::cat2(target, ".tmp")
}

/// The refusal of a page that a document does not have.
pub open spec fn no_such_page(flag: Seq<char>, page: nat, pages: nat) -> Seq<char> {
    flag + " "@ + number::decimal(page) + " is out of range (document has "@ + number::decimal(
        pages,
    ) + " pages)"@
}

/// The refusal of a page that a document does not have.
pub fn out_of_range(flag: &str, page: usize, pages: usize) -> (r: String)
    ensures
        r@ == no_such_page(flag@, page as nat, pages as nat),
{
    let mut out = text::cat5(
        flag,
        " ",
        number::show_size(page).as_str(),
        " is out of range (document has ",
        number::show_size(pages).as_str(),
    );
    text::push(&mut out, " pages)");
    out
}

/// The refusal of page zero, for which no document need be opened.
pub fn check_preview_page(page: usize) -> (r: Result<(), String>)
    ensures
        page == 0 ==> r is Err && r->Err_0@ == "--preview-page must be at least 1"@,
        page > 0 ==> r is Ok,
{
    if page == 0 {
        Err(text::lit("--preview-page must be at least 1"))
    } else {
        Ok(())
    }
}

/// The index of the page that is shown, of a document with so many pages.
pub fn preview_index(page: usize, pages: usize) -> (r: Result<usize, String>)
    ensures
        page == 0 ==> r is Err && r->Err_0@ == "--preview-page must be at least 1"@,
        page > pages && page > 0 ==> r is Err && r->Err_0@ == no_such_page(
            "--preview-page"@,
            page as nat,
            pages as nat,
        ),
        0 < page <= pages ==> r == Ok::<usize, String>((page - 1) as usize),
{
    if let Err(e) = check_preview_page(page) {
        return Err(e);
    }
    if page > pages {
        return Err(out_of_range("--preview-page", page, pages));
    }
    Ok(page - 1)
}

// ---------------------------------------------------------------------------
// Watching
// ---------------------------------------------------------------------------

/// The header while sources are watched.
pub fn watch_header(title: &str, delay_secs: u64, preview: Option<&str>) -> (r: String)
    ensures
        r@ == "\u{1b}[2J\u{1b}[H"@ + BANNER@ + "\n  "@ + title@ + " — watching  ("@
            + number::decimal(delay_secs as nat) + "s debounce  Ctrl+C to stop)\n"@ + (
        match preview {
            Some(p) => "  live preview → "@ + p@ + "\n"@,
            None => Seq::empty(),
        }),
{
    let mut out = text::cat5(
        "\u{1b}[2J\u{1b}[H",
        BANNER,
        "\n  ",
        title,
        " — watching  (",
    );
    text::push(&mut out, number::show(delay_secs).as_str());
    text::push(&mut out, "s debounce  Ctrl+C to stop)\n");
    let ghost head = out@;
    match preview {
        Some(p) => {
            text::push(&mut out, "  live preview → ");
            text::push(&mut out, p);
            text::push(&mut out, "\n");
            assert(out@ =~= head + ("  live preview → "@ + p@ + "\n"@));
        },
        None => {
            assert(out@ =~= head + Seq::<char>::empty());
        },
    }
    out
}

/// A number with two digits at least.
pub open spec fn two_digits(n: nat) -> Seq<char> {
    if n < 10 {
        "0"@ + number::decimal(n)
    } else {
        number::decimal(n)
    }
}

fn show_two(n: u64) -> (r: String)
    ensures
        r@ == two_digits(n as nat),
{
    if n < 10 {
        text::cat2("0", number::show(n).as_str())
    } else {
        number::show(n)
    }
}

/// A number of seconds as hours, minutes and seconds.
pub open spec fn clock(seconds: nat) -> Seq<char> {
    two_digits(seconds / 3600) + ":"@ + two_digits((seconds % 3600) / 60) + ":"@ + two_digits(
        seconds % 60,
    )
}

/// A number of seconds as hours, minutes and seconds.
pub fn session_time(seconds: u64) -> (r: String)
    ensures
        r@ == clock(seconds as nat),
{
    text::cat5(
        show_two(seconds / 3600).as_str(),
        ":",
        show_two((seconds % 3600) / 60).as_str(),
        ":",
        show_two(seconds % 60).as_str(),
    )
}

/// The first `k` lines, each behind four spaces.
pub open spec fn indented(ls: Seq<Seq<char>>, k: int) -> Seq<char>
    decreases k,
{
    if k <= 0 || k > ls.len() {
        Seq::empty()
    } else {
        indented(ls, k - 1) + "    "@ + ls[k - 1] + "\n"@
    }
}

/// The lines on a build: the name of the PDF, or what was wrong.
pub open spec fn result_text(result: Result<String, String>) -> Seq<char> {
    match result {
        Ok(pdf) => "  \u{1b}[32m"@ + pdf@ + "  ok\u{1b}[0m\n"@,
        Err(err) => "  \u{1b}[31merror:\u{1b}[0m\n"@ + indented(
            text::lines(err@),
            text::lines(err@).len() as int,
        ),
    }
}

/// The state that is shown while sources are watched.
pub open spec fn status_text(result: Result<String, String>, builds: nat, seconds: nat) -> Seq<char> {
    "\u{1b}[15;0H\u{1b}[J\n  session  \u{1b}[36m"@ + clock(seconds)
        + "\u{1b}[0m   builds  \u{1b}[36m"@ + number::decimal(builds) + "\u{1b}[0m\n\n"@ + result_text(
        result,
    )
}

fn show_result(result: &Result<String, String>) -> (r: String)
    ensures
        r@ == result_text(*result),
{
    match result {
        Ok(pdf) => text::cat3("  \u{1b}[32m", pdf.as_str(), "  ok\u{1b}[0m\n"),
        Err(err) => {
            let c = chars_of(err.as_str());
            let ls = text::lines_of(c.as_slice());
            let ghost all = text::slices(ls@);
            let head = text::lit("  \u{1b}[31merror:\u{1b}[0m\n");
            let mut out = text::lit(head.as_str());
            let mut k: usize = 0;
            assert(head@ + indented(all, 0) =~= head@);
            while k < ls.len()
                invariant
                    k <= ls@.len(),
                    all == text::slices(ls@),
                    out@ == head@ + indented(all, k as int),
                decreases ls@.len() - k,
            {
                assert(all[k as int] == ls@[k as int]@);
                let ghost before = indented(all, k as int);
                text::push(&mut out, "    ");
                text::append_chars(&mut out, ls[k]);
                text::push(&mut out, "\n");
                assert(out@ =~= head@ + (before + "    "@ + all[k as int] + "\n"@));
                k = k + 1;
            }
            assert(all.len() == ls@.len());
            out
        },
    }
}

/// The state that is shown while sources are watched.
pub fn status(result: &Result<String, String>, builds: u32, seconds: u64) -> (r: String)
    ensures
        r@ == status_text(*result, builds as nat, seconds as nat),
{
    let mut out = text::cat5(
        "\u{1b}[15;0H\u{1b}[J\n  session  \u{1b}[36m",
        session_time(seconds).as_str(),
        "\u{1b}[0m   builds  \u{1b}[36m",
        number::show(builds as u64).as_str(),
        "\u{1b}[0m\n\n",
    );
    text::push(&mut out, show_result(result).as_str());
    out
}

/// Whether a changed path is a source: a `.tex` file outside the build directory.
pub open spec fn is_source_change(path: Seq<char>, build_dir: Seq<char>) -> bool {
    !paths::is_under(path, build_dir) && paths::extension(path) == Some("tex"@)
}

/// Whether a source is among the changed paths.
pub fn is_relevant(changed: &Vec<String>, build_dir: &str) -> (r: bool)
    ensures
        r == exists|i: int|
            0 <= i < changed@.len() && is_source_change((#[trigger] changed@[i])@, build_dir@),
{
    let mut k: usize = 0;
    while k < changed.len()
        invariant
            k <= changed@.len(),
            forall|i: int|
                0 <= i < k ==> !is_source_change((#[trigger] changed@[i])@, build_dir@),
        decreases changed@.len() - k,
    {
        let p = changed[k].as_str();
        let tex = match paths::extension_of(p) {
            Some(e) => text::same_str(e.as_str(), "tex"),
            None => false,
        };
        if tex && !paths::under(p, build_dir) {
            assert(is_source_change(changed@[k as int]@, build_dir@));
            return true;
        }
        k = k + 1;
    }
    false
}

/// How long changes are ignored after a build, in nanoseconds.
pub const COOLDOWN: u128 = 2_000_000_000;

/// How often the state is shown anew, in nanoseconds.
pub const TICK: u128 = 1_000_000_000;

/// The state of a watch. All times are nanoseconds since it began.
#[derive(Debug, Clone, Copy, PartialEq, Eq, Structural)]
pub struct Watch {
    /// How long sources must stay unchanged before a build.
    pub debounce: u128,
    /// Whether a build is owed.
    pub pending: bool,
    pub last_event: u128,
    pub last_build: u128,
    pub last_tick: u128,
    pub builds: u32,
}

/// How much time has passed; none where the clock went back.
pub open spec fn since(then: u128, now: u128) -> int {
    if now >= then {
        now - then
    } else {
        0
    }
}

fn elapsed(then: u128, now: u128) -> (r: u128)
    ensures
        r == since(then, now),
{
    if now >= then {
        now - then
    } else {
        0
    }
}

impl Watch {
    /// The state behind the first build.
    pub fn new(delay_secs: u64, now: u128) -> (r: Watch)
        ensures
            r == (Watch {
                debounce: (delay_secs * 1_000_000_000) as u128,
                pending: false,
                last_event: now,
                last_build: now,
                last_tick: now,
                builds: 1,
            }),
    {
        Watch {
            debounce: delay_secs as u128 * 1_000_000_000,
            pending: false,
            last_event: now,
            last_build: now,
            last_tick: now,
            builds: 1,
        }
    }

    /// The state behind a change.
    pub open spec fn noticed(self, relevant: bool, now: u128) -> Watch {
        if relevant && since(self.last_build, now) > COOLDOWN {
            Watch { pending: true, last_event: now, ..self }
        } else {
            self
        }
    }

    /// Take note of a change. What follows a build closely is ignored.
    pub fn notice(&mut self, relevant: bool, now: u128)
        ensures
            *final(self) == old(self).noticed(relevant, now),
    {
        if relevant && elapsed(self.last_build, now) > COOLDOWN {
            self.pending = true;
            self.last_event = now;
        }
    }

    /// Whether the state is to be shown anew. If so, that is taken note of.
    pub fn tick(&mut self, now: u128) -> (r: bool)
        ensures
            r == (since(old(self).last_tick, now) >= TICK),
            *final(self) == if r {
                Watch { last_tick: now, ..*old(self) }
            } else {
                *old(self)
            },
    {
        if elapsed(self.last_tick, now) >= TICK {
            self.last_tick = now;
            true
        } else {
            false
        }
    }

    /// Whether a build is due: one is owed, and no source has changed for long enough.
    pub open spec fn is_due(self, now: u128) -> bool {
        self.pending && since(self.last_event, now) >= self.debounce
    }

    /// The state once a build has begun.
    pub open spec fn begun(self) -> Watch {
        Watch {
            pending: false,
            builds: if self.builds < u32::MAX {
                (self.builds + 1) as u32
            } else {
                u32::MAX
            },
            ..self
        }
    }

    /// Whether a build is due. If so, it counts as begun.
    pub fn begin(&mut self, now: u128) -> (r: bool)
        ensures
            r == old(self).is_due(now),
            *final(self) == if r {
                old(self).begun()
            } else {
                *old(self)
            },
    {
        if self.pending && elapsed(self.last_event, now) >= self.debounce {
            self.pending = false;
            if self.builds < u32::MAX {
                self.builds = self.builds + 1;
            }
            true
        } else {
            false
        }
    }

    /// Take note that a build has ended.
    pub fn built(&mut self, now: u128)
        ensures
            *final(self) == (Watch { last_build: now, ..*old(self) }),
    {
        self.last_build = now;
    }
}

// ---------------------------------------------------------------------------
// Laws
// ---------------------------------------------------------------------------

/// A build is due only once no source has changed for as long as was asked for: each
/// change that counts starts the wait anew.
pub proof fn law_changes_start_the_wait_anew(w: Watch, change: u128, now: u128)
    requires
        since(w.last_build, change) > COOLDOWN,
        change <= now,
    ensures
        w.noticed(true, change).is_due(now) <==> now - change >= w.debounce,
{
}

/// Once a build has begun none is owed, and what happens within the cooldown after it has
/// ended does not make one due.
pub proof fn law_build_does_not_cause_a_build(
    w: Watch,
    end: u128,
    relevant: bool,
    change: u128,
    now: u128,
)
    requires
        end <= change,
        change - end <= COOLDOWN,
    ensures
        !(Watch { last_build: end, ..w.begun() }).noticed(relevant, change).is_due(now),
{
}

/// The flag wins over whatever is configured.
pub proof fn law_flag_wins(flag: Option<u64>, config: Option<Reproducible>)
    ensures
        epoch_of(Some(flag), config) == epoch_of(Some(flag), None),
        epoch_of(Some(flag), config) is Some,
{
}

} // verus!
