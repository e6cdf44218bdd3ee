//! The `uninstall` command.
//!
//! It removes everything under the data directory: the engine, the caches, the
//! configuration and, where this is asked for, the personal spell dictionary. That one is
//! the user's own writing and no cache, so it is kept by default. The program itself is
//! never touched: the report says how it was installed.

use vstd::prelude::*;

use crate::paths;
use crate::size;
use crate::text;

verus! {

/// Something that can be removed.
#[derive(Debug)]
pub struct PlanItem {
    pub label: String,
    pub path: String,
    pub is_dir: bool,
    pub exists: bool,
    pub size: u64,
    pub is_spell_words: bool,
}

/// What a [`PlanItem`] says.
#[verifier::ext_equal]
pub struct ItemView {
    pub label: Seq<char>,
    pub path: Seq<char>,
    pub is_dir: bool,
    pub exists: bool,
    pub size: u64,
    pub is_spell_words: bool,
}

impl View for PlanItem {
    type V = ItemView;

    open spec fn view(&self) -> ItemView {
        ItemView {
            label: self.label@,
            path: self.path@,
            is_dir: self.is_dir,
            exists: self.exists,
            size: self.size,
            is_spell_words: self.is_spell_words,
        }
    }
}

/// What items say.
pub open spec fn item_views(v: Seq<PlanItem>) -> Seq<ItemView> {
    Seq::new(v.len(), |k: int| v[k]@)
}

/// What is to be removed, and what is said of the program itself.
#[derive(Debug)]
pub struct Plan {
    pub items: Vec<PlanItem>,
    pub binary_note: String,
    pub spell_words_included: bool,
}

/// Whether something is there, and how many bytes it has.
#[derive(Debug, Clone, Copy)]
pub struct Presence {
    pub exists: bool,
    pub size: u64,
}

/// An entry of the data directory.
#[derive(Debug)]
pub struct DataEntry {
    pub name: String,
    pub is_dir: bool,
    pub size: u64,
}

/// What lies in the data directory.
#[derive(Debug)]
pub struct DataDir {
    pub bin: Presence,
    pub templates: Presence,
    pub dicts: Presence,
    pub spell_words: Presence,
    /// All entries, in the order in which they are listed.
    pub entries: Vec<DataEntry>,
}

/// An item that is known by its name.
pub open spec fn known_item(
    dir: Seq<char>,
    name: Seq<char>,
    label: Seq<char>,
    p: Presence,
    is_dir: bool,
    is_spell_words: bool,
) -> ItemView {
    ItemView {
        label,
        path: paths::joined(dir, name),
        is_dir,
        exists: p.exists,
        size: p.size,
        is_spell_words,
    }
}

/// The items that are listed whether they exist or not.
pub open spec fn known_items(dir: Seq<char>, d: DataDir) -> Seq<ItemView> {
    seq![
        known_item(dir, "bin"@, "Managed Tectonic engine"@, d.bin, true, false),
        known_item(dir, "templates"@, "Template cache"@, d.templates, true, false),
        known_item(dir, "dicts"@, "Dictionary cache"@, d.dicts, true, false),
        known_item(
            dir,
            "spell-words"@,
            "Personal spell dictionary (your own writing)"@,
            d.spell_words,
            false,
            true,
        ),
    ]
}

/// Whether a name is one of the known items.
pub open spec fn is_known_name(name: Seq<char>) -> bool {
    name == "bin"@ || name == "templates"@ || name == "dicts"@ || name == "spell-words"@
}

/// The item of any other entry.
pub open spec fn other_item(dir: Seq<char>, e: DataEntry) -> ItemView {
    ItemView {
        label: if e.name@ == "config.toml"@ {
            "Configuration"@
        } else {
            "Other: "@ + e.name@
        },
        path: paths::joined(dir, e.name@),
        is_dir: e.is_dir,
        exists: true,
        size: e.size,
        is_spell_words: false,
    }
}

/// The items of the entries, from the `k`-th on, that are not known by their name.
pub open spec fn other_items(dir: Seq<char>, entries: Seq<DataEntry>, k: int) -> Seq<ItemView>
    decreases entries.len() - k,
{
    if k < 0 || k >= entries.len() {
        Seq::empty()
    } else if is_known_name(entries[k].name@) {
        other_items(dir, entries, k + 1)
    } else {
        seq![other_item(dir, entries[k])] + other_items(dir, entries, k + 1)
    }
}

/// What is said of the program itself.
pub open spec fn install_note(exe: Option<Seq<char>>, is_cargo: bool) -> Seq<char> {
    match exe {
        None => "The texforge binary was not removed. Could not determine its location."@,
        Some(e) => if is_cargo {
            "The texforge binary was NOT removed.\nIt was installed via cargo and is managed by cargo.\nTo remove it, run: cargo uninstall texforge\nBinary location: "@
                + e
        } else {
            "The texforge binary was NOT removed.\nTo remove it manually, run: rm -f "@ + e
                + "\n(or the equivalent for your install method)"@
        },
    }
}

/// What is said of the program itself, given where it lies and whether cargo manages it.
pub fn binary_install_note(exe: Option<&str>, is_cargo: bool) -> (r: String)
    ensures
        r@ == install_note(text::opt_str(exe), is_cargo),
{
    match exe {
        None => text::lit(
            "The texforge binary was not removed. Could not determine its location.",
        ),
        Some(e) => if is_cargo {
            text::cat2(
                "The texforge binary was NOT removed.\nIt was installed via cargo and is managed by cargo.\nTo remove it, run: cargo uninstall texforge\nBinary location: ",
                e,
            )
        } else {
            text::cat3(
                "The texforge binary was NOT removed.\nTo remove it manually, run: rm -f ",
                e,
                "\n(or the equivalent for your install method)",
            )
        },
    }
}

fn item(
    dir: &str,
    name: &str,
    label: &str,
    p: Presence,
    is_dir: bool,
    is_spell_words: bool,
) -> (r: PlanItem)
    ensures
        r@ == known_item(dir@, name@, label@, p, is_dir, is_spell_words),
{
    PlanItem {
        label: text::lit(label),
        path: paths::join(dir, name),
        is_dir,
        exists: p.exists,
        size: p.size,
        is_spell_words,
    }
}

/// Plan what is removed from a data directory, given what lies in it.
pub fn build_plan_at(
    data_dir: &str,
    found: &DataDir,
    include_spell_words: bool,
    exe: Option<&str>,
    is_cargo: bool,
) -> (r: Plan)
    ensures
        item_views(r.items@) == known_items(data_dir@, *found) + other_items(
            data_dir@,
            found.entries@,
            0,
        ),
        r.binary_note@ == install_note(text::opt_str(exe), is_cargo),
        r.spell_words_included == include_spell_words,
{
    let mut items: Vec<PlanItem> = Vec::new();
    items.push(item(data_dir, "bin", "Managed Tectonic engine", found.bin, true, false));
    items.push(item(data_dir, "templates", "Template cache", found.templates, true, false));
    items.push(item(data_dir, "dicts", "Dictionary cache", found.dicts, true, false));
    items.push(
        item(
            data_dir,
            "spell-words",
            "Personal spell dictionary (your own writing)",
            found.spell_words,
            false,
            true,
        ),
    );
    let ghost known = known_items(data_dir@, *found);
    assert(item_views(items@) =~= known);
    let ghost all = found.entries@;
    let mut k: usize = 0;
    while k < found.entries.len()
        invariant
            k <= found.entries@.len(),
            all == found.entries@,
            item_views(items@) + other_items(data_dir@, all, k as int) == known + other_items(
                data_dir@,
                all,
                0,
            ),
        decreases found.entries@.len() - k,
    {
        let e = &found.entries[k];
        let name = e.name.as_str();
        if !(text::same_str(name, "bin") || text::same_str(name, "templates") || text::same_str(
            name,
            "dicts",
        ) || text::same_str(name, "spell-words")) {
            let label = if text::same_str(name, "config.toml") {
                text::lit("Configuration")
            } else {
                text::cat2("Other: ", name)
            };
            let ghost done = item_views(items@);
            let one = PlanItem {
                label,
                path: paths::join(data_dir, name),
                is_dir: e.is_dir,
                exists: true,
                size: e.size,
                is_spell_words: false,
            };
            let ghost v = one@;
            assert(v =~= other_item(data_dir@, all[k as int]));
            items.push(one);
            assert(item_views(items@) =~= done.push(v));
            assert(done + (seq![v] + other_items(data_dir@, all, k + 1)) =~= item_views(items@)
                + other_items(data_dir@, all, k + 1));
        }
        k = k + 1;
    }
    assert(item_views(items@) + other_items(data_dir@, all, k as int) =~= item_views(items@));
    Plan {
        items,
        binary_note: binary_install_note(exe, is_cargo),
        spell_words_included: include_spell_words,
    }
}

/// Whether an item is removed: it exists, and is not the personal dictionary unless that
/// is included.
pub open spec fn is_removable(i: ItemView, spell_words_included: bool) -> bool {
    i.exists && (!i.is_spell_words || spell_words_included)
}

/// Whether an item is removed.
pub fn removable(item: &PlanItem, spell_words_included: bool) -> (r: bool)
    ensures
        r == is_removable(item@, spell_words_included),
{
    item.exists && (!item.is_spell_words || spell_words_included)
}

/// The positions, from the `k`-th item on, of the items that are removed.
pub open spec fn removals(items: Seq<ItemView>, spell_words_included: bool, k: int) -> Seq<int>
    decreases items.len() - k,
{
    if k < 0 || k >= items.len() {
        Seq::empty()
    } else if is_removable(items[k], spell_words_included) {
        seq![k] + removals(items, spell_words_included, k + 1)
    } else {
        removals(items, spell_words_included, k + 1)
    }
}

/// Positions as integers.
pub open spec fn positions(v: Seq<usize>) -> Seq<int> {
    Seq::new(v.len(), |k: int| v[k] as int)
}

/// The positions of the items that are removed.
pub fn removable_items(plan: &Plan) -> (r: Vec<usize>)
    ensures
        positions(r@) == removals(item_views(plan.items@), plan.spell_words_included, 0),
{
    let ghost all = item_views(plan.items@);
    let ghost with = plan.spell_words_included;
    let mut out: Vec<usize> = Vec::new();
    let mut k: usize = 0;
    assert(positions(out@) + removals(all, with, 0) =~= removals(all, with, 0));
    while k < plan.items.len()
        invariant
            k <= plan.items@.len(),
            all == item_views(plan.items@),
            with == plan.spell_words_included,
            positions(out@) + removals(all, with, k as int) == removals(all, with, 0),
        decreases plan.items@.len() - k,
    {
        assert(all[k as int] == plan.items@[k as int]@);
        if removable(&plan.items[k], plan.spell_words_included) {
            let ghost done = positions(out@);
            out.push(k);
            assert(positions(out@) =~= done.push(k as int));
            assert(done + (seq![k as int] + removals(all, with, k + 1)) =~= positions(out@)
                + removals(all, with, k + 1));
        }
        k = k + 1;
    }
    assert(positions(out@) + removals(all, with, k as int) =~= positions(out@));
    out
}

/// What the command does after the plan has been shown.
#[derive(Debug, Clone, Copy, PartialEq, Eq, Structural)]
pub enum NextStep {
    /// Nothing is removed: it is a dry run.
    DryRun,
    /// There is nothing to remove.
    Nothing,
    /// The user is asked.
    Ask,
    /// The items are removed.
    Remove,
}

/// What the command does after the plan has been shown.
pub fn next_step(plan: &Plan, dry_run: bool, yes: bool) -> (r: NextStep)
    ensures
        r == if dry_run {
            NextStep::DryRun
        } else if removals(item_views(plan.items@), plan.spell_words_included, 0).len() == 0 {
            NextStep::Nothing
        } else if yes {
            NextStep::Remove
        } else {
            NextStep::Ask
        },
{
    if dry_run {
        return NextStep::DryRun;
    }
    let items = removable_items(plan);
    assert(items@.len() == positions(items@).len());
    if items.len() == 0 {
        NextStep::Nothing
    } else if yes {
        NextStep::Remove
    } else {
        NextStep::Ask
    }
}

// ---------------------------------------------------------------------------
// The report
// ---------------------------------------------------------------------------

/// The lines on an item.
pub open spec fn item_text(i: ItemView, spell_words_included: bool) -> Seq<char> {
    if i.is_spell_words && !spell_words_included {
        "  "@ + i.label + " (preserved — pass --include-spell-words to remove)\n"@
            + if i.exists {
            "    path: "@ + i.path + "\n    size: "@ + size::size_text(i.size as nat) + "\n"@
        } else {
            Seq::empty()
        }
    } else if !i.exists {
        "  "@ + i.label + " — not present\n"@
    } else {
        "  "@ + i.label + " — "@ + size::size_text(i.size as nat) + "\n    path: "@ + i.path
            + "\n"@
    }
}

/// The lines on the first `k` items.
pub open spec fn item_texts(items: Seq<ItemView>, spell_words_included: bool, k: int) -> Seq<char>
    decreases k,
{
    if k <= 0 || k > items.len() {
        Seq::empty()
    } else {
        item_texts(items, spell_words_included, k - 1) + item_text(
            items[k - 1],
            spell_words_included,
        )
    }
}

/// The bytes of the first `k` items that are removed.
pub open spec fn removed_bytes(items: Seq<ItemView>, spell_words_included: bool, k: int) -> nat
    decreases k,
{
    if k <= 0 || k > items.len() {
        0
    } else {
        removed_bytes(items, spell_words_included, k - 1) + if is_removable(
            items[k - 1],
            spell_words_included,
        ) {
            items[k - 1].size as nat
        } else {
            0
        }
    }
}

/// Whether one of the first `k` items exists.
pub open spec fn any_exists(items: Seq<ItemView>, k: int) -> bool {
    exists|i: int| 0 <= i < k && (#[trigger] items[i]).exists
}

/// A number of bytes within the sizes of files.
pub open spec fn within(n: nat) -> nat {
    if n <= u64::MAX {
        n
    } else {
        u64::MAX as nat
    }
}

/// The report on a plan.
pub open spec fn plan_report(items: Seq<ItemView>, spell_words_included: bool) -> Seq<char> {
    let n = items.len() as int;
    "texforge uninstall\n\n"@ + item_texts(items, spell_words_included, n) + "\n"@ + if any_exists(
        items,
        n,
    ) {
        "  Total to remove: "@ + size::size_text(
            within(removed_bytes(items, spell_words_included, n)),
        ) + "\n"@
    } else {
        "  Nothing present under ~/.texforge.\n"@
    }
}

fn describe(item: &PlanItem, spell_words_included: bool) -> (r: String)
    ensures
        r@ == item_text(item@, spell_words_included),
{
    if item.is_spell_words && !spell_words_included {
        let head = text::cat3(
            "  ",
            item.label.as_str(),
            " (preserved — pass --include-spell-words to remove)\n",
        );
        if item.exists {
            let more = text::cat5(
                "    path: ",
                item.path.as_str(),
                "\n    size: ",
                size::format_size(item.size).as_str(),
                "\n",
            );
            text::cat2(head.as_str(), more.as_str())
        } else {
            assert(head@ + Seq::<char>::empty() =~= head@);
            head
        }
    } else if !item.exists {
        text::cat3("  ", item.label.as_str(), " — not present\n")
    } else {
        let mut out = text::cat5(
            "  ",
            item.label.as_str(),
            " — ",
            size::format_size(item.size).as_str(),
            "\n    path: ",
        );
        text::push(&mut out, item.path.as_str());
        text::push(&mut out, "\n");
        out
    }
}

/// The report on a plan.
pub fn plan_text(plan: &Plan) -> (r: String)
    ensures
        r@ == plan_report(item_views(plan.items@), plan.spell_words_included),
{
    let ghost all = item_views(plan.items@);
    let ghost with = plan.spell_words_included;
    let head = text::lit("texforge uninstall\n\n");
    let mut out = text::lit(head.as_str());
    let ghost mut sum: nat = 0;
    let mut total: u64 = 0;
    let mut present = false;
    let mut k: usize = 0;
    assert(head@ + item_texts(all, with, 0) =~= head@);
    while k < plan.items.len()
        invariant
            k <= plan.items@.len(),
            all == item_views(plan.items@),
            with == plan.spell_words_included,
            out@ == head@ + item_texts(all, with, k as int),
            sum == removed_bytes(all, with, k as int),
            total == within(sum),
            present == any_exists(all, k as int),
        decreases plan.items@.len() - k,
    {
        let item = &plan.items[k];
        assert(all[k as int] == item@);
        let lines = describe(item, plan.spell_words_included);
        text::push(&mut out, lines.as_str());
        assert((head@ + item_texts(all, with, k as int)) + lines@ =~= head@ + (item_texts(
            all,
            with,
            k as int,
        ) + lines@));
        if removable(item, plan.spell_words_included) {
            proof {
                sum = sum + item.size as nat;
            }
            total = if total <= u64::MAX - item.size {
                total + item.size
            } else {
                u64::MAX
            };
        }
        if item.exists {
            assert(all[k as int].exists);
            present = true;
        }
        k = k + 1;
    }
    text::push(&mut out, "\n");
    if present {
        text::push(&mut out, "  Total to remove: ");
        text::push(&mut out, size::format_size(total).as_str());
        text::push(&mut out, "\n");
        assert(out@ =~= plan_report(all, with));
    } else {
        text::push(&mut out, "  Nothing present under ~/.texforge.\n");
        assert(out@ =~= plan_report(all, with));
    }
    out
}

// ---------------------------------------------------------------------------
// Laws
// ---------------------------------------------------------------------------

proof fn lemma_removals(items: Seq<ItemView>, with: bool, k: int, j: int)
    requires
        0 <= k,
        0 <= j < removals(items, with, k).len(),
    ensures
        k <= removals(items, with, k)[j] < items.len(),
        is_removable(items[removals(items, with, k)[j]], with),
    decreases items.len() - k,
{
    if k < items.len() {
        if is_removable(items[k], with) {
            if j > 0 {
                lemma_removals(items, with, k + 1, j - 1);
            }
        } else {
            lemma_removals(items, with, k + 1, j);
        }
    }
}

/// The personal spell dictionary is removed only where that is asked for, and nothing is
/// removed that is not there.
pub proof fn law_spell_words_are_kept(items: Seq<ItemView>, with: bool, j: int)
    requires
        0 <= j < removals(items, with, 0).len(),
    ensures
        items[removals(items, with, 0)[j]].exists,
        !with ==> !items[removals(items, with, 0)[j]].is_spell_words,
{
    lemma_removals(items, with, 0, j);
}

proof fn lemma_other_items(dir: Seq<char>, entries: Seq<DataEntry>, k: int, j: int)
    requires
        0 <= k,
        0 <= j < other_items(dir, entries, k).len(),
    ensures
        !other_items(dir, entries, k)[j].is_spell_words,
        other_items(dir, entries, k)[j].exists,
    decreases entries.len() - k,
{
    if k < entries.len() {
        if is_known_name(entries[k].name@) {
            lemma_other_items(dir, entries, k + 1, j);
        } else if j > 0 {
            lemma_other_items(dir, entries, k + 1, j - 1);
        }
    }
}

/// Every plan lists the personal spell dictionary, whether it exists or not, and no other
/// item is taken for it.
pub proof fn law_plan_lists_spell_words(dir: Seq<char>, d: DataDir, j: int)
    requires
        0 <= j < (known_items(dir, d) + other_items(dir, d.entries@, 0)).len(),
    ensures
        (known_items(dir, d) + other_items(dir, d.entries@, 0))[j].is_spell_words <==> j == 3,
{
    if j >= 4 {
        lemma_other_items(dir, d.entries@, 0, j - 4);
    }
}

} // verus!
