use texforge::commands::uninstall::{
    binary_install_note, build_plan_at, next_step, plan_text, removable_items, DataDir, DataEntry,
    NextStep, Plan, Presence,
};
use texforge::size::format_size;

const ABSENT: Presence = Presence { exists: false, size: 0 };

fn present(size: u64) -> Presence {
    Presence { exists: true, size }
}

fn empty() -> DataDir {
    DataDir {
        bin: ABSENT,
        templates: ABSENT,
        dicts: ABSENT,
        spell_words: ABSENT,
        entries: Vec::new(),
    }
}

fn entry(name: &str, is_dir: bool, size: u64) -> DataEntry {
    DataEntry { name: name.to_string(), is_dir, size }
}

fn plan(found: &DataDir, include_spell_words: bool) -> Plan {
    build_plan_at("/home/u/.texforge", found, include_spell_words, Some("/bin/texforge"), false)
}

fn removed(plan: &Plan) -> Vec<&str> {
    removable_items(plan).iter().map(|k| plan.items[*k].path.as_str()).collect()
}

#[test]
fn plan_lists_each_component() {
    let mut found = empty();
    found.bin = present(0);
    found.templates = present(0);
    found.dicts = present(0);
    found.spell_words = present(6);
    found.entries = vec![
        entry("bin", true, 0),
        entry("templates", true, 0),
        entry("dicts", true, 0),
        entry("spell-words", false, 6),
        entry("config.toml", false, 7),
    ];

    let plan = plan(&found, false);

    let labels: Vec<&str> = plan.items.iter().map(|i| i.label.as_str()).collect();
    assert!(labels.contains(&"Managed Tectonic engine"));
    assert!(labels.contains(&"Template cache"));
    assert!(labels.contains(&"Dictionary cache"));
    assert!(labels.contains(&"Personal spell dictionary (your own writing)"));
    assert!(labels.contains(&"Configuration"));
    assert_eq!(labels.len(), 5);
}

#[test]
fn dry_run_leaves_filesystem_untouched() {
    let mut found = empty();
    found.templates = present(3);
    found.spell_words = present(7);
    assert_eq!(next_step(&plan(&found, false), true, false), NextStep::DryRun);
    assert_eq!(next_step(&plan(&found, false), true, true), NextStep::DryRun);
}

#[test]
fn spell_dictionary_survives_default_uninstall() {
    let mut found = empty();
    found.templates = present(3);
    found.spell_words = present(7);
    let plan = plan(&found, false);
    assert_eq!(next_step(&plan, false, true), NextStep::Remove);
    assert_eq!(removed(&plan), vec!["/home/u/.texforge/templates"]);
}

#[test]
fn spell_dictionary_removed_when_explicitly_requested() {
    let mut found = empty();
    found.spell_words = present(7);
    let plan = plan(&found, true);
    assert_eq!(removed(&plan), vec!["/home/u/.texforge/spell-words"]);
}

#[test]
fn missing_component_is_skipped_not_erroring() {
    let mut found = empty();
    found.templates = present(0);
    assert_eq!(removed(&plan(&found, false)), vec!["/home/u/.texforge/templates"]);
}

#[test]
fn missing_spell_words_with_include_flag_is_skipped() {
    let mut found = empty();
    found.templates = present(0);
    assert_eq!(removed(&plan(&found, true)), vec!["/home/u/.texforge/templates"]);
}

#[test]
fn uninstall_format_size_bytes() {
    assert_eq!(format_size(0), "0 B");
    assert_eq!(format_size(512), "512 B");
}

#[test]
fn uninstall_format_size_kilobytes() {
    assert_eq!(format_size(2048), "2.0 KB");
}

#[test]
fn uninstall_format_size_megabytes() {
    assert_eq!(format_size(65 * 1024 * 1024), "65.0 MB");
}

#[test]
fn plan_spell_words_marked_correctly() {
    let mut found = empty();
    found.spell_words = present(5);
    let plan = plan(&found, false);
    let spell_item = plan.items.iter().find(|i| i.is_spell_words).unwrap();
    assert!(spell_item.exists);
    assert_eq!(spell_item.label, "Personal spell dictionary (your own writing)");
}

#[test]
fn plan_with_no_spell_words_flag_still_lists_it() {
    let plan = plan(&empty(), false);
    assert!(plan.items.iter().any(|i| i.is_spell_words));
    assert!(!plan.spell_words_included);
}

#[test]
fn empty_data_dir_reports_nothing_present() {
    let plan = plan(&empty(), false);
    assert!(plan.items.iter().all(|i| !i.exists));
    assert!(plan_text(&plan).ends_with("  Nothing present under ~/.texforge.\n"));
    assert_eq!(next_step(&plan, false, false), NextStep::Nothing);
}

#[test]
fn the_user_is_asked_before_anything_is_removed() {
    let mut found = empty();
    found.bin = present(1);
    assert_eq!(next_step(&plan(&found, false), false, false), NextStep::Ask);
}

#[test]
fn the_report_adds_up_what_is_removed() {
    let mut found = empty();
    found.bin = present(2048);
    found.spell_words = present(10);
    found.entries = vec![entry("notes", true, 1024)];
    let out = plan_text(&plan(&found, false));
    assert_eq!(
        out,
        "texforge uninstall\n\n  Managed Tectonic engine — 2.0 KB\n    path: /home/u/.texforge/bin\n  Template cache — not present\n  Dictionary cache — not present\n  Personal spell dictionary (your own writing) (preserved — pass --include-spell-words to remove)\n    path: /home/u/.texforge/spell-words\n    size: 10 B\n  Other: notes — 1.0 KB\n    path: /home/u/.texforge/notes\n\n  Total to remove: 3.0 KB\n"
    );
}

#[test]
fn the_note_says_how_the_program_was_installed() {
    assert!(binary_install_note(Some("/c/texforge"), true).contains("cargo uninstall texforge"));
    assert!(binary_install_note(Some("/b/texforge"), false).contains("rm -f /b/texforge"));
    assert!(binary_install_note(None, false).contains("Could not determine its location"));
}
