use texforge::commands::spell::{
    add, list_whitelist_file, no_whitelist_message, remove, target_file, Scope, NO_HOME, NO_PROJECT,
};
use texforge::linter::spell::parse_whitelist_words;

/// Files by their paths, a home directory, and perhaps a project.
struct World {
    files: Vec<(String, String)>,
    root: Option<&'static str>,
}

impl World {
    fn project(files: &[(&str, &str)]) -> World {
        let files = files.iter().map(|(p, c)| (p.to_string(), c.to_string())).collect();
        World { files, root: Some("/p") }
    }

    fn read(&self, path: &str) -> Option<&str> {
        self.files.iter().find(|(p, _)| p == path).map(|(_, c)| c.as_str())
    }

    fn write(&mut self, path: &str, content: String) {
        match self.files.iter_mut().find(|(p, _)| p == path) {
            Some(f) => f.1 = content,
            None => self.files.push((path.to_string(), content)),
        }
    }

    fn target(&self, scope: Scope) -> Result<String, String> {
        let exists = vec![
            self.read("/p/spell-whitelist.txt").is_some(),
            self.read("/p/.texforge/spell-words").is_some(),
        ];
        target_file(scope, Some("/home/u"), self.root, &exists)
    }

    fn add(&mut self, word: &str, scope: Scope) -> Result<(), String> {
        let path = self.target(scope)?;
        let existing = self.read(&path).unwrap_or("").to_string();
        let plan = add(&vec![word.to_string()], &existing, &path)?;
        if !plan.append.is_empty() {
            self.write(&path, existing + &plan.append);
        }
        Ok(())
    }

    fn remove(&mut self, word: &str, scope: Scope) -> Result<(), String> {
        let path = self.target(scope)?;
        let plan = remove(&vec![word.to_string()], self.read(&path), &path)?;
        if let Some(content) = plan.content {
            self.write(&path, content);
        }
        Ok(())
    }
}

const GLOBAL: &str = "/home/u/.texforge/spell-words";

#[test]
fn add_creates_texforge_spell_words_when_no_whitelist_file_exists() {
    let mut w = World::project(&[]);
    w.add("docker", Scope::Local).unwrap();
    assert_eq!(w.read("/p/.texforge/spell-words"), Some("docker\n"));
    assert_eq!(w.read("/p/spell-whitelist.txt"), None);
}

#[test]
fn add_appends_to_spell_whitelist_txt_when_it_already_exists_and_does_not_create_texforge_dir() {
    let mut w = World::project(&[("/p/spell-whitelist.txt", "acme\n")]);
    w.add("docker", Scope::Local).unwrap();
    assert_eq!(w.read("/p/spell-whitelist.txt"), Some("acme\ndocker\n"));
    assert_eq!(w.read("/p/.texforge/spell-words"), None);
}

#[test]
fn add_appends_to_texforge_spell_words_when_only_that_one_exists() {
    let mut w = World::project(&[("/p/.texforge/spell-words", "acme\n")]);
    w.add("docker", Scope::Local).unwrap();
    assert_eq!(w.read("/p/.texforge/spell-words"), Some("acme\ndocker\n"));
    assert_eq!(w.read("/p/spell-whitelist.txt"), None);
}

#[test]
fn appending_preserves_prior_content_exactly_including_comment_and_ordering() {
    let mut w =
        World::project(&[("/p/spell-whitelist.txt", "zeta\n# a note about zeta\nalpha\n")]);
    w.add("docker", Scope::Local).unwrap();
    assert_eq!(
        w.read("/p/spell-whitelist.txt"),
        Some("zeta\n# a note about zeta\nalpha\ndocker\n")
    );
}

#[test]
fn appending_ends_an_unfinished_line_first() {
    let mut w = World::project(&[("/p/spell-whitelist.txt", "acme")]);
    w.add("docker", Scope::Local).unwrap();
    assert_eq!(w.read("/p/spell-whitelist.txt"), Some("acme\ndocker\n"));
}

#[test]
fn adding_an_already_present_word_adds_no_line_case_insensitively() {
    let mut w = World::project(&[("/p/spell-whitelist.txt", "docker\n")]);
    w.add("docker", Scope::Local).unwrap();
    w.add("Docker", Scope::Local).unwrap();
    w.add("DOCKER", Scope::Local).unwrap();
    assert_eq!(w.read("/p/spell-whitelist.txt"), Some("docker\n"));
}

#[test]
fn remove_deletes_only_the_matching_line_and_leaves_comments_and_others_intact() {
    let mut w = World::project(&[(
        "/p/spell-whitelist.txt",
        "zeta\n# a note about docker\ndocker\nalpha\n",
    )]);
    w.remove("docker", Scope::Local).unwrap();
    assert_eq!(
        w.read("/p/spell-whitelist.txt"),
        Some("zeta\n# a note about docker\nalpha\n")
    );
}

#[test]
fn remove_of_an_absent_word_changes_the_file_not_at_all() {
    let original = "zeta\nalpha\n";
    let mut w = World::project(&[("/p/spell-whitelist.txt", original)]);
    w.remove("nonexistent", Scope::Local).unwrap();
    assert_eq!(w.read("/p/spell-whitelist.txt"), Some(original));
}

#[test]
fn add_and_remove_target_global_file_under_home() {
    let mut w = World::project(&[]);
    w.add("docker", Scope::Global).unwrap();
    assert_eq!(w.read(GLOBAL), Some("docker\n"));
    w.remove("docker", Scope::Global).unwrap();
    assert_eq!(w.read(GLOBAL), Some(""));
}

#[test]
fn list_output_names_the_file_it_read() {
    let content = "docker\nacme\n";
    let out = list_whitelist_file("/p/spell-whitelist.txt", Some(content));
    assert!(out.contains("/p/spell-whitelist.txt"));
    assert!(out.contains("docker"));
    assert!(out.contains("acme"));
    let words = parse_whitelist_words(content);
    assert!(words.contains("docker"));
    assert!(words.contains("acme"));
    assert_eq!(list_whitelist_file("/p/x", None), "/p/x (not found)\n");
}

#[test]
fn add_with_no_flag_writes_global_and_leaves_existing_project_file_untouched() {
    let mut w = World::project(&[("/p/spell-whitelist.txt", "acme\n")]);
    w.add("docker", Scope::from_flags(false, false)).unwrap();
    assert_eq!(w.read(GLOBAL), Some("docker\n"));
    assert_eq!(
        w.read("/p/spell-whitelist.txt"),
        Some("acme\n"),
        "project whitelist must be untouched by a default-scope add"
    );
}

#[test]
fn add_global_flag_behaves_identically_to_no_flag() {
    let mut w = World::project(&[]);
    w.add("docker", Scope::from_flags(false, true)).unwrap();
    assert_eq!(w.read(GLOBAL), Some("docker\n"));
}

#[test]
fn list_local_reads_the_project_file_not_global() {
    let w = World::project(&[
        ("/p/spell-whitelist.txt", "docker\n"),
        (GLOBAL, "globalword\n"),
    ]);
    let path = w.target(Scope::Local).unwrap();
    let out = list_whitelist_file(&path, w.read(&path));
    assert!(out.contains("docker"));
    assert!(!out.contains("globalword"));
}

#[test]
fn remove_with_no_flag_removes_from_global_only() {
    let mut w =
        World::project(&[("/p/spell-whitelist.txt", "docker\n"), (GLOBAL, "docker\n")]);
    w.remove("docker", Scope::from_flags(false, false)).unwrap();
    assert_eq!(w.read(GLOBAL), Some(""));
    assert_eq!(
        w.read("/p/spell-whitelist.txt"),
        Some("docker\n"),
        "project whitelist must be untouched by a default-scope remove"
    );
}

#[test]
fn local_outside_a_project_errors_and_writes_nothing() {
    let mut w = World { files: Vec::new(), root: None };
    assert_eq!(w.add("docker", Scope::Local), Err(NO_PROJECT.to_string()));
    assert!(w.files.is_empty(), "a failed --local add must not fall back to the global list");
}

#[test]
fn from_flags_defaults_to_global_when_neither_flag_is_set() {
    assert_eq!(Scope::from_flags(false, false), Scope::Global);
    assert_eq!(Scope::from_flags(true, false), Scope::Local);
    assert_eq!(Scope::from_flags(false, true), Scope::Global);
}

#[test]
fn without_a_home_there_is_no_global_list() {
    assert_eq!(
        target_file(Scope::Global, None, Some("/p"), &vec![false, false]),
        Err(NO_HOME.to_string())
    );
}

#[test]
fn no_words_are_refused() {
    assert!(add(&Vec::new(), "", "/w").is_err());
    assert!(remove(&Vec::new(), Some(""), "/w").is_err());
    assert!(remove(&vec!["x".to_string()], None, "/w").is_err());
    assert!(no_whitelist_message().contains("spell-whitelist.txt, .texforge/spell-words"));
}

#[test]
fn adding_makes_nothing_else_known() {
    let words = vec!["Docker".to_string(), "kubectl".to_string()];
    let existing = "# tools\nrust";
    let plan = add(&words, existing, "spell-whitelist.txt").unwrap();
    let known =
        texforge::linter::spell::parse_whitelist_words(&format!("{existing}{}", plan.append));
    assert_eq!(known.len(), 3);
    for word in ["rust", "docker", "kubectl"] {
        assert!(known.contains(word), "{word}");
    }
}
