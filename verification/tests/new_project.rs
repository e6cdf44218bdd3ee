use texforge::commands::new::{
    apply_substitutions, created, creating, directory_exists, project_files, project_toml,
    validate_project_name,
};
use texforge::templates::{embedded_general, FileMap};

fn value(key: &str, value: &str) -> (String, String) {
    (key.to_string(), value.to_string())
}

#[test]
fn empty_name_is_error() {
    assert!(validate_project_name("").is_err());
}

#[test]
fn name_with_spaces_is_error() {
    assert!(validate_project_name("my project").is_err());
}

#[test]
fn name_with_dotdot_is_error() {
    assert!(validate_project_name("../evil").is_err());
}

#[test]
fn name_with_slash_is_error() {
    assert!(validate_project_name("a/b").is_err());
}

#[test]
fn valid_name_is_ok() {
    assert!(validate_project_name("mi-tesis").is_ok());
}

#[test]
fn refusals_say_why() {
    let refusal = |name: &str| validate_project_name(name).unwrap_err();
    assert_eq!(refusal(""), "Project name cannot be empty");
    assert_eq!(refusal("/etc"), "Project name cannot be an absolute path");
    assert_eq!(refusal("/../etc"), "Project name cannot be an absolute path");
    assert_eq!(refusal("a/../b"), "Project name cannot contain '..' (path traversal)");
    assert_eq!(refusal("a\\b"), "Project name cannot contain path separators");
    assert!(refusal("a b").contains("cannot contain spaces"));
    assert_eq!(refusal("a$b!"), "Project name contains invalid character: '$'");
    assert_eq!(refusal("\t"), "Project name cannot be only whitespace");
    assert!(validate_project_name("a..b").is_ok());
}

#[test]
fn values_take_the_place_of_their_placeholders() {
    let values = vec![value("title", "On {{author}}"), value("author", "Ada")];
    assert_eq!(
        apply_substitutions("{{title}} by {{author}}, {{year}}", &values),
        "On Ada by Ada, {{year}}"
    );
    assert_eq!(apply_substitutions("plain", &values), "plain");
}

#[test]
fn values_are_put_into_tex_files_only() {
    let mut files = FileMap::new();
    files.insert("template.toml".to_string(), b"{{a}}".to_vec());
    files.insert("main.tex".to_string(), b"x {{a}} \xff".to_vec());
    files.insert("code.py".to_string(), b"{{a}} \xff".to_vec());
    let out = project_files(&files, &vec![value("a", "1")]);
    assert_eq!(out.len(), 2);
    assert_eq!(out[0].0, "main.tex");
    assert_eq!(out[0].1, "x 1 \u{fffd}".as_bytes());
    assert_eq!(out[1].0, "code.py");
    assert_eq!(out[1].1, b"{{a}} \xff");
}

#[test]
fn a_project_has_the_files_of_its_template_without_the_manifest() {
    let out = project_files(&embedded_general().files, &Vec::new());
    let names: Vec<&str> = out.iter().map(|f| f.0.as_str()).collect();
    assert_eq!(names, vec!["main.tex", "sections/body.tex", "bib/references.bib"]);
}

#[test]
fn the_configuration_names_the_project_and_its_template() {
    let toml = project_toml("mi-tesis", "general");
    assert!(toml.starts_with("[documento]\ntitulo = \"mi-tesis\"\n"));
    assert!(toml.contains("template = \"general\"\n\n[compilacion]\nentry = \"main.tex\"\n"));
}

#[test]
fn the_messages_name_the_project() {
    assert_eq!(directory_exists("x"), "Directory 'x' already exists");
    assert_eq!(creating("x", "t"), "Creating project 'x' with template 't'...\n");
    assert_eq!(
        created("x"),
        "  ◇ Project 'x' created successfully\n\n  cd x\n  texforge build\n"
    );
}
