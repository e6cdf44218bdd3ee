use texforge::config::{config_file_path, Config};
use texforge::domain::project::{BuildConfig, DocumentConfig, Project, ProjectConfig};

fn project_config() -> ProjectConfig {
    ProjectConfig {
        document: DocumentConfig {
            title: "T".to_string(),
            author: "A".to_string(),
            template: "general".to_string(),
        },
        build: BuildConfig { entry: "main.tex".to_string(), bibliography: None },
    }
}

#[test]
fn test_default_config() {
    let config = Config::default();
    assert!(config.user.name.is_none());
    assert!(config.user.email.is_none());
    assert!(config.institution.name.is_none());
    assert!(config.defaults.documentclass.is_none());
    assert!(config.templates.source.is_none());
}

#[test]
fn test_config_file_path_returns_result() {
    let path = config_file_path(None, Some("/home/u")).unwrap();
    assert!(path.contains("texforge"));
    assert!(path.ends_with("config.toml"));
    let path = config_file_path(Some("/xdg"), Some("/home/u")).unwrap();
    assert!(path.starts_with("/xdg/texforge"));
    assert_eq!(
        config_file_path(None, None),
        Err("Could not determine home directory".to_string())
    );
}

#[test]
fn project_config_debug_clone() {
    let config = project_config();
    let cloned = config.clone();
    let debug_str = format!("{:?}", config);
    assert!(debug_str.contains("T"));
    assert_eq!(cloned.document.title, "T");
}

#[test]
fn project_load_no_project_toml_errors() {
    let result = Project::load("/p", None);
    assert!(result.is_err());
    assert!(result.unwrap_err().contains("No project.toml"));
}

#[test]
fn project_load_valid_toml() {
    let project = Project::load("/p", Some(project_config())).unwrap();
    assert_eq!(project.root, "/p");
    assert_eq!(project.config.document.title, "T");
    assert_eq!(project.config.build.entry, "main.tex");
}
