//! Project configuration and metadata.

use vstd::prelude::*;

use crate::text;

verus! {

/// Project configuration from `project.toml`.
#[derive(Debug, Clone)]
pub struct ProjectConfig {
    pub document: DocumentConfig,
    pub build: BuildConfig,
}

#[derive(Debug, Clone)]
pub struct DocumentConfig {
    pub title: String,
    pub author: String,
    pub template: String,
}

#[derive(Debug, Clone)]
pub struct BuildConfig {
    pub entry: String,
    pub bibliography: Option<String>,
}

/// Whether builds are reproducible: switched on or off, or pinned to an epoch.
#[derive(Debug, Clone, Copy, PartialEq, Eq, Structural)]
pub enum Reproducible {
    Enabled(bool),
    Epoch(u64),
}

/// A project: its root and its configuration.
#[derive(Debug)]
pub struct Project {
    pub root: String,
    pub config: ProjectConfig,
}

impl Project {
    /// The project in a directory, given its configuration where there is a
    /// `project.toml`.
    pub fn load(root: &str, config: Option<ProjectConfig>) -> (r: Result<Project, String>)
        ensures
            match (r, config) {
                (Ok(p), Some(c)) => p.root@ == root@ && p.config == c,
                (Err(m), None) => m@ == "No project.toml found in current directory"@,
                _ => false,
            },
    {
        match config {
            Some(config) => Ok(Project { root: text::lit(root), config }),
            None => Err(text::lit("No project.toml found in current directory")),
        }
    }
}

} // verus!
