//! The configuration of the user.

use vstd::prelude::*;

use crate::paths;
use crate::text;

verus! {

/// Global configuration.
#[derive(Debug, Clone)]
pub struct Config {
    pub user: UserConfig,
    pub institution: InstitutionConfig,
    pub defaults: DefaultsConfig,
    pub templates: TemplatesConfig,
}

#[derive(Debug, Clone)]
pub struct UserConfig {
    pub name: Option<String>,
    pub email: Option<String>,
}

#[derive(Debug, Clone)]
pub struct InstitutionConfig {
    pub name: Option<String>,
    pub address: Option<String>,
}

#[derive(Debug, Clone)]
pub struct DefaultsConfig {
    pub documentclass: Option<String>,
    pub fontsize: Option<String>,
    pub papersize: Option<String>,
    pub language: Option<String>,
}

#[derive(Debug, Clone)]
pub struct TemplatesConfig {
    pub source: Option<String>,
    pub auto_update: Option<bool>,
    pub watch: Option<bool>,
}

impl Default for UserConfig {
    fn default() -> (r: UserConfig)
        ensures
            r == (UserConfig { name: None, email: None }),
    {
        UserConfig { name: None, email: None }
    }
}

impl Default for InstitutionConfig {
    fn default() -> (r: InstitutionConfig)
        ensures
            r == (InstitutionConfig { name: None, address: None }),
    {
        InstitutionConfig { name: None, address: None }
    }
}

impl Default for DefaultsConfig {
    fn default() -> (r: DefaultsConfig)
        ensures
            r == (DefaultsConfig {
                documentclass: None,
                fontsize: None,
                papersize: None,
                language: None,
            }),
    {
        DefaultsConfig { documentclass: None, fontsize: None, papersize: None, language: None }
    }
}

impl Default for TemplatesConfig {
    fn default() -> (r: TemplatesConfig)
        ensures
            r == (TemplatesConfig { source: None, auto_update: None, watch: None }),
    {
        TemplatesConfig { source: None, auto_update: None, watch: None }
    }
}

impl Default for Config {
    /// The configuration where there is no file.
    fn default() -> (r: Config)
        ensures
            r.user == (UserConfig { name: None, email: None }),
            r.institution == (InstitutionConfig { name: None, address: None }),
            r.defaults == (DefaultsConfig {
                documentclass: None,
                fontsize: None,
                papersize: None,
                language: None,
            }),
            r.templates == (TemplatesConfig { source: None, auto_update: None, watch: None }),
    {
        Config {
            user: UserConfig::default(),
            institution: InstitutionConfig::default(),
            defaults: DefaultsConfig::default(),
            templates: TemplatesConfig::default(),
        }
    }
}

/// Where the configuration lies: under the XDG configuration directory where it is set,
/// else in the home directory.
pub open spec fn config_path(xdg: Option<Seq<char>>, home: Option<Seq<char>>) -> Option<Seq<char>> {
    match (xdg, home) {
        (Some(x), _) => Some(paths::joined(x, "texforge/config.toml"@)),
        (None, Some(h)) => Some(paths::joined(h, ".texforge/config.toml"@)),
        (None, None) => None,
    }
}

/// The path of the configuration file, given `XDG_CONFIG_HOME` and the home directory.
pub fn config_file_path(xdg_config_home: Option<&str>, home: Option<&str>) -> (r: Result<
    String,
    String,
>)
    ensures
        match r {
            Ok(p) => config_path(text::opt_str(xdg_config_home), text::opt_str(home)) == Some(p@),
            Err(m) => config_path(text::opt_str(xdg_config_home), text::opt_str(home)) is None && m@
                == "Could not determine home directory"@,
        },
{
    if let Some(x) = xdg_config_home {
        return Ok(paths::join(x, "texforge/config.toml"));
    }
    match home {
        Some(h) => Ok(paths::join(h, ".texforge/config.toml")),
        None => Err(text::lit("Could not determine home directory")),
    }
}

} // verus!
