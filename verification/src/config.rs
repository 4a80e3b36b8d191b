//! The project configuration (`dedup.json`) and what it settles.

use vstd::prelude::*;

verus! {

/// Settings a project may keep in its `dedup.json`.
pub struct ProjectConfig {
    /// Compress backups by default.
    pub compression: Option<bool>,
    /// Watch mode setting (kept, not acted on).
    pub watch: Option<bool>,
    /// A repository of the project's own, in place of the global one.
    pub path: Option<String>,
    /// The file to back up or watch when none is named.
    pub target: Option<String>,
}

/// Whether backups compress: when asked on the command line, or when the
/// configuration says so.
pub fn use_compression(flag: bool, config: &Option<ProjectConfig>) -> (b: bool)
    ensures
        b == (flag || (config matches Some(c) && c.compression == Some(true))),
{
    if flag {
        return true;
    }
    match config {
        Some(c) => match c.compression {
            Some(v) => v,
            None => false,
        },
        None => false,
    }
}

/// The file to work on: the one named on the command line, else the
/// configuration's target; `None` when there is neither.
pub fn resolve_target(file: Option<String>, config: &Option<ProjectConfig>) -> (t: Option<String>)
    ensures
        file is Some ==> t == file,
        file is None && config is Some ==> t == config->0.target,
        file is None && config is None ==> t is None,
{
    match file {
        Some(f) => Some(f),
        None => match config {
            Some(c) => match &c.target {
                Some(t) => Some(t.clone()),
                None => None,
            },
            None => None,
        },
    }
}

/// Whether the configuration names a repository of its own.
pub fn has_custom_repo(config: &Option<ProjectConfig>) -> (b: bool)
    ensures
        b == (config matches Some(c) && c.path is Some),
{
    match config {
        Some(c) => c.path.is_some(),
        None => false,
    }
}

/// The repository to use: the configuration's `path` when it has one, else
/// the global repository `global`.
pub fn repo_dir(config: &Option<ProjectConfig>, global: String) -> (dir: String)
    ensures
        (config matches Some(c) && c.path is Some) ==> dir == config->0.path->0,
        !(config matches Some(c) && c.path is Some) ==> dir == global,
{
    match config {
        Some(c) => match &c.path {
            Some(p) => p.clone(),
            None => global,
        },
        None => global,
    }
}

} // verus!
