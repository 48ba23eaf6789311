//! The settings of `~/.config/bh/config.toml`. Reading and parsing the file
//! is left to the caller.

use vstd::prelude::*;
use crate::history::history_path;
use crate::stats::{stats_dir, stats_path};
use crate::text::{join_path, path_join};

verus! {

/// The default of a setting that is on unless turned off.
pub fn default_true() -> (b: bool)
    ensures
        b,
{
    true
}

/// The `[stats]` table: usage tracking, on by default.
#[derive(Debug)]
pub struct StatsConfig {
    pub enabled: bool,
}

/// The whole configuration file.
#[derive(Debug)]
pub struct Config {
    pub stats: StatsConfig,
}

impl Default for StatsConfig {
    fn default() -> (r: Self)
        ensures
            r.enabled,
    {
        StatsConfig { enabled: default_true() }
    }
}

impl Default for Config {
    fn default() -> (r: Self)
        ensures
            r.stats.enabled,
    {
        Config { stats: StatsConfig::default() }
    }
}

/// Where the configuration lives: `<home>/.config/bh/config.toml`.
pub fn config_path(home: &str) -> (r: String)
    ensures
        r@ == path_join(path_join(path_join(home@, ".config"@), "bh"@), "config.toml"@),
{
    let a = join_path(home, ".config");
    let b = join_path(a.as_str(), "bh");
    join_path(b.as_str(), "config.toml")
}

/// Whether usage tracking is on: the file must exist (`Some`) and not turn
/// it off.
pub fn stats_enabled(config: &Option<Config>) -> (b: bool)
    ensures
        b == (match config {
            Some(c) => c.stats.enabled,
            None => false,
        }),
{
    match config {
        Some(c) => c.stats.enabled,
        None => false,
    }
}

/// `dirs::home_dir`: the user's home directory as text, or nothing when it
/// cannot be determined or is not valid UTF-8. What it finds depends on
/// the environment and is not stated.
#[verifier::external_body]
fn home_dir() -> (r: Option<String>) {
    match dirs::home_dir() {
        Some(p) => p.into_os_string().into_string().ok(),
        None => None,
    }
}

/// The files that `bh` reads and writes, under one home directory.
pub struct UserPaths {
    pub home: String,
    /// `~/.bash_history`.
    pub history: String,
    /// `~/.config/bh/config.toml`.
    pub config: String,
    /// `~/.bh`.
    pub stats_dir: String,
    /// `~/.bh/stats.json`.
    pub stats: String,
}

/// The files that `bh` uses under the home directory `home`.
pub fn paths_under(home: String) -> (p: UserPaths)
    ensures
        p.home@ == home@,
        p.history@ == path_join(home@, ".bash_history"@),
        p.config@ == path_join(path_join(path_join(home@, ".config"@), "bh"@), "config.toml"@),
        p.stats_dir@ == path_join(home@, ".bh"@),
        p.stats@ == path_join(path_join(home@, ".bh"@), "stats.json"@),
{
    let history = history_path(home.as_str());
    let config = config_path(home.as_str());
    let dir = stats_dir(home.as_str());
    let stats = stats_path(home.as_str());
    UserPaths { home, history, config, stats_dir: dir, stats }
}

/// The files of the user's home directory (`paths_under` the directory
/// that `dirs::home_dir` finds); nothing when the home directory cannot be
/// determined or is not valid UTF-8.
pub fn user_paths() -> (r: Option<UserPaths>)
    ensures
        r matches Some(p) ==> {
            &&& p.history@ == path_join(p.home@, ".bash_history"@)
            &&& p.config@ == path_join(path_join(path_join(p.home@, ".config"@), "bh"@), "config.toml"@)
            &&& p.stats_dir@ == path_join(p.home@, ".bh"@)
            &&& p.stats@ == path_join(path_join(p.home@, ".bh"@), "stats.json"@)
        },
{
    match home_dir() {
        Some(home) => Some(paths_under(home)),
        None => None,
    }
}

} // verus!
