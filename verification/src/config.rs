//! The running configuration: where repositories live and where files go.

use vstd::prelude::*;
use crate::paths::{join_path, spec_join};

verus! {

/// Addresses of the public mod repository, and where its manifest is
/// cached.
#[derive(Debug, Clone)]
pub struct FSNPaths {
    pub web: String,
    pub api: String,
    pub repos: Vec<String>,
    pub cache: String,
}

/// A mirror that serves blobs by digest.
#[derive(Debug, Clone)]
pub struct Gate {
    pub name: String,
    pub url: String,
    pub user: Option<String>,
    pub pass: Option<String>,
}

/// Directories of this installation.
#[derive(Debug, Clone)]
pub struct LocalSettings {
    pub fs2_root: String,
    pub install_dir: String,
    pub temp_dir: String,
    pub hdd_mode: bool,
}

/// A joystick binding.
#[derive(Debug, Clone)]
pub struct Joystick {
    pub guid: String,
    pub id: i32,
}

/// Everything that is configured.
#[derive(Debug, Clone)]
pub struct Config {
    pub fsnebula: FSNPaths,
    pub local_settings: LocalSettings,
    pub gates: Vec<Gate>,
    pub joystick: Vec<Joystick>,
}

impl FSNPaths {
    /// The public repository's addresses, with the manifest cached in
    /// `fsnebula` under `appdir`.
    pub fn new(appdir: &str) -> (paths: FSNPaths)
        ensures
            paths.web@ == "https://fsnebula.org/"@,
            paths.api@ == "https://api.fsnebula.org/api/1/"@,
            paths.repos@.len() == 3,
            paths.repos@[0]@ == "https://cf.fsnebula.org/storage/repo.json"@,
            paths.repos@[1]@ == "https://fsnebula.org/storage/repo.json"@,
            paths.repos@[2]@ == "https://discovery.aigaion.feralhosting.com/nebula/repo.json"@,
            paths.cache@ == spec_join(appdir@, "fsnebula"@),
    {
        let mut repos: Vec<String> = Vec::new();
        repos.push("https://cf.fsnebula.org/storage/repo.json".to_owned());
        repos.push("https://fsnebula.org/storage/repo.json".to_owned());
        repos.push("https://discovery.aigaion.feralhosting.com/nebula/repo.json".to_owned());
        FSNPaths {
            web: "https://fsnebula.org/".to_owned(),
            api: "https://api.fsnebula.org/api/1/".to_owned(),
            repos,
            cache: join_path(appdir, "fsnebula"),
        }
    }
}

impl LocalSettings {
    /// Settings that name no directory yet.
    pub fn new() -> (settings: LocalSettings)
        ensures
            settings.fs2_root@.len() == 0,
            settings.install_dir@.len() == 0,
            settings.temp_dir@.len() == 0,
            !settings.hdd_mode,
    {
        LocalSettings {
            fs2_root: String::new(),
            install_dir: String::new(),
            temp_dir: String::new(),
            hdd_mode: false,
        }
    }
}

impl Default for LocalSettings {
    fn default() -> (settings: LocalSettings)
        ensures
            settings.fs2_root@.len() == 0,
            settings.install_dir@.len() == 0,
            settings.temp_dir@.len() == 0,
            !settings.hdd_mode,
    {
        LocalSettings::new()
    }
}

impl Config {
    /// The configuration of a fresh installation whose application
    /// directory is `appdir`: the public repository, no mirrors, no
    /// joysticks, no directories chosen.
    pub fn new(appdir: &str) -> (config: Config)
        ensures
            config.fsnebula.cache@ == spec_join(appdir@, "fsnebula"@),
            config.fsnebula.repos@.len() == 3,
            config.gates@.len() == 0,
            config.joystick@.len() == 0,
            config.local_settings.install_dir@.len() == 0,
    {
        Config {
            fsnebula: FSNPaths::new(appdir),
            local_settings: LocalSettings::new(),
            gates: Vec::new(),
            joystick: Vec::new(),
        }
    }
}

} // verus!
