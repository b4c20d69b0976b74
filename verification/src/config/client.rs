//! The desktop client's settings (the zoom factor, a float, stays with the window code).

use vstd::prelude::*;

verus! {

broadcast use vstd::string::group_string_axioms;

/// The client's command line.
pub struct CliArgs {
    /// The settings file to read.
    pub config: Option<String>,
    /// The server address to use instead of the one in the settings.
    pub api_url: Option<String>,
    /// Ask for hardware acceleration.
    pub enable_gpu: bool,
}

/// The client's settings.
pub struct AppConfig {
    /// The server's documents address.
    pub api_url: Option<String>,
    /// Hardware acceleration: only `Some(true)` asks for it.
    pub use_gpu: Option<bool>,
    /// The file the settings were read from, where they are saved back.
    pub config_path: Option<String>,
}

/// The settings file used when none is named: `config.json`.
pub open spec fn default_config_file() -> Seq<char> {
    seq!['c', 'o', 'n', 'f', 'i', 'g', '.', 'j', 's', 'o', 'n']
}

impl Default for AppConfig {
    /// No server address, no acceleration asked for, no file.
    fn default() -> (c: AppConfig)
        ensures
            c.api_url is None,
            c.use_gpu is None,
            c.config_path is None,
    {
        AppConfig { api_url: None, use_gpu: None, config_path: None }
    }
}

impl CliArgs {
    /// The settings file to read: the one named on the command line, else `config.json`.
    pub fn config_file(&self) -> (r: String)
        ensures
            r@ == match self.config {
                Some(c) => c@,
                None => default_config_file(),
            },
    {
        match &self.config {
            Some(c) => c.clone(),
            None => {
                proof {
                    reveal_strlit("config.json");
                }
                "config.json".to_owned()
            },
        }
    }
}

/// `c` is what loading the file `path` gives when reading it gave `read`
/// (`None` when the file is missing or not settings): the settings read, or
/// the defaults, remembering the file.
pub open spec fn loaded_settings(read: Option<AppConfig>, path: String, c: AppConfig) -> bool {
    &&& c.config_path == Some(path)
    &&& c.api_url == (match read {
        Some(r) => r.api_url,
        None => None,
    })
    &&& c.use_gpu == (match read {
        Some(r) => r.use_gpu,
        None => None,
    })
}

/// Law: settings saved and loaded again come back. Settings loaded from
/// `path` are saved to `path`; when that file then gives back the settings
/// written to it (the file's path is not written), loading it again gives the
/// same server address, the same acceleration choice and the same file.
pub proof fn lemma_saved_settings_load_back(first: AppConfig, saved: AppConfig, path: String, read: Option<AppConfig>, again: AppConfig)
    requires
        saved.config_path == first.config_path,
        first.config_path == Some(path),
        read == Some(AppConfig { api_url: saved.api_url, use_gpu: saved.use_gpu, config_path: None }),
        loaded_settings(read, path, again),
    ensures
        (match saved.config_path {
            Some(p) => p@,
            None => default_config_file(),
        }) == path@,
        again.api_url == saved.api_url,
        again.use_gpu == saved.use_gpu,
        again.config_path == saved.config_path,
{
}

impl AppConfig {
    /// The settings read from `path` (or the defaults), remembering the file.
    pub fn loaded_from(read: Option<AppConfig>, path: String) -> (c: AppConfig)
        ensures
            loaded_settings(read, path, c),
    {
        let mut c = match read {
            Some(r) => r,
            None => AppConfig::default(),
        };
        c.config_path = Some(path);
        c
    }

    /// Puts the command line's server address over the one from the file.
    pub fn apply_cli(&mut self, cli: &CliArgs)
        ensures
            final(self).api_url == (match cli.api_url {
                Some(u) => Some(u),
                None => old(self).api_url,
            }),
            final(self).use_gpu == old(self).use_gpu,
            final(self).config_path == old(self).config_path,
    {
        match &cli.api_url {
            Some(u) => {
                self.api_url = Some(u.clone());
            },
            None => {},
        }
    }

    /// Whether hardware acceleration is asked for.
    pub fn gpu_requested(&self) -> (r: bool)
        ensures
            r == (self.use_gpu == Some(true)),
    {
        match self.use_gpu {
            Some(b) => b,
            None => false,
        }
    }

    /// Where the settings are saved: the file they came from, else `config.json`.
    pub fn save_path(&self) -> (r: String)
        ensures
            r@ == match self.config_path {
                Some(p) => p@,
                None => default_config_file(),
            },
    {
        match &self.config_path {
            Some(p) => p.clone(),
            None => {
                proof {
                    reveal_strlit("config.json");
                }
                "config.json".to_owned()
            },
        }
    }
}

} // verus!
