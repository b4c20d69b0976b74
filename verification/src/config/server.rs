//! The server's settings.

use vstd::prelude::*;

verus! {

broadcast use vstd::string::group_string_axioms;

/// The server's command line.
pub struct CliArgs {
    /// The settings file to read.
    pub config: Option<String>,
    /// The database to connect to.
    pub database_url: Option<String>,
    /// The port to listen on.
    pub port: Option<u16>,
}

/// The server's settings.
pub struct AppConfig {
    pub database_url: Option<String>,
    pub port: Option<u16>,
}

/// The settings file read when the command line names none: `config.json`.
pub open spec fn default_config_file() -> Seq<char> {
    seq!['c', 'o', 'n', 'f', 'i', 'g', '.', 'j', 's', 'o', 'n']
}

/// The port listened on when no setting gives one.
pub const DEFAULT_PORT: u16 = 3001;

/// The database used when no setting names one: `sqlite://rsahp.db?mode=rwc`.
pub open spec fn default_database_url() -> Seq<char> {
    seq!['s', 'q', 'l', 'i', 't', 'e', ':', '/', '/', 'r', 's', 'a', 'h', 'p', '.', 'd', 'b', '?', 'm', 'o', 'd', 'e', '=',
        'r', 'w', 'c']
}

impl Default for AppConfig {
    /// No database and no port set.
    fn default() -> (c: AppConfig)
        ensures
            c.database_url is None,
            c.port is None,
    {
        AppConfig { database_url: None, port: None }
    }
}

impl CliArgs {
    /// The settings file to read: the one named on the command line, else `config.json`.
    pub fn config_file(&self) -> (r: String)
        ensures
            r@ == match self.config {
                Some(c) => c@,
                None => default_config_file(),
            },
    {
        match &self.config {
            Some(c) => c.clone(),
            None => {
                proof {
                    reveal_strlit("config.json");
                }
                "config.json".to_owned()
            },
        }
    }
}

impl AppConfig {
    /// The settings from the file with what the command line gives put over them.
    pub fn with_overrides(self, cli: &CliArgs) -> (r: AppConfig)
        ensures
            r.database_url == (match cli.database_url {
                Some(d) => Some(d),
                None => self.database_url,
            }),
            r.port == (match cli.port {
                Some(p) => Some(p),
                None => self.port,
            }),
    {
        let mut c = self;
        match &cli.database_url {
            Some(d) => {
                c.database_url = Some(d.clone());
            },
            None => {},
        }
        match cli.port {
            Some(p) => {
                c.port = Some(p);
            },
            None => {},
        }
        c
    }

    /// The port to listen on.
    pub fn listen_port(&self) -> (p: u16)
        ensures
            p == match self.port {
                Some(p) => p,
                None => DEFAULT_PORT,
            },
    {
        match self.port {
            Some(p) => p,
            None => DEFAULT_PORT,
        }
    }

    /// The database to connect to.
    pub fn database(&self) -> (r: String)
        ensures
            r@ == match self.database_url {
                Some(d) => d@,
                None => default_database_url(),
            },
    {
        match &self.database_url {
            Some(d) => d.clone(),
            None => {
                proof {
                    reveal_strlit("sqlite://rsahp.db?mode=rwc");
                }
                "sqlite://rsahp.db?mode=rwc".to_owned()
            },
        }
    }
}

} // verus!
