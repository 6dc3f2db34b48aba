//! Application configuration assembled from environment values.

use vstd::prelude::*;

verus! {

/// The settings the application needs to run.
#[derive(Clone, Debug, PartialEq, Eq)]
pub struct Config {
    pub server_port: String,
    pub db_url: String,
}

/// A required configuration value was absent from the environment.
#[derive(Clone, Copy, Debug, PartialEq, Eq, Structural)]
pub enum ConfigError {
    /// The server port variable was not set.
    MissingServerPort,
    /// The database connection variable was not set.
    MissingDbUrl,
}

impl Config {
    /// Builds a [`Config`] from the values of the two environment
    /// variables, as read by the caller: first the server port, then the
    /// database connection string.  An absent variable is reported, the
    /// port being checked first.
    pub fn from_env(server_port: Option<String>, db_url: Option<String>) -> (r: Result<
        Config,
        ConfigError,
    >)
        ensures
            server_port is None ==> r == Err::<Config, ConfigError>(ConfigError::MissingServerPort),
            server_port is Some && db_url is None ==> r == Err::<Config, ConfigError>(
                ConfigError::MissingDbUrl,
            ),
            r matches Ok(c) ==> {
                &&& server_port matches Some(p) && c.server_port@ == p@
                &&& db_url matches Some(u) && c.db_url@ == u@
            },
            server_port is Some && db_url is Some ==> r is Ok,
    {
        let port = match server_port {
            Some(p) => p,
            None => {
                return Err(ConfigError::MissingServerPort);
            },
        };
        let url = match db_url {
            Some(u) => u,
            None => {
                return Err(ConfigError::MissingDbUrl);
            },
        };
        Ok(Config { server_port: port, db_url: url })
    }
}

} // verus!
