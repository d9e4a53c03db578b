//! How the database is reached: the settings of a connection.

use crate::config::setting;
use crate::utils::env::get_env_or;
use vstd::prelude::*;

verus! {

/// What it takes to open a connection to the database and to sign in. The
/// main connection and the one for sessions are opened with the same
/// settings.
#[derive(Debug, Clone)]
pub struct ConnectionSettings {
    /// Host and port of the database.
    pub location: String,
    pub username: String,
    pub password: String,
    pub namespace: String,
    pub database: String,
}

impl ConnectionSettings {
    /// The settings that `vars` give, each with its default where it is not
    /// set: `DB_LOCATION` (`127.0.0.1:8000`), `DB_USERNAME` and `DB_PASSWORD`
    /// (`root`), `DB_NAMESPACE` and `DB_DATABASE` (`test`).
    pub fn from_env(vars: &Vec<(String, String)>) -> (settings: ConnectionSettings)
        ensures
            settings.location@ == setting(vars@, "DB_LOCATION"@, "127.0.0.1:8000"@),
            settings.username@ == setting(vars@, "DB_USERNAME"@, "root"@),
            settings.password@ == setting(vars@, "DB_PASSWORD"@, "root"@),
            settings.namespace@ == setting(vars@, "DB_NAMESPACE"@, "test"@),
            settings.database@ == setting(vars@, "DB_DATABASE"@, "test"@),
    {
        ConnectionSettings {
            location: get_env_or(vars, "DB_LOCATION", "127.0.0.1:8000"),
            username: get_env_or(vars, "DB_USERNAME", "root"),
            password: get_env_or(vars, "DB_PASSWORD", "root"),
            namespace: get_env_or(vars, "DB_NAMESPACE", "test"),
            database: get_env_or(vars, "DB_DATABASE", "test"),
        }
    }
}

} // verus!
