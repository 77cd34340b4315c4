//! The least that is configured: where the database is, and where to listen.

use crate::config::{
    ConfigError, ConfigErrorView, DEFAULT_BIND_HOST, get_or, load_port, port_of, text_or,
};
use crate::text::{decimal, decimal_of};
use vstd::prelude::*;

verus! {

pub const SQLITE_PATH_ENV: &'static str = "ASK_SERVER_SQLITE_PATH";

pub const DEFAULT_SQLITE_PATH: &'static str = "data/ask.sqlite3";

/// The values of the variables; `None` for one that is not set.
#[derive(Clone, Debug, Default)]
pub struct Environment {
    pub sqlite_path: Option<String>,
    pub bind_host: Option<String>,
    pub bind_port: Option<String>,
}

/// Where the database is, and where to listen.
#[derive(Clone, Debug, PartialEq, Eq)]
pub struct Config {
    /// The file of the database.
    pub sqlite_path: String,
    /// The host or interface to listen at.
    pub bind_host: String,
    /// The port to listen at.
    pub bind_port: u16,
}

impl Config {
    /// Where the server listens.
    pub fn bind_address(&self) -> (address: String)
        ensures
            address@ == self.bind_host@ + ":"@ + decimal(self.bind_port as nat),
    {
        String::from_str(self.bind_host.as_str()).concat(":").concat(
            decimal_of(self.bind_port as u64).as_str(),
        )
    }
}

/// Reads the configuration.
pub fn load(env: &Environment) -> (result: Result<Config, ConfigError>)
    ensures
        match result {
            Ok(config) => {
                &&& config.sqlite_path@ == text_or(env.sqlite_path, DEFAULT_SQLITE_PATH@)
                &&& config.bind_host@ == text_or(env.bind_host, DEFAULT_BIND_HOST@)
                &&& port_of(env.bind_port) == Ok::<int, ConfigErrorView>(config.bind_port as int)
            },
            Err(error) => port_of(env.bind_port) == Err::<int, ConfigErrorView>(error@),
        },
{
    let sqlite_path: String = get_or(&env.sqlite_path, DEFAULT_SQLITE_PATH);
    let bind_host: String = get_or(&env.bind_host, DEFAULT_BIND_HOST);
    match load_port(&env.bind_port) {
        Ok(bind_port) => Ok(Config { sqlite_path, bind_host, bind_port }),
        Err(error) => Err(error),
    }
}

} // verus!
