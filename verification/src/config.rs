//! What the monitor is told when it starts.
use crate::path::opt_text;
use crate::text::{parse_unsigned, unsigned_value};
use vstd::prelude::*;

verus! {

/// How long events are collected if nothing else is said, in milliseconds.
pub const DEFAULT_DEBOUNCE_MS: u64 = 500;

/// The port of the mail server if nothing else is said.
pub const DEFAULT_SMTP_PORT: u16 = 587;

/// The largest number of a port.
const MAX_PORT: u64 = 65535;

/// The variables that hold the settings of the mail server, each as it is set.
pub struct SmtpVars {
    pub host: Option<String>,
    pub port: Option<String>,
    pub username: Option<String>,
    pub password: Option<String>,
    pub from: Option<String>,
}

/// How to reach the mail server.
pub struct SmtpConfig {
    pub host: String,
    pub port: u16,
    pub username: String,
    pub password: String,
    pub from: String,
}

/// One of the settings that have to be there.
#[derive(Debug, Clone, Copy, PartialEq, Eq, Structural)]
pub enum Setting {
    SmtpHost,
    SmtpUsername,
    SmtpPassword,
    SmtpFrom,
}

/// What is wrong with the settings.
#[derive(Debug, Clone, Copy, PartialEq, Eq, Structural)]
pub enum ConfigError {
    /// The setting is not there.
    Missing(Setting),
    /// The port is not the number of a port.
    InvalidPort,
    /// The time for which events are collected is not a number.
    InvalidDebounce,
}

/// What the program was started with.
pub struct Arguments {
    pub watch_dir: String,
    pub notify_email: String,
}

/// The program was started with the wrong number of arguments; this is its name.
pub struct UsageError {
    pub program: String,
}

/// The port that is set: the usual one if none is, and none if what is set is not the
/// number of a port.
pub open spec fn port_in(var: Option<Seq<char>>) -> Option<nat> {
    match var {
        None => Some(DEFAULT_SMTP_PORT as nat),
        Some(text) => match unsigned_value(text) {
            Some(n) => if n <= 65535 {
                Some(n)
            } else {
                None
            },
            None => None,
        },
    }
}

/// The first thing that is wrong with the settings of the mail server: they are gone
/// through in the order host, port, user name, password, sender.
pub open spec fn first_fault(vars: SmtpVars) -> Option<ConfigError> {
    if vars.host is None {
        Some(ConfigError::Missing(Setting::SmtpHost))
    } else if port_in(opt_text(vars.port)) is None {
        Some(ConfigError::InvalidPort)
    } else if vars.username is None {
        Some(ConfigError::Missing(Setting::SmtpUsername))
    } else if vars.password is None {
        Some(ConfigError::Missing(Setting::SmtpPassword))
    } else if vars.from is None {
        Some(ConfigError::Missing(Setting::SmtpFrom))
    } else {
        None
    }
}

/// A setting that has to be there.
pub fn require_env(setting: Setting, var: Option<String>) -> (r: Result<String, ConfigError>)
    ensures
        match var {
            Some(text) => r == Ok::<String, ConfigError>(text),
            None => r == Err::<String, ConfigError>(ConfigError::Missing(setting)),
        },
{
    match var {
        Some(text) => Ok(text),
        None => Err(ConfigError::Missing(setting)),
    }
}

/// Reads the port of the mail server.
fn smtp_port(var: &Option<String>) -> (r: Result<u16, ConfigError>)
    ensures
        match r {
            Ok(port) => port_in(opt_text(*var)) == Some(port as nat),
            Err(e) => e == ConfigError::InvalidPort && port_in(opt_text(*var)) is None,
        },
{
    match var {
        None => Ok(DEFAULT_SMTP_PORT),
        Some(text) => match parse_unsigned(text.as_str(), MAX_PORT) {
            Some(port) => Ok(port as u16),
            None => Err(ConfigError::InvalidPort),
        },
    }
}

impl SmtpConfig {
    /// Reads the settings of the mail server.
    pub fn from_env(vars: SmtpVars) -> (r: Result<SmtpConfig, ConfigError>)
        ensures
            match r {
                Ok(config) => {
                    &&& first_fault(vars) is None
                    &&& vars.host == Some(config.host)
                    &&& port_in(opt_text(vars.port)) == Some(config.port as nat)
                    &&& vars.username == Some(config.username)
                    &&& vars.password == Some(config.password)
                    &&& vars.from == Some(config.from)
                },
                Err(e) => first_fault(vars) == Some(e),
            },
    {
        let host = match require_env(Setting::SmtpHost, vars.host) {
            Ok(host) => host,
            Err(e) => return Err(e),
        };
        let port: u16 = match smtp_port(&vars.port) {
            Ok(port) => port,
            Err(e) => return Err(e),
        };
        let username = match require_env(Setting::SmtpUsername, vars.username) {
            Ok(username) => username,
            Err(e) => return Err(e),
        };
        let password = match require_env(Setting::SmtpPassword, vars.password) {
            Ok(password) => password,
            Err(e) => return Err(e),
        };
        let from = match require_env(Setting::SmtpFrom, vars.from) {
            Ok(from) => from,
            Err(e) => return Err(e),
        };
        Ok(SmtpConfig { host, port, username, password, from })
    }
}

/// Reads for how many milliseconds events are collected.
pub fn debounce_millis(var: &Option<String>) -> (r: Result<u64, ConfigError>)
    ensures
        match *var {
            None => r == Ok::<u64, ConfigError>(DEFAULT_DEBOUNCE_MS),
            Some(text) => match r {
                Ok(millis) => unsigned_value(text@) == Some(millis as nat),
                Err(e) => e == ConfigError::InvalidDebounce && (unsigned_value(text@) matches Some(
                    n,
                ) ==> n > u64::MAX),
            },
        },
{
    match var {
        None => Ok(DEFAULT_DEBOUNCE_MS),
        Some(text) => match parse_unsigned(text.as_str(), u64::MAX) {
            Some(millis) => Ok(millis),
            None => Err(ConfigError::InvalidDebounce),
        },
    }
}

/// Reads the arguments: after the name of the program, the directory to watch and the
/// address to notify, and nothing more.
pub fn parse_arguments(args: &Vec<String>) -> (r: Result<Arguments, UsageError>)
    requires
        args@.len() > 0,
    ensures
        match r {
            Ok(arguments) => {
                &&& args@.len() == 3
                &&& arguments.watch_dir@ == args@[1]@
                &&& arguments.notify_email@ == args@[2]@
            },
            Err(e) => args@.len() != 3 && e.program@ == args@[0]@,
        },
{
    if args.len() != 3 {
        return Err(UsageError { program: args[0].clone() });
    }
    Ok(Arguments { watch_dir: args[1].clone(), notify_email: args[2].clone() })
}

} // verus!
