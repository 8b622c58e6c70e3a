use vstd::prelude::*;
use vstd::string::*;

verus! {

/// How to reach the test database, and which program shows a log.
pub struct Config {
    pub server: String,
    pub database: String,
    pub password: String,
    pub username: String,
    pub log_viewer: String,
}

/// The keys read from the `[JVSERVER]` section of the configuration file.
pub struct ServerSection {
    pub server: Option<String>,
    pub password: Option<String>,
    pub username: Option<String>,
    pub database: Option<String>,
}

/// Why a configuration cannot be used.
#[derive(Clone, Copy, PartialEq, Eq, Debug, Structural)]
pub enum ConfigError {
    /// The file has no `[JVSERVER]` section.
    MissingSection,
    /// A server key is missing or empty.
    MissingFields,
}

pub open spec fn value_or_empty(v: Option<String>) -> Seq<char> {
    match v {
        Some(s) => s@,
        None => Seq::empty(),
    }
}

/// Whether every key of the server section holds a value.
pub open spec fn section_complete(s: ServerSection) -> bool {
    &&& value_or_empty(s.server).len() > 0
    &&& value_or_empty(s.password).len() > 0
    &&& value_or_empty(s.username).len() > 0
    &&& value_or_empty(s.database).len() > 0
}

/// The viewer used when the file names none.
pub open spec fn default_viewer() -> Seq<char> {
    ".\\ict_lr.exe"@
}

fn value_of(v: Option<String>) -> (r: String)
    ensures
        r@ == value_or_empty(v),
{
    match v {
        Some(s) => s,
        None => String::new(),
    }
}

impl Config {
    /// The configuration given by the server section and the `VIEWER` key of
    /// the `[APP]` section: every server key must hold a value, and the
    /// viewer defaults to `.\ict_lr.exe`.
    pub fn from_sections(section: Option<ServerSection>, viewer: Option<String>) -> (r: Result<
        Config,
        ConfigError,
    >)
        ensures
            section is None ==> r is Err && r->Err_0 == ConfigError::MissingSection,
            section is Some && !section_complete(section->Some_0) ==> r is Err && r->Err_0
                == ConfigError::MissingFields,
            section is Some && section_complete(section->Some_0) ==> r is Ok && {
                let s = section->Some_0;
                let c = r->Ok_0;
                &&& c.server@ == value_or_empty(s.server)
                &&& c.password@ == value_or_empty(s.password)
                &&& c.username@ == value_or_empty(s.username)
                &&& c.database@ == value_or_empty(s.database)
                &&& c.log_viewer@ == match viewer {
                    Some(v) => v@,
                    None => default_viewer(),
                }
            },
    {
        let s = match section {
            Some(s) => s,
            None => {
                return Err(ConfigError::MissingSection);
            },
        };
        let server = value_of(s.server);
        let password = value_of(s.password);
        let username = value_of(s.username);
        let database = value_of(s.database);
        if server.as_str().unicode_len() == 0 || password.as_str().unicode_len() == 0
            || username.as_str().unicode_len() == 0 || database.as_str().unicode_len() == 0 {
            return Err(ConfigError::MissingFields);
        }
        let log_viewer = match viewer {
            Some(v) => v,
            None => String::from_str(".\\ict_lr.exe"),
        };
        Ok(Config { server, database, password, username, log_viewer })
    }
}

} // verus!
