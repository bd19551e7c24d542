//! Where the documents of the sessions are kept, as the settings file says it.
//!
//! The settings file holds one line: `sessions_path='<path>'`. A path that
//! begins with `~/` lies in the home directory.

use crate::text::{
    chars_of, copy_range, ends_with, has_prefix, has_suffix, starts_with, string_of, trim,
    trim_chars,
};
use vstd::prelude::*;

verus! {

/// What the settings line begins with.
pub open spec fn setting_open() -> Seq<char> {
    "sessions_path='"@
}

/// What the settings line ends with.
pub open spec fn setting_close() -> Seq<char> {
    "'"@
}

/// What a path in the home directory begins with.
pub open spec fn home_prefix() -> Seq<char> {
    "~/"@
}

/// Why the settings could not be read.
#[derive(Clone, Copy, Debug, PartialEq, Eq, Structural)]
pub enum ConfigError {
    /// The text is not of the form `sessions_path='<path>'`.
    Format,
    /// Nothing stands between the quotes.
    EmptyPath,
    /// The path begins with `~` and no `/` follows.
    Tilde,
    /// The path lies in the home directory and no home directory is known.
    Home,
}

/// The settings of the tracker.
#[derive(Clone, Debug, PartialEq, Eq)]
pub struct Config {
    /// The directory that holds the documents of the sessions.
    pub sessions_path: String,
}

/// What stands between the quotes of the settings line, if the text has the
/// form of that line and something stands there.
pub open spec fn written_path(contents: Seq<char>) -> Result<Seq<char>, ConfigError> {
    let line = trim(contents);
    if line.len() < setting_open().len() + setting_close().len() || !starts_with(
        line,
        setting_open(),
    ) || !ends_with(line, setting_close()) {
        Err(ConfigError::Format)
    } else if line.len() == setting_open().len() + setting_close().len() {
        Err(ConfigError::EmptyPath)
    } else {
        Ok(line.subrange(setting_open().len() as int, line.len() - setting_close().len()))
    }
}

/// What stands after `~/` in a path that, trimmed, begins with it.
pub open spec fn under_home(path: Seq<char>) -> Option<Seq<char>> {
    let p = trim(path);
    if starts_with(p, home_prefix()) {
        Some(p.skip(home_prefix().len() as int))
    } else {
        None
    }
}

/// Where a path leads, as far as it is known without the file system: a path
/// that does not begin with `~` leads to itself, trimmed; one that begins with
/// `~/` needs a home directory; any other that begins with `~` is refused.
pub open spec fn path_kind(path: Seq<char>, home: Option<Seq<char>>) -> Result<
    Option<Seq<char>>,
    ConfigError,
> {
    let p = trim(path);
    if p.len() > 0 && p[0] == '~' {
        if !starts_with(p, home_prefix()) {
            Err(ConfigError::Tilde)
        } else if home is None {
            Err(ConfigError::Home)
        } else {
            Ok(None)
        }
    } else {
        Ok(Some(p))
    }
}

/// `std::path::Path::join`: the path `name` taken from the directory
/// `directory`. Which separator stands between them is the platform's matter,
/// so nothing is stated.
#[verifier::external_body]
pub(crate) fn join_path(directory: &str, name: &str) -> (r: String) {
    std::path::Path::new(directory).join(name).to_string_lossy().into_owned()
}

/// The part of `path` that is to be taken from the home directory: what
/// stands after `~/`, if the path, trimmed, begins with it.
pub fn part_under_home(path: &str) -> (r: Option<String>)
    ensures
        match under_home(path@) {
            Some(rest) => r matches Some(part) && part@ == rest,
            None => r is None,
        },
{
    let p = trim_chars(&chars_of(path));
    proof {
        reveal_strlit("~/");
    }
    if has_prefix(&p, &chars_of("~/")) {
        let rest = copy_range(&p, 2, p.len());
        proof {
            assert(p@.subrange(2, p@.len() as int) =~= p@.skip(2));
        }
        Some(string_of(&rest))
    } else {
        None
    }
}

/// The path that `path` leads to, with `~/` taken for the home directory
/// `home`: the part under the home directory is handed, with `home`, to the
/// platform's joining of paths.
pub fn resolve_path(path: &str, home: Option<&str>) -> (r: Result<String, ConfigError>)
    ensures
        match path_kind(
            path@,
            match home {
                Some(h) => Some(h@),
                None => None,
            },
        ) {
            Ok(Some(p)) => r matches Ok(resolved) && resolved@ == p,
            Ok(None) => r is Ok,
            Err(e) => r == Err::<String, ConfigError>(e),
        },
{
    proof {
        reveal_strlit("~/");
        let p = trim(path@);
        if starts_with(p, home_prefix()) {
            assert(p.take(2)[0] == p[0]);
        }
    }
    match part_under_home(path) {
        Some(rest) => match home {
            Some(home) => Ok(join_path(home, rest.as_str())),
            None => Err(ConfigError::Home),
        },
        None => {
            let p = trim_chars(&chars_of(path));
            if p.len() > 0 && p[0] == '~' {
                Err(ConfigError::Tilde)
            } else {
                Ok(string_of(&p))
            }
        },
    }
}

impl ConfigError {
    /// What the error says.
    pub open spec fn text(self) -> Seq<char> {
        match self {
            ConfigError::Format => "wrong config file format, please use `sessions_path='<path>'`"@,
            ConfigError::EmptyPath => "wrong config, sessions_path is empty"@,
            ConfigError::Tilde => "invalid path, `~` is not followed by `/`"@,
            ConfigError::Home => "failed to interpret environment variable HOME"@,
        }
    }

    /// What the error says.
    pub fn message(&self) -> (r: String)
        ensures
            r@ == self.text(),
    {
        match self {
            ConfigError::Format => string_of(
                &chars_of("wrong config file format, please use `sessions_path='<path>'`"),
            ),
            ConfigError::EmptyPath => string_of(&chars_of("wrong config, sessions_path is empty")),
            ConfigError::Tilde => string_of(&chars_of("invalid path, `~` is not followed by `/`")),
            ConfigError::Home => string_of(
                &chars_of("failed to interpret environment variable HOME"),
            ),
        }
    }
}

impl Config {
    /// Reads the settings from the text of the settings file. `home` is the
    /// home directory, if one is known.
    pub fn from_file(contents: &str, home: Option<&str>) -> (r: Result<Config, ConfigError>)
        ensures
            match written_path(contents@) {
                Err(e) => r == Err::<Config, ConfigError>(e),
                Ok(path) => match path_kind(
                    path,
                    match home {
                        Some(h) => Some(h@),
                        None => None,
                    },
                ) {
                    Ok(Some(p)) => r matches Ok(config) && config.sessions_path@ == p,
                    Ok(None) => r is Ok,
                    Err(e) => r == Err::<Config, ConfigError>(e),
                },
            },
    {
        let line = trim_chars(&chars_of(contents));
        proof {
            reveal_strlit("sessions_path='");
            reveal_strlit("'");
        }
        if line.len() < 16 || !has_prefix(&line, &chars_of("sessions_path='")) || !has_suffix(
            &line,
            &chars_of("'"),
        ) {
            return Err(ConfigError::Format);
        }
        if line.len() == 16 {
            return Err(ConfigError::EmptyPath);
        }
        let path = copy_range(&line, 15, line.len() - 1);
        match resolve_path(string_of(&path).as_str(), home) {
            Ok(sessions_path) => Ok(Config { sessions_path }),
            Err(e) => Err(e),
        }
    }
}

} // verus!
