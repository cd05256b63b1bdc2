//! The configuration file, `~/.config/chronicler/config.toml`, and the
//! directory settings that it holds.

use vstd::prelude::*;

use crate::text::{chars_of, trim, trim_bounds};

verus! {

/// Configuration loaded from the TOML config file.
#[derive(Debug, PartialEq, Eq)]
pub struct Config {
    pub chronicler_directory: Option<String>,
}

/// Why a configuration or a directory setting in it cannot be used.
#[derive(Debug, PartialEq, Eq)]
pub enum ConfigError {
    /// The configuration file holds nothing but white space.
    EmptyText,
    /// The TOML parser refused the text; its message.
    Malformed(String),
    /// The directory setting is absent.
    MissingDirectory,
    /// The directory setting is blank.
    EmptyDirectory,
}

/// The text of a configuration file and what the TOML parser made of it give
/// the configuration: a blank text is refused before the parser's answer is
/// looked at; otherwise the parser's configuration, or its error message.
pub fn settle_config(contents: &str, parsed: Result<Config, String>) -> (r: Result<
    Config,
    ConfigError,
>)
    ensures
        trim(contents@).len() == 0 ==> r == Err::<Config, ConfigError>(ConfigError::EmptyText),
        trim(contents@).len() > 0 ==> match parsed {
            Ok(c) => r == Ok::<Config, ConfigError>(c),
            Err(m) => r == Err::<Config, ConfigError>(ConfigError::Malformed(m)),
        },
{
    let s = chars_of(contents);
    let (a, b) = trim_bounds(&s, 0, s.len());
    assert(s@.subrange(0, s@.len() as int) =~= contents@);
    if a == b {
        return Err(ConfigError::EmptyText);
    }
    match parsed {
        Ok(c) => Ok(c),
        Err(m) => Err(ConfigError::Malformed(m)),
    }
}

/// The value of a directory setting with white space trimmed, which must be there
/// and must not be blank.
pub fn directory_setting(value: &Option<String>) -> (r: Result<String, ConfigError>)
    ensures
        match value {
            None => r == Err::<String, ConfigError>(ConfigError::MissingDirectory),
            Some(v) => if trim(v@).len() == 0 {
                r == Err::<String, ConfigError>(ConfigError::EmptyDirectory)
            } else {
                r matches Ok(d) && d@ == trim(v@)
            },
        },
{
    match value {
        None => Err(ConfigError::MissingDirectory),
        Some(v) => {
            let s = chars_of(v.as_str());
            let (a, b) = trim_bounds(&s, 0, s.len());
            assert(s@.subrange(0, s@.len() as int) =~= v@);
            if a == b {
                Err(ConfigError::EmptyDirectory)
            } else {
                Ok(v.as_str().substring_char(a, b).to_string())
            }
        },
    }
}

/// The chronicle directory of a configuration: the trimmed setting, where an
/// absent setting counts as a blank one.
pub fn chronicler_directory_of(config: &Config) -> (r: Result<String, ConfigError>)
    ensures
        match config.chronicler_directory {
            None => r == Err::<String, ConfigError>(ConfigError::EmptyDirectory),
            Some(v) => if trim(v@).len() == 0 {
                r == Err::<String, ConfigError>(ConfigError::EmptyDirectory)
            } else {
                r matches Ok(d) && d@ == trim(v@)
            },
        },
{
    match directory_setting(&config.chronicler_directory) {
        Err(ConfigError::MissingDirectory) => Err(ConfigError::EmptyDirectory),
        other => other,
    }
}

} // verus!
