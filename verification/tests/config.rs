use chronicler::{chronicler_directory_of, directory_setting, settle_config, Config, ConfigError};

fn config(dir: Option<&str>) -> Config {
    Config { chronicler_directory: dir.map(String::from) }
}

#[test]
fn blank_config_text_is_refused_first() {
    assert_eq!(settle_config("\n\n", Ok(config(None))), Err(ConfigError::EmptyText));
    assert_eq!(
        settle_config(" \t", Err(String::from("parse error"))),
        Err(ConfigError::EmptyText)
    );
}

#[test]
fn parsed_config_is_taken_as_it_is() {
    assert_eq!(
        settle_config("chronicler_directory = \"/tmp/c\"", Ok(config(Some("/tmp/c")))),
        Ok(config(Some("/tmp/c")))
    );
    assert_eq!(
        settle_config("chronicler_directory = /tmp", Err(String::from("bad"))),
        Err(ConfigError::Malformed(String::from("bad")))
    );
}

#[test]
fn directory_setting_is_trimmed_and_must_not_be_blank() {
    assert_eq!(directory_setting(&Some(String::from("  /tmp/c \n"))), Ok(String::from("/tmp/c")));
    assert_eq!(directory_setting(&Some(String::from("  "))), Err(ConfigError::EmptyDirectory));
    assert_eq!(directory_setting(&None), Err(ConfigError::MissingDirectory));
}

#[test]
fn chronicler_directory_counts_absent_as_blank() {
    assert_eq!(chronicler_directory_of(&config(None)), Err(ConfigError::EmptyDirectory));
    assert_eq!(chronicler_directory_of(&config(Some(""))), Err(ConfigError::EmptyDirectory));
    assert_eq!(chronicler_directory_of(&config(Some(" /c "))), Ok(String::from("/c")));
}
