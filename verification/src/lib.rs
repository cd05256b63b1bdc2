//! Chronicle file management: YAML frontmatter headers, dated file names, and
//! the plans that the command-line tool carries out on disk.
//!
//! Chronicle files are named `chronicle-YYYY-MM-DD.md` and journal files
//! `YYYY-MM-DD.md`. Each gets a header whose `prev` field links the dated file
//! before it; chronicle headers also link the day's journal entry.

pub mod chronicle;
pub mod cli;
pub mod clock;
pub mod config;
pub mod header;
pub mod journal;
pub mod listing;
pub mod names;
pub mod text;
pub mod updates;

pub use chronicle::{
    chronicle_contents_with_header, plan_chronicle_append, plan_chronicle_append_now, AppendPlan,
    ContentsUpdate,
};
pub use cli::{parse_command, parse_count, should_read_last_n, should_update_headers, Command};
pub use clock::{clock_reading, format_date, format_time, CalendarDate, ClockReading, LocalClock};
pub use config::{chronicler_directory_of, directory_setting, settle_config, Config, ConfigError};
pub use header::{extract_between_dashes, parse_header, Header};
pub use journal::{journal_contents_with_header, journal_has_valid_header};
pub use listing::select_markdown_files;
pub use names::{
    chronicler_date_from_path, is_chronicler_markdown_filename, is_journal_markdown_filename,
    journal_date_from_path, DateNameError,
};
pub use updates::{last_dated_files, plan_header_updates, FileKind, HeaderUpdate, UpdateError};
