//! Two-axis logging: a message has a zone (a bit of a 32-bit set) and a
//! level. An output shows it when the output's level is above 0 (level 0
//! turns the output off), the message's level is at most the output's level,
//! and its zone shares a bit with the output's zones. The console and the
//! files are two such outputs, set independently.

pub mod config;
pub mod datetime;
pub mod output;
pub mod text;
pub mod zone;

pub use config::{
    enable_file_output, level, route, set_all, set_none, should_log, should_log_file, zones,
    LogState, Route,
};
pub use datetime::{civil_from_days, current_datetime, format_clock_reading, format_datetime};
pub use output::{file_label_of, files_to_open, format_line, log_file_path, plan_files};
pub use zone::LogZone;
