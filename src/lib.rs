//! A bullet-journal log: dated sections of notes and tasks kept in one text
//! file, newest section first.
//!
//! The library works on the file's bytes: it decides where a new entry goes,
//! lists notes and tasks, and marks tasks done. Reading and replacing the file
//! is left to the caller.
pub mod date;
pub mod error;
pub mod header;
pub mod journal;
pub mod laws;
pub mod lines;
pub mod listing;

pub use date::Date;
pub use error::{LogError, UnsupportedError};
pub use header::{get_date, get_date_from_header, parse_date};
pub use journal::{add_entry, add_note, add_task, get_logfile_path};
pub use lines::split_lines;
pub use listing::{complete_task, list_notes, list_tasks};
