//! exFAT volumes.

pub mod device;
pub mod error;
pub mod info;
pub mod time;
pub mod upcase;
pub mod entry;
pub mod entry_writer;
pub mod bitmap;
pub mod fat;
pub mod volume;
pub mod file_reader;
pub mod file_writer;
pub mod dir;
pub mod file_laws;
pub mod edit;
pub mod dir_laws;
pub mod release_laws;
pub mod round_trip;
pub mod reopening;
pub mod format_laws;
pub mod change_laws;
pub mod lookup_laws;
pub mod owner_laws;
