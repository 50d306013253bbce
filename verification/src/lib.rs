//! Keeps a record of the hashes of every file below a watched directory and
//! decides which notifications a file event calls for.
pub mod config;
pub mod digest;
pub mod event;
pub mod event_laws;
pub mod laws;
pub mod mail;
pub mod monitor;
pub mod notice;
pub mod notice_laws;
pub mod path;
pub mod plan;
pub mod record;
pub mod record_laws;
pub mod scan;
pub mod scan_laws;
pub mod table;
pub mod text;
pub mod tree;
pub mod view_laws;
