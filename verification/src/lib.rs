//! Bookkeeping for a ratio-faking torrent client: torrent metainfo decoding,
//! announce scheduling and upload-speed decisions, and its configuration.

pub mod bencode;
pub mod config;
pub mod text;
pub mod torrent;
pub mod tracker;
