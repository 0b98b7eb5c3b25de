//! Search-client core: normalization, parsing, ranking and rendering of
//! torrent index results.

pub mod text;
pub mod torrent;
pub mod torznab;
pub mod xml;
pub mod web_url;
pub mod proxy;
pub mod discover;
pub mod render;
pub mod source;
pub mod search;
pub mod cache;
pub mod cli;
