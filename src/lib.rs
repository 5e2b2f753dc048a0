//! Site adapter logic for a manga reader: URL component coding, path-derived
//! titles, chapter date parsing and the mapping of scraped values into entries.

pub mod codec;
pub mod path;
pub mod date;
pub mod auth;
pub mod adapter;
