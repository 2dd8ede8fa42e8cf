//! An interactive content navigator: fetch a resource, classify it as a
//! syndication feed or an HTML page, extract its most salient text and its
//! links, and step through linked resources one selection at a time.
//!
//! The crate holds the navigation logic: URL normalization and resolution,
//! feed classification, text-block extraction and ranking, link collection,
//! pagination, and the menu state machine. Fetching and terminal I/O stay
//! with the caller.
pub mod dom;
pub mod engine;
pub mod extract;
pub mod feed;
pub mod links;
pub mod text;
pub mod urls;
