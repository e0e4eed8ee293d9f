//! Single-page link indexer: resolve a raw domain string into a canonical
//! origin, and classify the hyperlinks found on its page into the absolute
//! URLs that belong to that domain.

pub mod strutil;
pub mod domain;
