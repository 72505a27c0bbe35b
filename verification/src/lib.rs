//! Verified core of a pipeline that links Federal Register (FR) rule
//! documents to the divisions of the Code of Federal Regulations (CFR)
//! parts they amend.
//!
//! The library holds the logic: citation formatting and parsing, markup
//! traversal and division classification, search-result merging and
//! agency enrichment, citation-to-document matching, cache and fetch
//! decisions, and assembly of the two result tables. File and network
//! I/O live outside the library and hand it plain values.

pub mod cita;
pub mod divs;
pub mod docs;
pub mod cache;
pub mod error;
pub mod fetch;
pub mod extract;
pub mod markup;
pub mod matcher;
pub mod report;
pub mod search;
pub mod text;
