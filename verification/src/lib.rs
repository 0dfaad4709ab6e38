//! Core of a log-structured key-value storage engine: an in-memory page
//! model with delta chains and structure-modification descriptors, a sorted
//! page codec, a page-file layout with recovery, and a point-lookup table.

pub mod codec;
pub mod data;
pub mod error;
pub mod lex;
pub mod page;
pub mod page_file;
pub mod smap;
pub mod sorted_page;
pub mod stats;
pub mod table;
pub mod tree_stats;
pub mod util;
