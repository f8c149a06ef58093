//! What a store that keeps one file per record decides: where a record is
//! written, which files a query reads, and what the files that were read
//! answer.

pub mod eav;
