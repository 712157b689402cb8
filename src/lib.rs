//! A small disk-resident relational storage engine: a big-endian byte codec,
//! typed tuples, 8192-byte slotted pages, the page table of one relational
//! table, the catalog that maps table names to schemas, and the executor's
//! pieces (statement cutting, filters, the two-phase UPDATE and DELETE).
//!
//! File access stays with the caller: the library decides which page to read
//! or write and what the bytes are, and proves those decisions correct.
pub mod errors;
pub mod serializer;
pub mod utils;
pub mod values;
pub mod table;
pub mod tuple;
pub mod page;
pub mod page_table;
pub mod db;
pub mod operations;
pub mod sql;
