//! The four-level page table: entries, tables, the arena of table frames
//! and the mapper that walks them.

pub mod arena;
pub mod mapper;
pub mod page;
pub mod table;
pub mod tables;
