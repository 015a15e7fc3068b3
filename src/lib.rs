//! Construction of two-level, 64KB-granule translation tables for a 64-bit
//! ARM target: entries are encoded and classified by `descriptor`, and the
//! tables, their arena of pages and the recursive mapper live in `table`.

pub mod descriptor;
pub mod table;
