//! Maps Unicode values back to the symbol names that produce them.
//!
//! The library builds sorted name tables from a symbol namespace and answers
//! "which names resolve to this value?" by binary search over such a table.

pub mod order;
pub mod lookup;
pub mod encode;
pub mod styling;
pub mod namespace;
pub mod builder;
pub mod tables;
