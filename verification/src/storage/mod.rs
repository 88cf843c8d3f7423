//! Page and record primitives of the storage engine.

pub mod frame;
pub mod heap;
pub mod index;
pub mod index_writer;
pub mod page;
pub mod pager;
