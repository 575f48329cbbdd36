//! An arena-backed MVCC skip list: a bump allocator over one fixed block of
//! bytes, and an ordered map from (key, version) to value built inside it.

pub mod arena;
pub mod calls;
pub mod chain;
pub mod node;
pub mod order;
pub mod skiplist;
