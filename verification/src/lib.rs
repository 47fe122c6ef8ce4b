//! A sparse 64-tree for voxel data, backed by slab allocators of fixed-size blocks.
//!
//! Each function carries a contract that states what it returns or changes, and the laws
//! that relate several functions stand as public proof functions beside them. The
//! library's own logic is proved; the few calls into the standard library and `arrayvec`
//! that vstd does not specify stand behind small trusted wrappers, each documented with
//! what its contract claims.
pub mod pool;
pub mod text;
pub mod tree;
pub mod util;
