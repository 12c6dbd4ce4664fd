//! Two memory-management primitives built over index arenas: a cell with
//! strong and weak reference counts, and a binary tree with parent links
//! navigated by a cursor.
pub mod rc;
pub mod tree;
