//! Recursive ownership and permission setting, as a library: the account and
//! group databases read into maps, a breadth-first walk that its caller drives
//! over the filesystem, and the plan of changes, all checked before anything
//! is touched.
pub mod number;
pub mod identity;
pub mod walk;
pub mod tree;
pub mod run;
