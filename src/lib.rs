//! An incremental name-resolution core: a content store of parsed source files,
//! memoised per-definition queries, a module tree, and a fixed-point resolver that
//! turns each module's raw declarations into a unit-wide item map.
pub mod syntax;
pub mod db;
pub mod scopes;
pub mod module_tree;
pub mod nameres;
pub mod laws;
pub mod cli;
