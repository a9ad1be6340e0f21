//! Scaffolding of provider template trees.
//!
//! A catalog of template directories is modelled as an immutable tree
//! ([`catalog`]). Extracting a directory of it is computed as a list of
//! filesystem operations ([`fs_ops`]) whose effect on a directory tree is
//! given by a mathematical model, so that fidelity and idempotence of an
//! extraction are proved rather than hoped for. The caller performs the
//! operations.
pub mod catalog;
pub mod extract;
pub mod fs_ops;
pub mod rel_path;
pub mod scaffold;
