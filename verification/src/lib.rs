//! A verified core for a root-confined file-management service.
//!
//! The library resolves untrusted, client-supplied relative paths against a
//! configured root directory, rejecting every path that would escape it, and
//! gives exact semantics to the directory and file operations the service
//! offers (list, create, remove, move, copy, upload, download) over an
//! explicit model of the directory tree.

pub mod errors;
pub mod fs_model;
pub mod handlers;
pub mod laws;
pub mod mime;
pub mod paths;
pub mod plan;
pub mod transfer;
pub mod types;

pub use errors::FsError;
