//! The request and response shapes of the service.
//!
//! Every operation answers with the uniform envelope `{success, message}`;
//! a listing additionally carries its entries. The wire-format derives live
//! with the unverified HTTP layer, which converts to and from these types.

use vstd::prelude::*;

verus! {

/// The state shared by every request handler: the single absolute path all
/// operations are confined to. Set once at startup, never written after.
#[derive(Clone)]
pub struct ServerState {
    pub data_dir: String,
}

/// One entry of a directory listing: the child's name (its final path
/// segment), its size in bytes, whether it is a directory, and — for files
/// only — the media type guessed from its name.
pub struct FileInfo {
    pub name: String,
    pub size: u64,
    pub is_dir: bool,
    pub mime: Option<String>,
}

/// The response to a directory-listing request.
pub struct LsDirectoryResponse {
    pub success: bool,
    pub message: String,
    pub files: Vec<FileInfo>,
}

/// A request naming one path, relative to the data directory.
pub struct DirectoryQuery {
    pub path: String,
}

/// A download request: the path, and an optional flag asking to render the
/// content inline rather than as an attachment.
pub struct DownloadDirectoryQuery {
    pub path: String,
    pub peek: Option<bool>,
}

/// A request naming a source and a destination path.
pub struct MoveQuery {
    pub from: String,
    pub to: String,
}

/// The uniform response envelope of every non-listing operation.
pub struct SimpleServerResponse {
    pub success: bool,
    pub message: String,
}

} // verus!
