//! The decision step of every operation, separated from the filesystem.
//!
//! Each function takes what probing found at the paths involved and decides
//! whether the operation may proceed, or with which error it stops. The
//! model tree and the real server both route their decisions through these,
//! so the error taxonomy is fixed in one verified place:
//! nothing may exist where something is created, sources must exist,
//! targets of removal must have the right kind, and a predictable
//! precondition failure of the underlying primitive is reported as an
//! internal I/O failure, as the primitive itself would.

use vstd::prelude::*;

use crate::errors::FsError;
use crate::fs_model::NodeKind;

verus! {

/// What a directory copy is asked to reproduce: one file, or a whole tree.
#[derive(Clone, Copy, Debug, PartialEq, Eq, Structural)]
pub enum CopyKind {
    OneFile,
    Tree,
}

/// Creating a directory: the target must be absent — anything already
/// there, file or directory, is `AlreadyExists` — and only one level is
/// created, so a missing or non-directory parent fails as the create
/// primitive would.
pub fn mkdir_plan(target: NodeKind, parent: NodeKind) -> (r: Result<(), FsError>)
    ensures
        r is Ok <==> target == NodeKind::Missing && parent == NodeKind::Directory,
        r matches Err(e) ==> e == (if target != NodeKind::Missing {
            FsError::AlreadyExists
        } else {
            FsError::InternalIo
        }),
{
    if !matches!(target, NodeKind::Missing) {
        Err(FsError::AlreadyExists)
    } else if !matches!(parent, NodeKind::Directory) {
        Err(FsError::InternalIo)
    } else {
        Ok(())
    }
}

/// Removing a directory tree: the target must be a directory.
pub fn rmdir_plan(target: NodeKind) -> (r: Result<(), FsError>)
    ensures
        r is Ok <==> target == NodeKind::Directory,
        r matches Err(e) ==> e == FsError::NotFound,
{
    if matches!(target, NodeKind::Directory) {
        Ok(())
    } else {
        Err(FsError::NotFound)
    }
}

/// Removing a file: the target must be a regular file.
pub fn rm_file_plan(target: NodeKind) -> (r: Result<(), FsError>)
    ensures
        r is Ok <==> target == NodeKind::RegularFile,
        r matches Err(e) ==> e == FsError::NotFound,
{
    if matches!(target, NodeKind::RegularFile) {
        Ok(())
    } else {
        Err(FsError::NotFound)
    }
}

/// Moving: the source must exist, the destination must not. A rename whose
/// destination parent is missing or not a directory, or whose destination
/// lies inside the moved tree itself, is a precondition failure of the
/// rename primitive.
pub fn move_plan(
    from: NodeKind,
    to: NodeKind,
    to_parent: NodeKind,
    from_contains_to: bool,
) -> (r: Result<(), FsError>)
    ensures
        r is Ok <==> from != NodeKind::Missing && to == NodeKind::Missing && to_parent
            == NodeKind::Directory && !from_contains_to,
        r matches Err(e) ==> e == (if from == NodeKind::Missing {
            FsError::NotFound
        } else if to != NodeKind::Missing {
            FsError::AlreadyExists
        } else {
            FsError::InternalIo
        }),
{
    if matches!(from, NodeKind::Missing) {
        Err(FsError::NotFound)
    } else if !matches!(to, NodeKind::Missing) {
        Err(FsError::AlreadyExists)
    } else if !matches!(to_parent, NodeKind::Directory) {
        Err(FsError::InternalIo)
    } else if from_contains_to {
        Err(FsError::InternalIo)
    } else {
        Ok(())
    }
}

/// Copying: the source must exist and be a file or a directory — anything
/// else is `InvalidSource` — and the destination must not exist. A
/// directory cannot be copied into its own subtree. Copying a single file
/// needs the destination's parent directory; a tree copy recreates missing
/// destination ancestors itself.
pub fn copy_plan(
    from: NodeKind,
    to: NodeKind,
    to_parent: NodeKind,
    from_contains_to: bool,
) -> (r: Result<CopyKind, FsError>)
    ensures
        r matches Ok(k) ==> (k == CopyKind::Tree <==> from == NodeKind::Directory),
        r is Ok <==> from != NodeKind::Missing && to == NodeKind::Missing && match from {
            NodeKind::Directory => !from_contains_to,
            NodeKind::RegularFile => to_parent == NodeKind::Directory,
            _ => false,
        },
        r matches Err(e) ==> e == (if from == NodeKind::Missing {
            FsError::NotFound
        } else if to != NodeKind::Missing {
            FsError::AlreadyExists
        } else if from == NodeKind::Other {
            FsError::InvalidSource
        } else if from == NodeKind::Directory {
            FsError::InvalidPath
        } else {
            FsError::InternalIo
        }),
{
    if matches!(from, NodeKind::Missing) {
        Err(FsError::NotFound)
    } else if !matches!(to, NodeKind::Missing) {
        Err(FsError::AlreadyExists)
    } else if matches!(from, NodeKind::Other) {
        Err(FsError::InvalidSource)
    } else if matches!(from, NodeKind::Directory) {
        if from_contains_to {
            Err(FsError::InvalidPath)
        } else {
            Ok(CopyKind::Tree)
        }
    } else {
        if matches!(to_parent, NodeKind::Directory) {
            Ok(CopyKind::OneFile)
        } else {
            Err(FsError::InternalIo)
        }
    }
}

/// Uploading: the target must be absent — exclusive creation — and sits in
/// an existing directory.
pub fn upload_plan(target: NodeKind, parent: NodeKind) -> (r: Result<(), FsError>)
    ensures
        r is Ok <==> target == NodeKind::Missing && parent == NodeKind::Directory,
        r matches Err(e) ==> e == (if target != NodeKind::Missing {
            FsError::AlreadyExists
        } else {
            FsError::InternalIo
        }),
{
    if !matches!(target, NodeKind::Missing) {
        Err(FsError::AlreadyExists)
    } else if !matches!(parent, NodeKind::Directory) {
        Err(FsError::InternalIo)
    } else {
        Ok(())
    }
}

/// Downloading: the target must be a regular file.
pub fn download_plan(target: NodeKind) -> (r: Result<(), FsError>)
    ensures
        r is Ok <==> target == NodeKind::RegularFile,
        r matches Err(e) ==> e == FsError::NotFound,
{
    if matches!(target, NodeKind::RegularFile) {
        Ok(())
    } else {
        Err(FsError::NotFound)
    }
}

/// Listing: the target must exist and be a directory.
pub fn ls_plan(target: NodeKind) -> (r: Result<(), FsError>)
    ensures
        r is Ok <==> target == NodeKind::Directory,
        r matches Err(e) ==> e == (if target == NodeKind::Missing {
            FsError::NotFound
        } else {
            FsError::NotADirectory
        }),
{
    match target {
        NodeKind::Directory => Ok(()),
        NodeKind::Missing => Err(FsError::NotFound),
        NodeKind::RegularFile => Err(FsError::NotADirectory),
        NodeKind::Other => Err(FsError::NotADirectory),
    }
}

} // verus!
