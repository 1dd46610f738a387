//! One handler per operation: resolve the client's path, run the
//! operation on the tree, and translate the outcome into the uniform
//! response envelope — 200 on success, 400 for an invalid path or an
//! occupied target, 404 for a missing or wrongly-typed one, 500 for an
//! unexpected I/O failure. Nothing here does more than that translation.

use vstd::prelude::*;

use crate::errors::FsError;
use crate::fs_model::{child_info_ok, is_child_of, FsModel, FsNodeView, NodeKind};
use crate::mime::{guess_mime, mime_of};
use crate::paths::{resolve, spec_contained, spec_resolve};
use crate::transfer::{concat_chunks, DownloadStream, UploadBody};
use crate::types::{
    DirectoryQuery, DownloadDirectoryQuery, LsDirectoryResponse, MoveQuery, ServerState,
    SimpleServerResponse,
};

verus! {

/// The client's path resolves and, where the operation mutates the tree,
/// does not name the root itself.
pub open spec fn path_ok(root: Seq<char>, rel: Seq<char>, forbid_root: bool) -> bool {
    spec_contained(root, rel) && (forbid_root ==> spec_resolve(root, rel).len() > 0)
}

/// An envelope with the given flag and message.
fn simple_response(success: bool, message: &str) -> (r: SimpleServerResponse)
    ensures
        r.success == success,
        r.message@ == message@,
{
    SimpleServerResponse { success, message: String::from_str(message) }
}

/// Creates a directory under the data directory.
pub fn create_dir(state: &ServerState, fs: &mut FsModel, query: &DirectoryQuery) -> (r: (
    u16,
    SimpleServerResponse,
))
    requires
        old(fs).wf(),
    ensures
        final(fs).wf(),
        r.1.success == (r.0 == 200),
        !path_ok(state.data_dir@, query.path@, true) ==> r.0 == 400 && final(fs)@ == old(fs)@
            && r.1.message@ == "Invalid path"@,
        path_ok(state.data_dir@, query.path@, true) ==> {
            let p = spec_resolve(state.data_dir@, query.path@);
            &&& (r.0 == 200 <==> !old(fs).present(p) && old(fs).dir_at(p.drop_last()))
            &&& (r.0 == 200 ==> final(fs)@ == old(fs)@.insert(p, FsNodeView::Dir) && r.1.message@
                == "Directory created successfully"@)
            &&& (r.0 != 200 ==> final(fs)@ == old(fs)@)
            &&& (old(fs).present(p) ==> r.0 == 400 && r.1.message@
                == "Directory already exists"@)
            &&& (!old(fs).present(p) && !old(fs).dir_at(p.drop_last()) ==> r.0 == 500
                && r.1.message@ == "Failed to create directory"@)
        },
{
    let p = match resolve(state.data_dir.as_str(), query.path.as_str(), true) {
        Err(_) => {
            return (400, simple_response(false, "Invalid path"));
        },
        Ok(p) => p,
    };
    match fs.mkdir(&p) {
        Ok(()) => (200, simple_response(true, "Directory created successfully")),
        Err(e) => {
            let message = match e {
                FsError::AlreadyExists => "Directory already exists",
                _ => "Failed to create directory",
            };
            (e.status(), simple_response(false, message))
        },
    }
}

/// Removes a directory and everything below it.
pub fn delete_dir(state: &ServerState, fs: &mut FsModel, query: &DirectoryQuery) -> (r: (
    u16,
    SimpleServerResponse,
))
    requires
        old(fs).wf(),
    ensures
        final(fs).wf(),
        r.1.success == (r.0 == 200),
        !path_ok(state.data_dir@, query.path@, true) ==> r.0 == 400 && final(fs)@ == old(fs)@
            && r.1.message@ == "Invalid path"@,
        path_ok(state.data_dir@, query.path@, true) ==> {
            let p = spec_resolve(state.data_dir@, query.path@);
            &&& (r.0 == 200 <==> old(fs).dir_at(p))
            &&& (r.0 != 200 ==> final(fs)@ == old(fs)@ && r.0 == 404 && r.1.message@
                == "Directory not found"@)
            &&& (r.0 == 200 ==> r.1.message@ == "Directory deleted successfully"@)
            &&& (r.0 == 200 ==> forall|k: Seq<Seq<char>>|
                old(fs)@.dom().contains(k) && !p.is_prefix_of(k) ==> #[trigger] final(fs)@.dom().contains(k) && final(fs)@[k] == old(fs)@[k])
            &&& (r.0 == 200 ==> forall|k: Seq<Seq<char>>| #[trigger]
                final(fs)@.dom().contains(k) ==> old(fs)@.dom().contains(k) && !p.is_prefix_of(k))
        },
{
    let p = match resolve(state.data_dir.as_str(), query.path.as_str(), true) {
        Err(_) => {
            return (400, simple_response(false, "Invalid path"));
        },
        Ok(p) => p,
    };
    match fs.remove_dir_all(&p) {
        Ok(()) => (200, simple_response(true, "Directory deleted successfully")),
        Err(e) => (e.status(), simple_response(false, "Directory not found")),
    }
}

/// Removes one file.
pub fn delete_file(state: &ServerState, fs: &mut FsModel, query: &DirectoryQuery) -> (r: (
    u16,
    SimpleServerResponse,
))
    requires
        old(fs).wf(),
    ensures
        final(fs).wf(),
        r.1.success == (r.0 == 200),
        !path_ok(state.data_dir@, query.path@, true) ==> r.0 == 400 && final(fs)@ == old(fs)@
            && r.1.message@ == "Invalid path"@,
        path_ok(state.data_dir@, query.path@, true) ==> {
            let p = spec_resolve(state.data_dir@, query.path@);
            &&& (r.0 == 200 <==> old(fs).file_at(p))
            &&& (r.0 != 200 ==> final(fs)@ == old(fs)@ && r.0 == 404 && r.1.message@
                == "File not found"@)
            &&& (r.0 == 200 ==> final(fs)@ == old(fs)@.remove(p) && r.1.message@
                == "File deleted successfully"@)
        },
{
    let p = match resolve(state.data_dir.as_str(), query.path.as_str(), true) {
        Err(_) => {
            return (400, simple_response(false, "Invalid path"));
        },
        Ok(p) => p,
    };
    match fs.remove_file(&p) {
        Ok(()) => (200, simple_response(true, "File deleted successfully")),
        Err(e) => (e.status(), simple_response(false, "File not found")),
    }
}

/// Moves a file or a whole directory.
pub fn move_dir_or_file(state: &ServerState, fs: &mut FsModel, query: &MoveQuery) -> (r: (
    u16,
    SimpleServerResponse,
))
    requires
        old(fs).wf(),
    ensures
        final(fs).wf(),
        r.1.success == (r.0 == 200),
        !(path_ok(state.data_dir@, query.from@, true) && path_ok(state.data_dir@, query.to@, true))
            ==> r.0 == 400 && final(fs)@ == old(fs)@ && r.1.message@ == "Invalid paths"@,
        path_ok(state.data_dir@, query.from@, true) && path_ok(state.data_dir@, query.to@, true)
            ==> {
            let f = spec_resolve(state.data_dir@, query.from@);
            let t = spec_resolve(state.data_dir@, query.to@);
            &&& (r.0 == 200 <==> old(fs).present(f) && !old(fs).present(t) && old(fs).dir_at(
                t.drop_last(),
            ) && !f.is_prefix_of(t))
            &&& (r.0 != 200 ==> final(fs)@ == old(fs)@)
            &&& (!old(fs).present(f) ==> r.0 == 404 && r.1.message@ == "Source path not found"@)
            &&& (old(fs).present(f) && old(fs).present(t) ==> r.0 == 400 && r.1.message@
                == "Destination path already exists"@)
            &&& (r.0 == 200 ==> r.1.message@ == "Directory moved successfully"@)
            &&& (r.0 == 200 ==> forall|k: Seq<Seq<char>>|
                old(fs)@.dom().contains(k) && !f.is_prefix_of(k) ==> #[trigger] final(fs)@.dom().contains(k) && final(fs)@[k] == old(fs)@[k])
            &&& (r.0 == 200 ==> forall|s: Seq<Seq<char>>| #[trigger]
                old(fs)@.dom().contains(f + s) ==> final(fs)@.dom().contains(t + s) && final(fs)@[t + s] == old(fs)@[f + s])
            &&& (r.0 == 200 ==> forall|k: Seq<Seq<char>>| #[trigger]
                final(fs)@.dom().contains(k) ==> (old(fs)@.dom().contains(k) && !f.is_prefix_of(k))
                    || (t.is_prefix_of(k) && old(fs)@.dom().contains(f + k.skip(t.len() as int))))
        },
{
    let f = match resolve(state.data_dir.as_str(), query.from.as_str(), true) {
        Err(_) => {
            return (400, simple_response(false, "Invalid paths"));
        },
        Ok(p) => p,
    };
    let t = match resolve(state.data_dir.as_str(), query.to.as_str(), true) {
        Err(_) => {
            return (400, simple_response(false, "Invalid paths"));
        },
        Ok(p) => p,
    };
    match fs.rename(&f, &t) {
        Ok(()) => (200, simple_response(true, "Directory moved successfully")),
        Err(e) => {
            let message = match e {
                FsError::NotFound => "Source path not found",
                FsError::AlreadyExists => "Destination path already exists",
                _ => "Failed to move directory",
            };
            (e.status(), simple_response(false, message))
        },
    }
}

/// Copies a file, or a directory tree recursively.
pub fn copy(state: &ServerState, fs: &mut FsModel, query: &MoveQuery) -> (r: (
    u16,
    SimpleServerResponse,
))
    requires
        old(fs).wf(),
    ensures
        final(fs).wf(),
        r.1.success == (r.0 == 200),
        !(path_ok(state.data_dir@, query.from@, true) && path_ok(state.data_dir@, query.to@, true))
            ==> r.0 == 400 && final(fs)@ == old(fs)@ && r.1.message@ == "Invalid paths"@,
        path_ok(state.data_dir@, query.from@, true) && path_ok(state.data_dir@, query.to@, true)
            ==> {
            let f = spec_resolve(state.data_dir@, query.from@);
            let t = spec_resolve(state.data_dir@, query.to@);
            &&& (r.0 == 200 <==> old(fs).present(f) && !old(fs).present(t) && ((old(fs).dir_at(f)
                && !f.is_prefix_of(t) && old(fs).ancestors_ok(t)) || (old(fs).file_at(f) && old(
                fs,
            ).dir_at(t.drop_last()))))
            &&& (r.0 != 200 ==> final(fs)@ == old(fs)@)
            &&& (!old(fs).present(f) ==> r.0 == 404 && r.1.message@ == "Source file not found"@)
            &&& (old(fs).present(f) && old(fs).present(t) ==> r.0 == 400 && r.1.message@
                == "Destination path already exists"@)
            &&& (r.0 == 200 ==> forall|k: Seq<Seq<char>>| #[trigger]
                old(fs)@.dom().contains(k) ==> final(fs)@.dom().contains(k) && final(fs)@[k] == old(fs)@[k])
            &&& (r.0 == 200 && old(fs).file_at(f) ==> final(fs)@ == old(fs)@.insert(
                t,
                FsNodeView::File(old(fs).file_content(f)),
            ))
            &&& (r.0 == 200 && old(fs).dir_at(f) ==> forall|s: Seq<Seq<char>>| #[trigger]
                old(fs)@.dom().contains(f + s) ==> final(fs)@.dom().contains(t + s) && final(fs)@[t + s] == old(fs)@[f + s])
            &&& (r.0 == 200 && old(fs).dir_at(f) ==> forall|k: Seq<Seq<char>>| #[trigger]
                final(fs)@.dom().contains(k) ==> old(fs)@.dom().contains(k) || (t.is_prefix_of(k)
                    && old(fs)@.dom().contains(f + k.skip(t.len() as int))) || (exists|j: int|
                    1 <= j < t.len() && k == #[trigger] t.take(j)))
        },
{
    let f = match resolve(state.data_dir.as_str(), query.from.as_str(), true) {
        Err(_) => {
            return (400, simple_response(false, "Invalid paths"));
        },
        Ok(p) => p,
    };
    let t = match resolve(state.data_dir.as_str(), query.to.as_str(), true) {
        Err(_) => {
            return (400, simple_response(false, "Invalid paths"));
        },
        Ok(p) => p,
    };
    let from_is_dir = matches!(fs.node_kind(&f), NodeKind::Directory);
    match fs.copy(&f, &t) {
        Ok(()) => {
            let message = if from_is_dir {
                "Directory copied successfully"
            } else {
                "File copied successfully"
            };
            (200, simple_response(true, message))
        },
        Err(e) => {
            let message = match e {
                FsError::NotFound => "Source file not found",
                FsError::AlreadyExists => "Destination path already exists",
                FsError::InvalidSource => "Source is not a file or directory",
                FsError::InvalidPath => "Invalid paths",
                _ => if from_is_dir {
                    "Failed to copy directory"
                } else {
                    "Failed to copy file"
                },
            };
            (e.status(), simple_response(false, message))
        },
    }
}

/// Lists the direct children of a directory.
pub fn ls_dir(state: &ServerState, fs: &FsModel, query: &DirectoryQuery) -> (r: (
    u16,
    LsDirectoryResponse,
))
    requires
        fs.wf(),
    ensures
        r.1.success == (r.0 == 200),
        !spec_contained(state.data_dir@, query.path@) ==> r.0 == 400 && r.1.files@.len() == 0
            && r.1.message@ == "Invalid path"@,
        spec_contained(state.data_dir@, query.path@) ==> {
            let p = spec_resolve(state.data_dir@, query.path@);
            &&& (r.0 == 200 <==> fs.dir_at(p))
            &&& (!fs.present(p) ==> r.0 == 404 && r.1.files@.len() == 0 && r.1.message@
                == "Path not found"@)
            &&& (fs.present(p) && !fs.dir_at(p) ==> r.0 == 404 && r.1.files@.len() == 0
                && r.1.message@ == "Path is not a directory"@)
            &&& (r.0 == 200 ==> r.1.message@ == "Directory listed successfully"@)
            &&& (r.0 == 200 ==> forall|i: int|
                0 <= i < r.1.files@.len() ==> child_info_ok(*fs, p, #[trigger] r.1.files@[i]))
            &&& (r.0 == 200 ==> forall|k: Seq<Seq<char>>|
                #[trigger] fs@.dom().contains(k) && is_child_of(k, p) ==> exists|i: int|
                    0 <= i < r.1.files@.len() && (#[trigger] r.1.files@[i].name@) == k.last())
            &&& (r.0 == 200 ==> forall|i: int, j: int|
                0 <= i < j < r.1.files@.len() ==> (#[trigger] r.1.files@[i].name@) != (
                #[trigger] r.1.files@[j].name@))
        },
{
    let p = match resolve(state.data_dir.as_str(), query.path.as_str(), false) {
        Err(_) => {
            return (
                400,
                LsDirectoryResponse {
                    success: false,
                    message: String::from_str("Invalid path"),
                    files: Vec::new(),
                },
            );
        },
        Ok(p) => p,
    };
    match fs.list(&p) {
        Ok(files) => (
            200,
            LsDirectoryResponse {
                success: true,
                message: String::from_str("Directory listed successfully"),
                files,
            },
        ),
        Err(e) => {
            let message = match e {
                FsError::NotFound => "Path not found",
                _ => "Path is not a directory",
            };
            (
                e.status(),
                LsDirectoryResponse {
                    success: false,
                    message: String::from_str(message),
                    files: Vec::new(),
                },
            )
        },
    }
}

/// Receives an uploaded body into a new file, exclusively created.
pub fn upload_file(
    state: &ServerState,
    fs: &mut FsModel,
    query: &DirectoryQuery,
    body: &UploadBody,
) -> (r: (u16, SimpleServerResponse))
    requires
        old(fs).wf(),
    ensures
        final(fs).wf(),
        r.1.success == (r.0 == 200),
        !path_ok(state.data_dir@, query.path@, true) ==> r.0 == 400 && final(fs)@ == old(fs)@
            && r.1.message@ == "Invalid path"@,
        path_ok(state.data_dir@, query.path@, true) ==> {
            let p = spec_resolve(state.data_dir@, query.path@);
            &&& (r.0 == 200 <==> !old(fs).present(p) && old(fs).dir_at(p.drop_last())
                && !body.truncated)
            &&& (r.0 != 200 ==> final(fs)@ == old(fs)@)
            &&& (old(fs).present(p) ==> r.0 == 400 && r.1.message@ == "File already exists"@)
            &&& (!old(fs).present(p) && !(old(fs).dir_at(p.drop_last()) && !body.truncated)
                ==> r.0 == 500 && r.1.message@ == "Failed to upload file"@)
            &&& (r.0 == 200 ==> final(fs)@ == old(fs)@.insert(
                p,
                FsNodeView::File(concat_chunks(body.chunks.deep_view())),
            ) && r.1.message@ == "File uploaded successfully"@)
        },
{
    let p = match resolve(state.data_dir.as_str(), query.path.as_str(), true) {
        Err(_) => {
            return (400, simple_response(false, "Invalid path"));
        },
        Ok(p) => p,
    };
    match fs.upload(&p, body) {
        Ok(()) => (200, simple_response(true, "File uploaded successfully")),
        Err(e) => {
            let message = match e {
                FsError::AlreadyExists => "File already exists",
                _ => "Failed to upload file",
            };
            (e.status(), simple_response(false, message))
        },
    }
}

/// What a successful download hands to the response writer: the media
/// type guessed from the file name, the disposition header unless the
/// client asked to peek, and the file's bytes as a bounded-chunk stream.
pub struct DownloadPayload {
    pub mime: String,
    pub disposition: Option<String>,
    pub stream: DownloadStream,
}

/// The attachment disposition header for a file name.
fn disposition_header(name: &str) -> (r: String)
    ensures
        r@ == "attachment; filename=\""@ + name@ + "\""@,
{
    let mut r = String::from_str("attachment; filename=\"");
    r.append(name);
    r.append("\"");
    r
}

/// Serves a file for download.
pub fn download_file(state: &ServerState, fs: &FsModel, query: &DownloadDirectoryQuery) -> (r:
    Result<DownloadPayload, (u16, String)>)
    requires
        fs.wf(),
    ensures
        !spec_contained(state.data_dir@, query.path@) ==> (r matches Err(e) && e.0 == 400 && e.1@
            == "Invalid path"@),
        spec_contained(state.data_dir@, query.path@) ==> {
            let p = spec_resolve(state.data_dir@, query.path@);
            &&& (r is Ok <==> fs.file_at(p))
            &&& (r matches Err(e) ==> e.0 == 404 && e.1@ == "File not found"@)
            &&& (r matches Ok(d) ==> {
                &&& concat_chunks(d.stream.chunks.deep_view()) == fs.file_content(p)
                &&& d.mime@ == mime_of(p.last())
                &&& (query.peek == Some(true) ==> d.disposition is None)
                &&& (query.peek != Some(true) ==> (d.disposition matches Some(h) && h@
                    == "attachment; filename=\""@ + p.last() + "\""@))
            })
        },
{
    let p = match resolve(state.data_dir.as_str(), query.path.as_str(), false) {
        Err(_) => {
            return Err((400, String::from_str("Invalid path")));
        },
        Ok(p) => p,
    };
    let stream = match fs.download(&p) {
        Err(_) => {
            return Err((404, String::from_str("File not found")));
        },
        Ok(stream) => stream,
    };
    let name = p.file_name();
    let mime = guess_mime(name.as_str());
    let peek = match query.peek {
        Some(true) => true,
        _ => false,
    };
    let disposition = if peek {
        None
    } else {
        Some(disposition_header(name.as_str()))
    };
    Ok(DownloadPayload { mime, disposition, stream })
}

} // verus!
