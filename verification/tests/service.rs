use filedepot::fs_model::FsModel;
use filedepot::handlers::{
    copy, create_dir, delete_dir, delete_file, download_file, ls_dir, move_dir_or_file,
    upload_file,
};
use filedepot::transfer::UploadBody;
use filedepot::types::{DirectoryQuery, DownloadDirectoryQuery, MoveQuery, ServerState};

fn state() -> ServerState {
    ServerState { data_dir: String::from("/data") }
}

fn q(path: &str) -> DirectoryQuery {
    DirectoryQuery { path: String::from(path) }
}

fn mv_q(from: &str, to: &str) -> MoveQuery {
    MoveQuery { from: String::from(from), to: String::from(to) }
}

fn dl_q(path: &str, peek: Option<bool>) -> DownloadDirectoryQuery {
    DownloadDirectoryQuery { path: String::from(path), peek }
}

fn body(bytes: &[u8]) -> UploadBody {
    UploadBody { chunks: vec![bytes.to_vec()], truncated: false }
}

fn joined(chunks: &[Vec<u8>]) -> Vec<u8> {
    let mut out = Vec::new();
    for c in chunks {
        out.extend_from_slice(c);
    }
    out
}

#[test]
fn mkdir_then_ls_empty() {
    let st = state();
    let mut fs = FsModel::new();
    let (code, resp) = create_dir(&st, &mut fs, &q("foo"));
    assert_eq!(code, 200);
    assert!(resp.success);
    assert_eq!(resp.message, "Directory created successfully");
    let (code, resp) = ls_dir(&st, &fs, &q("foo"));
    assert_eq!(code, 200);
    assert!(resp.success);
    assert!(resp.files.is_empty());
    assert_eq!(resp.message, "Directory listed successfully");
}

#[test]
fn mkdir_over_file_is_already_exists() {
    let st = state();
    let mut fs = FsModel::new();
    let (code, _) = upload_file(&st, &mut fs, &q("blob"), &body(b"x"));
    assert_eq!(code, 200);
    let (code, resp) = create_dir(&st, &mut fs, &q("blob"));
    assert_eq!(code, 400);
    assert!(!resp.success);
    assert_eq!(resp.message, "Directory already exists");
}

#[test]
fn mkdir_missing_parent_fails() {
    let st = state();
    let mut fs = FsModel::new();
    let (code, resp) = create_dir(&st, &mut fs, &q("a/b/c"));
    assert_eq!(code, 500);
    assert_eq!(resp.message, "Failed to create directory");
}

#[test]
fn mkdir_escaping_path_rejected() {
    let st = state();
    let mut fs = FsModel::new();
    let (code, resp) = create_dir(&st, &mut fs, &q("../../etc/passwd"));
    assert_eq!(code, 400);
    assert_eq!(resp.message, "Invalid path");
}

#[test]
fn mkdir_root_rejected() {
    let st = state();
    let mut fs = FsModel::new();
    let (code, resp) = create_dir(&st, &mut fs, &q(""));
    assert_eq!(code, 400);
    assert_eq!(resp.message, "Invalid path");
}

#[test]
fn upload_then_download_round_trip() {
    let st = state();
    let mut fs = FsModel::new();
    let payload = UploadBody { chunks: vec![b"hel".to_vec(), b"lo".to_vec()], truncated: false };
    let (code, _) = upload_file(&st, &mut fs, &q("a.txt"), &payload);
    assert_eq!(code, 200);
    let out = download_file(&st, &fs, &dl_q("a.txt", None)).expect("download");
    assert_eq!(joined(&out.stream.chunks), b"hello".to_vec());
    let (code, resp) = ls_dir(&st, &fs, &q(""));
    assert_eq!(code, 200);
    assert_eq!(resp.files.len(), 1);
    assert_eq!(resp.files[0].name, "a.txt");
    assert_eq!(resp.files[0].size, 5);
    assert!(!resp.files[0].is_dir);
}

#[test]
fn truncated_upload_leaves_nothing() {
    let st = state();
    let mut fs = FsModel::new();
    let broken = UploadBody { chunks: vec![b"part".to_vec()], truncated: true };
    let (code, resp) = upload_file(&st, &mut fs, &q("part.bin"), &broken);
    assert_eq!(code, 500);
    assert_eq!(resp.message, "Failed to upload file");
    let err = download_file(&st, &fs, &dl_q("part.bin", None)).err().expect("no file");
    assert_eq!(err.0, 404);
    assert_eq!(err.1, "File not found");
}

#[test]
fn upload_existing_path_is_already_exists() {
    let st = state();
    let mut fs = FsModel::new();
    let (code, _) = upload_file(&st, &mut fs, &q("a"), &body(b"1"));
    assert_eq!(code, 200);
    let (code, resp) = upload_file(&st, &mut fs, &q("a"), &body(b"2"));
    assert_eq!(code, 400);
    assert_eq!(resp.message, "File already exists");
    let out = download_file(&st, &fs, &dl_q("a", None)).expect("download");
    assert_eq!(joined(&out.stream.chunks), b"1".to_vec());
}

#[test]
fn move_to_existing_destination_keeps_source() {
    let st = state();
    let mut fs = FsModel::new();
    upload_file(&st, &mut fs, &q("src.txt"), &body(b"source"));
    upload_file(&st, &mut fs, &q("dst.txt"), &body(b"dest"));
    let (code, resp) = move_dir_or_file(&st, &mut fs, &mv_q("src.txt", "dst.txt"));
    assert_eq!(code, 400);
    assert_eq!(resp.message, "Destination path already exists");
    let out = download_file(&st, &fs, &dl_q("src.txt", None)).expect("source still there");
    assert_eq!(joined(&out.stream.chunks), b"source".to_vec());
    let out = download_file(&st, &fs, &dl_q("dst.txt", None)).expect("dest untouched");
    assert_eq!(joined(&out.stream.chunks), b"dest".to_vec());
}

#[test]
fn move_file_changes_its_place() {
    let st = state();
    let mut fs = FsModel::new();
    upload_file(&st, &mut fs, &q("one.txt"), &body(b"one"));
    let (code, resp) = move_dir_or_file(&st, &mut fs, &mv_q("one.txt", "two.txt"));
    assert_eq!(code, 200);
    assert_eq!(resp.message, "Directory moved successfully");
    assert_eq!(download_file(&st, &fs, &dl_q("one.txt", None)).err().unwrap().0, 404);
    let out = download_file(&st, &fs, &dl_q("two.txt", None)).expect("moved");
    assert_eq!(joined(&out.stream.chunks), b"one".to_vec());
}

#[test]
fn move_missing_source_is_not_found() {
    let st = state();
    let mut fs = FsModel::new();
    let (code, resp) = move_dir_or_file(&st, &mut fs, &mv_q("ghost", "there"));
    assert_eq!(code, 404);
    assert_eq!(resp.message, "Source path not found");
}

#[test]
fn copy_tree_reproduces_structure_and_keeps_source() {
    let st = state();
    let mut fs = FsModel::new();
    create_dir(&st, &mut fs, &q("tree"));
    create_dir(&st, &mut fs, &q("tree/sub"));
    upload_file(&st, &mut fs, &q("tree/a.txt"), &body(b"alpha"));
    upload_file(&st, &mut fs, &q("tree/sub/b.txt"), &body(b"beta"));
    let (code, resp) = copy(&st, &mut fs, &mv_q("tree", "mirror"));
    assert_eq!(code, 200);
    assert_eq!(resp.message, "Directory copied successfully");
    // The destination mirrors the source.
    let out = download_file(&st, &fs, &dl_q("mirror/a.txt", None)).expect("copied file");
    assert_eq!(joined(&out.stream.chunks), b"alpha".to_vec());
    let out = download_file(&st, &fs, &dl_q("mirror/sub/b.txt", None)).expect("deep copy");
    assert_eq!(joined(&out.stream.chunks), b"beta".to_vec());
    let (code, resp) = ls_dir(&st, &fs, &q("mirror"));
    assert_eq!(code, 200);
    let mut names: Vec<String> = resp.files.iter().map(|f| f.name.clone()).collect();
    names.sort();
    assert_eq!(names, vec![String::from("a.txt"), String::from("sub")]);
    // The source is untouched.
    let out = download_file(&st, &fs, &dl_q("tree/sub/b.txt", None)).expect("source intact");
    assert_eq!(joined(&out.stream.chunks), b"beta".to_vec());
}

#[test]
fn copy_file_to_existing_destination_fails() {
    let st = state();
    let mut fs = FsModel::new();
    upload_file(&st, &mut fs, &q("a"), &body(b"a"));
    upload_file(&st, &mut fs, &q("b"), &body(b"b"));
    let (code, resp) = copy(&st, &mut fs, &mv_q("a", "b"));
    assert_eq!(code, 400);
    assert_eq!(resp.message, "Destination path already exists");
}

#[test]
fn copy_missing_source_is_not_found() {
    let st = state();
    let mut fs = FsModel::new();
    let (code, resp) = copy(&st, &mut fs, &mv_q("ghost", "there"));
    assert_eq!(code, 404);
    assert_eq!(resp.message, "Source file not found");
}

#[test]
fn rmdir_removes_whole_tree() {
    let st = state();
    let mut fs = FsModel::new();
    create_dir(&st, &mut fs, &q("d"));
    upload_file(&st, &mut fs, &q("d/f"), &body(b"f"));
    let (code, resp) = delete_dir(&st, &mut fs, &q("d"));
    assert_eq!(code, 200);
    assert_eq!(resp.message, "Directory deleted successfully");
    let (code, _) = ls_dir(&st, &fs, &q("d"));
    assert_eq!(code, 404);
    assert_eq!(download_file(&st, &fs, &dl_q("d/f", None)).err().unwrap().0, 404);
}

#[test]
fn rmdir_on_file_is_not_found() {
    let st = state();
    let mut fs = FsModel::new();
    upload_file(&st, &mut fs, &q("f"), &body(b"f"));
    let (code, resp) = delete_dir(&st, &mut fs, &q("f"));
    assert_eq!(code, 404);
    assert_eq!(resp.message, "Directory not found");
}

#[test]
fn rm_file_and_rm_on_directory() {
    let st = state();
    let mut fs = FsModel::new();
    upload_file(&st, &mut fs, &q("f"), &body(b"f"));
    create_dir(&st, &mut fs, &q("d"));
    let (code, resp) = delete_file(&st, &mut fs, &q("d"));
    assert_eq!(code, 404);
    assert_eq!(resp.message, "File not found");
    let (code, resp) = delete_file(&st, &mut fs, &q("f"));
    assert_eq!(code, 200);
    assert_eq!(resp.message, "File deleted successfully");
    let (code, _) = delete_file(&st, &mut fs, &q("f"));
    assert_eq!(code, 404);
}

#[test]
fn ls_on_file_is_not_a_directory() {
    let st = state();
    let mut fs = FsModel::new();
    upload_file(&st, &mut fs, &q("f"), &body(b"f"));
    let (code, resp) = ls_dir(&st, &fs, &q("f"));
    assert_eq!(code, 404);
    assert_eq!(resp.message, "Path is not a directory");
    assert!(resp.files.is_empty());
}

#[test]
fn ls_missing_is_not_found() {
    let st = state();
    let fs = FsModel::new();
    let (code, resp) = ls_dir(&st, &fs, &q("nowhere"));
    assert_eq!(code, 404);
    assert_eq!(resp.message, "Path not found");
}

#[test]
fn full_scenario_mkdir_upload_ls_download() {
    let st = state();
    let mut fs = FsModel::new();
    let (code, _) = create_dir(&st, &mut fs, &q("foo"));
    assert_eq!(code, 200);
    let (code, _) = upload_file(&st, &mut fs, &q("foo/a.txt"), &body(b"hello"));
    assert_eq!(code, 200);
    let (code, resp) = ls_dir(&st, &fs, &q("foo"));
    assert_eq!(code, 200);
    assert_eq!(resp.files.len(), 1);
    let entry = &resp.files[0];
    assert_eq!(entry.name, "a.txt");
    assert_eq!(entry.size, 5);
    assert!(!entry.is_dir);
    assert_eq!(entry.mime.as_deref(), Some("text/plain"));
    let out = download_file(&st, &fs, &dl_q("foo/a.txt", None)).expect("download");
    assert_eq!(joined(&out.stream.chunks), b"hello".to_vec());
    assert_eq!(out.mime, "text/plain");
    assert_eq!(out.disposition.as_deref(), Some("attachment; filename=\"a.txt\""));
}

#[test]
fn download_peek_omits_disposition() {
    let st = state();
    let mut fs = FsModel::new();
    upload_file(&st, &mut fs, &q("p.txt"), &body(b"p"));
    let out = download_file(&st, &fs, &dl_q("p.txt", Some(true))).expect("download");
    assert!(out.disposition.is_none());
    let out = download_file(&st, &fs, &dl_q("p.txt", Some(false))).expect("download");
    assert_eq!(out.disposition.as_deref(), Some("attachment; filename=\"p.txt\""));
}

#[test]
fn directories_list_without_mime() {
    let st = state();
    let mut fs = FsModel::new();
    create_dir(&st, &mut fs, &q("d"));
    let (code, resp) = ls_dir(&st, &fs, &q(""));
    assert_eq!(code, 200);
    assert_eq!(resp.files.len(), 1);
    assert_eq!(resp.files[0].name, "d");
    assert!(resp.files[0].is_dir);
    assert!(resp.files[0].mime.is_none());
    assert_eq!(resp.files[0].size, 0);
}

#[test]
fn unknown_extension_gets_octet_stream() {
    let st = state();
    let mut fs = FsModel::new();
    upload_file(&st, &mut fs, &q("blob.qqq"), &body(b"?"));
    let out = download_file(&st, &fs, &dl_q("blob.qqq", None)).expect("download");
    assert_eq!(out.mime, "application/octet-stream");
}
