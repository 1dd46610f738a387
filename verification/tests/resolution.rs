use filedepot::errors::FsError;
use filedepot::paths::{resolve, to_full_path};

fn segments(root: &str, rel: &str, forbid_root: bool) -> Vec<String> {
    resolve(root, rel, forbid_root).expect("resolves").segments
}

#[test]
fn traversal_above_root_is_rejected() {
    for rel in ["../../etc/passwd", "..", "../", "a/../..", "../../../../../../etc", "a/../../b"] {
        let r = resolve("/data", rel, false);
        assert_eq!(r.err(), Some(FsError::InvalidPath), "path {rel:?} must be rejected");
    }
}

#[test]
fn accepted_paths_stay_under_root() {
    for rel in ["a", "a/b/c", "a/./b", "a/x/../b", "", ".", "a//b", "a/b/"] {
        let p = resolve("/data", rel, false).expect("inside the root");
        let full = to_full_path("/data", &p);
        assert!(
            full == "/data" || full.starts_with("/data/"),
            "resolved {full:?} escapes the root"
        );
    }
}

#[test]
fn normalization_collapses_dots_and_doubled_separators() {
    assert_eq!(segments("/data", "a/./b//c/", false), vec!["a", "b", "c"]);
    assert_eq!(segments("/data", "a/x/../b", false), vec!["a", "b"]);
    assert_eq!(segments("/data", "", false), Vec::<String>::new());
}

#[test]
fn root_is_rejected_for_mutating_operations_only() {
    assert!(resolve("/data", "", false).is_ok());
    assert_eq!(resolve("/data", "", true).err(), Some(FsError::InvalidPath));
    assert_eq!(resolve("/data", ".", true).err(), Some(FsError::InvalidPath));
    assert!(resolve("/data", "a", true).is_ok());
}

#[test]
fn sibling_root_prefix_does_not_leak() {
    // Segment-aware containment: /database is not inside /data.
    let r = resolve("/data", "../database/x", false);
    assert_eq!(r.err(), Some(FsError::InvalidPath));
}

#[test]
fn absolute_client_path_replaces_the_root() {
    // As with a plain path join, an absolute path stands on its own; it is
    // accepted only when it already lies inside the root.
    assert_eq!(segments("/data", "/data/foo", false), vec!["foo"]);
    assert_eq!(resolve("/data", "/etc/passwd", false).err(), Some(FsError::InvalidPath));
}

#[test]
fn escape_and_reenter_resolves_inside() {
    // Lexically the path climbs above the root and comes back down into
    // it; its final resolution is inside, so it is accepted.
    assert_eq!(segments("/data", "../data/ok", false), vec!["ok"]);
}

#[test]
fn full_path_rendering() {
    let p = resolve("/data", "foo/bar", false).expect("resolves");
    assert_eq!(to_full_path("/data", &p), "/data/foo/bar");
    let root = resolve("/data", "", false).expect("resolves");
    assert_eq!(to_full_path("/data", &root), "/data");
}

#[test]
fn error_status_codes() {
    assert_eq!(FsError::InvalidPath.status(), 400);
    assert_eq!(FsError::AlreadyExists.status(), 400);
    assert_eq!(FsError::InvalidSource.status(), 400);
    assert_eq!(FsError::NotFound.status(), 404);
    assert_eq!(FsError::NotADirectory.status(), 404);
    assert_eq!(FsError::NotAFile.status(), 404);
    assert_eq!(FsError::InternalIo.status(), 500);
}
