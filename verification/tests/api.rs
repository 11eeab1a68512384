use fsid::metadata::{FileFacts, FileKind, Metadata};
use fsid::storage::FsidStorage;
use fsid::webapi::{
    describe, handle_request, is_minimal_format, octal_string, respond_from, ApiRequest, ApiResponse,
    PathFacts, Step,
};

fn request(action: &str, path: Option<&str>, fsid: Option<&str>, format: Option<&str>) -> ApiRequest {
    ApiRequest {
        action: action.to_string(),
        path: path.map(|s| s.to_string()),
        fsid: fsid.map(|s| s.to_string()),
        format: format.map(|s| s.to_string()),
    }
}

fn etc_passwd() -> PathFacts {
    PathFacts {
        exists: true,
        canonical: "/etc/passwd".to_string(),
        file: FileFacts { is_symlink: false, metadata: Some(Metadata { kind: FileKind::RegularFile, mode: 0o100644 }) },
    }
}

fn reply(step: Step) -> ApiResponse {
    match step {
        Step::Reply(r) => r,
        _ => panic!("expected a reply"),
    }
}

fn error_of(resp: &ApiResponse) -> Option<&str> {
    assert!(!resp.success);
    assert!(resp.fsid.is_none() && resp.path.is_none() && resp.info.is_none() && resp.list.is_none());
    resp.error.as_deref()
}

fn path_of(resp: &ApiResponse) -> Option<&str> {
    assert!(resp.success);
    assert!(resp.fsid.is_none() && resp.info.is_none() && resp.list.is_none() && resp.error.is_none());
    resp.path.as_deref()
}

fn to_request(store: &mut FsidStorage, path: &str, format: Option<&str>, facts: &PathFacts) -> ApiResponse {
    let req = request("to", Some(path), None, format);
    match handle_request(&req, store, None) {
        Step::InspectPath(p) => assert_eq!(p, path),
        _ => panic!("expected the path to be inspected"),
    }
    match handle_request(&req, store, Some(facts)) {
        Step::SaveAndReply(r) => r,
        _ => panic!("expected a reply to save"),
    }
}

#[test]
fn to_then_from_each_format() {
    let expected = [
        (None, "010012356385108566822"),
        (Some("standard"), "010012356385108566822"),
        (Some("short"), "01017ssg6m1k4m"),
        (Some("min"), "0100893316018"),
        (Some("minimal"), "0100893316018"),
        (Some("other"), "010012356385108566822"),
    ];
    for (format, fsid) in expected {
        let mut store = FsidStorage::new();
        let resp = to_request(&mut store, "/etc/passwd", format, &etc_passwd());
        assert!(resp.success);
        assert_eq!(resp.fsid.as_deref(), Some(fsid));
        assert_eq!(store.get(fsid).map(|s| s.as_str()), Some("/etc/passwd"));
        let from = reply(handle_request(&request("from", None, Some(fsid), None), &mut store, None));
        assert_eq!(path_of(&from), Some("/etc/passwd"));
    }
}

#[test]
fn to_stores_canonical_path() {
    let mut store = FsidStorage::new();
    let facts = PathFacts { canonical: "/usr/bin/ls".to_string(), ..etc_passwd() };
    let resp = to_request(&mut store, "ls", Some("min"), &facts);
    let fsid = resp.fsid.unwrap();
    assert_eq!(store.get(&fsid).map(|s| s.as_str()), Some("/usr/bin/ls"));
}

#[test]
fn to_missing_path() {
    let mut store = FsidStorage::new();
    let facts = PathFacts { exists: false, ..etc_passwd() };
    let req = request("to", Some("/nope"), None, None);
    let resp = reply(handle_request(&req, &mut store, Some(&facts)));
    assert_eq!(error_of(&resp), Some("Path does not exist: /nope"));
    assert!(store.entries().is_empty());
}

#[test]
fn missing_fields() {
    let mut store = FsidStorage::new();
    let resp = reply(handle_request(&request("to", None, None, None), &mut store, None));
    assert_eq!(error_of(&resp), Some("Missing 'path' field"));
    let resp = reply(handle_request(&request("from", None, None, None), &mut store, None));
    assert_eq!(error_of(&resp), Some("Missing 'fsid' field"));
    let resp = reply(handle_request(&request("info", None, None, None), &mut store, None));
    assert_eq!(error_of(&resp), Some("Missing 'fsid' field"));
}

#[test]
fn unknown_action() {
    let mut store = FsidStorage::new();
    let resp = reply(handle_request(&request("delete", None, None, None), &mut store, None));
    assert_eq!(error_of(&resp), Some("Unknown action: delete"));
}

#[test]
fn from_without_storage() {
    let mut store = FsidStorage::new();
    let resp = reply(handle_request(&request("from", None, Some("010012356385108566822"), None), &mut store, None));
    assert_eq!(path_of(&resp), Some("/etc/passwd"));
    let resp = reply(handle_request(&request("from", None, Some("01017ssg6m1k4m"), None), &mut store, None));
    assert_eq!(path_of(&resp), Some("/etc/passwd"));
    let resp = reply(handle_request(&request("from", None, Some("01017SSG6M1K4M"), None), &mut store, None));
    assert_eq!(path_of(&resp), Some("/etc/passwd"));
    let resp = reply(handle_request(&request("from", None, Some("0100893316018"), None), &mut store, None));
    assert_eq!(error_of(&resp), Some("Failed to decode FSID"));
    let resp = reply(handle_request(&request("from", None, Some("99001234563"), None), &mut store, None));
    assert_eq!(error_of(&resp), Some("Failed to decode FSID"));
}

#[test]
fn from_prefers_storage() {
    let mut store = FsidStorage::new();
    store.insert("abc".to_string(), "/stored/lower".to_string());
    store.insert("ABD".to_string(), "/stored/upper".to_string());
    let resp = respond_from("ABC", "abc", &store);
    assert_eq!(path_of(&resp), Some("/stored/lower"));
    let resp = respond_from("ABD", "abd", &store);
    assert_eq!(path_of(&resp), Some("/stored/upper"));
    let resp = reply(handle_request(&request("from", None, Some("ABC"), None), &mut store, None));
    assert_eq!(path_of(&resp), Some("/stored/lower"));
}

#[test]
fn info_of_each_format() {
    let mut store = FsidStorage::new();
    store.insert("0100893316018".to_string(), "/etc/passwd".to_string());
    let resp = reply(handle_request(&request("info", None, Some("0100893316018"), None), &mut store, None));
    assert!(resp.success && resp.error.is_none());
    let info = resp.info.unwrap();
    assert_eq!(info.fsid, "0100893316018");
    assert_eq!(info.format, "minimal");
    assert_eq!(info.prefix, "/etc/");
    assert_eq!(info.prefix_code, "01");
    assert_eq!(info.file_type, "Regular file");
    assert_eq!(info.mode, "-rw-r--r-- (644)");
    assert!(info.valid);
    assert_eq!(info.path.as_deref(), Some("/etc/passwd"));

    let info = describe("010012356385108566822", "010012356385108566822", &store).unwrap();
    assert_eq!(info.format, "standard");
    assert_eq!(info.prefix, "/etc/");
    assert_eq!(info.prefix_code, "01");
    assert_eq!(info.file_type, "Regular file");
    assert_eq!(info.mode, "-rw-r--r-- (644)");
    assert!(info.valid);
    assert_eq!(info.path.as_deref(), Some("/etc/passwd"));

    let resp = reply(handle_request(&request("info", None, Some("01017SSG6M1K4M"), None), &mut store, None));
    let info = resp.info.unwrap();
    assert_eq!(info.fsid, "01017ssg6m1k4m");
    assert_eq!(info.format, "short");
    assert_eq!(info.prefix, "/etc/");
    assert_eq!(info.prefix_code, "01");
    assert_eq!(info.file_type, "Regular file");
    assert_eq!(info.mode, "644");
    assert!(info.valid);
    assert_eq!(info.path.as_deref(), Some("/etc/passwd"));
}

#[test]
fn info_of_unknown_codes() {
    let store = FsidStorage::new();
    let info = describe("99931234563", "99931234563", &store).unwrap();
    assert_eq!(info.prefix, "/");
    assert_eq!(info.file_type, "Unknown");
    assert_eq!(info.mode, "-rwx------ (700)");
    assert!(!info.valid);
    assert_eq!(info.path, None);
    let info = describe("1176123400", "1176123400", &store).unwrap();
    assert_eq!(info.prefix, "/dev/");
    assert_eq!(info.file_type, "Character device");
    assert_eq!(info.mode, "drwxr-xr-x (755)");
    assert!(!info.valid);
    assert_eq!(info.path, None);
    let info = describe("1176123451", "1176123451", &store).unwrap();
    assert!(info.valid);
    assert_eq!(info.path, None);
    let info = describe("01x9", "01x9", &store).unwrap();
    assert_eq!(info.format, "short");
    assert_eq!(info.file_type, "Regular file");
    assert_eq!(info.mode, "0");
    assert!(!info.valid);
    let info = describe("01ab", "01ab", &store);
    assert!(info.is_some());
}

#[test]
fn list_of_mappings() {
    let mut store = FsidStorage::new();
    let resp = reply(handle_request(&request("list", None, None, None), &mut store, None));
    assert!(resp.success);
    assert_eq!(resp.list.as_ref().map(|l| l.len()), Some(0));
    to_request(&mut store, "/etc/passwd", Some("min"), &etc_passwd());
    to_request(&mut store, "/etc/passwd", Some("short"), &etc_passwd());
    to_request(&mut store, "/etc/passwd", Some("min"), &etc_passwd());
    let resp = reply(handle_request(&request("list", None, None, None), &mut store, None));
    let list = resp.list.unwrap();
    assert_eq!(list.len(), 2);
    assert!(list.iter().any(|e| e.fsid == "0100893316018" && e.path == "/etc/passwd"));
    assert!(list.iter().any(|e| e.fsid == "01017ssg6m1k4m" && e.path == "/etc/passwd"));
}

#[test]
fn minimal_detection_and_octal() {
    assert!(is_minimal_format("0100893316018"));
    assert!(!is_minimal_format("010089331601"));
    assert!(!is_minimal_format("01008933160a8"));
    assert_eq!(octal_string(0), "0");
    assert_eq!(octal_string(0o755), "755");
    assert_eq!(octal_string(8), "10");
}

#[test]
fn malformed_fsids_get_error_replies() {
    let mut store = FsidStorage::new();
    for fsid in ["01", "a", "0100-/..00", "0é"] {
        let resp = reply(handle_request(&request("info", None, Some(fsid), None), &mut store, None));
        assert_eq!(error_of(&resp), Some("Invalid FSID format"), "{}", fsid);
    }
    for fsid in ["0100-/..00", "01", "aéxyz", "0é0"] {
        let resp = reply(handle_request(&request("from", None, Some(fsid), None), &mut store, None));
        assert_eq!(error_of(&resp), Some("Failed to decode FSID"), "{}", fsid);
    }
}

#[test]
fn root_round_trip_through_api() {
    let mut store = FsidStorage::new();
    let root = PathFacts {
        exists: true,
        canonical: "/".to_string(),
        file: FileFacts { is_symlink: false, metadata: Some(Metadata { kind: FileKind::Directory, mode: 0o40755 }) },
    };
    let resp = to_request(&mut store, "/", None, &root);
    let fsid = resp.fsid.unwrap();
    assert_eq!(fsid.len(), 7);
    let mut empty = FsidStorage::new();
    let from = reply(handle_request(&request("from", None, Some(&fsid), None), &mut empty, None));
    assert_eq!(path_of(&from), Some("/"));
}
