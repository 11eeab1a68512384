use fsid::cli::{from_fsid, is_parsable, parse_fsid, FromError};
use fsid::metadata::{FileFacts, FileKind, Metadata};
use fsid::storage::FsidStorage;
use fsid::{minimal, short, standard};

fn file(kind: FileKind, mode: u32) -> FileFacts {
    FileFacts { is_symlink: false, metadata: Some(Metadata { kind, mode }) }
}

const PATHS: [&str; 7] = [
    "/etc/passwd",
    "/usr/bin/ls",
    "/var/log/pacman.log",
    "/home/user/Documents/notes.txt",
    "/tmp/x y",
    "/srv/données/é.txt",
    "/opt/app/bin/run",
];

#[test]
fn standard_roundtrip_paths() {
    for p in PATHS {
        let f = standard::encode(p, &file(FileKind::RegularFile, 0o100644));
        assert!(standard::validate(&f), "{}", f);
        assert_eq!(standard::decode(&f).as_deref(), Some(p));
        assert_eq!(from_fsid(&f), Ok(p.to_string()));
    }
}

#[test]
fn short_roundtrip_paths() {
    for p in PATHS {
        let f = short::encode(p, &file(FileKind::Directory, 0o40755));
        assert!(short::validate(&f), "{}", f);
        assert_eq!(short::decode(&f).as_deref(), Some(p));
        assert!(short::is_validatable(&f) && short::is_decodable(&f));
    }
}

#[test]
fn checked_encodings_agree() {
    let facts = file(FileKind::RegularFile, 0o100755);
    assert_eq!(standard::encode_checked("/usr/bin/ls", &facts), Some("19012776382".to_string()));
    assert_eq!(short::encode_checked("/usr/bin/ls", &facts), Some("0j1lf7d".to_string()));
}

#[test]
fn minimal_always_valid() {
    for p in PATHS {
        let f = minimal::encode(p, &file(FileKind::RegularFile, 0o100600));
        assert_eq!(f.len(), 13);
        assert!(minimal::validate(&f), "{}", f);
    }
}

#[test]
fn standard_single_digit_errors_caught() {
    let fsid = "010012356385108566822";
    assert!(standard::validate(fsid));
    let bytes = fsid.as_bytes();
    for k in 0..bytes.len() {
        for d in b'0'..=b'9' {
            if d == bytes[k] {
                continue;
            }
            let mut changed = bytes.to_vec();
            changed[k] = d;
            let changed = String::from_utf8(changed).unwrap();
            assert!(!standard::validate(&changed), "{}", changed);
        }
    }
}

fn value36(c: u8) -> i32 {
    if c.is_ascii_digit() {
        (c - b'0') as i32
    } else {
        (c - b'a' + 10) as i32
    }
}

#[test]
fn short_single_char_errors() {
    let fsid = "01017ssg6m1k4m";
    assert!(short::validate(fsid));
    let alphabet = b"0123456789abcdefghijklmnopqrstuvwxyz";
    let bytes = fsid.as_bytes();
    let n = bytes.len();
    for k in 0..n {
        for &c in alphabet.iter() {
            if c == bytes[k] {
                continue;
            }
            let mut changed = bytes.to_vec();
            changed[k] = c;
            let changed = String::from_utf8(changed).unwrap();
            let missed = k < n - 1 && k % 2 == 1 && (value36(c) - value36(bytes[k])) % 12 == 0;
            assert_eq!(short::validate(&changed), missed, "{}", changed);
        }
    }
    assert!(short::validate("0d017ssg6m1k4m"));
    assert!(!short::validate("11017ssg6m1k4m"));
}

#[test]
fn from_reports_each_error() {
    assert_eq!(from_fsid("010012356385108566823"), Err(FromError::InvalidCheck));
    assert_eq!(from_fsid("0100"), Err(FromError::InvalidCheck));
    assert_eq!(from_fsid("01017ssg6m1k4n"), Err(FromError::InvalidCheck));
    assert_eq!(from_fsid("99001234563"), Err(FromError::DecodeFailed));
    assert_eq!(from_fsid("000025522"), Err(FromError::DecodeFailed));
    assert_eq!(from_fsid("0x01u"), Err(FromError::DecodeFailed));
    assert_eq!(from_fsid("00073o"), Err(FromError::DecodeFailed));
    assert_eq!(from_fsid("01017ssg6m1k4m"), Ok("/etc/passwd".to_string()));
}

#[test]
fn decode_rejects() {
    assert_eq!(standard::decode("0100"), None);
    assert_eq!(standard::decode("000025522"), None);
    assert_eq!(short::decode("0x01u"), None);
    assert_eq!(short::decode("00073o"), None);
    assert_eq!(short::decode("0000"), None);
    assert!(!short::validate("0000"));
    assert!(!minimal::validate("010089331601"));
}

#[test]
fn info_of_standard_fsid() {
    let fsid = standard::encode("/etc/passwd", &file(FileKind::RegularFile, 0o100644));
    assert!(is_parsable(&fsid));
    let info = parse_fsid(&fsid).unwrap();
    assert_eq!(info.prefix_code, "01");
    assert_eq!(info.prefix_path, "/etc/");
    assert_eq!(info.file_type_code, 0);
    assert_eq!(info.file_type_name, "Regular file");
    assert_eq!(info.mode_symbolic, "-rw-r--r--");
    assert_eq!(info.mode_octal, 0o644);
    assert_eq!(info.encoded_path, "123563851085668");
    assert_eq!(info.decoded_path, "/etc/passwd");
    assert_eq!(info.check, "22");
    assert!(info.valid);
}

#[test]
fn info_of_odd_fsids() {
    assert!(parse_fsid("0100").is_none());
    assert!(parse_fsid("01x0123456").is_none());
    let info = parse_fsid("99001234563").unwrap();
    assert_eq!(info.prefix_path, "/");
    assert_eq!(info.decoded_path, "(decode error)");
    assert!(info.valid);
    let info = parse_fsid("01091234567").unwrap();
    assert_eq!(info.mode_symbolic, "custom");
    assert_eq!(info.mode_octal, 0);
    assert!(!info.valid);
}

#[test]
fn minimal_parse() {
    let info = minimal::parse("0100893316018").unwrap();
    assert_eq!(info.prefix_code, "01");
    assert_eq!(info.prefix_path, "/etc/");
    assert_eq!(info.file_type_code, 0);
    assert_eq!(info.mode_code, 0);
    assert_eq!(info.mode_symbolic, "-rw-r--r--");
    assert_eq!(info.mode_octal, 0o644);
    assert_eq!(info.hash, "89331601");
    assert_eq!(info.check_digit, '8');
    assert!(info.valid);
    assert!(minimal::parse("01008933160").is_none());
    assert!(minimal::parse("01x0893316018").is_none());
}

#[test]
fn storage_get_after_insert() {
    let mut store = FsidStorage::new();
    assert!(store.get("0100893316018").is_none());
    store.insert("0100893316018".to_string(), "/etc/passwd".to_string());
    store.insert("0j1lf7d".to_string(), "/usr/bin/ls".to_string());
    assert_eq!(store.get("0100893316018").map(|s| s.as_str()), Some("/etc/passwd"));
    store.insert("0100893316018".to_string(), "/etc/shadow".to_string());
    assert_eq!(store.get("0100893316018").map(|s| s.as_str()), Some("/etc/shadow"));
    assert_eq!(store.get("0j1lf7d").map(|s| s.as_str()), Some("/usr/bin/ls"));
    assert_eq!(store.entries().len(), 2);
    let empty = FsidStorage::default();
    assert!(empty.entries().is_empty());
}

#[test]
fn standard_transpositions_caught() {
    for fsid in ["010012356385108566822", "19012776382", "230053070154474625815992304716"] {
        assert!(standard::validate(fsid));
        let bytes = fsid.as_bytes();
        for k in 0..bytes.len() - 1 {
            if bytes[k] == bytes[k + 1] {
                continue;
            }
            let mut swapped = bytes.to_vec();
            swapped.swap(k, k + 1);
            let swapped = String::from_utf8(swapped).unwrap();
            assert!(!standard::validate(&swapped), "{}", swapped);
        }
    }
}

#[test]
fn short_transpositions() {
    for fsid in ["01017ssg6m1k4m", "0n02ef4ljd3yhuunkvba", "0i0i0000"] {
        let bytes = fsid.as_bytes();
        let n = bytes.len();
        for k in 0..n - 2 {
            if bytes[k] == bytes[k + 1] {
                continue;
            }
            let mut swapped = bytes.to_vec();
            swapped.swap(k, k + 1);
            let swapped = String::from_utf8(swapped).unwrap();
            let missed = (value36(bytes[k + 1]) - value36(bytes[k])) % 18 == 0;
            assert_eq!(short::validate(&swapped), short::validate(fsid) && missed, "{}", swapped);
        }
    }
    assert!(short::validate("np4uc"));
    assert!(short::validate("np4cu"));
}

#[test]
fn minimal_single_digit_errors_caught() {
    let fsid = "0100893316018";
    let bytes = fsid.as_bytes();
    for k in 0..bytes.len() {
        for d in b'0'..=b'9' {
            if d == bytes[k] {
                continue;
            }
            let mut changed = bytes.to_vec();
            changed[k] = d;
            let changed = String::from_utf8(changed).unwrap();
            assert!(!minimal::validate(&changed), "{}", changed);
        }
    }
}

#[test]
fn minimal_transpositions() {
    for fsid in ["0100893316018", "0000000050500"] {
        assert!(minimal::validate(fsid), "{}", fsid);
        let bytes = fsid.as_bytes();
        for k in 0..bytes.len() - 1 {
            if bytes[k] == bytes[k + 1] {
                continue;
            }
            let mut swapped = bytes.to_vec();
            swapped.swap(k, k + 1);
            let swapped = String::from_utf8(swapped).unwrap();
            let missed = (bytes[k + 1] as i32 - bytes[k] as i32) % 5 == 0;
            assert_eq!(minimal::validate(&swapped), missed, "{}", swapped);
        }
    }
}

#[test]
fn directory_mode_codes() {
    let home = standard::encode("/home/user", &file(FileKind::Directory, 0o40755));
    assert_eq!(&home[..4], "0516");
    let info = parse_fsid(&home).unwrap();
    assert_eq!(info.file_type_name, "Directory");
    assert_eq!(info.mode_symbolic, "drwxr-xr-x");
    assert_eq!(info.mode_octal, 0o755);
    assert_eq!(info.decoded_path, "/home/user");
    let private = standard::encode("/root/private", &file(FileKind::Directory, 0o40700));
    assert_eq!(&private[..4], "1717");
    assert_eq!(parse_fsid(&private).unwrap().mode_symbolic, "drwx------");
    let tmp = minimal::encode("/tmp", &file(FileKind::Directory, 0o41777));
    assert_eq!(&tmp[..4], "0019");
}

#[test]
fn minimal_and_standard_share_head() {
    for p in PATHS {
        for f in [file(FileKind::RegularFile, 0o100644), file(FileKind::Directory, 0o40700)] {
            let m = minimal::encode(p, &f);
            let s = standard::encode(p, &f);
            assert_eq!(&m[..4], &s[..4]);
        }
    }
}

#[test]
fn standard_short_paths_round_trip() {
    for p in ["/", "/etc/", "/\u{5}", "/usr/bin/\u{1}"] {
        let f = standard::encode(p, &file(FileKind::Directory, 0o40755));
        assert_eq!(f.len(), 7, "{}", f);
        assert!(standard::validate(&f), "{}", f);
        assert_eq!(standard::decode(&f).as_deref(), Some(p));
        assert_eq!(from_fsid(&f), Ok(p.to_string()));
        assert!(parse_fsid(&f).unwrap().valid);
        assert_eq!(parse_fsid(&f).unwrap().decoded_path, p);
    }
}
