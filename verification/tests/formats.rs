use fsid::metadata::{FileFacts, FileKind, Metadata};
use fsid::{minimal, short, standard};

fn regular(mode: u32) -> FileFacts {
    FileFacts { is_symlink: false, metadata: Some(Metadata { kind: FileKind::RegularFile, mode }) }
}

fn directory(mode: u32) -> FileFacts {
    FileFacts { is_symlink: false, metadata: Some(Metadata { kind: FileKind::Directory, mode }) }
}

#[test]
fn standard_etc_passwd() {
    assert_eq!(standard::encode("/etc/passwd", &regular(0o100644)), "010012356385108566822");
}

#[test]
fn standard_usr_bin_ls() {
    assert_eq!(standard::encode("/usr/bin/ls", &regular(0o100755)), "19012776382");
}

#[test]
fn standard_pacman_log() {
    assert_eq!(
        standard::encode("/var/log/pacman.log", &regular(0o100644)),
        "230053070154474625815992304716"
    );
}

#[test]
fn standard_decode_examples() {
    assert_eq!(standard::decode("010012356385108566822").as_deref(), Some("/etc/passwd"));
    assert_eq!(standard::decode("19012776382").as_deref(), Some("/usr/bin/ls"));
    assert!(standard::validate("010012356385108566822"));
    assert!(!standard::validate("010012356385108566823"));
}

#[test]
fn short_examples() {
    assert_eq!(short::encode("/etc/passwd", &regular(0o100644)), "01017ssg6m1k4m");
    assert_eq!(short::encode("/usr/bin/ls", &regular(0o100755)), "0j1lf7d");
    assert_eq!(short::encode("/var/log/pacman.log", &regular(0o100644)), "0n02ef4ljd3yhuunkvba");
    assert_eq!(short::encode("/tmp", &directory(0o41777)), "00b4jjhsk");
    assert_eq!(short::decode("01017ssg6m1k4m").as_deref(), Some("/etc/passwd"));
    assert!(short::validate("01017ssg6m1k4m"));
}

#[test]
fn minimal_example() {
    assert_eq!(minimal::encode("/etc/passwd", &regular(0o100644)), "0100893316018");
    assert!(minimal::validate("0100893316018"));
}
