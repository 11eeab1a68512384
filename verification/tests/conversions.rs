use fsid::constants::get_file_type_name;
use fsid::is_short_format;
use fsid::metadata::{FileFacts, FileKind, Metadata};
use fsid::{minimal, short, standard};

fn facts(kind: FileKind, mode: u32) -> FileFacts {
    FileFacts { is_symlink: false, metadata: Some(Metadata { kind, mode }) }
}

#[test]
fn decimal_of_bytes() {
    assert_eq!(standard::bytes_to_decimal(b"passwd"), "123563851085668");
    assert_eq!(standard::bytes_to_decimal(&[]), "0");
    assert_eq!(standard::bytes_to_decimal(&[0]), "0");
    assert_eq!(standard::bytes_to_decimal(&[0, 1]), "1");
    assert_eq!(standard::bytes_to_decimal(&[1, 0]), "256");
    assert_eq!(standard::bytes_to_decimal(&[255]), "255");
}

#[test]
fn bytes_of_decimal() {
    assert_eq!(standard::decimal_to_bytes("123563851085668"), b"passwd".to_vec());
    assert_eq!(standard::decimal_to_bytes("0"), Vec::<u8>::new());
    assert_eq!(standard::decimal_to_bytes(""), Vec::<u8>::new());
    assert_eq!(standard::decimal_to_bytes("00"), vec![0u8]);
    assert_eq!(standard::decimal_to_bytes("256"), vec![1u8, 0]);
    assert_eq!(standard::decimal_to_bytes("255"), vec![255u8]);
}

#[test]
fn base36_of_bytes() {
    assert_eq!(short::bytes_to_base36(b"passwd"), "17ssg6m1k4");
    assert_eq!(short::bytes_to_base36(&[]), "0");
    assert_eq!(short::bytes_to_base36(&[0, 0]), "0");
    assert_eq!(short::bytes_to_base36(&[255]), "73");
}

#[test]
fn bytes_of_base36() {
    assert_eq!(short::base36_to_bytes("17ssg6m1k4"), b"passwd".to_vec());
    assert_eq!(short::base36_to_bytes("0"), Vec::<u8>::new());
    assert_eq!(short::base36_to_bytes(""), Vec::<u8>::new());
    assert_eq!(short::base36_to_bytes("00"), vec![0u8]);
    assert_eq!(short::base36_to_bytes("zz"), vec![5u8, 15]);
    assert_eq!(short::base36_to_bytes("73"), vec![255u8]);
}

#[test]
fn check_codes() {
    assert_eq!(standard::calculate_check("0100123563851085668"), "22");
    assert_eq!(standard::calculate_check("0000"), "00");
    assert_eq!(standard::calculate_check("01234567"), "60");
    assert_eq!(standard::calculate_check(""), "00");
    assert_eq!(short::calculate_check("01017ssg6m1k4"), 'm');
    assert_eq!(short::calculate_check("0000"), '0');
}

#[test]
fn prefix_split() {
    assert_eq!(standard::get_prefix_and_remainder("/etc/passwd"), ("01", "passwd"));
    assert_eq!(standard::get_prefix_and_remainder("/usr/bin/ls"), ("19", "ls"));
    assert_eq!(standard::get_prefix_and_remainder("/usr/lsx"), ("03", "lsx"));
    assert_eq!(standard::get_prefix_and_remainder("/x"), ("00", "x"));
    assert_eq!(standard::get_prefix_and_remainder("relative"), ("00", ""));
    assert_eq!(short::get_prefix_and_remainder("/etc/passwd"), ("01", "passwd"));
    assert_eq!(short::get_prefix_and_remainder("/usr/bin/ls"), ("0j", "ls"));
}

#[test]
fn prefix_lookup() {
    assert_eq!(standard::get_prefix_path("01"), Some("/etc/"));
    assert_eq!(standard::get_prefix_path("25"), Some("/var/cache/"));
    assert_eq!(standard::get_prefix_path("26"), None);
    assert_eq!(standard::get_prefix_path("0"), None);
    assert_eq!(short::get_prefix_path("0j"), Some("/usr/bin/"));
    assert_eq!(short::get_prefix_path("0x"), None);
    assert_eq!(minimal::get_prefix_path("00"), Some("/"));
    assert_eq!(minimal::get_prefix_path("ab"), None);
}

#[test]
fn mode_descriptions() {
    assert_eq!(standard::get_mode_description(0), ("-rw-r--r--", 0o644));
    assert_eq!(standard::get_mode_description(8), ("lrwxrwxrwx", 0o777));
    assert_eq!(standard::get_mode_description(9), ("custom", 0));
    assert_eq!(standard::get_mode_description(200), ("custom", 0));
    assert_eq!(minimal::get_mode_description(1), ("-rwxr-xr-x", 0o755));
    assert_eq!(minimal::get_mode_description(9), ("custom", 0));
}

#[test]
fn type_mode_table() {
    assert_eq!(short::get_type_mode_info('0'), (0, 0o644, "file:644"));
    assert_eq!(short::get_type_mode_info('b'), (1, 0o777, "dir:777"));
    assert_eq!(short::get_type_mode_info('z'), (0, 0, "other"));
    assert_eq!(short::get_type_mode_info('x'), (0, 0, "unknown"));
    assert_eq!(get_file_type_name(0), "Regular file");
    assert_eq!(get_file_type_name(5), "Named pipe (FIFO)");
    assert_eq!(get_file_type_name(8), "Unknown");
}

#[test]
fn file_codes() {
    let link = FileFacts { is_symlink: true, metadata: Some(Metadata { kind: FileKind::RegularFile, mode: 0o100644 }) };
    let dangling = FileFacts { is_symlink: true, metadata: None };
    let missing = FileFacts { is_symlink: false, metadata: None };
    assert_eq!(standard::get_file_type_code(&link), 2);
    assert_eq!(standard::get_file_type_code(&facts(FileKind::Directory, 0o40755)), 1);
    assert_eq!(standard::get_file_type_code(&facts(FileKind::CharDevice, 0o20666)), 7);
    assert_eq!(standard::get_file_type_code(&missing), 0);
    assert_eq!(standard::get_mode_code(&facts(FileKind::RegularFile, 0o100664)), 4);
    assert_eq!(standard::get_mode_code(&facts(FileKind::RegularFile, 0o100640)), 9);
    assert_eq!(standard::get_mode_code(&facts(FileKind::Directory, 0o40755)), 6);
    assert_eq!(standard::get_mode_code(&facts(FileKind::Directory, 0o40700)), 7);
    assert_eq!(standard::get_mode_code(&facts(FileKind::Directory, 0o40775)), 9);
    assert_eq!(standard::get_mode_code(&facts(FileKind::Directory, 0o40644)), 9);
    assert_eq!(standard::get_mode_code(&facts(FileKind::RegularFile, 0o100700)), 3);
    assert_eq!(standard::get_mode_code(&facts(FileKind::RegularFile, 0o100777)), 9);
    assert_eq!(standard::get_mode_code(&facts(FileKind::Fifo, 0o10775)), 5);
    assert_eq!(standard::get_mode_code(&link), 8);
    assert_eq!(standard::get_mode_code(&dangling), 8);
    assert_eq!(standard::get_mode_code(&missing), 9);
    assert_eq!(short::get_type_mode_code(&facts(FileKind::Directory, 0o40755)), '8');
    assert_eq!(short::get_type_mode_code(&facts(FileKind::RegularFile, 0o100640)), '0');
    assert_eq!(short::get_type_mode_code(&facts(FileKind::BlockDevice, 0o60660)), 'f');
    assert_eq!(short::get_type_mode_code(&facts(FileKind::Other, 0o777)), '7');
    assert_eq!(short::get_type_mode_code(&dangling), 'c');
    assert_eq!(short::get_type_mode_code(&missing), '0');
}

#[test]
fn format_detection() {
    assert!(is_short_format("01017ssg6m1k4m"));
    assert!(!is_short_format("010012356385108566822"));
    assert!(!is_short_format("01017SSG6M1K4M"));
    assert!(!is_short_format(""));
}
