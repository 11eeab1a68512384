//! The tables of the FSID formats: directory prefixes, permission modes,
//! combined type and mode codes, file type names and the base36 alphabet.

use vstd::prelude::*;
use vstd::string::*;
use vstd::utf8::{encode_utf8_valid_utf8, is_ascii_chars};
use crate::text::{all_ascii, ascii_chars, str_slice};

verus! {

/// Entries of the standard prefix table (codes `00` to `25`).
pub const STD_PREFIX_COUNT: usize = 26;

/// Entries of the short prefix table (codes `00` to `0v`).
pub const SHORT_PREFIX_COUNT: usize = 32;

/// Entries of the permission mode table (codes `0` to `8`).
pub const MODE_COUNT: usize = 9;

/// Rows of the mode table for files that are neither directories nor links.
pub const FILE_MODE_COUNT: usize = 6;

/// Entries of the combined type and mode table.
pub const TYPE_MODE_COUNT: usize = 18;

/// The base36 digit (`0-9`, `a-z`) for a value below 36.
pub open spec fn base36_digit(v: int) -> u8 {
    if v < 10 {
        (48 + v) as u8
    } else {
        (97 + v - 10) as u8
    }
}

/// The value of a base36 character: a digit or lowercase letter gives its
/// place in the alphabet, any other byte gives zero.
pub open spec fn base36_value(b: u8) -> u8 {
    if 48 <= b <= 57 {
        (b - 48) as u8
    } else if 97 <= b <= 122 {
        (b - 97 + 10) as u8
    } else {
        0
    }
}

/// The base36 digit for a value below 36.
pub fn base36_char(v: u8) -> (r: u8)
    requires
        v < 36,
    ensures
        r == base36_digit(v as int),
        r < 128,
        base36_value(r) == v,
{
    if v < 10 {
        48 + v
    } else {
        97 + v - 10
    }
}

/// The value of a base36 character.
pub fn base36_value_of(b: u8) -> (r: u8)
    ensures
        r == base36_value(b),
        r < 36,
{
    if 48 <= b && b <= 57 {
        b - 48
    } else if 97 <= b && b <= 122 {
        b - 97 + 10
    } else {
        0
    }
}

/// The code of entry `i` of the standard prefix table: `i` in two decimal digits.
pub open spec fn std_code(i: int) -> Seq<u8> {
    seq![(48 + i / 10) as u8, (48 + i % 10) as u8]
}

/// The code of entry `i` of the short prefix table: `0` and the base36 digit of `i`.
pub open spec fn short_code(i: int) -> Seq<u8> {
    seq![48u8, base36_digit(i)]
}

/// The directory of entry `i` of the prefix tables. Both tables list the same
/// directories; the short table has six more.
pub open spec fn prefix_path(i: int) -> Seq<char> {
    if i == 0 {
        "/"@
    } else if i == 1 {
        "/etc/"@
    } else if i == 2 {
        "/bin/"@
    } else if i == 3 {
        "/usr/"@
    } else if i == 4 {
        "/var/"@
    } else if i == 5 {
        "/home/"@
    } else if i == 6 {
        "/tmp/"@
    } else if i == 7 {
        "/opt/"@
    } else if i == 8 {
        "/lib/"@
    } else if i == 9 {
        "/srv/"@
    } else if i == 10 {
        "/boot/"@
    } else if i == 11 {
        "/dev/"@
    } else if i == 12 {
        "/proc/"@
    } else if i == 13 {
        "/sys/"@
    } else if i == 14 {
        "/run/"@
    } else if i == 15 {
        "/mnt/"@
    } else if i == 16 {
        "/media/"@
    } else if i == 17 {
        "/root/"@
    } else if i == 18 {
        "/sbin/"@
    } else if i == 19 {
        "/usr/bin/"@
    } else if i == 20 {
        "/usr/lib/"@
    } else if i == 21 {
        "/usr/share/"@
    } else if i == 22 {
        "/usr/local/"@
    } else if i == 23 {
        "/var/log/"@
    } else if i == 24 {
        "/var/lib/"@
    } else if i == 25 {
        "/var/cache/"@
    } else if i == 26 {
        "/usr/lib64/"@
    } else if i == 27 {
        "/usr/include/"@
    } else if i == 28 {
        "/var/run/"@
    } else if i == 29 {
        "/var/tmp/"@
    } else if i == 30 {
        "/usr/local/bin/"@
    } else if i == 31 {
        "/usr/local/lib/"@
    } else {
        Seq::empty()
    }
}

/// The directory of entry `i` of the prefix tables.
pub fn prefix_path_at(i: usize) -> (r: &'static str)
    requires
        i < SHORT_PREFIX_COUNT,
    ensures
        r@ == prefix_path(i as int),
{
    match i {
        0 => "/",
        1 => "/etc/",
        2 => "/bin/",
        3 => "/usr/",
        4 => "/var/",
        5 => "/home/",
        6 => "/tmp/",
        7 => "/opt/",
        8 => "/lib/",
        9 => "/srv/",
        10 => "/boot/",
        11 => "/dev/",
        12 => "/proc/",
        13 => "/sys/",
        14 => "/run/",
        15 => "/mnt/",
        16 => "/media/",
        17 => "/root/",
        18 => "/sbin/",
        19 => "/usr/bin/",
        20 => "/usr/lib/",
        21 => "/usr/share/",
        22 => "/usr/local/",
        23 => "/var/log/",
        24 => "/var/lib/",
        25 => "/var/cache/",
        26 => "/usr/lib64/",
        27 => "/usr/include/",
        28 => "/var/run/",
        29 => "/var/tmp/",
        30 => "/usr/local/bin/",
        _ => "/usr/local/lib/",
    }
}

/// The two characters at position `2 * i` of an ASCII table text.
fn pair_at(table: &'static str, i: usize) -> (r: &'static str)
    requires
        is_ascii_chars(table@),
        2 * i + 2 <= table@.len(),
    ensures
        r@ == table@.subrange(2 * i as int, 2 * i + 2),
{
    broadcast use vstd::string::group_string_axioms;

    let ghost b = table.spec_bytes();
    proof {
        is_ascii_spec_bytes(table);
    }
    let n = table.as_bytes().len();
    assert(2 * i + 2 <= n);
    proof {
        encode_utf8_valid_utf8(table@);
        crate::text::lemma_boundary(b, 2 * i as int);
        crate::text::lemma_boundary(b, 2 * i + 2);
        let sub = b.subrange(2 * i as int, 2 * i + 2);
        assert(all_ascii(sub));
        crate::text::lemma_ascii_bytes(sub);
        assert(ascii_chars(sub) =~= table@.subrange(2 * i as int, 2 * i + 2));
    }
    str_slice(table, 2 * i, 2 * i + 2)
}

/// The code of entry `i` of the standard prefix table.
pub fn std_code_at(i: usize) -> (r: &'static str)
    requires
        i < STD_PREFIX_COUNT,
    ensures
        r@ == ascii_chars(std_code(i as int)),
        all_ascii(std_code(i as int)),
{
    let codes = "0001020304050607080910111213141516171819202122232425";
    proof {
        reveal_strlit("0001020304050607080910111213141516171819202122232425");
        assert(codes@.subrange(2 * i as int, 2 * i + 2) =~= ascii_chars(std_code(i as int)));
    }
    pair_at(codes, i)
}

/// The code of entry `i` of the short prefix table.
pub fn short_code_at(i: usize) -> (r: &'static str)
    requires
        i < SHORT_PREFIX_COUNT,
    ensures
        r@ == ascii_chars(short_code(i as int)),
        all_ascii(short_code(i as int)),
{
    let codes = "000102030405060708090a0b0c0d0e0f0g0h0i0j0k0l0m0n0o0p0q0r0s0t0u0v";
    proof {
        reveal_strlit("000102030405060708090a0b0c0d0e0f0g0h0i0j0k0l0m0n0o0p0q0r0s0t0u0v");
        assert(codes@.subrange(2 * i as int, 2 * i + 2) =~= ascii_chars(short_code(i as int)));
    }
    pair_at(codes, i)
}

/// The octal permissions of mode code `code` (below 9).
pub open spec fn mode_octal(code: int) -> u32 {
    if code == 0 {
        0o644
    } else if code == 1 {
        0o755
    } else if code == 2 {
        0o600
    } else if code == 3 {
        0o700
    } else if code == 4 {
        0o664
    } else if code == 5 {
        0o775
    } else if code == 6 {
        0o755
    } else if code == 7 {
        0o700
    } else if code == 8 {
        0o777
    } else {
        0
    }
}

/// The symbolic permissions of mode code `code` (below 9).
pub open spec fn mode_symbolic(code: int) -> Seq<char> {
    if code == 0 {
        "-rw-r--r--"@
    } else if code == 1 {
        "-rwxr-xr-x"@
    } else if code == 2 {
        "-rw-------"@
    } else if code == 3 {
        "-rwx------"@
    } else if code == 4 {
        "-rw-rw-r--"@
    } else if code == 5 {
        "-rwxrwxr-x"@
    } else if code == 6 {
        "drwxr-xr-x"@
    } else if code == 7 {
        "drwx------"@
    } else if code == 8 {
        "lrwxrwxrwx"@
    } else {
        Seq::empty()
    }
}

/// Entry `code` of the permission mode table: its octal and symbolic forms.
pub fn mode_entry(code: usize) -> (r: (u32, &'static str))
    requires
        code < MODE_COUNT,
    ensures
        r.0 == mode_octal(code as int),
        r.1@ == mode_symbolic(code as int),
{
    match code {
        0 => (0o644, "-rw-r--r--"),
        1 => (0o755, "-rwxr-xr-x"),
        2 => (0o600, "-rw-------"),
        3 => (0o700, "-rwx------"),
        4 => (0o664, "-rw-rw-r--"),
        5 => (0o775, "-rwxrwxr-x"),
        6 => (0o755, "drwxr-xr-x"),
        7 => (0o700, "drwx------"),
        _ => (0o777, "lrwxrwxrwx"),
    }
}

/// The character of entry `i` of the combined type and mode table.
pub open spec fn tm_code(i: int) -> char {
    if i == 0 {
        '0'
    } else if i == 1 {
        '1'
    } else if i == 2 {
        '2'
    } else if i == 3 {
        '3'
    } else if i == 4 {
        '4'
    } else if i == 5 {
        '5'
    } else if i == 6 {
        '6'
    } else if i == 7 {
        '7'
    } else if i == 8 {
        '8'
    } else if i == 9 {
        '9'
    } else if i == 10 {
        'a'
    } else if i == 11 {
        'b'
    } else if i == 12 {
        'c'
    } else if i == 13 {
        'd'
    } else if i == 14 {
        'e'
    } else if i == 15 {
        'f'
    } else if i == 16 {
        'g'
    } else if i == 17 {
        'z'
    } else {
        '?'
    }
}

/// The file type code of entry `i` of the combined type and mode table.
pub open spec fn tm_type(i: int) -> u8 {
    if i == 0 {
        0
    } else if i == 1 {
        0
    } else if i == 2 {
        0
    } else if i == 3 {
        0
    } else if i == 4 {
        0
    } else if i == 5 {
        0
    } else if i == 6 {
        0
    } else if i == 7 {
        0
    } else if i == 8 {
        1
    } else if i == 9 {
        1
    } else if i == 10 {
        1
    } else if i == 11 {
        1
    } else if i == 12 {
        2
    } else if i == 13 {
        4
    } else if i == 14 {
        5
    } else if i == 15 {
        6
    } else if i == 16 {
        7
    } else if i == 17 {
        0
    } else {
        0
    }
}

/// The octal permissions of entry `i` of the combined type and mode table.
pub open spec fn tm_mode(i: int) -> u32 {
    if i == 0 {
        0o644
    } else if i == 1 {
        0o755
    } else if i == 2 {
        0o600
    } else if i == 3 {
        0o700
    } else if i == 4 {
        0o664
    } else if i == 5 {
        0o775
    } else if i == 6 {
        0o666
    } else if i == 7 {
        0o777
    } else if i == 8 {
        0o755
    } else if i == 9 {
        0o700
    } else if i == 10 {
        0o775
    } else if i == 11 {
        0o777
    } else if i == 12 {
        0o777
    } else if i == 13 {
        0o755
    } else if i == 14 {
        0o644
    } else if i == 15 {
        0o660
    } else if i == 16 {
        0o666
    } else if i == 17 {
        0o0
    } else {
        0
    }
}

/// The description of entry `i` of the combined type and mode table.
pub open spec fn tm_desc(i: int) -> Seq<char> {
    if i == 0 {
        "file:644"@
    } else if i == 1 {
        "file:755"@
    } else if i == 2 {
        "file:600"@
    } else if i == 3 {
        "file:700"@
    } else if i == 4 {
        "file:664"@
    } else if i == 5 {
        "file:775"@
    } else if i == 6 {
        "file:666"@
    } else if i == 7 {
        "file:777"@
    } else if i == 8 {
        "dir:755"@
    } else if i == 9 {
        "dir:700"@
    } else if i == 10 {
        "dir:775"@
    } else if i == 11 {
        "dir:777"@
    } else if i == 12 {
        "symlink"@
    } else if i == 13 {
        "socket"@
    } else if i == 14 {
        "fifo"@
    } else if i == 15 {
        "block"@
    } else if i == 16 {
        "char"@
    } else if i == 17 {
        "other"@
    } else {
        Seq::empty()
    }
}

/// Entry `i` of the combined type and mode table.
pub fn type_mode_entry(i: usize) -> (r: (char, u8, u32, &'static str))
    requires
        i < TYPE_MODE_COUNT,
    ensures
        r.0 == tm_code(i as int),
        r.1 == tm_type(i as int),
        r.2 == tm_mode(i as int),
        r.3@ == tm_desc(i as int),
{
    match i {
        0 => ('0', 0, 0o644, "file:644"),
        1 => ('1', 0, 0o755, "file:755"),
        2 => ('2', 0, 0o600, "file:600"),
        3 => ('3', 0, 0o700, "file:700"),
        4 => ('4', 0, 0o664, "file:664"),
        5 => ('5', 0, 0o775, "file:775"),
        6 => ('6', 0, 0o666, "file:666"),
        7 => ('7', 0, 0o777, "file:777"),
        8 => ('8', 1, 0o755, "dir:755"),
        9 => ('9', 1, 0o700, "dir:700"),
        10 => ('a', 1, 0o775, "dir:775"),
        11 => ('b', 1, 0o777, "dir:777"),
        12 => ('c', 2, 0o777, "symlink"),
        13 => ('d', 4, 0o755, "socket"),
        14 => ('e', 5, 0o644, "fifo"),
        15 => ('f', 6, 0o660, "block"),
        16 => ('g', 7, 0o666, "char"),
        _ => ('z', 0, 0o0, "other"),
    }
}

/// The name of file type code `code`.
pub open spec fn file_type_name(code: u8) -> Seq<char> {
    if code == 0 {
        "Regular file"@
    } else if code == 1 {
        "Directory"@
    } else if code == 2 {
        "Symbolic link"@
    } else if code == 3 {
        "Hard link"@
    } else if code == 4 {
        "Socket"@
    } else if code == 5 {
        "Named pipe (FIFO)"@
    } else if code == 6 {
        "Block device"@
    } else if code == 7 {
        "Character device"@
    } else {
        "Unknown"@
    }
}

/// Get file type name from code
pub fn get_file_type_name(code: u8) -> (r: &'static str)
    ensures
        r@ == file_type_name(code),
{
    match code {
        0 => "Regular file",
        1 => "Directory",
        2 => "Symbolic link",
        3 => "Hard link",
        4 => "Socket",
        5 => "Named pipe (FIFO)",
        6 => "Block device",
        7 => "Character device",
        _ => "Unknown",
    }
}

} // verus!
