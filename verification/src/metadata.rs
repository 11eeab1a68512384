//! What the formats record of a file: its type and permission bits, as plain
//! facts gathered from the file system, and the codes derived from them.

use vstd::prelude::*;
use crate::constants::{mode_octal, tm_code, tm_mode, tm_type, type_mode_entry, TYPE_MODE_COUNT};

verus! {

/// The kind of a file, as its metadata reports it (symbolic links followed).
#[derive(Clone, Copy, Debug, PartialEq, Eq, Structural)]
pub enum FileKind {
    Directory,
    RegularFile,
    Socket,
    Fifo,
    BlockDevice,
    CharDevice,
    Other,
}

/// The metadata of a file: its kind and its mode bits.
#[derive(Clone, Copy, Debug, PartialEq, Eq, Structural)]
pub struct Metadata {
    pub kind: FileKind,
    pub mode: u32,
}

/// What the file system says of a path: whether the path itself is a symbolic
/// link, and the metadata of the file it leads to, if that could be read.
#[derive(Clone, Copy, Debug, PartialEq, Eq, Structural)]
pub struct FileFacts {
    pub is_symlink: bool,
    pub metadata: Option<Metadata>,
}

/// The file type code of a kind of file.
pub open spec fn kind_code(kind: FileKind) -> u8 {
    match kind {
        FileKind::Directory => 1,
        FileKind::RegularFile => 0,
        FileKind::Socket => 4,
        FileKind::Fifo => 5,
        FileKind::BlockDevice => 6,
        FileKind::CharDevice => 7,
        FileKind::Other => 0,
    }
}

/// The file type code of a path: 2 for a symbolic link, else the code of the
/// kind of its file, 0 when its metadata is unreadable.
pub open spec fn file_type_code(facts: FileFacts) -> u8 {
    if facts.is_symlink {
        2
    } else {
        match facts.metadata {
            Some(m) => kind_code(m.kind),
            None => 0,
        }
    }
}

/// The first code from `c` on among the rows of the mode table for plain
/// files (codes 0 to 5) with permissions `perm`, or 9 when none has them.
pub open spec fn first_mode_from(perm: u32, c: int) -> int
    decreases 6 - c,
{
    if c >= 6 {
        9
    } else if mode_octal(c) == perm {
        c
    } else {
        first_mode_from(perm, c + 1)
    }
}

/// The search for a mode code ends at 9 at the latest.
pub proof fn lemma_first_mode_bound(perm: u32, c: int)
    ensures
        first_mode_from(perm, c) <= 9,
        c <= 9 ==> c <= first_mode_from(perm, c),
    decreases 6 - c,
{
    if c < 6 {
        lemma_first_mode_bound(perm, c + 1);
    }
}

/// The mode code of a directory with permissions `perm`: 6 (`drwxr-xr-x`),
/// 7 (`drwx------`), or 9 when neither fits.
pub open spec fn dir_mode_code(perm: u32) -> u8 {
    if perm == mode_octal(6) {
        6
    } else if perm == mode_octal(7) {
        7
    } else {
        9
    }
}

/// The mode code of a path, chosen by its file type and permission bits:
/// 8 (`lrwxrwxrwx`) for a symbolic link, the directory rows 6 and 7 for a
/// directory, the rows 0 to 5 for any other file, and 9 when no row fits or
/// the metadata is unreadable.
pub open spec fn mode_code(facts: FileFacts) -> u8 {
    if facts.is_symlink {
        8
    } else {
        match facts.metadata {
            Some(m) => if m.kind is Directory {
                dir_mode_code(m.mode & 0o777)
            } else {
                first_mode_from(m.mode & 0o777, 0) as u8
            },
            None => 9,
        }
    }
}

/// The first entry from `i` on in the type and mode table with type `t` and
/// permissions `perm`, or 18 when none.
pub open spec fn first_type_mode_from(t: u8, perm: u32, i: int) -> int
    decreases 18 - i,
{
    if i >= 18 {
        18
    } else if tm_type(i) == t && tm_mode(i) == perm {
        i
    } else {
        first_type_mode_from(t, perm, i + 1)
    }
}

/// The first entry from `i` on in the type and mode table with type `t`, or 18.
pub open spec fn first_type_from(t: u8, i: int) -> int
    decreases 18 - i,
{
    if i >= 18 {
        18
    } else if tm_type(i) == t {
        i
    } else {
        first_type_from(t, i + 1)
    }
}

/// The type and permissions that the short format records of a path: those of
/// its file (type 2 for a symbolic link), or when the metadata is unreadable,
/// 2 and 0o777 for a symbolic link and 0 and 0o644 for anything else.
pub open spec fn type_and_permissions(facts: FileFacts) -> (u8, u32) {
    match facts.metadata {
        Some(m) => (
            if facts.is_symlink {
                2
            } else {
                kind_code(m.kind)
            },
            m.mode & 0o777,
        ),
        None => if facts.is_symlink {
            (2, 0o777)
        } else {
            (0, 0o644)
        },
    }
}

/// The type and mode character of a type and permissions: the entry with both,
/// else the first entry with the type, else `z`.
pub open spec fn type_mode_char(t: u8, perm: u32) -> char {
    let exact = first_type_mode_from(t, perm, 0);
    let by_type = first_type_from(t, 0);
    if exact < 18 {
        tm_code(exact)
    } else if by_type < 18 {
        tm_code(by_type)
    } else {
        'z'
    }
}

/// The type and mode character of a path in the short format.
pub open spec fn type_mode_code(facts: FileFacts) -> char {
    type_mode_char(type_and_permissions(facts).0, type_and_permissions(facts).1)
}

/// The type and mode character of a type and permissions.
pub fn type_mode_char_of(t: u8, perm: u32) -> (r: char)
    ensures
        r == type_mode_char(t, perm),
        (r as u32) < 128,
{
    let mut i: usize = 0;
    while i < TYPE_MODE_COUNT
        invariant
            0 <= i <= 18,
            first_type_mode_from(t, perm, 0) == first_type_mode_from(t, perm, i as int),
        decreases 18 - i,
    {
        let (code, ty, m, _) = type_mode_entry(i);
        if ty == t && m == perm {
            return code;
        }
        i += 1;
    }
    let mut k: usize = 0;
    while k < TYPE_MODE_COUNT
        invariant
            0 <= k <= 18,
            first_type_mode_from(t, perm, 0) == 18,
            first_type_from(t, 0) == first_type_from(t, k as int),
        decreases 18 - k,
    {
        let (code, ty, _, _) = type_mode_entry(k);
        if ty == t {
            return code;
        }
        k += 1;
    }
    'z'
}

/// The type and mode character of a path is ASCII: a digit or a lowercase letter.
pub proof fn lemma_type_mode_ascii(facts: FileFacts)
    ensures
        (type_mode_code(facts) as u32) < 128,
        ('0' <= type_mode_code(facts) <= '9') || ('a' <= type_mode_code(facts) <= 'z'),
{
    let (t, perm) = type_and_permissions(facts);
    lemma_first_type_mode_bound(t, perm, 0);
    lemma_first_type_bound(t, 0);
    let e = first_type_mode_from(t, perm, 0);
    let k = first_type_from(t, 0);
    if e < 18 {
        assert((tm_code(e) as u32) < 128);
        assert(('0' <= tm_code(e) <= '9') || ('a' <= tm_code(e) <= 'z'));
    } else if k < 18 {
        assert((tm_code(k) as u32) < 128);
        assert(('0' <= tm_code(k) <= '9') || ('a' <= tm_code(k) <= 'z'));
    }
}

/// The search for an entry with a type and permissions ends within the table.
proof fn lemma_first_type_mode_bound(t: u8, perm: u32, i: int)
    requires
        0 <= i,
    ensures
        0 <= first_type_mode_from(t, perm, i) <= 18,
    decreases 18 - i,
{
    if i < 18 {
        lemma_first_type_mode_bound(t, perm, i + 1);
    }
}

/// The search for an entry with a type ends within the table.
proof fn lemma_first_type_bound(t: u8, i: int)
    requires
        0 <= i,
    ensures
        0 <= first_type_from(t, i) <= 18,
    decreases 18 - i,
{
    if i < 18 {
        lemma_first_type_bound(t, i + 1);
    }
}

} // verus!
