//! Directory prefixes: finding the longest table prefix of a path, and the
//! table entry of a prefix code.

use vstd::prelude::*;
use vstd::utf8::is_ascii_chars;
use crate::constants::{
    prefix_path, prefix_path_at, short_code, short_code_at, std_code, std_code_at,
    SHORT_PREFIX_COUNT, STD_PREFIX_COUNT, base36_digit,
};
use crate::text::{all_ascii, ascii_chars, str_is_ascii_bytes};

verus! {

/// `s` begins with `p`.
pub open spec fn starts_with(s: Seq<char>, p: Seq<char>) -> bool {
    p.len() <= s.len() && s.take(p.len() as int) == p
}

/// Entry `i` (not the root entry) of a table of `n` directories is the one that
/// a path is filed under: the path starts with it, no entry the path starts
/// with is longer, and every earlier one it starts with is shorter.
pub open spec fn best_prefix(path: Seq<char>, n: int, i: int) -> bool {
    &&& 1 <= i < n
    &&& starts_with(path, prefix_path(i))
    &&& forall|j: int|
        1 <= j < n && #[trigger] starts_with(path, prefix_path(j)) ==> prefix_path(j).len()
            <= prefix_path(i).len()
    &&& forall|j: int|
        1 <= j < i && #[trigger] starts_with(path, prefix_path(j)) ==> prefix_path(j).len()
            < prefix_path(i).len()
}

/// How a path divides into a table entry and the rest: the entry it is filed
/// under and what follows that directory; failing any, the root entry and the
/// path without its leading `/` (nothing, when it has no leading `/`).
pub open spec fn split_prefix(path: Seq<char>, n: int) -> (int, Seq<char>) {
    if exists|i: int| best_prefix(path, n, i) {
        let i = choose|i: int| best_prefix(path, n, i);
        (i, path.skip(prefix_path(i).len() as int))
    } else if path.len() > 0 && path[0] == '/' {
        (0, path.skip(1))
    } else {
        (0, Seq::empty())
    }
}

/// The code of entry `i` of the standard or the short table.
pub open spec fn table_code(short: bool, i: int) -> Seq<u8> {
    if short {
        short_code(i)
    } else {
        std_code(i)
    }
}

/// The number of entries of the standard or the short table.
pub open spec fn table_len(short: bool) -> int {
    if short {
        SHORT_PREFIX_COUNT as int
    } else {
        STD_PREFIX_COUNT as int
    }
}

/// The entry of the standard or the short table whose code is `code`, if any.
pub open spec fn code_entry(short: bool, code: Seq<char>) -> Option<int> {
    if exists|i: int| 0 <= i < table_len(short) && code == ascii_chars(#[trigger] table_code(short, i)) {
        Some(choose|i: int| 0 <= i < table_len(short) && code == ascii_chars(#[trigger] table_code(short, i)))
    } else {
        None
    }
}

/// The directory of the entry whose code is `code`, if any.
pub open spec fn code_prefix(short: bool, code: Seq<char>) -> Option<Seq<char>> {
    match code_entry(short, code) {
        Some(i) => Some(prefix_path(i)),
        None => None,
    }
}

/// Two entries of one table never share a code.
pub proof fn lemma_codes_distinct(short: bool, i: int, j: int)
    requires
        0 <= i < table_len(short),
        0 <= j < table_len(short),
        ascii_chars(table_code(short, i)) == ascii_chars(table_code(short, j)),
    ensures
        i == j,
{
    let ci = table_code(short, i);
    let cj = table_code(short, j);
    let a = ascii_chars(ci);
    let b = ascii_chars(cj);
    assert(a[0] == ci[0] as char && a[1] == ci[1] as char);
    assert(b[0] == cj[0] as char && b[1] == cj[1] as char);
    assert(a[0] == b[0] && a[1] == b[1]);
    assert(ci[1] == cj[1]);
    if !short {
        assert(ci[0] == cj[0]);
        assert(i == (i / 10) * 10 + i % 10);
        assert(j == (j / 10) * 10 + j % 10);
    }
}

/// A table entry found by its code.
pub proof fn lemma_code_entry(short: bool, code: Seq<char>, i: int)
    requires
        0 <= i < table_len(short),
        code == ascii_chars(table_code(short, i)),
    ensures
        code_entry(short, code) == Some(i),
{
    let k = choose|k: int| 0 <= k < table_len(short) && code == ascii_chars(#[trigger] table_code(short, k));
    lemma_codes_distinct(short, i, k);
}

/// The entry a path is filed under belongs to the table.
pub proof fn lemma_split_prefix_entry(path: Seq<char>, n: int)
    requires
        n >= 1,
    ensures
        0 <= split_prefix(path, n).0 < n,
{
    if exists|i: int| best_prefix(path, n, i) {
        let i = choose|i: int| best_prefix(path, n, i);
        assert(best_prefix(path, n, i));
    }
}

/// Only one entry is the one a path is filed under.
pub proof fn lemma_best_unique(path: Seq<char>, n: int, i: int, j: int)
    requires
        best_prefix(path, n, i),
        best_prefix(path, n, j),
    ensures
        i == j,
{
    if i < j {
        assert(starts_with(path, prefix_path(i)));
    } else if j < i {
        assert(starts_with(path, prefix_path(j)));
    }
}

/// The directories of the prefix tables start with `/`, the root entry is `/`
/// alone, every other entry is longer, and all are ASCII.
pub proof fn lemma_prefix_paths()
    ensures
        prefix_path(0) == seq!['/'],
        forall|i: int| #![trigger prefix_path(i)] 0 <= i < 32 ==> {
            &&& prefix_path(i).len() >= 1
            &&& prefix_path(i)[0] == '/'
            &&& (i >= 1 ==> prefix_path(i).len() > 1)
            &&& is_ascii_chars(prefix_path(i))
        },
{
    reveal_strlit("/");
    reveal_strlit("/etc/");
    reveal_strlit("/bin/");
    reveal_strlit("/usr/");
    reveal_strlit("/var/");
    reveal_strlit("/home/");
    reveal_strlit("/tmp/");
    reveal_strlit("/opt/");
    reveal_strlit("/lib/");
    reveal_strlit("/srv/");
    reveal_strlit("/boot/");
    reveal_strlit("/dev/");
    reveal_strlit("/proc/");
    reveal_strlit("/sys/");
    reveal_strlit("/run/");
    reveal_strlit("/mnt/");
    reveal_strlit("/media/");
    reveal_strlit("/root/");
    reveal_strlit("/sbin/");
    reveal_strlit("/usr/bin/");
    reveal_strlit("/usr/lib/");
    reveal_strlit("/usr/share/");
    reveal_strlit("/usr/local/");
    reveal_strlit("/var/log/");
    reveal_strlit("/var/lib/");
    reveal_strlit("/var/cache/");
    reveal_strlit("/usr/lib64/");
    reveal_strlit("/usr/include/");
    reveal_strlit("/var/run/");
    reveal_strlit("/var/tmp/");
    reveal_strlit("/usr/local/bin/");
    reveal_strlit("/usr/local/lib/");
    assert(prefix_path(0) =~= seq!['/']);
    assert forall|i: int| #![trigger prefix_path(i)] 0 <= i < 32 implies {
        &&& prefix_path(i).len() >= 1
        &&& prefix_path(i)[0] == '/'
        &&& (i >= 1 ==> prefix_path(i).len() > 1)
        &&& is_ascii_chars(prefix_path(i))
    } by {
        if i == 0 {
            assert(prefix_path(i) =~= "/"@);
        } else if i == 1 {
            assert(prefix_path(i) =~= "/etc/"@);
        } else if i == 2 {
            assert(prefix_path(i) =~= "/bin/"@);
        } else if i == 3 {
            assert(prefix_path(i) =~= "/usr/"@);
        } else if i == 4 {
            assert(prefix_path(i) =~= "/var/"@);
        } else if i == 5 {
            assert(prefix_path(i) =~= "/home/"@);
        } else if i == 6 {
            assert(prefix_path(i) =~= "/tmp/"@);
        } else if i == 7 {
            assert(prefix_path(i) =~= "/opt/"@);
        } else if i == 8 {
            assert(prefix_path(i) =~= "/lib/"@);
        } else if i == 9 {
            assert(prefix_path(i) =~= "/srv/"@);
        } else if i == 10 {
            assert(prefix_path(i) =~= "/boot/"@);
        } else if i == 11 {
            assert(prefix_path(i) =~= "/dev/"@);
        } else if i == 12 {
            assert(prefix_path(i) =~= "/proc/"@);
        } else if i == 13 {
            assert(prefix_path(i) =~= "/sys/"@);
        } else if i == 14 {
            assert(prefix_path(i) =~= "/run/"@);
        } else if i == 15 {
            assert(prefix_path(i) =~= "/mnt/"@);
        } else if i == 16 {
            assert(prefix_path(i) =~= "/media/"@);
        } else if i == 17 {
            assert(prefix_path(i) =~= "/root/"@);
        } else if i == 18 {
            assert(prefix_path(i) =~= "/sbin/"@);
        } else if i == 19 {
            assert(prefix_path(i) =~= "/usr/bin/"@);
        } else if i == 20 {
            assert(prefix_path(i) =~= "/usr/lib/"@);
        } else if i == 21 {
            assert(prefix_path(i) =~= "/usr/share/"@);
        } else if i == 22 {
            assert(prefix_path(i) =~= "/usr/local/"@);
        } else if i == 23 {
            assert(prefix_path(i) =~= "/var/log/"@);
        } else if i == 24 {
            assert(prefix_path(i) =~= "/var/lib/"@);
        } else if i == 25 {
            assert(prefix_path(i) =~= "/var/cache/"@);
        } else if i == 26 {
            assert(prefix_path(i) =~= "/usr/lib64/"@);
        } else if i == 27 {
            assert(prefix_path(i) =~= "/usr/include/"@);
        } else if i == 28 {
            assert(prefix_path(i) =~= "/var/run/"@);
        } else if i == 29 {
            assert(prefix_path(i) =~= "/var/tmp/"@);
        } else if i == 30 {
            assert(prefix_path(i) =~= "/usr/local/bin/"@);
        } else if i == 31 {
            assert(prefix_path(i) =~= "/usr/local/lib/"@);
        }
    }
}


/// Does `s`, of `slen` characters, begin with `p`?
fn starts_with_str(s: &str, slen: usize, p: &str) -> (r: bool)
    requires
        slen == s@.len(),
    ensures
        r == starts_with(s@, p@),
{
    let plen = p.unicode_len();
    if plen > slen {
        return false;
    }
    let mut k: usize = 0;
    while k < plen
        invariant
            plen == p@.len(),
            plen <= slen,
            slen == s@.len(),
            0 <= k <= plen,
            forall|m: int| 0 <= m < k ==> s@[m] == p@[m],
        decreases plen - k,
    {
        if s.get_char(k) != p.get_char(k) {
            assert(s@.take(plen as int)[k as int] != p@[k as int]);
            return false;
        }
        k += 1;
    }
    assert(s@.take(plen as int) =~= p@);
    true
}

/// Divide a path into the entry of the first `n` table directories that it is
/// filed under and the rest of the path.
pub fn split_path(path: &str, n: usize) -> (r: (usize, &str))
    requires
        1 <= n <= SHORT_PREFIX_COUNT,
    ensures
        r.0 < n,
        r.0 as int == split_prefix(path@, n as int).0,
        r.1@ == split_prefix(path@, n as int).1,
{
    proof {
        lemma_prefix_paths();
    }
    let slen = path.unicode_len();
    let mut best: usize = 0;
    let mut best_len: usize = 1;
    let mut j: usize = 1;
    while j < n
        invariant
            1 <= j <= n <= 32,
            slen == path@.len(),
            best < j,
            best == 0 ==> best_len == 1 && forall|k: int| 1 <= k < j ==> !#[trigger] starts_with(path@, prefix_path(k)),
            best >= 1 ==> best_prefix(path@, j as int, best as int) && best_len == prefix_path(best as int).len(),
            forall|i: int| #![trigger prefix_path(i)] 0 <= i < 32 ==> {
                &&& prefix_path(i).len() >= 1
                &&& (i >= 1 ==> prefix_path(i).len() > 1)
            },
        decreases n - j,
    {
        let p = prefix_path_at(j);
        let plen = p.unicode_len();
        let m = starts_with_str(path, slen, p);
        if m && plen > best_len {
            best = j;
            best_len = plen;
        }
        proof {
            assert(prefix_path(j as int).len() > 1);
        }
        j += 1;
    }
    if best == 0 {
        proof {
            assert(!exists|i: int| best_prefix(path@, n as int, i));
        }
        if slen > 0 && path.get_char(0) == '/' {
            let rest = path.substring_char(1, slen);
            return (0, rest);
        }
        let rest = path.substring_char(0, 0);
        proof {
            assert(rest@ =~= Seq::<char>::empty());
        }
        return (0, rest);
    }
    proof {
        let i = choose|i: int| best_prefix(path@, n as int, i);
        lemma_best_unique(path@, n as int, i, best as int);
    }
    let rest = path.substring_char(best_len, slen);
    (best, rest)
}

/// The entry of the standard (`short` false) or short table whose code is `code`.
pub fn find_code(short: bool, code: &str) -> (r: Option<usize>)
    ensures
        r matches Some(i) ==> i < table_len(short) && code_entry(short, code@) == Some(i as int),
        r is None ==> code_entry(short, code@) is None,
{
    let n = if short {
        SHORT_PREFIX_COUNT
    } else {
        STD_PREFIX_COUNT
    };
    let mut i: usize = 0;
    while i < n
        invariant
            n == table_len(short),
            0 <= i <= n,
            forall|k: int| 0 <= k < i ==> code@ != ascii_chars(#[trigger] table_code(short, k)),
        decreases n - i,
    {
        let c = if short {
            short_code_at(i)
        } else {
            std_code_at(i)
        };
        let cb = c.as_bytes();
        proof {
            crate::text::lemma_encodes_ascii(c@, table_code(short, i as int));
        }
        if str_is_ascii_bytes(code, cb) {
            proof {
                lemma_code_entry(short, code@, i as int);
            }
            return Some(i);
        }
        i += 1;
    }
    None
}

} // verus!
