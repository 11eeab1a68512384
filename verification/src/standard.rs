//! Standard FSID format (base10, numeric only)
//!
//! `PP T M N...N CC`: a two-digit prefix code, the file type code, the mode
//! code, the rest of the path as a decimal number, and a two-digit check code.

use vstd::prelude::*;
use vstd::string::*;
use vstd::utf8::{decode_utf8, encode_utf8, is_char_boundary, valid_utf8};
use crate::constants::{
    base36_digit, file_type_name, mode_entry, mode_octal, mode_symbolic, prefix_path,
    prefix_path_at, std_code, std_code_at, FILE_MODE_COUNT, STD_PREFIX_COUNT,
};
use crate::metadata::{first_mode_from, file_type_code, mode_code, FileFacts, FileKind};
use crate::prefix::{code_prefix, find_code, split_path, split_prefix};
use crate::radix::{digits_below, digits_of, rebase, rebase_digits, value};
use crate::text::{
    all_ascii, ascii_chars, ascii_string, byte_slice, cuts, str_slice, utf8_string,
};

verus! {

/// The character is one of `0` to `9`.
pub open spec fn is_digit(c: char) -> bool {
    '0' <= c <= '9'
}

/// Every character is one of `0` to `9`.
pub open spec fn all_digits(s: Seq<char>) -> bool {
    forall|i: int| 0 <= i < s.len() ==> is_digit(#[trigger] s[i])
}

/// The weight of the digit `c` at position `i`: its value at even positions,
/// three times its value at odd ones; characters other than digits weigh nothing.
pub open spec fn digit_weight(i: int, c: char) -> nat {
    if is_digit(c) {
        if i % 2 == 0 {
            (c as nat - 48) as nat
        } else {
            3 * (c as nat - 48) as nat
        }
    } else {
        0
    }
}

/// The weighted digit sum behind the check codes.
pub open spec fn weighted_sum(s: Seq<char>) -> nat
    decreases s.len(),
{
    if s.len() == 0 {
        0
    } else {
        weighted_sum(s.drop_last()) + digit_weight(s.len() - 1, s.last())
    }
}

/// The number below 100 written with two digits, zero first where needed.
pub open spec fn two_digits(n: nat) -> Seq<char> {
    seq![(48 + n / 10) as char, (48 + n % 10) as char]
}

/// The two-digit check code of `s`: its weighted digit sum modulo 100.
pub open spec fn check_code(s: Seq<char>) -> Seq<char> {
    two_digits(weighted_sum(s) % 100)
}

/// The weighted digit sum of `s` fits the `u32` in which it is added up.
pub open spec fn sum_fits(s: Seq<char>) -> bool {
    weighted_sum(s) <= u32::MAX
}

/// Canonical digits in the base36 alphabet (here always decimal digits).
pub open spec fn digit_text(ds: Seq<u8>) -> Seq<u8> {
    ds.map_values(|d: u8| base36_digit(d as int))
}

/// The decimal text of the big-endian base256 number `bytes`: `0` for zero,
/// otherwise its digits without leading zeros.
pub open spec fn decimal_text(bytes: Seq<u8>) -> Seq<char> {
    if value(bytes, 256) == 0 {
        seq!['0']
    } else {
        ascii_chars(digit_text(digits_of(value(bytes, 256), 10)))
    }
}

/// The digit values of decimal text: each byte less 48.
pub open spec fn digit_values(text: Seq<u8>) -> Seq<u8> {
    text.map_values(|b: u8| (b - 48) as u8)
}

/// Every byte is at least `0` (48), so taking 48 from it does not underflow.
pub open spec fn no_byte_below_zero_digit(text: Seq<u8>) -> bool {
    forall|i: int| 0 <= i < text.len() ==> #[trigger] text[i] >= 48
}

/// The bytes that decimal text stands for: its digits read in base 10 and
/// written in base 256 by repeated division.
pub open spec fn decimal_bytes(text: Seq<u8>) -> Seq<u8> {
    rebase(digit_values(text), 10, 256)
}

/// The symbolic and octal permissions of a mode code; `custom` and 0 for 9 and above.
pub open spec fn mode_description(code: u8) -> (Seq<char>, u32) {
    if code < 9 {
        (mode_symbolic(code as int), mode_octal(code as int))
    } else {
        ("custom"@, 0)
    }
}

/// The part of the FSID of `canonical` before its check code: prefix code,
/// file type code, mode code and the rest of the path in decimal.
pub open spec fn partial_fsid(canonical: Seq<char>, facts: FileFacts) -> Seq<char> {
    let (entry, rest) = split_prefix(canonical, STD_PREFIX_COUNT as int);
    ascii_chars(std_code(entry)) + seq![
        (48 + file_type_code(facts)) as char,
        (48 + mode_code(facts)) as char,
    ] + decimal_text(encode_utf8(rest))
}

/// The FSID of a path whose canonical form is `canonical`.
pub open spec fn fsid_of(canonical: Seq<char>, facts: FileFacts) -> Seq<char> {
    partial_fsid(canonical, facts) + check_code(partial_fsid(canonical, facts))
}

/// An FSID is valid: at least 7 characters, all digits, the last two being the
/// check code of the others.
pub open spec fn is_valid(fsid: Seq<char>) -> bool {
    &&& all_digits(fsid)
    &&& fsid.len() >= 7
    &&& fsid.skip(fsid.len() - 2) == check_code(fsid.take(fsid.len() - 2))
}

/// `decode` does not panic on the bytes `b`: where there are at least 7, the
/// string can be cut at bytes 2, 4 and two before its end, and where its
/// prefix code is known, no byte of its encoded path is below `0`.
pub open spec fn decodable(b: Seq<u8>) -> bool {
    b.len() >= 7 ==> {
        &&& is_char_boundary(b, 2)
        &&& is_char_boundary(b, 4)
        &&& is_char_boundary(b, b.len() - 2)
        &&& code_prefix(false, decode_utf8(b.subrange(0, 2))) is Some ==> no_byte_below_zero_digit(
            b.subrange(4, b.len() - 2),
        )
    }
}

/// What `decode` gives for the bytes `b`: nothing when there are fewer than 7,
/// the prefix code is unknown or the path bytes are not UTF-8; otherwise the
/// directory of the prefix code followed by the decoded path.
pub open spec fn decoded(b: Seq<u8>) -> Option<Seq<char>> {
    if b.len() < 7 {
        None
    } else {
        match code_prefix(false, decode_utf8(b.subrange(0, 2))) {
            None => None,
            Some(dir) => {
                let path_bytes = decimal_bytes(b.subrange(4, b.len() - 2));
                if valid_utf8(path_bytes) {
                    Some(dir + decode_utf8(path_bytes))
                } else {
                    None
                }
            },
        }
    }
}

/// Get the directory prefix code and remaining path
pub fn get_prefix_and_remainder(path: &str) -> (r: (&'static str, &str))
    ensures
        r.0@ == ascii_chars(std_code(split_prefix(path@, STD_PREFIX_COUNT as int).0)),
        r.1@ == split_prefix(path@, STD_PREFIX_COUNT as int).1,
{
    let (entry, rest) = split_path(path, STD_PREFIX_COUNT);
    (std_code_at(entry), rest)
}

/// Get the prefix path from a code
pub fn get_prefix_path(code: &str) -> (r: Option<&'static str>)
    ensures
        match r {
            Some(p) => code_prefix(false, code@) == Some(p@),
            None => code_prefix(false, code@) is None,
        },
{
    match find_code(false, code) {
        Some(i) => Some(prefix_path_at(i)),
        None => None,
    }
}

/// Get file type code: 2 for a symbolic link, else the code of the kind of
/// its file, 0 when its metadata could not be read.
pub fn get_file_type_code(facts: &FileFacts) -> (r: u8)
    ensures
        r == file_type_code(*facts),
        r <= 7,
{
    if facts.is_symlink {
        return 2;
    }
    match &facts.metadata {
        Some(m) => match m.kind {
            FileKind::Directory => 1,
            FileKind::RegularFile => 0,
            FileKind::Socket => 4,
            FileKind::Fifo => 5,
            FileKind::BlockDevice => 6,
            FileKind::CharDevice => 7,
            FileKind::Other => 0,
        },
        None => 0,
    }
}

/// Get permission mode code: 8 for a symbolic link; for a directory 6 or 7
/// where its permission bits are those of that row; for any other file the
/// row among 0 to 5 with its permission bits; 9 when no row fits or the
/// metadata could not be read.
pub fn get_mode_code(facts: &FileFacts) -> (r: u8)
    ensures
        r == mode_code(*facts),
        r <= 9,
{
    if facts.is_symlink {
        return 8;
    }
    let m = match &facts.metadata {
        Some(m) => m,
        None => return 9,
    };
    let perm = m.mode & 0o777;
    if let FileKind::Directory = m.kind {
        let (octal, _) = mode_entry(6);
        if octal == perm {
            return 6;
        }
        let (octal, _) = mode_entry(7);
        if octal == perm {
            return 7;
        }
        return 9;
    }
    let mut c: usize = 0;
    while c < FILE_MODE_COUNT
        invariant
            0 <= c <= 6,
            facts.metadata is Some,
            !facts.is_symlink,
            !(facts.metadata->0.kind is Directory),
            perm == facts.metadata->0.mode & 0o777,
            first_mode_from(perm, 0) == first_mode_from(perm, c as int),
        decreases 6 - c,
    {
        let (octal, _) = mode_entry(c);
        if octal == perm {
            return c as u8;
        }
        c += 1;
    }
    9
}

/// Get permission mode description
pub fn get_mode_description(code: u8) -> (r: (&'static str, u32))
    ensures
        (r.0@, r.1) == mode_description(code),
{
    if code < 9 {
        let (octal, symbolic) = mode_entry(code as usize);
        return (symbolic, octal);
    }
    ("custom", 0)
}

/// The digits `ds` (each below 36) in the base36 alphabet.
pub(crate) fn digits_to_text(ds: &Vec<u8>) -> (r: Vec<u8>)
    requires
        digits_below(ds@, 36),
    ensures
        r@ == digit_text(ds@),
        all_ascii(r@),
{
    let mut out: Vec<u8> = Vec::new();
    let mut i: usize = 0;
    while i < ds.len()
        invariant
            0 <= i <= ds@.len(),
            digits_below(ds@, 36),
            out@ == digit_text(ds@.take(i as int)),
            all_ascii(out@),
        decreases ds@.len() - i,
    {
        let c = crate::constants::base36_char(ds[i]);
        out.push(c);
        proof {
            assert(ds@.take(i + 1) =~= ds@.take(i as int).push(ds@[i as int]));
            assert(digit_text(ds@.take(i + 1)) =~= digit_text(ds@.take(i as int)).push(c));
        }
        i += 1;
    }
    assert(ds@.take(ds@.len() as int) =~= ds@);
    out
}

/// Encode bytes to decimal string (base256 → base10)
pub fn bytes_to_decimal(bytes: &[u8]) -> (r: String)
    ensures
        r@ == decimal_text(bytes@),
{
    if bytes.len() == 0 {
        assert(value(bytes@, 256) == 0);
        return zero_text();
    }
    let ds = rebase_digits(bytes, 256, 10);
    if ds.len() == 0 {
        proof {
            if value(bytes@, 256) > 0 {
                crate::radix::lemma_digits_of(value(bytes@, 256), 10);
            }
            if bytes@ == seq![0u8] {
                crate::radix::lemma_value_single(bytes@, 256);
            }
        }
        return zero_text();
    }
    proof {
        if value(bytes@, 256) == 0 {
            assert(ds@ == seq![0u8]);
        } else {
            crate::radix::lemma_digits_of(value(bytes@, 256), 10);
        }
    }
    let text = digits_to_text(&ds);
    let r = ascii_string(text);
    proof {
        if value(bytes@, 256) == 0 {
            assert(r@ =~= seq!['0']);
        }
    }
    r
}

/// The text `0`.
pub(crate) fn zero_text() -> (r: String)
    ensures
        r@ == seq!['0'],
{
    let mut v: Vec<u8> = Vec::new();
    v.push(48);
    let r = ascii_string(v);
    assert(r@ =~= seq!['0']);
    r
}

/// Decode decimal string to bytes (base10 → base256)
pub fn decimal_to_bytes(decimal: &str) -> (r: Vec<u8>)
    requires
        no_byte_below_zero_digit(decimal.spec_bytes()),
    ensures
        r@ == decimal_bytes(decimal.spec_bytes()),
{
    let text = decimal.as_bytes();
    let mut digits: Vec<u8> = Vec::new();
    let mut i: usize = 0;
    while i < text.len()
        invariant
            0 <= i <= text@.len(),
            text@ == decimal.spec_bytes(),
            no_byte_below_zero_digit(text@),
            digits@ == digit_values(text@.take(i as int)),
        decreases text@.len() - i,
    {
        let b = text[i];
        digits.push(b - 48);
        proof {
            assert(text@.take(i + 1) =~= text@.take(i as int).push(b));
            assert(digit_values(text@.take(i + 1)) =~= digit_values(text@.take(i as int)).push(
                (b - 48) as u8,
            ));
        }
        i += 1;
    }
    assert(text@.take(text@.len() as int) =~= text@);
    rebase_digits(digits.as_slice(), 10, 256)
}

/// The weighted digit sum of `s`.
pub(crate) fn weighted_digit_sum(s: &str) -> (r: u32)
    requires
        sum_fits(s@),
    ensures
        r == weighted_sum(s@),
{
    let mut sum: u32 = 0;
    let mut even = true;
    for c in it: s.chars()
        invariant
            it.seq() == s@,
            even == (it.index() % 2 == 0),
            sum_fits(s@),
            sum == weighted_sum(s@.take(it.index() as int)),
    {
        let ghost i = it.index();
        proof {
            lemma_sum_prefix_bound(s@, i + 1);
            assert(s@.take(i + 1).drop_last() =~= s@.take(i));
        }
        if '0' <= c && c <= '9' {
            let d = (c as u32) - 48;
            if even {
                sum = sum + d;
            } else {
                sum = sum + d * 3;
            }
        }
        even = !even;
    }
    assert(s@.take(s@.len() as int) =~= s@);
    sum
}

/// A prefix weighs no more than the whole.
pub proof fn lemma_sum_prefix_bound(s: Seq<char>, k: int)
    requires
        0 <= k <= s.len(),
    ensures
        weighted_sum(s.take(k)) <= weighted_sum(s),
    decreases s.len() - k,
{
    if k < s.len() {
        lemma_sum_prefix_bound(s, k + 1);
        assert(s.take(k + 1).drop_last() =~= s.take(k));
    } else {
        assert(s.take(k) =~= s);
    }
}

/// The two-digit text of a number below 100.
fn two_digit_string(n: u32) -> (r: String)
    requires
        n < 100,
    ensures
        r@ == two_digits(n as nat),
{
    let mut v: Vec<u8> = Vec::new();
    v.push((48 + n / 10) as u8);
    v.push((48 + n % 10) as u8);
    let r = ascii_string(v);
    assert(r@ =~= two_digits(n as nat));
    r
}

/// Calculate 2-digit check code
pub fn calculate_check(digits: &str) -> (r: String)
    requires
        sum_fits(digits@),
    ensures
        r@ == check_code(digits@),
{
    let sum = weighted_digit_sum(digits);
    two_digit_string(sum % 100)
}

/// Are all characters digits?
pub(crate) fn all_digit_chars(s: &str) -> (r: bool)
    ensures
        r == all_digits(s@),
{
    let mut all = true;
    for c in it: s.chars()
        invariant
            it.seq() == s@,
            all == forall|k: int| 0 <= k < it.index() ==> is_digit(#[trigger] s@[k]),
    {
        if !('0' <= c && c <= '9') {
            all = false;
        }
    }
    all
}

/// Digit text is ASCII: its bytes are its characters.
pub proof fn lemma_digits_bytes(s: Seq<char>)
    requires
        all_digits(s),
    ensures
        encode_utf8(s).len() == s.len(),
        forall|i: int| 0 <= i < s.len() ==> #[trigger] encode_utf8(s)[i] == s[i] as u8,
{
    assert(vstd::utf8::is_ascii_chars(s)) by {
        assert forall|i: int| 0 <= i < s.len() implies '\0' <= #[trigger] s[i] <= '\u{7f}' by {
            assert(is_digit(s[i]));
        }
    }
    vstd::utf8::is_ascii_chars_encode_utf8(s);
}

/// Validate FSID check digits
pub fn validate(fsid: &str) -> (r: bool)
    requires
        all_digits(fsid@) && fsid@.len() >= 7 ==> sum_fits(fsid@.take(fsid@.len() - 2)),
    ensures
        r == is_valid(fsid@),
{
    let fb = fsid.as_bytes();
    let n = fb.len();
    if n < 7 || !all_digit_chars(fsid) {
        proof {
            if all_digits(fsid@) {
                lemma_digits_bytes(fsid@);
            }
        }
        return false;
    }
    proof {
        lemma_digits_bytes(fsid@);
        vstd::utf8::encode_utf8_valid_utf8(fsid@);
        crate::text::lemma_boundary(fsid.spec_bytes(), fsid@.len() - 2);
        crate::text::lemma_cuts_ends(fsid);
        let n = fsid@.len();
        let b = fsid.spec_bytes();
        assert(ascii_chars(b) =~= fsid@);
        assert(ascii_chars(b.subrange(0, n - 2)) =~= fsid@.take(n - 2));
        crate::text::lemma_ascii_bytes(b.subrange(0, n - 2));
    }
    let head = str_slice(fsid, 0, n - 2);
    let check = calculate_check(head);
    let cb = check.as_str().as_bytes();
    proof {
        assert(all_digits(check@));
        lemma_digits_bytes(check@);
    }
    let r = fb[n - 2] == cb[0] && fb[n - 1] == cb[1];
    proof {
        let s = fsid@;
        if r {
            assert(s.skip(n - 2) =~= check@);
        } else {
            if s.skip(n - 2) == check@ {
                assert(s.skip(n - 2)[0] == s[n - 2]);
                assert(s.skip(n - 2)[1] == s[n - 1]);
            }
        }
    }
    r
}

/// Does the byte text have no byte below `0`?
fn bytes_not_below_zero_digit(text: &[u8]) -> (r: bool)
    ensures
        r == no_byte_below_zero_digit(text@),
{
    let mut i: usize = 0;
    while i < text.len()
        invariant
            0 <= i <= text@.len(),
            forall|k: int| 0 <= k < i ==> #[trigger] text@[k] >= 48,
        decreases text@.len() - i,
    {
        if text[i] < 48 {
            return false;
        }
        i += 1;
    }
    true
}

/// Can `decode` be asked about `fsid`? (Where not, it would panic.)
pub fn is_decodable(fsid: &str) -> (r: bool)
    ensures
        r == decodable(fsid.spec_bytes()),
{
    let n = fsid.as_bytes().len();
    if n < 7 {
        return true;
    }
    if !(fsid.is_char_boundary(2) && fsid.is_char_boundary(4) && fsid.is_char_boundary(n - 2)) {
        return false;
    }
    proof {
        crate::text::lemma_cuts_ends(fsid);
    }
    let code = str_slice(fsid, 0, 2);
    match get_prefix_path(code) {
        None => true,
        Some(_) => {
            let encoded = str_slice(fsid, 4, n - 2);
            bytes_not_below_zero_digit(encoded.as_bytes())
        },
    }
}

/// Decode FSID back to path
pub fn decode(fsid: &str) -> (r: Option<String>)
    requires
        decodable(fsid.spec_bytes()),
    ensures
        match r {
            Some(p) => decoded(fsid.spec_bytes()) == Some(p@),
            None => decoded(fsid.spec_bytes()) is None,
        },
{
    let n = fsid.as_bytes().len();
    if n < 7 {
        return None;
    }
    proof {
        crate::text::lemma_cuts_ends(fsid);
    }
    let prefix_code = str_slice(fsid, 0, 2);
    let encoded_path = str_slice(fsid, 4, n - 2);
    let prefix_path = match get_prefix_path(prefix_code) {
        Some(p) => p,
        None => return None,
    };
    let path_bytes = decimal_to_bytes(encoded_path);
    let relative_path = match utf8_string(path_bytes) {
        Some(s) => s,
        None => return None,
    };
    let mut result = prefix_path.to_owned();
    result.append(relative_path.as_str());
    Some(result)
}

/// The FSID of a path before its check code.
fn partial_text(canonical: &str, facts: &FileFacts) -> (r: String)
    ensures
        r@ == partial_fsid(canonical@, *facts),
{
    let (prefix, remainder) = get_prefix_and_remainder(canonical);
    let file_type = get_file_type_code(facts);
    let mode = get_mode_code(facts);
    let encoded_path = bytes_to_decimal(remainder.as_bytes());
    let mut partial = prefix.to_owned();
    let mut codes: Vec<u8> = Vec::new();
    codes.push(48 + file_type);
    codes.push(48 + mode);
    let codes = ascii_string(codes);
    partial.append(codes.as_str());
    partial.append(encoded_path.as_str());
    proof {
        assert(codes@ =~= seq![(48 + file_type) as char, (48 + mode) as char]);
        assert(partial@ =~= partial_fsid(canonical@, *facts));
    }
    partial
}

/// The standard FSID of a path, from its canonical form and the facts about
/// its file (the file system is read by the caller).
pub fn encode(canonical: &str, facts: &FileFacts) -> (r: String)
    requires
        sum_fits(partial_fsid(canonical@, *facts)),
    ensures
        r@ == fsid_of(canonical@, *facts),
{
    let mut partial = partial_text(canonical, facts);
    let check = calculate_check(partial.as_str());
    partial.append(check.as_str());
    partial
}

/// The FSID of a path, or nothing where adding up its check sum would
/// overflow (where generating it panics).
pub fn encode_checked(canonical: &str, facts: &FileFacts) -> (r: Option<String>)
    ensures
        match r {
            Some(f) => sum_fits(partial_fsid(canonical@, *facts)) && f@ == fsid_of(canonical@, *facts),
            None => !sum_fits(partial_fsid(canonical@, *facts)),
        },
{
    let mut partial = partial_text(canonical, facts);
    if !sum_fits_str(partial.as_str()) {
        return None;
    }
    let check = calculate_check(partial.as_str());
    partial.append(check.as_str());
    Some(partial)
}

/// Does the weighted digit sum of `s` fit a `u32`?
pub fn sum_fits_str(s: &str) -> (r: bool)
    ensures
        r == sum_fits(s@),
{
    let mut sum: u64 = 0;
    let mut even = true;
    for c in it: s.chars()
        invariant
            it.seq() == s@,
            even == (it.index() % 2 == 0),
            sum == if weighted_sum(s@.take(it.index() as int)) <= u32::MAX {
                weighted_sum(s@.take(it.index() as int)) as int
            } else {
                u32::MAX + 1
            },
    {
        let ghost i = it.index();
        proof {
            assert(s@.take(i + 1).drop_last() =~= s@.take(i));
        }
        if sum <= 0xffff_ffff && '0' <= c && c <= '9' {
            let d = (c as u64) - 48;
            if even {
                sum = sum + d;
            } else {
                sum = sum + d * 3;
            }
            if sum > 0xffff_ffff {
                sum = 0x1_0000_0000;
            }
        }
        even = !even;
    }
    assert(s@.take(s@.len() as int) =~= s@);
    sum <= 0xffff_ffff
}


/// The decimal digits of a value are digits, and read back as that value.
proof fn lemma_decimal_text(b: Seq<u8>)
    ensures
        all_digits(decimal_text(b)),
        encode_utf8(decimal_text(b)).len() == decimal_text(b).len(),
        value(b, 256) == 0 ==> decimal_text(b) == seq!['0'],
        value(b, 256) > 0 ==> decimal_bytes(encode_utf8(decimal_text(b))) == digits_of(value(b, 256), 256),
        decimal_text(b).len() >= 1,
{
    let v = value(b, 256);
    if v == 0 {
        let t = decimal_text(b);
        assert(all_digits(t));
        lemma_digits_bytes(t);
    } else {
        let ds = digits_of(v, 10);
        crate::radix::lemma_digits_of(v, 10);
        let text = digit_text(ds);
        assert(all_ascii(text)) by {
            assert forall|i: int| 0 <= i < text.len() implies #[trigger] text[i] < 128 by {
                assert(ds[i] < 10);
            }
        }
        crate::text::lemma_ascii_bytes(text);
        let t = decimal_text(b);
        assert(t == ascii_chars(text));
        assert(all_digits(t)) by {
            assert forall|i: int| 0 <= i < t.len() implies is_digit(#[trigger] t[i]) by {
                assert(ds[i] < 10);
                assert(t[i] == text[i] as char);
            }
        }
        assert(digit_values(text) =~= ds) by {
            assert forall|i: int| 0 <= i < ds.len() implies #[trigger] digit_values(text)[i] == ds[i] by {
                assert(ds[i] < 10);
            }
        }
        assert(ds != seq![0u8]) by {
            if ds == seq![0u8] {
                assert(ds[0] == 0);
            }
        }
    }
}

/// The bytes after the prefix are read back from their decimal text when they
/// have no leading zero byte.
pub proof fn lemma_decimal_roundtrip(b: Seq<u8>)
    requires
        crate::radix::no_leading_zero(b),
    ensures
        decimal_bytes(encode_utf8(decimal_text(b))) == b,
{
    lemma_decimal_text(b);
    if value(b, 256) == 0 {
        if b.len() > 0 {
            crate::radix::lemma_value_positive(b, 256);
        }
        reveal_strlit("0");
        let bytes = encode_utf8(seq!['0']);
        assert(encode_utf8(seq!['0']) =~= seq![48u8]) by {
            lemma_digits_bytes(seq!['0']);
        }
        assert(digit_values(seq![48u8]) =~= seq![0u8]);
        assert(b =~= Seq::<u8>::empty());
    } else {
        assert(crate::radix::digits_below(b, 256));
        crate::radix::lemma_canonical_digits(b, 256);
    }
}

/// The bytes after the prefix code can come back from an FSID: the path starts
/// with `/`, and the bytes of the rest of the path have no leading zero byte.
pub open spec fn reversible(canonical: Seq<char>) -> bool {
    let rest = encode_utf8(split_prefix(canonical, STD_PREFIX_COUNT as int).1);
    &&& canonical.len() > 0
    &&& canonical[0] == '/'
    &&& crate::radix::no_leading_zero(rest)
}

/// A table code and the type and mode codes are digits.
proof fn lemma_head_digits(entry: int, t: u8, m: u8)
    requires
        0 <= entry < STD_PREFIX_COUNT,
        t <= 9,
        m <= 9,
    ensures
        all_digits(ascii_chars(std_code(entry)) + seq![(48 + t) as char, (48 + m) as char]),
        ascii_chars(std_code(entry)).len() == 2,
{
    let h = ascii_chars(std_code(entry)) + seq![(48 + t) as char, (48 + m) as char];
    assert forall|i: int| 0 <= i < h.len() implies is_digit(#[trigger] h[i]) by {
        if i < 2 {
            assert(h[i] == std_code(entry)[i] as char);
        }
    }
}

/// The standard FSID of a path is valid, and decoding it gives the path back,
/// whenever the path starts with `/` and the bytes of the rest of it (after the
/// table directory it is filed under) do not start with a zero byte.
pub proof fn law_roundtrip(canonical: Seq<char>, facts: FileFacts)
    requires
        reversible(canonical),
        sum_fits(partial_fsid(canonical, facts)),
    ensures
        is_valid(fsid_of(canonical, facts)),
        decodable(encode_utf8(fsid_of(canonical, facts))),
        decoded(encode_utf8(fsid_of(canonical, facts))) == Some(canonical),
{
    let n = STD_PREFIX_COUNT as int;
    let (entry, rest) = split_prefix(canonical, n);
    crate::prefix::lemma_split_prefix_entry(canonical, n);
    crate::prefix::lemma_prefix_paths();
    let rest_bytes = encode_utf8(rest);
    let t = file_type_code(facts);
    let m = mode_code(facts);
    assert(t <= 7);
    assert(m <= 9) by {
        if let Some(md) = facts.metadata {
            crate::metadata::lemma_first_mode_bound(md.mode & 0o777, 0);
        }
    }
    let head = ascii_chars(std_code(entry)) + seq![(48 + t) as char, (48 + m) as char];
    lemma_head_digits(entry, t, m);
    let d = decimal_text(rest_bytes);
    lemma_decimal_text(rest_bytes);
    lemma_decimal_roundtrip(rest_bytes);
    let partial = partial_fsid(canonical, facts);
    assert(partial == head + d);
    let check = check_code(partial);
    let f = fsid_of(canonical, facts);
    assert(f == partial + check);
    let len = f.len();
    assert(len == 4 + d.len() + 2);
    assert(all_digits(f)) by {
        assert forall|i: int| 0 <= i < f.len() implies is_digit(#[trigger] f[i]) by {
            if i < 4 {
                assert(f[i] == head[i]);
            } else if i < 4 + d.len() {
                assert(f[i] == d[i - 4]);
            } else {
                assert(f[i] == check[i - 4 - d.len()]);
                assert((weighted_sum(partial) % 100) / 10 < 10);
            }
        }
    }
    assert(f.take(len - 2) =~= partial);
    assert(f.skip(len - 2) =~= check);
    let b = encode_utf8(f);
    lemma_digits_bytes(f);
    vstd::utf8::encode_utf8_valid_utf8(f);
    crate::text::lemma_boundary(b, 2);
    crate::text::lemma_boundary(b, 4);
    crate::text::lemma_boundary(b, len - 2);
    let code_bytes = b.subrange(0, 2);
    assert(all_ascii(code_bytes)) by {
        assert forall|i: int| 0 <= i < code_bytes.len() implies #[trigger] code_bytes[i] < 128 by {
            assert(code_bytes[i] == f[i] as u8);
            assert(is_digit(f[i]));
        }
    }
    crate::text::lemma_ascii_bytes(code_bytes);
    assert(ascii_chars(code_bytes) =~= ascii_chars(std_code(entry))) by {
        assert forall|i: int| 0 <= i < 2 implies #[trigger] ascii_chars(code_bytes)[i] == ascii_chars(
            std_code(entry),
        )[i] by {
            assert(code_bytes[i] == f[i] as u8);
            assert(f[i] == head[i]);
            assert(is_digit(f[i]));
        }
    }
    crate::prefix::lemma_code_entry(false, ascii_chars(std_code(entry)), entry);
    let enc = b.subrange(4, len - 2);
    assert(enc =~= encode_utf8(d)) by {
        lemma_digits_bytes(d);
        assert forall|i: int| 0 <= i < enc.len() implies #[trigger] enc[i] == encode_utf8(d)[i] by {
            assert(enc[i] == f[i + 4] as u8);
            assert(f[i + 4] == d[i]);
        }
    }
    assert(no_byte_below_zero_digit(enc)) by {
        assert forall|i: int| 0 <= i < enc.len() implies #[trigger] enc[i] >= 48 by {
            assert(enc[i] == f[i + 4] as u8);
            assert(is_digit(f[i + 4]));
        }
    }
    vstd::utf8::encode_utf8_valid_utf8(rest);
    vstd::utf8::encode_utf8_decode_utf8(rest);
    if exists|i: int| crate::prefix::best_prefix(canonical, n, i) {
        assert(crate::prefix::starts_with(canonical, prefix_path(entry)));
        assert(prefix_path(entry) + rest =~= canonical);
    } else {
        assert(entry == 0);
        assert(prefix_path(entry) + rest =~= canonical);
    }
}

/// Changing the character at `k` changes the weighted sum by the difference of
/// the weights of the old and the new character there.
pub(crate) proof fn lemma_sum_one_change(s: Seq<char>, t: Seq<char>, k: int)
    requires
        s.len() == t.len(),
        0 <= k < s.len(),
        forall|i: int| 0 <= i < s.len() && i != k ==> s[i] == t[i],
    ensures
        weighted_sum(t) + digit_weight(k, s[k]) == weighted_sum(s) + digit_weight(k, t[k]),
    decreases s.len(),
{
    if k == s.len() - 1 {
        assert(s.drop_last() =~= t.drop_last());
    } else {
        lemma_sum_one_change(s.drop_last(), t.drop_last(), k);
        assert(s.last() == t.last());
    }
}

/// Two numbers below 100 with the same two-digit text are equal.
proof fn lemma_two_digits_injective(a: nat, b: nat)
    requires
        a < 100,
        b < 100,
        two_digits(a) == two_digits(b),
    ensures
        a == b,
{
    assert(two_digits(a)[0] == two_digits(b)[0]);
    assert(two_digits(a)[1] == two_digits(b)[1]);
    assert(((48 + a / 10) as char) as int == 48 + a / 10);
    assert(((48 + b / 10) as char) as int == 48 + b / 10);
    assert(((48 + a % 10) as char) as int == 48 + a % 10);
    assert(((48 + b % 10) as char) as int == 48 + b % 10);
}

/// A single mistyped digit is caught: replacing one digit of a valid FSID by
/// another digit gives an FSID that is not valid.
pub proof fn law_single_digit_error(fsid: Seq<char>, k: int, d: char)
    requires
        is_valid(fsid),
        0 <= k < fsid.len(),
        is_digit(d),
        d != fsid[k],
    ensures
        !is_valid(fsid.update(k, d)),
{
    let n = fsid.len();
    let t = fsid.update(k, d);
    if k < n - 2 {
        let p = fsid.take(n - 2);
        let q = t.take(n - 2);
        assert(q =~= p.update(k, d));
        lemma_sum_one_change(p, q, k);
        assert(is_digit(fsid[k]));
        let x = digit_weight(k, p[k]);
        let y = digit_weight(k, d);
        assert(x != y && x <= 27 && y <= 27);
        let a = weighted_sum(p);
        let c = weighted_sum(q);
        assert(a % 100 != c % 100) by (nonlinear_arith)
            requires
                c + x == a + y,
                x != y,
                x <= 27,
                y <= 27,
        {
        }
        if two_digits(a % 100) == two_digits(c % 100) {
            lemma_two_digits_injective(a % 100, c % 100);
        }
        assert(t.skip(n - 2) =~= fsid.skip(n - 2));
    } else {
        assert(t.take(n - 2) =~= fsid.take(n - 2));
        assert(t.skip(n - 2)[k - (n - 2)] == d);
        assert(fsid.skip(n - 2)[k - (n - 2)] == fsid[k]);
    }
}

/// Swapping two neighbouring digits is caught: where a valid FSID has two
/// different digits side by side, the FSID with the two swapped is not valid.
pub proof fn law_transposition_error(fsid: Seq<char>, k: int)
    requires
        is_valid(fsid),
        0 <= k < fsid.len() - 1,
        fsid[k] != fsid[k + 1],
    ensures
        !is_valid(fsid.update(k, fsid[k + 1]).update(k + 1, fsid[k])),
{
    let n = fsid.len();
    let a = fsid[k];
    let b = fsid[k + 1];
    let t = fsid.update(k, b).update(k + 1, a);
    assert(is_digit(a) && is_digit(b));
    let p = fsid.take(n - 2);
    let q = t.take(n - 2);
    if k + 1 < n - 2 {
        let p1 = p.update(k, b);
        assert(q =~= p1.update(k + 1, a));
        lemma_sum_one_change(p, p1, k);
        lemma_sum_one_change(p1, q, k + 1);
        let d = weighted_sum(q) - weighted_sum(p);
        assert(d == digit_weight(k, b) - digit_weight(k, a) + digit_weight(k + 1, a) - digit_weight(
            k + 1,
            b,
        ));
        let x = a as int - 48;
        let y = b as int - 48;
        assert(d == 2 * (y - x) || d == 2 * (x - y));
        assert(weighted_sum(p) % 100 != weighted_sum(q) % 100) by (nonlinear_arith)
            requires
                weighted_sum(q) == weighted_sum(p) + d,
                d == 2 * (y - x) || d == 2 * (x - y),
                x != y,
                0 <= x <= 9,
                0 <= y <= 9,
        {
        }
        if two_digits(weighted_sum(p) % 100) == two_digits(weighted_sum(q) % 100) {
            lemma_two_digits_injective(weighted_sum(p) % 100, weighted_sum(q) % 100);
        }
        assert(t.skip(n - 2) =~= fsid.skip(n - 2));
    } else if k + 1 == n - 2 {
        assert(q =~= p.update(k, b));
        lemma_sum_one_change(p, q, k);
        let x = a as int - 48;
        let y = b as int - 48;
        let w = if k % 2 == 0 {
            1int
        } else {
            3int
        };
        assert(digit_weight(k, a) == w * x && digit_weight(k, b) == w * y);
        let m = weighted_sum(p) % 100;
        let m2 = weighted_sum(q) % 100;
        let c = fsid[n - 1] as int - 48;
        assert(fsid.skip(n - 2)[0] == b && fsid.skip(n - 2)[1] == fsid[n - 1]);
        assert(((48 + m / 10) as char) as int == 48 + m / 10);
        assert(((48 + m % 10) as char) as int == 48 + m % 10);
        assert(m == 10 * y + c);
        if is_valid(t) {
            assert(t.skip(n - 2)[0] == a && t.skip(n - 2)[1] == fsid[n - 1]);
            assert(((48 + m2 / 10) as char) as int == 48 + m2 / 10);
            assert(((48 + m2 % 10) as char) as int == 48 + m2 % 10);
            assert(m2 == 10 * x + c);
            assert(false) by (nonlinear_arith)
                requires
                    weighted_sum(q) + w * x == weighted_sum(p) + w * y,
                    m == weighted_sum(p) % 100,
                    m2 == weighted_sum(q) % 100,
                    m == 10 * y + c,
                    m2 == 10 * x + c,
                    w == 1 || w == 3,
                    x != y,
                    0 <= x <= 9,
                    0 <= y <= 9,
            {
            }
        }
    } else {
        assert(q =~= p);
        assert(t.skip(n - 2)[0] == b);
        assert(fsid.skip(n - 2)[0] == a);
    }
}

/// The search among the rows for plain files finds a row with the
/// permissions, the first from `c` on, or gives 9 when no such row has them.
proof fn lemma_first_mode_found(perm: u32, c: int)
    requires
        0 <= c <= 6,
    ensures
        ({
            let r = first_mode_from(perm, c);
            ||| (c <= r < 6 && mode_octal(r) == perm && forall|j: int|
                c <= j < r ==> #[trigger] mode_octal(j) != perm)
            ||| (r == 9 && forall|j: int| c <= j < 6 ==> #[trigger] mode_octal(j) != perm)
        }),
    decreases 6 - c,
{
    if c < 6 {
        lemma_first_mode_found(perm, c + 1);
    }
}

/// The mode code of a path records its permission bits: a symbolic link gets
/// 8; a directory gets the directory row (6 or 7) with its permission bits, or
/// 9 when neither has them; any other file gets the row among 0 to 5 with its
/// permission bits, or 9 when none of them has them; a file whose metadata
/// cannot be read gets 9.
pub proof fn law_mode_code_matches_permissions(facts: FileFacts)
    ensures
        facts.is_symlink ==> mode_code(facts) == 8,
        !facts.is_symlink ==> match facts.metadata {
            None => mode_code(facts) == 9,
            Some(m) => {
                let perm = m.mode & 0o777;
                let c = mode_code(facts) as int;
                if m.kind is Directory {
                    ||| ((c == 6 || c == 7) && mode_octal(c) == perm)
                    ||| (c == 9 && perm != mode_octal(6) && perm != mode_octal(7))
                } else {
                    ||| (0 <= c < 6 && mode_octal(c) == perm)
                    ||| (c == 9 && forall|j: int| 0 <= j < 6 ==> #[trigger] mode_octal(j) != perm)
                }
            },
        },
{
    if let Some(m) = facts.metadata {
        lemma_first_mode_found(m.mode & 0o777, 0);
    }
}

/// Describing the mode code of a path gives back what it was made from: for a
/// symbolic link `lrwxrwxrwx` with 777; for any other file whose mode code is
/// not 9, its own permission bits, with a symbolic form that starts with `d`
/// exactly for a directory.
pub proof fn law_mode_description_round_trip(facts: FileFacts)
    ensures
        facts.is_symlink ==> mode_description(mode_code(facts)) == ("lrwxrwxrwx"@, 0o777u32),
        !facts.is_symlink && mode_code(facts) != 9 ==> match facts.metadata {
            None => false,
            Some(m) => {
                let (symbolic, octal) = mode_description(mode_code(facts));
                &&& octal == m.mode & 0o777
                &&& symbolic.len() == 10
                &&& (symbolic[0] == 'd') == (m.kind is Directory)
            },
        },
{
    reveal_strlit("-rw-r--r--");
    reveal_strlit("-rwxr-xr-x");
    reveal_strlit("-rw-------");
    reveal_strlit("-rwx------");
    reveal_strlit("-rw-rw-r--");
    reveal_strlit("-rwxrwxr-x");
    reveal_strlit("drwxr-xr-x");
    reveal_strlit("drwx------");
    reveal_strlit("lrwxrwxrwx");
    law_mode_code_matches_permissions(facts);
}

/// The file type code of a path names the kind of file it is: a symbolic link
/// is named as one; otherwise directories, sockets, named pipes, block and
/// character devices are named as such, and regular files, other files and
/// files whose metadata cannot be read are named regular files.
pub proof fn law_file_type_names(facts: FileFacts)
    ensures
        facts.is_symlink ==> file_type_name(file_type_code(facts)) == "Symbolic link"@,
        !facts.is_symlink ==> file_type_name(file_type_code(facts)) == match facts.metadata {
            None => "Regular file"@,
            Some(m) => match m.kind {
                FileKind::Directory => "Directory"@,
                FileKind::RegularFile => "Regular file"@,
                FileKind::Socket => "Socket"@,
                FileKind::Fifo => "Named pipe (FIFO)"@,
                FileKind::BlockDevice => "Block device"@,
                FileKind::CharDevice => "Character device"@,
                FileKind::Other => "Regular file"@,
            },
        },
{
}

} // verus!
