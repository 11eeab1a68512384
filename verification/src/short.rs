//! Short FSID format (base36, compact)
//!
//! `PP T N...N C`: a two-character prefix code, the combined type and mode
//! character, the rest of the path in base36, and a base36 check character.

use vstd::prelude::*;
use vstd::string::*;
use vstd::utf8::{decode_utf8, encode_utf8, valid_utf8, is_char_boundary};
use crate::constants::{
    base36_char, base36_digit, base36_value, base36_value_of, prefix_path_at, short_code,
    short_code_at, tm_code, tm_desc, tm_mode, tm_type, type_mode_entry, SHORT_PREFIX_COUNT,
    TYPE_MODE_COUNT,
};
use crate::metadata::{type_mode_char_of, type_mode_code, FileFacts};
use crate::prefix::{code_prefix, find_code, split_path, split_prefix};
use crate::radix::{digits_of, rebase, rebase_digits, value};
use crate::standard::{digit_text, digits_to_text};
use crate::text::{all_ascii, ascii_chars, ascii_string, cuts, str_slice, utf8_string};

verus! {

/// The weight of byte `b` at position `i`: its base36 value at even
/// positions, three times that at odd ones.
pub open spec fn byte_weight(i: int, b: u8) -> nat {
    if i % 2 == 0 {
        base36_value(b) as nat
    } else {
        3 * base36_value(b) as nat
    }
}

/// The weighted base36 sum behind the check character.
pub open spec fn weighted_sum(s: Seq<u8>) -> nat
    decreases s.len(),
{
    if s.len() == 0 {
        0
    } else {
        weighted_sum(s.drop_last()) + byte_weight(s.len() - 1, s.last())
    }
}

/// The weighted sum of `s` fits the `u32` in which it is added up.
pub open spec fn sum_fits(s: Seq<u8>) -> bool {
    weighted_sum(s) <= u32::MAX
}

/// The check character of the bytes `s`: their weighted sum modulo 36, in base36.
pub open spec fn check_char(s: Seq<u8>) -> char {
    base36_digit((weighted_sum(s) % 36) as int) as char
}

/// The base36 text of the big-endian base256 number `bytes`: `0` for zero,
/// otherwise its digits without leading zeros.
pub open spec fn base36_text(bytes: Seq<u8>) -> Seq<char> {
    if value(bytes, 256) == 0 {
        seq!['0']
    } else {
        ascii_chars(digit_text(digits_of(value(bytes, 256), 36)))
    }
}

/// The base36 values of text (zero for characters outside the alphabet).
pub open spec fn base36_values(text: Seq<u8>) -> Seq<u8> {
    text.map_values(|b: u8| base36_value(b))
}

/// The bytes that base36 text stands for, written in base 256 by repeated division.
pub open spec fn base36_bytes(text: Seq<u8>) -> Seq<u8> {
    rebase(base36_values(text), 36, 256)
}

/// The first entry from `i` on of the type and mode table with character `c`, or 18.
pub open spec fn first_code_from(c: char, i: int) -> int
    decreases 18 - i,
{
    if i >= 18 {
        18
    } else if tm_code(i) == c {
        i
    } else {
        first_code_from(c, i + 1)
    }
}

/// The file type, permissions and description of a type and mode character;
/// 0, 0 and `unknown` for a character outside the table.
pub open spec fn type_mode_info(c: char) -> (u8, u32, Seq<char>) {
    let i = first_code_from(c, 0);
    if i < 18 {
        (tm_type(i), tm_mode(i), tm_desc(i))
    } else {
        (0, 0, "unknown"@)
    }
}

/// The short FSID of a path before its check character: prefix code, type
/// and mode character, and the rest of the path in base36.
pub open spec fn partial_fsid(canonical: Seq<char>, facts: FileFacts) -> Seq<char> {
    let (entry, rest) = split_prefix(canonical, SHORT_PREFIX_COUNT as int);
    ascii_chars(short_code(entry)) + seq![type_mode_code(facts)] + base36_text(encode_utf8(rest))
}

/// The short FSID of a path whose canonical form is `canonical`.
pub open spec fn fsid_of(canonical: Seq<char>, facts: FileFacts) -> Seq<char> {
    let partial = partial_fsid(canonical, facts);
    partial.push(check_char(encode_utf8(partial)))
}

/// `validate` does not panic on the bytes `b`: where there are at least 5,
/// the string can be cut before the last byte, and the sum fits.
pub open spec fn validatable(b: Seq<u8>) -> bool {
    b.len() >= 5 ==> is_char_boundary(b, b.len() - 1) && sum_fits(b.take(b.len() - 1))
}

/// What `validate` says of `fsid`: at least 5 bytes, its last character being
/// the check character of the bytes before it.
pub open spec fn is_valid(fsid: Seq<char>) -> bool {
    let b = encode_utf8(fsid);
    b.len() >= 5 && fsid.last() == check_char(b.take(b.len() - 1))
}

/// `decode` does not panic on the bytes `b`: where there are at least 5, the
/// string can be cut at bytes 2, 3 and before the last one.
pub open spec fn decodable(b: Seq<u8>) -> bool {
    b.len() >= 5 ==> is_char_boundary(b, 2) && is_char_boundary(b, 3) && is_char_boundary(
        b,
        b.len() - 1,
    )
}

/// What `decode` gives for the bytes `b`: nothing when there are fewer than 5,
/// the prefix code is unknown or the path bytes are not UTF-8; otherwise the
/// directory of the prefix code followed by the decoded path.
pub open spec fn decoded(b: Seq<u8>) -> Option<Seq<char>> {
    if b.len() < 5 {
        None
    } else {
        match code_prefix(true, decode_utf8(b.subrange(0, 2))) {
            None => None,
            Some(dir) => {
                let path_bytes = base36_bytes(b.subrange(3, b.len() - 1));
                if valid_utf8(path_bytes) {
                    Some(dir + decode_utf8(path_bytes))
                } else {
                    None
                }
            },
        }
    }
}

/// Get the directory prefix code and remaining path
pub fn get_prefix_and_remainder(path: &str) -> (r: (&'static str, &str))
    ensures
        r.0@ == ascii_chars(short_code(split_prefix(path@, SHORT_PREFIX_COUNT as int).0)),
        r.1@ == split_prefix(path@, SHORT_PREFIX_COUNT as int).1,
{
    let (entry, rest) = split_path(path, SHORT_PREFIX_COUNT);
    (short_code_at(entry), rest)
}

/// Get the prefix path from a code
pub fn get_prefix_path(code: &str) -> (r: Option<&'static str>)
    ensures
        match r {
            Some(p) => code_prefix(true, code@) == Some(p@),
            None => code_prefix(true, code@) is None,
        },
{
    match find_code(true, code) {
        Some(i) => Some(prefix_path_at(i)),
        None => None,
    }
}

/// Get combined type+mode code: the table entry with the type and permission
/// bits of the file, else the first with its type, else `z`.
pub fn get_type_mode_code(facts: &FileFacts) -> (r: char)
    ensures
        r == type_mode_code(*facts),
        (r as u32) < 128,
{
    let (t, perm) = match &facts.metadata {
        Some(m) => (
            if facts.is_symlink {
                2
            } else {
                crate::standard::get_file_type_code(facts)
            },
            m.mode & 0o777,
        ),
        None => if facts.is_symlink {
            (2u8, 0o777u32)
        } else {
            (0u8, 0o644u32)
        },
    };
    type_mode_char_of(t, perm)
}


/// Get type+mode info from code
pub fn get_type_mode_info(code: char) -> (r: (u8, u32, &'static str))
    ensures
        (r.0, r.1, r.2@) == type_mode_info(code),
{
    let mut i: usize = 0;
    while i < TYPE_MODE_COUNT
        invariant
            0 <= i <= 18,
            first_code_from(code, 0) == first_code_from(code, i as int),
        decreases 18 - i,
    {
        let (c, t, m, desc) = type_mode_entry(i);
        if c == code {
            return (t, m, desc);
        }
        i += 1;
    }
    (0, 0, "unknown")
}

/// Encode bytes to base36 string
pub fn bytes_to_base36(bytes: &[u8]) -> (r: String)
    ensures
        r@ == base36_text(bytes@),
{
    if bytes.len() == 0 {
        assert(value(bytes@, 256) == 0);
        return crate::standard::zero_text();
    }
    let ds = rebase_digits(bytes, 256, 36);
    if ds.len() == 0 {
        proof {
            if value(bytes@, 256) > 0 {
                crate::radix::lemma_digits_of(value(bytes@, 256), 36);
            }
            if bytes@ == seq![0u8] {
                crate::radix::lemma_value_single(bytes@, 256);
            }
        }
        return crate::standard::zero_text();
    }
    proof {
        if value(bytes@, 256) == 0 {
            assert(ds@ == seq![0u8]);
        } else {
            crate::radix::lemma_digits_of(value(bytes@, 256), 36);
        }
    }
    let text = digits_to_text(&ds);
    let r = ascii_string(text);
    proof {
        if value(bytes@, 256) == 0 {
            assert(r@ =~= seq!['0']);
        }
    }
    r
}

/// Decode base36 string to bytes
pub fn base36_to_bytes(s: &str) -> (r: Vec<u8>)
    ensures
        r@ == base36_bytes(s.spec_bytes()),
{
    let text = s.as_bytes();
    let mut digits: Vec<u8> = Vec::new();
    let mut i: usize = 0;
    while i < text.len()
        invariant
            0 <= i <= text@.len(),
            text@ == s.spec_bytes(),
            digits@ == base36_values(text@.take(i as int)),
        decreases text@.len() - i,
    {
        let b = text[i];
        let d = base36_value_of(b);
        digits.push(d);
        proof {
            assert(text@.take(i + 1) =~= text@.take(i as int).push(b));
            assert(base36_values(text@.take(i + 1)) =~= base36_values(text@.take(i as int)).push(d));
        }
        i += 1;
    }
    assert(text@.take(text@.len() as int) =~= text@);
    rebase_digits(digits.as_slice(), 36, 256)
}

/// A prefix weighs no more than the whole.
pub proof fn lemma_sum_prefix_bound(s: Seq<u8>, k: int)
    requires
        0 <= k <= s.len(),
    ensures
        weighted_sum(s.take(k)) <= weighted_sum(s),
    decreases s.len() - k,
{
    if k < s.len() {
        lemma_sum_prefix_bound(s, k + 1);
        assert(s.take(k + 1).drop_last() =~= s.take(k));
    } else {
        assert(s.take(k) =~= s);
    }
}

/// The check character of a byte string.
fn check_of_bytes(b: &[u8]) -> (r: char)
    requires
        sum_fits(b@),
    ensures
        r == check_char(b@),
        (r as u32) < 128,
{
    let mut sum: u32 = 0;
    let mut i: usize = 0;
    while i < b.len()
        invariant
            0 <= i <= b@.len(),
            sum_fits(b@),
            sum == weighted_sum(b@.take(i as int)),
        decreases b@.len() - i,
    {
        proof {
            lemma_sum_prefix_bound(b@, i + 1);
            assert(b@.take(i + 1).drop_last() =~= b@.take(i as int));
        }
        let val = base36_value_of(b[i]) as u32;
        if i % 2 == 0 {
            sum = sum + val;
        } else {
            sum = sum + val * 3;
        }
        i += 1;
    }
    assert(b@.take(b@.len() as int) =~= b@);
    base36_char((sum % 36) as u8) as char
}

/// Calculate single-char check (base36)
pub fn calculate_check(s: &str) -> (r: char)
    requires
        sum_fits(s.spec_bytes()),
    ensures
        r == check_char(s.spec_bytes()),
        (r as u32) < 128,
{
    check_of_bytes(s.as_bytes())
}

/// A nonempty encoding comes from a nonempty text.
proof fn lemma_nonempty_text(s: Seq<char>)
    requires
        encode_utf8(s).len() > 0,
    ensures
        s.len() > 0,
{
}

/// Can `validate` be asked about `fsid`? (Where not, it would panic.)
pub fn is_validatable(fsid: &str) -> (r: bool)
    ensures
        r == validatable(fsid.spec_bytes()),
{
    let n = fsid.as_bytes().len();
    if n < 5 {
        return true;
    }
    if !fsid.is_char_boundary(n - 1) {
        return false;
    }
    proof {
        crate::text::lemma_cuts_ends(fsid);
    }
    let head = str_slice(fsid, 0, n - 1);
    sum_fits_bytes(head.as_bytes())
}

/// Can `decode` be asked about `fsid`? (Where not, it would panic.)
pub fn is_decodable(fsid: &str) -> (r: bool)
    ensures
        r == decodable(fsid.spec_bytes()),
{
    let n = fsid.as_bytes().len();
    if n < 5 {
        return true;
    }
    fsid.is_char_boundary(2) && fsid.is_char_boundary(3) && fsid.is_char_boundary(n - 1)
}

/// Validate FSID check character
pub fn validate(fsid: &str) -> (r: bool)
    requires
        validatable(fsid.spec_bytes()),
    ensures
        r == is_valid(fsid@),
{
    let n = fsid.as_bytes().len();
    if n < 5 {
        return false;
    }
    proof {
        crate::text::lemma_cuts_ends(fsid);
        lemma_nonempty_text(fsid@);
    }
    let head = str_slice(fsid, 0, n - 1);
    let check = calculate_check(head);
    let chars = fsid.unicode_len();
    fsid.get_char(chars - 1) == check
}

/// Decode FSID back to path
pub fn decode(fsid: &str) -> (r: Option<String>)
    requires
        decodable(fsid.spec_bytes()),
    ensures
        match r {
            Some(p) => decoded(fsid.spec_bytes()) == Some(p@),
            None => decoded(fsid.spec_bytes()) is None,
        },
{
    let n = fsid.as_bytes().len();
    if n < 5 {
        return None;
    }
    proof {
        crate::text::lemma_cuts_ends(fsid);
    }
    let prefix_code = str_slice(fsid, 0, 2);
    let encoded_path = str_slice(fsid, 3, n - 1);
    let prefix_path = match get_prefix_path(prefix_code) {
        Some(p) => p,
        None => return None,
    };
    let path_bytes = base36_to_bytes(encoded_path);
    let relative_path = match utf8_string(path_bytes) {
        Some(s) => s,
        None => return None,
    };
    let mut result = prefix_path.to_owned();
    result.append(relative_path.as_str());
    Some(result)
}

/// The short FSID of a path before its check character.
fn partial_text(canonical: &str, facts: &FileFacts) -> (r: String)
    ensures
        r@ == partial_fsid(canonical@, *facts),
{
    let (prefix, remainder) = get_prefix_and_remainder(canonical);
    let type_mode = get_type_mode_code(facts);
    let encoded_path = bytes_to_base36(remainder.as_bytes());
    let mut partial = prefix.to_owned();
    let tm = crate::text::char_string(type_mode);
    partial.append(tm.as_str());
    partial.append(encoded_path.as_str());
    proof {
        assert(partial@ =~= partial_fsid(canonical@, *facts));
    }
    partial
}

/// The short FSID of a path, from its canonical form and the facts about its
/// file (the file system is read by the caller).
pub fn encode(canonical: &str, facts: &FileFacts) -> (r: String)
    requires
        sum_fits(encode_utf8(partial_fsid(canonical@, *facts))),
    ensures
        r@ == fsid_of(canonical@, *facts),
{
    let mut partial = partial_text(canonical, facts);
    let check = calculate_check(partial.as_str());
    let c = crate::text::char_string(check);
    partial.append(c.as_str());
    partial
}

/// The short FSID of a path, or nothing where adding up its check sum would
/// overflow (where generating it panics).
pub fn encode_checked(canonical: &str, facts: &FileFacts) -> (r: Option<String>)
    ensures
        match r {
            Some(f) => sum_fits(encode_utf8(partial_fsid(canonical@, *facts))) && f@ == fsid_of(
                canonical@,
                *facts,
            ),
            None => !sum_fits(encode_utf8(partial_fsid(canonical@, *facts))),
        },
{
    let mut partial = partial_text(canonical, facts);
    if !sum_fits_bytes(partial.as_str().as_bytes()) {
        return None;
    }
    let check = calculate_check(partial.as_str());
    let c = crate::text::char_string(check);
    partial.append(c.as_str());
    Some(partial)
}

/// Does the weighted sum of `b` fit a `u32`?
pub fn sum_fits_bytes(b: &[u8]) -> (r: bool)
    ensures
        r == sum_fits(b@),
{
    let mut sum: u64 = 0;
    let mut i: usize = 0;
    while i < b.len()
        invariant
            0 <= i <= b@.len(),
            sum == if weighted_sum(b@.take(i as int)) <= u32::MAX {
                weighted_sum(b@.take(i as int)) as int
            } else {
                u32::MAX + 1
            },
        decreases b@.len() - i,
    {
        proof {
            assert(b@.take(i + 1).drop_last() =~= b@.take(i as int));
        }
        if sum <= 0xffff_ffff {
            let val = base36_value_of(b[i]) as u64;
            if i % 2 == 0 {
                sum = sum + val;
            } else {
                sum = sum + val * 3;
            }
            if sum > 0xffff_ffff {
                sum = 0x1_0000_0000;
            }
        }
        i += 1;
    }
    assert(b@.take(b@.len() as int) =~= b@);
    sum <= 0xffff_ffff
}


/// The base36 text of a value is ASCII, and reads back as the value's bytes.
proof fn lemma_base36_text(b: Seq<u8>)
    ensures
        vstd::utf8::is_ascii_chars(base36_text(b)),
        base36_text(b).len() >= 1,
        crate::radix::no_leading_zero(b) ==> base36_bytes(encode_utf8(base36_text(b))) == b,
{
    let v = value(b, 256);
    if v == 0 {
        let t = base36_text(b);
        assert(vstd::utf8::is_ascii_chars(t));
        assert(encode_utf8(seq!['0']) =~= seq![48u8]) by {
            vstd::utf8::is_ascii_chars_encode_utf8(seq!['0']);
        }
        assert(base36_values(seq![48u8]) =~= seq![0u8]);
        if crate::radix::no_leading_zero(b) && b.len() > 0 {
            crate::radix::lemma_value_positive(b, 256);
        }
        if crate::radix::no_leading_zero(b) {
            assert(b =~= Seq::<u8>::empty());
        }
    } else {
        let ds = digits_of(v, 36);
        crate::radix::lemma_digits_of(v, 36);
        let text = digit_text(ds);
        assert(all_ascii(text)) by {
            assert forall|i: int| 0 <= i < text.len() implies #[trigger] text[i] < 128 by {
                assert(ds[i] < 36);
            }
        }
        crate::text::lemma_ascii_bytes(text);
        assert(base36_values(text) =~= ds) by {
            assert forall|i: int| 0 <= i < ds.len() implies #[trigger] base36_values(text)[i] == ds[i] by {
                assert(ds[i] < 36);
            }
        }
        assert(ds != seq![0u8]) by {
            if ds == seq![0u8] {
                assert(ds[0] == 0);
            }
        }
        if crate::radix::no_leading_zero(b) {
            assert(crate::radix::digits_below(b, 256));
            crate::radix::lemma_canonical_digits(b, 256);
        }
    }
}

/// The bytes after the prefix code can come back from a short FSID: the path
/// starts with `/` and the bytes of the rest of it have no leading zero byte.
pub open spec fn reversible(canonical: Seq<char>) -> bool {
    &&& canonical.len() > 0
    &&& canonical[0] == '/'
    &&& crate::radix::no_leading_zero(
        encode_utf8(split_prefix(canonical, SHORT_PREFIX_COUNT as int).1),
    )
}

/// The short FSID of a path is valid, and decoding it gives the path back,
/// whenever the path starts with `/` and the bytes of the rest of it (after the
/// table directory it is filed under) do not start with a zero byte.
pub proof fn law_roundtrip(canonical: Seq<char>, facts: FileFacts)
    requires
        reversible(canonical),
        sum_fits(encode_utf8(partial_fsid(canonical, facts))),
    ensures
        is_valid(fsid_of(canonical, facts)),
        validatable(encode_utf8(fsid_of(canonical, facts))),
        decodable(encode_utf8(fsid_of(canonical, facts))),
        decoded(encode_utf8(fsid_of(canonical, facts))) == Some(canonical),
{
    let n = SHORT_PREFIX_COUNT as int;
    let (entry, rest) = split_prefix(canonical, n);
    crate::prefix::lemma_split_prefix_entry(canonical, n);
    crate::prefix::lemma_prefix_paths();
    let rest_bytes = encode_utf8(rest);
    lemma_base36_text(rest_bytes);
    let d = base36_text(rest_bytes);
    let tm = type_mode_code(facts);
    crate::metadata::lemma_type_mode_ascii(facts);
    let code = ascii_chars(short_code(entry));
    let partial = partial_fsid(canonical, facts);
    assert(partial == code + seq![tm] + d);
    assert(vstd::utf8::is_ascii_chars(partial)) by {
        assert forall|i: int| 0 <= i < partial.len() implies '\0' <= #[trigger] partial[i] <= '\u{7f}' by {
            if i < 2 {
                assert(partial[i] == short_code(entry)[i] as char);
            } else if i == 2 {
                assert(partial[i] == tm);
            } else {
                assert(partial[i] == d[i - 3]);
            }
        }
    }
    let pb = encode_utf8(partial);
    vstd::utf8::is_ascii_chars_encode_utf8(partial);
    let check = check_char(pb);
    let f = fsid_of(canonical, facts);
    assert(f == partial.push(check));
    assert((check as u32) < 128) by {
        assert(weighted_sum(pb) % 36 < 36);
    }
    assert(vstd::utf8::is_ascii_chars(f)) by {
        assert forall|i: int| 0 <= i < f.len() implies '\0' <= #[trigger] f[i] <= '\u{7f}' by {
            if i < partial.len() {
                assert(f[i] == partial[i]);
            }
        }
    }
    let b = encode_utf8(f);
    vstd::utf8::is_ascii_chars_encode_utf8(f);
    let len = f.len();
    assert(len == 3 + d.len() + 1);
    assert(b.take(len - 1) =~= pb) by {
        assert forall|i: int| 0 <= i < len - 1 implies #[trigger] b.take(len - 1)[i] == pb[i] by {
            assert(b[i] == f[i] as u8);
            assert(f[i] == partial[i]);
            assert(pb[i] == partial[i] as u8);
        }
    }
    vstd::utf8::encode_utf8_valid_utf8(f);
    crate::text::lemma_boundary(b, 2);
    crate::text::lemma_boundary(b, 3);
    crate::text::lemma_boundary(b, len - 1);
    let code_bytes = b.subrange(0, 2);
    assert(code_bytes =~= short_code(entry)) by {
        assert forall|i: int| 0 <= i < 2 implies #[trigger] code_bytes[i] == short_code(entry)[i] by {
            assert(code_bytes[i] == f[i] as u8);
            assert(f[i] == partial[i]);
            assert(partial[i] == short_code(entry)[i] as char);
        }
    }
    assert(all_ascii(short_code(entry)));
    crate::text::lemma_ascii_bytes(short_code(entry));
    crate::prefix::lemma_code_entry(true, code, entry);
    let enc = b.subrange(3, len - 1);
    assert(enc =~= encode_utf8(d)) by {
        vstd::utf8::is_ascii_chars_encode_utf8(d);
        assert forall|i: int| 0 <= i < enc.len() implies #[trigger] enc[i] == encode_utf8(d)[i] by {
            assert(enc[i] == f[i + 3] as u8);
            assert(f[i + 3] == partial[i + 3]);
            assert(partial[i + 3] == d[i]);
        }
    }
    vstd::utf8::encode_utf8_valid_utf8(rest);
    vstd::utf8::encode_utf8_decode_utf8(rest);
    if exists|i: int| crate::prefix::best_prefix(canonical, n, i) {
        assert(crate::prefix::starts_with(canonical, crate::constants::prefix_path(entry)));
        assert(crate::constants::prefix_path(entry) + rest =~= canonical);
    } else {
        assert(entry == 0);
        assert(crate::constants::prefix_path(entry) + rest =~= canonical);
    }
}

/// Changing the byte at `k` changes the weighted sum by the difference of the
/// weights of the old and the new byte there.
proof fn lemma_sum_one_change(s: Seq<u8>, t: Seq<u8>, k: int)
    requires
        s.len() == t.len(),
        0 <= k < s.len(),
        forall|i: int| 0 <= i < s.len() && i != k ==> s[i] == t[i],
    ensures
        weighted_sum(t) + byte_weight(k, s[k]) == weighted_sum(s) + byte_weight(k, t[k]),
    decreases s.len(),
{
    if k == s.len() - 1 {
        assert(s.drop_last() =~= t.drop_last());
    } else {
        lemma_sum_one_change(s.drop_last(), t.drop_last(), k);
        assert(s.last() == t.last());
    }
}

/// Sums whose check characters agree agree modulo 36, and the other way round.
proof fn lemma_check_char_mod(a: nat, c: nat)
    ensures
        (base36_digit((a % 36) as int) as char == base36_digit((c % 36) as int) as char) == (a % 36
            == c % 36),
{
    let u = base36_digit((a % 36) as int);
    let v = base36_digit((c % 36) as int);
    assert((u as char) as int == u as int);
    assert((v as char) as int == v as int);
}

/// A digit or a lowercase letter: a character of the base36 alphabet.
pub open spec fn is_base36_char(c: char) -> bool {
    ('0' <= c <= '9') || ('a' <= c <= 'z')
}

/// What a single mistyped character does to a valid short FSID of ASCII
/// characters: a changed check character is always caught; another changed
/// character is caught unless its weight is that of the old one modulo 36.
/// Within the base36 alphabet this means that a change at an even position is
/// always caught, and one at an odd position exactly when the two values do not
/// differ by a multiple of 12.
pub proof fn law_single_char_error(fsid: Seq<char>, k: int, c: char)
    requires
        is_valid(fsid),
        vstd::utf8::is_ascii_chars(fsid),
        0 <= k < fsid.len(),
        '\0' <= c <= '\u{7f}',
        c != fsid[k],
    ensures
        k == fsid.len() - 1 ==> !is_valid(fsid.update(k, c)),
        k < fsid.len() - 1 ==> (is_valid(fsid.update(k, c)) <==> byte_weight(k, c as u8) % 36
            == byte_weight(k, fsid[k] as u8) % 36),
        k < fsid.len() - 1 && is_base36_char(c) && is_base36_char(fsid[k]) ==> (is_valid(
            fsid.update(k, c),
        ) <==> (k % 2 == 1 && (base36_value(c as u8) - base36_value(fsid[k] as u8)) % 12 == 0)),
{
    let n = fsid.len();
    let t = fsid.update(k, c);
    assert(vstd::utf8::is_ascii_chars(t)) by {
        assert forall|i: int| 0 <= i < t.len() implies '\0' <= #[trigger] t[i] <= '\u{7f}' by {
            if i != k {
                assert(t[i] == fsid[i]);
            }
        }
    }
    vstd::utf8::is_ascii_chars_encode_utf8(fsid);
    vstd::utf8::is_ascii_chars_encode_utf8(t);
    let b = encode_utf8(fsid);
    let bt = encode_utf8(t);
    let p = b.take(n - 1);
    let q = bt.take(n - 1);
    if k == n - 1 {
        assert(q =~= p) by {
            assert forall|i: int| 0 <= i < n - 1 implies #[trigger] q[i] == p[i] by {
                assert(bt[i] == t[i] as u8);
                assert(b[i] == fsid[i] as u8);
            }
        }
        assert(t.last() == c);
    } else {
        assert(t.last() == fsid.last());
        assert forall|i: int| 0 <= i < n - 1 && i != k implies p[i] == q[i] by {
            assert(bt[i] == t[i] as u8);
            assert(b[i] == fsid[i] as u8);
        }
        assert(q[k] == c as u8 && p[k] == fsid[k] as u8) by {
            assert(bt[k] == t[k] as u8);
            assert(b[k] == fsid[k] as u8);
        }
        lemma_sum_one_change(p, q, k);
        let x = byte_weight(k, p[k]);
        let y = byte_weight(k, q[k]);
        let a = weighted_sum(p);
        let e = weighted_sum(q);
        lemma_check_char_mod(a, e);
        assert((a % 36 == e % 36) == (x % 36 == y % 36)) by (nonlinear_arith)
            requires
                e + x == a + y,
        {
        }
        if is_base36_char(c) && is_base36_char(fsid[k]) {
            let v = base36_value(fsid[k] as u8);
            let w = base36_value(c as u8);
            assert(v != w);
            assert(v < 36 && w < 36);
            if k % 2 == 0 {
                assert(x == v && y == w);
            } else {
                assert(x == 3 * v && y == 3 * w);
                assert(((3 * v) % 36 == (3 * w) % 36) == ((w - v) % 12 == 0)) by (nonlinear_arith)
                    requires
                        v < 36,
                        w < 36,
                {
                }
            }
        }
    }
}

/// Every character of a short FSID is a digit or a lowercase letter.
pub proof fn lemma_fsid_chars(canonical: Seq<char>, facts: FileFacts)
    ensures
        forall|i: int|
            0 <= i < fsid_of(canonical, facts).len() ==> is_base36_char(
                #[trigger] fsid_of(canonical, facts)[i],
            ),
{
    let n = SHORT_PREFIX_COUNT as int;
    let (entry, rest) = split_prefix(canonical, n);
    crate::prefix::lemma_split_prefix_entry(canonical, n);
    let rest_bytes = encode_utf8(rest);
    let d = base36_text(rest_bytes);
    let tm = type_mode_code(facts);
    crate::metadata::lemma_type_mode_ascii(facts);
    let code = ascii_chars(short_code(entry));
    let partial = partial_fsid(canonical, facts);
    let f = fsid_of(canonical, facts);
    assert(partial == code + seq![tm] + d);
    assert forall|i: int| 0 <= i < d.len() implies is_base36_char(#[trigger] d[i]) by {
        let v = value(rest_bytes, 256);
        if v != 0 {
            let ds = digits_of(v, 36);
            crate::radix::lemma_digits_of(v, 36);
            assert(ds[i] < 36);
        }
    }
    assert forall|i: int| 0 <= i < f.len() implies is_base36_char(#[trigger] f[i]) by {
        if i < 2 {
            assert(f[i] == short_code(entry)[i] as char);
        } else if i == 2 {
            assert(f[i] == tm);
        } else if i < partial.len() {
            assert(f[i] == d[i - 3]);
        } else {
            assert(weighted_sum(encode_utf8(partial)) % 36 < 36);
        }
    }
}

/// What swapping two neighbouring characters before the check character does
/// to a valid short FSID of ASCII characters: within the base36 alphabet the
/// swap goes unnoticed exactly when the values of the two characters differ by
/// a multiple of 18 (such as `0` and `i`).
pub proof fn law_transposition_error(fsid: Seq<char>, k: int)
    requires
        is_valid(fsid),
        vstd::utf8::is_ascii_chars(fsid),
        0 <= k,
        k + 2 < fsid.len(),
        is_base36_char(fsid[k]),
        is_base36_char(fsid[k + 1]),
        fsid[k] != fsid[k + 1],
    ensures
        is_valid(fsid.update(k, fsid[k + 1]).update(k + 1, fsid[k])) <==> (base36_value(
            fsid[k + 1] as u8,
        ) - base36_value(fsid[k] as u8)) % 18 == 0,
{
    let n = fsid.len();
    let a = fsid[k];
    let b = fsid[k + 1];
    let t = fsid.update(k, b).update(k + 1, a);
    assert(vstd::utf8::is_ascii_chars(t)) by {
        assert forall|i: int| 0 <= i < t.len() implies '\0' <= #[trigger] t[i] <= '\u{7f}' by {
            if i != k && i != k + 1 {
                assert(t[i] == fsid[i]);
            }
        }
    }
    vstd::utf8::is_ascii_chars_encode_utf8(fsid);
    vstd::utf8::is_ascii_chars_encode_utf8(t);
    let bs = encode_utf8(fsid);
    let bt = encode_utf8(t);
    let p = bs.take(n - 1);
    let q = bt.take(n - 1);
    let p1 = p.update(k, b as u8);
    assert(q =~= p1.update(k + 1, a as u8)) by {
        assert forall|i: int| 0 <= i < n - 1 implies #[trigger] q[i] == p1.update(k + 1, a as u8)[i] by {
            assert(bt[i] == t[i] as u8);
            assert(bs[i] == fsid[i] as u8);
        }
    }
    assert(p[k] == a as u8 && p[k + 1] == b as u8) by {
        assert(bs[k] == fsid[k] as u8);
        assert(bs[k + 1] == fsid[k + 1] as u8);
    }
    lemma_sum_one_change(p, p1, k);
    lemma_sum_one_change(p1, q, k + 1);
    assert(t.last() == fsid.last());
    let va = base36_value(a as u8);
    let vb = base36_value(b as u8);
    assert(va != vb);
    let d = weighted_sum(q) - weighted_sum(p);
    assert(d == 2 * (vb - va) || d == 2 * (va - vb));
    lemma_check_char_mod(weighted_sum(p), weighted_sum(q));
    assert((weighted_sum(p) % 36 == weighted_sum(q) % 36) == ((vb - va) % 18 == 0)) by (nonlinear_arith)
        requires
            weighted_sum(q) == weighted_sum(p) + d,
            d == 2 * (vb - va) || d == 2 * (va - vb),
            va < 36,
            vb < 36,
    {
    }
}

/// The search for an entry with a type and permissions finds the first such
/// entry from `i` on, or gives 18 when there is none.
proof fn lemma_first_type_mode_found(t: u8, perm: u32, i: int)
    requires
        0 <= i <= 18,
    ensures
        ({
            let r = crate::metadata::first_type_mode_from(t, perm, i);
            ||| (i <= r < 18 && tm_type(r) == t && tm_mode(r) == perm)
            ||| (r == 18 && forall|j: int|
                i <= j < 18 ==> !(#[trigger] tm_type(j) == t && tm_mode(j) == perm))
        }),
    decreases 18 - i,
{
    if i < 18 {
        lemma_first_type_mode_found(t, perm, i + 1);
    }
}

/// The search for an entry with a type finds the first such entry from `i`
/// on, or gives 18 when there is none.
proof fn lemma_first_type_found(t: u8, i: int)
    requires
        0 <= i <= 18,
    ensures
        ({
            let r = crate::metadata::first_type_from(t, i);
            ||| (i <= r < 18 && tm_type(r) == t)
            ||| (r == 18 && forall|j: int| i <= j < 18 ==> #[trigger] tm_type(j) != t)
        }),
    decreases 18 - i,
{
    if i < 18 {
        lemma_first_type_found(t, i + 1);
    }
}

/// Each character of the type and mode table leads back to its own entry.
proof fn lemma_code_finds_entry(e: int, i: int)
    requires
        0 <= i <= e < 18,
    ensures
        first_code_from(tm_code(e), i) == e,
    decreases e - i,
{
    if i < e {
        assert(tm_code(i) != tm_code(e));
        lemma_code_finds_entry(e, i + 1);
    }
}

/// Reading back the type and mode character of a file type and permissions
/// gives them back: where the table has an entry with both, the character
/// stands for exactly that type and those permissions; where it only has
/// entries with the type, the character stands for that type; and where it
/// has none, the character is `z`.
pub proof fn law_type_mode_round_trip(t: u8, perm: u32)
    ensures
        (exists|i: int| 0 <= i < 18 && #[trigger] tm_type(i) == t && tm_mode(i) == perm) ==> {
            &&& type_mode_info(crate::metadata::type_mode_char(t, perm)).0 == t
            &&& type_mode_info(crate::metadata::type_mode_char(t, perm)).1 == perm
        },
        (exists|i: int| 0 <= i < 18 && #[trigger] tm_type(i) == t) ==> type_mode_info(
            crate::metadata::type_mode_char(t, perm),
        ).0 == t,
        (forall|i: int| 0 <= i < 18 ==> #[trigger] tm_type(i) != t)
            ==> crate::metadata::type_mode_char(t, perm) == 'z',
{
    lemma_first_type_mode_found(t, perm, 0);
    lemma_first_type_found(t, 0);
    let e = crate::metadata::first_type_mode_from(t, perm, 0);
    let k = crate::metadata::first_type_from(t, 0);
    if e < 18 {
        lemma_code_finds_entry(e, 0);
    } else if k < 18 {
        lemma_code_finds_entry(k, 0);
    }
}

} // verus!
