//! Minimal FSID format (13 digits, requires storage)
//!
//! `PP T M HHHHHHHH C`: a two-digit prefix code, the file type code, the mode
//! code, an eight-digit hash of the path and an ISBN-13 style check digit.

use vstd::prelude::*;
use vstd::string::*;
use vstd::utf8::{decode_utf8, encode_utf8, is_char_boundary};
use crate::constants::{std_code, STD_PREFIX_COUNT};
use crate::metadata::{file_type_code, mode_code, FileFacts};
use crate::prefix::{code_prefix, split_prefix};
use crate::standard::{
    all_digits, digit_weight, get_file_type_code, get_mode_code, is_digit, lemma_digits_bytes,
    lemma_sum_one_change, mode_description, weighted_digit_sum, weighted_sum,
};
use crate::text::{all_ascii, ascii_chars, ascii_string, cuts, str_slice};

verus! {

/// The djb2 hash of the bytes: start from 5381, then for each byte multiply by
/// 33 and add the byte, wrapping around at 2^64.
pub open spec fn djb2(b: Seq<u8>) -> u64
    decreases b.len(),
{
    if b.len() == 0 {
        5381
    } else {
        djb2(b.drop_last()).wrapping_mul(33).wrapping_add(b.last() as u64)
    }
}

/// The last `k` decimal digits of `n`, zeros first where `n` has fewer.
pub open spec fn last_digits(n: nat, k: nat) -> Seq<char>
    decreases k,
{
    if k == 0 {
        seq![]
    } else {
        last_digits(n / 10, (k - 1) as nat).push((48 + n % 10) as char)
    }
}

/// The eight-digit hash of a path: its djb2 hash modulo 10^8, zero-padded.
pub open spec fn path_hash(path: Seq<u8>) -> Seq<char> {
    last_digits((djb2(path) % 100_000_000) as nat, 8)
}

/// The ISBN-13 style check digit: what brings the weighted digit sum to a
/// multiple of ten.
pub open spec fn check_digit(s: Seq<char>) -> char {
    (48 + (10 - weighted_sum(s) % 10) % 10) as char
}

/// The minimal FSID of a path before its check digit.
pub open spec fn partial_fsid(canonical: Seq<char>, facts: FileFacts) -> Seq<char> {
    ascii_chars(std_code(split_prefix(canonical, STD_PREFIX_COUNT as int).0)) + seq![
        (48 + file_type_code(facts)) as char,
        (48 + mode_code(facts)) as char,
    ] + path_hash(encode_utf8(canonical))
}

/// The minimal FSID of a path whose canonical form is `canonical`.
pub open spec fn fsid_of(canonical: Seq<char>, facts: FileFacts) -> Seq<char> {
    let partial = partial_fsid(canonical, facts);
    partial.push(check_digit(partial))
}

/// A valid minimal FSID: 13 digits, the last the check digit of the others.
pub open spec fn is_valid(fsid: Seq<char>) -> bool {
    &&& all_digits(fsid)
    &&& fsid.len() == 13
    &&& fsid[12] == check_digit(fsid.take(12))
}

/// The digit a byte stands for, if it is one (as parsing a one-byte string
/// as `u8` gives it).
pub open spec fn digit_of(b: u8) -> Option<u8> {
    if 48 <= b <= 57 {
        Some((b - 48) as u8)
    } else {
        None
    }
}

/// `parse` does not panic on the bytes `b`: where there are 13, the string can
/// be cut at bytes 2 and 3, at 4 once byte 2 is a digit, and at 12 once bytes 2
/// and 3 are digits.
pub open spec fn parsable(b: Seq<u8>) -> bool {
    b.len() == 13 ==> {
        &&& is_char_boundary(b, 2)
        &&& is_char_boundary(b, 3)
        &&& digit_of(b[2]) is Some ==> is_char_boundary(b, 4)
        &&& digit_of(b[2]) is Some && digit_of(b[3]) is Some ==> is_char_boundary(b, 12)
    }
}

/// Get the directory prefix code
fn get_prefix_code(path: &str) -> (r: &'static str)
    ensures
        r@ == ascii_chars(std_code(split_prefix(path@, STD_PREFIX_COUNT as int).0)),
{
    crate::standard::get_prefix_and_remainder(path).0
}

/// Get the prefix path from a code
pub fn get_prefix_path(code: &str) -> (r: Option<&'static str>)
    ensures
        match r {
            Some(p) => code_prefix(false, code@) == Some(p@),
            None => code_prefix(false, code@) is None,
        },
{
    crate::standard::get_prefix_path(code)
}

/// Get permission mode description
pub fn get_mode_description(code: u8) -> (r: (&'static str, u32))
    ensures
        (r.0@, r.1) == mode_description(code),
{
    crate::standard::get_mode_description(code)
}

/// Generate 8-digit path hash using djb2 algorithm
fn generate_path_hash(path: &str) -> (r: String)
    ensures
        r@ == path_hash(path.spec_bytes()),
{
    let bytes = path.as_bytes();
    let mut hash: u64 = 5381;
    let mut i: usize = 0;
    while i < bytes.len()
        invariant
            0 <= i <= bytes@.len(),
            hash == djb2(bytes@.take(i as int)),
        decreases bytes@.len() - i,
    {
        proof {
            assert(bytes@.take(i + 1).drop_last() =~= bytes@.take(i as int));
        }
        hash = hash.wrapping_mul(33).wrapping_add(bytes[i] as u64);
        i += 1;
    }
    assert(bytes@.take(bytes@.len() as int) =~= bytes@);
    let n = hash % 100_000_000;
    let mut v = n;
    let mut low_first: Vec<u8> = Vec::new();
    let mut k: usize = 0;
    while k < 8
        invariant
            0 <= k <= 8,
            low_first@.len() == k,
            all_ascii(low_first@),
            last_digits(n as nat, 8) == last_digits(v as nat, (8 - k) as nat) + ascii_chars(
                low_first@,
            ).reverse(),
        decreases 8 - k,
    {
        let ghost old_low = low_first@;
        let d = (v % 10) as u8;
        low_first.push(48 + d);
        proof {
            assert(last_digits(v as nat, (8 - k) as nat) == last_digits((v / 10) as nat, (8 - k
                - 1) as nat).push((48 + v % 10) as char));
            assert(ascii_chars(low_first@).reverse() =~= seq![(48 + d) as char] + ascii_chars(
                old_low,
            ).reverse());
        }
        v = v / 10;
        k += 1;
    }
    let mut out: Vec<u8> = Vec::new();
    let mut j: usize = 8;
    while j > 0
        invariant
            j <= 8,
            low_first@.len() == 8,
            all_ascii(low_first@),
            all_ascii(out@),
            ascii_chars(out@) =~= ascii_chars(low_first@).reverse().take(8 - j),
        decreases j,
    {
        j -= 1;
        out.push(low_first[j]);
        proof {
            assert(ascii_chars(low_first@).reverse().take(8 - j) =~= ascii_chars(
                low_first@,
            ).reverse().take(8 - j - 1).push(low_first@[j as int] as char));
        }
    }
    proof {
        assert(last_digits(v as nat, 0) =~= Seq::<char>::empty());
        assert(ascii_chars(low_first@).reverse().take(8) =~= ascii_chars(low_first@).reverse());
    }
    ascii_string(out)
}

/// Calculate check digit (ISBN-13 style)
fn calculate_check_digit(digits: &str) -> (r: char)
    requires
        crate::standard::sum_fits(digits@),
    ensures
        r == check_digit(digits@),
        is_digit(r),
{
    let sum = weighted_digit_sum(digits);
    let check = (10 - (sum % 10)) % 10;
    ((48 + check) as u8) as char
}

/// The weighted sum of twelve digits is small.
proof fn lemma_twelve_digits_sum(s: Seq<char>)
    requires
        all_digits(s),
        s.len() <= 13,
    ensures
        weighted_sum(s) <= 27 * s.len(),
    decreases s.len(),
{
    if s.len() > 0 {
        assert(all_digits(s.drop_last())) by {
            assert forall|i: int| 0 <= i < s.drop_last().len() implies is_digit(
                #[trigger] s.drop_last()[i],
            ) by {
                assert(s.drop_last()[i] == s[i]);
            }
        }
        lemma_twelve_digits_sum(s.drop_last());
        assert(is_digit(s[s.len() - 1]));
    }
}

/// Validate 13-digit FSID
pub fn validate(fsid: &str) -> (r: bool)
    ensures
        r == is_valid(fsid@),
{
    let fb = fsid.as_bytes();
    let n = fb.len();
    let all = crate::standard::all_digit_chars(fsid);
    if n != 13 || !all {
        proof {
            if all_digits(fsid@) {
                lemma_digits_bytes(fsid@);
            }
        }
        return false;
    }
    proof {
        lemma_digits_bytes(fsid@);
        vstd::utf8::encode_utf8_valid_utf8(fsid@);
        crate::text::lemma_boundary(fsid.spec_bytes(), 12);
        crate::text::lemma_cuts_ends(fsid);
        let b = fsid.spec_bytes();
        assert(ascii_chars(b.subrange(0, 12)) =~= fsid@.take(12));
        crate::text::lemma_ascii_bytes(b.subrange(0, 12));
        assert(all_digits(fsid@.take(12)));
        lemma_twelve_digits_sum(fsid@.take(12));
    }
    let head = str_slice(fsid, 0, 12);
    let check = calculate_check_digit(head);
    fsid.get_char(12) == check
}

/// The minimal FSID of a path, from its canonical form and the facts about
/// its file (the file system is read by the caller).
pub fn encode(canonical: &str, facts: &FileFacts) -> (r: String)
    ensures
        r@ == fsid_of(canonical@, *facts),
{
    let prefix = get_prefix_code(canonical);
    let file_type = get_file_type_code(facts);
    let mode = get_mode_code(facts);
    let hash = generate_path_hash(canonical);
    let mut partial = prefix.to_owned();
    let mut codes: Vec<u8> = Vec::new();
    codes.push(48 + file_type);
    codes.push(48 + mode);
    let codes = ascii_string(codes);
    partial.append(codes.as_str());
    partial.append(hash.as_str());
    proof {
        assert(codes@ =~= seq![(48 + file_type) as char, (48 + mode) as char]);
        assert(partial@ =~= partial_fsid(canonical@, *facts));
        lemma_partial_digits(canonical@, *facts);
        lemma_twelve_digits_sum(partial@);
    }
    let check = calculate_check_digit(partial.as_str());
    let c = crate::text::char_string(check);
    partial.append(c.as_str());
    partial
}

/// The hash digits are digits.
proof fn lemma_last_digits(n: nat, k: nat)
    ensures
        all_digits(last_digits(n, k)),
        last_digits(n, k).len() == k,
    decreases k,
{
    if k > 0 {
        lemma_last_digits(n / 10, (k - 1) as nat);
        let s = last_digits(n, k);
        assert forall|i: int| 0 <= i < s.len() implies is_digit(#[trigger] s[i]) by {
            if i < k - 1 {
                assert(s[i] == last_digits(n / 10, (k - 1) as nat)[i]);
            }
        }
    }
}

/// The part of a minimal FSID before its check digit is 12 digits.
pub proof fn lemma_partial_digits(canonical: Seq<char>, facts: FileFacts)
    ensures
        all_digits(partial_fsid(canonical, facts)),
        partial_fsid(canonical, facts).len() == 12,
{
    let entry = split_prefix(canonical, STD_PREFIX_COUNT as int).0;
    crate::prefix::lemma_split_prefix_entry(canonical, STD_PREFIX_COUNT as int);
    lemma_last_digits((djb2(encode_utf8(canonical)) % 100_000_000) as nat, 8);
    let p = partial_fsid(canonical, facts);
    let code = ascii_chars(std_code(entry));
    let hash = path_hash(encode_utf8(canonical));
    assert(file_type_code(facts) <= 7) by {
        reveal_with_fuel(file_type_code, 1);
    }
    assert(mode_code(facts) <= 9) by {
        if let Some(m) = facts.metadata {
            crate::metadata::lemma_first_mode_bound(m.mode & 0o777, 0);
        }
    }
    assert forall|i: int| 0 <= i < p.len() implies is_digit(#[trigger] p[i]) by {
        if i >= 4 {
            assert(p[i] == hash[i - 4]);
        }
    }
}

/// Minimal FSID info
pub struct MinInfo {
    pub prefix_code: String,
    pub prefix_path: String,
    pub file_type_code: u8,
    pub mode_code: u8,
    pub mode_symbolic: String,
    pub mode_octal: u32,
    pub hash: String,
    pub check_digit: char,
    pub valid: bool,
}

/// Parse one byte as a decimal digit.
pub fn digit_of_byte(b: u8) -> (r: Option<u8>)
    ensures
        r == digit_of(b),
{
    if 48 <= b && b <= 57 {
        Some(b - 48)
    } else {
        None
    }
}

/// Parse 13-digit FSID
pub fn parse(fsid: &str) -> (r: Option<MinInfo>)
    requires
        parsable(fsid.spec_bytes()),
    ensures
        ({
            let b = fsid.spec_bytes();
            &&& r is Some == (b.len() == 13 && digit_of(b[2]) is Some && digit_of(b[3]) is Some)
            &&& r matches Some(info) ==> {
                let code = decode_utf8(b.subrange(0, 2));
                &&& info.prefix_code@ == code
                &&& info.prefix_path@ == match code_prefix(false, code) {
                    Some(p) => p,
                    None => seq!['/'],
                }
                &&& Some(info.file_type_code) == digit_of(b[2])
                &&& Some(info.mode_code) == digit_of(b[3])
                &&& (info.mode_symbolic@, info.mode_octal) == mode_description(info.mode_code)
                &&& info.hash@ == decode_utf8(b.subrange(4, 12))
                &&& info.check_digit == fsid@.last()
                &&& info.valid == is_valid(fsid@)
            }
        }),
{
    let fb = fsid.as_bytes();
    if fb.len() != 13 {
        return None;
    }
    proof {
        crate::text::lemma_cuts_ends(fsid);
        vstd::utf8::encode_utf8_valid_utf8(fsid@);
        crate::text::lemma_boundary(fsid.spec_bytes(), 2);
        crate::text::lemma_boundary(fsid.spec_bytes(), 3);
    }
    let prefix_code = str_slice(fsid, 0, 2);
    let file_type_code = match digit_of_byte(fb[2]) {
        Some(d) => d,
        None => return None,
    };
    let mode_code = match digit_of_byte(fb[3]) {
        Some(d) => d,
        None => return None,
    };
    let hash = str_slice(fsid, 4, 12);
    proof {
        assert(fsid.spec_bytes().len() > 0);
        assert(fsid@.len() > 0);
    }
    let check_digit = fsid.get_char(fsid.unicode_len() - 1);
    let prefix_path = match get_prefix_path(prefix_code) {
        Some(p) => p,
        None => "/",
    };
    let (mode_symbolic, mode_octal) = get_mode_description(mode_code);
    let info_path = prefix_path.to_owned();
    proof {
        reveal_strlit("/");
    }
    Some(
        MinInfo {
            prefix_code: prefix_code.to_owned(),
            prefix_path: info_path,
            file_type_code,
            mode_code,
            mode_symbolic: mode_symbolic.to_owned(),
            mode_octal,
            hash: hash.to_owned(),
            check_digit,
            valid: validate(fsid),
        },
    )
}


/// The minimal FSID of any path is valid: thirteen digits, the last its check digit.
pub proof fn law_valid(canonical: Seq<char>, facts: FileFacts)
    ensures
        is_valid(fsid_of(canonical, facts)),
{
    let partial = partial_fsid(canonical, facts);
    lemma_partial_digits(canonical, facts);
    let f = fsid_of(canonical, facts);
    assert(f.take(12) =~= partial);
    assert(all_digits(f)) by {
        assert forall|i: int| 0 <= i < f.len() implies is_digit(#[trigger] f[i]) by {
            if i < 12 {
                assert(f[i] == partial[i]);
            }
        }
    }
}

/// Two sums with the same check digit agree modulo ten, and the other way round.
proof fn lemma_check_digit_mod(a: nat, c: nat)
    ensures
        (((48 + (10 - a % 10) % 10) as char) == ((48 + (10 - c % 10) % 10) as char)) == (a % 10
            == c % 10),
{
    let u = 48 + (10 - a % 10) % 10;
    let v = 48 + (10 - c % 10) % 10;
    assert((u as char) as int == u);
    assert((v as char) as int == v);
}

/// A single mistyped digit is caught: replacing one digit of a valid minimal
/// FSID by another digit gives an FSID that is not valid.
pub proof fn law_single_digit_error(fsid: Seq<char>, k: int, d: char)
    requires
        is_valid(fsid),
        0 <= k < 13,
        is_digit(d),
        d != fsid[k],
    ensures
        !is_valid(fsid.update(k, d)),
{
    let t = fsid.update(k, d);
    let p = fsid.take(12);
    let q = t.take(12);
    if k < 12 {
        assert(q =~= p.update(k, d));
        lemma_sum_one_change(p, q, k);
        assert(is_digit(fsid[k]));
        let x = fsid[k] as int - 48;
        let y = d as int - 48;
        let w = if k % 2 == 0 {
            1int
        } else {
            3int
        };
        assert(digit_weight(k, p[k]) == w * x && digit_weight(k, d) == w * y);
        lemma_check_digit_mod(weighted_sum(p), weighted_sum(q));
        assert(weighted_sum(p) % 10 != weighted_sum(q) % 10) by (nonlinear_arith)
            requires
                weighted_sum(q) + w * x == weighted_sum(p) + w * y,
                w == 1 || w == 3,
                x != y,
                0 <= x <= 9,
                0 <= y <= 9,
        {
        }
        assert(t[12] == fsid[12]);
    } else {
        assert(q =~= p);
    }
}

/// What swapping two neighbouring digits does to a valid minimal FSID: the
/// swap goes unnoticed exactly when the two digits differ by 5, as with
/// ISBN-13.
pub proof fn law_transposition_error(fsid: Seq<char>, k: int)
    requires
        is_valid(fsid),
        0 <= k < 12,
        fsid[k] != fsid[k + 1],
    ensures
        is_valid(fsid.update(k, fsid[k + 1]).update(k + 1, fsid[k])) <==> (fsid[k + 1] as int
            - fsid[k] as int) % 5 == 0,
{
    let a = fsid[k];
    let b = fsid[k + 1];
    let t = fsid.update(k, b).update(k + 1, a);
    assert(is_digit(a) && is_digit(b));
    let x = a as int - 48;
    let y = b as int - 48;
    assert(all_digits(t)) by {
        assert forall|i: int| 0 <= i < t.len() implies is_digit(#[trigger] t[i]) by {
            if i != k && i != k + 1 {
                assert(t[i] == fsid[i]);
            }
        }
    }
    let p = fsid.take(12);
    let q = t.take(12);
    lemma_check_digit_mod(weighted_sum(p), weighted_sum(q));
    if k + 1 < 12 {
        let p1 = p.update(k, b);
        assert(q =~= p1.update(k + 1, a));
        lemma_sum_one_change(p, p1, k);
        lemma_sum_one_change(p1, q, k + 1);
        let dd = weighted_sum(q) - weighted_sum(p);
        assert(dd == 2 * (y - x) || dd == 2 * (x - y));
        assert((weighted_sum(p) % 10 == weighted_sum(q) % 10) == ((y - x) % 5 == 0))
            by (nonlinear_arith)
            requires
                weighted_sum(q) == weighted_sum(p) + dd,
                dd == 2 * (y - x) || dd == 2 * (x - y),
                0 <= x <= 9,
                0 <= y <= 9,
        {
        }
        assert(t[12] == fsid[12]);
    } else {
        assert(q =~= p.update(11, b));
        lemma_sum_one_change(p, q, 11);
        assert(digit_weight(11, a) == 3 * x && digit_weight(11, b) == 3 * y);
        let s0 = weighted_sum(p);
        let s1 = weighted_sum(q);
        assert(t[12] == a);
        assert(fsid[12] == check_digit(p));
        assert(y == (10 - s0 % 10) % 10) by {
            assert(((48 + (10 - s0 % 10) % 10) as char) as int == 48 + (10 - s0 % 10) % 10);
        }
        assert((((48 + (10 - s1 % 10) % 10) as char) as int) == 48 + (10 - s1 % 10) % 10);
        assert(((10 - s1 % 10) % 10 == x) == ((y - x) % 5 == 0)) by (nonlinear_arith)
            requires
                s1 + 3 * x == s0 + 3 * y,
                y == (10 - s0 % 10) % 10,
                0 <= x <= 9,
                0 <= y <= 9,
        {
        }
    }
}

/// The minimal and the standard FSID of a path begin alike: the same prefix
/// code (the code that the standard split of the path gives), file type code
/// and mode code.
pub proof fn law_same_head_as_standard(canonical: Seq<char>, facts: FileFacts)
    ensures
        fsid_of(canonical, facts).take(4) == crate::standard::fsid_of(canonical, facts).take(4),
        fsid_of(canonical, facts).take(2) == ascii_chars(
            std_code(split_prefix(canonical, STD_PREFIX_COUNT as int).0),
        ),
{
    let code = ascii_chars(std_code(split_prefix(canonical, STD_PREFIX_COUNT as int).0));
    let head = code + seq![(48 + file_type_code(facts)) as char, (48 + mode_code(facts)) as char];
    let m = fsid_of(canonical, facts);
    let s = crate::standard::fsid_of(canonical, facts);
    let mp = partial_fsid(canonical, facts);
    let sp = crate::standard::partial_fsid(canonical, facts);
    assert(mp == head + path_hash(encode_utf8(canonical)));
    assert(sp == head + crate::standard::decimal_text(
        encode_utf8(split_prefix(canonical, STD_PREFIX_COUNT as int).1),
    ));
    assert(m.take(4) =~= head) by {
        assert forall|i: int| 0 <= i < 4 implies #[trigger] m[i] == head[i] by {
            assert(m[i] == mp[i]);
        }
    }
    assert(s.take(4) =~= head) by {
        assert forall|i: int| 0 <= i < 4 implies #[trigger] s[i] == head[i] by {
            assert(s[i] == sp[i]);
        }
    }
    assert(m.take(2) =~= code) by {
        assert forall|i: int| 0 <= i < 2 implies #[trigger] m[i] == code[i] by {
            assert(m[i] == mp[i]);
            assert(mp[i] == head[i]);
        }
    }
}

/// The path hash is djb2 over the raw bytes of the path: it starts at 5381,
/// and each byte, whatever it is, multiplies the hash so far by 33 and adds
/// the byte's value, modulo 2^64.
pub proof fn law_djb2_bytes(b: Seq<u8>, x: u8)
    ensures
        djb2(Seq::<u8>::empty()) == 5381,
        djb2(b.push(x)) as int == (djb2(b) as int * 33 + x as int) % 0x1_0000_0000_0000_0000,
{
    assert(b.push(x).drop_last() =~= b);
    let d = djb2(b) as int;
    let m = 0x1_0000_0000_0000_0000int;
    let w = (d * 33) % m;
    assert(djb2(b).wrapping_mul(33) as int == w);
    assert(0 <= w < m);
    let r = djb2(b.push(x)) as int;
    assert(r == if w + x > u64::MAX {
        w + x - m
    } else {
        w + x
    });
    assert(r == (d * 33 + x) % m) by (nonlinear_arith)
        requires
            w == (d * 33) % m,
            m == 0x1_0000_0000_0000_0000int,
            0 <= x < 256,
            0 <= d,
            r == if w + x > u64::MAX {
                w + x - m
            } else {
                w + x
            },
    {
    }
}

/// The number that decimal digits stand for, the last digit counting one.
pub open spec fn decimal_value(s: Seq<char>) -> nat
    decreases s.len(),
{
    if s.len() == 0 {
        0
    } else {
        decimal_value(s.drop_last()) * 10 + (s.last() as int - 48) as nat
    }
}

/// Ten to the power `k`.
pub open spec fn pow10(k: nat) -> nat
    decreases k,
{
    if k == 0 {
        1
    } else {
        10 * pow10((k - 1) as nat)
    }
}

/// The last `k` decimal digits of `n` stand for `n` modulo 10^k.
proof fn lemma_last_digits_value(n: nat, k: nat)
    ensures
        decimal_value(last_digits(n, k)) == n % pow10(k),
    decreases k,
{
    if k > 0 {
        lemma_last_digits_value(n / 10, (k - 1) as nat);
        let s = last_digits(n, k);
        assert(s.drop_last() == last_digits(n / 10, (k - 1) as nat));
        assert(s.last() == (48 + n % 10) as char);
        assert(((48 + n % 10) as char) as int == 48 + n % 10);
        let p = pow10((k - 1) as nat);
        assert(p > 0) by {
            lemma_pow10_positive((k - 1) as nat);
        }
        vstd::arithmetic::div_mod::lemma_mod_breakdown(n as int, 10, p as int);
    }
}

/// Powers of ten are positive.
proof fn lemma_pow10_positive(k: nat)
    ensures
        pow10(k) > 0,
    decreases k,
{
    if k > 0 {
        lemma_pow10_positive((k - 1) as nat);
    }
}

/// The hash field of a minimal FSID stands for the djb2 hash of the path's
/// bytes modulo 10^8.
proof fn lemma_hash_field(canonical: Seq<char>, facts: FileFacts)
    ensures
        decimal_value(fsid_of(canonical, facts).subrange(4, 12)) == djb2(encode_utf8(canonical)) as nat
            % 100_000_000,
{
    let f = fsid_of(canonical, facts);
    let p = partial_fsid(canonical, facts);
    lemma_partial_digits(canonical, facts);
    let code = ascii_chars(std_code(split_prefix(canonical, STD_PREFIX_COUNT as int).0));
    let head = code + seq![(48 + file_type_code(facts)) as char, (48 + mode_code(facts)) as char];
    let hash = path_hash(encode_utf8(canonical));
    assert(p == head + hash);
    let n = (djb2(encode_utf8(canonical)) % 100_000_000) as nat;
    lemma_last_digits(n, 8);
    assert(f.subrange(4, 12) =~= hash) by {
        assert forall|i: int| 0 <= i < 8 implies #[trigger] f.subrange(4, 12)[i] == hash[i] by {
            assert(f[i + 4] == p[i + 4]);
            assert(p[i + 4] == hash[i]);
        }
    }
    lemma_last_digits_value(n, 8);
    assert(pow10(8) == 100_000_000) by {
        reveal_with_fuel(pow10, 9);
    }
}

/// The check digit of a minimal FSID brings its weighted digit sum to a
/// multiple of ten.
proof fn lemma_check_digit_sum(canonical: Seq<char>, facts: FileFacts)
    ensures
        weighted_sum(fsid_of(canonical, facts)) % 10 == 0,
{
    let f = fsid_of(canonical, facts);
    let p = partial_fsid(canonical, facts);
    lemma_partial_digits(canonical, facts);
    assert(f.drop_last() =~= p);
    let w = weighted_sum(p);
    let c = (10 - w % 10) % 10;
    assert(f[12] == check_digit(p));
    assert(((48 + c) as char) as int == 48 + c);
    assert(digit_weight(12, f[12]) == c);
    assert(weighted_sum(f) == w + c);
}

/// The layout of a minimal FSID: thirteen digits, namely the prefix code of the
/// directory the path is filed under, the file type code, the mode code, eight
/// digits that stand for the djb2 hash of the path's bytes modulo 10^8, and a
/// check digit that brings the weighted sum of all thirteen digits (weights 1
/// and 3 alternating) to a multiple of ten.
pub proof fn law_minimal_layout(canonical: Seq<char>, facts: FileFacts)
    ensures
        fsid_of(canonical, facts).len() == 13,
        all_digits(fsid_of(canonical, facts)),
        fsid_of(canonical, facts).take(2) == ascii_chars(
            std_code(split_prefix(canonical, STD_PREFIX_COUNT as int).0),
        ),
        fsid_of(canonical, facts)[2] as int - 48 == file_type_code(facts) as int,
        fsid_of(canonical, facts)[3] as int - 48 == mode_code(facts) as int,
        decimal_value(fsid_of(canonical, facts).subrange(4, 12)) == djb2(encode_utf8(canonical)) as nat
            % 100_000_000,
        weighted_sum(fsid_of(canonical, facts)) % 10 == 0,
{
    let f = fsid_of(canonical, facts);
    let p = partial_fsid(canonical, facts);
    lemma_partial_digits(canonical, facts);
    law_valid(canonical, facts);
    law_same_head_as_standard(canonical, facts);
    let code = ascii_chars(std_code(split_prefix(canonical, STD_PREFIX_COUNT as int).0));
    let head = code + seq![(48 + file_type_code(facts)) as char, (48 + mode_code(facts)) as char];
    assert(p == head + path_hash(encode_utf8(canonical)));
    assert(code.len() == 2);
    assert(f[2] == p[2] && f[3] == p[3]);
    assert(p[2] == head[2] && p[3] == head[3]);
    lemma_mode_code_bound(facts);
    lemma_hash_field(canonical, facts);
    lemma_check_digit_sum(canonical, facts);
}

/// The mode code of any path is one of the ten codes.
proof fn lemma_mode_code_bound(facts: FileFacts)
    ensures
        mode_code(facts) <= 9,
{
    if let Some(m) = facts.metadata {
        crate::metadata::lemma_first_mode_bound(m.mode & 0o777, 0);
    }
}

} // verus!
