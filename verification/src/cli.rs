//! What the `fsid` command computes: the breakdown that `info` shows of a
//! standard FSID, and the path that `from` prints.

use vstd::prelude::*;
use vstd::string::*;
use vstd::utf8::{decode_utf8, encode_utf8, is_char_boundary};
use crate::constants::{file_type_name, get_file_type_name, prefix_path, std_code, STD_PREFIX_COUNT};
use crate::is_short_format;
use crate::metadata::{file_type_code, mode_code, FileFacts};
use crate::minimal::{digit_of, digit_of_byte};
use crate::prefix::{code_prefix, split_prefix};
use crate::short;
use crate::standard;
use crate::standard::{all_digits, mode_description};
use crate::text::{all_ascii, ascii_chars, cuts, str_slice};
use crate::webapi::{dir_or_root, is_short};

verus! {

/// Parse FSID components
pub struct FsidInfo {
    pub prefix_code: String,
    pub prefix_path: String,
    pub file_type_code: u8,
    pub file_type_name: String,
    pub mode_symbolic: String,
    pub mode_octal: u32,
    pub encoded_path: String,
    pub decoded_path: String,
    pub check: String,
    pub valid: bool,
}

/// `parse_fsid` does not panic on `fsid`: where it has at least 7 bytes, it can
/// be cut at bytes 2 and 3, at 4 once byte 2 is a digit, and once bytes 2 and 3
/// are digits, two bytes before its end, decoded, and validated.
pub open spec fn parsable(fsid: Seq<char>) -> bool {
    let b = encode_utf8(fsid);
    b.len() >= 7 ==> {
        &&& is_char_boundary(b, 2)
        &&& is_char_boundary(b, 3)
        &&& digit_of(b[2]) is Some ==> is_char_boundary(b, 4)
        &&& digit_of(b[2]) is Some && digit_of(b[3]) is Some ==> {
            &&& is_char_boundary(b, b.len() - 2)
            &&& standard::decodable(b)
            &&& all_digits(fsid) ==> standard::sum_fits(fsid.take(fsid.len() - 2))
        }
    }
}

/// The text `(decode error)`.
pub open spec fn decode_error_text() -> Seq<char> {
    "(decode error)"@
}

/// Can `parse_fsid` be asked about `fsid`? (Where not, it would panic.)
pub fn is_parsable(fsid: &str) -> (r: bool)
    ensures
        r == parsable(fsid@),
{
    let fb = fsid.as_bytes();
    let n = fb.len();
    if n < 7 {
        return true;
    }
    if !(fsid.is_char_boundary(2) && fsid.is_char_boundary(3)) {
        return false;
    }
    proof {
        vstd::utf8::encode_utf8_valid_utf8(fsid@);
        crate::text::lemma_boundary(fsid.spec_bytes(), 3);
    }
    if digit_of_byte(fb[2]).is_none() {
        return true;
    }
    if !fsid.is_char_boundary(4) {
        return false;
    }
    if digit_of_byte(fb[3]).is_none() {
        return true;
    }
    if !(fsid.is_char_boundary(n - 2) && standard::is_decodable(fsid)) {
        return false;
    }
    let all = standard::all_digit_chars(fsid);
    if !all {
        return true;
    }
    proof {
        standard::lemma_digits_bytes(fsid@);
        crate::text::lemma_cuts_ends(fsid);
        let b = fsid.spec_bytes();
        assert(crate::text::ascii_chars(b.subrange(0, n - 2)) =~= fsid@.take(n - 2));
        crate::text::lemma_ascii_bytes(b.subrange(0, n - 2));
    }
    let head = str_slice(fsid, 0, n - 2);
    standard::sum_fits_str(head)
}

/// Parse FSID components
pub fn parse_fsid(fsid: &str) -> (r: Option<FsidInfo>)
    requires
        parsable(fsid@),
    ensures
        ({
            let b = encode_utf8(fsid@);
            &&& r is Some == (b.len() >= 7 && digit_of(b[2]) is Some && digit_of(b[3]) is Some)
            &&& r matches Some(info) ==> {
                let code = decode_utf8(b.subrange(0, 2));
                let mode_code = digit_of(b[3])->0;
                &&& info.prefix_code@ == code
                &&& info.prefix_path@ == dir_or_root(code_prefix(false, code))
                &&& Some(info.file_type_code) == digit_of(b[2])
                &&& info.file_type_name@ == file_type_name(info.file_type_code)
                &&& (info.mode_symbolic@, info.mode_octal) == mode_description(mode_code)
                &&& info.encoded_path@ == decode_utf8(b.subrange(4, b.len() - 2))
                &&& info.decoded_path@ == match standard::decoded(b) {
                    Some(p) => p,
                    None => decode_error_text(),
                }
                &&& info.check@ == decode_utf8(b.subrange(b.len() - 2, b.len() as int))
                &&& info.valid == standard::is_valid(fsid@)
            }
        }),
{
    let fb = fsid.as_bytes();
    let n = fb.len();
    if n < 7 {
        return None;
    }
    proof {
        crate::text::lemma_cuts_ends(fsid);
        vstd::utf8::encode_utf8_valid_utf8(fsid@);
        crate::text::lemma_boundary(fsid.spec_bytes(), 3);
    }
    let prefix_code = str_slice(fsid, 0, 2);
    let file_type_code = match digit_of_byte(fb[2]) {
        Some(d) => d,
        None => return None,
    };
    let mode_code = match digit_of_byte(fb[3]) {
        Some(d) => d,
        None => return None,
    };
    let encoded_path = str_slice(fsid, 4, n - 2);
    let check = str_slice(fsid, n - 2, n);
    let prefix_path = match standard::get_prefix_path(prefix_code) {
        Some(p) => p,
        None => "/",
    };
    let (mode_symbolic, mode_octal) = standard::get_mode_description(mode_code);
    let decoded_path = match standard::decode(fsid) {
        Some(p) => p,
        None => "(decode error)".to_owned(),
    };
    proof {
        reveal_strlit("/");
    }
    Some(
        FsidInfo {
            prefix_code: prefix_code.to_owned(),
            prefix_path: prefix_path.to_owned(),
            file_type_code,
            file_type_name: get_file_type_name(file_type_code).to_owned(),
            mode_symbolic: mode_symbolic.to_owned(),
            mode_octal,
            encoded_path: encoded_path.to_owned(),
            decoded_path,
            check: check.to_owned(),
            valid: standard::validate(fsid),
        },
    )
}

/// Why `from` prints no path.
#[derive(Clone, Copy, Debug, PartialEq, Eq, Structural)]
pub enum FromError {
    /// The FSID fails its check.
    InvalidCheck,
    /// The FSID passes its check but names no path.
    DecodeFailed,
    /// Adding up the check sum of this standard FSID overflows, where the
    /// command panics.
    Overflow,
}

/// What `from` prints for an FSID: short FSIDs (those with a lowercase
/// letter) are checked and decoded in the short format, others in the
/// standard format.
pub open spec fn from_result(fsid: Seq<char>) -> Result<Seq<char>, FromError> {
    let b = encode_utf8(fsid);
    if is_short(fsid) {
        if !short::validatable(b) || !short::is_valid(fsid) {
            Err(FromError::InvalidCheck)
        } else if !short::decodable(b) {
            Err(FromError::DecodeFailed)
        } else {
            match short::decoded(b) {
                Some(p) => Ok(p),
                None => Err(FromError::DecodeFailed),
            }
        }
    } else if all_digits(fsid) && fsid.len() >= 7 && !standard::sum_fits(fsid.take(fsid.len() - 2)) {
        Err(FromError::Overflow)
    } else if !standard::is_valid(fsid) {
        Err(FromError::InvalidCheck)
    } else {
        match standard::decoded(b) {
            Some(p) => Ok(p),
            None => Err(FromError::DecodeFailed),
        }
    }
}

/// Convert an FSID back to its file path (what `from` prints)
pub fn from_fsid(fsid: &str) -> (r: Result<String, FromError>)
    ensures
        match r {
            Ok(p) => from_result(fsid@) == Ok::<Seq<char>, FromError>(p@),
            Err(e) => from_result(fsid@) == Err::<Seq<char>, FromError>(e),
        },
{
    if is_short_format(fsid) {
        if !short::is_validatable(fsid) || !short::validate(fsid) {
            return Err(FromError::InvalidCheck);
        }
        if !short::is_decodable(fsid) {
            return Err(FromError::DecodeFailed);
        }
        return match short::decode(fsid) {
            Some(p) => Ok(p),
            None => Err(FromError::DecodeFailed),
        };
    }
    let fb = fsid.as_bytes();
    let n = fb.len();
    let all = standard::all_digit_chars(fsid);
    if all && n >= 7 {
        proof {
            standard::lemma_digits_bytes(fsid@);
            vstd::utf8::encode_utf8_valid_utf8(fsid@);
            crate::text::lemma_boundary(fsid.spec_bytes(), fsid@.len() - 2);
            crate::text::lemma_cuts_ends(fsid);
            let b = fsid.spec_bytes();
            assert(crate::text::ascii_chars(b.subrange(0, n - 2)) =~= fsid@.take(n - 2));
            crate::text::lemma_ascii_bytes(b.subrange(0, n - 2));
        }
        let head = str_slice(fsid, 0, n - 2);
        if !standard::sum_fits_str(head) {
            return Err(FromError::Overflow);
        }
    }
    proof {
        if all_digits(fsid@) {
            standard::lemma_digits_bytes(fsid@);
        }
    }
    if !standard::validate(fsid) {
        return Err(FromError::InvalidCheck);
    }
    proof {
        lemma_valid_decodable(fsid@);
    }
    match standard::decode(fsid) {
        Some(p) => Ok(p),
        None => Err(FromError::DecodeFailed),
    }
}

/// A valid standard FSID can be decoded without panicking.
pub proof fn lemma_valid_decodable(fsid: Seq<char>)
    requires
        standard::is_valid(fsid),
    ensures
        standard::decodable(encode_utf8(fsid)),
{
    let b = encode_utf8(fsid);
    standard::lemma_digits_bytes(fsid);
    vstd::utf8::encode_utf8_valid_utf8(fsid);
    crate::text::lemma_boundary(b, 2);
    crate::text::lemma_boundary(b, 4);
    crate::text::lemma_boundary(b, b.len() - 2);
    assert forall|i: int| 0 <= i < b.subrange(4, b.len() - 2).len() implies #[trigger] b.subrange(
        4,
        b.len() - 2,
    )[i] >= 48 by {
        assert(standard::is_digit(fsid[i + 4]));
    }
}

/// `from` gives back the path of a standard FSID (the path being one that the
/// format can give back).
pub proof fn law_from_standard(canonical: Seq<char>, facts: FileFacts)
    requires
        standard::reversible(canonical),
        standard::sum_fits(standard::partial_fsid(canonical, facts)),
    ensures
        from_result(standard::fsid_of(canonical, facts)) == Ok::<Seq<char>, FromError>(canonical),
{
    let f = standard::fsid_of(canonical, facts);
    let p = standard::partial_fsid(canonical, facts);
    standard::law_roundtrip(canonical, facts);
    assert(f.take(f.len() - 2) =~= p);
    assert(!is_short(f)) by {
        if is_short(f) {
            let i = choose|i: int| 0 <= i < f.len() && crate::is_lower_ascii(#[trigger] f[i]);
            assert(standard::is_digit(f[i]));
        }
    }
}

/// `from` gives back the path of a short FSID (the path being one that the
/// format can give back) that holds a letter, so that it is taken for a short
/// one.
pub proof fn law_from_short(canonical: Seq<char>, facts: FileFacts)
    requires
        short::reversible(canonical),
        short::sum_fits(encode_utf8(short::partial_fsid(canonical, facts))),
        is_short(short::fsid_of(canonical, facts)),
    ensures
        from_result(short::fsid_of(canonical, facts)) == Ok::<Seq<char>, FromError>(canonical),
{
    short::law_roundtrip(canonical, facts);
}

/// `info` on the standard FSID of a path (one that the format can give back)
/// can be asked without panicking, and shows what the FSID was made from: the
/// code and directory the path is filed under, the file type and mode codes of
/// its file, the path itself, and that the FSID is valid.
pub proof fn law_info_standard(canonical: Seq<char>, facts: FileFacts)
    requires
        standard::reversible(canonical),
        standard::sum_fits(standard::partial_fsid(canonical, facts)),
    ensures
        ({
            let f = standard::fsid_of(canonical, facts);
            let b = encode_utf8(f);
            let entry = split_prefix(canonical, STD_PREFIX_COUNT as int).0;
            &&& parsable(f)
            &&& b.len() >= 7
            &&& decode_utf8(b.subrange(0, 2)) == ascii_chars(std_code(entry))
            &&& code_prefix(false, decode_utf8(b.subrange(0, 2))) == Some(prefix_path(entry))
            &&& digit_of(b[2]) == Some(file_type_code(facts))
            &&& digit_of(b[3]) == Some(mode_code(facts))
            &&& standard::decoded(b) == Some(canonical)
            &&& standard::is_valid(f)
        }),
{
    let f = standard::fsid_of(canonical, facts);
    let p = standard::partial_fsid(canonical, facts);
    let b = encode_utf8(f);
    let n = STD_PREFIX_COUNT as int;
    let (entry, rest) = split_prefix(canonical, n);
    crate::prefix::lemma_split_prefix_entry(canonical, n);
    standard::law_roundtrip(canonical, facts);
    let t = file_type_code(facts);
    let m = mode_code(facts);
    assert(m <= 9) by {
        if let Some(md) = facts.metadata {
            crate::metadata::lemma_first_mode_bound(md.mode & 0o777, 0);
        }
    }
    assert(f[2] == p[2] && f[3] == p[3]);
    assert(p[2] == (48 + t) as char && p[3] == (48 + m) as char);
    standard::lemma_digits_bytes(f);
    vstd::utf8::encode_utf8_valid_utf8(f);
    crate::text::lemma_boundary(b, 2);
    crate::text::lemma_boundary(b, 3);
    crate::text::lemma_boundary(b, 4);
    crate::text::lemma_boundary(b, b.len() - 2);
    assert(f.take(f.len() - 2) =~= p);
    let code_bytes = b.subrange(0, 2);
    assert(code_bytes =~= std_code(entry)) by {
        assert forall|i: int| 0 <= i < 2 implies #[trigger] code_bytes[i] == std_code(entry)[i] by {
            assert(code_bytes[i] == f[i] as u8);
            assert(f[i] == p[i]);
            assert(p[i] == std_code(entry)[i] as char);
        }
    }
    assert(all_ascii(std_code(entry)));
    crate::text::lemma_ascii_bytes(std_code(entry));
    crate::prefix::lemma_code_entry(false, ascii_chars(std_code(entry)), entry);
}

/// `from` decodes a standard FSID (one without a lowercase letter) with the
/// library's standard decoder: a valid one whose check sum fits gives exactly
/// what `standard::decode` gives, the path or a failure to decode.
pub proof fn law_from_uses_standard_decode(fsid: Seq<char>)
    requires
        !is_short(fsid),
        standard::is_valid(fsid),
        standard::sum_fits(fsid.take(fsid.len() - 2)),
    ensures
        from_result(fsid) == match standard::decoded(encode_utf8(fsid)) {
            Some(p) => Ok::<Seq<char>, FromError>(p),
            None => Err::<Seq<char>, FromError>(FromError::DecodeFailed),
        },
{
}

} // verus!
