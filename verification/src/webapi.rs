//! Web API requests: what the server answers to each request, given the
//! stored mappings and, for `to`, the facts about the requested path.
//! Reading requests, loading and saving the storage and inspecting files is
//! the server's part; each step here says which of these it needs next.

use vstd::prelude::*;
use vstd::string::*;
use vstd::utf8::{decode_utf8, encode_utf8, is_char_boundary};
use crate::constants::{
    file_type_name, get_file_type_name, prefix_path, short_code, std_code, tm_mode, tm_type,
    SHORT_PREFIX_COUNT, STD_PREFIX_COUNT,
};
use crate::is_short_format;
use crate::metadata::{file_type_code, mode_code, type_and_permissions, FileFacts};
use crate::minimal;
use crate::prefix::{code_prefix, split_prefix};
use crate::radix::{digits_of, digits_below};
use crate::short;
use crate::standard;
use crate::standard::{all_digits, digit_text, digits_to_text, mode_description};
use crate::storage::{distinct_firsts, pair_map, pairs, FsidStorage};
use crate::text::{ascii_chars, ascii_string, lower_text, str_eq, str_slice, to_lowercase};

verus! {

/// API request body
pub struct ApiRequest {
    /// Action: "to", "from", "info", "list"
    pub action: String,
    /// Path for "to" action
    pub path: Option<String>,
    /// FSID for "from" and "info" actions
    pub fsid: Option<String>,
    /// Format: "standard", "short", "min"
    pub format: Option<String>,
}

/// FSID info response
pub struct FsidInfo {
    pub fsid: String,
    pub format: String,
    pub prefix: String,
    pub prefix_code: String,
    pub file_type: String,
    pub mode: String,
    pub valid: bool,
    pub path: Option<String>,
}

/// List entry
pub struct ListEntry {
    pub fsid: String,
    pub path: String,
}

/// API response
pub struct ApiResponse {
    pub success: bool,
    pub fsid: Option<String>,
    pub path: Option<String>,
    pub info: Option<FsidInfo>,
    pub list: Option<Vec<ListEntry>>,
    pub error: Option<String>,
}

/// What the server learns of the path of a `to` request: whether it exists
/// (as a file or as a dangling symbolic link), its canonical form (the path
/// itself where it has none), and the facts about its file.
pub struct PathFacts {
    pub exists: bool,
    pub canonical: String,
    pub file: FileFacts,
}

/// What the server does next with a request.
pub enum Step {
    /// Answer with this response.
    Reply(ApiResponse),
    /// Save the storage, then answer with this response.
    SaveAndReply(ApiResponse),
    /// Find out the facts of this path and hand them in.
    InspectPath(String),
    /// A `to` request whose FSID cannot be made because its check sum would
    /// overflow (a path of tens of megabytes): no answer.
    Abort,
}

/// The texts of an FSID info.
pub struct InfoView {
    pub fsid: Seq<char>,
    pub format: Seq<char>,
    pub prefix: Seq<char>,
    pub prefix_code: Seq<char>,
    pub file_type: Seq<char>,
    pub mode: Seq<char>,
    pub valid: bool,
    pub path: Option<Seq<char>>,
}

/// The texts of a response.
pub struct ResponseView {
    pub success: bool,
    pub fsid: Option<Seq<char>>,
    pub path: Option<Seq<char>>,
    pub info: Option<InfoView>,
    pub list: Option<Seq<(Seq<char>, Seq<char>)>>,
    pub error: Option<Seq<char>>,
}

/// The text of an optional string.
pub open spec fn opt_text(o: Option<String>) -> Option<Seq<char>> {
    match o {
        Some(s) => Some(s@),
        None => None,
    }
}

impl View for FsidInfo {
    type V = InfoView;

    open spec fn view(&self) -> InfoView {
        InfoView {
            fsid: self.fsid@,
            format: self.format@,
            prefix: self.prefix@,
            prefix_code: self.prefix_code@,
            file_type: self.file_type@,
            mode: self.mode@,
            valid: self.valid,
            path: opt_text(self.path),
        }
    }
}

impl View for ListEntry {
    type V = (Seq<char>, Seq<char>);

    open spec fn view(&self) -> (Seq<char>, Seq<char>) {
        (self.fsid@, self.path@)
    }
}

impl View for ApiResponse {
    type V = ResponseView;

    open spec fn view(&self) -> ResponseView {
        ResponseView {
            success: self.success,
            fsid: opt_text(self.fsid),
            path: opt_text(self.path),
            info: match self.info {
                Some(i) => Some(i@),
                None => None,
            },
            list: match self.list {
                Some(l) => Some(l@.map_values(|e: ListEntry| e@)),
                None => None,
            },
            error: opt_text(self.error),
        }
    }
}

/// A failed response with an error message.
pub open spec fn failure(msg: Seq<char>) -> ResponseView {
    ResponseView { success: false, fsid: None, path: None, info: None, list: None, error: Some(msg) }
}

/// A successful response carrying an FSID.
pub open spec fn with_fsid(fsid: Seq<char>) -> ResponseView {
    ResponseView { success: true, fsid: Some(fsid), path: None, info: None, list: None, error: None }
}

/// A successful response carrying a path.
pub open spec fn with_path(path: Seq<char>) -> ResponseView {
    ResponseView { success: true, fsid: None, path: Some(path), info: None, list: None, error: None }
}

/// A successful response carrying an FSID info.
pub open spec fn with_info(info: InfoView) -> ResponseView {
    ResponseView { success: true, fsid: None, path: None, info: Some(info), list: None, error: None }
}

/// A successful response listing every mapping of `store`, each once.
pub open spec fn listing(resp: ResponseView, store: Map<Seq<char>, Seq<char>>) -> bool {
    &&& resp.success
    &&& resp.fsid is None && resp.path is None && resp.info is None && resp.error is None
    &&& resp.list matches Some(l) && distinct_firsts(l) && pair_map(l) == store
}

/// The FSID is in the minimal format: 13 digits.
pub open spec fn is_minimal(fsid: Seq<char>) -> bool {
    fsid.len() == 13 && all_digits(fsid)
}

/// The FSID is in the short format: it holds a lowercase letter.
pub open spec fn is_short(fsid: Seq<char>) -> bool {
    exists|i: int| 0 <= i < fsid.len() && crate::is_lower_ascii(#[trigger] fsid[i])
}

/// The FSID that `to` gives a path in a format (`standard` when none is asked
/// for, and for any format other than `short`, `min` and `minimal`); nothing
/// where adding up its check sum would overflow.
pub open spec fn generated_fsid(
    format: Option<Seq<char>>,
    canonical: Seq<char>,
    facts: FileFacts,
) -> Option<Seq<char>> {
    let f = match format {
        Some(f) => f,
        None => "standard"@,
    };
    if f == "short"@ {
        if short::sum_fits(encode_utf8(short::partial_fsid(canonical, facts))) {
            Some(short::fsid_of(canonical, facts))
        } else {
            None
        }
    } else if f == "min"@ || f == "minimal"@ {
        Some(minimal::fsid_of(canonical, facts))
    } else if standard::sum_fits(standard::partial_fsid(canonical, facts)) {
        Some(standard::fsid_of(canonical, facts))
    } else {
        None
    }
}

/// The stored path of an FSID, looked up as given and then in lowercase.
pub open spec fn stored_path(store: Map<Seq<char>, Seq<char>>, fsid: Seq<char>, lower: Seq<char>) -> Option<Seq<char>> {
    if store.contains_key(fsid) {
        Some(store[fsid])
    } else if store.contains_key(lower) {
        Some(store[lower])
    } else {
        None
    }
}

/// The answer to `from` for an FSID whose lowercase form is `lower`: the stored
/// path if there is one, else the decoded path, else (for a minimal FSID,
/// which cannot be decoded, or one that names no path or is malformed) an
/// error.
pub open spec fn from_response(store: Map<Seq<char>, Seq<char>>, fsid: Seq<char>, lower: Seq<char>) -> ResponseView {
    match stored_path(store, fsid, lower) {
        Some(p) => with_path(p),
        None => {
            let decoded = if is_minimal(fsid) {
                None
            } else if is_short(lower) {
                if short::decodable(encode_utf8(lower)) {
                    short::decoded(encode_utf8(lower))
                } else {
                    None
                }
            } else if standard::decodable(encode_utf8(fsid)) {
                standard::decoded(encode_utf8(fsid))
            } else {
                None
            };
            match decoded {
                Some(p) => with_path(p),
                None => failure("Failed to decode FSID"@),
            }
        },
    }
}

/// Octal digits of a number (`0` for zero), as `{:o}` formats it.
pub open spec fn octal_text(n: u32) -> Seq<char> {
    if n == 0 {
        seq!['0']
    } else {
        ascii_chars(digit_text(digits_of(n as nat, 8)))
    }
}

/// A mode as `symbolic (octal)`.
pub open spec fn mode_text(symbolic: Seq<char>, octal: u32) -> Seq<char> {
    symbolic + seq![' ', '('] + octal_text(octal) + seq![')']
}

/// A known directory, or `/`.
pub open spec fn dir_or_root(dir: Option<Seq<char>>) -> Seq<char> {
    match dir {
        Some(d) => d,
        None => seq!['/'],
    }
}

/// The first of two options that is something.
pub open spec fn or_else(a: Option<Seq<char>>, b: Option<Seq<char>>) -> Option<Seq<char>> {
    match a {
        Some(x) => Some(x),
        None => b,
    }
}

/// The digit of a byte, or `default`.
pub open spec fn digit_or(b: u8, default: u8) -> u8 {
    match minimal::digit_of(b) {
        Some(d) => d,
        None => default,
    }
}

/// The info on an FSID whose lowercase form is `lower`; nothing where the
/// FSID is malformed (its fields cannot be cut out of it, or its check sum or
/// path cannot be worked out), which `info` answers as an invalid format.
pub open spec fn info_of(store: Map<Seq<char>, Seq<char>>, fsid: Seq<char>, lower: Seq<char>) -> Option<InfoView> {
    let stored = stored_path(store, fsid, lower);
    if is_minimal(fsid) {
        let code = fsid.take(2);
        let (symbolic, octal) = mode_description((fsid[3] as int - 48) as u8);
        Some(
            InfoView {
                fsid: fsid,
                format: "minimal"@,
                prefix: dir_or_root(code_prefix(false, code)),
                prefix_code: code,
                file_type: file_type_name((fsid[2] as int - 48) as u8),
                mode: mode_text(symbolic, octal),
                valid: minimal::is_valid(fsid),
                path: stored,
            },
        )
    } else if is_short(lower) {
        let b = encode_utf8(lower);
        if is_char_boundary(b, 2) && short::validatable(b) && short::decodable(b) {
            let code = decode_utf8(b.subrange(0, 2));
            let (file_type, mode, _) = short::type_mode_info(
                if lower.len() > 2 {
                    lower[2]
                } else {
                    'z'
                },
            );
            Some(
                InfoView {
                    fsid: lower,
                    format: "short"@,
                    prefix: dir_or_root(code_prefix(true, code)),
                    prefix_code: code,
                    file_type: file_type_name(file_type),
                    mode: octal_text(mode),
                    valid: short::is_valid(lower),
                    path: or_else(stored, short::decoded(b)),
                },
            )
        } else {
            None
        }
    } else {
        let b = encode_utf8(fsid);
        if is_char_boundary(b, 2) && is_char_boundary(b, 3) && is_char_boundary(b, 4) && (all_digits(
            fsid,
        ) && fsid.len() >= 7 ==> standard::sum_fits(fsid.take(fsid.len() - 2)))
            && standard::decodable(b) {
            let code = decode_utf8(b.subrange(0, 2));
            let (symbolic, octal) = mode_description(digit_or(b[3], 9));
            Some(
                InfoView {
                    fsid: fsid,
                    format: "standard"@,
                    prefix: dir_or_root(code_prefix(false, code)),
                    prefix_code: code,
                    file_type: file_type_name(digit_or(b[2], 0)),
                    mode: mode_text(symbolic, octal),
                    valid: standard::is_valid(fsid),
                    path: or_else(stored, standard::decoded(b)),
                },
            )
        } else {
            None
        }
    }
}

/// Check if FSID is minimal format
pub fn is_minimal_format(fsid: &str) -> (r: bool)
    ensures
        r == is_minimal(fsid@),
{
    let n = fsid.as_bytes().len();
    let all = standard::all_digit_chars(fsid);
    proof {
        if all {
            standard::lemma_digits_bytes(fsid@);
        }
    }
    n == 13 && all
}

/// `a` followed by `b`.
fn concat(a: &str, b: &str) -> (r: String)
    ensures
        r@ == a@ + b@,
{
    let mut s = a.to_owned();
    s.append(b);
    s
}

/// A failed response with an error message.
fn failure_response(msg: String) -> (r: ApiResponse)
    ensures
        r@ == failure(msg@),
{
    ApiResponse { success: false, fsid: None, path: None, info: None, list: None, error: Some(msg) }
}

/// A successful response carrying a path.
fn path_response(path: String) -> (r: ApiResponse)
    ensures
        r@ == with_path(path@),
{
    ApiResponse { success: true, fsid: None, path: Some(path), info: None, list: None, error: None }
}

/// Octal digits of a number, as `{:o}` formats it.
pub fn octal_string(n: u32) -> (r: String)
    ensures
        r@ == octal_text(n),
{
    let mut low_first: Vec<u8> = Vec::new();
    let mut v = n;
    while v > 0
        invariant
            digits_of(n as nat, 8) == digits_of(v as nat, 8) + low_first@.reverse(),
            digits_below(low_first@, 8),
        decreases v,
    {
        let ghost old_low = low_first@;
        proof {
            assert(digits_of(v as nat, 8) == digits_of((v / 8) as nat, 8).push((v % 8) as u8));
        }
        low_first.push((v % 8) as u8);
        proof {
            assert(low_first@.reverse() =~= seq![(v % 8) as u8] + old_low.reverse());
            assert forall|i: int| 0 <= i < low_first@.len() implies #[trigger] low_first@[i] < 8 by {
                if i < old_low.len() {
                    assert(low_first@[i] == old_low[i]);
                }
            }
        }
        v = v / 8;
    }
    if low_first.len() == 0 {
        let mut z: Vec<u8> = Vec::new();
        z.push(48);
        let r = ascii_string(z);
        proof {
            if n > 0 {
                crate::radix::lemma_digits_of(n as nat, 8);
                assert(digits_of(0, 8) =~= Seq::<u8>::empty());
            }
            assert(r@ =~= seq!['0']);
        }
        return r;
    }
    let mut digits: Vec<u8> = Vec::new();
    let mut k: usize = low_first.len();
    while k > 0
        invariant
            k <= low_first@.len(),
            digits@ =~= low_first@.reverse().take(low_first@.len() - k),
        decreases k,
    {
        k -= 1;
        digits.push(low_first[k]);
        assert(low_first@.reverse().take(low_first@.len() - k) =~= low_first@.reverse().take(
            low_first@.len() - k - 1,
        ).push(low_first@[k as int]));
    }
    proof {
        assert(digits_of(0, 8) =~= Seq::<u8>::empty());
        assert(low_first@.reverse().take(low_first@.len() as int) =~= low_first@.reverse());
        assert(digits@ =~= digits_of(n as nat, 8));
        crate::radix::lemma_digits_of(n as nat, 8);
        if n == 0 {
            assert(digits_of(0, 8) =~= Seq::<u8>::empty());
        }
    }
    let text = digits_to_text(&digits);
    ascii_string(text)
}

/// A mode as `symbolic (octal)`.
fn mode_string(symbolic: &str, octal: u32) -> (r: String)
    ensures
        r@ == mode_text(symbolic@, octal),
{
    let mut s = symbolic.to_owned();
    let mut open: Vec<u8> = Vec::new();
    open.push(32);
    open.push(40);
    let open = ascii_string(open);
    let mut close: Vec<u8> = Vec::new();
    close.push(41);
    let close = ascii_string(close);
    let oct = octal_string(octal);
    s.append(open.as_str());
    s.append(oct.as_str());
    s.append(close.as_str());
    proof {
        assert(open@ =~= seq![' ', '(']);
        assert(close@ =~= seq![')']);
        assert(s@ =~= mode_text(symbolic@, octal));
    }
    s
}

/// The stored path of an FSID, looked up as given and then in lowercase.
fn lookup(store: &FsidStorage, fsid: &str, lower: &str) -> (r: Option<String>)
    ensures
        opt_text(r) == stored_path(store@, fsid@, lower@),
{
    match store.get(fsid) {
        Some(p) => Some(p.clone()),
        None => match store.get(lower) {
            Some(p) => Some(p.clone()),
            None => None,
        },
    }
}

/// The answer to a `to` request for `path` (whose facts are `target`) in a
/// format, recording the new FSID and the canonical path in the storage;
/// nothing where the check sum of the new FSID would overflow.
pub fn respond_to(path: &str, format: Option<&str>, target: &PathFacts, store: &mut FsidStorage) -> (r: Option<ApiResponse>)
    ensures
        !target.exists ==> (r matches Some(resp) && resp@ == failure(
            "Path does not exist: "@ + path@,
        ) && final(store)@ == old(store)@),
        target.exists ==> match generated_fsid(
            match format {
                Some(f) => Some(f@),
                None => None,
            },
            target.canonical@,
            target.file,
        ) {
            Some(f) => r matches Some(resp) && resp@ == with_fsid(f) && final(store)@ == old(
                store,
            )@.insert(f, target.canonical@),
            None => r is None && final(store)@ == old(store)@,
        },
{
    if !target.exists {
        return Some(failure_response(concat("Path does not exist: ", path)));
    }
    let fmt = match format {
        Some(f) => f,
        None => "standard",
    };
    let canonical = target.canonical.as_str();
    let fsid = if str_eq(fmt, "short") {
        match short::encode_checked(canonical, &target.file) {
            Some(f) => f,
            None => return None,
        }
    } else if str_eq(fmt, "min") || str_eq(fmt, "minimal") {
        minimal::encode(canonical, &target.file)
    } else {
        match standard::encode_checked(canonical, &target.file) {
            Some(f) => f,
            None => return None,
        }
    };
    store.insert(fsid.clone(), target.canonical.clone());
    Some(ApiResponse { success: true, fsid: Some(fsid), path: None, info: None, list: None, error: None })
}

/// The answer to a `from` request for an FSID whose lowercase form is
/// `fsid_lower`.
pub fn respond_from(fsid: &str, fsid_lower: &str, store: &FsidStorage) -> (r: ApiResponse)
    ensures
        r@ == from_response(store@, fsid@, fsid_lower@),
{
    if let Some(path) = lookup(store, fsid, fsid_lower) {
        return path_response(path);
    }
    let decoded = if is_minimal_format(fsid) {
        None
    } else if is_short_format(fsid_lower) {
        if short::is_decodable(fsid_lower) {
            short::decode(fsid_lower)
        } else {
            None
        }
    } else {
        if standard::is_decodable(fsid) {
            standard::decode(fsid)
        } else {
            None
        }
    };
    match decoded {
        Some(path) => path_response(path),
        None => failure_response("Failed to decode FSID".to_owned()),
    }
}

/// The info on an FSID whose lowercase form is `fsid_lower`; nothing where the
/// FSID is malformed.
pub fn describe(fsid: &str, fsid_lower: &str, store: &FsidStorage) -> (r: Option<FsidInfo>)
    ensures
        match r {
            Some(i) => info_of(store@, fsid@, fsid_lower@) == Some(i@),
            None => info_of(store@, fsid@, fsid_lower@) is None,
        },
{
    let stored = lookup(store, fsid, fsid_lower);
    if is_minimal_format(fsid) {
        let fb = fsid.as_bytes();
        proof {
            standard::lemma_digits_bytes(fsid@);
            vstd::utf8::encode_utf8_valid_utf8(fsid@);
            crate::text::lemma_boundary(fsid.spec_bytes(), 2);
            crate::text::lemma_boundary(fsid.spec_bytes(), 3);
            crate::text::lemma_boundary(fsid.spec_bytes(), 4);
            crate::text::lemma_boundary(fsid.spec_bytes(), 12);
            assert(standard::is_digit(fsid@[2]) && standard::is_digit(fsid@[3]));
        }
        let info = match minimal::parse(fsid) {
            Some(i) => i,
            None => {
                proof {
                    assert(false);
                }
                return None;
            },
        };
        proof {
            let b = fsid.spec_bytes();
            assert(ascii_chars(b.subrange(0, 2)) =~= fsid@.take(2));
            crate::text::lemma_ascii_bytes(b.subrange(0, 2));
        }
        let mode = mode_string(info.mode_symbolic.as_str(), info.mode_octal);
        return Some(
            FsidInfo {
                fsid: fsid.to_owned(),
                format: "minimal".to_owned(),
                prefix: info.prefix_path,
                prefix_code: info.prefix_code,
                file_type: get_file_type_name(info.file_type_code).to_owned(),
                mode,
                valid: info.valid,
                path: stored,
            },
        );
    }
    if is_short_format(fsid_lower) {
        if !(fsid_lower.is_char_boundary(2) && short::is_validatable(fsid_lower)
            && short::is_decodable(fsid_lower)) {
            return None;
        }
        proof {
            crate::text::lemma_cuts_ends(fsid_lower);
        }
        let prefix_code = str_slice(fsid_lower, 0, 2);
        let chars = fsid_lower.unicode_len();
        let type_mode_code = if chars > 2 {
            fsid_lower.get_char(2)
        } else {
            'z'
        };
        let prefix_path = match short::get_prefix_path(prefix_code) {
            Some(p) => p,
            None => "/",
        };
        let (file_type, mode, _) = short::get_type_mode_info(type_mode_code);
        let valid = short::validate(fsid_lower);
        let decoded = short::decode(fsid_lower);
        proof {
            reveal_strlit("/");
        }
        let info = FsidInfo {
            fsid: fsid_lower.to_owned(),
            format: "short".to_owned(),
            prefix: prefix_path.to_owned(),
            prefix_code: prefix_code.to_owned(),
            file_type: get_file_type_name(file_type).to_owned(),
            mode: octal_string(mode),
            valid,
            path: match stored {
                Some(p) => Some(p),
                None => decoded,
            },
        };
        proof {
            let e = info_of(store@, fsid@, fsid_lower@);
            assert(!is_minimal(fsid@));
            assert(is_short(fsid_lower@));
            assert(e is Some);
            let ev = e->0;
            assert(ev.fsid == info@.fsid);
            assert(ev.format == info@.format);
            assert(ev.prefix == info@.prefix);
            assert(ev.prefix_code == info@.prefix_code);
            assert(ev.file_type == info@.file_type);
            assert(ev.mode == info@.mode);
            assert(ev.valid == info@.valid);
            assert(ev.path == info@.path);
        }
        return Some(info);
    }
    if !(fsid.is_char_boundary(2) && fsid.is_char_boundary(3) && fsid.is_char_boundary(4)) {
        return None;
    }
    let validatable = if standard::all_digit_chars(fsid) && fsid.as_bytes().len() >= 7 {
        proof {
            standard::lemma_digits_bytes(fsid@);
            vstd::utf8::encode_utf8_valid_utf8(fsid@);
            crate::text::lemma_boundary(fsid.spec_bytes(), fsid@.len() - 2);
            crate::text::lemma_cuts_ends(fsid);
            let b = fsid.spec_bytes();
            let n = fsid@.len();
            assert(ascii_chars(b.subrange(0, n - 2)) =~= fsid@.take(n - 2));
            crate::text::lemma_ascii_bytes(b.subrange(0, n - 2));
        }
        let head = str_slice(fsid, 0, fsid.as_bytes().len() - 2);
        standard::sum_fits_str(head)
    } else {
        proof {
            if all_digits(fsid@) {
                standard::lemma_digits_bytes(fsid@);
            }
        }
        true
    };
    if !validatable || !standard::is_decodable(fsid) {
        return None;
    }
    proof {
        crate::text::lemma_cuts_ends(fsid);
        vstd::utf8::encode_utf8_valid_utf8(fsid@);
        crate::text::lemma_boundary(fsid.spec_bytes(), 4);
    }
    let fb = fsid.as_bytes();
    let prefix_code = str_slice(fsid, 0, 2);
    let file_type_code = match minimal::digit_of_byte(fb[2]) {
        Some(d) => d,
        None => 0,
    };
    let mode_code = match minimal::digit_of_byte(fb[3]) {
        Some(d) => d,
        None => 9,
    };
    let prefix_path = match standard::get_prefix_path(prefix_code) {
        Some(p) => p,
        None => "/",
    };
    let (mode_symbolic, mode_octal) = standard::get_mode_description(mode_code);
    let valid = standard::validate(fsid);
    let decoded = standard::decode(fsid);
    proof {
        reveal_strlit("/");
    }
    let info = FsidInfo {
        fsid: fsid.to_owned(),
        format: "standard".to_owned(),
        prefix: prefix_path.to_owned(),
        prefix_code: prefix_code.to_owned(),
        file_type: get_file_type_name(file_type_code).to_owned(),
        mode: mode_string(mode_symbolic, mode_octal),
        valid,
        path: match stored {
            Some(p) => Some(p),
            None => decoded,
        },
    };
    proof {
        let e = info_of(store@, fsid@, fsid_lower@);
        assert(!is_minimal(fsid@));
        assert(!is_short(fsid_lower@));
        assert(e is Some);
        let ev = e->0;
        assert(ev.fsid == info@.fsid);
        assert(ev.format == info@.format);
        assert(ev.prefix == info@.prefix);
        assert(ev.prefix_code == info@.prefix_code);
        assert(ev.file_type == info@.file_type);
        assert(ev.mode == info@.mode);
        assert(ev.valid == info@.valid);
        assert(ev.path == info@.path);
    }
    Some(info)
}

/// The answer to a `list` request: every stored mapping, once.
pub fn respond_list(store: &FsidStorage) -> (r: ApiResponse)
    ensures
        listing(r@, store@),
{
    let entries = store.entries();
    let mut list: Vec<ListEntry> = Vec::new();
    let mut i: usize = 0;
    while i < entries.len()
        invariant
            0 <= i <= entries@.len(),
            list@.map_values(|e: ListEntry| e@) =~= pairs(entries@.take(i as int)),
        decreases entries@.len() - i,
    {
        let ghost old_list = list@;
        let entry = ListEntry { fsid: entries[i].0.clone(), path: entries[i].1.clone() };
        list.push(entry);
        proof {
            assert(entries@.take(i + 1) =~= entries@.take(i as int).push(entries@[i as int]));
            assert(pairs(entries@.take(i + 1)) =~= pairs(entries@.take(i as int)).push(
                (entries@[i as int].0@, entries@[i as int].1@),
            ));
            assert(list@ =~= old_list.push(entry));
            assert(list@.map_values(|e: ListEntry| e@) =~= old_list.map_values(|e: ListEntry| e@).push(
                entry@,
            ));
        }
        i += 1;
    }
    proof {
        assert(entries@.take(entries@.len() as int) =~= entries@);
    }
    ApiResponse { success: true, fsid: None, path: None, info: None, list: Some(list), error: None }
}

/// Handle API request: the next step for `req`, given the stored mappings and,
/// for a `to` request, the facts of its path once the server has them.
pub fn handle_request(req: &ApiRequest, store: &mut FsidStorage, target: Option<&PathFacts>) -> (step: Step)
    ensures
        req.action@ == "to"@ ==> match req.path {
            None => step matches Step::Reply(resp) && resp@ == failure("Missing 'path' field"@)
                && final(store)@ == old(store)@,
            Some(p) => match target {
                None => step matches Step::InspectPath(q) && q@ == p@ && final(store)@ == old(
                    store,
                )@,
                Some(t) => if !t.exists {
                    step matches Step::Reply(resp) && resp@ == failure(
                        "Path does not exist: "@ + p@,
                    ) && final(store)@ == old(store)@
                } else {
                    match generated_fsid(opt_text(req.format), t.canonical@, t.file) {
                        Some(f) => step matches Step::SaveAndReply(resp) && resp@ == with_fsid(f)
                            && final(store)@ == old(store)@.insert(f, t.canonical@),
                        None => step is Abort && final(store)@ == old(store)@,
                    }
                },
            },
        },
        req.action@ != "to"@ ==> final(store)@ == old(store)@,
        req.action@ == "from"@ ==> match req.fsid {
            None => step matches Step::Reply(resp) && resp@ == failure("Missing 'fsid' field"@),
            Some(f) => step matches Step::Reply(resp) && resp@ == from_response(
                old(store)@,
                f@,
                lower_text(f@),
            ),
        },
        req.action@ == "info"@ ==> match req.fsid {
            None => step matches Step::Reply(resp) && resp@ == failure("Missing 'fsid' field"@),
            Some(f) => match info_of(old(store)@, f@, lower_text(f@)) {
                Some(i) => step matches Step::Reply(resp) && resp@ == with_info(i),
                None => step matches Step::Reply(resp) && resp@ == failure("Invalid FSID format"@),
            },
        },
        req.action@ == "list"@ ==> (step matches Step::Reply(resp) && listing(resp@, old(store)@)),
        req.action@ != "to"@ && req.action@ != "from"@ && req.action@ != "info"@ && req.action@
            != "list"@ ==> (step matches Step::Reply(resp) && resp@ == failure(
            "Unknown action: "@ + req.action@,
        )),
{
    proof {
        reveal_strlit("to");
        reveal_strlit("from");
        reveal_strlit("info");
        reveal_strlit("list");
        assert("to"@[0] == 't' && "from"@[0] == 'f' && "info"@[0] == 'i' && "list"@[0] == 'l');
    }
    let action = req.action.as_str();
    if str_eq(action, "to") {
        let path = match &req.path {
            Some(p) => p,
            None => return Step::Reply(failure_response("Missing 'path' field".to_owned())),
        };
        let facts = match target {
            Some(t) => t,
            None => return Step::InspectPath(path.clone()),
        };
        let format = match &req.format {
            Some(f) => Some(f.as_str()),
            None => None,
        };
        return match respond_to(path.as_str(), format, facts, store) {
            Some(resp) => if facts.exists {
                Step::SaveAndReply(resp)
            } else {
                Step::Reply(resp)
            },
            None => Step::Abort,
        };
    }
    if str_eq(action, "from") {
        let fsid = match &req.fsid {
            Some(f) => f,
            None => return Step::Reply(failure_response("Missing 'fsid' field".to_owned())),
        };
        let fsid_lower = to_lowercase(fsid.as_str());
        return Step::Reply(respond_from(fsid.as_str(), fsid_lower.as_str(), store));
    }
    if str_eq(action, "info") {
        let fsid = match &req.fsid {
            Some(f) => f,
            None => return Step::Reply(failure_response("Missing 'fsid' field".to_owned())),
        };
        let fsid_lower = to_lowercase(fsid.as_str());
        return match describe(fsid.as_str(), fsid_lower.as_str(), store) {
            Some(info) => Step::Reply(
                ApiResponse {
                    success: true,
                    fsid: None,
                    path: None,
                    info: Some(info),
                    list: None,
                    error: None,
                },
            ),
            None => Step::Reply(failure_response("Invalid FSID format".to_owned())),
        };
    }
    if str_eq(action, "list") {
        return Step::Reply(respond_list(store));
    }
    Step::Reply(failure_response(concat("Unknown action: ", action)))
}

/// Lowering a text of digits and lowercase letters leaves it as it is.
proof fn lemma_lower_base36(s: Seq<char>)
    requires
        forall|i: int| 0 <= i < s.len() ==> short::is_base36_char(#[trigger] s[i]),
    ensures
        lower_text(s) == s,
{
    assert(vstd::utf8::is_ascii_chars(s)) by {
        assert forall|i: int| 0 <= i < s.len() implies '\0' <= #[trigger] s[i] <= '\u{7f}' by {
            assert(short::is_base36_char(s[i]));
        }
    }
    let lowered = s.map_values(|c: char| crate::text::ascii_lower(c));
    assert(lowered =~= s) by {
        assert forall|i: int| 0 <= i < s.len() implies #[trigger] lowered[i] == s[i] by {
            assert(short::is_base36_char(s[i]));
        }
    }
}

/// Once `to` has answered with an FSID, `from` on that FSID answers with the
/// path the FSID was made for, and `info` on it, where it answers, shows that
/// path.
pub proof fn law_from_after_to(
    store: Map<Seq<char>, Seq<char>>,
    format: Option<Seq<char>>,
    canonical: Seq<char>,
    facts: FileFacts,
)
    requires
        generated_fsid(format, canonical, facts) is Some,
    ensures
        ({
            let f = generated_fsid(format, canonical, facts)->0;
            let after = store.insert(f, canonical);
            &&& from_response(after, f, lower_text(f)) == with_path(canonical)
            &&& info_of(after, f, lower_text(f)) matches Some(i) ==> i.path == Some(canonical)
        }),
{
}

/// `from` decodes a standard FSID that nothing is stored under back to the
/// path it was made for (the path being one that the format can give back),
/// except an FSID of 13 digits, which is taken for a minimal one.
pub proof fn law_from_standard(store: Map<Seq<char>, Seq<char>>, canonical: Seq<char>, facts: FileFacts)
    requires
        standard::reversible(canonical),
        standard::sum_fits(standard::partial_fsid(canonical, facts)),
        !store.contains_key(standard::fsid_of(canonical, facts)),
        standard::fsid_of(canonical, facts).len() != 13,
    ensures
        ({
            let f = standard::fsid_of(canonical, facts);
            from_response(store, f, lower_text(f)) == with_path(canonical)
        }),
{
    let f = standard::fsid_of(canonical, facts);
    standard::law_roundtrip(canonical, facts);
    assert forall|i: int| 0 <= i < f.len() implies short::is_base36_char(#[trigger] f[i]) by {
        assert(standard::is_digit(f[i]));
    }
    lemma_lower_base36(f);
    assert(!is_short(f)) by {
        if is_short(f) {
            let i = choose|i: int| 0 <= i < f.len() && crate::is_lower_ascii(#[trigger] f[i]);
            assert(standard::is_digit(f[i]));
        }
    }
}

/// `from` decodes a short FSID that nothing is stored under back to the path
/// it was made for (the path being one that the format can give back), where
/// the FSID holds a letter, so that it is taken for a short one.
pub proof fn law_from_short(store: Map<Seq<char>, Seq<char>>, canonical: Seq<char>, facts: FileFacts)
    requires
        short::reversible(canonical),
        short::sum_fits(encode_utf8(short::partial_fsid(canonical, facts))),
        !store.contains_key(short::fsid_of(canonical, facts)),
        is_short(short::fsid_of(canonical, facts)),
    ensures
        ({
            let f = short::fsid_of(canonical, facts);
            from_response(store, f, lower_text(f)) == with_path(canonical)
        }),
{
    let f = short::fsid_of(canonical, facts);
    short::law_roundtrip(canonical, facts);
    short::lemma_fsid_chars(canonical, facts);
    lemma_lower_base36(f);
    assert(!is_minimal(f)) by {
        let i = choose|i: int| 0 <= i < f.len() && crate::is_lower_ascii(#[trigger] f[i]);
        assert(!standard::is_digit(f[i]));
    }
}

/// A minimal FSID cannot be decoded: unless it is stored, under itself or in
/// lowercase, `from` answers that decoding failed.
pub proof fn law_minimal_needs_storage(store: Map<Seq<char>, Seq<char>>, fsid: Seq<char>, lower: Seq<char>)
    requires
        is_minimal(fsid),
        !store.contains_key(fsid),
        !store.contains_key(lower),
    ensures
        from_response(store, fsid, lower) == failure("Failed to decode FSID"@),
{
}

/// `info` on the minimal FSID of a path shows what the FSID was made from: the
/// code and directory the path is filed under, the name of its file type, its
/// mode (as its mode code describes it), that the FSID is valid, and the path
/// stored under the FSID, if any.
pub proof fn law_info_minimal(
    store: Map<Seq<char>, Seq<char>>,
    canonical: Seq<char>,
    facts: FileFacts,
    lower: Seq<char>,
)
    ensures
        ({
            let f = minimal::fsid_of(canonical, facts);
            let entry = split_prefix(canonical, STD_PREFIX_COUNT as int).0;
            let (symbolic, octal) = mode_description(mode_code(facts));
            info_of(store, f, lower) matches Some(i) && {
                &&& i.fsid == f
                &&& i.format == "minimal"@
                &&& i.prefix_code == ascii_chars(std_code(entry))
                &&& i.prefix == prefix_path(entry)
                &&& i.file_type == file_type_name(file_type_code(facts))
                &&& i.mode == mode_text(symbolic, octal)
                &&& i.valid
                &&& i.path == stored_path(store, f, lower)
            }
        }),
{
    let f = minimal::fsid_of(canonical, facts);
    let entry = split_prefix(canonical, STD_PREFIX_COUNT as int).0;
    crate::prefix::lemma_split_prefix_entry(canonical, STD_PREFIX_COUNT as int);
    minimal::law_minimal_layout(canonical, facts);
    minimal::law_valid(canonical, facts);
    assert(is_minimal(f));
    assert(((f[2] as int - 48) as u8) == file_type_code(facts));
    assert(((f[3] as int - 48) as u8) == mode_code(facts));
    crate::prefix::lemma_code_entry(false, ascii_chars(std_code(entry)), entry);
}

/// `info` on the standard FSID of a path (one that the format can give back,
/// and not of 13 digits, which would be taken for a minimal FSID) shows what
/// the FSID was made from: the code and directory the path is filed under, the
/// name of its file type, its mode (as its mode code describes it), that the
/// FSID is valid, and the stored path or else the path itself.
pub proof fn law_info_standard(store: Map<Seq<char>, Seq<char>>, canonical: Seq<char>, facts: FileFacts)
    requires
        standard::reversible(canonical),
        standard::sum_fits(standard::partial_fsid(canonical, facts)),
        standard::fsid_of(canonical, facts).len() != 13,
    ensures
        ({
            let f = standard::fsid_of(canonical, facts);
            let entry = split_prefix(canonical, STD_PREFIX_COUNT as int).0;
            let (symbolic, octal) = mode_description(mode_code(facts));
            info_of(store, f, lower_text(f)) matches Some(i) && {
                &&& i.fsid == f
                &&& i.format == "standard"@
                &&& i.prefix_code == ascii_chars(std_code(entry))
                &&& i.prefix == prefix_path(entry)
                &&& i.file_type == file_type_name(file_type_code(facts))
                &&& i.mode == mode_text(symbolic, octal)
                &&& i.valid
                &&& i.path == or_else(stored_path(store, f, lower_text(f)), Some(canonical))
            }
        }),
{
    let f = standard::fsid_of(canonical, facts);
    crate::cli::law_info_standard(canonical, facts);
    assert forall|i: int| 0 <= i < f.len() implies short::is_base36_char(#[trigger] f[i]) by {
        assert(standard::is_digit(f[i]));
    }
    lemma_lower_base36(f);
    assert(!is_short(f)) by {
        if is_short(f) {
            let i = choose|i: int| 0 <= i < f.len() && crate::is_lower_ascii(#[trigger] f[i]);
            assert(standard::is_digit(f[i]));
        }
    }
}

/// `info` on the short FSID of a path (one that the format can give back, and
/// holding a letter, so that it is taken for a short FSID) shows what the FSID
/// was made from: the code and directory the path is filed under, that the
/// FSID is valid, the stored path or else the path itself, and, where the
/// type and mode table has an entry with the file's type and permissions, the
/// name of that type and those permissions.
pub proof fn law_info_short(store: Map<Seq<char>, Seq<char>>, canonical: Seq<char>, facts: FileFacts)
    requires
        short::reversible(canonical),
        short::sum_fits(encode_utf8(short::partial_fsid(canonical, facts))),
        is_short(short::fsid_of(canonical, facts)),
    ensures
        ({
            let f = short::fsid_of(canonical, facts);
            let entry = split_prefix(canonical, SHORT_PREFIX_COUNT as int).0;
            let (t, perm) = type_and_permissions(facts);
            info_of(store, f, lower_text(f)) matches Some(i) && {
                &&& i.fsid == f
                &&& i.format == "short"@
                &&& i.prefix_code == ascii_chars(short_code(entry))
                &&& i.prefix == prefix_path(entry)
                &&& i.valid
                &&& i.path == or_else(stored_path(store, f, lower_text(f)), Some(canonical))
                &&& (exists|k: int| 0 <= k < 18 && #[trigger] tm_type(k) == t && tm_mode(k) == perm)
                    ==> i.file_type == file_type_name(t) && i.mode == octal_text(perm)
            }
        }),
{
    let f = short::fsid_of(canonical, facts);
    let p = short::partial_fsid(canonical, facts);
    let n = SHORT_PREFIX_COUNT as int;
    let entry = split_prefix(canonical, n).0;
    crate::prefix::lemma_split_prefix_entry(canonical, n);
    short::law_roundtrip(canonical, facts);
    short::lemma_fsid_chars(canonical, facts);
    lemma_lower_base36(f);
    assert(!is_minimal(f)) by {
        let i = choose|i: int| 0 <= i < f.len() && crate::is_lower_ascii(#[trigger] f[i]);
        assert(!standard::is_digit(f[i]));
    }
    let b = encode_utf8(f);
    assert(vstd::utf8::is_ascii_chars(f)) by {
        assert forall|i: int| 0 <= i < f.len() implies '\0' <= #[trigger] f[i] <= '\u{7f}' by {
            assert(short::is_base36_char(f[i]));
        }
    }
    vstd::utf8::is_ascii_chars_encode_utf8(f);
    vstd::utf8::encode_utf8_valid_utf8(f);
    crate::text::lemma_boundary(b, 2);
    let code = ascii_chars(short_code(entry));
    let tm = crate::metadata::type_mode_code(facts);
    assert(p == code + seq![tm] + short::base36_text(encode_utf8(split_prefix(canonical, n).1)));
    assert(f[2] == tm) by {
        assert(f[2] == p[2]);
    }
    let code_bytes = b.subrange(0, 2);
    assert(code_bytes =~= short_code(entry)) by {
        assert forall|i: int| 0 <= i < 2 implies #[trigger] code_bytes[i] == short_code(entry)[i] by {
            assert(code_bytes[i] == f[i] as u8);
            assert(f[i] == p[i]);
            assert(p[i] == short_code(entry)[i] as char);
        }
    }
    assert(crate::text::all_ascii(short_code(entry)));
    crate::text::lemma_ascii_bytes(short_code(entry));
    crate::prefix::lemma_code_entry(true, code, entry);
    let (t, perm) = type_and_permissions(facts);
    short::law_type_mode_round_trip(t, perm);
}

} // verus!
