//! Text helpers: ASCII byte strings, UTF-8 views of `str`, comparison and
//! slicing of string slices at byte offsets.

use vstd::prelude::*;
use vstd::string::*;
use vstd::utf8::*;

verus! {

/// Every byte is below 128.
pub open spec fn all_ascii(bytes: Seq<u8>) -> bool {
    forall|i: int| 0 <= i < bytes.len() ==> #[trigger] bytes[i] < 128
}

/// The characters that ASCII bytes stand for.
pub open spec fn ascii_chars(bytes: Seq<u8>) -> Seq<char> {
    bytes.map_values(|b: u8| b as char)
}

/// Slicing `s` at byte offset `i` does not panic: `i` is within the string and
/// falls on a character boundary.
pub open spec fn cuts(s: &str, i: int) -> bool {
    is_char_boundary(s.spec_bytes(), i)
}

/// The text of the bytes `from..to` of `s`.
pub open spec fn byte_slice(s: &str, from: int, to: int) -> Seq<char> {
    decode_utf8(s.spec_bytes().subrange(from, to))
}

/// ASCII bytes are valid UTF-8, and encode exactly their characters.
pub proof fn lemma_ascii_bytes(bytes: Seq<u8>)
    requires
        all_ascii(bytes),
    ensures
        encode_utf8(ascii_chars(bytes)) == bytes,
        valid_utf8(bytes),
        decode_utf8(bytes) == ascii_chars(bytes),
        is_ascii_chars(ascii_chars(bytes)),
{
    broadcast use group_utf8_lib;

    let cs = ascii_chars(bytes);
    assert(is_ascii_chars(cs)) by {
        assert forall|i: int| 0 <= i < cs.len() implies '\0' <= #[trigger] cs[i] <= '\u{7f}' by {
            assert(bytes[i] < 128);
        }
    }
    is_ascii_chars_encode_utf8(cs);
    assert(encode_utf8(cs) =~= bytes) by {
        assert forall|i: int| 0 <= i < bytes.len() implies #[trigger] encode_utf8(cs)[i] == bytes[i] by {
            assert(cs[i] as u8 == encode_utf8(cs)[i]);
            assert(bytes[i] < 128);
        }
    }
}

/// A text is encoded by ASCII bytes exactly when it is their characters.
pub proof fn lemma_encodes_ascii(s: Seq<char>, bytes: Seq<u8>)
    requires
        all_ascii(bytes),
    ensures
        (encode_utf8(s) == bytes) == (s == ascii_chars(bytes)),
{
    broadcast use group_utf8_lib;

    lemma_ascii_bytes(bytes);
}

/// The UTF-8 encoding is one-to-one.
pub proof fn lemma_encode_injective(a: Seq<char>, b: Seq<char>)
    ensures
        (encode_utf8(a) == encode_utf8(b)) == (a == b),
{
    encode_utf8_decode_utf8(a);
    encode_utf8_decode_utf8(b);
}

/// `std::string::String::from_utf8`: the bytes become a `String` when they are
/// valid UTF-8, and the string holds the characters they encode.
#[verifier::external_body]
fn string_from_utf8(bytes: Vec<u8>) -> (r: Option<String>)
    ensures
        r is Some == valid_utf8(bytes@),
        r matches Some(s) ==> s@ == decode_utf8(bytes@),
{
    String::from_utf8(bytes).ok()
}

/// A string of ASCII bytes.
pub fn ascii_string(bytes: Vec<u8>) -> (r: String)
    requires
        all_ascii(bytes@),
    ensures
        r@ == ascii_chars(bytes@),
{
    proof {
        lemma_ascii_bytes(bytes@);
    }
    match string_from_utf8(bytes) {
        Some(s) => s,
        None => {
            proof {
                assert(false);
            }
            String::new()
        },
    }
}

/// A string of one ASCII character.
pub fn char_string(c: char) -> (r: String)
    requires
        (c as u32) < 128,
    ensures
        r@ == seq![c],
{
    let mut v: Vec<u8> = Vec::new();
    v.push(c as u8);
    let r = ascii_string(v);
    assert(r@ =~= seq![c]);
    r
}

/// Decode bytes as UTF-8, as `String::from_utf8(..).ok()` does.
pub fn utf8_string(bytes: Vec<u8>) -> (r: Option<String>)
    ensures
        r is Some == valid_utf8(bytes@),
        r matches Some(s) ==> s@ == decode_utf8(bytes@),
{
    string_from_utf8(bytes)
}

/// The name of what `str::to_lowercase` makes of a text.
pub uninterp spec fn lowercase(s: Seq<char>) -> Seq<char>;

/// The Unicode lowercase form of an ASCII character: `A` to `Z` become `a` to
/// `z`, every other ASCII character stays as it is.
pub open spec fn ascii_lower(c: char) -> char {
    if 'A' <= c <= 'Z' {
        ((c as int) + 32) as char
    } else {
        c
    }
}

/// The lowercase form of a text, as far as it is known: ASCII text lowered
/// character by character, any other text by its name `lowercase`.
pub open spec fn lower_text(s: Seq<char>) -> Seq<char> {
    if is_ascii_chars(s) {
        s.map_values(|c: char| ascii_lower(c))
    } else {
        lowercase(s)
    }
}

/// `str::to_lowercase`: the Unicode lowercase form of `s`. Its result is named
/// by `lowercase`; of ASCII text it is stated that each character is mapped by
/// `ascii_lower` (the Unicode lowercase mapping restricted to ASCII). Beyond
/// ASCII nothing more is stated of it.
#[verifier::external_body]
pub(crate) fn to_lowercase(s: &str) -> (r: String)
    ensures
        r@ == lowercase(s@),
        is_ascii_chars(s@) ==> r@ == s@.map_values(|c: char| ascii_lower(c)),
{
    s.to_lowercase()
}

/// Byte-wise equality of two byte slices.
fn bytes_eq(a: &[u8], b: &[u8]) -> (r: bool)
    ensures
        r == (a@ == b@),
{
    if a.len() != b.len() {
        return false;
    }
    let mut i: usize = 0;
    while i < a.len()
        invariant
            a@.len() == b@.len(),
            0 <= i <= a@.len(),
            forall|j: int| 0 <= j < i ==> a@[j] == b@[j],
        decreases a@.len() - i,
    {
        if a[i] != b[i] {
            return false;
        }
        i += 1;
    }
    assert(a@ =~= b@);
    true
}

/// Equality of two texts.
pub fn str_eq(a: &str, b: &str) -> (r: bool)
    ensures
        r == (a@ == b@),
{
    let x = a.as_bytes();
    let y = b.as_bytes();
    proof {
        lemma_encode_injective(a@, b@);
    }
    bytes_eq(x, y)
}

/// Does `s` hold exactly the ASCII bytes `code`?
pub fn str_is_ascii_bytes(s: &str, code: &[u8]) -> (r: bool)
    requires
        all_ascii(code@),
    ensures
        r == (s@ == ascii_chars(code@)),
{
    let x = s.as_bytes();
    proof {
        lemma_encodes_ascii(s@, code@);
    }
    bytes_eq(x, code)
}

/// Within valid UTF-8, a byte offset below the end is a boundary exactly when
/// the byte there is not a continuation byte; the end is always one.
pub proof fn lemma_boundary(bytes: Seq<u8>, i: int)
    requires
        valid_utf8(bytes),
    ensures
        is_char_boundary(bytes, i) == (i == bytes.len() || (0 <= i < bytes.len()
            && !is_continuation_byte(bytes[i]))),
{
    broadcast use group_utf8_lib;

    if 0 <= i < bytes.len() {
        is_char_boundary_iff_not_is_continuation_byte(bytes, i);
    } else if i == bytes.len() {
        is_char_boundary_start_end_of_seq(bytes);
    } else {
        if i == 0 {
            is_char_boundary_start_end_of_seq(bytes);
        }
        assert(!is_char_boundary(bytes, i)) by {
            reveal_with_fuel(is_char_boundary, 1);
        }
    }
}

/// A string can be cut at its start and at its end.
pub proof fn lemma_cuts_ends(s: &str)
    ensures
        cuts(s, 0),
        cuts(s, s.spec_bytes().len() as int),
{
    broadcast use group_utf8_lib;

    lemma_boundary(s.spec_bytes(), 0);
    lemma_boundary(s.spec_bytes(), s.spec_bytes().len() as int);
}

/// The text of the bytes `from..to` of `s`, where both offsets are
/// character boundaries.
pub fn str_slice<'a>(s: &'a str, from: usize, to: usize) -> (r: &'a str)
    requires
        from <= to,
        cuts(s, from as int),
        cuts(s, to as int),
    ensures
        r.spec_bytes() == s.spec_bytes().subrange(from as int, to as int),
        r@ == byte_slice(s, from as int, to as int),
{
    broadcast use group_utf8_lib;

    let ghost bytes = s.spec_bytes();
    proof {
        lemma_boundary(bytes, from as int);
        lemma_boundary(bytes, to as int);
    }
    let (_, tail) = s.split_at(from);
    let ghost tb = tail.spec_bytes();
    proof {
        assert(tb =~= bytes.subrange(from as int, bytes.len() as int));
        lemma_boundary(tb, (to - from) as int);
        if to < bytes.len() {
            assert(tb[(to - from) as int] == bytes[to as int]);
        }
    }
    let (piece, _) = tail.split_at(to - from);
    proof {
        assert(piece.spec_bytes() =~= bytes.subrange(from as int, to as int));
        encode_utf8_decode_utf8(piece@);
    }
    piece
}

} // verus!
