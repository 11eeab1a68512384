use vstd::prelude::*;

pub mod cli;
pub mod constants;
pub mod metadata;
pub mod minimal;
pub mod prefix;
pub mod radix;
pub mod short;
pub mod standard;
pub mod storage;
pub mod text;
pub mod webapi;

verus! {

pub open spec fn is_lower_ascii(c: char) -> bool {
    'a' <= c && c <= 'z'
}

/// Check if FSID is in short format (contains lowercase letters)
pub fn is_short_format(fsid: &str) -> (r: bool)
    ensures
        r == exists|i: int| 0 <= i < fsid@.len() && is_lower_ascii(#[trigger] fsid@[i]),
{
    broadcast use vstd::string::group_string_axioms;
    let mut found = false;
    for c in it: fsid.chars()
        invariant
            it.seq() == fsid@,
            found == exists|i: int| 0 <= i < it.index() && is_lower_ascii(#[trigger] fsid@[i]),
    {
        if 'a' <= c && c <= 'z' {
            found = true;
        }
    }
    found
}

} // verus!
