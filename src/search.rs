//! Finding a byte in a buffer.

use vstd::prelude::*;

verus! {

/// `i` is the index of the first `b` in `s`.
pub open spec fn first_at(s: Seq<u8>, b: u8, i: int) -> bool {
    &&& 0 <= i < s.len()
    &&& s[i] == b
    &&& forall|k: int| 0 <= k < i ==> s[k] != b
}

/// `s` holds no `b`.
pub open spec fn absent(s: Seq<u8>, b: u8) -> bool {
    forall|k: int| 0 <= k < s.len() ==> s[k] != b
}

/// Relies on memchr::memchr: the index of the first occurrence of `needle` in
/// `hay`, or `None` where there is none.
#[verifier::external_body]
pub(crate) fn find_byte(needle: u8, hay: &[u8]) -> (r: Option<usize>)
    ensures
        match r {
            Some(i) => first_at(hay@, needle, i as int),
            None => absent(hay@, needle),
        },
{
    memchr::memchr(needle, hay)
}

} // verus!
