//! Comparing a frame with a string.

use crate::buffer::bytes_as_slice;
use crate::buffer::bytes_contents;
use crate::frame::Frame;
use vstd::prelude::*;
use vstd::std_specs::cmp::PartialEqSpecImpl;
use vstd::utf8::encode_utf8;

verus! {

/// Tells whether two byte strings are the same.
pub fn same_bytes(a: &[u8], b: &[u8]) -> (same: bool)
    ensures
        same == (a@ == b@),
{
    if a.len() != b.len() {
        return false;
    }
    let n: usize = a.len();
    let mut i: usize = 0;
    while i < n
        invariant
            i <= n,
            n == a@.len(),
            n == b@.len(),
            forall|j: int| 0 <= j < i ==> a@[j] == b@[j],
        decreases n - i,
    {
        if a[i] != b[i] {
            return false;
        }
        i += 1;
    }
    assert(a@ =~= b@);
    true
}

/// Texts are the same exactly when their UTF-8 bytes are.
pub proof fn lemma_same_text(a: Seq<char>, b: Seq<char>)
    ensures
        (a == b) == (encode_utf8(a) == encode_utf8(b)),
{
    vstd::utf8::encode_utf8_decode_utf8(a);
    vstd::utf8::encode_utf8_decode_utf8(b);
}

impl PartialEq<&str> for Frame {
    /// A simple string equals its text and a bulk string the text whose
    /// UTF-8 bytes it holds; no other frame equals a string.
    fn eq(&self, other: &&str) -> (r: bool) {
        match self {
            Frame::Simple(text) => {
                proof {
                    lemma_same_text(text@, other@);
                }
                same_bytes(text.as_str().as_bytes(), other.as_bytes())
            },
            Frame::Bulk(data) => same_bytes(bytes_as_slice(data), other.as_bytes()),
            _ => false,
        }
    }
}

impl PartialEqSpecImpl<&str> for Frame {
    open spec fn obeys_eq_spec() -> bool {
        true
    }

    open spec fn eq_spec(&self, other: &&str) -> bool {
        match self {
            Frame::Simple(text) => text@ == other@,
            Frame::Bulk(data) => bytes_contents(*data) == encode_utf8(other@),
            _ => false,
        }
    }
}

} // verus!
