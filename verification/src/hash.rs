//! Content addressing.
//!
//! Every payload (a request, an outcome, a trace) is named by the BLAKE3 hash
//! of its bytes, so two runs that produced the same bytes share storage.

use crate::text::{cut_at, same};
use vstd::prelude::*;

verus! {

/// The lowercase hex text of the BLAKE3 hash of some bytes.
pub uninterp spec fn blake3_hex(bytes: Seq<u8>) -> Seq<char>;

/// Whether a character is a lowercase hex digit.
pub open spec fn is_hex(c: char) -> bool {
    ('0' as int <= c as int <= '9' as int) || ('a' as int <= c as int <= 'f' as int)
}

/// Whether a text is a full digest: sixty-four lowercase hex digits.
pub open spec fn is_full(hex: Seq<char>) -> bool {
    hex.len() == 64 && forall|i: int| 0 <= i < hex.len() ==> is_hex(#[trigger] hex[i])
}

/// Whether a digest has a first part of exactly twelve bytes to show.
pub open spec fn has_short(hex: Seq<char>) -> bool {
    crate::text::ends_at(hex, 12)
}

/// The first twelve bytes of a digest.
pub open spec fn short_of(hex: Seq<char>) -> Seq<char> {
    crate::text::cut(hex, 12)
}

/// `blake3::hash`, printed with `to_hex`: sixty-four lowercase hex digits
/// that depend on the bytes alone.
#[verifier::external_body]
fn hash_hex(bytes: &[u8]) -> (r: String)
    ensures
        r@ == blake3_hex(bytes@),
        is_full(r@),
{
    blake3::hash(bytes).to_hex().to_string()
}

/// A BLAKE3 digest, rendered as lowercase hex.
#[derive(Debug, PartialEq, Eq, Hash, PartialOrd, Ord)]
pub struct Digest {
    hex: String,
}

impl View for Digest {
    type V = Seq<char>;

    closed spec fn view(&self) -> Seq<char> {
        self.hex@
    }
}

impl Clone for Digest {
    fn clone(&self) -> (r: Self)
        ensures
            r@ == self@,
    {
        Digest { hex: self.hex.clone() }
    }
}

impl Digest {
    /// Hash a byte slice.
    pub fn of(bytes: &[u8]) -> (r: Self)
        ensures
            r@ == blake3_hex(bytes@),
            is_full(r@),
    {
        Digest { hex: hash_hex(bytes) }
    }

    /// The full hex digest.
    pub fn as_str(&self) -> (r: &str)
        ensures
            r@ == self@,
    {
        self.hex.as_str()
    }

    /// The first twelve hex digits: enough to tell digests apart by eye.
    pub fn short(&self) -> (r: &str)
        requires
            has_short(self@),
        ensures
            r@ == short_of(self@),
    {
        cut_at(self.hex.as_str(), 12)
    }

    /// Reconstruct from hex. Does not check that the digest names any content.
    pub fn from_hex(s: &str) -> (r: Self)
        ensures
            r@ == s@,
    {
        Digest { hex: s.to_owned() }
    }

    /// Whether two digests are the same text.
    pub fn same(&self, other: &Digest) -> (r: bool)
        ensures
            r == (self@ == other@),
    {
        same(self.hex.as_str(), other.hex.as_str())
    }
}

/// A full digest can be shown short, as its first twelve digits.
pub proof fn lemma_full_has_short(hex: Seq<char>)
    requires
        is_full(hex),
    ensures
        has_short(hex),
        short_of(hex) == hex.take(12),
{
    crate::text::lemma_fitting_narrow(hex, 12);
}

} // verus!
