//! UTF-8-safe truncation of facet strings, and the external
//! normalizer they pass through first.
//!
//! A string payload must fit the storage layer's key-size ceiling and
//! still be valid UTF-8, so the cut lands on the greatest character
//! boundary at or under `MAX_FACET_VALUE_LENGTH`.

use vstd::prelude::*;
use vstd::string::StringSliceAdditionalSpecFns;
use vstd::utf8::{is_char_boundary, valid_utf8};

use crate::MAX_FACET_VALUE_LENGTH;

verus! {

/// What the external normalizer returns for a given text: lowercasing
/// and folding depend on the characters alone.
pub uninterp spec fn normalized_of(s: Seq<char>) -> Seq<char>;

/// Relies on `str::to_lowercase`: the folded text is a function of the
/// input characters alone, and an empty input stays empty.
#[verifier::external_body]
pub(crate) fn normalize_facet(s: &str) -> (r: String)
    ensures
        r@ == normalized_of(s@),
        s@.len() == 0 ==> r@.len() == 0,
{
    s.to_lowercase()
}

/// The greatest character boundary of a valid UTF-8 byte string at or
/// under the given index.
pub open spec fn largest_boundary_le(bytes: Seq<u8>, i: int) -> int
    decreases i,
{
    if i <= 0 {
        0
    } else if is_char_boundary(bytes, i) {
        i
    } else {
        largest_boundary_le(bytes, i - 1)
    }
}

/// The bytes a string keeps after UTF-8-safe truncation to the
/// key-size ceiling.
pub open spec fn spec_truncate(bytes: Seq<u8>) -> Seq<u8> {
    if bytes.len() <= MAX_FACET_VALUE_LENGTH {
        bytes
    } else {
        bytes.subrange(0, largest_boundary_le(bytes, MAX_FACET_VALUE_LENGTH as int))
    }
}

/// A boundary below which no boundary follows up to `i` is the
/// greatest boundary at or under `i`.
proof fn lemma_largest_boundary(bytes: Seq<u8>, k: int, i: int)
    requires
        0 <= k <= i,
        is_char_boundary(bytes, k),
        forall|j: int| k < j <= i ==> !is_char_boundary(bytes, j),
    ensures
        largest_boundary_le(bytes, i) == k,
    decreases i,
{
    if i > k {
        lemma_largest_boundary(bytes, k, i - 1);
    }
}

/// Truncates a string to the greatest character boundary at or under
/// the storage layer's key-size ceiling.  The result is a prefix of
/// the input (in characters and in bytes), holds at most
/// `MAX_FACET_VALUE_LENGTH` bytes, and no longer prefix would fit:
/// every byte index above the cut and at or under the ceiling falls
/// inside a multi-byte character.
pub fn truncate_str(s: &str) -> (r: &str)
    ensures
        r@ == s@.subrange(0, r@.len() as int),
        r.spec_bytes().len() <= MAX_FACET_VALUE_LENGTH,
        r.spec_bytes() == spec_truncate(s.spec_bytes()),
        r.spec_bytes() == s.spec_bytes().subrange(0, r.spec_bytes().len() as int),
        is_char_boundary(s.spec_bytes(), r.spec_bytes().len() as int),
        forall|j: int|
            r.spec_bytes().len() < j <= MAX_FACET_VALUE_LENGTH && j <= s.spec_bytes().len()
                ==> !is_char_boundary(s.spec_bytes(), j),
{
    broadcast use vstd::utf8::encode_utf8_valid_utf8;
    broadcast use vstd::utf8::encode_utf8_decode_utf8;
    broadcast use vstd::utf8::decode_utf8_split;
    broadcast use vstd::utf8::is_char_boundary_start_end_of_seq;

    let ghost bytes = s.spec_bytes();
    let n: usize = s.as_bytes().len();
    if n <= MAX_FACET_VALUE_LENGTH {
        assert(s@ =~= s@.subrange(0, s@.len() as int));
        assert(bytes =~= bytes.subrange(0, bytes.len() as int));
        return s;
    }
    let mut k: usize = MAX_FACET_VALUE_LENGTH;
    loop
        invariant_except_break
            k <= MAX_FACET_VALUE_LENGTH < bytes.len(),
            bytes == s.spec_bytes(),
            valid_utf8(bytes),
            forall|j: int| k < j <= MAX_FACET_VALUE_LENGTH ==> !is_char_boundary(bytes, j),
        ensures
            k <= MAX_FACET_VALUE_LENGTH < bytes.len(),
            is_char_boundary(bytes, k as int),
            forall|j: int| k < j <= MAX_FACET_VALUE_LENGTH ==> !is_char_boundary(bytes, j),
        decreases k,
    {
        if s.is_char_boundary(k) {
            break;
        }
        // index 0 is always a boundary, so a non-boundary index is
        // positive and can step back
        assert(k != 0);
        k = k - 1;
    }
    let (pre, _) = s.split_at(k);
    proof {
        lemma_largest_boundary(bytes, k as int, MAX_FACET_VALUE_LENGTH as int);
        assert(pre.spec_bytes().len() == k);
        assert(pre.spec_bytes() =~= bytes.subrange(0, k as int));
        // the characters of the prefix are a prefix of the characters
        assert(vstd::utf8::decode_utf8(bytes) == s@);
        assert(vstd::utf8::decode_utf8(pre.spec_bytes()) == pre@);
        assert(s@ =~= pre@ + vstd::utf8::decode_utf8(bytes.subrange(k as int, bytes.len() as int)));
        assert(pre@ =~= s@.subrange(0, pre@.len() as int));
    }
    pre
}

} // verus!
