//! Binary key codec: kind tags, big-endian integer fields and the
//! fixed-shape cache keys built from them.
//!
//! Every cache key starts with a one-byte kind tag followed by the
//! big-endian field id; `Number` and `String` keys add a level byte and
//! a value payload.  Byte-lexicographic order of these keys equals the
//! sort order the downstream merge relies on.

use vstd::prelude::*;

verus! {

/// The class of a facet entry; its tag byte opens every cache key.
#[derive(Clone, Copy, Debug, PartialEq, Eq, Structural)]
pub enum FacetKind {
    Number,
    String,
    Null,
    Empty,
    Exists,
}

/// The wire value of each kind tag; these bytes are part of the
/// on-disk format and must stay stable across releases.
pub open spec fn facet_tag(kind: FacetKind) -> u8 {
    match kind {
        FacetKind::Number => 0,
        FacetKind::String => 1,
        FacetKind::Null => 2,
        FacetKind::Empty => 3,
        FacetKind::Exists => 4,
    }
}

impl FacetKind {
    /// The tag byte that opens every key of this kind.
    pub fn tag(self) -> (r: u8)
        ensures
            r == facet_tag(self),
    {
        match self {
            FacetKind::Number => 0,
            FacetKind::String => 1,
            FacetKind::Null => 2,
            FacetKind::Empty => 3,
            FacetKind::Exists => 4,
        }
    }
}

/// Big-endian bytes of a field id.
pub open spec fn u16_be_bytes(x: u16) -> Seq<u8> {
    seq![(x >> 8) as u8, x as u8]
}

/// Big-endian bytes of a document id.
pub open spec fn u32_be_bytes(x: u32) -> Seq<u8> {
    seq![(x >> 24) as u8, (x >> 16) as u8, (x >> 8) as u8, x as u8]
}

/// Big-endian bytes of a 64-bit word.
pub open spec fn u64_be_bytes(x: u64) -> Seq<u8> {
    seq![
        (x >> 56) as u8,
        (x >> 48) as u8,
        (x >> 40) as u8,
        (x >> 32) as u8,
        (x >> 24) as u8,
        (x >> 16) as u8,
        (x >> 8) as u8,
        x as u8,
    ]
}

/// Appends the big-endian bytes of a field id to a key buffer.
pub fn push_u16_be(buf: &mut Vec<u8>, x: u16)
    ensures
        final(buf)@ == old(buf)@ + u16_be_bytes(x),
{
    buf.push((x >> 8) as u8);
    buf.push(x as u8);
    assert(buf@ =~= old(buf)@ + u16_be_bytes(x));
}

/// Appends the big-endian bytes of a document id to a key buffer.
pub fn push_u32_be(buf: &mut Vec<u8>, x: u32)
    ensures
        final(buf)@ == old(buf)@ + u32_be_bytes(x),
{
    buf.push((x >> 24) as u8);
    buf.push((x >> 16) as u8);
    buf.push((x >> 8) as u8);
    buf.push(x as u8);
    assert(buf@ =~= old(buf)@ + u32_be_bytes(x));
}

/// Appends the big-endian bytes of a 64-bit word to a key buffer.
pub fn push_u64_be(buf: &mut Vec<u8>, x: u64)
    ensures
        final(buf)@ == old(buf)@ + u64_be_bytes(x),
{
    buf.push((x >> 56) as u8);
    buf.push((x >> 48) as u8);
    buf.push((x >> 40) as u8);
    buf.push((x >> 32) as u8);
    buf.push((x >> 24) as u8);
    buf.push((x >> 16) as u8);
    buf.push((x >> 8) as u8);
    buf.push(x as u8);
    assert(buf@ =~= old(buf)@ + u64_be_bytes(x));
}

/// The whole key of an `Exists`, `Null` or `Empty` entry, and the
/// prefix of a `Number` or `String` key: tag byte then field id.
pub open spec fn fid_key(kind: FacetKind, fid: u16) -> Seq<u8> {
    seq![facet_tag(kind)] + u16_be_bytes(fid)
}

/// Builds the tag-and-field-id key of the given kind.
pub fn encode_fid_key(kind: FacetKind, fid: u16) -> (r: Vec<u8>)
    ensures
        r@ == fid_key(kind, fid),
{
    let mut buf: Vec<u8> = Vec::new();
    buf.push(kind.tag());
    push_u16_be(&mut buf, fid);
    assert(buf@ =~= fid_key(kind, fid));
    buf
}

/// Byte-for-byte equality of two buffers.
pub fn bytes_eq(a: &Vec<u8>, b: &Vec<u8>) -> (r: bool)
    ensures
        r <==> a@ == b@,
{
    if a.len() != b.len() {
        return false;
    }
    let n = a.len();
    let mut i: usize = 0;
    while i < n
        invariant
            n == a@.len() == b@.len(),
            i <= n,
            forall|j: int| 0 <= j < i ==> a@[j] == b@[j],
        decreases n - i,
    {
        if a[i] != b[i] {
            return false;
        }
        i = i + 1;
    }
    proof {
        assert(a@ =~= b@);
    }
    true
}

/// Strict lexicographic order on byte strings: either the two differ
/// at some position where both are defined and agree before it, or the
/// first is a proper prefix of the second.
pub open spec fn lex_lt(a: Seq<u8>, b: Seq<u8>) -> bool {
    (exists|i: int|
        #![trigger a[i], b[i]]
        0 <= i < a.len() && i < b.len() && a[i] < b[i] && a.subrange(0, i) == b.subrange(0, i))
        || (a.len() < b.len() && a == b.subrange(0, a.len() as int))
}

/// Unsigned order of two 64-bit words equals lexicographic order of
/// their big-endian bytes.
pub proof fn lemma_u64_lt_lex(x: u64, y: u64)
    requires
        x < y,
    ensures
        lex_lt(u64_be_bytes(x), u64_be_bytes(y)),
{
    let a = u64_be_bytes(x);
    let b = u64_be_bytes(y);
    // the most significant differing byte decides
    assert(((x >> 56) as u8) < ((y >> 56) as u8) || (((x >> 56) as u8) == ((y >> 56) as u8) && (
    (x >> 48) as u8) < ((y >> 48) as u8)) || (((x >> 56) as u8) == ((y >> 56) as u8) && ((x >> 48)
        as u8) == ((y >> 48) as u8) && ((x >> 40) as u8) < ((y >> 40) as u8)) || (((x >> 56) as u8)
        == ((y >> 56) as u8) && ((x >> 48) as u8) == ((y >> 48) as u8) && ((x >> 40) as u8) == ((y
        >> 40) as u8) && ((x >> 32) as u8) < ((y >> 32) as u8)) || (((x >> 56) as u8) == ((y >> 56)
        as u8) && ((x >> 48) as u8) == ((y >> 48) as u8) && ((x >> 40) as u8) == ((y >> 40) as u8)
        && ((x >> 32) as u8) == ((y >> 32) as u8) && ((x >> 24) as u8) < ((y >> 24) as u8)) || (((x
        >> 56) as u8) == ((y >> 56) as u8) && ((x >> 48) as u8) == ((y >> 48) as u8) && ((x >> 40)
        as u8) == ((y >> 40) as u8) && ((x >> 32) as u8) == ((y >> 32) as u8) && ((x >> 24) as u8)
        == ((y >> 24) as u8) && ((x >> 16) as u8) < ((y >> 16) as u8)) || (((x >> 56) as u8) == ((y
        >> 56) as u8) && ((x >> 48) as u8) == ((y >> 48) as u8) && ((x >> 40) as u8) == ((y >> 40)
        as u8) && ((x >> 32) as u8) == ((y >> 32) as u8) && ((x >> 24) as u8) == ((y >> 24) as u8)
        && ((x >> 16) as u8) == ((y >> 16) as u8) && ((x >> 8) as u8) < ((y >> 8) as u8)) || (((x
        >> 56) as u8) == ((y >> 56) as u8) && ((x >> 48) as u8) == ((y >> 48) as u8) && ((x >> 40)
        as u8) == ((y >> 40) as u8) && ((x >> 32) as u8) == ((y >> 32) as u8) && ((x >> 24) as u8)
        == ((y >> 24) as u8) && ((x >> 16) as u8) == ((y >> 16) as u8) && ((x >> 8) as u8) == ((y
        >> 8) as u8) && (x as u8) < (y as u8))) by (bit_vector)
        requires
            x < y,
    ;
    if a[0] < b[0] {
        assert(a.subrange(0, 0) =~= b.subrange(0, 0));
        assert(lex_lt(a, b));
    } else if a[1] < b[1] {
        assert(a.subrange(0, 1) =~= b.subrange(0, 1));
        assert(lex_lt(a, b));
    } else if a[2] < b[2] {
        assert(a.subrange(0, 2) =~= b.subrange(0, 2));
        assert(lex_lt(a, b));
    } else if a[3] < b[3] {
        assert(a.subrange(0, 3) =~= b.subrange(0, 3));
        assert(lex_lt(a, b));
    } else if a[4] < b[4] {
        assert(a.subrange(0, 4) =~= b.subrange(0, 4));
        assert(lex_lt(a, b));
    } else if a[5] < b[5] {
        assert(a.subrange(0, 5) =~= b.subrange(0, 5));
        assert(lex_lt(a, b));
    } else if a[6] < b[6] {
        assert(a.subrange(0, 6) =~= b.subrange(0, 6));
        assert(lex_lt(a, b));
    } else {
        assert(a[7] < b[7]);
        assert(a.subrange(0, 7) =~= b.subrange(0, 7));
        assert(lex_lt(a, b));
    }
}

/// Three-way lexicographic comparison of byte strings: negative,
/// zero or positive as the first is below, equal to or above the
/// second.
pub open spec fn lex_cmp(a: Seq<u8>, b: Seq<u8>) -> int
    decreases a.len(),
{
    if a.len() == 0 && b.len() == 0 {
        0
    } else if a.len() == 0 {
        -1
    } else if b.len() == 0 {
        1
    } else if a[0] < b[0] {
        -1
    } else if a[0] > b[0] {
        1
    } else {
        lex_cmp(a.skip(1), b.skip(1))
    }
}

/// The comparison is a total order: equal means equal, and the order
/// of two strings flips when they swap sides.
pub proof fn lemma_lex_cmp_antisymmetric(a: Seq<u8>, b: Seq<u8>)
    ensures
        lex_cmp(a, b) == 0 <==> a == b,
        lex_cmp(a, b) == -lex_cmp(b, a),
    decreases a.len(),
{
    if a.len() > 0 && b.len() > 0 && a[0] == b[0] {
        lemma_lex_cmp_antisymmetric(a.skip(1), b.skip(1));
        if lex_cmp(a, b) == 0 {
            assert(a.skip(1) == b.skip(1));
            assert forall|j: int| 0 <= j < a.len() implies a[j] == b[j] by {
                if j > 0 {
                    assert(a.skip(1)[j - 1] == a[j]);
                    assert(b.skip(1)[j - 1] == b[j]);
                }
            }
            assert(a =~= b);
        }
        if a == b {
            assert(a.skip(1) =~= b.skip(1));
        }
    } else {
        if a.len() == 0 && b.len() == 0 {
            assert(a =~= b);
        }
    }
}

/// The comparison is transitive.
pub proof fn lemma_lex_cmp_transitive(a: Seq<u8>, b: Seq<u8>, c: Seq<u8>)
    requires
        lex_cmp(a, b) <= 0,
        lex_cmp(b, c) <= 0,
    ensures
        lex_cmp(a, c) <= 0,
    decreases a.len(),
{
    if a.len() > 0 && b.len() > 0 && c.len() > 0 {
        if a[0] == b[0] && b[0] == c[0] {
            lemma_lex_cmp_transitive(a.skip(1), b.skip(1), c.skip(1));
        }
    }
}

/// Compares two buffers in lexicographic byte order.
pub fn bytes_lex_cmp(a: &Vec<u8>, b: &Vec<u8>) -> (r: i8)
    ensures
        r == -1 || r == 0 || r == 1,
        r == lex_cmp(a@, b@),
{
    let an = a.len();
    let bn = b.len();
    let n = if an < bn {
        an
    } else {
        bn
    };
    let mut i: usize = 0;
    proof {
        assert(a@.skip(0) =~= a@);
        assert(b@.skip(0) =~= b@);
    }
    while i < n
        invariant
            n <= a@.len(),
            n <= b@.len(),
            n == if a@.len() < b@.len() {
                a@.len()
            } else {
                b@.len()
            },
            i <= n,
            lex_cmp(a@, b@) == lex_cmp(a@.skip(i as int), b@.skip(i as int)),
            forall|j: int| 0 <= j < i ==> a@[j] == b@[j],
        decreases n - i,
    {
        proof {
            assert(a@.skip(i as int)[0] == a@[i as int]);
            assert(b@.skip(i as int)[0] == b@[i as int]);
            assert(a@.skip(i as int).skip(1) =~= a@.skip(i + 1));
            assert(b@.skip(i as int).skip(1) =~= b@.skip(i + 1));
        }
        if a[i] < b[i] {
            return -1;
        }
        if a[i] > b[i] {
            return 1;
        }
        i = i + 1;
    }
    proof {
        assert(a@.skip(n as int).len() == a@.len() - n);
        assert(b@.skip(n as int).len() == b@.len() - n);
    }
    if an < bn {
        -1
    } else if an > bn {
        1
    } else {
        0
    }
}

/// A strict order between two strings of equal length survives
/// appending anything to either side.
pub proof fn lemma_lex_lt_append(a: Seq<u8>, b: Seq<u8>, s: Seq<u8>, t: Seq<u8>)
    requires
        a.len() == b.len(),
        lex_lt(a, b),
    ensures
        lex_lt(a + s, b + t),
{
    let i = choose|i: int|
        #![trigger a[i], b[i]]
        0 <= i < a.len() && i < b.len() && a[i] < b[i] && a.subrange(0, i) == b.subrange(0, i);
    assert((a + s)[i] == a[i] && (b + t)[i] == b[i]);
    assert forall|j: int| 0 <= j < i implies (a + s)[j] == (b + t)[j] by {
        assert(a.subrange(0, i)[j] == a[j]);
        assert(b.subrange(0, i)[j] == b[j]);
    }
    assert((a + s).subrange(0, i) =~= (b + t).subrange(0, i));
}

} // verus!
