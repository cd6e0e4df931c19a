//! Byte keys of the store's trees: index-tree names and per-document
//! attribute keys, with their parser.
//!
//! An index lives in a tree named `index-<name>`; a document
//! attribute is stored under `document-` followed by the big-endian
//! document id and the big-endian attribute number, so a range scan
//! over one document's keys walks its attributes in order.

use vstd::prelude::*;
use vstd::string::StringSliceAdditionalSpecFns;

use crate::codec::{push_u16_be, push_u64_be, u16_be_bytes, u64_be_bytes};
use crate::ordered_f64::u64_from_be_bytes;

verus! {

/// The ASCII bytes of `index-`.
pub open spec fn index_prefix() -> Seq<u8> {
    seq![0x69u8, 0x6eu8, 0x64u8, 0x65u8, 0x78u8, 0x2du8]
}

/// The ASCII bytes of `document-`.
pub open spec fn document_prefix() -> Seq<u8> {
    seq![0x64u8, 0x6fu8, 0x63u8, 0x75u8, 0x6du8, 0x65u8, 0x6eu8, 0x74u8, 0x2du8]
}

/// The tree name that holds an index.
pub open spec fn index_name_bytes(name: Seq<u8>) -> Seq<u8> {
    index_prefix() + name
}

/// The key of one document attribute.
pub open spec fn document_key_bytes(id: u64, attr: u16) -> Seq<u8> {
    document_prefix() + u64_be_bytes(id) + u16_be_bytes(attr)
}

/// Builds the tree name that holds the index of the given name.
pub fn index_name(name: &str) -> (r: Vec<u8>)
    ensures
        r@ == index_name_bytes(name.spec_bytes()),
{
    let mut buf: Vec<u8> = Vec::new();
    buf.push(0x69);
    buf.push(0x6e);
    buf.push(0x64);
    buf.push(0x65);
    buf.push(0x78);
    buf.push(0x2d);
    buf.extend_from_slice(name.as_bytes());
    assert(buf@ =~= index_name_bytes(name.spec_bytes()));
    buf
}

/// Builds the key of one document attribute.
pub fn document_key(id: u64, attr: u16) -> (r: Vec<u8>)
    ensures
        r@ == document_key_bytes(id, attr),
        r@.len() == 19,
{
    let mut buf: Vec<u8> = Vec::new();
    buf.push(0x64);
    buf.push(0x6f);
    buf.push(0x63);
    buf.push(0x75);
    buf.push(0x6d);
    buf.push(0x65);
    buf.push(0x6e);
    buf.push(0x74);
    buf.push(0x2d);
    push_u64_be(&mut buf, id);
    push_u16_be(&mut buf, attr);
    assert(buf@ =~= document_key_bytes(id, attr));
    buf
}

/// A 16-bit word read back from 2 big-endian bytes.
pub open spec fn u16_from_be_bytes(s: Seq<u8>) -> u16
    recommends
        s.len() == 2,
{
    (((s[0] as u16) << 8) | (s[1] as u16)) as u16
}

/// A reading position over a byte buffer.
pub struct ByteCursor {
    data: Vec<u8>,
    pos: usize,
}

impl ByteCursor {
    /// The bytes read over.
    pub closed spec fn data_view(self) -> Seq<u8> {
        self.data@
    }

    /// The reading position.
    pub closed spec fn pos_view(self) -> int {
        self.pos as int
    }

    /// The position never passes the end.
    pub closed spec fn wf(self) -> bool {
        self.pos <= self.data@.len()
    }

    /// A cursor at the start of a buffer.
    pub fn new(data: Vec<u8>) -> (r: Self)
        ensures
            r.wf(),
            r.data_view() == data@,
            r.pos_view() == 0,
    {
        ByteCursor { data, pos: 0 }
    }

    /// Whether the remaining bytes start with the needle.
    pub open spec fn spec_starts_with(self, needle: Seq<u8>) -> bool {
        self.pos_view() + needle.len() <= self.data_view().len() && self.data_view().subrange(
            self.pos_view(),
            self.pos_view() + needle.len(),
        ) == needle
    }

    /// Consumes the needle if the remaining bytes start with it;
    /// otherwise reports `false` and stays put.
    pub fn consume_if_eq(&mut self, needle: &Vec<u8>) -> (r: bool)
        requires
            old(self).wf(),
        ensures
            final(self).wf(),
            final(self).data_view() == old(self).data_view(),
            r == old(self).spec_starts_with(needle@),
            r ==> final(self).pos_view() == old(self).pos_view() + needle@.len(),
            !r ==> final(self).pos_view() == old(self).pos_view(),
    {
        let n = needle.len();
        let dlen = self.data.len();
        if n > dlen - self.pos {
            return false;
        }
        let mut i: usize = 0;
        while i < n
            invariant
                n == needle@.len(),
                i <= n,
                self.wf(),
                dlen == self.data@.len(),
                self.pos + n <= dlen,
                forall|j: int| 0 <= j < i ==> self.data@[self.pos + j] == needle@[j],
            decreases n - i,
        {
            if self.data[self.pos + i] != needle[i] {
                proof {
                    assert(self.data@.subrange(
                        self.pos as int,
                        self.pos + needle@.len(),
                    )[i as int] != needle@[i as int]);
                }
                return false;
            }
            i = i + 1;
        }
        proof {
            assert(self.data@.subrange(self.pos as int, self.pos + needle@.len()) =~= needle@);
        }
        self.pos = self.pos + n;
        true
    }

    /// Reads a big-endian 64-bit word and advances.
    pub fn read_u64_be(&mut self) -> (r: Option<u64>)
        requires
            old(self).wf(),
        ensures
            final(self).wf(),
            final(self).data_view() == old(self).data_view(),
            r is Some <==> old(self).pos_view() + 8 <= old(self).data_view().len(),
            r matches Some(x) ==> x == u64_from_be_bytes(
                old(self).data_view().subrange(old(self).pos_view(), old(self).pos_view() + 8),
            ) && final(self).pos_view() == old(self).pos_view() + 8,
            r is None ==> final(self).pos_view() == old(self).pos_view(),
    {
        if 8 > self.data.len() - self.pos {
            return None;
        }
        let p = self.pos;
        let x: u64 = ((self.data[p] as u64) << 56) | ((self.data[p + 1] as u64) << 48) | ((
        self.data[p + 2] as u64) << 40) | ((self.data[p + 3] as u64) << 32) | ((self.data[p + 4]
            as u64) << 24) | ((self.data[p + 5] as u64) << 16) | ((self.data[p + 6] as u64) << 8)
            | (self.data[p + 7] as u64);
        proof {
            assert(self.data@.subrange(p as int, p + 8) =~= seq![
                self.data@[p as int], self.data@[p + 1], self.data@[p + 2], self.data@[p + 3],
                self.data@[p + 4], self.data@[p + 5], self.data@[p + 6], self.data@[p + 7],
            ]);
        }
        self.pos = p + 8;
        Some(x)
    }

    /// Reads a big-endian 16-bit word and advances.
    pub fn read_u16_be(&mut self) -> (r: Option<u16>)
        requires
            old(self).wf(),
        ensures
            final(self).wf(),
            final(self).data_view() == old(self).data_view(),
            r is Some <==> old(self).pos_view() + 2 <= old(self).data_view().len(),
            r matches Some(x) ==> x == u16_from_be_bytes(
                old(self).data_view().subrange(old(self).pos_view(), old(self).pos_view() + 2),
            ) && final(self).pos_view() == old(self).pos_view() + 2,
            r is None ==> final(self).pos_view() == old(self).pos_view(),
    {
        if 2 > self.data.len() - self.pos {
            return None;
        }
        let p = self.pos;
        let x: u16 = ((self.data[p] as u16) << 8) | (self.data[p + 1] as u16);
        proof {
            assert(self.data@.subrange(p as int, p + 2) =~= seq![
                self.data@[p as int], self.data@[p + 1],
            ]);
        }
        self.pos = p + 2;
        Some(x)
    }
}

/// Whether a buffer parses as a document-attribute key: the
/// `document-` prefix followed by at least ten more bytes.
pub open spec fn is_document_key(key: Seq<u8>) -> bool {
    key.len() >= 19 && key.subrange(0, 9) == document_prefix()
}

/// The document id a well-shaped key names.
pub open spec fn document_key_id(key: Seq<u8>) -> u64 {
    u64_from_be_bytes(key.subrange(9, 17))
}

/// The attribute number a well-shaped key names.
pub open spec fn document_key_attr(key: Seq<u8>) -> u16 {
    u16_from_be_bytes(key.subrange(17, 19))
}

/// Parses a document-attribute key back into the document id and the
/// attribute number; a buffer that does not carry the prefix or is
/// too short is rejected.
pub fn extract_document_key(key: Vec<u8>) -> (r: Option<(u64, u16)>)
    ensures
        r is Some <==> is_document_key(key@),
        r matches Some(p) ==> p.0 == document_key_id(key@) && p.1 == document_key_attr(key@),
{
    let ghost k = key@;
    let mut cursor = ByteCursor::new(key);
    let mut prefix: Vec<u8> = Vec::new();
    prefix.push(0x64);
    prefix.push(0x6f);
    prefix.push(0x63);
    prefix.push(0x75);
    prefix.push(0x6d);
    prefix.push(0x65);
    prefix.push(0x6e);
    prefix.push(0x74);
    prefix.push(0x2d);
    proof {
        assert(prefix@ =~= document_prefix());
    }
    if !cursor.consume_if_eq(&prefix) {
        proof {
            assert(!is_document_key(k));
        }
        return None;
    }
    let id = match cursor.read_u64_be() {
        Some(x) => x,
        None => {
            proof {
                assert(!is_document_key(k));
            }
            return None;
        },
    };
    let attr = match cursor.read_u16_be() {
        Some(x) => x,
        None => {
            proof {
                assert(!is_document_key(k));
            }
            return None;
        },
    };
    proof {
        assert(is_document_key(k));
    }
    Some((id, attr))
}

/// Parsing the key built for a document id and an attribute number
/// yields them back.
pub proof fn lemma_document_key_round_trip(id: u64, attr: u16)
    ensures
        is_document_key(document_key_bytes(id, attr)),
        document_key_id(document_key_bytes(id, attr)) == id,
        document_key_attr(document_key_bytes(id, attr)) == attr,
{
    let k = document_key_bytes(id, attr);
    assert(k.subrange(0, 9) =~= document_prefix());
    assert(k.subrange(9, 17) =~= u64_be_bytes(id));
    assert(k.subrange(17, 19) =~= u16_be_bytes(attr));
    assert(((((id >> 56) as u8) as u64) << 56) | ((((id >> 48) as u8) as u64) << 48) | ((((id
        >> 40) as u8) as u64) << 40) | ((((id >> 32) as u8) as u64) << 32) | ((((id >> 24) as u8)
        as u64) << 24) | ((((id >> 16) as u8) as u64) << 16) | ((((id >> 8) as u8) as u64) << 8)
        | ((id as u8) as u64) == id) by (bit_vector);
    assert(((((attr >> 8) as u8) as u16) << 8) | ((attr as u8) as u16) == attr) by (bit_vector);
}

} // verus!
