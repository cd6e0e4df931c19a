//! Faceted-value extraction core of a search engine's write pipeline.
//!
//! Given a stream of document changes, the crate turns each change into
//! lexicographically ordered binary keys destined for on-disk inverted
//! indexes, and into per-document facet-value records for a downstream
//! writer.  The key codec, the memory-bounded balanced cache, the
//! del/add reconciler, the document walker and the change extractor are
//! all verified; storage, channels and thread fan-out live outside.

use vstd::prelude::*;

pub mod cache;
pub mod codec;
pub mod document;
pub mod extract;
pub mod keys;
pub mod ordered_f64;
pub mod reconciler;
pub mod store_keys;
pub mod truncate;
pub mod vector_merge;

verus! {

/// The longest key the storage layer accepts.
pub const MAX_LMDB_KEY_LENGTH: usize = 511;

/// The longest facet value payload a key may carry; longer strings are
/// truncated on a character boundary before they become part of a key.
pub const MAX_FACET_VALUE_LENGTH: usize = 511 - 32;

} // verus!
