//! Change extractor: drives the walker over a document change and
//! feeds the balanced cache and the del/add reconciler.
//!
//! A deletion walks the current document and records deletions; an
//! insertion walks the new document and records additions; an update
//! walks both, deletions first, so the reconciler can cancel facet
//! values the update kept.  Every emitted value records an `Exists`
//! fact; numbers and strings also record their typed level-0 key and
//! pass through the reconciler; `Null` and empty arrays or objects
//! record their kind tag only; booleans record nothing beyond
//! `Exists`.  The reconciler is flushed whatever happened, so the
//! downstream writer always observes a consistent delta.

use vstd::prelude::*;

use crate::cache::{BalancedCaches, CacheTriple};
use crate::codec::{encode_fid_key, fid_key, FacetKind};
use crate::document::{
    flatten_document, resolve_emissions, spec_flatten, spec_resolve, view_names, Document,
    ExtractError, FieldIdMap, JsonVal,
};
use crate::keys::{encode_number_key, encode_string_key, number_key, string_key};
use crate::ordered_f64::{encode_ordered_f64, f64_is_finite, ordered_f64_bytes};
use crate::reconciler::{
    apply_ops, entries_map, send_data_spec, spec_insert, unique_keys, view_ops, DelAdd,
    DelAddFacetValue, FacetEntryV, FacetOp, ReconcilerOp,
};

verus! {

/// Whether a value takes part in del/add reconciliation: strings
/// and finite numbers do, nothing else.
pub open spec fn is_recon_value(v: JsonVal) -> bool {
    match v {
        JsonVal::String(_) => true,
        JsonVal::Number(bits) => f64_is_finite(bits),
        _ => false,
    }
}

/// The facts one emitted value records in the cache: always its
/// field's `Exists` key, and for a finite number, a string, a null or
/// an empty container also the matching typed key.
pub open spec fn value_cache_triples(fid: u16, v: JsonVal, docid: u32, side: DelAdd) -> Set<
    CacheTriple,
> {
    let base = Set::<CacheTriple>::empty().insert((fid_key(FacetKind::Exists, fid), docid, side));
    match v {
        JsonVal::Number(bits) => if f64_is_finite(bits) {
            base.insert((number_key(fid, bits), docid, side))
        } else {
            base
        },
        JsonVal::String(s) => base.insert((string_key(fid, s@), docid, side)),
        JsonVal::Null => base.insert((fid_key(FacetKind::Null, fid), docid, side)),
        JsonVal::Array(elems) => if elems@.len() == 0 {
            base.insert((fid_key(FacetKind::Empty, fid), docid, side))
        } else {
            base
        },
        JsonVal::Object(fields) => if fields@.len() == 0 {
            base.insert((fid_key(FacetKind::Empty, fid), docid, side))
        } else {
            base
        },
        JsonVal::Bool(_) => base,
    }
}

/// The facts a whole emission list records in the cache.
pub open spec fn emissions_cache_triples(
    ems: Seq<(u16, JsonVal)>,
    docid: u32,
    side: DelAdd,
) -> Set<CacheTriple>
    decreases ems.len(),
{
    if ems.len() == 0 {
        Set::empty()
    } else {
        emissions_cache_triples(ems.drop_last(), docid, side).union(
            value_cache_triples(ems.last().0, ems.last().1, docid, side),
        )
    }
}

/// The reconciler steps an emission list performs on the string map.
pub open spec fn string_recon_ops(ems: Seq<(u16, JsonVal)>, side: DelAdd) -> Seq<ReconcilerOp> {
    ems.filter_map(
        |e: (u16, JsonVal)|
            match e.1 {
                JsonVal::String(s) => Some((side, (e.0, vstd::utf8::encode_utf8(s@)))),
                _ => None,
            },
    )
}

/// The reconciler steps an emission list performs on the number map.
pub open spec fn number_recon_ops(ems: Seq<(u16, JsonVal)>, side: DelAdd) -> Seq<ReconcilerOp> {
    ems.filter_map(
        |e: (u16, JsonVal)|
            match e.1 {
                JsonVal::Number(bits) => if f64_is_finite(bits) {
                    Some((side, (e.0, ordered_f64_bytes(bits))))
                } else {
                    None
                },
                _ => None,
            },
    )
}

/// Records one fact in the cache on the given side.
fn cache_insert(cache: &mut BalancedCaches, key: &Vec<u8>, docid: u32, side: DelAdd)
    requires
        old(cache).wf(),
        key@.len() <= crate::MAX_LMDB_KEY_LENGTH,
    ensures
        final(cache).wf(),
        final(cache).contents() == old(cache).contents().insert((key@, docid, side)),
        final(cache).n_buckets() == old(cache).n_buckets(),
        final(cache).max_memory() == old(cache).max_memory(),
{
    match side {
        DelAdd::Deletion => cache.insert_del_u32(key, docid),
        DelAdd::Addition => cache.insert_add_u32(key, docid),
    }
}

/// Performs one reconciler step on the given side.
fn reconciler_insert(dafv: &mut DelAddFacetValue, side: DelAdd, fid: u16, value: Vec<u8>, kind: FacetKind)
    requires
        old(dafv).wf(),
    ensures
        final(dafv).wf(),
        kind == FacetKind::String ==> final(dafv).strings_map() == spec_insert(
            old(dafv).strings_map(),
            (fid, value@),
            side,
        ) && final(dafv).f64s_view() == old(dafv).f64s_view(),
        kind == FacetKind::Number ==> final(dafv).f64s_map() == spec_insert(
            old(dafv).f64s_map(),
            (fid, value@),
            side,
        ) && final(dafv).strings_view() == old(dafv).strings_view(),
        kind != FacetKind::String && kind != FacetKind::Number ==> final(dafv).strings_view()
            == old(dafv).strings_view() && final(dafv).f64s_view() == old(dafv).f64s_view(),
{
    match side {
        DelAdd::Deletion => dafv.insert_del(fid, value, kind),
        DelAdd::Addition => dafv.insert_add(fid, value, kind),
    }
}

/// The public face of the extractor.
pub struct FacetedDocidsExtractor;

impl FacetedDocidsExtractor {
    /// Records everything one emitted value contributes: its cache
    /// facts on the given side, and its reconciler step if it is a
    /// string or a finite number.
    pub fn facet_fn_with_options(
        cached_sorter: &mut BalancedCaches,
        del_add_facet_value: &mut DelAddFacetValue,
        side: DelAdd,
        docid: u32,
        fid: u16,
        value: JsonVal,
    )
        requires
            old(cached_sorter).wf(),
            old(del_add_facet_value).wf(),
        ensures
            final(cached_sorter).wf(),
            final(del_add_facet_value).wf(),
            final(cached_sorter).contents() == old(cached_sorter).contents().union(
                value_cache_triples(fid, value, docid, side),
            ),
            final(cached_sorter).n_buckets() == old(cached_sorter).n_buckets(),
            final(cached_sorter).max_memory() == old(cached_sorter).max_memory(),
            value matches JsonVal::String(s) ==> final(del_add_facet_value).strings_map()
                == spec_insert(
                old(del_add_facet_value).strings_map(),
                (fid, vstd::utf8::encode_utf8(s@)),
                side,
            ) && final(del_add_facet_value).f64s_view() == old(del_add_facet_value).f64s_view(),
            value matches JsonVal::Number(bits) ==> f64_is_finite(bits) ==> final(del_add_facet_value).f64s_map() == spec_insert(
                old(del_add_facet_value).f64s_map(),
                (fid, ordered_f64_bytes(bits)),
                side,
            ) && final(del_add_facet_value).strings_view() == old(del_add_facet_value).strings_view(),
            !is_recon_value(value) ==> final(del_add_facet_value).strings_view() == old(del_add_facet_value).strings_view() && final(del_add_facet_value).f64s_view() == old(del_add_facet_value).f64s_view(),
    {
        let ghost c0 = cached_sorter.contents();
        let exists_key = encode_fid_key(FacetKind::Exists, fid);
        cache_insert(cached_sorter, &exists_key, docid, side);
        let ghost base = Set::<CacheTriple>::empty().insert(
            (fid_key(FacetKind::Exists, fid), docid, side),
        );
        proof {
            assert(cached_sorter.contents() =~= c0.union(base));
        }
        match value {
            JsonVal::Number(bits) => {
                match encode_ordered_f64(bits) {
                    Some(payload) => {
                        reconciler_insert(
                            del_add_facet_value,
                            side,
                            fid,
                            payload,
                            FacetKind::Number,
                        );
                        let key = encode_number_key(fid, bits).unwrap();
                        cache_insert(cached_sorter, &key, docid, side);
                        proof {
                            assert(cached_sorter.contents() =~= c0.union(
                                value_cache_triples(fid, value, docid, side),
                            ));
                        }
                    },
                    None => {
                        proof {
                            assert(cached_sorter.contents() =~= c0.union(
                                value_cache_triples(fid, value, docid, side),
                            ));
                        }
                    },
                }
            },
            JsonVal::String(s) => {
                let bytes = s.as_str().as_bytes_vec();
                reconciler_insert(del_add_facet_value, side, fid, bytes, FacetKind::String);
                let key = encode_string_key(fid, s.as_str());
                proof {
                    assert(key@.len() <= crate::MAX_LMDB_KEY_LENGTH);
                }
                cache_insert(cached_sorter, &key, docid, side);
                proof {
                    assert(cached_sorter.contents() =~= c0.union(
                        value_cache_triples(fid, JsonVal::String(s), docid, side),
                    ));
                }
            },
            JsonVal::Null => {
                let key = encode_fid_key(FacetKind::Null, fid);
                cache_insert(cached_sorter, &key, docid, side);
                proof {
                    assert(cached_sorter.contents() =~= c0.union(
                        value_cache_triples(fid, value, docid, side),
                    ));
                }
            },
            JsonVal::Array(elems) => {
                if elems.len() == 0 {
                    let key = encode_fid_key(FacetKind::Empty, fid);
                    cache_insert(cached_sorter, &key, docid, side);
                }
                proof {
                    assert(cached_sorter.contents() =~= c0.union(
                        value_cache_triples(fid, JsonVal::Array(elems), docid, side),
                    ));
                }
            },
            JsonVal::Object(fields) => {
                if fields.len() == 0 {
                    let key = encode_fid_key(FacetKind::Empty, fid);
                    cache_insert(cached_sorter, &key, docid, side);
                }
                proof {
                    assert(cached_sorter.contents() =~= c0.union(
                        value_cache_triples(fid, JsonVal::Object(fields), docid, side),
                    ));
                }
            },
            JsonVal::Bool(_) => {
                proof {
                    assert(cached_sorter.contents() =~= c0.union(
                        value_cache_triples(fid, value, docid, side),
                    ));
                }
            },
        }
    }

    /// Processes a resolved emission list on one side: each value's
    /// cache facts are recorded and its reconciler step performed, in
    /// order.
    pub fn process_emissions(
        cached_sorter: &mut BalancedCaches,
        del_add_facet_value: &mut DelAddFacetValue,
        side: DelAdd,
        docid: u32,
        ems: Vec<(u16, JsonVal)>,
    )
        requires
            old(cached_sorter).wf(),
            old(del_add_facet_value).wf(),
        ensures
            final(cached_sorter).wf(),
            final(del_add_facet_value).wf(),
            final(cached_sorter).contents() == old(cached_sorter).contents().union(
                emissions_cache_triples(ems@, docid, side),
            ),
            final(cached_sorter).n_buckets() == old(cached_sorter).n_buckets(),
            final(cached_sorter).max_memory() == old(cached_sorter).max_memory(),
            final(del_add_facet_value).strings_map() == apply_ops(
                old(del_add_facet_value).strings_map(),
                string_recon_ops(ems@, side),
            ),
            final(del_add_facet_value).f64s_map() == apply_ops(
                old(del_add_facet_value).f64s_map(),
                number_recon_ops(ems@, side),
            ),
    {
        let ghost ems0 = ems@;
        let ghost c0 = cached_sorter.contents();
        let ghost sm0 = del_add_facet_value.strings_map();
        let ghost fm0 = del_add_facet_value.f64s_map();
        let ghost sf: spec_fn((u16, JsonVal)) -> Option<ReconcilerOp> = |e: (u16, JsonVal)|
            match e.1 {
                JsonVal::String(s) => Some((side, (e.0, vstd::utf8::encode_utf8(s@)))),
                _ => None,
            };
        let ghost nf: spec_fn((u16, JsonVal)) -> Option<ReconcilerOp> = |e: (u16, JsonVal)|
            match e.1 {
                JsonVal::Number(bits) => if f64_is_finite(bits) {
                    Some((side, (e.0, ordered_f64_bytes(bits))))
                } else {
                    None
                },
                _ => None,
            };
        let mut ems = ems;
        let n = ems.len();
        let mut i: usize = 0;
        proof {
            assert(ems0.take(0).filter_map(sf) =~= Seq::<ReconcilerOp>::empty());
            assert(ems0.take(0).filter_map(nf) =~= Seq::<ReconcilerOp>::empty());
            assert(emissions_cache_triples(ems0.take(0), docid, side) =~= Set::<
                CacheTriple,
            >::empty());
            assert(cached_sorter.contents() =~= c0.union(
                emissions_cache_triples(ems0.take(0), docid, side),
            ));
        }
        while i < n
            invariant
                n == ems@.len(),
                i <= n,
                ems0.len() == n,
                forall|j: int| i <= j < n ==> ems@[j] == ems0[j],
                cached_sorter.wf(),
                del_add_facet_value.wf(),
                sf == (|e: (u16, JsonVal)|
                    match e.1 {
                        JsonVal::String(s) => Some((side, (e.0, vstd::utf8::encode_utf8(s@)))),
                        _ => None,
                    }),
                nf == (|e: (u16, JsonVal)|
                    match e.1 {
                        JsonVal::Number(bits) => if f64_is_finite(bits) {
                            Some((side, (e.0, ordered_f64_bytes(bits))))
                        } else {
                            None
                        },
                        _ => None,
                    }),
                cached_sorter.contents() == c0.union(
                    emissions_cache_triples(ems0.take(i as int), docid, side),
                ),
                cached_sorter.n_buckets() == old(cached_sorter).n_buckets(),
                cached_sorter.max_memory() == old(cached_sorter).max_memory(),
                del_add_facet_value.strings_map() == apply_ops(sm0, ems0.take(i as int).filter_map(sf)),
                del_add_facet_value.f64s_map() == apply_ops(fm0, ems0.take(i as int).filter_map(nf)),
            decreases n - i,
        {
            let mut tmp: (u16, JsonVal) = (0u16, JsonVal::Null);
            core::mem::swap(&mut tmp, &mut ems[i]);
            proof {
                assert(tmp == ems0[i as int]);
            }
            let (fid, v) = tmp;
            Self::facet_fn_with_options(
                cached_sorter,
                del_add_facet_value,
                side,
                docid,
                fid,
                v,
            );
            proof {
                ems0.lemma_filter_map_take_succ(sf, i as int);
                ems0.lemma_filter_map_take_succ(nf, i as int);
                assert(ems0.take(i + 1).drop_last() =~= ems0.take(i as int));
                assert(ems0.take(i + 1).last() == ems0[i as int]);
                // the cache gains this value's facts
                assert(emissions_cache_triples(ems0.take(i + 1), docid, side)
                    =~= emissions_cache_triples(ems0.take(i as int), docid, side).union(
                    value_cache_triples(fid, ems0[i as int].1, docid, side),
                ));
                assert(cached_sorter.contents() =~= c0.union(
                    emissions_cache_triples(ems0.take(i + 1), docid, side),
                ));
                // the reconciler performs this value's step, if any
                match ems0[i as int].1 {
                    JsonVal::String(s) => {
                        assert(ems0.take(i + 1).filter_map(sf) =~= ems0.take(
                            i as int,
                        ).filter_map(sf).push((side, (fid, vstd::utf8::encode_utf8(s@)))));
                        assert(ems0.take(i + 1).filter_map(sf).drop_last() =~= ems0.take(
                            i as int,
                        ).filter_map(sf));
                        assert(ems0.take(i + 1).filter_map(nf) =~= ems0.take(
                            i as int,
                        ).filter_map(nf));
                    },
                    JsonVal::Number(bits) => {
                        if f64_is_finite(bits) {
                            assert(ems0.take(i + 1).filter_map(nf) =~= ems0.take(
                                i as int,
                            ).filter_map(nf).push((side, (fid, ordered_f64_bytes(bits)))));
                            assert(ems0.take(i + 1).filter_map(nf).drop_last() =~= ems0.take(
                                i as int,
                            ).filter_map(nf));
                        } else {
                            assert(ems0.take(i + 1).filter_map(nf) =~= ems0.take(
                                i as int,
                            ).filter_map(nf));
                        }
                        assert(ems0.take(i + 1).filter_map(sf) =~= ems0.take(
                            i as int,
                        ).filter_map(sf));
                    },
                    _ => {
                        assert(ems0.take(i + 1).filter_map(sf) =~= ems0.take(
                            i as int,
                        ).filter_map(sf));
                        assert(ems0.take(i + 1).filter_map(nf) =~= ems0.take(
                            i as int,
                        ).filter_map(nf));
                    },
                }
                assert(del_add_facet_value.strings_map() == apply_ops(
                    sm0,
                    ems0.take(i + 1).filter_map(sf),
                ));
                assert(del_add_facet_value.f64s_map() == apply_ops(
                    fm0,
                    ems0.take(i + 1).filter_map(nf),
                ));
            }
            i = i + 1;
        }
        proof {
            assert(ems0.take(n as int) =~= ems0);
            assert(string_recon_ops(ems0, side) == ems0.filter_map(sf));
            assert(number_recon_ops(ems0, side) == ems0.filter_map(nf));
        }
    }
}


/// One document change handed in by the indexer, carrying the parsed
/// faceted-field projection of each involved document version.
pub enum DocumentChange {
    Deletion { docid: u32, current: Document },
    Update { docid: u32, current: Document, merged: Document },
    Insertion { docid: u32, inserted: Document },
}

impl DocumentChange {
    /// The internal id of the touched document.
    pub open spec fn spec_docid(self) -> u32 {
        match self {
            DocumentChange::Deletion { docid, .. } => docid,
            DocumentChange::Update { docid, .. } => docid,
            DocumentChange::Insertion { docid, .. } => docid,
        }
    }

    /// The internal id of the touched document.
    pub fn docid(&self) -> (r: u32)
        ensures
            r == self.spec_docid(),
    {
        match self {
            DocumentChange::Deletion { docid, .. } => *docid,
            DocumentChange::Update { docid, .. } => *docid,
            DocumentChange::Insertion { docid, .. } => *docid,
        }
    }
}

/// What the walker and the field-id map make of one document: its
/// resolved emissions and the map state afterwards, or nothing when
/// the id space runs out.
pub open spec fn side_resolution(
    attrs: Seq<Seq<char>>,
    names: Seq<Seq<char>>,
    doc: Seq<(String, JsonVal)>,
) -> Option<(Seq<(u16, JsonVal)>, Seq<Seq<char>>)> {
    spec_resolve(names, spec_flatten(attrs, doc))
}

/// The flushed records match the net reconciler state that the given
/// step sequences leave behind: some pair of well-formed entry lists
/// carries exactly those maps and prints exactly these records.
pub open spec fn flush_matches(
    r_ops: Seq<crate::reconciler::FacetOpV>,
    s_ops: Seq<ReconcilerOp>,
    n_ops: Seq<ReconcilerOp>,
    docid: u32,
) -> bool {
    exists|s: Seq<FacetEntryV>, f: Seq<FacetEntryV>|
        unique_keys(s) && unique_keys(f) && entries_map(s) == apply_ops(
            Map::empty(),
            s_ops,
        ) && entries_map(f) == apply_ops(Map::empty(), n_ops) && r_ops == send_data_spec(
            s,
            f,
            docid,
        )
}

impl FacetedDocidsExtractor {
    /// Processes one document change: a deletion walks the current
    /// document and records deletions, an insertion walks the new
    /// document and records additions, an update walks both with
    /// deletions first.  The reconciler is flushed whatever happened
    /// and its records are always returned; a failure to name a new
    /// field is reported alongside them.
    pub fn extract_document_change(
        cached_sorter: &mut BalancedCaches,
        attributes_to_extract: &Vec<String>,
        fields: &mut FieldIdMap,
        change: DocumentChange,
    ) -> (r: (Vec<FacetOp>, Option<ExtractError>))
        requires
            old(cached_sorter).wf(),
            old(fields).wf(),
        ensures
            final(cached_sorter).wf(),
            final(fields).wf(),
            final(cached_sorter).n_buckets() == old(cached_sorter).n_buckets(),
            final(cached_sorter).max_memory() == old(cached_sorter).max_memory(),
            change matches DocumentChange::Deletion { docid, current } ==> (match side_resolution(
                view_names(attributes_to_extract@),
                old(fields).names_view(),
                current@,
            ) {
                Some(p) => r.1 is None && final(fields).names_view() == p.1 && final(cached_sorter).contents() == old(cached_sorter).contents().union(
                    emissions_cache_triples(p.0, docid, DelAdd::Deletion),
                ) && flush_matches(
                    view_ops(r.0@),
                    string_recon_ops(p.0, DelAdd::Deletion),
                    number_recon_ops(p.0, DelAdd::Deletion),
                    docid,
                ),
                None => r.1 == Some(ExtractError::FieldIdSpaceExhausted) && final(cached_sorter).contents() == old(cached_sorter).contents() && r.0@.len() == 0,
            }),
            change matches DocumentChange::Insertion { docid, inserted } ==> (match side_resolution(
                view_names(attributes_to_extract@),
                old(fields).names_view(),
                inserted@,
            ) {
                Some(p) => r.1 is None && final(fields).names_view() == p.1 && final(cached_sorter).contents() == old(cached_sorter).contents().union(
                    emissions_cache_triples(p.0, docid, DelAdd::Addition),
                ) && flush_matches(
                    view_ops(r.0@),
                    string_recon_ops(p.0, DelAdd::Addition),
                    number_recon_ops(p.0, DelAdd::Addition),
                    docid,
                ),
                None => r.1 == Some(ExtractError::FieldIdSpaceExhausted) && final(cached_sorter).contents() == old(cached_sorter).contents() && r.0@.len() == 0,
            }),
            change matches DocumentChange::Update { docid, current, merged } ==> (match side_resolution(
                view_names(attributes_to_extract@),
                old(fields).names_view(),
                current@,
            ) {
                Some(p1) => (match side_resolution(
                    view_names(attributes_to_extract@),
                    p1.1,
                    merged@,
                ) {
                    Some(p2) => r.1 is None && final(fields).names_view() == p2.1 && final(cached_sorter).contents() == old(cached_sorter).contents().union(
                        emissions_cache_triples(p1.0, docid, DelAdd::Deletion),
                    ).union(emissions_cache_triples(p2.0, docid, DelAdd::Addition))
                        && flush_matches(
                        view_ops(r.0@),
                        string_recon_ops(p1.0, DelAdd::Deletion) + string_recon_ops(
                            p2.0,
                            DelAdd::Addition,
                        ),
                        number_recon_ops(p1.0, DelAdd::Deletion) + number_recon_ops(
                            p2.0,
                            DelAdd::Addition,
                        ),
                        docid,
                    ),
                    None => r.1 == Some(ExtractError::FieldIdSpaceExhausted) && final(cached_sorter).contents() == old(cached_sorter).contents().union(
                        emissions_cache_triples(p1.0, docid, DelAdd::Deletion),
                    ) && flush_matches(
                        view_ops(r.0@),
                        string_recon_ops(p1.0, DelAdd::Deletion),
                        number_recon_ops(p1.0, DelAdd::Deletion),
                        docid,
                    ),
                }),
                None => r.1 == Some(ExtractError::FieldIdSpaceExhausted) && final(cached_sorter).contents() == old(cached_sorter).contents() && r.0@.len() == 0,
            }),
    {
        let ghost a = view_names(attributes_to_extract@);
        let ghost names0 = fields.names_view();
        let ghost c0 = cached_sorter.contents();
        let mut del_add_facet_value = DelAddFacetValue::new();
        let ghost sm_empty = del_add_facet_value.strings_map();
        let ghost fm_empty = del_add_facet_value.f64s_map();
        proof {
            assert(entries_map(Seq::<FacetEntryV>::empty()) == Map::<
                crate::reconciler::FacetKeyV,
                DelAdd,
            >::empty());
        }
        let docid = change.docid();
        let mut err: Option<ExtractError> = None;
        let ghost mut s_ops: Seq<ReconcilerOp> = Seq::empty();
        let ghost mut n_ops: Seq<ReconcilerOp> = Seq::empty();
        match change {
            DocumentChange::Deletion { docid: _, current } => {
                let flat = flatten_document(attributes_to_extract, current);
                match resolve_emissions(flat, fields) {
                    Ok(ems) => {
                        proof {
                            s_ops = string_recon_ops(ems@, DelAdd::Deletion);
                            n_ops = number_recon_ops(ems@, DelAdd::Deletion);
                        }
                        Self::process_emissions(
                            cached_sorter,
                            &mut del_add_facet_value,
                            DelAdd::Deletion,
                            docid,
                            ems,
                        );
                    },
                    Err(e) => {
                        err = Some(e);
                    },
                }
            },
            DocumentChange::Insertion { docid: _, inserted } => {
                let flat = flatten_document(attributes_to_extract, inserted);
                match resolve_emissions(flat, fields) {
                    Ok(ems) => {
                        proof {
                            s_ops = string_recon_ops(ems@, DelAdd::Addition);
                            n_ops = number_recon_ops(ems@, DelAdd::Addition);
                        }
                        Self::process_emissions(
                            cached_sorter,
                            &mut del_add_facet_value,
                            DelAdd::Addition,
                            docid,
                            ems,
                        );
                    },
                    Err(e) => {
                        err = Some(e);
                    },
                }
            },
            DocumentChange::Update { docid: _, current, merged } => {
                let flat1 = flatten_document(attributes_to_extract, current);
                match resolve_emissions(flat1, fields) {
                    Ok(ems1) => {
                        let ghost sd = string_recon_ops(ems1@, DelAdd::Deletion);
                        let ghost nd = number_recon_ops(ems1@, DelAdd::Deletion);
                        proof {
                            s_ops = sd;
                            n_ops = nd;
                        }
                        Self::process_emissions(
                            cached_sorter,
                            &mut del_add_facet_value,
                            DelAdd::Deletion,
                            docid,
                            ems1,
                        );
                        let flat2 = flatten_document(attributes_to_extract, merged);
                        match resolve_emissions(flat2, fields) {
                            Ok(ems2) => {
                                let ghost sa = string_recon_ops(ems2@, DelAdd::Addition);
                                let ghost na = number_recon_ops(ems2@, DelAdd::Addition);
                                proof {
                                    s_ops = sd + sa;
                                    n_ops = nd + na;
                                }
                                Self::process_emissions(
                                    cached_sorter,
                                    &mut del_add_facet_value,
                                    DelAdd::Addition,
                                    docid,
                                    ems2,
                                );
                                proof {
                                    crate::reconciler::lemma_apply_ops_append(
                                        Map::empty(),
                                        sd,
                                        sa,
                                    );
                                    crate::reconciler::lemma_apply_ops_append(
                                        Map::empty(),
                                        nd,
                                        na,
                                    );
                                }
                            },
                            Err(e) => {
                                err = Some(e);
                            },
                        }
                    },
                    Err(e) => {
                        err = Some(e);
                    },
                }
            },
        }
        // flush unconditionally, even on the error path, so the
        // writer observes a consistent delta for this document
        let ghost sv = del_add_facet_value.strings_view();
        let ghost fv = del_add_facet_value.f64s_view();
        proof {
            assert(unique_keys(sv) && unique_keys(fv));
            assert(entries_map(sv) == apply_ops(Map::empty(), s_ops));
            assert(entries_map(fv) == apply_ops(Map::empty(), n_ops));
        }
        let ops = del_add_facet_value.send_data(docid);
        proof {
            assert(flush_matches(view_ops(ops@), s_ops, n_ops, docid));
            if err is Some && s_ops == Seq::<ReconcilerOp>::empty() {
                assert(view_ops(ops@).len() == 0 ==> ops@.len() == 0);
            }
        }
        (ops, err)
    }
}


/// All steps in a one-sided op stream carry that side, and the two
/// streams of one emission list touch the same keys in the same
/// order.
proof fn lemma_recon_ops_sides(ems: Seq<(u16, JsonVal)>, string: bool)
    ensures
        string ==> string_recon_ops(ems, DelAdd::Deletion).len() == string_recon_ops(
            ems,
            DelAdd::Addition,
        ).len() && forall|i: int|
            0 <= i < string_recon_ops(ems, DelAdd::Deletion).len() ==> (#[trigger] string_recon_ops(
                ems,
                DelAdd::Deletion,
            )[i]).0 == DelAdd::Deletion && string_recon_ops(ems, DelAdd::Addition)[i].0
                == DelAdd::Addition && string_recon_ops(ems, DelAdd::Deletion)[i].1
                == string_recon_ops(ems, DelAdd::Addition)[i].1,
        !string ==> number_recon_ops(ems, DelAdd::Deletion).len() == number_recon_ops(
            ems,
            DelAdd::Addition,
        ).len() && forall|i: int|
            0 <= i < number_recon_ops(ems, DelAdd::Deletion).len() ==> (#[trigger] number_recon_ops(
                ems,
                DelAdd::Deletion,
            )[i]).0 == DelAdd::Deletion && number_recon_ops(ems, DelAdd::Addition)[i].0
                == DelAdd::Addition && number_recon_ops(ems, DelAdd::Deletion)[i].1
                == number_recon_ops(ems, DelAdd::Addition)[i].1,
    decreases ems.len(),
{
    if ems.len() > 0 {
        lemma_recon_ops_sides(ems.drop_last(), string);
    }
}

/// Counts in two pointwise-parallel one-sided streams agree.
proof fn lemma_count_parallel(
    a: Seq<ReconcilerOp>,
    b: Seq<ReconcilerOp>,
    k: crate::reconciler::FacetKeyV,
)
    requires
        a.len() == b.len(),
        forall|i: int|
            0 <= i < a.len() ==> (#[trigger] a[i]).0 == DelAdd::Deletion && (#[trigger] b[i]).0
                == DelAdd::Addition && a[i].1 == b[i].1,
    ensures
        crate::reconciler::count_side(a, k, DelAdd::Deletion) == crate::reconciler::count_side(
            b,
            k,
            DelAdd::Addition,
        ),
        crate::reconciler::count_side(a, k, DelAdd::Addition) == 0,
        crate::reconciler::count_side(b, k, DelAdd::Deletion) == 0,
    decreases a.len(),
{
    if a.len() > 0 {
        lemma_count_parallel(a.drop_last(), b.drop_last(), k);
    }
}

/// Counting distributes over concatenation.
proof fn lemma_count_append(
    a: Seq<ReconcilerOp>,
    b: Seq<ReconcilerOp>,
    k: crate::reconciler::FacetKeyV,
    side: DelAdd,
)
    ensures
        crate::reconciler::count_side(a + b, k, side) == crate::reconciler::count_side(a, k, side)
            + crate::reconciler::count_side(b, k, side),
    decreases b.len(),
{
    if b.len() == 0 {
        assert(a + b =~= a);
    } else {
        assert((a + b).drop_last() =~= a + b.drop_last());
        lemma_count_append(a, b.drop_last(), k, side);
    }
}

/// Extractor symmetry on a no-op update: when an update's old and
/// new faceted-field projections emit the same list, and no facet
/// value occurs twice in it, the reconciler nets out to nothing — so
/// the flush sends no records — while the cache receives the same
/// keys on the deletion side and on the addition side.
pub proof fn lemma_update_noop(ems: Seq<(u16, JsonVal)>, docid: u32)
    requires
        forall|k: crate::reconciler::FacetKeyV|
            #![trigger crate::reconciler::count_side(string_recon_ops(ems, DelAdd::Deletion), k, DelAdd::Deletion)]
            crate::reconciler::count_side(
                string_recon_ops(ems, DelAdd::Deletion),
                k,
                DelAdd::Deletion,
            ) <= 1,
        forall|k: crate::reconciler::FacetKeyV|
            #![trigger crate::reconciler::count_side(number_recon_ops(ems, DelAdd::Deletion), k, DelAdd::Deletion)]
            crate::reconciler::count_side(
                number_recon_ops(ems, DelAdd::Deletion),
                k,
                DelAdd::Deletion,
            ) <= 1,
    ensures
        apply_ops(
            Map::empty(),
            string_recon_ops(ems, DelAdd::Deletion) + string_recon_ops(ems, DelAdd::Addition),
        ) == Map::<crate::reconciler::FacetKeyV, DelAdd>::empty(),
        apply_ops(
            Map::empty(),
            number_recon_ops(ems, DelAdd::Deletion) + number_recon_ops(ems, DelAdd::Addition),
        ) == Map::<crate::reconciler::FacetKeyV, DelAdd>::empty(),
        forall|key: Seq<u8>|
            emissions_cache_triples(ems, docid, DelAdd::Deletion).contains(
                (key, docid, DelAdd::Deletion),
            ) <==> #[trigger] emissions_cache_triples(ems, docid, DelAdd::Addition).contains(
                (key, docid, DelAdd::Addition),
            ),
{
    let sd = string_recon_ops(ems, DelAdd::Deletion);
    let sa = string_recon_ops(ems, DelAdd::Addition);
    let nd = number_recon_ops(ems, DelAdd::Deletion);
    let na = number_recon_ops(ems, DelAdd::Addition);
    lemma_recon_ops_sides(ems, true);
    lemma_recon_ops_sides(ems, false);
    assert forall|k: crate::reconciler::FacetKeyV|
        #![trigger crate::reconciler::count_side(sd + sa, k, DelAdd::Addition)]
        crate::reconciler::count_side(sd + sa, k, DelAdd::Addition) == crate::reconciler::count_side(
            sd + sa,
            k,
            DelAdd::Deletion,
        ) && crate::reconciler::count_side(sd + sa, k, DelAdd::Addition) <= 1 by {
        lemma_count_parallel(sd, sa, k);
        lemma_count_append(sd, sa, k, DelAdd::Deletion);
        lemma_count_append(sd, sa, k, DelAdd::Addition);
        assert(crate::reconciler::count_side(sd, k, DelAdd::Deletion) <= 1);
    }
    crate::reconciler::lemma_reconciler_cancellation(sd + sa);
    assert forall|k: crate::reconciler::FacetKeyV|
        #![trigger crate::reconciler::count_side(nd + na, k, DelAdd::Addition)]
        crate::reconciler::count_side(nd + na, k, DelAdd::Addition) == crate::reconciler::count_side(
            nd + na,
            k,
            DelAdd::Deletion,
        ) && crate::reconciler::count_side(nd + na, k, DelAdd::Addition) <= 1 by {
        lemma_count_parallel(nd, na, k);
        lemma_count_append(nd, na, k, DelAdd::Deletion);
        lemma_count_append(nd, na, k, DelAdd::Addition);
        assert(crate::reconciler::count_side(nd, k, DelAdd::Deletion) <= 1);
    }
    crate::reconciler::lemma_reconciler_cancellation(nd + na);
    lemma_emissions_triples_symmetric(ems, docid);
}

/// On an update whose old and new sides are the same document, the
/// second walk resolves to exactly the first walk's emissions: the
/// first pass left every needed name behind, so the second finds the
/// same ids and allocates nothing.
pub proof fn lemma_noop_update_resolves_identically(
    attrs: Seq<Seq<char>>,
    names: Seq<Seq<char>>,
    doc: Seq<(String, JsonVal)>,
)
    requires
        side_resolution(attrs, names, doc) is Some,
    ensures
        side_resolution(attrs, side_resolution(attrs, names, doc)->Some_0.1, doc) == Some((
            side_resolution(attrs, names, doc)->Some_0.0,
            side_resolution(attrs, names, doc)->Some_0.1,
        )),
{
    crate::document::lemma_resolve_stable(names, spec_flatten(attrs, doc));
}

/// The whole no-op-update chain: when an update carries the same
/// document on both sides and no facet value repeats in it, the two
/// walks resolve identically, the reconciler nets out to nothing,
/// and so any flush of that final state sends no records.
pub proof fn lemma_noop_update_flushes_nothing(
    attrs: Seq<Seq<char>>,
    names: Seq<Seq<char>>,
    doc: Seq<(String, JsonVal)>,
    docid: u32,
)
    requires
        side_resolution(attrs, names, doc) is Some,
        forall|k: crate::reconciler::FacetKeyV|
            #![trigger crate::reconciler::count_side(string_recon_ops(side_resolution(attrs, names, doc)->Some_0.0, DelAdd::Deletion), k, DelAdd::Deletion)]
            crate::reconciler::count_side(
                string_recon_ops(side_resolution(attrs, names, doc)->Some_0.0, DelAdd::Deletion),
                k,
                DelAdd::Deletion,
            ) <= 1,
        forall|k: crate::reconciler::FacetKeyV|
            #![trigger crate::reconciler::count_side(number_recon_ops(side_resolution(attrs, names, doc)->Some_0.0, DelAdd::Deletion), k, DelAdd::Deletion)]
            crate::reconciler::count_side(
                number_recon_ops(side_resolution(attrs, names, doc)->Some_0.0, DelAdd::Deletion),
                k,
                DelAdd::Deletion,
            ) <= 1,
    ensures
        side_resolution(attrs, side_resolution(attrs, names, doc)->Some_0.1, doc) == Some((
            side_resolution(attrs, names, doc)->Some_0.0,
            side_resolution(attrs, names, doc)->Some_0.1,
        )),
        ({
            let ems = side_resolution(attrs, names, doc)->Some_0.0;
            apply_ops(
                Map::empty(),
                string_recon_ops(ems, DelAdd::Deletion) + string_recon_ops(ems, DelAdd::Addition),
            ) == Map::<crate::reconciler::FacetKeyV, DelAdd>::empty() && apply_ops(
                Map::empty(),
                number_recon_ops(ems, DelAdd::Deletion) + number_recon_ops(ems, DelAdd::Addition),
            ) == Map::<crate::reconciler::FacetKeyV, DelAdd>::empty()
        }),
        ({
            let ems = side_resolution(attrs, names, doc)->Some_0.0;
            forall|s: Seq<FacetEntryV>, f: Seq<FacetEntryV>|
                unique_keys(s) && unique_keys(f) && entries_map(s) == apply_ops(
                    Map::empty(),
                    string_recon_ops(ems, DelAdd::Deletion) + string_recon_ops(
                        ems,
                        DelAdd::Addition,
                    ),
                ) && entries_map(f) == apply_ops(
                    Map::empty(),
                    number_recon_ops(ems, DelAdd::Deletion) + number_recon_ops(
                        ems,
                        DelAdd::Addition,
                    ),
                ) ==> #[trigger] send_data_spec(s, f, docid) == Seq::<
                    crate::reconciler::FacetOpV,
                >::empty()
        }),
{
    lemma_noop_update_resolves_identically(attrs, names, doc);
    let ems = side_resolution(attrs, names, doc)->Some_0.0;
    lemma_update_noop(ems, docid);
    assert forall|s: Seq<FacetEntryV>, f: Seq<FacetEntryV>|
        unique_keys(s) && unique_keys(f) && entries_map(s) == apply_ops(
            Map::empty(),
            string_recon_ops(ems, DelAdd::Deletion) + string_recon_ops(ems, DelAdd::Addition),
        ) && entries_map(f) == apply_ops(
            Map::empty(),
            number_recon_ops(ems, DelAdd::Deletion) + number_recon_ops(ems, DelAdd::Addition),
        ) implies #[trigger] send_data_spec(s, f, docid) == Seq::<
        crate::reconciler::FacetOpV,
    >::empty() by {
        crate::reconciler::lemma_flush_of_empty(s, f, docid);
    }
}

/// The cache keys of an emission list are the same on both sides.
proof fn lemma_emissions_triples_symmetric(ems: Seq<(u16, JsonVal)>, docid: u32)
    ensures
        forall|key: Seq<u8>|
            emissions_cache_triples(ems, docid, DelAdd::Deletion).contains(
                (key, docid, DelAdd::Deletion),
            ) <==> #[trigger] emissions_cache_triples(ems, docid, DelAdd::Addition).contains(
                (key, docid, DelAdd::Addition),
            ),
    decreases ems.len(),
{
    if ems.len() > 0 {
        lemma_emissions_triples_symmetric(ems.drop_last(), docid);
        assert forall|key: Seq<u8>|
            value_cache_triples(ems.last().0, ems.last().1, docid, DelAdd::Deletion).contains(
                (key, docid, DelAdd::Deletion),
            ) <==> #[trigger] value_cache_triples(
                ems.last().0,
                ems.last().1,
                docid,
                DelAdd::Addition,
            ).contains((key, docid, DelAdd::Addition)) by {
            match ems.last().1 {
                JsonVal::Number(_) => {},
                JsonVal::String(_) => {},
                JsonVal::Null => {},
                JsonVal::Array(_) => {},
                JsonVal::Object(_) => {},
                JsonVal::Bool(_) => {},
            }
        }
        assert forall|key: Seq<u8>|
            emissions_cache_triples(ems, docid, DelAdd::Deletion).contains(
                (key, docid, DelAdd::Deletion),
            ) <==> #[trigger] emissions_cache_triples(ems, docid, DelAdd::Addition).contains(
                (key, docid, DelAdd::Addition),
            ) by {
            assert(emissions_cache_triples(ems.drop_last(), docid, DelAdd::Deletion).contains(
                (key, docid, DelAdd::Deletion),
            ) <==> emissions_cache_triples(ems.drop_last(), docid, DelAdd::Addition).contains(
                (key, docid, DelAdd::Addition),
            ));
            assert(value_cache_triples(ems.last().0, ems.last().1, docid, DelAdd::Deletion)
                .contains((key, docid, DelAdd::Deletion)) <==> value_cache_triples(
                ems.last().0,
                ems.last().1,
                docid,
                DelAdd::Addition,
            ).contains((key, docid, DelAdd::Addition)));
        }
    }
}



/// What one change does to the cache contents and the field-name
/// state: the walker's emissions land on the change's side (both
/// sides for an update, deletions first), and a failure to name a
/// field stops the pass with whatever had landed by then.
pub open spec fn change_step(
    attrs: Seq<Seq<char>>,
    names: Seq<Seq<char>>,
    contents: Set<CacheTriple>,
    change: DocumentChange,
) -> (Set<CacheTriple>, Seq<Seq<char>>, bool) {
    match change {
        DocumentChange::Deletion { docid, current } => match side_resolution(
            attrs,
            names,
            current@,
        ) {
            Some(p) => (
                contents.union(emissions_cache_triples(p.0, docid, DelAdd::Deletion)),
                p.1,
                false,
            ),
            None => (contents, names, true),
        },
        DocumentChange::Insertion { docid, inserted } => match side_resolution(
            attrs,
            names,
            inserted@,
        ) {
            Some(p) => (
                contents.union(emissions_cache_triples(p.0, docid, DelAdd::Addition)),
                p.1,
                false,
            ),
            None => (contents, names, true),
        },
        DocumentChange::Update { docid, current, merged } => match side_resolution(
            attrs,
            names,
            current@,
        ) {
            Some(p1) => {
                let after_del = contents.union(
                    emissions_cache_triples(p1.0, docid, DelAdd::Deletion),
                );
                match side_resolution(attrs, p1.1, merged@) {
                    Some(p2) => (
                        after_del.union(
                            emissions_cache_triples(p2.0, docid, DelAdd::Addition),
                        ),
                        p2.1,
                        false,
                    ),
                    None => (after_del, p1.1, true),
                }
            },
            None => (contents, names, true),
        },
    }
}

/// What a run of changes does, stopping at the first failure; the
/// name state after a failing change is left to the implementation.
pub open spec fn spec_process(
    attrs: Seq<Seq<char>>,
    names: Seq<Seq<char>>,
    contents: Set<CacheTriple>,
    changes: Seq<DocumentChange>,
) -> (Set<CacheTriple>, Seq<Seq<char>>, bool)
    decreases changes.len(),
{
    if changes.len() == 0 {
        (contents, names, false)
    } else {
        let prior = spec_process(attrs, names, contents, changes.drop_last());
        if prior.2 {
            prior
        } else {
            change_step(attrs, prior.1, prior.0, changes.last())
        }
    }
}

/// Once a prefix fails, the whole run ends the same way.
proof fn lemma_process_failed_extends(
    attrs: Seq<Seq<char>>,
    names: Seq<Seq<char>>,
    contents: Set<CacheTriple>,
    changes: Seq<DocumentChange>,
    i: int,
)
    requires
        0 <= i <= changes.len(),
        spec_process(attrs, names, contents, changes.take(i)).2,
    ensures
        spec_process(attrs, names, contents, changes) == spec_process(
            attrs,
            names,
            contents,
            changes.take(i),
        ),
    decreases changes.len() - i,
{
    if i < changes.len() {
        assert(changes.take(i + 1).drop_last() =~= changes.take(i));
        lemma_process_failed_extends(attrs, names, contents, changes, i + 1);
    } else {
        assert(changes.take(i) =~= changes);
    }
}

/// What a run of changes does when dealt round-robin over several
/// workers' caches: the change at position `j` lands in cache
/// `j % caches.len()`, the field-name state threads through every
/// change in arrival order, and the first failure stops the pass.
pub open spec fn spec_process_multi(
    attrs: Seq<Seq<char>>,
    names: Seq<Seq<char>>,
    caches: Seq<Set<CacheTriple>>,
    changes: Seq<DocumentChange>,
) -> (Seq<Set<CacheTriple>>, Seq<Seq<char>>, bool)
    recommends
        caches.len() >= 1,
    decreases changes.len(),
{
    if changes.len() == 0 {
        (caches, names, false)
    } else {
        let prior = spec_process_multi(attrs, names, caches, changes.drop_last());
        if prior.2 {
            prior
        } else {
            let w = (changes.len() - 1) % (caches.len() as int);
            let step = change_step(attrs, prior.1, prior.0[w], changes.last());
            (prior.0.update(w, step.0), step.1, step.2)
        }
    }
}

/// The contents of a list of caches.
pub open spec fn caches_contents(cs: Seq<BalancedCaches>) -> Seq<Set<CacheTriple>> {
    cs.map_values(|c: BalancedCaches| c.contents())
}

/// Once a prefix of a dealt run fails, the whole run ends the same
/// way.
proof fn lemma_process_multi_failed_extends(
    attrs: Seq<Seq<char>>,
    names: Seq<Seq<char>>,
    caches: Seq<Set<CacheTriple>>,
    changes: Seq<DocumentChange>,
    i: int,
)
    requires
        0 <= i <= changes.len(),
        spec_process_multi(attrs, names, caches, changes.take(i)).2,
    ensures
        spec_process_multi(attrs, names, caches, changes) == spec_process_multi(
            attrs,
            names,
            caches,
            changes.take(i),
        ),
    decreases changes.len() - i,
{
    if i < changes.len() {
        assert(changes.take(i + 1).drop_last() =~= changes.take(i));
        lemma_process_multi_failed_extends(attrs, names, caches, changes, i + 1);
    } else {
        assert(changes.take(i) =~= changes);
    }
}

/// Per-pass configuration of the extraction: the attributes to
/// extract and each worker's bucket count and memory budget.
pub struct FacetedExtractorData {
    pub attributes_to_extract: Vec<String>,
    pub buckets: usize,
    pub max_memory_by_thread: usize,
}

impl FacetedExtractorData {
    /// At least one bucket, and a budget the accounting can carry.
    pub open spec fn wf(self) -> bool {
        1 <= self.buckets && self.max_memory_by_thread <= usize::MAX / 2
    }

    /// A fresh cache for one worker.
    pub fn init_data(&self) -> (r: BalancedCaches)
        requires
            self.wf(),
        ensures
            r.wf(),
            r.contents() == Set::<CacheTriple>::empty(),
            r.n_buckets() == self.buckets,
            r.max_memory() == self.max_memory_by_thread,
    {
        BalancedCaches::new(self.buckets, self.max_memory_by_thread)
    }

    /// Processes a run of changes in order against one worker's
    /// cache, collecting every flushed record.  The cache contents
    /// grow by exactly what the run's walks emit; the first failure
    /// to name a new field stops the run.  What each change sends is
    /// stated on `extract_document_change`.
    #[verifier::rlimit(60)]
    pub fn process(
        &self,
        changes: Vec<DocumentChange>,
        fields: &mut FieldIdMap,
        data: &mut BalancedCaches,
    ) -> (r: (Vec<FacetOp>, Option<ExtractError>))
        requires
            old(fields).wf(),
            old(data).wf(),
        ensures
            final(fields).wf(),
            final(data).wf(),
            final(data).n_buckets() == old(data).n_buckets(),
            final(data).max_memory() == old(data).max_memory(),
            ({
                let run = spec_process(
                    view_names(self.attributes_to_extract@),
                    old(fields).names_view(),
                    old(data).contents(),
                    changes@,
                );
                final(data).contents() == run.0 && (r.1 is Some <==> run.2) && (!run.2 ==> final(fields).names_view() == run.1 && r.1 is None)
            }),
    {
        let ghost a = view_names(self.attributes_to_extract@);
        let ghost names0 = fields.names_view();
        let ghost c0 = data.contents();
        let ghost changes0 = changes@;
        let mut changes = changes;
        let n = changes.len();
        let mut ops: Vec<FacetOp> = Vec::new();
        let mut failed: Option<ExtractError> = None;
        let mut k: usize = 0;
        proof {
            assert(changes0.take(0) =~= Seq::<DocumentChange>::empty());
            assert(changes@ =~= changes0.skip(0));
        }
        while changes.len() > 0
            invariant_except_break
                fields.wf(),
                data.wf(),
                data.n_buckets() == old(data).n_buckets(),
                data.max_memory() == old(data).max_memory(),
                failed is None,
                a == view_names(self.attributes_to_extract@),
                n == changes0.len(),
                k <= n,
                changes@.len() == n - k,
                changes@ == changes0.skip(k as int),
                spec_process(a, names0, c0, changes0.take(k as int)) == (
                    data.contents(),
                    fields.names_view(),
                    false,
                ),
            ensures
                fields.wf(),
                data.wf(),
                data.n_buckets() == old(data).n_buckets(),
                data.max_memory() == old(data).max_memory(),
                n == changes0.len(),
                failed is Some ==> spec_process(a, names0, c0, changes0).0 == data.contents()
                    && spec_process(a, names0, c0, changes0).2,
                failed is None ==> k <= n && changes@.len() == 0 && changes@ == changes0.skip(
                    k as int,
                ) && spec_process(a, names0, c0, changes0.take(k as int)) == (
                    data.contents(),
                    fields.names_view(),
                    false,
                ),
            decreases changes@.len(),
        {
            let change = changes.remove(0);
            proof {
                assert(change == changes0[k as int]);
                assert(changes@ =~= changes0.skip(k + 1));
            }
            let ghost pre_names = fields.names_view();
            let ghost pre_contents = data.contents();
            let (mut chunk, err) = FacetedDocidsExtractor::extract_document_change(
                data,
                &self.attributes_to_extract,
                fields,
                change,
            );
            ops.append(&mut chunk);
            proof {
                assert(changes0.take(k + 1).drop_last() =~= changes0.take(k as int));
                assert(changes0.take(k + 1).last() == changes0[k as int]);
                let step = change_step(a, pre_names, pre_contents, changes0[k as int]);
                assert(spec_process(a, names0, c0, changes0.take(k + 1)) == step);
                assert(data.contents() == step.0);
                assert(err is Some <==> step.2);
                assert(!step.2 ==> fields.names_view() == step.1);
            }
            if let Some(e) = err {
                proof {
                    lemma_process_failed_extends(a, names0, c0, changes0, k + 1);
                }
                failed = Some(e);
                break;
            }
            k = k + 1;
        }
        proof {
            if failed is None {
                assert(changes0.skip(k as int).len() == 0);
                assert(k == n);
                assert(changes0.take(k as int) =~= changes0);
            }
        }
        (ops, failed)
    }
}

impl FacetedDocidsExtractor {
    /// Runs one extraction pass: one cache per worker, changes dealt
    /// round-robin so a replay distributes them identically, and
    /// every worker's flushed records collected.  The first failure
    /// to name a new field cancels the pass; the caches built so far
    /// are still returned, sealed and merge-valid.
    /// Runs one extraction pass: one cache per worker, the change at
    /// position `j` dealt to worker `j % buckets` so a replay over
    /// the same inputs builds identical per-worker caches, and every
    /// worker's flushed records collected.  Each returned cache
    /// carries the configured bucket count and budget, and its
    /// contents equal exactly the facts the fold `spec_process_multi`
    /// assigns to its round-robin share of the changes.  The first
    /// failure to name a new field cancels the pass; the caches built
    /// so far are still returned, sealed and merge-valid.
    #[verifier::rlimit(60)]
    pub fn run_extraction(
        extractor: &FacetedExtractorData,
        changes: Vec<DocumentChange>,
        fields: &mut FieldIdMap,
    ) -> (r: (Vec<BalancedCaches>, Vec<FacetOp>, Option<ExtractError>))
        requires
            extractor.wf(),
            old(fields).wf(),
        ensures
            final(fields).wf(),
            r.0@.len() == extractor.buckets,
            forall|w: int|
                0 <= w < r.0@.len() ==> (#[trigger] r.0@[w]).wf() && r.0@[w].n_buckets()
                    == extractor.buckets && r.0@[w].max_memory() == extractor.max_memory_by_thread,
            ({
                let run = spec_process_multi(
                    view_names(extractor.attributes_to_extract@),
                    old(fields).names_view(),
                    Seq::new(extractor.buckets as nat, |w: int| Set::<CacheTriple>::empty()),
                    changes@,
                );
                caches_contents(r.0@) == run.0 && (r.2 is Some <==> run.2) && (!run.2 ==> final(fields).names_view() == run.1 && r.2 is None)
            }),
            changes@.len() == 0 ==> r.1@.len() == 0,
    {
        let ghost a = view_names(extractor.attributes_to_extract@);
        let ghost names0 = fields.names_view();
        let n_workers = extractor.buckets;
        let ghost init: Seq<Set<CacheTriple>> = Seq::new(
            n_workers as nat,
            |w: int| Set::<CacheTriple>::empty(),
        );
        let mut caches: Vec<BalancedCaches> = Vec::new();
        let mut w: usize = 0;
        while w < n_workers
            invariant
                w == caches@.len(),
                w <= n_workers,
                extractor.wf(),
                n_workers == extractor.buckets,
                forall|i: int|
                    0 <= i < caches@.len() ==> (#[trigger] caches@[i]).wf() && caches@[i].contents()
                        == Set::<CacheTriple>::empty() && caches@[i].n_buckets() == n_workers
                        && caches@[i].max_memory() == extractor.max_memory_by_thread,
            decreases n_workers - w,
        {
            let c = extractor.init_data();
            caches.push(c);
            w = w + 1;
        }
        proof {
            assert(caches_contents(caches@) =~= init);
        }
        let ghost changes0 = changes@;
        let mut changes = changes;
        let n = changes.len();
        let mut ops: Vec<FacetOp> = Vec::new();
        let mut failed: Option<ExtractError> = None;
        let mut k: usize = 0;
        proof {
            assert(changes0.take(0) =~= Seq::<DocumentChange>::empty());
            assert(changes@ =~= changes0.skip(0));
        }
        while changes.len() > 0
            invariant_except_break
                caches@.len() == n_workers,
                n_workers >= 1,
                extractor.wf(),
                fields.wf(),
                failed is None,
                a == view_names(extractor.attributes_to_extract@),
                n_workers == extractor.buckets,
                init.len() == n_workers,
                n == changes0.len(),
                k <= n,
                changes@.len() == n - k,
                changes@ == changes0.skip(k as int),
                changes0.len() == 0 ==> ops@.len() == 0,
                forall|j: int|
                    0 <= j < caches@.len() ==> (#[trigger] caches@[j]).wf() && caches@[j].n_buckets()
                        == n_workers && caches@[j].max_memory() == extractor.max_memory_by_thread,
                spec_process_multi(a, names0, init, changes0.take(k as int)) == (
                    caches_contents(caches@),
                    fields.names_view(),
                    false,
                ),
            ensures
                caches@.len() == n_workers,
                fields.wf(),
                n == changes0.len(),
                forall|j: int|
                    0 <= j < caches@.len() ==> (#[trigger] caches@[j]).wf() && caches@[j].n_buckets()
                        == n_workers && caches@[j].max_memory() == extractor.max_memory_by_thread,
                changes0.len() == 0 ==> ops@.len() == 0,
                failed is Some ==> spec_process_multi(a, names0, init, changes0).0
                    == caches_contents(caches@) && spec_process_multi(a, names0, init, changes0).2,
                failed is None ==> k <= n && changes@.len() == 0 && changes@ == changes0.skip(
                    k as int,
                ) && spec_process_multi(a, names0, init, changes0.take(k as int)) == (
                    caches_contents(caches@),
                    fields.names_view(),
                    false,
                ),
            decreases changes@.len(),
        {
            let change = changes.remove(0);
            proof {
                assert(change == changes0[k as int]);
                assert(changes@ =~= changes0.skip(k + 1));
            }
            let worker = k % n_workers;
            let ghost pre_caches = caches@;
            let ghost pre_names = fields.names_view();
            let cache = &mut caches[worker];
            let (mut chunk, err) = Self::extract_document_change(
                cache,
                &extractor.attributes_to_extract,
                fields,
                change,
            );
            proof {
                assert(caches@ == pre_caches.update(worker as int, caches@[worker as int]));
                assert forall|j: int|
                    0 <= j < caches@.len() implies (#[trigger] caches@[j]).wf() && caches@[
                j].n_buckets() == n_workers && caches@[j].max_memory()
                    == extractor.max_memory_by_thread by {
                    if j != worker as int {
                        assert(caches@[j] == pre_caches[j]);
                    }
                }
                assert(changes0.take(k + 1).drop_last() =~= changes0.take(k as int));
                assert(changes0.take(k + 1).last() == changes0[k as int]);
                let step = change_step(
                    a,
                    pre_names,
                    caches_contents(pre_caches)[worker as int],
                    changes0[k as int],
                );
                assert(caches_contents(pre_caches)[worker as int] == pre_caches[worker
                    as int].contents());
                assert(spec_process_multi(a, names0, init, changes0.take(k + 1)) == (
                    caches_contents(pre_caches).update(worker as int, step.0),
                    step.1,
                    step.2,
                ));
                assert(caches@[worker as int].contents() == step.0);
                assert(caches_contents(caches@) =~= caches_contents(pre_caches).update(
                    worker as int,
                    step.0,
                ));
                assert(err is Some <==> step.2);
                assert(!step.2 ==> fields.names_view() == step.1);
            }
            ops.append(&mut chunk);
            if let Some(e) = err {
                // cancelled: seal what was built and report
                proof {
                    lemma_process_multi_failed_extends(a, names0, init, changes0, k + 1);
                }
                failed = Some(e);
                break;
            }
            k = k + 1;
        }
        proof {
            if failed is None {
                assert(changes0.skip(k as int).len() == 0);
                assert(k == n);
                assert(changes0.take(k as int) =~= changes0);
            }
        }
        (caches, ops, failed)
    }
}

} // verus!
