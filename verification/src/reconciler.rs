//! Del/add reconciler: cancels opposing del/add pairs for the same
//! `(field, value)` within one document change.
//!
//! An update observes the same facet value once during the "old" pass
//! (as a deletion) and once during the "new" pass (as an addition);
//! emitting both would churn downstream caches for nothing.  The
//! reconciler keeps one map for string values and one for number
//! values; inserting a side removes an opposing entry and otherwise
//! overwrites, so what remains after both passes is exactly the net
//! change, which `send_data` turns into per-document records.

use vstd::prelude::*;
use vstd::string::StringSliceAdditionalSpecFns;
use vstd::utf8::valid_utf8;

use crate::codec::{bytes_eq, FacetKind};
use crate::keys::{encode_f64_doc_key, encode_string_doc_key, f64_doc_key, string_doc_key};

verus! {

/// Whether a facet observation is a deletion or an addition.
#[derive(Clone, Copy, Debug, PartialEq, Eq, Structural)]
pub enum DelAdd {
    Deletion,
    Addition,
}

/// The side a stored entry cancels against.
pub open spec fn opposite(side: DelAdd) -> DelAdd {
    match side {
        DelAdd::Deletion => DelAdd::Addition,
        DelAdd::Addition => DelAdd::Deletion,
    }
}

/// A reconciler key: field id and raw value bytes.
pub type FacetKeyV = (u16, Seq<u8>);

/// The ghost content of one stored entry.
pub type FacetEntryV = (u16, Seq<u8>, DelAdd);

/// The ghost contents of an entry list.
pub open spec fn view_entries(s: Seq<(u16, Vec<u8>, DelAdd)>) -> Seq<FacetEntryV> {
    s.map_values(|e: (u16, Vec<u8>, DelAdd)| (e.0, e.1@, e.2))
}

/// The association list read as a map; a later entry for the same key
/// would win, though well-formed lists never hold one.
pub open spec fn entries_map(s: Seq<FacetEntryV>) -> Map<FacetKeyV, DelAdd>
    decreases s.len(),
{
    if s.len() == 0 {
        Map::empty()
    } else {
        entries_map(s.drop_last()).insert((s.last().0, s.last().1), s.last().2)
    }
}

/// No two entries share a key.
pub open spec fn unique_keys(s: Seq<FacetEntryV>) -> bool {
    forall|i: int, j: int|
        0 <= i < j < s.len() ==> (s[i].0, s[i].1) != ((s[j].0, s[j].1))
}

/// One reconciler step: an opposing entry cancels out, anything else
/// is overwritten by the inserted side.
pub open spec fn spec_insert(m: Map<FacetKeyV, DelAdd>, k: FacetKeyV, side: DelAdd) -> Map<
    FacetKeyV,
    DelAdd,
> {
    if m.contains_key(k) && m[k] == opposite(side) {
        m.remove(k)
    } else {
        m.insert(k, side)
    }
}

/// A key is in the map exactly when some entry holds it.
proof fn lemma_entries_map_domain(s: Seq<FacetEntryV>, k: FacetKeyV)
    ensures
        entries_map(s).contains_key(k) <==> exists|i: int|
            0 <= i < s.len() && ((#[trigger] s[i]).0, s[i].1) == k,
    decreases s.len(),
{
    if s.len() > 0 {
        lemma_entries_map_domain(s.drop_last(), k);
        if entries_map(s).contains_key(k) {
            if (s.last().0, s.last().1) == k {
                assert(((s[s.len() - 1]).0, s[s.len() - 1].1) == k);
            } else {
                let i = choose|i: int|
                    0 <= i < s.drop_last().len() && ((#[trigger] s.drop_last()[i]).0,
                    s.drop_last()[i].1) == k;
                assert(((s[i]).0, s[i].1) == k);
            }
        }
        if exists|i: int| 0 <= i < s.len() && ((#[trigger] s[i]).0, s[i].1) == k {
            let i = choose|i: int| 0 <= i < s.len() && ((#[trigger] s[i]).0, s[i].1) == k;
            if i < s.len() - 1 {
                assert(((s.drop_last()[i]).0, s.drop_last()[i].1) == k);
            }
        }
    }
}

/// In a well-formed list the map agrees with every entry.
proof fn lemma_entries_map_index(s: Seq<FacetEntryV>, i: int)
    requires
        unique_keys(s),
        0 <= i < s.len(),
    ensures
        entries_map(s).contains_key((s[i].0, s[i].1)),
        entries_map(s)[(s[i].0, s[i].1)] == s[i].2,
    decreases s.len(),
{
    if i < s.len() - 1 {
        lemma_entries_map_index(s.drop_last(), i);
        assert((s.last().0, s.last().1) != ((s[i].0, s[i].1)));
    }
}

/// Removing the entry that holds a key removes the key from the map.
proof fn lemma_entries_map_remove(s: Seq<FacetEntryV>, i: int)
    requires
        unique_keys(s),
        0 <= i < s.len(),
    ensures
        entries_map(s.remove(i)) =~= entries_map(s).remove((s[i].0, s[i].1)),
    decreases s.len(),
{
    let k = (s[i].0, s[i].1);
    if i == s.len() - 1 {
        assert(s.remove(i) =~= s.drop_last());
        lemma_entries_map_domain(s.drop_last(), k);
        assert(!entries_map(s.drop_last()).contains_key(k));
        assert(entries_map(s.drop_last()).insert(k, s[i].2).remove(k) =~= entries_map(
            s.drop_last(),
        ));
    } else {
        assert(s.remove(i).drop_last() =~= s.drop_last().remove(i));
        assert(s.remove(i).last() == s.last());
        lemma_entries_map_remove(s.drop_last(), i);
        let lk = (s.last().0, s.last().1);
        assert(lk != k);
        assert(entries_map(s.drop_last()).remove(k).insert(lk, s.last().2) =~= entries_map(
            s.drop_last(),
        ).insert(lk, s.last().2).remove(k));
    }
}

/// Applies one reconciler step to an association list, keeping its
/// keys unique and its map in lockstep with `spec_insert`.
fn upsert(entries: &mut Vec<(u16, Vec<u8>, DelAdd)>, fid: u16, value: Vec<u8>, side: DelAdd)
    requires
        unique_keys(view_entries(old(entries)@)),
    ensures
        unique_keys(view_entries(final(entries)@)),
        entries_map(view_entries(final(entries)@)) == spec_insert(
            entries_map(view_entries(old(entries)@)),
            (fid, value@),
            side,
        ),
{
    let ghost k: FacetKeyV = (fid, value@);
    let ghost s0 = view_entries(entries@);
    let n = entries.len();
    let mut i: usize = 0;
    let mut found: bool = false;
    while i < n && !found
        invariant
            n == entries@.len(),
            i <= n,
            k == (fid, value@),
            s0 == view_entries(entries@),
            found ==> i < n && (s0[i as int].0, s0[i as int].1) == k,
            !found ==> forall|j: int| 0 <= j < i ==> (#[trigger] s0[j].0, s0[j].1) != k,
        decreases n - i + (if found { 0int } else { 1int }),
    {
        proof {
            assert(s0[i as int] == (entries@[i as int].0, entries@[i as int].1@, entries@[i as
                int].2));
        }
        if entries[i].0 == fid && bytes_eq(&entries[i].1, &value) {
            found = true;
        } else {
            i = i + 1;
        }
    }
    if found {
        let idx = i;
        let side_there = entries[idx].2;
        let opp = match side {
            DelAdd::Deletion => DelAdd::Addition,
            DelAdd::Addition => DelAdd::Deletion,
        };
        proof {
            lemma_entries_map_index(s0, idx as int);
            lemma_entries_map_remove(s0, idx as int);
        }
        if side_there == opp {
            // net zero: the opposing entry cancels
            entries.remove(idx);
            proof {
                assert(view_entries(entries@) =~= s0.remove(idx as int));
            }
        } else {
            // overwrite: drop the old entry, append the new side
            entries.remove(idx);
            proof {
                assert(view_entries(entries@) =~= s0.remove(idx as int));
            }
            entries.push((fid, value, side));
            proof {
                let s1 = s0.remove(idx as int);
                assert(view_entries(entries@) =~= s1.push((fid, value@, side)));
                assert(view_entries(entries@).drop_last() =~= s1);
                // uniqueness: the removed entry was the only holder of k
                assert forall|a: int, b: int|
                    0 <= a < b < view_entries(entries@).len() implies (
                (#[trigger] view_entries(entries@)[a]).0, view_entries(entries@)[a].1) != ((
                (#[trigger] view_entries(entries@)[b]).0, view_entries(entries@)[b].1)) by {
                    lemma_entries_map_domain(s1, k);
                    if b == view_entries(entries@).len() - 1 {
                        if (s1[a].0, s1[a].1) == k {
                            assert(entries_map(s1).contains_key(k));
                        }
                    }
                }
                assert(entries_map(view_entries(entries@)) =~= spec_insert(
                    entries_map(s0),
                    k,
                    side,
                ));
            }
        }
    } else {
        entries.push((fid, value, side));
        proof {
            assert(view_entries(entries@) =~= s0.push((fid, value@, side)));
            assert(view_entries(entries@).drop_last() =~= s0);
            lemma_entries_map_domain(s0, k);
            assert(!entries_map(s0).contains_key(k));
            assert(entries_map(view_entries(entries@)) =~= spec_insert(entries_map(s0), k, side));
        }
    }
}

/// An owned copy of a byte buffer.
fn copy_bytes(v: &Vec<u8>) -> (r: Vec<u8>)
    ensures
        r@ == v@,
{
    let mut r: Vec<u8> = Vec::new();
    r.extend_from_slice(v.as_slice());
    assert(r@ =~= v@);
    r
}

/// Per-document scratch of one change: what each observed string and
/// number value nets out to once opposing del/add pairs cancel.
pub struct DelAddFacetValue {
    strings: Vec<(u16, Vec<u8>, DelAdd)>,
    f64s: Vec<(u16, Vec<u8>, DelAdd)>,
}

impl DelAddFacetValue {
    /// The stored string entries, in insertion order.
    pub closed spec fn strings_view(self) -> Seq<FacetEntryV> {
        view_entries(self.strings@)
    }

    /// The stored number entries, in insertion order.
    pub closed spec fn f64s_view(self) -> Seq<FacetEntryV> {
        view_entries(self.f64s@)
    }

    /// The string entries read as a map.
    pub open spec fn strings_map(self) -> Map<FacetKeyV, DelAdd> {
        entries_map(self.strings_view())
    }

    /// The number entries read as a map.
    pub open spec fn f64s_map(self) -> Map<FacetKeyV, DelAdd> {
        entries_map(self.f64s_view())
    }

    /// Each value appears at most once per map.
    pub open spec fn wf(self) -> bool {
        unique_keys(self.strings_view()) && unique_keys(self.f64s_view())
    }

    /// An empty reconciler.
    pub fn new() -> (r: Self)
        ensures
            r.wf(),
            r.strings_view() == Seq::<FacetEntryV>::empty(),
            r.f64s_view() == Seq::<FacetEntryV>::empty(),
    {
        let r = DelAddFacetValue { strings: Vec::new(), f64s: Vec::new() };
        proof {
            assert(r.strings_view() =~= Seq::<FacetEntryV>::empty());
            assert(r.f64s_view() =~= Seq::<FacetEntryV>::empty());
        }
        r
    }

    /// Records an addition of `value` for field `fid`: a pending
    /// deletion of the same value cancels out, anything else is
    /// overwritten with `Addition`.  Only `String` and `Number`
    /// values are reconciled; other kinds leave the maps alone.
    pub fn insert_add(&mut self, fid: u16, value: Vec<u8>, kind: FacetKind)
        requires
            old(self).wf(),
        ensures
            final(self).wf(),
            kind == FacetKind::String ==> final(self).strings_map() == spec_insert(
                old(self).strings_map(),
                (fid, value@),
                DelAdd::Addition,
            ) && final(self).f64s_view() == old(self).f64s_view(),
            kind == FacetKind::Number ==> final(self).f64s_map() == spec_insert(
                old(self).f64s_map(),
                (fid, value@),
                DelAdd::Addition,
            ) && final(self).strings_view() == old(self).strings_view(),
            kind != FacetKind::String && kind != FacetKind::Number ==> final(self).strings_view()
                == old(self).strings_view() && final(self).f64s_view() == old(self).f64s_view(),
    {
        match kind {
            FacetKind::String => upsert(&mut self.strings, fid, value, DelAdd::Addition),
            FacetKind::Number => upsert(&mut self.f64s, fid, value, DelAdd::Addition),
            _ => {},
        }
    }

    /// Records a deletion of `value` for field `fid`, symmetrically
    /// to `insert_add`.
    pub fn insert_del(&mut self, fid: u16, value: Vec<u8>, kind: FacetKind)
        requires
            old(self).wf(),
        ensures
            final(self).wf(),
            kind == FacetKind::String ==> final(self).strings_map() == spec_insert(
                old(self).strings_map(),
                (fid, value@),
                DelAdd::Deletion,
            ) && final(self).f64s_view() == old(self).f64s_view(),
            kind == FacetKind::Number ==> final(self).f64s_map() == spec_insert(
                old(self).f64s_map(),
                (fid, value@),
                DelAdd::Deletion,
            ) && final(self).strings_view() == old(self).strings_view(),
            kind != FacetKind::String && kind != FacetKind::Number ==> final(self).strings_view()
                == old(self).strings_view() && final(self).f64s_view() == old(self).f64s_view(),
    {
        match kind {
            FacetKind::String => upsert(&mut self.strings, fid, value, DelAdd::Deletion),
            FacetKind::Number => upsert(&mut self.f64s, fid, value, DelAdd::Deletion),
            _ => {},
        }
    }
}

/// A record for the downstream per-document facet writer.
pub enum FacetOp {
    WriteString { key: Vec<u8>, original: Vec<u8> },
    DeleteString { key: Vec<u8> },
    WriteF64 { key: Vec<u8> },
    DeleteF64 { key: Vec<u8> },
}

/// The ghost shape of a writer record.
pub enum FacetOpV {
    WriteString { key: Seq<u8>, original: Seq<u8> },
    DeleteString { key: Seq<u8> },
    WriteF64 { key: Seq<u8> },
    DeleteF64 { key: Seq<u8> },
}

impl View for FacetOp {
    type V = FacetOpV;

    open spec fn view(&self) -> FacetOpV {
        match self {
            FacetOp::WriteString { key, original } => FacetOpV::WriteString {
                key: key@,
                original: original@,
            },
            FacetOp::DeleteString { key } => FacetOpV::DeleteString { key: key@ },
            FacetOp::WriteF64 { key } => FacetOpV::WriteF64 { key: key@ },
            FacetOp::DeleteF64 { key } => FacetOpV::DeleteF64 { key: key@ },
        }
    }
}

/// The ghost contents of a record list.
pub open spec fn view_ops(s: Seq<FacetOp>) -> Seq<FacetOpV> {
    s.map_values(|o: FacetOp| o@)
}

/// What one remaining string entry sends: a write or a delete of its
/// per-document key, or nothing when the stored bytes are not valid
/// UTF-8 (a defensive skip; upstream only produces valid text).
pub open spec fn string_op(docid: u32, e: FacetEntryV) -> Option<FacetOpV> {
    if valid_utf8(e.1) {
        if e.2 == DelAdd::Addition {
            Some(FacetOpV::WriteString { key: string_doc_key(e.0, docid, e.1), original: e.1 })
        } else {
            Some(FacetOpV::DeleteString { key: string_doc_key(e.0, docid, e.1) })
        }
    } else {
        None
    }
}

/// What one remaining number entry sends.
pub open spec fn f64_op(docid: u32, e: FacetEntryV) -> FacetOpV {
    if e.2 == DelAdd::Addition {
        FacetOpV::WriteF64 { key: f64_doc_key(e.0, docid, e.1) }
    } else {
        FacetOpV::DeleteF64 { key: f64_doc_key(e.0, docid, e.1) }
    }
}

/// Everything a reconciler in a given state sends for one document:
/// its string records, then its number records, in entry order.
pub open spec fn send_data_spec(
    strings: Seq<FacetEntryV>,
    f64s: Seq<FacetEntryV>,
    docid: u32,
) -> Seq<FacetOpV> {
    strings.filter_map(|e: FacetEntryV| string_op(docid, e)) + f64s.map_values(
        |e: FacetEntryV| f64_op(docid, e),
    )
}

/// The error type of `core::str::from_utf8`, declared so it can
/// appear in the result type; nothing is read out of it.
#[verifier::external_type_specification]
#[verifier::external_body]
pub struct ExUtf8Error(core::str::Utf8Error);

/// Relies on `core::str::from_utf8`: it returns `Ok` exactly on valid
/// UTF-8 input and the returned text is the input bytes read as text.
pub assume_specification<'a>[ core::str::from_utf8 ](v: &'a [u8]) -> (r: Result<
    &'a str,
    core::str::Utf8Error,
>)
    ensures
        r is Ok <==> valid_utf8(v@),
        r matches Ok(s) ==> s.spec_bytes() == v@,
;

impl DelAddFacetValue {
    /// Turns what remains after reconciliation into the records the
    /// downstream writer receives for this document.
    pub fn send_data(self, docid: u32) -> (r: Vec<FacetOp>)
        ensures
            view_ops(r@) == send_data_spec(self.strings_view(), self.f64s_view(), docid),
    {
        broadcast use vstd::utf8::encode_utf8_decode_utf8;

        let ghost sv = self.strings_view();
        let ghost fv = self.f64s_view();
        let ghost f = |e: FacetEntryV| string_op(docid, e);
        let ghost g = |e: FacetEntryV| f64_op(docid, e);
        let mut r: Vec<FacetOp> = Vec::new();
        let n = self.strings.len();
        let mut i: usize = 0;
        while i < n
            invariant
                n == self.strings@.len(),
                i <= n,
                sv == self.strings_view(),
                f == (|e: FacetEntryV| string_op(docid, e)),
                view_ops(r@) == sv.take(i as int).filter_map(f),
            decreases n - i,
        {
            let entry = &self.strings[i];
            proof {
                assert(sv[i as int] == (entry.0, entry.1@, entry.2));
                sv.lemma_filter_map_take_succ(f, i as int);
            }
            match core::str::from_utf8(entry.1.as_slice()) {
                Ok(s) => {
                    let key = encode_string_doc_key(entry.0, docid, s);
                    proof {
                        assert(entry.1@ == vstd::utf8::encode_utf8(s@));
                        vstd::utf8::encode_utf8_decode_utf8(s@);
                        assert(key@ == string_doc_key(entry.0, docid, entry.1@));
                    }
                    let op = match entry.2 {
                        DelAdd::Addition => FacetOp::WriteString {
                            key,
                            original: copy_bytes(&entry.1),
                        },
                        DelAdd::Deletion => FacetOp::DeleteString { key },
                    };
                    proof {
                        assert(op@ == string_op(docid, sv[i as int]).unwrap());
                    }
                    r.push(op);
                    proof {
                        assert(view_ops(r@) =~= sv.take(i as int).filter_map(f) + seq![
                            string_op(docid, sv[i as int]).unwrap(),
                        ]);
                    }
                },
                Err(_) => {
                    proof {
                        assert(string_op(docid, sv[i as int]) is None);
                        assert(view_ops(r@) =~= sv.take(i as int).filter_map(f));
                    }
                },
            }
            i = i + 1;
        }
        proof {
            assert(sv.take(n as int) =~= sv);
        }
        let ghost string_part = sv.filter_map(f);
        let m = self.f64s.len();
        let mut j: usize = 0;
        while j < m
            invariant
                m == self.f64s@.len(),
                j <= m,
                fv == self.f64s_view(),
                g == (|e: FacetEntryV| f64_op(docid, e)),
                sv == self.strings_view(),
                f == (|e: FacetEntryV| string_op(docid, e)),
                string_part == sv.filter_map(f),
                view_ops(r@) == string_part + fv.take(j as int).map_values(g),
            decreases m - j,
        {
            let entry = &self.f64s[j];
            proof {
                assert(fv[j as int] == (entry.0, entry.1@, entry.2));
            }
            let key = encode_f64_doc_key(entry.0, docid, &entry.1);
            let op = match entry.2 {
                DelAdd::Addition => FacetOp::WriteF64 { key },
                DelAdd::Deletion => FacetOp::DeleteF64 { key },
            };
            proof {
                assert(op@ == f64_op(docid, fv[j as int]));
            }
            let ghost prev = r@;
            let ghost opv = op@;
            r.push(op);
            proof {
                assert(fv.take(j + 1).map_values(g) =~= fv.take(j as int).map_values(g).push(
                    f64_op(docid, fv[j as int]),
                ));
                assert(view_ops(r@) =~= view_ops(prev).push(opv));
                assert(view_ops(prev).push(opv) =~= string_part + fv.take(j + 1).map_values(g));
                assert(view_ops(r@) =~= string_part + fv.take(j + 1).map_values(g));
            }
            j = j + 1;
        }
        proof {
            assert(fv.take(m as int) =~= fv);
            assert(view_ops(r@) =~= send_data_spec(sv, fv, docid));
        }
        r
    }
}

/// A sequence of reconciler steps: the side inserted and the key.
pub type ReconcilerOp = (DelAdd, FacetKeyV);

/// The map a sequence of insertions leaves behind, starting from `m`.
pub open spec fn apply_ops(m: Map<FacetKeyV, DelAdd>, ops: Seq<ReconcilerOp>) -> Map<
    FacetKeyV,
    DelAdd,
>
    decreases ops.len(),
{
    if ops.len() == 0 {
        m
    } else {
        spec_insert(apply_ops(m, ops.drop_last()), ops.last().1, ops.last().0)
    }
}

/// How many steps of a sequence insert the given side for the given
/// key.
pub open spec fn count_side(ops: Seq<ReconcilerOp>, k: FacetKeyV, side: DelAdd) -> nat
    decreases ops.len(),
{
    if ops.len() == 0 {
        0
    } else {
        count_side(ops.drop_last(), k, side) + (if ops.last().1 == k && ops.last().0 == side {
            1nat
        } else {
            0nat
        })
    }
}

/// Steps of a concatenation apply in sequence.
pub proof fn lemma_apply_ops_append(
    m: Map<FacetKeyV, DelAdd>,
    a: Seq<ReconcilerOp>,
    b: Seq<ReconcilerOp>,
)
    ensures
        apply_ops(m, a + b) == apply_ops(apply_ops(m, a), b),
    decreases b.len(),
{
    if b.len() == 0 {
        assert(a + b =~= a);
    } else {
        assert((a + b).drop_last() =~= a + b.drop_last());
        assert((a + b).last() == b.last());
        lemma_apply_ops_append(m, a, b.drop_last());
    }
}

/// After steps that touch every key at most once per side, the map
/// holds a key exactly when one side touched it, with that side.
proof fn lemma_apply_ops_characterize(ops: Seq<ReconcilerOp>)
    requires
        forall|k: FacetKeyV|
            #![trigger count_side(ops, k, DelAdd::Addition)]
            count_side(ops, k, DelAdd::Addition) <= 1 && count_side(ops, k, DelAdd::Deletion) <= 1,
    ensures
        forall|k: FacetKeyV|
            #![trigger apply_ops(Map::empty(), ops).contains_key(k)]
            {
                let a = count_side(ops, k, DelAdd::Addition);
                let d = count_side(ops, k, DelAdd::Deletion);
                let m = apply_ops(Map::empty(), ops);
                (m.contains_key(k) <==> a + d == 1) && (a == 1 && d == 0 ==> m.contains_key(k)
                    && m[k] == DelAdd::Addition) && (d == 1 && a == 0 ==> m.contains_key(k) && m[k]
                    == DelAdd::Deletion)
            },
    decreases ops.len(),
{
    if ops.len() > 0 {
        let rest = ops.drop_last();
        assert forall|k: FacetKeyV|
            #![trigger count_side(rest, k, DelAdd::Addition)]
            count_side(rest, k, DelAdd::Addition) <= 1 && count_side(rest, k, DelAdd::Deletion)
                <= 1 by {
            assert(count_side(ops, k, DelAdd::Addition) <= 1);
        }
        lemma_apply_ops_characterize(rest);
        let last = ops.last();
        assert forall|k: FacetKeyV|
            #![trigger apply_ops(Map::empty(), ops).contains_key(k)]
            {
                let a = count_side(ops, k, DelAdd::Addition);
                let d = count_side(ops, k, DelAdd::Deletion);
                let m = apply_ops(Map::empty(), ops);
                (m.contains_key(k) <==> a + d == 1) && (a == 1 && d == 0 ==> m.contains_key(k)
                    && m[k] == DelAdd::Addition) && (d == 1 && a == 0 ==> m.contains_key(k) && m[k]
                    == DelAdd::Deletion)
            } by {
            assert(apply_ops(Map::empty(), rest).contains_key(k) <==> count_side(
                rest,
                k,
                DelAdd::Addition,
            ) + count_side(rest, k, DelAdd::Deletion) == 1);
            assert(count_side(ops, k, DelAdd::Addition) <= 1);
            if k != last.1 {
                assert(count_side(ops, k, DelAdd::Addition) == count_side(
                    rest,
                    k,
                    DelAdd::Addition,
                ));
            }
        }
    }
}

/// Reconciler cancellation: start from nothing, touch every key with
/// exactly one deletion and one addition, in any interleaving, and
/// nothing remains.  Combined with `lemma_flush_of_empty`, a flush of
/// such a reconciler sends no records.
pub proof fn lemma_reconciler_cancellation(ops: Seq<ReconcilerOp>)
    requires
        forall|k: FacetKeyV|
            #![trigger count_side(ops, k, DelAdd::Addition)]
            count_side(ops, k, DelAdd::Addition) == count_side(ops, k, DelAdd::Deletion)
                && count_side(ops, k, DelAdd::Addition) <= 1,
    ensures
        apply_ops(Map::empty(), ops) == Map::<FacetKeyV, DelAdd>::empty(),
{
    lemma_apply_ops_characterize(ops);
    let m = apply_ops(Map::empty(), ops);
    assert forall|k: FacetKeyV| !(#[trigger] m.contains_key(k)) by {
        assert(count_side(ops, k, DelAdd::Addition) == count_side(ops, k, DelAdd::Deletion));
        assert(m.contains_key(k) <==> count_side(ops, k, DelAdd::Addition) + count_side(
            ops,
            k,
            DelAdd::Deletion,
        ) == 1);
    }
    assert(m =~= Map::<FacetKeyV, DelAdd>::empty());
}

/// Reconciler idempotence: inserting the same side for the same key
/// twice in a row leaves the same map as inserting it once, as long
/// as the key does not currently hold the opposing side.  (When it
/// does, the first insertion cancels and the second re-adds, so the
/// two differ by design.)
pub proof fn lemma_insert_idempotent(m: Map<FacetKeyV, DelAdd>, k: FacetKeyV, side: DelAdd)
    requires
        !(m.contains_key(k) && m[k] == opposite(side)),
    ensures
        spec_insert(spec_insert(m, k, side), k, side) == spec_insert(m, k, side),
{
    assert(spec_insert(spec_insert(m, k, side), k, side) =~= spec_insert(m, k, side));
}

/// A well-formed reconciler whose maps are empty stores no entries,
/// so its flush sends nothing.
pub proof fn lemma_flush_of_empty(strings: Seq<FacetEntryV>, f64s: Seq<FacetEntryV>, docid: u32)
    requires
        unique_keys(strings),
        unique_keys(f64s),
        entries_map(strings) == Map::<FacetKeyV, DelAdd>::empty(),
        entries_map(f64s) == Map::<FacetKeyV, DelAdd>::empty(),
    ensures
        send_data_spec(strings, f64s, docid) == Seq::<FacetOpV>::empty(),
{
    if strings.len() > 0 {
        lemma_entries_map_index(strings, 0);
    }
    if f64s.len() > 0 {
        lemma_entries_map_index(f64s, 0);
    }
    assert(strings.filter_map(|e: FacetEntryV| string_op(docid, e)) =~= Seq::<FacetOpV>::empty());
    assert(f64s.map_values(|e: FacetEntryV| f64_op(docid, e)) =~= Seq::<FacetOpV>::empty());
    assert(send_data_spec(strings, f64s, docid) =~= Seq::<FacetOpV>::empty());
}

} // verus!
