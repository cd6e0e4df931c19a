//! Balanced cache: a per-worker, bucketed, memory-bounded accumulator
//! of `(key, document id, del/add)` facts.
//!
//! Keys are hashed into one of `N` buckets (`N` = worker count) so the
//! downstream merge can proceed bucket-parallel without re-shuffling.
//! Within a bucket, facts accumulate in memory; when the worker's
//! budget is reached the live portion moves onto a run and memory is
//! taken as freed.  Nothing is ever lost: the contents — the set of
//! all recorded facts across runs and live entries — only grow, by
//! exactly the fact each insert records.

use vstd::prelude::*;

use crate::codec::{bytes_eq, bytes_lex_cmp, lemma_lex_cmp_antisymmetric, lemma_lex_cmp_transitive, lex_cmp};
use crate::reconciler::DelAdd;
use crate::MAX_LMDB_KEY_LENGTH;

verus! {

/// One recorded fact: a cache key, a document id, and the side.
pub type CacheTriple = (Seq<u8>, u32, DelAdd);

/// The FNV-1a offset basis.
pub const FNV_OFFSET: u64 = 0xcbf2_9ce4_8422_2325;

/// The FNV-1a prime.
pub const FNV_PRIME: u64 = 0x100_0000_01b3;

/// One FNV-1a round.
pub open spec fn fnv1a_step(h: u64, b: u8) -> u64 {
    vstd::wrapping::u64_specs::wrapping_mul(h ^ (b as u64), FNV_PRIME)
}

/// The FNV-1a hash of a byte string; every worker hashes a key to the
/// same value, so equal keys land in the same bucket everywhere.
pub open spec fn spec_fnv1a(s: Seq<u8>) -> u64
    decreases s.len(),
{
    if s.len() == 0 {
        FNV_OFFSET
    } else {
        fnv1a_step(spec_fnv1a(s.drop_last()), s.last())
    }
}

/// The bucket a key belongs to among `n` buckets.
pub open spec fn spec_bucket_of(key: Seq<u8>, n: int) -> int
    recommends
        n >= 1,
{
    spec_fnv1a(key) as int % n
}

/// Computes the FNV-1a hash of a key.
fn fnv1a(key: &Vec<u8>) -> (r: u64)
    ensures
        r == spec_fnv1a(key@),
{
    let n = key.len();
    let mut h: u64 = FNV_OFFSET;
    let mut i: usize = 0;
    while i < n
        invariant
            n == key@.len(),
            i <= n,
            h == spec_fnv1a(key@.take(i as int)),
        decreases n - i,
    {
        h = (h ^ (key[i] as u64)).wrapping_mul(FNV_PRIME);
        proof {
            assert(key@.take(i + 1).drop_last() =~= key@.take(i as int));
            assert(key@.take(i + 1).last() == key@[i as int]);
        }
        i = i + 1;
    }
    proof {
        assert(key@.take(n as int) =~= key@);
    }
    h
}

/// Computes the bucket a key belongs to.
fn bucket_of(key: &Vec<u8>, n: usize) -> (r: usize)
    requires
        n >= 1,
    ensures
        r == spec_bucket_of(key@, n as int),
        r < n,
{
    let h = fnv1a(key);
    (h % (n as u64)) as usize
}

/// One live cache entry: a key and the document ids recorded for it
/// on each side.
pub struct CacheEntry {
    key: Vec<u8>,
    dels: Vec<u32>,
    adds: Vec<u32>,
}

/// One bucket: the live in-memory entries and the runs already
/// spilled, oldest first.
pub struct Bucket {
    live: Vec<CacheEntry>,
    runs: Vec<Vec<CacheEntry>>,
}

/// The facts one entry records.
pub closed spec fn entry_triples(e: CacheEntry) -> Set<CacheTriple> {
    Set::new(
        |t: CacheTriple|
            t.0 == e.key@ && ((t.2 == DelAdd::Deletion && e.dels@.contains(t.1)) || (t.2
                == DelAdd::Addition && e.adds@.contains(t.1))),
    )
}

/// The facts a list of entries records.
pub closed spec fn seq_triples(s: Seq<CacheEntry>) -> Set<CacheTriple>
    decreases s.len(),
{
    if s.len() == 0 {
        Set::empty()
    } else {
        seq_triples(s.drop_last()).union(entry_triples(s.last()))
    }
}

/// The facts a list of runs records.
pub closed spec fn runs_triples(rs: Seq<Vec<CacheEntry>>) -> Set<CacheTriple>
    decreases rs.len(),
{
    if rs.len() == 0 {
        Set::empty()
    } else {
        runs_triples(rs.drop_last()).union(seq_triples(rs.last()@))
    }
}

/// The facts one bucket records, runs and live together.
pub closed spec fn bucket_triples(b: Bucket) -> Set<CacheTriple> {
    runs_triples(b.runs@).union(seq_triples(b.live@))
}

/// The facts a list of buckets records.
pub closed spec fn buckets_triples(bs: Seq<Bucket>) -> Set<CacheTriple>
    decreases bs.len(),
{
    if bs.len() == 0 {
        Set::empty()
    } else {
        buckets_triples(bs.drop_last()).union(bucket_triples(bs.last()))
    }
}

/// A pushed element is what membership gains.
proof fn lemma_push_contains<T>(s: Seq<T>, v: T, x: T)
    ensures
        s.push(v).contains(x) <==> (s.contains(x) || x == v),
{
    if s.push(v).contains(x) {
        let i = choose|i: int| 0 <= i < s.push(v).len() && s.push(v)[i] == x;
        if i < s.len() {
            assert(s[i] == x);
        }
    }
    if s.contains(x) {
        let i = choose|i: int| 0 <= i < s.len() && s[i] == x;
        assert(s.push(v)[i] == x);
    }
    if x == v {
        assert(s.push(v)[s.len() as int] == x);
    }
}

/// Replacing one entry whose facts grow by `extra` grows the list's
/// facts by `extra`.
proof fn lemma_seq_triples_update(s: Seq<CacheEntry>, i: int, e2: CacheEntry, extra: Set<CacheTriple>)
    requires
        0 <= i < s.len(),
        entry_triples(e2) == entry_triples(s[i]).union(extra),
    ensures
        seq_triples(s.update(i, e2)) == seq_triples(s).union(extra),
    decreases s.len(),
{
    if i == s.len() - 1 {
        assert(s.update(i, e2).drop_last() =~= s.drop_last());
        assert(s.update(i, e2).last() == e2);
        assert(seq_triples(s.drop_last()).union(entry_triples(s[i]).union(extra)) =~= seq_triples(
            s.drop_last(),
        ).union(entry_triples(s[i])).union(extra));
    } else {
        assert(s.update(i, e2).drop_last() =~= s.drop_last().update(i, e2));
        assert(s.update(i, e2).last() == s.last());
        lemma_seq_triples_update(s.drop_last(), i, e2, extra);
        assert(seq_triples(s.drop_last()).union(extra).union(entry_triples(s.last()))
            =~= seq_triples(s.drop_last()).union(entry_triples(s.last())).union(extra));
    }
}

/// Appending an entry adds exactly its facts.
proof fn lemma_seq_triples_push(s: Seq<CacheEntry>, e: CacheEntry)
    ensures
        seq_triples(s.push(e)) == seq_triples(s).union(entry_triples(e)),
{
    assert(s.push(e).drop_last() =~= s);
    assert(s.push(e).last() == e);
}

/// Appending a run adds exactly its facts.
proof fn lemma_runs_triples_push(rs: Seq<Vec<CacheEntry>>, v: Vec<CacheEntry>)
    ensures
        runs_triples(rs.push(v)) == runs_triples(rs).union(seq_triples(v@)),
{
    assert(rs.push(v).drop_last() =~= rs);
    assert(rs.push(v).last() == v);
}

/// Replacing one bucket whose facts grow by `extra` grows the cache's
/// facts by `extra`.
proof fn lemma_buckets_triples_update(
    bs: Seq<Bucket>,
    b: int,
    nb: Bucket,
    extra: Set<CacheTriple>,
)
    requires
        0 <= b < bs.len(),
        bucket_triples(nb) == bucket_triples(bs[b]).union(extra),
    ensures
        buckets_triples(bs.update(b, nb)) == buckets_triples(bs).union(extra),
    decreases bs.len(),
{
    if b == bs.len() - 1 {
        assert(bs.update(b, nb).drop_last() =~= bs.drop_last());
        assert(bs.update(b, nb).last() == nb);
        assert(buckets_triples(bs.drop_last()).union(bucket_triples(bs[b]).union(extra))
            =~= buckets_triples(bs.drop_last()).union(bucket_triples(bs[b])).union(extra));
    } else {
        assert(bs.update(b, nb).drop_last() =~= bs.drop_last().update(b, nb));
        assert(bs.update(b, nb).last() == bs.last());
        lemma_buckets_triples_update(bs.drop_last(), b, nb, extra);
        assert(buckets_triples(bs.drop_last()).union(extra).union(bucket_triples(bs.last()))
            =~= buckets_triples(bs.drop_last()).union(bucket_triples(bs.last())).union(extra));
    }
}

/// A fact is in a list's facts exactly when one entry records it.
proof fn lemma_seq_triples_member(s: Seq<CacheEntry>, t: CacheTriple)
    ensures
        seq_triples(s).contains(t) <==> exists|i: int|
            0 <= i < s.len() && entry_triples(#[trigger] s[i]).contains(t),
    decreases s.len(),
{
    if s.len() > 0 {
        lemma_seq_triples_member(s.drop_last(), t);
        if seq_triples(s).contains(t) {
            if entry_triples(s.last()).contains(t) {
                assert(entry_triples(s[s.len() - 1]).contains(t));
            } else {
                let i = choose|i: int|
                    0 <= i < s.drop_last().len() && entry_triples(
                        #[trigger] s.drop_last()[i],
                    ).contains(t);
                assert(entry_triples(s[i]).contains(t));
            }
        }
        if exists|i: int| 0 <= i < s.len() && entry_triples(#[trigger] s[i]).contains(t) {
            let i = choose|i: int| 0 <= i < s.len() && entry_triples(#[trigger] s[i]).contains(t);
            if i < s.len() - 1 {
                assert(entry_triples(s.drop_last()[i]).contains(t));
            }
        }
    }
}

/// A fact is in a run list's facts exactly when one run records it.
proof fn lemma_runs_triples_member(rs: Seq<Vec<CacheEntry>>, t: CacheTriple)
    ensures
        runs_triples(rs).contains(t) <==> exists|r: int|
            0 <= r < rs.len() && seq_triples((#[trigger] rs[r])@).contains(t),
    decreases rs.len(),
{
    if rs.len() > 0 {
        lemma_runs_triples_member(rs.drop_last(), t);
        if runs_triples(rs).contains(t) {
            if seq_triples(rs.last()@).contains(t) {
                assert(seq_triples((rs[rs.len() - 1])@).contains(t));
            } else {
                let r = choose|r: int|
                    0 <= r < rs.drop_last().len() && seq_triples(
                        (#[trigger] rs.drop_last()[r])@,
                    ).contains(t);
                assert(seq_triples((rs[r])@).contains(t));
            }
        }
        if exists|r: int| 0 <= r < rs.len() && seq_triples((#[trigger] rs[r])@).contains(t) {
            let r = choose|r: int|
                0 <= r < rs.len() && seq_triples((#[trigger] rs[r])@).contains(t);
            if r < rs.len() - 1 {
                assert(seq_triples((rs.drop_last()[r])@).contains(t));
            }
        }
    }
}

/// A fact is in the cache's facts exactly when one bucket records it.
proof fn lemma_buckets_triples_member(bs: Seq<Bucket>, t: CacheTriple)
    ensures
        buckets_triples(bs).contains(t) <==> exists|b: int|
            0 <= b < bs.len() && bucket_triples(#[trigger] bs[b]).contains(t),
    decreases bs.len(),
{
    if bs.len() > 0 {
        lemma_buckets_triples_member(bs.drop_last(), t);
        if buckets_triples(bs).contains(t) {
            if bucket_triples(bs.last()).contains(t) {
                assert(bucket_triples(bs[bs.len() - 1]).contains(t));
            } else {
                let b = choose|b: int|
                    0 <= b < bs.drop_last().len() && bucket_triples(
                        #[trigger] bs.drop_last()[b],
                    ).contains(t);
                assert(bucket_triples(bs[b]).contains(t));
            }
        }
        if exists|b: int| 0 <= b < bs.len() && bucket_triples(#[trigger] bs[b]).contains(t) {
            let b = choose|b: int| 0 <= b < bs.len() && bucket_triples(#[trigger] bs[b]).contains(t);
            if b < bs.len() - 1 {
                assert(bucket_triples(bs.drop_last()[b]).contains(t));
            }
        }
    }
}

/// A fact recorded by a partitioned bucket carries a key that hashes
/// to that bucket.
proof fn lemma_partitioned_member(b: Bucket, idx: int, n: int, t: CacheTriple)
    requires
        bucket_partitioned(b, idx, n),
        bucket_triples(b).contains(t),
    ensures
        spec_bucket_of(t.0, n) == idx,
{
    if seq_triples(b.live@).contains(t) {
        lemma_seq_triples_member(b.live@, t);
        let i = choose|i: int|
            0 <= i < b.live@.len() && entry_triples(#[trigger] b.live@[i]).contains(t);
        assert(t.0 == b.live@[i].key@);
    } else {
        lemma_runs_triples_member(b.runs@, t);
        let r = choose|r: int|
            0 <= r < b.runs@.len() && seq_triples((#[trigger] b.runs@[r])@).contains(t);
        lemma_seq_triples_member(b.runs@[r]@, t);
        let i = choose|i: int|
            0 <= i < b.runs@[r]@.len() && entry_triples(#[trigger] b.runs@[r]@[i]).contains(t);
        assert(t.0 == b.runs@[r]@[i].key@);
    }
}

/// Every spilled run of the bucket is in ascending key order,
/// merge-ready.
pub closed spec fn runs_sorted(b: Bucket) -> bool {
    forall|r: int| 0 <= r < b.runs@.len() ==> sorted_by_key((#[trigger] b.runs@[r])@)
}

/// Every entry of the bucket holds a key that hashes to it.
pub closed spec fn bucket_partitioned(b: Bucket, idx: int, n: int) -> bool {
    (forall|i: int|
        0 <= i < b.live@.len() ==> spec_bucket_of((#[trigger] b.live@[i]).key@, n) == idx)
        && (forall|r: int, i: int|
        0 <= r < b.runs@.len() && 0 <= i < b.runs@[r]@.len() ==> spec_bucket_of(
            (#[trigger] b.runs@[r]@[i]).key@,
            n,
        ) == idx)
}

/// Entries in ascending key order.
pub closed spec fn sorted_by_key(s: Seq<CacheEntry>) -> bool {
    forall|a: int, b: int|
        0 <= a < b < s.len() ==> lex_cmp((#[trigger] s[a]).key@, (#[trigger] s[b]).key@) <= 0
}

/// Lists with the same entries record the same facts.
proof fn lemma_seq_triples_permutation(a: Seq<CacheEntry>, b: Seq<CacheEntry>)
    requires
        a.to_multiset() == b.to_multiset(),
    ensures
        seq_triples(a) == seq_triples(b),
{
    broadcast use vstd::seq_lib::group_to_multiset_ensures;

    assert forall|t: CacheTriple|
        seq_triples(a).contains(t) <==> #[trigger] seq_triples(b).contains(t) by {
        lemma_seq_triples_member(a, t);
        lemma_seq_triples_member(b, t);
        if seq_triples(a).contains(t) {
            let i = choose|i: int|
                0 <= i < a.len() && entry_triples(#[trigger] a[i]).contains(t);
            assert(a.contains(a[i]));
            assert(a.to_multiset().count(a[i]) > 0);
            assert(b.to_multiset().count(a[i]) > 0);
            assert(b.contains(a[i]));
            let j = choose|j: int| 0 <= j < b.len() && b[j] == a[i];
            assert(entry_triples(b[j]).contains(t));
        }
        if seq_triples(b).contains(t) {
            let i = choose|i: int|
                0 <= i < b.len() && entry_triples(#[trigger] b[i]).contains(t);
            assert(b.contains(b[i]));
            assert(b.to_multiset().count(b[i]) > 0);
            assert(a.to_multiset().count(b[i]) > 0);
            assert(a.contains(b[i]));
            let j = choose|j: int| 0 <= j < a.len() && a[j] == b[i];
            assert(entry_triples(a[j]).contains(t));
        }
    }
    assert(seq_triples(a) =~= seq_triples(b));
}

/// Sorts entries by key with binary-free insertion: each element
/// moves left to the first place it fits.  The entries are a
/// rearrangement of what they were.
fn sort_entries(entries: &mut Vec<CacheEntry>)
    ensures
        final(entries)@.to_multiset() == old(entries)@.to_multiset(),
        final(entries)@.len() == old(entries)@.len(),
        sorted_by_key(final(entries)@),
{
    broadcast use vstd::seq_lib::group_to_multiset_ensures;

    let ghost m0 = entries@.to_multiset();
    let n = entries.len();
    if n == 0 {
        return ;
    }
    let mut i: usize = 1;
    while i < n
        invariant
            n == entries@.len(),
            1 <= i <= n,
            entries@.to_multiset() == m0,
            sorted_by_key(entries@.take(i as int)),
        decreases n - i,
    {
        let ghost s = entries@;
        // find the first place the element at `i` no longer fits after
        let mut p: usize = 0;
        let mut stop = false;
        while p < i && !stop
            invariant
                i < n == entries@.len(),
                p <= i,
                s == entries@,
                forall|j: int|
                    0 <= j < p ==> lex_cmp((#[trigger] s[j]).key@, s[i as int].key@) <= 0,
                stop ==> p < i && lex_cmp(s[p as int].key@, s[i as int].key@) > 0,
            decreases i - p + (if stop { 0int } else { 1int }),
        {
            let c = bytes_lex_cmp(&entries[p].key, &entries[i].key);
            if c > 0 {
                stop = true;
            } else {
                p = p + 1;
            }
        }
        if p < i {
            let e = entries.remove(i);
            entries.insert(p, e);
            proof {
                let s2 = entries@;
                assert(s2 == s.remove(i as int).insert(p as int, e));
                // where every element landed
                assert forall|idx: int| 0 <= idx < s2.len() implies s2[idx] == (if idx < p {
                    s[idx]
                } else if idx == p {
                    e
                } else if idx <= i {
                    s[idx - 1]
                } else {
                    s[idx]
                }) by {
                    assert(s2[idx] == s.remove(i as int).insert(p as int, e)[idx]);
                }
                // the moved prefix stays sorted
                assert forall|a: int, b: int|
                    0 <= a < b < i + 1 implies lex_cmp(
                    (#[trigger] s2[a]).key@,
                    (#[trigger] s2[b]).key@,
                ) <= 0 by {
                    lemma_lex_cmp_antisymmetric(s[p as int].key@, s[i as int].key@);
                    assert(lex_cmp(e.key@, s[p as int].key@) <= 0);
                    if a == p && b > p {
                        if b - 1 > p {
                            assert(s.take(i as int)[p as int] == s[p as int]);
                            assert(s.take(i as int)[b - 1] == s[b - 1]);
                            lemma_lex_cmp_transitive(e.key@, s[p as int].key@, s[b - 1].key@);
                        }
                    }
                    if a < p && b == p {
                        assert(lex_cmp(s[a].key@, e.key@) <= 0);
                    }
                    if a < p && b > p {
                        assert(s.take(i as int)[a] == s[a]);
                        if b <= i {
                            assert(s.take(i as int)[b - 1] == s[b - 1]);
                        }
                    }
                    if a > p && b > p {
                        assert(s.take(i as int)[a - 1] == s[a - 1]);
                        assert(s.take(i as int)[b - 1] == s[b - 1]);
                    }
                }
                assert(sorted_by_key(s2.take(i + 1)));
                // nothing joined or left: remove then insert of one
                // element keeps the entries
                assert(s.contains(s[i as int]));
                s.to_multiset_ensures();
                vstd::seq_lib::to_multiset_remove(s, i as int);
                vstd::seq_lib::to_multiset_insert(s.remove(i as int), p as int, e);
                assert(s.to_multiset().count(e) > 0);
                assert(s2.to_multiset() == s.remove(i as int).insert(p as int, e).to_multiset());
                assert(s.remove(i as int).insert(p as int, e).to_multiset() =~= s.remove(
                    i as int,
                ).to_multiset().insert(e));
                assert(s.remove(i as int).to_multiset() =~= s.to_multiset().remove(e));
                assert(s.to_multiset().remove(e).insert(e) =~= s.to_multiset());
            }
        } else {
            proof {
                assert forall|a: int, b: int|
                    0 <= a < b < i + 1 implies lex_cmp(
                    (#[trigger] entries@[a]).key@,
                    (#[trigger] entries@[b]).key@,
                ) <= 0 by {
                    if b < i {
                        assert(entries@.take(i as int)[a] == entries@[a]);
                        assert(entries@.take(i as int)[b] == entries@[b]);
                    }
                }
                assert(sorted_by_key(entries@.take(i + 1)));
            }
        }
        i = i + 1;
    }
    proof {
        assert(entries@.take(n as int) =~= entries@);
    }
}

/// Membership of a document id in a list.
fn contains_u32(v: &Vec<u32>, x: u32) -> (r: bool)
    ensures
        r == v@.contains(x),
{
    let n = v.len();
    let mut i: usize = 0;
    while i < n
        invariant
            n == v@.len(),
            i <= n,
            forall|j: int| 0 <= j < i ==> v@[j] != x,
        decreases n - i,
    {
        if v[i] == x {
            return true;
        }
        i = i + 1;
    }
    false
}

/// Records a fact in one bucket: the document id joins the matching
/// live entry's side, or a fresh entry opens for the key.  The
/// bucket's facts grow by exactly the recorded fact; run contents and
/// the keys of existing live entries stay as they were.
fn bucket_insert(bucket: &mut Bucket, key: &Vec<u8>, docid: u32, side: DelAdd)
    ensures
        bucket_triples(*final(bucket)) == bucket_triples(*old(bucket)).insert(
            (key@, docid, side),
        ),
        final(bucket).runs@ == old(bucket).runs@,
        old(bucket).live@.len() <= final(bucket).live@.len(),
        forall|i: int|
            0 <= i < final(bucket).live@.len() ==> (i < old(bucket).live@.len() && (
            #[trigger] final(bucket).live@[i]).key@ == old(bucket).live@[i].key@) || final(
            bucket).live@[i].key@ == key@,
{
    let ghost t: CacheTriple = (key@, docid, side);
    let ghost live0 = bucket.live@;
    let n = bucket.live.len();
    let mut i: usize = 0;
    let mut found: bool = false;
    while i < n && !found
        invariant
            n == bucket.live@.len(),
            i <= n,
            live0 == bucket.live@,
            found ==> i < n && live0[i as int].key@ == key@,
        decreases n - i + (if found { 0int } else { 1int }),
    {
        if bytes_eq(&bucket.live[i].key, key) {
            found = true;
        } else {
            i = i + 1;
        }
    }
    if found {
        let entry = &mut bucket.live[i];
        match side {
            DelAdd::Deletion => entry.dels.push(docid),
            DelAdd::Addition => entry.adds.push(docid),
        }
        proof {
            let e2 = *entry;
            match side {
                DelAdd::Deletion => lemma_push_contains(live0[i as int].dels@, docid, 0u32),
                DelAdd::Addition => lemma_push_contains(live0[i as int].adds@, docid, 0u32),
            }
            assert forall|x: CacheTriple| #[trigger]
                entry_triples(e2).contains(x) <==> entry_triples(live0[i as int]).union(
                    Set::empty().insert(t),
                ).contains(x) by {
                match side {
                    DelAdd::Deletion => lemma_push_contains(live0[i as int].dels@, docid, x.1),
                    DelAdd::Addition => lemma_push_contains(live0[i as int].adds@, docid, x.1),
                }
            }
            assert(entry_triples(e2) =~= entry_triples(live0[i as int]).union(
                Set::empty().insert(t),
            ));
            lemma_seq_triples_update(live0, i as int, e2, Set::empty().insert(t));
            assert(bucket.live@ == live0.update(i as int, e2));
            assert(bucket_triples(*bucket) =~= bucket_triples(*old(bucket)).insert(t));
        }
    } else {
        let mut entry_key: Vec<u8> = Vec::new();
        entry_key.extend_from_slice(key.as_slice());
        assert(entry_key@ =~= key@);
        let mut dels: Vec<u32> = Vec::new();
        let mut adds: Vec<u32> = Vec::new();
        match side {
            DelAdd::Deletion => dels.push(docid),
            DelAdd::Addition => adds.push(docid),
        }
        let entry = CacheEntry { key: entry_key, dels, adds };
        proof {
            assert forall|x: CacheTriple| #[trigger]
                entry_triples(entry).contains(x) <==> x == t by {
                if entry_triples(entry).contains(x) {
                    assert(entry.dels@.contains(x.1) || entry.adds@.contains(x.1));
                    match side {
                        DelAdd::Deletion => {
                            assert(entry.adds@.len() == 0);
                            let j = choose|j: int|
                                0 <= j < entry.dels@.len() && entry.dels@[j] == x.1;
                            assert(x.1 == docid);
                        },
                        DelAdd::Addition => {
                            assert(entry.dels@.len() == 0);
                            let j = choose|j: int|
                                0 <= j < entry.adds@.len() && entry.adds@[j] == x.1;
                            assert(x.1 == docid);
                        },
                    }
                }
                if x == t {
                    match side {
                        DelAdd::Deletion => assert(entry.dels@[0] == docid),
                        DelAdd::Addition => assert(entry.adds@[0] == docid),
                    }
                }
            }
            assert(entry_triples(entry) =~= Set::empty().insert(t));
        }
        bucket.live.push(entry);
        proof {
            lemma_seq_triples_push(live0, entry);
            assert(seq_triples(live0).union(Set::empty().insert(t)) =~= seq_triples(
                live0,
            ).insert(t));
            assert(bucket_triples(*bucket) =~= bucket_triples(*old(bucket)).insert(t));
        }
    }
}

/// Per-worker bucketed cache of facet facts, bounded by a memory
/// budget; reaching the budget spills every bucket's live entries to
/// a run.
pub struct BalancedCaches {
    buckets: Vec<Bucket>,
    max_memory: usize,
    mem_used: usize,
}

impl BalancedCaches {
    /// All facts the cache records, across runs and live entries.
    pub closed spec fn contents(self) -> Set<CacheTriple> {
        buckets_triples(self.buckets@)
    }

    /// The number of buckets.
    pub closed spec fn n_buckets(self) -> int {
        self.buckets@.len() as int
    }

    /// The memory budget.
    pub closed spec fn max_memory(self) -> int {
        self.max_memory as int
    }

    /// Structural invariant: at least one bucket, every entry in the
    /// bucket its key hashes to, and a budget small enough that the
    /// accounting cannot overflow.
    pub closed spec fn wf_struct(self) -> bool {
        &&& self.buckets@.len() >= 1
        &&& self.max_memory <= usize::MAX / 2
        &&& forall|b: int|
            0 <= b < self.buckets@.len() ==> bucket_partitioned(
                #[trigger] self.buckets@[b],
                b,
                self.buckets@.len() as int,
            ) && runs_sorted(self.buckets@[b])
    }

    /// Full invariant: between inserts the cache sits within its
    /// budget (an insert that crosses it spills before returning).
    pub closed spec fn wf(self) -> bool {
        self.wf_struct() && self.mem_used <= self.max_memory
    }

    /// The memory currently charged against the budget.
    pub closed spec fn mem_used(self) -> int {
        self.mem_used as int
    }

    /// Between inserts the cache sits within its budget: an insert
    /// that crosses it spills and frees its charge before returning.
    pub proof fn lemma_within_budget(self)
        requires
            self.wf(),
        ensures
            self.mem_used() <= self.max_memory(),
    {
    }

    /// Whether any bucket has spilled a run so far.
    pub open spec fn spec_has_spilled(self) -> bool {
        exists|b: int| 0 <= b < self.n_buckets() && self.spec_bucket_runs(b) > 0
    }

    /// How many runs one bucket has spilled.
    pub closed spec fn spec_bucket_runs(self, b: int) -> int {
        if 0 <= b < self.buckets@.len() {
            self.buckets@[b].runs@.len() as int
        } else {
            0
        }
    }

    /// Whether any bucket has spilled a run so far.
    pub fn has_spilled(&self) -> (r: bool)
        ensures
            r == self.spec_has_spilled(),
    {
        let n = self.buckets.len();
        let mut b: usize = 0;
        while b < n
            invariant
                n == self.buckets@.len(),
                b <= n,
                forall|i: int| 0 <= i < b ==> self.spec_bucket_runs(i) == 0,
            decreases n - b,
        {
            if self.buckets[b].runs.len() > 0 {
                proof {
                    assert(self.spec_bucket_runs(b as int) > 0);
                }
                return true;
            }
            b = b + 1;
        }
        false
    }

    /// A fresh cache with the given bucket count and memory budget.
    pub fn new(buckets: usize, max_memory: usize) -> (r: Self)
        requires
            1 <= buckets,
            max_memory <= usize::MAX / 2,
        ensures
            r.wf(),
            r.contents() == Set::<CacheTriple>::empty(),
            r.n_buckets() == buckets,
            r.max_memory() == max_memory,
    {
        let mut bs: Vec<Bucket> = Vec::new();
        let mut i: usize = 0;
        while i < buckets
            invariant
                i == bs@.len(),
                i <= buckets,
                buckets_triples(bs@) == Set::<CacheTriple>::empty(),
                forall|b: int|
                    0 <= b < bs@.len() ==> bucket_partitioned(
                        #[trigger] bs@[b],
                        b,
                        buckets as int,
                    ) && runs_sorted(bs@[b]),
            decreases buckets - i,
        {
            let ghost bs0 = bs@;
            let nb = Bucket { live: Vec::new(), runs: Vec::new() };
            bs.push(nb);
            proof {
                assert(bs@.drop_last() =~= bs0);
                assert(seq_triples(nb.live@) =~= Set::<CacheTriple>::empty());
                assert(runs_triples(nb.runs@) =~= Set::<CacheTriple>::empty());
                assert(buckets_triples(bs@) =~= Set::<CacheTriple>::empty());
            }
            i = i + 1;
        }
        BalancedCaches { buckets: bs, max_memory, mem_used: 0 }
    }

    /// Moves every bucket's live entries onto a fresh run; no fact is
    /// lost or gained.
    fn spill_all(&mut self)
        requires
            old(self).wf_struct(),
        ensures
            final(self).wf_struct(),
            final(self).contents() == old(self).contents(),
            final(self).n_buckets() == old(self).n_buckets(),
            final(self).max_memory == old(self).max_memory,
            final(self).mem_used == old(self).mem_used,
    {
        let n = self.buckets.len();
        let mut b: usize = 0;
        while b < n
            invariant
                n == self.buckets@.len(),
                b <= n,
                self.wf_struct(),
                self.contents() == old(self).contents(),
                self.max_memory == old(self).max_memory,
                self.mem_used == old(self).mem_used,
            decreases n - b,
        {
            let ghost bs0 = self.buckets@;
            let bucket = &mut self.buckets[b];
            let ghost old_bucket = *bucket;
            let mut tmp: Vec<CacheEntry> = Vec::new();
            core::mem::swap(&mut tmp, &mut bucket.live);
            sort_entries(&mut tmp);
            bucket.runs.push(tmp);
            proof {
                let nb = *bucket;
                lemma_runs_triples_push(old_bucket.runs@, tmp);
                lemma_seq_triples_permutation(tmp@, old_bucket.live@);
                assert(seq_triples(nb.live@) =~= Set::<CacheTriple>::empty());
                assert(bucket_triples(nb) =~= bucket_triples(old_bucket).union(
                    Set::<CacheTriple>::empty(),
                ));
                lemma_buckets_triples_update(bs0, b as int, nb, Set::empty());
                assert(self.buckets@ == bs0.update(b as int, nb));
                assert(buckets_triples(self.buckets@) =~= buckets_triples(bs0));
                // partition: the new run carries the old live keys
                assert forall|bi: int|
                    0 <= bi < self.buckets@.len() implies bucket_partitioned(
                    #[trigger] self.buckets@[bi],
                    bi,
                    self.buckets@.len() as int,
                ) by {
                    if bi == b as int {
                        assert(nb.runs@ == old_bucket.runs@.push(tmp));
                        assert(bucket_partitioned(old_bucket, bi, bs0.len() as int));
                        assert forall|r: int, i: int|
                            0 <= r < nb.runs@.len() && 0 <= i < nb.runs@[r]@.len()
                                implies spec_bucket_of(
                            (#[trigger] nb.runs@[r]@[i]).key@,
                            bs0.len() as int,
                        ) == bi by {
                            if r < old_bucket.runs@.len() {
                                assert(nb.runs@[r] == old_bucket.runs@[r]);
                            } else {
                                assert(nb.runs@[r] == tmp);
                                tmp@.to_multiset_ensures();
                                old_bucket.live@.to_multiset_ensures();
                                assert(tmp@.contains(tmp@[i]));
                                assert(tmp@.to_multiset().count(tmp@[i]) > 0);
                                assert(old_bucket.live@.to_multiset().count(tmp@[i]) > 0);
                                assert(old_bucket.live@.contains(tmp@[i]));
                                let j = choose|j: int|
                                    0 <= j < old_bucket.live@.len() && old_bucket.live@[j]
                                        == tmp@[i];
                                assert(spec_bucket_of(old_bucket.live@[j].key@, bs0.len() as int)
                                    == bi);
                            }
                        }
                        assert(runs_sorted(nb)) by {
                            assert forall|r: int| 0 <= r < nb.runs@.len() implies sorted_by_key(
                                (#[trigger] nb.runs@[r])@,
                            ) by {
                                if r < old_bucket.runs@.len() {
                                    assert(nb.runs@[r] == old_bucket.runs@[r]);
                                } else {
                                    assert(nb.runs@[r] == tmp);
                                }
                            }
                        }
                    } else {
                        assert(self.buckets@[bi] == bs0[bi]);
                    }
                }
            }
            b = b + 1;
        }
    }

    /// Records one fact.  The contents grow by exactly that fact; a
    /// spill may move live entries to runs on the way, losing
    /// nothing.
    fn insert_impl(&mut self, key: &Vec<u8>, docid: u32, side: DelAdd)
        requires
            old(self).wf(),
            key@.len() <= crate::MAX_LMDB_KEY_LENGTH,
        ensures
            final(self).wf(),
            final(self).contents() == old(self).contents().insert((key@, docid, side)),
            final(self).n_buckets() == old(self).n_buckets(),
            final(self).max_memory() == old(self).max_memory(),
    {
        let ghost t: CacheTriple = (key@, docid, side);
        let n = self.buckets.len();
        let b = bucket_of(key, n);
        let ghost bs0 = self.buckets@;
        let bucket = &mut self.buckets[b];
        let ghost old_bucket = *bucket;
        bucket_insert(bucket, key, docid, side);
        proof {
            let nb = *bucket;
            assert(bucket_triples(nb) =~= bucket_triples(old_bucket).union(
                Set::empty().insert(t),
            ));
            lemma_buckets_triples_update(bs0, b as int, nb, Set::empty().insert(t));
            assert(self.buckets@ == bs0.update(b as int, nb));
            assert(buckets_triples(self.buckets@) =~= buckets_triples(bs0).insert(t));
            // partition is kept: new or touched entries hold this key
            assert forall|bi: int|
                0 <= bi < self.buckets@.len() implies bucket_partitioned(
                #[trigger] self.buckets@[bi],
                bi,
                self.buckets@.len() as int,
            ) && runs_sorted(self.buckets@[bi]) by {
                if bi == b as int {
                    assert(bucket_partitioned(old_bucket, bi, bs0.len() as int));
                    assert forall|i: int|
                        0 <= i < nb.live@.len() implies spec_bucket_of(
                        (#[trigger] nb.live@[i]).key@,
                        bs0.len() as int,
                    ) == bi by {
                        if i < old_bucket.live@.len() && nb.live@[i].key@
                            == old_bucket.live@[i].key@ {
                        } else {
                            assert(nb.live@[i].key@ == key@);
                        }
                    }
                    assert(runs_sorted(nb)) by {
                        assert(nb.runs@ == old_bucket.runs@);
                    }
                } else {
                    assert(self.buckets@[bi] == bs0[bi]);
                }
            }
        }
        // memory accounting: charge the key and a fixed per-fact
        // overhead, and spill once the budget is crossed
        let cost = key.len() + 16;
        let new_mem = self.mem_used + cost;
        self.mem_used = new_mem;
        if self.mem_used > self.max_memory {
            self.spill_all();
            self.mem_used = 0;
        }
    }

    /// Records that `docid` is deleted for `key`.
    pub fn insert_del_u32(&mut self, key: &Vec<u8>, docid: u32)
        requires
            old(self).wf(),
            key@.len() <= crate::MAX_LMDB_KEY_LENGTH,
        ensures
            final(self).wf(),
            final(self).contents() == old(self).contents().insert(
                (key@, docid, DelAdd::Deletion),
            ),
            final(self).n_buckets() == old(self).n_buckets(),
            final(self).max_memory() == old(self).max_memory(),
    {
        self.insert_impl(key, docid, DelAdd::Deletion)
    }

    /// Records that `docid` is added for `key`.
    pub fn insert_add_u32(&mut self, key: &Vec<u8>, docid: u32)
        requires
            old(self).wf(),
            key@.len() <= crate::MAX_LMDB_KEY_LENGTH,
        ensures
            final(self).wf(),
            final(self).contents() == old(self).contents().insert(
                (key@, docid, DelAdd::Addition),
            ),
            final(self).n_buckets() == old(self).n_buckets(),
            final(self).max_memory() == old(self).max_memory(),
    {
        self.insert_impl(key, docid, DelAdd::Addition)
    }

    /// Whether the cache records the given fact.
    pub fn contains(&self, key: &Vec<u8>, docid: u32, side: DelAdd) -> (r: bool)
        requires
            self.wf(),
        ensures
            r == self.contents().contains((key@, docid, side)),
    {
        let ghost t: CacheTriple = (key@, docid, side);
        let n = self.buckets.len();
        let b = bucket_of(key, n);
        let bucket = &self.buckets[b];
        let nr = bucket.runs.len();
        let mut r: usize = 0;
        while r < nr
            invariant
                nr == bucket.runs@.len(),
                r <= nr,
                t == (key@, docid, side),
                n == self.buckets@.len(),
                b < n,
                *bucket == self.buckets@[b as int],
                forall|ri: int|
                    0 <= ri < r ==> !seq_triples((#[trigger] bucket.runs@[ri])@).contains(t),
            decreases nr - r,
        {
            if Self::scan_entries(&bucket.runs[r], key, docid, side) {
                proof {
                    assert(seq_triples((bucket.runs@[r as int])@).contains(t));
                    lemma_runs_triples_member(bucket.runs@, t);
                    assert(bucket_triples(self.buckets@[b as int]).contains(t));
                    lemma_buckets_triples_member(self.buckets@, t);
                }
                return true;
            }
            r = r + 1;
        }
        if Self::scan_entries(&bucket.live, key, docid, side) {
            proof {
                assert(bucket_triples(self.buckets@[b as int]).contains(t));
                lemma_buckets_triples_member(self.buckets@, t);
            }
            return true;
        }
        proof {
            lemma_runs_triples_member(bucket.runs@, t);
            assert(!bucket_triples(*bucket).contains(t));
            lemma_buckets_triples_member(self.buckets@, t);
            if self.contents().contains(t) {
                let bi = choose|bi: int|
                    0 <= bi < self.buckets@.len() && bucket_triples(
                        #[trigger] self.buckets@[bi],
                    ).contains(t);
                lemma_partitioned_member(
                    self.buckets@[bi],
                    bi,
                    self.buckets@.len() as int,
                    t,
                );
            }
        }
        false
    }

    /// Whether one entry list records the given fact.
    fn scan_entries(entries: &Vec<CacheEntry>, key: &Vec<u8>, docid: u32, side: DelAdd) -> (r:
        bool)
        ensures
            r == seq_triples(entries@).contains((key@, docid, side)),
    {
        let ghost t: CacheTriple = (key@, docid, side);
        let n = entries.len();
        let mut i: usize = 0;
        while i < n
            invariant
                n == entries@.len(),
                i <= n,
                t == (key@, docid, side),
                forall|j: int| 0 <= j < i ==> !entry_triples(#[trigger] entries@[j]).contains(t),
            decreases n - i,
        {
            let entry = &entries[i];
            if bytes_eq(&entry.key, key) {
                let hit = match side {
                    DelAdd::Deletion => contains_u32(&entry.dels, docid),
                    DelAdd::Addition => contains_u32(&entry.adds, docid),
                };
                if hit {
                    proof {
                        lemma_seq_triples_member(entries@, t);
                    }
                    return true;
                }
            }
            i = i + 1;
        }
        proof {
            lemma_seq_triples_member(entries@, t);
        }
        false
    }
}

} // verus!
