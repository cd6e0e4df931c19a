//! Merging two keyed entry lists, newer over older.
//!
//! A merged view of per-embedder entries shows everything the new
//! document carries, then whatever the stored document carries under
//! names the new document does not; lookups prefer the new side the
//! same way.  The entries themselves are opaque to the merge.

use vstd::prelude::*;

use crate::codec::bytes_eq;

verus! {

/// The names a keyed entry list carries.
pub open spec fn entry_names<V>(s: Seq<(Vec<u8>, V)>) -> Seq<Seq<u8>> {
    s.map_values(|e: (Vec<u8>, V)| e.0@)
}

/// Whether a keyed entry list carries a name.
pub open spec fn has_name<V>(s: Seq<(Vec<u8>, V)>, name: Seq<u8>) -> bool {
    entry_names(s).contains(name)
}

/// Whether a name is among the first `n` entries of a list.
fn name_in_prefix<V>(entries: &Vec<(Vec<u8>, V)>, n: usize, name: &Vec<u8>) -> (r: bool)
    requires
        n <= entries@.len(),
    ensures
        r == entry_names(entries@.take(n as int)).contains(name@),
{
    let mut i: usize = 0;
    while i < n
        invariant
            n <= entries@.len(),
            i <= n,
            forall|j: int| 0 <= j < i ==> entry_names(entries@)[j] != name@,
        decreases n - i,
    {
        if bytes_eq(&entries[i].0, name) {
            proof {
                assert(entry_names(entries@.take(n as int))[i as int] == name@);
            }
            return true;
        }
        i = i + 1;
    }
    proof {
        if entry_names(entries@.take(n as int)).contains(name@) {
            let j = choose|j: int|
                0 <= j < n && entry_names(entries@.take(n as int))[j] == name@;
            assert(entry_names(entries@)[j] == name@);
        }
    }
    false
}

/// Merges the stored entries under the new ones: everything from the
/// new list, then each stored entry whose name the new list does not
/// carry, keeping both orders.
pub fn merge_keyed_entries<V>(new_doc: Vec<(Vec<u8>, V)>, db: Vec<(Vec<u8>, V)>) -> (r: Vec<
    (Vec<u8>, V),
>)
    ensures
        r@ == new_doc@ + db@.filter(|e: (Vec<u8>, V)| !has_name(new_doc@, e.0@)),
{
    let ghost new0 = new_doc@;
    let ghost pred: spec_fn((Vec<u8>, V)) -> bool = |e: (Vec<u8>, V)| !has_name(new0, e.0@);
    let n_new = new_doc.len();
    let mut out = new_doc;
    let mut db = db;
    let ghost db0 = db@;
    let n = db.len();
    let mut k: usize = 0;
    proof {
        assert(db0.take(0).filter(pred) =~= Seq::<(Vec<u8>, V)>::empty());
        assert(out@ =~= new0 + db0.take(0).filter(pred));
        assert(db@ =~= db0.skip(0));
    }
    while db.len() > 0
        invariant
            k <= n,
            db0.len() == n,
            n_new == new0.len(),
            db@ == db0.skip(k as int),
            n_new <= out@.len(),
            forall|j: int| 0 <= j < n_new ==> out@[j] == new0[j],
            pred == (|e: (Vec<u8>, V)| !has_name(new0, e.0@)),
            out@ == new0 + db0.take(k as int).filter(pred),
        decreases db@.len(),
    {
        let e = db.remove(0);
        proof {
            assert(e == db0[k as int]);
            assert(db@ =~= db0.skip(k + 1));
        }
        let name_present = name_in_prefix(&out, n_new, &e.0);
        proof {
            assert(out@.take(n_new as int) =~= new0);
            assert(db0.take(k + 1).drop_last() =~= db0.take(k as int));
            assert(db0.take(k + 1).last() == db0[k as int]);
            reveal(Seq::filter);
        }
        if !name_present {
            out.push(e);
        }
        proof {
            assert(out@ =~= new0 + db0.take(k + 1).filter(pred));
        }
        k = k + 1;
    }
    proof {
        assert(db0.take(n as int) =~= db0);
    }
    out
}

} // verus!
