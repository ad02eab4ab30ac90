//! Small byte-level lookup and decoding helpers shared by the typed
//! operations.

use vstd::prelude::*;

use crate::codec::DbKey;
use crate::error::DbError;
use crate::sort::{distinct_seq, lemma_deep_view_index, sorted_by_le};

verus! {

/// Some listed byte string decodes to this model.
pub open spec fn some_decodes_to<V: DbKey>(bs: Seq<Seq<u8>>, m: V::V) -> bool {
    exists|j: int| 0 <= j < bs.len() && V::decm(#[trigger] bs[j]) == Some(m)
}

/// Some byte string of the set decodes to this model.
pub open spec fn decoded_from<V: DbKey>(m: V::V, s: Set<Seq<u8>>) -> bool {
    exists|b: Seq<u8>| #[trigger] s.contains(b) && V::decm(b) == Some(m)
}

/// This byte string decodes to some listed model.
pub open spec fn decodes_into<V: DbKey>(b: Seq<u8>, ms: Seq<V::V>) -> bool {
    exists|i: int| 0 <= i < ms.len() && V::decm(b) == Some(#[trigger] ms[i])
}

/// Decodes every listed byte string and returns the decoded models, deduped
/// and in ascending order; fails with `CorruptData` exactly when some listed
/// byte string does not decode.
pub fn decode_sorted<V: DbKey>(vs: &Vec<Vec<u8>>) -> (r: Result<Vec<V>, DbError>)
    ensures
        match r {
            Ok(out) => {
                &&& sorted_by_le::<V>(out.deep_view())
                &&& distinct_seq(out.deep_view())
                &&& forall|i: int|
                    0 <= i < out.deep_view().len() ==> some_decodes_to::<V>(
                        vs.deep_view(),
                        #[trigger] out.deep_view()[i],
                    )
                &&& forall|j: int|
                    0 <= j < vs.deep_view().len() ==> decodes_into::<V>(
                        #[trigger] vs.deep_view()[j],
                        out.deep_view(),
                    )
            },
            Err(e) => e == DbError::CorruptData && exists|j: int|
                0 <= j < vs.deep_view().len() && V::decm(#[trigger] vs.deep_view()[j]) is None,
        },
{
    let mut decoded: Vec<V> = Vec::new();
    let mut j: usize = 0;
    proof {
        lemma_deep_view_index(vs);
        lemma_deep_view_index(&decoded);
    }
    while j < vs.len()
        invariant
            0 <= j <= vs@.len(),
            vs.deep_view().len() == vs@.len(),
            forall|m: int| 0 <= m < vs@.len() ==> #[trigger] vs.deep_view()[m] == vs@[m]@,
            decoded.deep_view().len() == j,
            forall|m: int|
                0 <= m < j ==> V::decm(vs.deep_view()[m]) == Some(
                    #[trigger] decoded.deep_view()[m],
                ),
            forall|m: int| 0 <= m < j ==> V::wfm(#[trigger] decoded.deep_view()[m]),
        decreases vs@.len() - j,
    {
        let ghost pre = decoded.deep_view();
        match V::from_bytes(vs[j].as_slice()) {
            Ok(v) => {
                decoded.push(v);
                proof {
                    lemma_deep_view_index(&decoded);
                    assert(decoded.deep_view() =~~= pre.push(
                        V::decm(vs.deep_view()[j as int])->Some_0,
                    ));
                }
            },
            Err(_) => {
                return Err(DbError::CorruptData);
            },
        }
        j = j + 1;
    }
    let deduped = crate::sort::dedup_values(decoded);
    let out = crate::sort::sort_values(deduped);
    proof {
        let dd = decoded.deep_view();
        let od = out.deep_view();
        assert forall|i: int| 0 <= i < od.len() implies some_decodes_to::<V>(
            vs.deep_view(),
            #[trigger] od[i],
        ) by {
            assert(dd.contains(od[i]));
            let m = choose|m: int| 0 <= m < dd.len() && dd[m] == od[i];
            assert(V::decm(vs.deep_view()[m]) == Some(od[i]));
        }
        assert forall|jj: int| 0 <= jj < vs.deep_view().len() implies decodes_into::<V>(
            #[trigger] vs.deep_view()[jj],
            od,
        ) by {
            assert(V::decm(vs.deep_view()[jj]) == Some(dd[jj]));
            assert(dd.contains(dd[jj]));
            assert(od.contains(dd[jj]));
            let i = choose|i: int| 0 <= i < od.len() && od[i] == dd[jj];
            assert(V::decm(vs.deep_view()[jj]) == Some(od[i]));
        }
    }
    Ok(out)
}

/// Whether some listed byte string equals `x`.
pub fn contains_bytes(vs: &Vec<Vec<u8>>, x: &Vec<u8>) -> (r: bool)
    ensures
        r == vs.deep_view().contains(x@),
{
    let mut j: usize = 0;
    proof {
        crate::sort::lemma_deep_view_index(vs);
    }
    while j < vs.len()
        invariant
            0 <= j <= vs@.len(),
            vs.deep_view().len() == vs@.len(),
            forall|i: int| 0 <= i < vs@.len() ==> #[trigger] vs.deep_view()[i] == vs@[i]@,
            forall|i: int| 0 <= i < j ==> vs.deep_view()[i] != x@,
        decreases vs@.len() - j,
    {
        if vs[j] == *x {
            proof {
                assert(vs@[j as int]@ =~= x@);
                assert(vs.deep_view()[j as int] == x@);
            }
            return true;
        }
        proof {
            assert(vs@[j as int]@ != x@ || vs@[j as int]@ =~= x@);
        }
        j = j + 1;
    }
    false
}

/// The position of the first listed pair whose key bytes equal `kb`.
pub fn lookup_bytes(es: &Vec<(Vec<u8>, Vec<u8>)>, kb: &Vec<u8>) -> (r: Option<usize>)
    ensures
        match r {
            Some(i) => i < es@.len() && es@[i as int].0@ == kb@,
            None => forall|j: int| 0 <= j < es@.len() ==> es@[j].0@ != kb@,
        },
{
    let mut j: usize = 0;
    while j < es.len()
        invariant
            0 <= j <= es@.len(),
            forall|i: int| 0 <= i < j ==> es@[i].0@ != kb@,
        decreases es@.len() - j,
    {
        if es[j].0 == *kb {
            proof {
                assert(es@[j as int].0@ =~= kb@);
            }
            return Some(j);
        }
        proof {
            assert(es@[j as int].0@ != kb@ || es@[j as int].0@ =~= kb@);
        }
        j = j + 1;
    }
    None
}

} // verus!
