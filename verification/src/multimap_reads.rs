//! Multimap read operations, over a consistent snapshot.

use vstd::prelude::*;

use crate::codec::{DbKey, DbValue};
use crate::db::{mm_vals, CakeDb};
use crate::engine::mm_at;
use crate::error::DbError;
use crate::handles::MultimapTableHandle;
use crate::sort::{distinct_fst, distinct_seq, sort_groups, sorted_by_le, sorted_fst};
use crate::util::{decode_sorted, decoded_from, decodes_into};

verus! {

/// The key and value models are listed together in some group.
pub open spec fn pair_grouped<K: DbKey, V: DbKey>(
    km: K::V,
    vm: V::V,
    gs: Seq<(K::V, Seq<V::V>)>,
) -> bool {
    exists|g: int, j: int|
        0 <= g < gs.len() && 0 <= j < gs[g].1.len() && (#[trigger] gs[g].1[j]) == vm && gs[g].0
            == km
}

/// One stored key's mappings decode exactly to this group: the stored key
/// decodes to the group key, every group value decodes from that key's
/// stored set, and every stored value of that key decodes into the group's
/// list.
pub open spec fn group_matches_key<K: DbKey, V: DbKey>(
    km: K::V,
    vs: Seq<V::V>,
    kb: Seq<u8>,
    m: Map<(Seq<char>, Seq<u8>), Set<Seq<u8>>>,
    n: Seq<char>,
) -> bool {
    &&& K::decm(kb) == Some(km)
    &&& forall|j: int|
        0 <= j < vs.len() ==> crate::util::decoded_from::<V>(#[trigger] vs[j], mm_at(m, n, kb))
    &&& forall|x: Seq<u8>| #[trigger] mm_at(m, n, kb).contains(x) ==> decodes_into::<V>(x, vs)
}

/// The group is the full decoded value set of some stored key.
pub open spec fn group_complete<K: DbKey, V: DbKey>(
    km: K::V,
    vs: Seq<V::V>,
    m: Map<(Seq<char>, Seq<u8>), Set<Seq<u8>>>,
    n: Seq<char>,
) -> bool {
    exists|kb: Seq<u8>| #[trigger] group_matches_key::<K, V>(km, vs, kb, m, n)
}

/// Every key with a stored mapping is listed.
pub open spec fn keys_cover<K: DbKey, V: DbKey>(
    kbs: Seq<Seq<u8>>,
    m: Map<(Seq<char>, Seq<u8>), Set<Seq<u8>>>,
    n: Seq<char>,
) -> bool {
    forall|kb: Seq<u8>, x: Seq<u8>| #[trigger] mm_at(m, n, kb).contains(x) ==> kbs.contains(kb)
}

/// Every stored mapping whose key is among the first `upto` listed keys is
/// decoded into some group.
pub open spec fn covered_upto<K: DbKey, V: DbKey>(
    kbs: Seq<Seq<u8>>,
    upto: int,
    gs: Seq<(K::V, Seq<V::V>)>,
    m: Map<(Seq<char>, Seq<u8>), Set<Seq<u8>>>,
    n: Seq<char>,
) -> bool {
    forall|kb: Seq<u8>, x: Seq<u8>|
        #[trigger] mm_at(m, n, kb).contains(x) && kbs.take(upto).contains(kb) ==> (K::decm(kb)
            is Some && V::decm(x) is Some && pair_grouped::<K, V>(
            K::decm(kb)->Some_0,
            V::decm(x)->Some_0,
            gs,
        ))
}

impl CakeDb {
    /// The values mapped to the key, decoded, each once, in ascending order.
    /// Fails if the table does not exist.
    pub fn multimap_get<K: DbKey, V: DbKey>(
        &self,
        table: &MultimapTableHandle<K, V>,
        key: &K,
    ) -> (r: Result<Vec<V>, DbError>)
        ensures
            ({
                let s = mm_vals::<K>(self.state(), table.spec_name(), key.deep_view());
                match r {
                    Ok(out) => {
                        &&& sorted_by_le::<V>(out.deep_view())
                        &&& distinct_seq(out.deep_view())
                        &&& forall|i: int|
                            0 <= i < out.deep_view().len() ==> decoded_from::<V>(
                                #[trigger] out.deep_view()[i],
                                s,
                            )
                        &&& forall|b: Seq<u8>|
                            #[trigger] s.contains(b) ==> decodes_into::<V>(b, out.deep_view())
                    },
                    Err(e) => e != DbError::NotFound && (e == DbError::CorruptData ==> exists|
                        b: Seq<u8>,
                    |
                        #[trigger] s.contains(b) && V::decm(b) is None),
                }
            }),
    {
        proof {
            use_type_invariant(table);
        }
        let name = table.name();
        let kb = key.to_bytes();
        let vs = match self.mm_get_eng(name, kb.as_slice()) {
            Ok(vs) => vs,
            Err(e) => {
                return Err(e.to_db_error());
            },
        };
        let out: Vec<V> = match decode_sorted(&vs) {
            Ok(out) => out,
            Err(e) => {
                proof {
                    crate::sort::lemma_deep_view_index(&vs);
                    let s = mm_vals::<K>(self.state(), table.spec_name(), key.deep_view());
                    let j = choose|j: int|
                        0 <= j < vs.deep_view().len() && V::decm(
                            #[trigger] vs.deep_view()[j],
                        ) is None;
                    assert(s.contains(vs.deep_view()[j]));
                }
                return Err(e);
            },
        };
        proof {
            crate::sort::lemma_deep_view_index(&vs);
            let s = mm_vals::<K>(self.state(), table.spec_name(), key.deep_view());
            assert forall|i: int| 0 <= i < out.deep_view().len() implies decoded_from::<V>(
                #[trigger] out.deep_view()[i],
                s,
            ) by {
                assert(crate::util::some_decodes_to::<V>(vs.deep_view(), out.deep_view()[i]));
                let j = choose|j: int|
                    0 <= j < vs.deep_view().len() && V::decm(#[trigger] vs.deep_view()[j]) == Some(
                        out.deep_view()[i],
                    );
                assert(s.contains(vs.deep_view()[j]));
            }
            assert forall|b: Seq<u8>| #[trigger] s.contains(b) implies decodes_into::<V>(
                b,
                out.deep_view(),
            ) by {
                let j = choose|j: int|
                    0 <= j < vs.deep_view().len() && #[trigger] vs.deep_view()[j] == b;
            }
        }
        Ok(out)
    }

    /// Every key of the multimap table with its full decoded value set:
    /// groups ascending by key, each key once, values each once and
    /// ascending within a group. Fails if the table does not exist, and
    /// with `CorruptData` if a stored key or value does not decode or two
    /// stored keys decode to the same key.
    pub fn multimap_table<K: DbKey, V: DbKey>(&self, table: &MultimapTableHandle<K, V>) -> (r:
        Result<Vec<(K, Vec<V>)>, DbError>)
        ensures
            ({
                let m = self.state().mtables;
                let n = table.spec_name();
                match r {
                    Ok(gs) => {
                        &&& forall|g: int|
                            0 <= g < gs.deep_view().len() ==> sorted_by_le::<V>(
                                (#[trigger] gs.deep_view()[g]).1,
                            ) && distinct_seq(gs.deep_view()[g].1) && gs.deep_view()[g].1.len() > 0
                        &&& sorted_fst::<K, Seq<V::V>>(gs.deep_view())
                        &&& distinct_fst::<K, Seq<V::V>>(gs.deep_view())
                        &&& forall|g: int|
                            0 <= g < gs.deep_view().len() ==> group_complete::<K, V>(
                                (#[trigger] gs.deep_view()[g]).0,
                                gs.deep_view()[g].1,
                                m,
                                n,
                            )
                        &&& forall|kb: Seq<u8>, x: Seq<u8>|
                            #[trigger] mm_at(m, n, kb).contains(x) ==> (K::decm(kb) is Some
                                && V::decm(x) is Some && pair_grouped::<K, V>(
                                K::decm(kb)->Some_0,
                                V::decm(x)->Some_0,
                                gs.deep_view(),
                            ))
                    },
                    Err(e) => e != DbError::NotFound,
                }
            }),
    {
        proof {
            use_type_invariant(table);
        }
        let name = table.name();
        let es = match self.mm_entries_eng(name) {
            Ok(es) => es,
            Err(e) => {
                return Err(e.to_db_error());
            },
        };
        let ghost m = self.state().mtables;
        let ghost n = table.spec_name();
        let mut kbs: Vec<Vec<u8>> = Vec::new();
        let mut i: usize = 0;
        proof {
            crate::db::lemma_pairs_deep_view(&es);
        }
        while i < es.len()
            invariant
                0 <= i <= es@.len(),
                es.deep_view().len() == es@.len(),
                forall|w: int|
                    0 <= w < es@.len() ==> #[trigger] es.deep_view()[w] == (es@[w].0@, es@[w].1@),
                forall|a: int, b: int|
                    0 <= a < b < kbs.deep_view().len() ==> kbs.deep_view()[a] != kbs.deep_view()[b],
                forall|w: int|
                    0 <= w < i ==> kbs.deep_view().contains((#[trigger] es.deep_view()[w]).0),
            decreases es@.len() - i,
        {
            let mut c: Vec<u8> = Vec::new();
            c.extend_from_slice(es[i].0.as_slice());
            proof {
                assert(c@ =~= es.deep_view()[i as int].0);
            }
            let ghost kbs0 = kbs.deep_view();
            if !crate::util::contains_bytes(&kbs, &c) {
                kbs.push(c);
                proof {
                    crate::sort::lemma_deep_view_index(&kbs);
                    assert(kbs.deep_view() =~~= kbs0.push(es.deep_view()[i as int].0));
                    assert forall|a: int, b: int|
                        0 <= a < b < kbs.deep_view().len() implies kbs.deep_view()[a]
                        != kbs.deep_view()[b] by {
                        if b == kbs0.len() {
                            assert(kbs.deep_view()[a] == kbs0[a]);
                            assert(kbs0.contains(kbs0[a]));
                        }
                    }
                    assert forall|w: int|
                        0 <= w < i + 1 implies kbs.deep_view().contains(
                        (#[trigger] es.deep_view()[w]).0,
                    ) by {
                        if w < i {
                            assert(kbs0.contains(es.deep_view()[w].0));
                            let q = choose|q: int|
                                0 <= q < kbs0.len() && kbs0[q] == es.deep_view()[w].0;
                            assert(kbs.deep_view()[q] == es.deep_view()[w].0);
                        } else {
                            assert(kbs.deep_view()[kbs0.len() as int] == es.deep_view()[i as int].0);
                        }
                    }
                }
            }
            proof {
                assert(kbs.deep_view().contains(es.deep_view()[i as int].0));
                assert forall|w: int|
                    0 <= w < i + 1 implies kbs.deep_view().contains(
                    (#[trigger] es.deep_view()[w]).0,
                ) by {
                }
            }
            i = i + 1;
        }
        proof {
            assert forall|kb: Seq<u8>, x: Seq<u8>| #[trigger] mm_at(m, n, kb).contains(x)
                implies kbs.deep_view().contains(kb) by {
                let w = choose|w: int|
                    0 <= w < es.deep_view().len() && #[trigger] es.deep_view()[w] == (kb, x);
                assert(kbs.deep_view().contains(es.deep_view()[w].0));
            }
            assert(keys_cover::<K, V>(kbs.deep_view(), m, n));
        }
        let mut gs: Vec<(K, Vec<V>)> = Vec::new();
        let ghost mut gkbs: Seq<Seq<u8>> = Seq::empty();
        let mut g: usize = 0;
        proof {
            crate::sort::lemma_deep_view_index(&kbs);
            assert(kbs.deep_view().take(0) =~= Seq::<Seq<u8>>::empty());
            assert(covered_upto::<K, V>(kbs.deep_view(), 0, gs.deep_view(), m, n));
        }
        while g < kbs.len()
            invariant
                0 <= g <= kbs@.len(),
                kbs.deep_view().len() == kbs@.len(),
                forall|a: int| 0 <= a < kbs@.len() ==> #[trigger] kbs.deep_view()[a] == kbs@[a]@,
                crate::db::mm_list_of(es.deep_view(), m, n),
                es.deep_view().len() == es@.len(),
                forall|w: int|
                    0 <= w < es@.len() ==> #[trigger] es.deep_view()[w] == (es@[w].0@, es@[w].1@),
                m == self.state().mtables,
                n == table.spec_name(),
                name@ == n,
                n.len() > 0,
                keys_cover::<K, V>(kbs.deep_view(), m, n),
                forall|q: int|
                    0 <= q < gs.deep_view().len() ==> sorted_by_le::<V>(
                        (#[trigger] gs.deep_view()[q]).1,
                    ) && distinct_seq(gs.deep_view()[q].1) && gs.deep_view()[q].1.len() > 0,
                gkbs.len() == gs.deep_view().len(),
                forall|q: int|
                    0 <= q < gs.deep_view().len() ==> group_matches_key::<K, V>(
                        (#[trigger] gs.deep_view()[q]).0,
                        gs.deep_view()[q].1,
                        gkbs[q],
                        m,
                        n,
                    ),
                forall|q: int|
                    0 <= q < gs.deep_view().len() ==> K::wfm((#[trigger] gs.deep_view()[q]).0),
                covered_upto::<K, V>(kbs.deep_view(), g as int, gs.deep_view(), m, n),
            decreases kbs@.len() - g,
        {
            let km: K = K::from_bytes(kbs[g].as_slice())?;
            let vbs = match self.mm_get_eng(name, kbs[g].as_slice()) {
                Ok(vbs) => vbs,
                Err(e) => {
                    return Err(e.to_db_error());
                },
            };
            let vals: Vec<V> = decode_sorted(&vbs)?;
            let ghost kbg = kbs.deep_view()[g as int];
            let ghost vdv = vals.deep_view();
            let ghost kmv = km.deep_view();
            proof {
                crate::sort::lemma_deep_view_index(&vbs);
                assert(kbg == kbs@[g as int]@);
                assert(crate::db::mm_vals_list_of(vbs.deep_view(), mm_at(m, n, kbg)));
            }
            let ghost gs0 = gs.deep_view();
            if vals.len() > 0 {
                gs.push((km, vals));
                proof {
                    crate::sort::lemma_deep_view_index(&gs);
                    assert(gs.deep_view() =~~= gs0.push((kmv, vdv)));
                    assert(gs.deep_view()[gs0.len() as int] == (kmv, vdv));
                    let ghost gkbs0 = gkbs;
                    gkbs = gkbs.push(kbg);
                    assert forall|j: int|
                        0 <= j < vdv.len() implies crate::util::decoded_from::<V>(
                        #[trigger] vdv[j],
                        mm_at(m, n, kbg),
                    ) by {
                        assert(crate::util::some_decodes_to::<V>(vbs.deep_view(), vdv[j]));
                        let w = choose|w: int|
                            0 <= w < vbs.deep_view().len() && V::decm(
                                #[trigger] vbs.deep_view()[w],
                            ) == Some(vdv[j]);
                        assert(mm_at(m, n, kbg).contains(vbs.deep_view()[w]));
                    }
                    assert forall|x: Seq<u8>| #[trigger] mm_at(m, n, kbg).contains(x)
                        implies decodes_into::<V>(x, vdv) by {
                        let w = choose|w: int|
                            0 <= w < vbs.deep_view().len() && #[trigger] vbs.deep_view()[w] == x;
                    }
                    assert(group_matches_key::<K, V>(kmv, vdv, kbg, m, n));
                    assert forall|q: int|
                        0 <= q < gs.deep_view().len() implies group_matches_key::<K, V>(
                        (#[trigger] gs.deep_view()[q]).0,
                        gs.deep_view()[q].1,
                        gkbs[q],
                        m,
                        n,
                    ) by {
                        if q < gs0.len() {
                            assert(gs.deep_view()[q] == gs0[q]);
                            assert(gkbs[q] == gkbs0[q]);
                            assert(group_matches_key::<K, V>(gs0[q].0, gs0[q].1, gkbs0[q], m, n));
                        } else {
                            assert(gs.deep_view()[q] == (kmv, vdv));
                            assert(gkbs[q] == kbg);
                        }
                    }
                }
            } else {
                proof {
                    assert forall|x: Seq<u8>| !mm_at(m, n, kbg).contains(x) by {
                        if mm_at(m, n, kbg).contains(x) {
                            let w = choose|w: int|
                                0 <= w < vbs.deep_view().len() && #[trigger] vbs.deep_view()[w]
                                    == x;
                            assert(crate::util::decodes_into::<V>(vbs.deep_view()[w], vdv));
                        }
                    }
                }
            }
            proof {
                assert(kbs.deep_view().take(g as int + 1) =~= kbs.deep_view().take(
                    g as int,
                ).push(kbg));
                assert forall|kb: Seq<u8>, x: Seq<u8>|
                    #[trigger] mm_at(m, n, kb).contains(x) && kbs.deep_view().take(
                        g as int + 1,
                    ).contains(kb) implies (K::decm(kb) is Some && V::decm(x) is Some
                    && pair_grouped::<K, V>(
                    K::decm(kb)->Some_0,
                    V::decm(x)->Some_0,
                    gs.deep_view(),
                )) by {
                    let t1 = kbs.deep_view().take(g as int + 1);
                    let t0s = kbs.deep_view().take(g as int);
                    let w0 = choose|w0: int| 0 <= w0 < t1.len() && t1[w0] == kb;
                    if w0 < t0s.len() {
                        assert(t0s[w0] == kb);
                        assert(t0s.contains(kb));
                        assert(pair_grouped::<K, V>(
                            K::decm(kb)->Some_0,
                            V::decm(x)->Some_0,
                            gs0,
                        ));
                        let (q, j) = choose|q: int, j: int|
                            0 <= q < gs0.len() && 0 <= j < gs0[q].1.len() && (
                            #[trigger] gs0[q].1[j]) == V::decm(x)->Some_0 && gs0[q].0 == K::decm(
                                kb,
                            )->Some_0;
                        assert(gs.deep_view()[q] == gs0[q]);
                        assert(gs.deep_view()[q].1[j] == gs0[q].1[j]);
                    } else {
                        assert(kb == kbg);
                        assert(K::decm(kb) == Some(kmv));
                        assert(crate::util::decodes_into::<V>(x, vdv));
                        let j = choose|j: int| 0 <= j < vdv.len() && V::decm(x) == Some(vdv[j]);
                        assert(gs.deep_view()[gs0.len() as int].1[j] == vdv[j]);
                    }
                }
                assert(covered_upto::<K, V>(
                    kbs.deep_view(),
                    g as int + 1,
                    gs.deep_view(),
                    m,
                    n,
                ));
            }
            g = g + 1;
        }
        proof {
            assert(kbs.deep_view().take(kbs@.len() as int) =~= kbs.deep_view());
            assert forall|kb: Seq<u8>, x: Seq<u8>| #[trigger] mm_at(m, n, kb).contains(x)
                implies (K::decm(kb) is Some && V::decm(x) is Some && pair_grouped::<K, V>(
                K::decm(kb)->Some_0,
                V::decm(x)->Some_0,
                gs.deep_view(),
            )) by {
                assert(kbs.deep_view().contains(kb));
                assert(kbs.deep_view().take(kbs@.len() as int).contains(kb));
            }
        }
        let mut a: usize = 0;
        while a < gs.len()
            invariant
                0 <= a <= gs@.len(),
                gs.deep_view().len() == gs@.len(),
                forall|q: int|
                    0 <= q < gs@.len() ==> #[trigger] gs.deep_view()[q] == (
                        gs@[q].0.deep_view(),
                        gs@[q].1.deep_view(),
                    ),
                forall|q: int|
                    0 <= q < gs.deep_view().len() ==> K::wfm((#[trigger] gs.deep_view()[q]).0),
                forall|x: int, y: int|
                    0 <= x < y < a ==> (#[trigger] gs.deep_view()[x]).0
                        != (#[trigger] gs.deep_view()[y]).0,
            decreases gs@.len() - a,
        {
            let mut b: usize = 0;
            while b < a
                invariant
                    0 <= b <= a < gs@.len(),
                    gs.deep_view().len() == gs@.len(),
                    forall|q: int|
                        0 <= q < gs@.len() ==> #[trigger] gs.deep_view()[q] == (
                            gs@[q].0.deep_view(),
                            gs@[q].1.deep_view(),
                        ),
                    forall|q: int|
                        0 <= q < gs.deep_view().len() ==> K::wfm((#[trigger] gs.deep_view()[q]).0),
                    forall|x: int|
                        0 <= x < b ==> (#[trigger] gs.deep_view()[x]).0
                            != gs.deep_view()[a as int].0,
                decreases a - b,
            {
                let same = gs[b].0.le_exec(&gs[a].0) && gs[a].0.le_exec(&gs[b].0);
                proof {
                    K::lemma_order(
                        gs.deep_view()[b as int].0,
                        gs.deep_view()[a as int].0,
                        gs.deep_view()[a as int].0,
                    );
                }
                if same {
                    return Err(DbError::CorruptData);
                }
                b = b + 1;
            }
            a = a + 1;
        }
        let ghost gdv = gs.deep_view();
        let sorted_gs = sort_groups(gs);
        proof {
            let sv = sorted_gs.deep_view();
            assert forall|q: int|
                0 <= q < sv.len() implies (sorted_by_le::<V>((#[trigger] sv[q]).1)
                && distinct_seq(sv[q].1) && sv[q].1.len() > 0 && group_complete::<K, V>(
                sv[q].0,
                sv[q].1,
                m,
                n,
            )) by {
                assert(sv.contains(sv[q]));
                assert(gdv.contains(sv[q]));
                let w = choose|w: int| 0 <= w < gdv.len() && gdv[w] == sv[q];
                assert(sorted_by_le::<V>(gdv[w].1) && distinct_seq(gdv[w].1) && gdv[w].1.len()
                    > 0);
                assert(group_matches_key::<K, V>(gdv[w].0, gdv[w].1, gkbs[w], m, n));
                assert(group_matches_key::<K, V>(sv[q].0, sv[q].1, gkbs[w], m, n));
            }
            assert forall|kb: Seq<u8>, x: Seq<u8>| #[trigger] mm_at(m, n, kb).contains(x)
                implies (K::decm(kb) is Some && V::decm(x) is Some && pair_grouped::<K, V>(
                K::decm(kb)->Some_0,
                V::decm(x)->Some_0,
                sorted_gs.deep_view(),
            )) by {
                let sv = sorted_gs.deep_view();
                assert(pair_grouped::<K, V>(K::decm(kb)->Some_0, V::decm(x)->Some_0, gdv));
                let (q, j) = choose|q: int, j: int|
                    0 <= q < gdv.len() && 0 <= j < gdv[q].1.len() && (#[trigger] gdv[q].1[j])
                        == V::decm(x)->Some_0 && gdv[q].0 == K::decm(kb)->Some_0;
                assert(gdv.contains(gdv[q]));
                assert(sv.contains(gdv[q]));
                let q2 = choose|q2: int| 0 <= q2 < sv.len() && sv[q2] == gdv[q];
                assert(sv[q2].1[j] == gdv[q].1[j] && sv[q2].0 == gdv[q].0);
            }
        }
        Ok(sorted_gs)
    }
}

} // verus!
