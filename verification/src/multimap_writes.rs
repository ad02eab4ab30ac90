//! Multimap write operations: one key maps to a set of values. Each public
//! operation runs its mutation inside one engine write transaction; on any
//! failure before the commit the multimap tables are left as they were, and
//! on a failed commit (`CommitFailed`) the whole edit took effect or none of
//! it did.

use vstd::prelude::*;

use crate::codec::{DbKey, DbValue};
use crate::db::{index_unchanged, mm_vals, CakeDb};
use crate::engine::{
    apply_mm_step, apply_mm_steps, drop_mm_table, lemma_mm_apply_one, mm_at, set_nonempty, MmStep,
    MmStepM,
};
use crate::error::{DbError, EngineError};
use crate::handles::MultimapTableHandle;
use crate::sort::{distinct_seq, sorted_by_le};
use crate::util::{contains_bytes, decode_sorted, decoded_from, decodes_into, some_decodes_to};

verus! {

/// The encodings of a sequence of value models, in order.
pub open spec fn encs_of<V: DbKey>(vs: Seq<V::V>) -> Seq<Seq<u8>> {
    Seq::new(vs.len(), |i: int| V::encm(vs[i]))
}

/// Add-edits of the given value byte strings under one key, in order.
pub open spec fn adds_of(kb: Seq<u8>, vbs: Seq<Seq<u8>>) -> Seq<MmStepM> {
    Seq::new(vbs.len(), |i: int| MmStepM::Add(kb, vbs[i]))
}

/// Adding a run of values under one key unions them into the key's set.
proof fn lemma_apply_adds(
    m: Map<(Seq<char>, Seq<u8>), Set<Seq<u8>>>,
    n: Seq<char>,
    kb: Seq<u8>,
    vbs: Seq<Seq<u8>>,
)
    requires
        vbs.len() > 0,
    ensures
        apply_mm_steps(m, n, adds_of(kb, vbs)) == m.insert(
            (n, kb),
            mm_at(m, n, kb).union(vbs.to_set()),
        ),
    decreases vbs.len(),
{
    let steps = adds_of(kb, vbs);
    assert(steps[0] == MmStepM::Add(kb, vbs[0]));
    let m1 = apply_mm_step(m, n, steps[0]);
    assert(m1 == m.insert((n, kb), mm_at(m, n, kb).insert(vbs[0])));
    if vbs.len() == 1 {
        assert(steps.drop_first().len() == 0);
        assert(apply_mm_steps(m1, n, steps.drop_first()) == m1);
        assert(vbs.to_set() =~= Set::<Seq<u8>>::empty().insert(vbs[0]));
        assert(mm_at(m, n, kb).insert(vbs[0]) =~= mm_at(m, n, kb).union(vbs.to_set()));
        assert(m1 =~= m.insert((n, kb), mm_at(m, n, kb).union(vbs.to_set())));
    } else {
        assert(steps.drop_first() =~= adds_of(kb, vbs.drop_first()));
        lemma_apply_adds(m1, n, kb, vbs.drop_first());
        assert(mm_at(m1, n, kb) == mm_at(m, n, kb).insert(vbs[0]));
        assert forall|x: Seq<u8>| vbs.to_set().contains(x) implies (x == vbs[0]
            || vbs.drop_first().to_set().contains(x)) by {
            let i = choose|i: int| 0 <= i < vbs.len() && vbs[i] == x;
            if i > 0 {
                assert(vbs.drop_first()[i - 1] == x);
            }
        }
        assert forall|x: Seq<u8>| vbs.drop_first().to_set().contains(x) implies vbs.to_set()
            .contains(x) by {
            let i = choose|i: int| 0 <= i < vbs.drop_first().len() && vbs.drop_first()[i] == x;
            assert(vbs[i + 1] == x);
        }
        assert(vbs.to_set().contains(vbs[0]));
        assert(mm_at(m, n, kb).insert(vbs[0]).union(vbs.drop_first().to_set()) =~= mm_at(
            m,
            n,
            kb,
        ).union(vbs.to_set()));
        assert(m.insert((n, kb), mm_at(m, n, kb).insert(vbs[0])).insert(
            (n, kb),
            mm_at(m1, n, kb).union(vbs.drop_first().to_set()),
        ) =~= m.insert((n, kb), mm_at(m, n, kb).union(vbs.to_set())));
    }
}

/// The add-edits a keyed batch fans out to: for each listed key in order,
/// one add per listed value.
pub open spec fn data_adds<K: DbKey, V: DbKey>(d: Seq<(K::V, Seq<V::V>)>) -> Seq<MmStepM>
    decreases d.len(),
{
    if d.len() == 0 {
        Seq::empty()
    } else {
        adds_of(K::encm(d[0].0), encs_of::<V>(d[0].1)) + data_adds::<K, V>(d.drop_first())
    }
}

/// Appending one keyed group appends its adds.
proof fn lemma_data_adds_snoc<K: DbKey, V: DbKey>(d: Seq<(K::V, Seq<V::V>)>, i: int)
    requires
        0 <= i < d.len(),
    ensures
        data_adds::<K, V>(d.take(i + 1)) == data_adds::<K, V>(d.take(i)) + adds_of(
            K::encm(d[i].0),
            encs_of::<V>(d[i].1),
        ),
    decreases i,
{
    if i == 0 {
        assert(d.take(1)[0] == d[0]);
        assert(d.take(1).drop_first() =~= Seq::<(K::V, Seq<V::V>)>::empty());
        assert(data_adds::<K, V>(d.take(1).drop_first()) == data_adds::<K, V>(
            Seq::<(K::V, Seq<V::V>)>::empty(),
        ));
        assert(data_adds::<K, V>(Seq::<(K::V, Seq<V::V>)>::empty()) =~= Seq::<MmStepM>::empty());
        assert(data_adds::<K, V>(d.take(0)) =~= Seq::<MmStepM>::empty());
        assert(data_adds::<K, V>(d.take(1)) =~= adds_of(K::encm(d[0].0), encs_of::<V>(d[0].1))
            + Seq::<MmStepM>::empty());
        assert(data_adds::<K, V>(d.take(0)) + adds_of(K::encm(d[0].0), encs_of::<V>(d[0].1))
            =~= adds_of(K::encm(d[0].0), encs_of::<V>(d[0].1)) + Seq::<MmStepM>::empty());
    } else {
        assert(d.take(i + 1)[0] == d[0]);
        assert(d.take(i)[0] == d[0]);
        assert(d.take(i + 1).drop_first() =~= d.drop_first().take(i));
        assert(d.take(i).drop_first() =~= d.drop_first().take(i - 1));
        lemma_data_adds_snoc::<K, V>(d.drop_first(), i - 1);
        assert(d.drop_first()[i - 1] == d[i]);
        let h = adds_of(K::encm(d[0].0), encs_of::<V>(d[0].1));
        let a = data_adds::<K, V>(d.drop_first().take(i - 1));
        let g = adds_of(K::encm(d[i].0), encs_of::<V>(d[i].1));
        assert(h + (a + g) =~= (h + a) + g);
    }
}

/// Remove-all edits of the given keys, in order.
pub open spec fn remalls_of(kbs: Seq<Seq<u8>>) -> Seq<MmStepM> {
    Seq::new(kbs.len(), |i: int| MmStepM::RemAll(kbs[i]))
}

/// Removing every listed key's set removes exactly those keys of the table.
proof fn lemma_mm_remalls(
    m: Map<(Seq<char>, Seq<u8>), Set<Seq<u8>>>,
    n: Seq<char>,
    kbs: Seq<Seq<u8>>,
)
    ensures
        apply_mm_steps(m, n, remalls_of(kbs)) == m.remove_keys(
            Set::new(|p: (Seq<char>, Seq<u8>)| p.0 == n && kbs.contains(p.1)),
        ),
    decreases kbs.len(),
{
    let steps = remalls_of(kbs);
    if kbs.len() == 0 {
        assert(m.remove_keys(Set::new(|p: (Seq<char>, Seq<u8>)| p.0 == n && kbs.contains(p.1)))
            =~= m);
    } else {
        assert(steps[0] == MmStepM::RemAll(kbs[0]));
        let m1 = apply_mm_step(m, n, steps[0]);
        assert(m1 == m.remove((n, kbs[0])));
        assert(steps.drop_first() =~= remalls_of(kbs.drop_first()));
        lemma_mm_remalls(m1, n, kbs.drop_first());
        assert forall|x: Seq<u8>| kbs.contains(x) implies (x == kbs[0] || kbs.drop_first()
            .contains(x)) by {
            let i = choose|i: int| 0 <= i < kbs.len() && kbs[i] == x;
            if i > 0 {
                assert(kbs.drop_first()[i - 1] == x);
            }
        }
        assert forall|x: Seq<u8>| kbs.drop_first().contains(x) implies kbs.contains(x) by {
            let i = choose|i: int| 0 <= i < kbs.drop_first().len() && kbs.drop_first()[i] == x;
            assert(kbs[i + 1] == x);
        }
        assert(kbs.contains(kbs[0]));
        assert(m1.remove_keys(
            Set::new(|p: (Seq<char>, Seq<u8>)| p.0 == n && kbs.drop_first().contains(p.1)),
        ) =~= m.remove_keys(Set::new(|p: (Seq<char>, Seq<u8>)| p.0 == n && kbs.contains(p.1))));
    }
}

impl CakeDb {
    /// Adds one value to the key's set. Returns whether the (key, value)
    /// pair was already present; inserting it again changes nothing.
    pub fn multimap_insert<K: DbKey, V: DbKey>(
        &mut self,
        table: &MultimapTableHandle<K, V>,
        key: &K,
        value: V,
    ) -> (r: Result<bool, DbError>)
        ensures
            index_unchanged(old(self), final(self)),
            final(self).wf() == old(self).wf(),
            final(self).state().tnames == old(self).state().tnames,
            final(self).state().tables == old(self).state().tables,
            ({
                let n = table.spec_name();
                let km = key.deep_view();
                let vm = value.deep_view();
                match r {
                    Ok(b) => b == mm_vals::<K>(old(self).state(), n, km).contains(V::encm(vm))
                        && final(self).state().mnames == old(self).state().mnames.insert(n)
                        && final(self).state().mtables == old(self).state().mtables.insert(
                        (n, K::encm(km)),
                        mm_vals::<K>(old(self).state(), n, km).insert(V::encm(vm)),
                    ),
                    Err(e) => e != DbError::NotFound && e != DbError::CorruptData
                        && ((final(self).state().mtables == old(self).state().mtables
                        && final(self).state().mnames == old(self).state().mnames) || (e
                        == DbError::CommitFailed && final(self).state().mnames == old(self).state().mnames.insert(n)
                        && final(self).state().mtables == old(self).state().mtables.insert(
                        (n, K::encm(km)),
                        mm_vals::<K>(old(self).state(), n, km).insert(V::encm(vm)),
                    ))),
                }
            }),
    {
        proof {
            use_type_invariant(table);
        }
        let name = table.name();
        let kb = key.to_bytes();
        let vb = value.to_bytes();
        let existed: bool = match self.mm_get_eng(name, kb.as_slice()) {
            Ok(vs) => contains_bytes(&vs, &vb),
            Err(EngineError::NoSuchTable) => false,
            Err(e) => {
                return Err(e.to_db_error());
            },
        };
        let ghost kbs = kb@;
        let ghost vbs = vb@;
        let mut steps: Vec<MmStep> = Vec::new();
        steps.push(MmStep::Add(kb, vb));
        proof {
            assert(steps.deep_view() =~= seq![MmStepM::Add(kbs, vbs)]);
            lemma_mm_apply_one(old(self).state().mtables, table.spec_name(), steps.deep_view());
        }
        match self.mm_apply_raw(name, &steps) {
            Ok(()) => Ok(existed),
            Err(e) => Err(e),
        }
    }

    /// Adds each given value to the key's set, in one transaction. Returns
    /// whether the key had any value mapped before the call.
    pub fn multimap_insert_values<K: DbKey, V: DbKey>(
        &mut self,
        table: &MultimapTableHandle<K, V>,
        key: &K,
        values: Vec<V>,
    ) -> (r: Result<bool, DbError>)
        ensures
            index_unchanged(old(self), final(self)),
            final(self).wf() == old(self).wf(),
            final(self).state().tnames == old(self).state().tnames,
            final(self).state().tables == old(self).state().tables,
            ({
                let n = table.spec_name();
                let km = key.deep_view();
                match r {
                    Ok(b) => b == set_nonempty(mm_vals::<K>(old(self).state(), n, km)) && final(self).state().mnames == old(self).state().mnames.insert(n) && final(self).state().mtables == (if values.deep_view().len() > 0 {
                        old(self).state().mtables.insert(
                            (n, K::encm(km)),
                            mm_vals::<K>(old(self).state(), n, km).union(
                                encs_of::<V>(values.deep_view()).to_set(),
                            ),
                        )
                    } else {
                        old(self).state().mtables
                    }),
                    Err(e) => e != DbError::NotFound && e != DbError::CorruptData
                        && ((final(self).state().mtables == old(self).state().mtables
                        && final(self).state().mnames == old(self).state().mnames) || (e
                        == DbError::CommitFailed && final(self).state().mnames == old(self).state().mnames.insert(n)
                        && final(self).state().mtables == (if values.deep_view().len() > 0 {
                        old(self).state().mtables.insert(
                            (n, K::encm(km)),
                            mm_vals::<K>(old(self).state(), n, km).union(
                                encs_of::<V>(values.deep_view()).to_set(),
                            ),
                        )
                    } else {
                        old(self).state().mtables
                    }))),
                }
            }),
    {
        proof {
            use_type_invariant(table);
        }
        let name = table.name();
        let kb = key.to_bytes();
        let existed: bool = match self.mm_get_eng(name, kb.as_slice()) {
            Ok(vs) => {
                let ne = vs.len() > 0;
                proof {
                    crate::sort::lemma_deep_view_index(&vs);
                    if vs@.len() > 0 {
                        assert(mm_vals::<K>(self.state(), table.spec_name(), key.deep_view())
                            .contains(vs.deep_view()[0]));
                    } else {
                        if set_nonempty(mm_vals::<K>(
                            self.state(),
                            table.spec_name(),
                            key.deep_view(),
                        )) {
                            let x = choose|x: Seq<u8>|
                                mm_vals::<K>(self.state(), table.spec_name(), key.deep_view())
                                    .contains(x);
                            assert(exists|i: int|
                                0 <= i < vs.deep_view().len() && vs.deep_view()[i] == x);
                        }
                    }
                }
                ne
            },
            Err(EngineError::NoSuchTable) => false,
            Err(e) => {
                return Err(e.to_db_error());
            },
        };
        let ghost kbs = kb@;
        let mut steps: Vec<MmStep> = Vec::new();
        let mut i: usize = 0;
        while i < values.len()
            invariant
                0 <= i <= values@.len(),
                values.deep_view().len() == values@.len(),
                forall|m: int|
                    0 <= m < values@.len() ==> #[trigger] values.deep_view()[m]
                        == values@[m].deep_view(),
                kbs == K::encm(key.deep_view()),
                steps.deep_view() =~= adds_of(kbs, encs_of::<V>(values.deep_view().take(i as int))),
            decreases values@.len() - i,
        {
            let vb = values[i].to_bytes();
            let kbi = key.to_bytes();
            let ghost pre = steps.deep_view();
            let ghost kbiv = kbi@;
            let ghost vbv = vb@;
            steps.push(MmStep::Add(kbi, vb));
            proof {
                crate::sort::lemma_deep_view_index(&steps);
                let dv = values.deep_view();
                assert(steps@.len() == pre.len() + 1);
                assert(steps@[pre.len() as int] == MmStep::Add(kbi, vb));
                assert(steps.deep_view()[pre.len() as int] == MmStepM::Add(kbiv, vbv));
                assert(kbiv == kbs);
                assert(vbv == V::encm(dv[i as int]));
                assert(steps.deep_view() =~~= pre.push(MmStepM::Add(kbs, V::encm(dv[i as int]))));
                assert(steps.deep_view() =~~= adds_of(
                    kbs,
                    encs_of::<V>(values.deep_view().take(i as int + 1)),
                ));
            }
            i = i + 1;
        }
        proof {
            assert(values.deep_view().take(values@.len() as int) =~= values.deep_view());
        }
        proof {
            let n = table.spec_name();
            let enc = encs_of::<V>(values.deep_view());
            if values.deep_view().len() > 0 {
                lemma_apply_adds(old(self).state().mtables, n, kbs, enc);
            } else {
                assert(steps.deep_view().len() == 0);
            }
        }
        match self.mm_apply_raw(name, &steps) {
            Ok(()) => Ok(existed),
            Err(e) => Err(e),
        }
    }

    /// Adds every value of every listed key to the table, all inside one
    /// write transaction.
    pub fn multimap_batch_insert<K: DbKey, V: DbKey>(
        &mut self,
        table: &MultimapTableHandle<K, V>,
        data: &Vec<(K, Vec<V>)>,
    ) -> (r: Result<(), DbError>)
        ensures
            index_unchanged(old(self), final(self)),
            final(self).wf() == old(self).wf(),
            final(self).state().tnames == old(self).state().tnames,
            final(self).state().tables == old(self).state().tables,
            ({
                let n = table.spec_name();
                match r {
                    Ok(()) => final(self).state().mnames == old(self).state().mnames.insert(n)
                        && final(self).state().mtables == apply_mm_steps(
                        old(self).state().mtables,
                        n,
                        data_adds::<K, V>(data.deep_view()),
                    ),
                    Err(e) => e != DbError::NotFound && e != DbError::CorruptData
                        && ((final(self).state().mtables == old(self).state().mtables
                        && final(self).state().mnames == old(self).state().mnames) || (e
                        == DbError::CommitFailed && final(self).state().mnames == old(self).state().mnames.insert(n)
                        && final(self).state().mtables == apply_mm_steps(
                        old(self).state().mtables,
                        n,
                        data_adds::<K, V>(data.deep_view()),
                    ))),
                }
            }),
    {
        proof {
            use_type_invariant(table);
        }
        let name = table.name();
        let mut steps: Vec<MmStep> = Vec::new();
        let mut i: usize = 0;
        proof {
            crate::sort::lemma_deep_view_index(data);
            assert(steps.deep_view() =~= data_adds::<K, V>(data.deep_view().take(0)));
        }
        while i < data.len()
            invariant
                0 <= i <= data@.len(),
                data.deep_view().len() == data@.len(),
                forall|m: int|
                    0 <= m < data@.len() ==> #[trigger] data.deep_view()[m] == (
                        data@[m].0.deep_view(),
                        data@[m].1.deep_view(),
                    ),
                steps.deep_view() =~= data_adds::<K, V>(data.deep_view().take(i as int)),
            decreases data@.len() - i,
        {
            let ghost grp = data.deep_view()[i as int];
            let ghost steps0 = steps.deep_view();
            let mut j: usize = 0;
            while j < data[i].1.len()
                invariant
                    0 <= i < data@.len(),
                    0 <= j <= data@[i as int].1@.len(),
                    data.deep_view().len() == data@.len(),
                    forall|m: int|
                        0 <= m < data@.len() ==> #[trigger] data.deep_view()[m] == (
                            data@[m].0.deep_view(),
                            data@[m].1.deep_view(),
                        ),
                    grp == data.deep_view()[i as int],
                    grp.1.len() == data@[i as int].1@.len(),
                    forall|m: int|
                        0 <= m < grp.1.len() ==> #[trigger] grp.1[m] == data@[i as int].1@[m].deep_view(),
                    steps.deep_view() =~= steps0 + adds_of(
                        K::encm(grp.0),
                        encs_of::<V>(grp.1.take(j as int)),
                    ),
                decreases data@[i as int].1@.len() - j,
            {
                let kb = data[i].0.to_bytes();
                let vb = data[i].1[j].to_bytes();
                steps.push(MmStep::Add(kb, vb));
                proof {
                    crate::sort::lemma_deep_view_index(&steps);
                    assert(grp.1.take(j as int + 1) =~= grp.1.take(j as int).push(
                        grp.1[j as int],
                    ));
                    assert(steps.deep_view() =~~= (steps0 + adds_of(
                        K::encm(grp.0),
                        encs_of::<V>(grp.1.take(j as int)),
                    )).push(MmStepM::Add(K::encm(grp.0), V::encm(grp.1[j as int]))));
                    assert(steps.deep_view() =~~= steps0 + adds_of(
                        K::encm(grp.0),
                        encs_of::<V>(grp.1.take(j as int + 1)),
                    ));
                }
                j = j + 1;
            }
            proof {
                assert(grp.1.take(grp.1.len() as int) =~= grp.1);
                lemma_data_adds_snoc::<K, V>(data.deep_view(), i as int);
                assert(data.deep_view().take(i as int).push(grp) =~= data.deep_view().take(
                    i as int + 1,
                ));
                assert(steps.deep_view() =~= data_adds::<K, V>(
                    data.deep_view().take(i as int + 1),
                ));
            }
            i = i + 1;
        }
        proof {
            assert(data.deep_view().take(data@.len() as int) =~= data.deep_view());
        }
        self.mm_apply_raw(name, &steps)
    }

    /// Replaces the key's whole value set with the given values, removing
    /// the old set and inserting the new one in one transaction. Returns
    /// whether the key had any value mapped before.
    pub fn multimap_assign<K: DbKey, V: DbKey>(
        &mut self,
        table: &MultimapTableHandle<K, V>,
        key: &K,
        values: Vec<V>,
    ) -> (r: Result<bool, DbError>)
        ensures
            index_unchanged(old(self), final(self)),
            final(self).wf() == old(self).wf(),
            final(self).state().tnames == old(self).state().tnames,
            final(self).state().tables == old(self).state().tables,
            ({
                let n = table.spec_name();
                let km = key.deep_view();
                match r {
                    Ok(b) => b == set_nonempty(mm_vals::<K>(old(self).state(), n, km)) && final(self).state().mnames == old(self).state().mnames.insert(n) && final(self).state().mtables == (if values.deep_view().len() > 0 {
                        old(self).state().mtables.insert(
                            (n, K::encm(km)),
                            encs_of::<V>(values.deep_view()).to_set(),
                        )
                    } else {
                        old(self).state().mtables.remove((n, K::encm(km)))
                    }),
                    Err(e) => e != DbError::NotFound && e != DbError::CorruptData
                        && ((final(self).state().mtables == old(self).state().mtables
                        && final(self).state().mnames == old(self).state().mnames) || (e
                        == DbError::CommitFailed && final(self).state().mnames == old(self).state().mnames.insert(n)
                        && final(self).state().mtables == (if values.deep_view().len() > 0 {
                        old(self).state().mtables.insert(
                            (n, K::encm(km)),
                            encs_of::<V>(values.deep_view()).to_set(),
                        )
                    } else {
                        old(self).state().mtables.remove((n, K::encm(km)))
                    }))),
                }
            }),
    {
        proof {
            use_type_invariant(table);
        }
        let name = table.name();
        let kb = key.to_bytes();
        let ghost kbs = kb@;
        let mut encs: Vec<Vec<u8>> = Vec::new();
        let mut i: usize = 0;
        while i < values.len()
            invariant
                0 <= i <= values@.len(),
                values.deep_view().len() == values@.len(),
                forall|m: int|
                    0 <= m < values@.len() ==> #[trigger] values.deep_view()[m]
                        == values@[m].deep_view(),
                encs.deep_view() =~= encs_of::<V>(values.deep_view().take(i as int)),
            decreases values@.len() - i,
        {
            let ghost pre = encs.deep_view();
            encs.push(values[i].to_bytes());
            proof {
                crate::sort::lemma_deep_view_index(&encs);
                let dv = values.deep_view();
                assert(encs.deep_view() =~~= pre.push(V::encm(dv[i as int])));
                assert(encs.deep_view() =~~= encs_of::<V>(values.deep_view().take(i as int + 1)));
            }
            i = i + 1;
        }
        proof {
            assert(values.deep_view().take(values@.len() as int) =~= values.deep_view());
        }
        self.mm_assign_raw(name, kb.as_slice(), &encs)
    }

    /// Removes one value from the key's set. Returns whether it was present.
    pub fn multimap_remove<K: DbKey, V: DbKey>(
        &mut self,
        table: &MultimapTableHandle<K, V>,
        key: &K,
        value: V,
    ) -> (r: Result<bool, DbError>)
        ensures
            index_unchanged(old(self), final(self)),
            final(self).wf() == old(self).wf(),
            final(self).state().tnames == old(self).state().tnames,
            final(self).state().tables == old(self).state().tables,
            ({
                let n = table.spec_name();
                let km = key.deep_view();
                let vm = value.deep_view();
                match r {
                    Ok(b) => b == mm_vals::<K>(old(self).state(), n, km).contains(V::encm(vm))
                        && final(self).state().mnames == old(self).state().mnames.insert(n)
                        && final(self).state().mtables == apply_mm_step(
                        old(self).state().mtables,
                        n,
                        MmStepM::Rem(K::encm(km), V::encm(vm)),
                    ),
                    Err(e) => e != DbError::NotFound && e != DbError::CorruptData
                        && ((final(self).state().mtables == old(self).state().mtables
                        && final(self).state().mnames == old(self).state().mnames) || (e
                        == DbError::CommitFailed && final(self).state().mnames == old(self).state().mnames.insert(n)
                        && final(self).state().mtables == apply_mm_step(
                        old(self).state().mtables,
                        n,
                        MmStepM::Rem(K::encm(km), V::encm(vm)),
                    ))),
                }
            }),
    {
        proof {
            use_type_invariant(table);
        }
        let name = table.name();
        let kb = key.to_bytes();
        let vb = value.to_bytes();
        let existed: bool = match self.mm_get_eng(name, kb.as_slice()) {
            Ok(vs) => contains_bytes(&vs, &vb),
            Err(EngineError::NoSuchTable) => false,
            Err(e) => {
                return Err(e.to_db_error());
            },
        };
        let ghost kbs = kb@;
        let ghost vbs = vb@;
        let mut steps: Vec<MmStep> = Vec::new();
        steps.push(MmStep::Rem(kb, vb));
        proof {
            assert(steps.deep_view() =~= seq![MmStepM::Rem(kbs, vbs)]);
            lemma_mm_apply_one(old(self).state().mtables, table.spec_name(), steps.deep_view());
        }
        match self.mm_apply_raw(name, &steps) {
            Ok(()) => Ok(existed),
            Err(e) => Err(e),
        }
    }

    /// Removes every value mapped to the key, in one transaction. Returns
    /// the removed values, decoded, each once, in ascending order.
    pub fn multimap_remove_all<K: DbKey, V: DbKey>(
        &mut self,
        table: &MultimapTableHandle<K, V>,
        key: &K,
    ) -> (r: Result<Vec<V>, DbError>)
        ensures
            index_unchanged(old(self), final(self)),
            final(self).wf() == old(self).wf(),
            final(self).state().tnames == old(self).state().tnames,
            final(self).state().tables == old(self).state().tables,
            ({
                let n = table.spec_name();
                let km = key.deep_view();
                let s = mm_vals::<K>(old(self).state(), n, km);
                match r {
                    Ok(out) => sorted_by_le::<V>(out.deep_view()) && distinct_seq(out.deep_view())
                        && (forall|i: int|
                        0 <= i < out.deep_view().len() ==> decoded_from::<V>(
                            #[trigger] out.deep_view()[i],
                            s,
                        )) && (
                    forall|b: Seq<u8>|
                        #[trigger] s.contains(b) ==> decodes_into::<V>(b, out.deep_view())) && final(self).state().mnames == old(self).state().mnames.insert(n) && final(self).state().mtables == old(self).state().mtables.remove((n, K::encm(km))),
                    Err(e) => e != DbError::NotFound
                        && ((final(self).state().mtables == old(self).state().mtables
                        && final(self).state().mnames == old(self).state().mnames) || (e
                        == DbError::CommitFailed && final(self).state().mnames == old(self).state().mnames.insert(n)
                        && final(self).state().mtables == old(self).state().mtables.remove((n, K::encm(km))))),
                }
            }),
    {
        proof {
            use_type_invariant(table);
        }
        let name = table.name();
        let kb = key.to_bytes();
        let vs: Vec<Vec<u8>> = match self.mm_get_eng(name, kb.as_slice()) {
            Ok(vs) => vs,
            Err(EngineError::NoSuchTable) => Vec::new(),
            Err(e) => {
                return Err(e.to_db_error());
            },
        };
        let out: Vec<V> = decode_sorted(&vs)?;
        proof {
            crate::sort::lemma_deep_view_index(&vs);
            let smid = mm_vals::<K>(self.state(), table.spec_name(), key.deep_view());
            let sold = mm_vals::<K>(old(self).state(), table.spec_name(), key.deep_view());
            assert(sold == smid);
            assert forall|i: int| 0 <= i < out.deep_view().len() implies decoded_from::<V>(
                #[trigger] out.deep_view()[i],
                sold,
            ) by {
                assert(some_decodes_to::<V>(vs.deep_view(), out.deep_view()[i]));
                let j = choose|j: int|
                    0 <= j < vs.deep_view().len() && V::decm(#[trigger] vs.deep_view()[j]) == Some(
                        out.deep_view()[i],
                    );
                assert(smid.contains(vs.deep_view()[j]));
                assert(sold.contains(vs.deep_view()[j]));
            }
            assert forall|b: Seq<u8>| #[trigger] sold.contains(b) implies decodes_into::<V>(
                b,
                out.deep_view(),
            ) by {
                assert(smid.contains(b));
                let j = choose|j: int|
                    0 <= j < vs.deep_view().len() && #[trigger] vs.deep_view()[j] == b;
            }
        }
        let ghost kbs = kb@;
        let mut steps: Vec<MmStep> = Vec::new();
        steps.push(MmStep::RemAll(kb));
        proof {
            assert(steps.deep_view() =~= seq![MmStepM::RemAll(kbs)]);
            lemma_mm_apply_one(old(self).state().mtables, table.spec_name(), steps.deep_view());
        }
        match self.mm_apply_raw(name, &steps) {
            Ok(()) => Ok(out),
            Err(e) => Err(e),
        }
    }

    /// Removes every key's value set from the multimap table, all in one
    /// write transaction, by removing each listed key's set in turn — the
    /// cost grows with the number of keys. The table itself remains.
    pub fn clear_multimap_table<K: DbKey, V: DbKey>(&mut self, table: &MultimapTableHandle<K, V>)
        -> (r: Result<(), DbError>)
        ensures
            index_unchanged(old(self), final(self)),
            final(self).wf() == old(self).wf(),
            final(self).state().tnames == old(self).state().tnames,
            final(self).state().tables == old(self).state().tables,
            ({
                let n = table.spec_name();
                match r {
                    Ok(()) => final(self).state().mnames == old(self).state().mnames.insert(n)
                        && final(self).state().mtables == drop_mm_table(
                        old(self).state().mtables,
                        n,
                    ),
                    Err(e) => e != DbError::NotFound && e != DbError::CorruptData
                        && ((final(self).state().mtables == old(self).state().mtables
                        && final(self).state().mnames == old(self).state().mnames) || (e
                        == DbError::CommitFailed && final(self).state().mnames == old(self).state().mnames.insert(n)
                        && final(self).state().mtables == drop_mm_table(old(self).state().mtables, n))),
                }
            }),
    {
        proof {
            use_type_invariant(table);
        }
        let name = table.name();
        let es = match self.mm_entries_eng(name) {
            Ok(es) => es,
            Err(e) => {
                return Err(e.to_db_error());
            },
        };
        let mut steps: Vec<MmStep> = Vec::new();
        let mut i: usize = 0;
        proof {
            crate::db::lemma_pairs_deep_view(&es);
        }
        while i < es.len()
            invariant
                0 <= i <= es@.len(),
                es.deep_view().len() == es@.len(),
                forall|m: int|
                    0 <= m < es@.len() ==> #[trigger] es.deep_view()[m] == (es@[m].0@, es@[m].1@),
                steps.deep_view().len() == i,
                forall|m: int|
                    0 <= m < i ==> #[trigger] steps.deep_view()[m] == MmStepM::RemAll(
                        es.deep_view()[m].0,
                    ),
            decreases es@.len() - i,
        {
            let mut kb: Vec<u8> = Vec::new();
            kb.extend_from_slice(es[i].0.as_slice());
            let ghost pre = steps.deep_view();
            let ghost kbv = kb@;
            steps.push(MmStep::RemAll(kb));
            proof {
                crate::sort::lemma_deep_view_index(&steps);
                assert(kbv =~= es.deep_view()[i as int].0);
                assert(steps.deep_view() =~~= pre.push(MmStepM::RemAll(
                    es.deep_view()[i as int].0,
                )));
            }
            i = i + 1;
        }
        proof {
            let n = table.spec_name();
            let m0 = old(self).state().mtables;
            let kbs = Seq::new(es.deep_view().len(), |m: int| es.deep_view()[m].0);
            assert(steps.deep_view() =~= remalls_of(kbs));
            lemma_mm_remalls(m0, n, kbs);
            assert forall|p: (Seq<char>, Seq<u8>)|
                m0.dom().contains(p) && p.0 == n implies kbs.contains(p.1) by {
                assert(p == (n, p.1));
                assert(m0.dom().contains((n, p.1)));
                assert(set_nonempty(m0[p]));
                let x = choose|x: Seq<u8>| m0[p].contains(x);
                assert(mm_at(m0, n, p.1).contains(x));
                let j = choose|j: int|
                    0 <= j < es.deep_view().len() && #[trigger] es.deep_view()[j] == (p.1, x);
                assert(kbs[j] == p.1);
            }
            assert(apply_mm_steps(m0, n, steps.deep_view()) =~= drop_mm_table(m0, n));
        }
        match self.mm_apply_raw(name, &steps) {
            Ok(()) => Ok(()),
            Err(e) => Err(e),
        }
    }

    /// Drops the multimap table entirely. Returns whether it existed.
    pub fn delete_multimap_table<K: DbKey, V: DbKey>(&mut self, table: &MultimapTableHandle<K, V>)
        -> (r: Result<bool, DbError>)
        ensures
            index_unchanged(old(self), final(self)),
            final(self).wf() == old(self).wf(),
            final(self).state().tnames == old(self).state().tnames,
            final(self).state().tables == old(self).state().tables,
            ({
                let n = table.spec_name();
                match r {
                    Ok(b) => b == old(self).state().mnames.contains(n) && final(self).state().mnames == old(self).state().mnames.remove(n) && final(self).state().mtables == drop_mm_table(old(self).state().mtables, n),
                    Err(e) => e != DbError::NotFound && e != DbError::CorruptData
                        && ((final(self).state().mtables == old(self).state().mtables
                        && final(self).state().mnames == old(self).state().mnames) || (e
                        == DbError::CommitFailed && final(self).state().mnames == old(self).state().mnames.remove(n)
                        && final(self).state().mtables == drop_mm_table(old(self).state().mtables, n))),
                }
            }),
    {
        proof {
            use_type_invariant(table);
        }
        self.mm_delete_raw(table.name())
    }
}

} // verus!
