//! Single-key write operations. Each one runs its mutation inside one engine
//! write transaction; on any failure before the commit the table is left as
//! it was, and on a failed commit (`CommitFailed`) the write took effect
//! fully or not at all.

use vstd::prelude::*;

use crate::codec::{DbKey, DbValue};
use crate::db::{index_unchanged, lemma_views, tbl_bytes, tbl_contains, tbl_del, tbl_put, CakeDb};
use crate::engine::{lemma_apply_one, state_of, StepM, WriteStep};
use crate::error::DbError;
use crate::handles::TableHandle;

verus! {

impl CakeDb {
    /// Adds the pair only if the key is absent. Returns whether it was newly
    /// added: if the key was present, the table is untouched and the result
    /// is `false`.
    pub fn try_add<K: DbKey, V: DbValue>(
        &mut self,
        table: &TableHandle<K, V>,
        key: &K,
        value: V,
    ) -> (r: Result<bool, DbError>)
        ensures
            index_unchanged(old(self), final(self)),
            final(self).wf() == old(self).wf(),
            final(self).state().mnames == old(self).state().mnames,
            final(self).state().mtables == old(self).state().mtables,
            ({
                let n = table.spec_name();
                let km = key.deep_view();
                match r {
                    Ok(true) => !tbl_contains::<K>(old(self).state(), n, km)
                        && final(self).state().tables == tbl_put::<K, V>(
                        old(self).state().tables,
                        n,
                        km,
                        value.deep_view(),
                    ) && final(self).state().tnames.contains(n),
                    Ok(false) => tbl_contains::<K>(old(self).state(), n, km)
                        && final(self).state().tables == old(self).state().tables,
                    Err(e) => e != DbError::NotFound && e != DbError::CorruptData && (final(self).state().tables == old(self).state().tables || (e == DbError::CommitFailed
                        && final(self).state().tables == tbl_put::<K, V>(
                        old(self).state().tables,
                        n,
                        km,
                        value.deep_view(),
                    ))),
                }
            }),
    {
        let kb = key.to_bytes();
        proof {
            use_type_invariant(table);
        }
        let name = table.name();
        match self.read_raw(name, kb.as_slice())? {
            Some(_) => Ok(false),
            None => {
                let vb = value.to_bytes();
                let ghost kbs = kb@;
                let ghost vbs = vb@;
                let mut steps: Vec<WriteStep> = Vec::new();
                steps.push(WriteStep::Put(kb, vb));
                proof {
                    assert(steps.deep_view() =~= seq![StepM::Put(kbs, vbs)]);
                    lemma_apply_one(old(self).state().tables, table.spec_name(), steps.deep_view());
                }
                match self.apply_raw(name, &steps) {
                    Ok(()) => Ok(true),
                    Err(e) => Err(e),
                }
            },
        }
    }

    /// Writes the pair, replacing any value the key had. Returns the previous
    /// value, if the key was present.
    pub fn insert<K: DbKey, V: DbValue>(
        &mut self,
        table: &TableHandle<K, V>,
        key: &K,
        value: V,
    ) -> (r: Result<Option<V>, DbError>)
        ensures
            index_unchanged(old(self), final(self)),
            final(self).wf() == old(self).wf(),
            final(self).state().mnames == old(self).state().mnames,
            final(self).state().mtables == old(self).state().mtables,
            ({
                let n = table.spec_name();
                let km = key.deep_view();
                match r {
                    Ok(prior) => final(self).state().tables == tbl_put::<K, V>(
                        old(self).state().tables,
                        n,
                        km,
                        value.deep_view(),
                    ) && final(self).state().tnames.contains(n) && (match prior {
                        Some(p) => tbl_contains::<K>(old(self).state(), n, km) && V::decm(
                            tbl_bytes::<K>(old(self).state(), n, km),
                        ) == Some(p.deep_view()),
                        None => !tbl_contains::<K>(old(self).state(), n, km),
                    }),
                    Err(e) => e != DbError::NotFound && (e == DbError::CorruptData
                        ==> tbl_contains::<K>(old(self).state(), n, km) && V::decm(
                        tbl_bytes::<K>(old(self).state(), n, km),
                    ) is None) && (final(self).state().tables == old(self).state().tables || (e
                        == DbError::CommitFailed && final(self).state().tables == tbl_put::<K, V>(
                        old(self).state().tables,
                        n,
                        km,
                        value.deep_view(),
                    ))),
                }
            }),
    {
        let kb = key.to_bytes();
        proof {
            use_type_invariant(table);
        }
        let name = table.name();
        let prior_bytes = self.read_raw(name, kb.as_slice())?;
        let prior = match prior_bytes {
            Some(vb) => Some(V::from_bytes(vb.as_slice())?),
            None => None,
        };
        let vb = value.to_bytes();
        let ghost kbs = kb@;
        let ghost vbs = vb@;
        let mut steps: Vec<WriteStep> = Vec::new();
        steps.push(WriteStep::Put(kb, vb));
        proof {
            assert(steps.deep_view() =~= seq![StepM::Put(kbs, vbs)]);
            lemma_apply_one(old(self).state().tables, table.spec_name(), steps.deep_view());
        }
        match self.apply_raw(name, &steps) {
            Ok(()) => Ok(prior),
            Err(e) => Err(e),
        }
    }

    /// Applies `edit` to the stored value and writes the result back.
    /// Returns the value from before the edit; fails with `NotFound` if the
    /// key is absent, in which case `edit` is never run.
    pub fn update<K: DbKey, V: DbValue, F: Fn(V) -> V>(
        &mut self,
        table: &TableHandle<K, V>,
        key: &K,
        edit: F,
    ) -> (r: Result<V, DbError>)
        requires
            forall|v: V| call_requires(edit, (v,)),
        ensures
            index_unchanged(old(self), final(self)),
            final(self).wf() == old(self).wf(),
            final(self).state().mnames == old(self).state().mnames,
            final(self).state().mtables == old(self).state().mtables,
            ({
                let n = table.spec_name();
                let km = key.deep_view();
                match r {
                    Ok(p) => tbl_contains::<K>(old(self).state(), n, km) && V::decm(
                        tbl_bytes::<K>(old(self).state(), n, km),
                    ) == Some(p.deep_view()) && exists|a: V, nv: V|
                        a.deep_view() == p.deep_view() && #[trigger] call_ensures(edit, (a,), nv)
                            && final(self).state().tables == tbl_put::<K, V>(
                            old(self).state().tables,
                            n,
                            km,
                            nv.deep_view(),
                        ),
                    Err(e) => (e == DbError::NotFound ==> !tbl_contains::<K>(
                        old(self).state(),
                        n,
                        km,
                    )) && (e == DbError::CorruptData ==> tbl_contains::<K>(old(self).state(), n, km)
                        && V::decm(tbl_bytes::<K>(old(self).state(), n, km)) is None) && (final(self).state().tables == old(self).state().tables || (e == DbError::CommitFailed
                        && tbl_contains::<K>(old(self).state(), n, km) && exists|a: V, nv: V|
                        V::decm(tbl_bytes::<K>(old(self).state(), n, km)) == Some(a.deep_view())
                            && #[trigger] call_ensures(edit, (a,), nv) && final(self).state().tables == tbl_put::<K, V>(
                            old(self).state().tables,
                            n,
                            km,
                            nv.deep_view(),
                        ))),
                }
            }),
    {
        let kb = key.to_bytes();
        proof {
            use_type_invariant(table);
        }
        let name = table.name();
        match self.read_raw(name, kb.as_slice())? {
            None => Err(DbError::NotFound),
            Some(vb) => {
                let cur = V::from_bytes(vb.as_slice())?;
                let ret = cur.dup();
                let ghost ga = cur;
                let newv = edit(cur);
                let nb = newv.to_bytes();
                let ghost kbs = kb@;
                let ghost nbs = nb@;
                let mut steps: Vec<WriteStep> = Vec::new();
                steps.push(WriteStep::Put(kb, nb));
                proof {
                    assert(steps.deep_view() =~= seq![StepM::Put(kbs, nbs)]);
                    lemma_apply_one(old(self).state().tables, table.spec_name(), steps.deep_view());
                    assert(call_ensures(edit, (ga,), newv));
                }
                match self.apply_raw(name, &steps) {
                    Ok(()) => Ok(ret),
                    Err(e) => Err(e),
                }
            },
        }
    }

    /// Removes the key. Returns the value it had, if it was present.
    pub fn remove<K: DbKey, V: DbValue>(&mut self, table: &TableHandle<K, V>, key: &K) -> (r:
        Result<Option<V>, DbError>)
        ensures
            index_unchanged(old(self), final(self)),
            final(self).wf() == old(self).wf(),
            final(self).state().mnames == old(self).state().mnames,
            final(self).state().mtables == old(self).state().mtables,
            ({
                let n = table.spec_name();
                let km = key.deep_view();
                match r {
                    Ok(Some(p)) => tbl_contains::<K>(old(self).state(), n, km) && V::decm(
                        tbl_bytes::<K>(old(self).state(), n, km),
                    ) == Some(p.deep_view()) && final(self).state().tables == tbl_del::<K>(
                        old(self).state().tables,
                        n,
                        km,
                    ),
                    Ok(None) => !tbl_contains::<K>(old(self).state(), n, km)
                        && final(self).state().tables == old(self).state().tables,
                    Err(e) => e != DbError::NotFound && (e == DbError::CorruptData
                        ==> tbl_contains::<K>(old(self).state(), n, km) && V::decm(
                        tbl_bytes::<K>(old(self).state(), n, km),
                    ) is None) && (final(self).state().tables == old(self).state().tables || (e
                        == DbError::CommitFailed && final(self).state().tables == tbl_del::<K>(
                        old(self).state().tables,
                        n,
                        km,
                    ))),
                }
            }),
    {
        let kb = key.to_bytes();
        proof {
            use_type_invariant(table);
        }
        let name = table.name();
        match self.read_raw(name, kb.as_slice())? {
            None => Ok(None),
            Some(vb) => {
                let prior = V::from_bytes(vb.as_slice())?;
                let ghost kbs = kb@;
                let mut steps: Vec<WriteStep> = Vec::new();
                steps.push(WriteStep::Del(kb));
                proof {
                    assert(steps.deep_view() =~= seq![StepM::Del(kbs)]);
                    lemma_apply_one(old(self).state().tables, table.spec_name(), steps.deep_view());
                }
                match self.apply_raw(name, &steps) {
                    Ok(()) => Ok(Some(prior)),
                    Err(e) => Err(e),
                }
            },
        }
    }
}

} // verus!
