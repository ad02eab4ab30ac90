//! The database object: one open store plus its in-memory savepoint index.

use vstd::prelude::*;

use crate::codec::{DbKey, DbValue};
use crate::engine::{
    apply_mm_steps, apply_steps, drop_mm_table, drop_table, mm_at, set_nonempty, state_of,
    tentries, MmStep, StoreEngine, StoreState, WriteStep,
};
use crate::error::{DbError, EngineError};
use crate::save::{ids_sorted, CakeSavepoint};

verus! {

/// A typed, transactional store. Every mutating operation runs in one engine
/// write transaction; reads see consistent snapshots; savepoints of the whole
/// store are kept in an in-memory index ordered by id.
pub struct CakeDb {
    pub(crate) engine: StoreEngine,
    pub(crate) savepoints: Vec<(usize, CakeSavepoint)>,
    pub(crate) tempfile_path: Option<String>,
}

/// The store state with no tables at all.
pub open spec fn empty_state() -> StoreState {
    StoreState {
        tnames: Set::empty(),
        tables: Map::empty(),
        mnames: Set::empty(),
        mtables: Map::empty(),
    }
}

/// The savepoint index and the temp-file path are as they were.
pub open spec fn index_unchanged(a: &CakeDb, b: &CakeDb) -> bool {
    &&& a.saves() == b.saves()
    &&& a.spec_tempfile_path() == b.spec_tempfile_path()
}

/// The store state is unchanged except that table `n` may now exist: the
/// read path creates a table it finds missing.
pub open spec fn tnames_grow(a: StoreState, b: StoreState, n: Seq<char>) -> bool {
    &&& (b.tnames == a.tnames || b.tnames == a.tnames.insert(n))
    &&& b.tables == a.tables
    &&& b.mnames == a.mnames
    &&& b.mtables == a.mtables
}

/// A listing of one table's entries: each key once, with its stored value,
/// and every stored key listed.
pub open spec fn entries_list_of(
    es: Seq<(Seq<u8>, Seq<u8>)>,
    t: Map<(Seq<char>, Seq<u8>), Seq<u8>>,
    n: Seq<char>,
) -> bool {
    &&& forall|i: int, j: int| 0 <= i < j < es.len() ==> es[i].0 != es[j].0
    &&& forall|i: int|
        0 <= i < es.len() ==> t.dom().contains((n, #[trigger] es[i].0)) && t[(n, es[i].0)]
            == es[i].1
    &&& forall|k: Seq<u8>|
        #[trigger] t.dom().contains((n, k)) ==> exists|i: int|
            0 <= i < es.len() && #[trigger] es[i].0 == k
}

impl CakeDb {
    /// The whole store's current abstract state.
    pub closed spec fn state(&self) -> StoreState {
        state_of(&self.engine)
    }

    /// The savepoint index: ids with the states they captured, in index
    /// order.
    pub closed spec fn saves(&self) -> Seq<(int, StoreState)> {
        self.savepoints@.map_values(|p: (usize, CakeSavepoint)| (p.0 as int, p.1.cap()))
    }

    /// The savepoint index is ordered by strictly increasing id.
    pub open spec fn wf(&self) -> bool {
        ids_sorted(self.saves())
    }

    /// The temp-file path this store lives in, if it was opened as a
    /// temporary store.
    pub closed spec fn spec_tempfile_path(&self) -> Option<Seq<char>> {
        match self.tempfile_path {
            Some(p) => Some(p@),
            None => None,
        }
    }

    /// Opens the store at `path`, creating it if it does not exist. The
    /// savepoint index starts empty; the store holds whatever the file held.
    pub fn new(path: &str) -> (r: Result<CakeDb, DbError>)
        ensures
            match r {
                Ok(db) => {
                    &&& db.wf()
                    &&& db.saves() == Seq::<(int, StoreState)>::empty()
                    &&& db.spec_tempfile_path() is None
                },
                Err(_) => true,
            },
    {
        let engine = match StoreEngine::open(path) {
            Ok(e) => e,
            Err(e) => {
                return Err(e.to_db_error());
            },
        };
        let db = CakeDb { engine, savepoints: Vec::new(), tempfile_path: None };
        proof {
            assert(db.saves() =~= Seq::<(int, StoreState)>::empty());
        }
        Ok(db)
    }

    /// Opens a fresh store in a temporary file: no tables, no entries, no
    /// savepoints.
    pub fn new_temp() -> (r: Result<CakeDb, DbError>)
        ensures
            match r {
                Ok(db) => {
                    &&& db.wf()
                    &&& db.saves() == Seq::<(int, StoreState)>::empty()
                    &&& db.state() == empty_state()
                    &&& db.spec_tempfile_path() is Some
                },
                Err(_) => true,
            },
    {
        let (engine, path) = match StoreEngine::open_temp() {
            Ok(p) => p,
            Err(e) => {
                return Err(e.to_db_error());
            },
        };
        let db = CakeDb { engine, savepoints: Vec::new(), tempfile_path: Some(path) };
        proof {
            assert(db.saves() =~= Seq::<(int, StoreState)>::empty());
            assert(db.state() =~= empty_state());
        }
        Ok(db)
    }

    /// The underlying engine handle, for finer control of reads.
    pub fn database(&self) -> (r: &StoreEngine)
        ensures
            state_of(r) == self.state(),
    {
        &self.engine
    }

    /// The underlying engine handle, mutably, for finer control. What the
    /// caller does through it is outside this object's contracts: nothing is
    /// promised about the state afterwards.
    pub fn mut_database(&mut self) -> &mut StoreEngine {
        &mut self.engine
    }

    /// The path of the temporary file this store lives in, if any.
    pub fn tempfile_path(&self) -> (r: Option<&String>)
        ensures
            match r {
                Some(p) => self.spec_tempfile_path() == Some(p@),
                None => self.spec_tempfile_path() is None,
            },
    {
        self.tempfile_path.as_ref()
    }

    /// Compacts the store's file. Returns whether compaction did anything;
    /// the store's contents are untouched either way.
    pub fn compact(&mut self) -> (r: Result<bool, DbError>)
        ensures
            index_unchanged(old(self), final(self)),
            final(self).state() == old(self).state(),
            final(self).wf() == old(self).wf(),
    {
        match self.engine.raw_compact() {
            Ok(b) => Ok(b),
            Err(e) => Err(e.to_db_error()),
        }
    }

    /// Reads the value stored under `kb` in table `name`, creating the table
    /// first if it does not exist yet.
    pub(crate) fn read_raw(&mut self, name: &str, kb: &[u8]) -> (r: Result<Option<Vec<u8>>, DbError>)
        requires
            name@.len() > 0,
        ensures
            index_unchanged(old(self), final(self)),
            tnames_grow(old(self).state(), final(self).state(), name@),
            final(self).wf() == old(self).wf(),
            match r {
                Ok(o) => final(self).state().tnames.contains(name@) && (match o {
                    Some(v) => final(self).state().tables.dom().contains((name@, kb@))
                        && final(self).state().tables[(name@, kb@)] == v@,
                    None => !final(self).state().tables.dom().contains((name@, kb@)),
                }),
                Err(e) => e == DbError::TransactionError || e == DbError::TableAccessError || e
                    == DbError::CommitFailed,
            },
    {
        match self.engine.raw_get(name, kb) {
            Ok(o) => Ok(o),
            Err(EngineError::NoSuchTable) => {
                match self.engine.raw_create_table(name) {
                    Ok(()) => {},
                    Err(e) => {
                        return Err(e.to_db_error());
                    },
                }
                match self.engine.raw_get(name, kb) {
                    Ok(o) => Ok(o),
                    Err(_) => Err(DbError::TableAccessError),
                }
            },
            Err(e) => Err(e.to_db_error()),
        }
    }

    /// Applies a sequence of plain-table edits in one write transaction: all
    /// of them on success, none on a failure before the commit, and all or
    /// none on a failed commit.
    pub(crate) fn apply_raw(&mut self, name: &str, steps: &Vec<WriteStep>) -> (r: Result<
        (),
        DbError,
    >)
        requires
            name@.len() > 0,
        ensures
            index_unchanged(old(self), final(self)),
            final(self).wf() == old(self).wf(),
            match r {
                Ok(()) => final(self).state().tnames == old(self).state().tnames.insert(name@)
                    && final(self).state().tables == apply_steps(
                    old(self).state().tables,
                    name@,
                    steps.deep_view(),
                ) && final(self).state().mnames == old(self).state().mnames
                    && final(self).state().mtables == old(self).state().mtables,
                Err(e) => (e == DbError::TransactionError || e == DbError::TableAccessError || e
                    == DbError::CommitFailed) && (final(self).state() == old(self).state() || (e
                    == DbError::CommitFailed && final(self).state() == applied_state(old(self).state(), name@, steps.deep_view()))),
            },
    {
        match self.engine.raw_apply(name, steps) {
            Ok(()) => Ok(()),
            Err(e) => Err(e.to_db_error()),
        }
    }

    /// Clears every entry of table `name` in one write transaction, creating
    /// the (then empty) table if it was missing.
    pub(crate) fn clear_raw(&mut self, name: &str) -> (r: Result<(), DbError>)
        requires
            name@.len() > 0,
        ensures
            index_unchanged(old(self), final(self)),
            final(self).wf() == old(self).wf(),
            match r {
                Ok(()) => final(self).state().tnames == old(self).state().tnames.insert(name@)
                    && final(self).state().tables == drop_table(old(self).state().tables, name@)
                    && final(self).state().mnames == old(self).state().mnames
                    && final(self).state().mtables == old(self).state().mtables,
                Err(e) => (e == DbError::TransactionError || e == DbError::TableAccessError || e
                    == DbError::CommitFailed) && (final(self).state() == old(self).state() || (e
                    == DbError::CommitFailed && final(self).state() == cleared_state(old(self).state(), name@))),
            },
    {
        match self.engine.raw_clear(name) {
            Ok(()) => Ok(()),
            Err(e) => Err(e.to_db_error()),
        }
    }

    /// Drops table `name` entirely; reports whether it existed.
    pub(crate) fn delete_raw(&mut self, name: &str) -> (r: Result<bool, DbError>)
        requires
            name@.len() > 0,
        ensures
            index_unchanged(old(self), final(self)),
            final(self).wf() == old(self).wf(),
            match r {
                Ok(b) => b == old(self).state().tnames.contains(name@) && final(self).state().tnames == old(self).state().tnames.remove(name@) && final(self).state().tables == drop_table(old(self).state().tables, name@) && final(self).state().mnames == old(self).state().mnames && final(self).state().mtables == old(self).state().mtables,
                Err(e) => (e == DbError::TransactionError || e == DbError::TableAccessError || e
                    == DbError::CommitFailed) && (final(self).state() == old(self).state() || (e
                    == DbError::CommitFailed && final(self).state() == deleted_state(old(self).state(), name@))),
            },
    {
        match self.engine.raw_delete_table(name) {
            Ok(b) => Ok(b),
            Err(e) => Err(e.to_db_error()),
        }
    }

    /// Drops multimap table `name` entirely; reports whether it existed.
    pub(crate) fn mm_delete_raw(&mut self, name: &str) -> (r: Result<bool, DbError>)
        requires
            name@.len() > 0,
        ensures
            index_unchanged(old(self), final(self)),
            final(self).wf() == old(self).wf(),
            match r {
                Ok(b) => b == old(self).state().mnames.contains(name@) && final(self).state().mnames == old(self).state().mnames.remove(name@) && final(self).state().mtables == drop_mm_table(old(self).state().mtables, name@) && final(self).state().tnames == old(self).state().tnames && final(self).state().tables == old(self).state().tables,
                Err(e) => (e == DbError::TransactionError || e == DbError::TableAccessError || e
                    == DbError::CommitFailed) && (final(self).state() == old(self).state() || (e
                    == DbError::CommitFailed && final(self).state() == mm_deleted_state(old(self).state(), name@))),
            },
    {
        match self.engine.raw_mm_delete_table(name) {
            Ok(b) => Ok(b),
            Err(e) => Err(e.to_db_error()),
        }
    }

    /// The values mapped to `kb` in multimap table `name`. Unlike the plain
    /// read path this does not create a missing table: it reports
    /// `NoSuchTable`.
    pub(crate) fn mm_get_eng(&self, name: &str, kb: &[u8]) -> (r: Result<Vec<Vec<u8>>, EngineError>)
        requires
            name@.len() > 0,
        ensures
            match r {
                Ok(vs) => self.state().mnames.contains(name@) && mm_vals_list_of(
                    vs.deep_view(),
                    mm_at(self.state().mtables, name@, kb@),
                ),
                Err(e) => e == EngineError::NoSuchTable ==> !self.state().mnames.contains(name@)
                    && (forall|k: Seq<u8>, x: Seq<u8>|
                    !mm_at(self.state().mtables, name@, k).contains(x)),
            },
    {
        match self.engine.raw_mm_get(name, kb) {
            Ok(vs) => {
                proof {
                    lemma_vecs_deep_view(&vs);
                    let dv = vs.deep_view();
                    let s = mm_at(self.state().mtables, name@, kb@);
                    assert forall|i: int, j: int| 0 <= i < j < dv.len() implies dv[i] != dv[j] by {
                        assert(dv[i] == vs@[i]@);
                        assert(dv[j] == vs@[j]@);
                    }
                    assert forall|i: int| 0 <= i < dv.len() implies s.contains(#[trigger] dv[i]) by {
                        assert(dv[i] == vs@[i]@);
                    }
                    assert forall|x: Seq<u8>| #[trigger] s.contains(x) implies exists|i: int|
                        0 <= i < dv.len() && #[trigger] dv[i] == x by {
                        let i = choose|i: int| 0 <= i < vs@.len() && #[trigger] vs@[i]@ == x;
                        assert(dv[i] == x);
                    }
                }
                Ok(vs)
            },
            Err(e) => Err(e),
        }
    }

    /// Every (key, value) mapping of multimap table `name`; fails with
    /// `NoSuchTable` if the table does not exist.
    pub(crate) fn mm_entries_eng(&self, name: &str) -> (r: Result<
        Vec<(Vec<u8>, Vec<u8>)>,
        EngineError,
    >)
        requires
            name@.len() > 0,
        ensures
            match r {
                Ok(es) => self.state().mnames.contains(name@) && mm_list_of(
                    es.deep_view(),
                    self.state().mtables,
                    name@,
                ) && (forall|k: Seq<u8>|
                    #[trigger] self.state().mtables.dom().contains((name@, k)) ==> set_nonempty(
                        self.state().mtables[(name@, k)],
                    )),
                Err(e) => e == EngineError::NoSuchTable ==> !self.state().mnames.contains(name@)
                    && (forall|k: Seq<u8>, x: Seq<u8>|
                    !mm_at(self.state().mtables, name@, k).contains(x)),
            },
    {
        match self.engine.raw_mm_entries(name) {
            Ok(es) => {
                proof {
                    lemma_pairs_deep_view(&es);
                    let dv = es.deep_view();
                    let m = self.state().mtables;
                    assert forall|k: Seq<u8>, x: Seq<u8>| #[trigger] mm_at(m, name@, k).contains(x)
                        implies exists|i: int| 0 <= i < dv.len() && #[trigger] dv[i] == (k, x) by {
                        let i = choose|i: int|
                            0 <= i < es@.len() && #[trigger] es@[i].0@ == k && es@[i].1@ == x;
                        assert(dv[i] == (k, x));
                    }
                    assert forall|i: int, j: int| 0 <= i < j < dv.len() implies dv[i] != dv[j] by {
                        assert(dv[i] == (es@[i].0@, es@[i].1@));
                        assert(dv[j] == (es@[j].0@, es@[j].1@));
                    }
                    assert forall|i: int| 0 <= i < dv.len() implies mm_at(
                        m,
                        name@,
                        (#[trigger] dv[i]).0,
                    ).contains(dv[i].1) by {
                        assert(dv[i] == (es@[i].0@, es@[i].1@));
                        assert(mm_at(m, name@, es@[i].0@).contains(es@[i].1@));
                    }
                }
                Ok(es)
            },
            Err(e) => Err(e),
        }
    }

    /// Applies a sequence of multimap edits in one write transaction: all of
    /// them on success, none on a failure before the commit, and all or none
    /// on a failed commit.
    pub(crate) fn mm_apply_raw(&mut self, name: &str, steps: &Vec<MmStep>) -> (r: Result<
        (),
        DbError,
    >)
        requires
            name@.len() > 0,
        ensures
            index_unchanged(old(self), final(self)),
            final(self).wf() == old(self).wf(),
            match r {
                Ok(()) => final(self).state().mnames == old(self).state().mnames.insert(name@)
                    && final(self).state().mtables == apply_mm_steps(
                    old(self).state().mtables,
                    name@,
                    steps.deep_view(),
                ) && final(self).state().tnames == old(self).state().tnames && final(self).state().tables == old(self).state().tables,
                Err(e) => (e == DbError::TransactionError || e == DbError::TableAccessError || e
                    == DbError::CommitFailed) && (final(self).state() == old(self).state() || (e
                    == DbError::CommitFailed && final(self).state() == mm_applied_state(old(self).state(), name@, steps.deep_view()))),
            },
    {
        match self.engine.raw_mm_apply(name, steps) {
            Ok(()) => Ok(()),
            Err(e) => Err(e.to_db_error()),
        }
    }

    /// Replaces the whole value set of `kb` in multimap table `name` in one
    /// write transaction; reports whether the key had any value before.
    pub(crate) fn mm_assign_raw(&mut self, name: &str, kb: &[u8], values: &Vec<Vec<u8>>) -> (r:
        Result<bool, DbError>)
        requires
            name@.len() > 0,
        ensures
            index_unchanged(old(self), final(self)),
            final(self).wf() == old(self).wf(),
            match r {
                Ok(b) => b == set_nonempty(mm_at(old(self).state().mtables, name@, kb@)) && final(self).state().mnames == old(self).state().mnames.insert(name@) && final(self).state().mtables == (if values.deep_view().len() > 0 {
                    old(self).state().mtables.insert((name@, kb@), values.deep_view().to_set())
                } else {
                    old(self).state().mtables.remove((name@, kb@))
                }) && final(self).state().tnames == old(self).state().tnames && final(self).state().tables == old(self).state().tables,
                Err(e) => (e == DbError::TransactionError || e == DbError::TableAccessError || e
                    == DbError::CommitFailed) && (final(self).state() == old(self).state() || (e
                    == DbError::CommitFailed && final(self).state() == mm_assigned_state(old(self).state(), name@, kb@, values.deep_view()))),
            },
    {
        match self.engine.raw_mm_assign(name, kb, values) {
            Ok(b) => Ok(b),
            Err(e) => Err(e.to_db_error()),
        }
    }

    /// Lists every entry of table `name`, creating the table first if it
    /// does not exist yet.
    pub(crate) fn entries_raw(&mut self, name: &str) -> (r: Result<
        Vec<(Vec<u8>, Vec<u8>)>,
        DbError,
    >)
        requires
            name@.len() > 0,
        ensures
            index_unchanged(old(self), final(self)),
            tnames_grow(old(self).state(), final(self).state(), name@),
            final(self).wf() == old(self).wf(),
            match r {
                Ok(es) => final(self).state().tnames.contains(name@) && entries_list_of(
                    es.deep_view(),
                    final(self).state().tables,
                    name@,
                ),
                Err(e) => e == DbError::TransactionError || e == DbError::TableAccessError || e
                    == DbError::CommitFailed,
            },
    {
        match self.engine.raw_entries(name) {
            Ok(es) => {
                proof {
                    lemma_entries_list(&es, self.state().tables, name@);
                }
                Ok(es)
            },
            Err(EngineError::NoSuchTable) => {
                match self.engine.raw_create_table(name) {
                    Ok(()) => {},
                    Err(e) => {
                        return Err(e.to_db_error());
                    },
                }
                match self.engine.raw_entries(name) {
                    Ok(es) => {
                        proof {
                            lemma_entries_list(&es, self.state().tables, name@);
                        }
                        Ok(es)
                    },
                    Err(_) => Err(DbError::TableAccessError),
                }
            },
            Err(e) => Err(e.to_db_error()),
        }
    }
}

/// A listing of one multimap table's mappings: each (key, value) pair once,
/// every pair in the table listed, and none that is not.
pub open spec fn mm_list_of(
    es: Seq<(Seq<u8>, Seq<u8>)>,
    m: Map<(Seq<char>, Seq<u8>), Set<Seq<u8>>>,
    n: Seq<char>,
) -> bool {
    &&& forall|i: int, j: int| 0 <= i < j < es.len() ==> es[i] != es[j]
    &&& forall|i: int| 0 <= i < es.len() ==> mm_at(m, n, (#[trigger] es[i]).0).contains(es[i].1)
    &&& forall|k: Seq<u8>, x: Seq<u8>|
        #[trigger] mm_at(m, n, k).contains(x) ==> exists|i: int|
            0 <= i < es.len() && #[trigger] es[i] == (k, x)
}

/// A value listing of one multimap key: each value once and all of them.
pub open spec fn mm_vals_list_of(vs: Seq<Seq<u8>>, s: Set<Seq<u8>>) -> bool {
    &&& forall|i: int, j: int| 0 <= i < j < vs.len() ==> vs[i] != vs[j]
    &&& forall|i: int| 0 <= i < vs.len() ==> s.contains(#[trigger] vs[i])
    &&& forall|x: Seq<u8>| #[trigger] s.contains(x) ==> exists|i: int|
        0 <= i < vs.len() && #[trigger] vs[i] == x
}

/// The state after a batch of plain-table edits of table `n` took effect.
pub open spec fn applied_state(st: StoreState, n: Seq<char>, steps: Seq<crate::engine::StepM>) -> StoreState {
    StoreState {
        tnames: st.tnames.insert(n),
        tables: apply_steps(st.tables, n, steps),
        mnames: st.mnames,
        mtables: st.mtables,
    }
}

/// The state after every entry of table `n` was removed.
pub open spec fn cleared_state(st: StoreState, n: Seq<char>) -> StoreState {
    StoreState {
        tnames: st.tnames.insert(n),
        tables: drop_table(st.tables, n),
        mnames: st.mnames,
        mtables: st.mtables,
    }
}

/// The state after table `n` was dropped.
pub open spec fn deleted_state(st: StoreState, n: Seq<char>) -> StoreState {
    StoreState {
        tnames: st.tnames.remove(n),
        tables: drop_table(st.tables, n),
        mnames: st.mnames,
        mtables: st.mtables,
    }
}

/// The state after a batch of multimap edits of table `n` took effect.
pub open spec fn mm_applied_state(
    st: StoreState,
    n: Seq<char>,
    steps: Seq<crate::engine::MmStepM>,
) -> StoreState {
    StoreState {
        tnames: st.tnames,
        tables: st.tables,
        mnames: st.mnames.insert(n),
        mtables: apply_mm_steps(st.mtables, n, steps),
    }
}

/// The state after key `kb` of multimap table `n` was assigned exactly the
/// given value byte strings.
pub open spec fn mm_assigned_state(
    st: StoreState,
    n: Seq<char>,
    kb: Seq<u8>,
    vbs: Seq<Seq<u8>>,
) -> StoreState {
    StoreState {
        tnames: st.tnames,
        tables: st.tables,
        mnames: st.mnames.insert(n),
        mtables: if vbs.len() > 0 {
            st.mtables.insert((n, kb), vbs.to_set())
        } else {
            st.mtables.remove((n, kb))
        },
    }
}

/// The state after multimap table `n` was dropped.
pub open spec fn mm_deleted_state(st: StoreState, n: Seq<char>) -> StoreState {
    StoreState {
        tnames: st.tnames,
        tables: st.tables,
        mnames: st.mnames.remove(n),
        mtables: drop_mm_table(st.mtables, n),
    }
}

/// The table holds a value under this key (keys compared by encoding).
pub open spec fn tbl_contains<K: DbKey>(st: StoreState, n: Seq<char>, km: K::V) -> bool {
    st.tables.dom().contains((n, K::encm(km)))
}

/// The bytes the table holds under this key.
pub open spec fn tbl_bytes<K: DbKey>(st: StoreState, n: Seq<char>, km: K::V) -> Seq<u8> {
    st.tables[(n, K::encm(km))]
}

/// The all-tables map after one typed entry is written.
pub open spec fn tbl_put<K: DbKey, V: DbValue>(
    t: Map<(Seq<char>, Seq<u8>), Seq<u8>>,
    n: Seq<char>,
    km: K::V,
    vm: V::V,
) -> Map<(Seq<char>, Seq<u8>), Seq<u8>> {
    t.insert((n, K::encm(km)), V::encm(vm))
}

/// The all-tables map after one typed key is deleted.
pub open spec fn tbl_del<K: DbKey>(
    t: Map<(Seq<char>, Seq<u8>), Seq<u8>>,
    n: Seq<char>,
    km: K::V,
) -> Map<(Seq<char>, Seq<u8>), Seq<u8>> {
    t.remove((n, K::encm(km)))
}

/// The set of value byte strings mapped to this typed key in a multimap
/// table (keys compared by encoding).
pub open spec fn mm_vals<K: DbKey>(st: StoreState, n: Seq<char>, km: K::V) -> Set<Seq<u8>> {
    mm_at(st.mtables, n, K::encm(km))
}

/// How the database's abstractions are put together: its state is the
/// engine's, and each savepoint entry pairs its id with the state its
/// checkpoint captured.
pub(crate) proof fn lemma_views(db: &CakeDb)
    ensures
        db.state() == state_of(&db.engine),
        db.saves().len() == db.savepoints@.len(),
        forall|i: int|
            0 <= i < db.savepoints@.len() ==> #[trigger] db.saves()[i] == (
                db.savepoints@[i].0 as int,
                db.savepoints@[i].1.cap(),
            ),
        db.spec_tempfile_path() == (match db.tempfile_path {
            Some(p) => Some(p@),
            None => None,
        }),
{
}

/// Each pair's deep view is the pair of views.
pub proof fn lemma_pairs_deep_view(es: &Vec<(Vec<u8>, Vec<u8>)>)
    ensures
        es.deep_view().len() == es@.len(),
        forall|i: int|
            0 <= i < es@.len() ==> #[trigger] es.deep_view()[i] == (es@[i].0@, es@[i].1@),
{
}

/// Each byte vector's deep view is its view.
pub proof fn lemma_vecs_deep_view(vs: &Vec<Vec<u8>>)
    ensures
        vs.deep_view().len() == vs@.len(),
        forall|i: int| 0 <= i < vs@.len() ==> #[trigger] vs.deep_view()[i] == vs@[i]@,
{
}

/// A listing whose pairs view a table's raw listing lists that table.
proof fn lemma_entries_list(
    es: &Vec<(Vec<u8>, Vec<u8>)>,
    t: Map<(Seq<char>, Seq<u8>), Seq<u8>>,
    n: Seq<char>,
)
    requires
        forall|i: int, j: int| 0 <= i < j < es@.len() ==> es@[i].0@ != es@[j].0@,
        forall|i: int|
            0 <= i < es@.len() ==> t.dom().contains((n, #[trigger] es@[i].0@)) && t[(n, es@[i].0@)]
                == es@[i].1@,
        forall|k: Seq<u8>|
            t.dom().contains((n, k)) ==> exists|i: int|
                0 <= i < es@.len() && #[trigger] es@[i].0@ == k,
    ensures
        entries_list_of(es.deep_view(), t, n),
{
    lemma_pairs_deep_view(es);
    let dv = es.deep_view();
    assert forall|i: int, j: int| 0 <= i < j < dv.len() implies dv[i].0 != dv[j].0 by {
        assert(dv[i] == (es@[i].0@, es@[i].1@));
        assert(dv[j] == (es@[j].0@, es@[j].1@));
    }
    assert forall|i: int|
        0 <= i < dv.len() implies t.dom().contains((n, #[trigger] dv[i].0)) && t[(n, dv[i].0)]
        == dv[i].1 by {
        assert(dv[i] == (es@[i].0@, es@[i].1@));
        assert(t.dom().contains((n, es@[i].0@)));
    }
    assert forall|k: Seq<u8>| t.dom().contains((n, k)) implies exists|i: int|
        0 <= i < dv.len() && #[trigger] dv[i].0 == k by {
        let i = choose|i: int| 0 <= i < es@.len() && #[trigger] es@[i].0@ == k;
        assert(dv[i] == (es@[i].0@, es@[i].1@));
        assert(0 <= i < dv.len() && dv[i].0 == k);
    }
}

} // verus!
