//! The storage engine boundary.
//!
//! `StoreEngine` owns the on-disk store. Its abstract state is four maps:
//! which byte-keyed tables exist, their entries, which multimap tables exist,
//! and their entries. Every function here is a trusted wrapper: it runs one
//! engine operation (one transaction per mutating call) and its contract says
//! how the abstract state moves. A failure before the commit aborts the
//! dropped transaction and changes nothing; a failure of the commit itself
//! is reported as `CommitFailed`, and there the engine promises only that
//! the transaction's changes apply atomically — fully or not at all — and
//! may already be durable, never that they rolled back. Everything above
//! this module is verified against these contracts.

use vstd::prelude::*;

use redb::{ReadableDatabase, ReadableMultimapTable, ReadableTable, ReadableTableMetadata};

use crate::error::EngineError;

verus! {

/// Handle to one open store. Holds the engine's database object; its whole
/// abstract state is given by the four content functions below.
#[verifier::external_body]
pub struct StoreEngine {
    db: redb::Database,
}

/// Handle to one engine-level checkpoint of the whole store: restorable while
/// the handle lives, never written to the store itself.
#[verifier::external_body]
pub struct Checkpoint {
    sp: redb::Savepoint,
}

/// The names of the plain tables that exist in the store.
pub uninterp spec fn tnames(e: &StoreEngine) -> Set<Seq<char>>;

/// The entries of all plain tables: (table name, key bytes) to value bytes.
pub uninterp spec fn tentries(e: &StoreEngine) -> Map<(Seq<char>, Seq<u8>), Seq<u8>>;

/// The names of the multimap tables that exist in the store.
pub uninterp spec fn mnames(e: &StoreEngine) -> Set<Seq<char>>;

/// The entries of all multimap tables: (table name, key bytes) to the
/// non-empty set of value bytes mapped to that key.
pub uninterp spec fn mentries(e: &StoreEngine) -> Map<(Seq<char>, Seq<u8>), Set<Seq<u8>>>;

/// The plain-table names captured by a checkpoint.
pub uninterp spec fn cap_tnames(c: &Checkpoint) -> Set<Seq<char>>;

/// The plain-table entries captured by a checkpoint.
pub uninterp spec fn cap_tentries(c: &Checkpoint) -> Map<(Seq<char>, Seq<u8>), Seq<u8>>;

/// The multimap-table names captured by a checkpoint.
pub uninterp spec fn cap_mnames(c: &Checkpoint) -> Set<Seq<char>>;

/// The multimap-table entries captured by a checkpoint.
pub uninterp spec fn cap_mentries(c: &Checkpoint) -> Map<(Seq<char>, Seq<u8>), Set<Seq<u8>>>;

/// The whole store's abstract state, as one value: which tables exist and
/// what they hold, for plain and multimap tables alike.
#[verifier::ext_equal]
pub ghost struct StoreState {
    pub tnames: Set<Seq<char>>,
    pub tables: Map<(Seq<char>, Seq<u8>), Seq<u8>>,
    pub mnames: Set<Seq<char>>,
    pub mtables: Map<(Seq<char>, Seq<u8>), Set<Seq<u8>>>,
}

/// The engine's current abstract state.
pub open spec fn state_of(e: &StoreEngine) -> StoreState {
    StoreState { tnames: tnames(e), tables: tentries(e), mnames: mnames(e), mtables: mentries(e) }
}

/// The state a checkpoint captured.
pub open spec fn cap_of(c: &Checkpoint) -> StoreState {
    StoreState {
        tnames: cap_tnames(c),
        tables: cap_tentries(c),
        mnames: cap_mnames(c),
        mtables: cap_mentries(c),
    }
}

/// Both engines hold the same abstract store state.
pub open spec fn same_state(a: &StoreEngine, b: &StoreEngine) -> bool {
    &&& tnames(a) == tnames(b)
    &&& tentries(a) == tentries(b)
    &&& mnames(a) == mnames(b)
    &&& mentries(a) == mentries(b)
}

/// The checkpoint captured exactly the engine's current state.
pub open spec fn captures(c: &Checkpoint, e: &StoreEngine) -> bool {
    &&& cap_tnames(c) == tnames(e)
    &&& cap_tentries(c) == tentries(e)
    &&& cap_mnames(c) == mnames(e)
    &&& cap_mentries(c) == mentries(e)
}

/// The all-tables map with every entry of one table removed.
pub open spec fn drop_table(t: Map<(Seq<char>, Seq<u8>), Seq<u8>>, n: Seq<char>) -> Map<
    (Seq<char>, Seq<u8>),
    Seq<u8>,
> {
    t.remove_keys(Set::new(|p: (Seq<char>, Seq<u8>)| p.0 == n))
}

/// The set of values one multimap key maps to (empty when the key is absent).
pub open spec fn mm_at(m: Map<(Seq<char>, Seq<u8>), Set<Seq<u8>>>, n: Seq<char>, k: Seq<u8>) -> Set<
    Seq<u8>,
> {
    if m.dom().contains((n, k)) {
        m[(n, k)]
    } else {
        Set::empty()
    }
}

/// Whether some value is present in the set.
pub open spec fn set_nonempty(s: Set<Seq<u8>>) -> bool {
    exists|x: Seq<u8>| s.contains(x)
}

/// The all-multimap-tables map with every entry of one table removed.
pub open spec fn drop_mm_table(m: Map<(Seq<char>, Seq<u8>), Set<Seq<u8>>>, n: Seq<char>) -> Map<
    (Seq<char>, Seq<u8>),
    Set<Seq<u8>>,
> {
    m.remove_keys(Set::new(|p: (Seq<char>, Seq<u8>)| p.0 == n))
}

/// One edit of a plain table: write a value under a key, or delete a key.
pub enum WriteStep {
    Put(Vec<u8>, Vec<u8>),
    Del(Vec<u8>),
}

/// Model of one plain-table edit.
#[verifier::ext_equal]
pub enum StepM {
    Put(Seq<u8>, Seq<u8>),
    Del(Seq<u8>),
}

impl DeepView for WriteStep {
    type V = StepM;

    open spec fn deep_view(&self) -> StepM {
        match self {
            WriteStep::Put(k, v) => StepM::Put(k@, v@),
            WriteStep::Del(k) => StepM::Del(k@),
        }
    }
}

/// The all-tables map after one edit of table `n`.
pub open spec fn apply_step(
    t: Map<(Seq<char>, Seq<u8>), Seq<u8>>,
    n: Seq<char>,
    s: StepM,
) -> Map<(Seq<char>, Seq<u8>), Seq<u8>> {
    match s {
        StepM::Put(k, v) => t.insert((n, k), v),
        StepM::Del(k) => t.remove((n, k)),
    }
}

/// The all-tables map after a sequence of edits of table `n`, first to last.
pub open spec fn apply_steps(
    t: Map<(Seq<char>, Seq<u8>), Seq<u8>>,
    n: Seq<char>,
    s: Seq<StepM>,
) -> Map<(Seq<char>, Seq<u8>), Seq<u8>>
    decreases s.len(),
{
    if s.len() == 0 {
        t
    } else {
        apply_steps(apply_step(t, n, s[0]), n, s.drop_first())
    }
}

/// A one-edit sequence does just its edit.
pub proof fn lemma_apply_one(t: Map<(Seq<char>, Seq<u8>), Seq<u8>>, n: Seq<char>, s: Seq<StepM>)
    requires
        s.len() == 1,
    ensures
        apply_steps(t, n, s) == apply_step(t, n, s[0]),
{
    assert(s.drop_first().len() == 0);
    assert(apply_steps(apply_step(t, n, s[0]), n, s.drop_first()) == apply_step(t, n, s[0]));
}

/// One edit of a multimap table: add one value to a key, remove one value
/// from a key, or remove all of a key's values.
pub enum MmStep {
    Add(Vec<u8>, Vec<u8>),
    Rem(Vec<u8>, Vec<u8>),
    RemAll(Vec<u8>),
}

/// Model of one multimap edit.
#[verifier::ext_equal]
pub enum MmStepM {
    Add(Seq<u8>, Seq<u8>),
    Rem(Seq<u8>, Seq<u8>),
    RemAll(Seq<u8>),
}

impl DeepView for MmStep {
    type V = MmStepM;

    open spec fn deep_view(&self) -> MmStepM {
        match self {
            MmStep::Add(k, v) => MmStepM::Add(k@, v@),
            MmStep::Rem(k, v) => MmStepM::Rem(k@, v@),
            MmStep::RemAll(k) => MmStepM::RemAll(k@),
        }
    }
}

/// The all-multimap-tables map after one edit of table `n`. A key whose value
/// set becomes empty leaves the map: a key is present exactly while it has
/// values.
pub open spec fn apply_mm_step(
    m: Map<(Seq<char>, Seq<u8>), Set<Seq<u8>>>,
    n: Seq<char>,
    s: MmStepM,
) -> Map<(Seq<char>, Seq<u8>), Set<Seq<u8>>> {
    match s {
        MmStepM::Add(k, v) => m.insert((n, k), mm_at(m, n, k).insert(v)),
        MmStepM::Rem(k, v) => {
            let s2 = mm_at(m, n, k).remove(v);
            if set_nonempty(s2) {
                m.insert((n, k), s2)
            } else {
                m.remove((n, k))
            }
        },
        MmStepM::RemAll(k) => m.remove((n, k)),
    }
}

/// The all-multimap-tables map after a sequence of edits, first to last.
pub open spec fn apply_mm_steps(
    m: Map<(Seq<char>, Seq<u8>), Set<Seq<u8>>>,
    n: Seq<char>,
    s: Seq<MmStepM>,
) -> Map<(Seq<char>, Seq<u8>), Set<Seq<u8>>>
    decreases s.len(),
{
    if s.len() == 0 {
        m
    } else {
        apply_mm_steps(apply_mm_step(m, n, s[0]), n, s.drop_first())
    }
}

/// A one-edit sequence does just its edit.
pub proof fn lemma_mm_apply_one(
    m: Map<(Seq<char>, Seq<u8>), Set<Seq<u8>>>,
    n: Seq<char>,
    s: Seq<MmStepM>,
)
    requires
        s.len() == 1,
    ensures
        apply_mm_steps(m, n, s) == apply_mm_step(m, n, s[0]),
{
    assert(s.drop_first().len() == 0);
    assert(apply_mm_steps(apply_mm_step(m, n, s[0]), n, s.drop_first()) == apply_mm_step(
        m,
        n,
        s[0],
    ));
}

impl StoreEngine {
    /// Relies on `redb::Database::create`: opens the store at `path`,
    /// creating the file if it is missing. Nothing is known of the opened
    /// store's contents.
    #[verifier::external_body]
    pub fn open(path: &str) -> (r: Result<StoreEngine, EngineError>) {
        match redb::Database::create(path) {
            Ok(db) => Ok(StoreEngine { db }),
            Err(_) => Err(EngineError::TableAccess),
        }
    }

    /// Relies on `tempfile::NamedTempFile` and `redb::Database::create`: a
    /// fresh temporary file holds a newly initialized store, which has no
    /// tables and no entries.
    #[verifier::external_body]
    pub fn open_temp() -> (r: Result<(StoreEngine, String), EngineError>)
        ensures
            match r {
                Ok((e, _path)) => {
                    &&& tnames(&e) == Set::<Seq<char>>::empty()
                    &&& tentries(&e) == Map::<(Seq<char>, Seq<u8>), Seq<u8>>::empty()
                    &&& mnames(&e) == Set::<Seq<char>>::empty()
                    &&& mentries(&e) == Map::<(Seq<char>, Seq<u8>), Set<Seq<u8>>>::empty()
                },
                Err(_) => true,
            },
    {
        let file = tempfile::NamedTempFile::with_suffix(".redb").map_err(
            |_| EngineError::TableAccess,
        )?;
        let path = file.path().to_path_buf();
        drop(file);
        let text = path.to_str().ok_or(EngineError::TableAccess)?.to_string();
        let db = redb::Database::create(&path).map_err(|_| EngineError::TableAccess)?;
        Ok((StoreEngine { db }, text))
    }

    /// Relies on `redb`: a read transaction sees a consistent snapshot;
    /// `open_table` of an absent table fails with `TableDoesNotExist`;
    /// `get` returns the value stored under the key, if any. The engine
    /// asserts a non-empty table name, so every wrapper that takes one
    /// requires it.
    #[verifier::external_body]
    pub fn raw_get(&self, name: &str, key: &[u8]) -> (r: Result<Option<Vec<u8>>, EngineError>)
        requires
            name@.len() > 0,
        ensures
            match r {
                Ok(o) => tnames(self).contains(name@) && (match o {
                    Some(v) => tentries(self).dom().contains((name@, key@)) && tentries(
                        self,
                    )[(name@, key@)] == v@,
                    None => !tentries(self).dom().contains((name@, key@)),
                }),
                Err(e) => e == EngineError::NoSuchTable ==> !tnames(self).contains(name@)
                    && (forall|k: Seq<u8>| !tentries(self).dom().contains((name@, k))),
            },
    {
        let txn = self.db.begin_read().map_err(|_| EngineError::Transaction)?;
        let t = txn.open_table(redb::TableDefinition::<&[u8], &[u8]>::new(name)).map_err(
            |e| match e {
                redb::TableError::TableDoesNotExist(_) => EngineError::NoSuchTable,
                _ => EngineError::TableAccess,
            },
        )?;
        let got = t.get(key).map_err(|_| EngineError::Transaction)?;
        Ok(got.map(|g| g.value().to_vec()))
    }

    /// Relies on `redb`: opening a table inside a write transaction creates
    /// it if missing and leaves its entries alone; a failed commit creates
    /// the table or leaves everything as it was.
    #[verifier::external_body]
    pub fn raw_create_table(&mut self, name: &str) -> (r: Result<(), EngineError>)
        requires
            name@.len() > 0,
        ensures
            match r {
                Ok(()) => {
                    &&& tnames(final(self)) == tnames(old(self)).insert(name@)
                    &&& tentries(final(self)) == tentries(old(self))
                    &&& mnames(final(self)) == mnames(old(self))
                    &&& mentries(final(self)) == mentries(old(self))
                },
                Err(e) => same_state(old(self), final(self)) || (e == EngineError::CommitFailed
                    && ({
                        &&& tnames(final(self)) == tnames(old(self)).insert(name@)
                        &&& tentries(final(self)) == tentries(old(self))
                        &&& mnames(final(self)) == mnames(old(self))
                        &&& mentries(final(self)) == mentries(old(self))
                })),
            },
    {
        let txn = self.db.begin_write().map_err(|_| EngineError::Transaction)?;
        txn.open_table(redb::TableDefinition::<&[u8], &[u8]>::new(name)).map_err(
            |_| EngineError::TableAccess,
        )?;
        txn.commit().map_err(|_| EngineError::CommitFailed)
    }

    /// Relies on `redb`: inside one write transaction, `insert` replaces the
    /// value under a key and `remove` deletes a key; a dropped (uncommitted)
    /// transaction aborts, changing nothing, and a failed commit applies the
    /// changes fully or not at all.
    #[verifier::external_body]
    pub fn raw_apply(&mut self, name: &str, steps: &Vec<WriteStep>) -> (r: Result<
        (),
        EngineError,
    >)
        requires
            name@.len() > 0,
        ensures
            match r {
                Ok(()) => {
                    &&& tnames(final(self)) == tnames(old(self)).insert(name@)
                    &&& tentries(final(self)) == apply_steps(tentries(old(self)), name@, steps.deep_view())
                    &&& mnames(final(self)) == mnames(old(self))
                    &&& mentries(final(self)) == mentries(old(self))
                },
                Err(e) => same_state(old(self), final(self)) || (e == EngineError::CommitFailed
                    && ({
                        &&& tnames(final(self)) == tnames(old(self)).insert(name@)
                        &&& tentries(final(self)) == apply_steps(tentries(old(self)), name@, steps.deep_view())
                        &&& mnames(final(self)) == mnames(old(self))
                        &&& mentries(final(self)) == mentries(old(self))
                })),
            },
    {
        let txn = self.db.begin_write().map_err(|_| EngineError::Transaction)?;
        {
            let def = redb::TableDefinition::<&[u8], &[u8]>::new(name);
            let mut t = txn.open_table(def).map_err(|_| EngineError::TableAccess)?;
            for s in steps.iter() {
                let done = match s {
                    WriteStep::Put(k, v) => t.insert(k.as_slice(), v.as_slice()).map(|_| ()),
                    WriteStep::Del(k) => t.remove(k.as_slice()).map(|_| ()),
                };
                done.map_err(|_| EngineError::Transaction)?;
            }
        }
        txn.commit().map_err(|_| EngineError::CommitFailed)
    }

    /// Relies on `redb`: a read transaction's iterator visits every entry of
    /// the table, each key once, with the value stored under it.
    #[verifier::external_body]
    pub fn raw_entries(&self, name: &str) -> (r: Result<Vec<(Vec<u8>, Vec<u8>)>, EngineError>)
        requires
            name@.len() > 0,
        ensures
            match r {
                Ok(es) => {
                    &&& tnames(self).contains(name@)
                    &&& forall|i: int, j: int|
                        0 <= i < j < es@.len() ==> es@[i].0@ != es@[j].0@
                    &&& forall|i: int|
                        0 <= i < es@.len() ==> tentries(self).dom().contains((name@, es@[i].0@))
                            && tentries(self)[(name@, #[trigger] es@[i].0@)] == es@[i].1@
                    &&& forall|k: Seq<u8>|
                        tentries(self).dom().contains((name@, k)) ==> exists|i: int|
                            0 <= i < es@.len() && #[trigger] es@[i].0@ == k
                },
                Err(e) => e == EngineError::NoSuchTable ==> !tnames(self).contains(name@)
                    && (forall|k: Seq<u8>| !tentries(self).dom().contains((name@, k))),
            },
    {
        let txn = self.db.begin_read().map_err(|_| EngineError::Transaction)?;
        let t = txn.open_table(redb::TableDefinition::<&[u8], &[u8]>::new(name)).map_err(
            |e| match e {
                redb::TableError::TableDoesNotExist(_) => EngineError::NoSuchTable,
                _ => EngineError::TableAccess,
            },
        )?;
        let mut out = Vec::new();
        for pair in t.iter().map_err(|_| EngineError::Transaction)? {
            let (k, v) = pair.map_err(|_| EngineError::Transaction)?;
            out.push((k.value().to_vec(), v.value().to_vec()));
        }
        Ok(out)
    }

    /// Relies on `redb::Table::retain`: retaining nothing removes every entry
    /// of the table, in one committed transaction; the table itself remains
    /// (and is created when missing).
    #[verifier::external_body]
    pub fn raw_clear(&mut self, name: &str) -> (r: Result<(), EngineError>)
        requires
            name@.len() > 0,
        ensures
            match r {
                Ok(()) => {
                    &&& tnames(final(self)) == tnames(old(self)).insert(name@)
                    &&& tentries(final(self)) == drop_table(tentries(old(self)), name@)
                    &&& mnames(final(self)) == mnames(old(self))
                    &&& mentries(final(self)) == mentries(old(self))
                },
                Err(e) => same_state(old(self), final(self)) || (e == EngineError::CommitFailed
                    && ({
                        &&& tnames(final(self)) == tnames(old(self)).insert(name@)
                        &&& tentries(final(self)) == drop_table(tentries(old(self)), name@)
                        &&& mnames(final(self)) == mnames(old(self))
                        &&& mentries(final(self)) == mentries(old(self))
                })),
            },
    {
        let txn = self.db.begin_write().map_err(|_| EngineError::Transaction)?;
        {
            let mut t = txn.open_table(redb::TableDefinition::<&[u8], &[u8]>::new(name)).map_err(
                |_| EngineError::TableAccess,
            )?;
            t.retain(|_, _| false).map_err(|_| EngineError::Transaction)?;
        }
        txn.commit().map_err(|_| EngineError::CommitFailed)
    }

    /// Relies on `redb::WriteTransaction::delete_table`: drops the table and
    /// reports whether it existed.
    #[verifier::external_body]
    pub fn raw_delete_table(&mut self, name: &str) -> (r: Result<bool, EngineError>)
        requires
            name@.len() > 0,
        ensures
            match r {
                Ok(b) => {
                    &&& b == tnames(old(self)).contains(name@)
                    &&& tnames(final(self)) == tnames(old(self)).remove(name@)
                    &&& tentries(final(self)) == drop_table(tentries(old(self)), name@)
                    &&& mnames(final(self)) == mnames(old(self))
                    &&& mentries(final(self)) == mentries(old(self))
                },
                Err(e) => same_state(old(self), final(self)) || (e == EngineError::CommitFailed
                    && ({
                        &&& tnames(final(self)) == tnames(old(self)).remove(name@)
                        &&& tentries(final(self)) == drop_table(tentries(old(self)), name@)
                        &&& mnames(final(self)) == mnames(old(self))
                        &&& mentries(final(self)) == mentries(old(self))
                })),
            },
    {
        let txn = self.db.begin_write().map_err(|_| EngineError::Transaction)?;
        let existed = txn.delete_table(redb::TableDefinition::<&[u8], &[u8]>::new(name)).map_err(
            |_| EngineError::TableAccess,
        )?;
        txn.commit().map_err(|_| EngineError::CommitFailed)?;
        Ok(existed)
    }

    /// Relies on `redb::ReadOnlyMultimapTable::get`: yields each value mapped
    /// to the key, once each; a key with no values yields none.
    #[verifier::external_body]
    pub fn raw_mm_get(&self, name: &str, key: &[u8]) -> (r: Result<Vec<Vec<u8>>, EngineError>)
        requires
            name@.len() > 0,
        ensures
            match r {
                Ok(vs) => {
                    &&& mnames(self).contains(name@)
                    &&& forall|i: int, j: int| 0 <= i < j < vs@.len() ==> vs@[i]@ != vs@[j]@
                    &&& forall|i: int|
                        0 <= i < vs@.len() ==> mm_at(mentries(self), name@, key@).contains(
                            #[trigger] vs@[i]@,
                        )
                    &&& forall|x: Seq<u8>|
                        mm_at(mentries(self), name@, key@).contains(x) ==> exists|i: int|
                            0 <= i < vs@.len() && #[trigger] vs@[i]@ == x
                },
                Err(e) => e == EngineError::NoSuchTable ==> !mnames(self).contains(name@)
                    && (forall|k: Seq<u8>, x: Seq<u8>| !mm_at(mentries(self), name@, k).contains(x)),
            },
    {
        let txn = self.db.begin_read().map_err(|_| EngineError::Transaction)?;
        let t = txn.open_multimap_table(
            redb::MultimapTableDefinition::<&[u8], &[u8]>::new(name),
        ).map_err(|e| match e {
            redb::TableError::TableDoesNotExist(_) => EngineError::NoSuchTable,
            _ => EngineError::TableAccess,
        })?;
        let mut out = Vec::new();
        for v in t.get(key).map_err(|_| EngineError::Transaction)? {
            out.push(v.map_err(|_| EngineError::Transaction)?.value().to_vec());
        }
        Ok(out)
    }

    /// Relies on `redb`: the multimap iterator visits every (key, value)
    /// mapping of the table, each pair once.
    #[verifier::external_body]
    pub fn raw_mm_entries(&self, name: &str) -> (r: Result<Vec<(Vec<u8>, Vec<u8>)>, EngineError>)
        requires
            name@.len() > 0,
        ensures
            match r {
                Ok(es) => {
                    &&& mnames(self).contains(name@)
                    &&& forall|i: int, j: int|
                        0 <= i < j < es@.len() ==> (es@[i].0@, es@[i].1@) != (es@[j].0@, es@[j].1@)
                    &&& forall|i: int|
                        0 <= i < es@.len() ==> mm_at(mentries(self), name@, #[trigger] es@[i].0@)
                            .contains(es@[i].1@)
                    &&& forall|k: Seq<u8>, x: Seq<u8>|
                        mm_at(mentries(self), name@, k).contains(x) ==> exists|i: int|
                            0 <= i < es@.len() && #[trigger] es@[i].0@ == k && es@[i].1@ == x
                    &&& forall|k: Seq<u8>|
                        #[trigger] mentries(self).dom().contains((name@, k)) ==> set_nonempty(
                            mentries(self)[(name@, k)],
                        )
                },
                Err(e) => e == EngineError::NoSuchTable ==> !mnames(self).contains(name@)
                    && (forall|k: Seq<u8>, x: Seq<u8>| !mm_at(mentries(self), name@, k).contains(x)),
            },
    {
        let txn = self.db.begin_read().map_err(|_| EngineError::Transaction)?;
        let t = txn.open_multimap_table(
            redb::MultimapTableDefinition::<&[u8], &[u8]>::new(name),
        ).map_err(|e| match e {
            redb::TableError::TableDoesNotExist(_) => EngineError::NoSuchTable,
            _ => EngineError::TableAccess,
        })?;
        let mut out = Vec::new();
        for pair in t.iter().map_err(|_| EngineError::Transaction)? {
            let (k, vals) = pair.map_err(|_| EngineError::Transaction)?;
            for v in vals {
                out.push((k.value().to_vec(), v.map_err(|_| EngineError::Transaction)?.value().to_vec()));
            }
        }
        Ok(out)
    }

    /// Relies on `redb`: inside one write transaction, multimap `insert` adds
    /// one value to a key, `remove` takes one value away, `remove_all` takes
    /// the whole set; a dropped (uncommitted) transaction aborts, changing
    /// nothing, and a failed commit applies the edits fully or not at all.
    #[verifier::external_body]
    pub fn raw_mm_apply(&mut self, name: &str, steps: &Vec<MmStep>) -> (r: Result<
        (),
        EngineError,
    >)
        requires
            name@.len() > 0,
        ensures
            match r {
                Ok(()) => {
                    &&& mnames(final(self)) == mnames(old(self)).insert(name@)
                    &&& mentries(final(self)) == apply_mm_steps(
                        mentries(old(self)),
                        name@,
                        steps.deep_view(),
                    )
                    &&& tnames(final(self)) == tnames(old(self))
                    &&& tentries(final(self)) == tentries(old(self))
                },
                Err(e) => same_state(old(self), final(self)) || (e == EngineError::CommitFailed
                    && ({
                        &&& mnames(final(self)) == mnames(old(self)).insert(name@)
                        &&& mentries(final(self)) == apply_mm_steps(
                        mentries(old(self)),
                        name@,
                        steps.deep_view(),
                    )
                        &&& tnames(final(self)) == tnames(old(self))
                        &&& tentries(final(self)) == tentries(old(self))
                })),
            },
    {
        let txn = self.db.begin_write().map_err(|_| EngineError::Transaction)?;
        {
            let def = redb::MultimapTableDefinition::<&[u8], &[u8]>::new(name);
            let mut t = txn.open_multimap_table(def).map_err(|_| EngineError::TableAccess)?;
            for s in steps.iter() {
                let failed = match s {
                    MmStep::Add(k, v) => t.insert(k.as_slice(), v.as_slice()).is_err(),
                    MmStep::Rem(k, v) => t.remove(k.as_slice(), v.as_slice()).is_err(),
                    MmStep::RemAll(k) => t.remove_all(k.as_slice()).is_err(),
                };
                if failed { return Err(EngineError::Transaction) }
            }
        }
        txn.commit().map_err(|_| EngineError::CommitFailed)
    }

    /// Relies on `redb`: inside one write transaction, multimap `remove_all`
    /// empties the key's value set and `insert` adds each given value, so
    /// after the commit the key maps to exactly the given values; the
    /// returned flag reports whether `remove_all` removed anything. A failed
    /// commit applies the replacement fully or not at all.
    #[verifier::external_body]
    pub fn raw_mm_assign(&mut self, name: &str, key: &[u8], values: &Vec<Vec<u8>>) -> (r: Result<
        bool,
        EngineError,
    >)
        requires
            name@.len() > 0,
        ensures
            match r {
                Ok(b) => {
                    &&& b == set_nonempty(mm_at(mentries(old(self)), name@, key@))
                    &&& mnames(final(self)) == mnames(old(self)).insert(name@)
                    &&& mentries(final(self)) == (if values.deep_view().len() > 0 {
                        mentries(old(self)).insert((name@, key@), values.deep_view().to_set())
                    } else {
                        mentries(old(self)).remove((name@, key@))
                    })
                    &&& tnames(final(self)) == tnames(old(self))
                    &&& tentries(final(self)) == tentries(old(self))
                },
                Err(e) => same_state(old(self), final(self)) || (e == EngineError::CommitFailed
                    && ({
                        &&& mnames(final(self)) == mnames(old(self)).insert(name@)
                        &&& mentries(final(self)) == (if values.deep_view().len() > 0 {
                        mentries(old(self)).insert((name@, key@), values.deep_view().to_set())
                    } else {
                        mentries(old(self)).remove((name@, key@))
                    })
                        &&& tnames(final(self)) == tnames(old(self))
                        &&& tentries(final(self)) == tentries(old(self))
                })),
            },
    {
        let txn = self.db.begin_write().map_err(|_| EngineError::Transaction)?;
        let def = redb::MultimapTableDefinition::<&[u8], &[u8]>::new(name);
        let existed;
        {
            let mut t = txn.open_multimap_table(def).map_err(|_| EngineError::TableAccess)?;
            existed = t.remove_all(key).map_err(|_| EngineError::Transaction)?.next().is_some();
            for v in values.iter() {
                t.insert(key, v.as_slice()).map_err(|_| EngineError::Transaction)?;
            }
        }
        txn.commit().map_err(|_| EngineError::CommitFailed)?;
        Ok(existed)
    }

    /// Relies on `redb::WriteTransaction::delete_multimap_table`: drops the
    /// multimap table and reports whether it existed.
    #[verifier::external_body]
    pub fn raw_mm_delete_table(&mut self, name: &str) -> (r: Result<bool, EngineError>)
        requires
            name@.len() > 0,
        ensures
            match r {
                Ok(b) => {
                    &&& b == mnames(old(self)).contains(name@)
                    &&& mnames(final(self)) == mnames(old(self)).remove(name@)
                    &&& mentries(final(self)) == drop_mm_table(mentries(old(self)), name@)
                    &&& tnames(final(self)) == tnames(old(self))
                    &&& tentries(final(self)) == tentries(old(self))
                },
                Err(e) => same_state(old(self), final(self)) || (e == EngineError::CommitFailed
                    && ({
                        &&& mnames(final(self)) == mnames(old(self)).remove(name@)
                        &&& mentries(final(self)) == drop_mm_table(mentries(old(self)), name@)
                        &&& tnames(final(self)) == tnames(old(self))
                        &&& tentries(final(self)) == tentries(old(self))
                })),
            },
    {
        let txn = self.db.begin_write().map_err(|_| EngineError::Transaction)?;
        let existed = txn.delete_multimap_table(
            redb::MultimapTableDefinition::<&[u8], &[u8]>::new(name),
        ).map_err(|_| EngineError::TableAccess)?;
        txn.commit().map_err(|_| EngineError::CommitFailed)?;
        Ok(existed)
    }

    /// Relies on `redb::WriteTransaction::ephemeral_savepoint`: a fresh write
    /// transaction registers a checkpoint of the store's state at its commit
    /// point and mutates nothing.
    #[verifier::external_body]
    pub fn raw_checkpoint(&mut self) -> (r: Result<Checkpoint, EngineError>)
        ensures
            same_state(old(self), final(self)),
            match r {
                Ok(c) => captures(&c, final(self)),
                Err(_) => true,
            },
    {
        let txn = self.db.begin_write().map_err(|_| EngineError::Transaction)?;
        let sp = txn.ephemeral_savepoint().map_err(|_| EngineError::Transaction)?;
        txn.commit().map_err(|_| EngineError::CommitFailed)?;
        Ok(Checkpoint { sp })
    }

    /// Relies on `redb::WriteTransaction::restore_savepoint`: after the
    /// commit the whole store holds exactly the state the checkpoint
    /// captured; a failed restore commits nothing and changes nothing, and a
    /// failed commit installs the captured state fully or not at all.
    #[verifier::external_body]
    pub fn raw_restore(&mut self, c: &Checkpoint) -> (r: Result<(), EngineError>)
        ensures
            match r {
                Ok(()) => {
                    &&& tnames(final(self)) == cap_tnames(c)
                    &&& tentries(final(self)) == cap_tentries(c)
                    &&& mnames(final(self)) == cap_mnames(c)
                    &&& mentries(final(self)) == cap_mentries(c)
                },
                Err(e) => same_state(old(self), final(self)) || (e == EngineError::CommitFailed
                    && ({
                        &&& tnames(final(self)) == cap_tnames(c)
                        &&& tentries(final(self)) == cap_tentries(c)
                        &&& mnames(final(self)) == cap_mnames(c)
                        &&& mentries(final(self)) == cap_mentries(c)
                })),
            },
    {
        let mut txn = self.db.begin_write().map_err(|_| EngineError::Transaction)?;
        txn.restore_savepoint(&c.sp).map_err(|_| EngineError::Transaction)?;
        txn.commit().map_err(|_| EngineError::CommitFailed)
    }

    /// Relies on `redb::Database::compact`: reclaims file space and leaves
    /// the store's contents as they are; reports whether anything was done.
    #[verifier::external_body]
    pub fn raw_compact(&mut self) -> (r: Result<bool, EngineError>)
        ensures
            same_state(old(self), final(self)),
    {
        self.db.compact().map_err(|_| EngineError::Transaction)
    }
}

/// Relies on `time::UtcDateTime::now`: the clock's reading, as nanoseconds
/// since the Unix epoch; nothing is promised of it.
#[verifier::external_body]
pub fn now_unix_nanos() -> (r: i128) {
    time::UtcDateTime::now().unix_timestamp_nanos()
}

/// Relies on `directories::ProjectDirs`: the platform's local-data directory
/// for this store, where one is defined; nothing is promised of it.
#[verifier::external_body]
pub fn data_local_path() -> (r: Option<String>) {
    let dirs = directories::ProjectDirs::from("", "", "cakedb")?;
    Some(dirs.data_local_dir().to_str()?.to_string())
}

} // verus!
