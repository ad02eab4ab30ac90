//! In-memory savepoints: checkpoints of the whole store, indexed by a
//! monotonically increasing id, restorable in order.

use vstd::prelude::*;

use crate::db::{lemma_views, CakeDb};
use crate::engine::{cap_of, now_unix_nanos, Checkpoint, StoreState};
use crate::error::DbError;

verus! {

/// One stored savepoint: the engine checkpoint it holds, and when it was
/// created (nanoseconds since the Unix epoch).
pub struct CakeSavepoint {
    pub savepoint: Checkpoint,
    pub creation_time: i128,
}

impl CakeSavepoint {
    /// The store state this savepoint captured.
    pub open spec fn cap(&self) -> StoreState {
        cap_of(&self.savepoint)
    }
}

/// Savepoint ids are strictly increasing in index order.
pub open spec fn ids_sorted(s: Seq<(int, StoreState)>) -> bool {
    forall|i: int, j: int| 0 <= i < j < s.len() ==> s[i].0 < s[j].0
}

/// The id the next savepoint gets: one past the last id, or 0 of an empty
/// index.
pub open spec fn next_save_id(s: Seq<(int, StoreState)>) -> int {
    if s.len() == 0 {
        0
    } else {
        s.last().0 + 1
    }
}

/// The index after a savepoint is created capturing state `st`.
pub open spec fn spec_savepoint(s: Seq<(int, StoreState)>, st: StoreState) -> Seq<
    (int, StoreState),
> {
    s.push((next_save_id(s), st))
}

/// The state stored under `id`, if any.
pub open spec fn save_at(s: Seq<(int, StoreState)>, id: int) -> Option<StoreState> {
    if exists|i: int| 0 <= i < s.len() && s[i].0 == id {
        Some(s[choose|i: int| 0 <= i < s.len() && s[i].0 == id].1)
    } else {
        None
    }
}

/// The index after a successful restore of `id`: every savepoint whose id is
/// greater than `id` is invalidated; `id` itself and everything before it
/// remain.
pub open spec fn spec_load(s: Seq<(int, StoreState)>, id: int) -> Seq<(int, StoreState)> {
    s.filter(|p: (int, StoreState)| p.0 <= id)
}

/// In a sorted index an id occurs at most once, so the state stored under the
/// id at position `i` is that position's state.
pub proof fn lemma_save_at_index(s: Seq<(int, StoreState)>, i: int)
    requires
        ids_sorted(s),
        0 <= i < s.len(),
    ensures
        save_at(s, s[i].0) == Some(s[i].1),
{
    let id = s[i].0;
    assert(exists|j: int| 0 <= j < s.len() && s[j].0 == id);
    let j = choose|j: int| 0 <= j < s.len() && s[j].0 == id;
    if j < i {
        assert(s[j].0 < s[i].0);
    } else if i < j {
        assert(s[i].0 < s[j].0);
    }
    assert(j == i);
}

/// An id beyond every id in the index stores nothing.
pub proof fn lemma_save_at_none(s: Seq<(int, StoreState)>, id: int)
    requires
        forall|i: int| 0 <= i < s.len() ==> s[i].0 != id,
    ensures
        save_at(s, id) is None,
{
}

/// A sequence all of whose elements pass the filter is left whole by it.
proof fn lemma_filter_all(s: Seq<(int, StoreState)>, id: int)
    requires
        forall|i: int| 0 <= i < s.len() ==> s[i].0 <= id,
    ensures
        s.filter(|p: (int, StoreState)| p.0 <= id) == s,
    decreases s.len(),
{
    reveal_with_fuel(Seq::filter, 2);
    if s.len() == 0 {
        assert(s.filter(|p: (int, StoreState)| p.0 <= id) =~= s);
    } else {
        lemma_filter_all(s.drop_last(), id);
        assert(s.filter(|p: (int, StoreState)| p.0 <= id) =~= s.drop_last().filter(
            |p: (int, StoreState)| p.0 <= id,
        ).push(s.last()));
        assert(s.drop_last().push(s.last()) =~= s);
    }
}

/// In a sorted index, dropping the ids greater than the id at position `idx`
/// keeps exactly the first `idx + 1` entries.
pub proof fn lemma_filter_take(s: Seq<(int, StoreState)>, id: int, idx: int)
    requires
        ids_sorted(s),
        0 <= idx < s.len(),
        s[idx].0 == id,
    ensures
        spec_load(s, id) == s.take(idx + 1),
    decreases s.len(),
{
    reveal_with_fuel(Seq::filter, 2);
    if s.len() == idx + 1 {
        lemma_filter_all(s.drop_last(), id);
        assert(s.filter(|p: (int, StoreState)| p.0 <= id) =~= s.drop_last().push(s.last()));
        assert(s.drop_last().push(s.last()) =~= s);
        assert(s.take(idx + 1) =~= s);
    } else {
        assert(s.last() == s[s.len() - 1]);
        assert(s[idx].0 < s[s.len() - 1].0);
        lemma_filter_take(s.drop_last(), id, idx);
        assert(s.filter(|p: (int, StoreState)| p.0 <= id) =~= s.drop_last().filter(
            |p: (int, StoreState)| p.0 <= id,
        ));
        assert(s.drop_last().take(idx + 1) =~= s.take(idx + 1));
    }
}

impl CakeDb {
    /// Creates a savepoint of the store's current state and returns its id:
    /// one past the last id in the index, or 0 of an empty index. The
    /// savepoint lives in memory inside this object, not in the store.
    pub fn savepoint(&mut self) -> (r: Result<usize, DbError>)
        requires
            old(self).wf(),
            next_save_id(old(self).saves()) <= usize::MAX,
        ensures
            final(self).wf(),
            final(self).spec_tempfile_path() == old(self).spec_tempfile_path(),
            final(self).state() == old(self).state(),
            match r {
                Ok(id) => id == next_save_id(old(self).saves()) && final(self).saves()
                    == spec_savepoint(old(self).saves(), old(self).state()),
                Err(_) => final(self).saves() == old(self).saves(),
            },
    {
        proof {
            lemma_views(old(self));
            lemma_views(self);
        }
        let cp = match self.engine.raw_checkpoint() {
            Ok(c) => c,
            Err(e) => {
                proof {
                    lemma_views(self);
                    assert(final(self).saves() =~= old(self).saves());
                }
                return Err(e.to_db_error());
            },
        };
        let id: usize = if self.savepoints.len() == 0 {
            0
        } else {
            proof {
                lemma_views(self);
                assert(self.saves()[self.savepoints@.len() - 1].0 == next_save_id(self.saves())
                    - 1);
            }
            self.savepoints[self.savepoints.len() - 1].0 + 1
        };
        let entry = CakeSavepoint { savepoint: cp, creation_time: now_unix_nanos() };
        self.savepoints.push((id, entry));
        proof {
            lemma_views(self);
            assert(final(self).saves() =~= spec_savepoint(old(self).saves(), old(self).state()));
            savepoint_round_trip(old(self).saves(), old(self).state());
        }
        Ok(id)
    }

    /// Restores the store to the state savepoint `key` captured. Fails with
    /// `NotFound` if no savepoint has that id. After a successful restore,
    /// every savepoint with an id greater than `key` is invalidated and
    /// removed from the index; `key` itself and the ids below it remain.
    pub fn load_savepoint(&mut self, key: usize) -> (r: Result<(), DbError>)
        requires
            old(self).wf(),
        ensures
            final(self).wf(),
            final(self).spec_tempfile_path() == old(self).spec_tempfile_path(),
            match r {
                Ok(()) => save_at(old(self).saves(), key as int) == Some(final(self).state())
                    && final(self).saves() == spec_load(old(self).saves(), key as int),
                Err(e) => final(self).saves() == old(self).saves() && (e == DbError::NotFound
                    <==> save_at(old(self).saves(), key as int) is None) && (final(self).state()
                    == old(self).state() || (e == DbError::CommitFailed && save_at(
                    old(self).saves(),
                    key as int,
                ) == Some(final(self).state()))),
            },
    {
        proof {
            lemma_views(old(self));
            lemma_views(self);
        }
        let mut idx: usize = 0;
        let n = self.savepoints.len();
        let mut found = false;
        while idx < n && !found
            invariant
                n == self.savepoints@.len(),
                0 <= idx <= n,
                found ==> idx < n && self.savepoints@[idx as int].0 == key,
                !found ==> forall|j: int| 0 <= j < idx ==> self.savepoints@[j].0 != key,
                *self == *old(self),
            decreases n - idx + (if found {
                0int
            } else {
                1int
            }),
        {
            if self.savepoints[idx].0 == key {
                found = true;
            } else {
                idx = idx + 1;
            }
        }
        if !found {
            proof {
                lemma_views(self);
                assert forall|j: int| 0 <= j < self.saves().len() implies self.saves()[j].0 != key
                    as int by {
                    assert(self.saves()[j] == (
                        self.savepoints@[j].0 as int,
                        self.savepoints@[j].1.cap(),
                    ));
                }
                lemma_save_at_none(self.saves(), key as int);
            }
            return Err(DbError::NotFound);
        }
        match self.engine.raw_restore(&self.savepoints[idx].1.savepoint) {
            Ok(()) => {
                self.savepoints.truncate(idx + 1);
                proof {
                    lemma_views(old(self));
                    lemma_views(self);
                    assert(old(self).saves()[idx as int] == (
                        key as int,
                        old(self).savepoints@[idx as int].1.cap(),
                    ));
                    lemma_save_at_index(old(self).saves(), idx as int);
                    lemma_filter_take(old(self).saves(), key as int, idx as int);
                    assert(final(self).saves() =~= old(self).saves().take(idx + 1));
                }
                Ok(())
            },
            Err(e) => {
                proof {
                    lemma_views(self);
                    assert(final(self).saves() =~= old(self).saves());
                    assert(old(self).saves()[idx as int].0 == key as int);
                    lemma_save_at_index(old(self).saves(), idx as int);
                }
                Err(e.to_db_error())
            },
        }
    }

    /// The stored savepoints, in ascending id order.
    pub fn savepoints(&self) -> (r: &Vec<(usize, CakeSavepoint)>)
        ensures
            r@.len() == self.saves().len(),
            forall|i: int|
                0 <= i < r@.len() ==> (#[trigger] r@[i]).0 as int == self.saves()[i].0 && r@[i].1.cap()
                    == self.saves()[i].1,
    {
        proof {
            lemma_views(self);
        }
        &self.savepoints
    }

    /// Forgets every stored savepoint. The store itself is untouched; the
    /// checkpoints are merely released.
    pub fn clear_savepoints(&mut self)
        ensures
            final(self).wf(),
            final(self).state() == old(self).state(),
            final(self).spec_tempfile_path() == old(self).spec_tempfile_path(),
            final(self).saves() == Seq::<(int, StoreState)>::empty(),
    {
        self.savepoints.clear();
        proof {
            lemma_views(old(self));
            lemma_views(self);
            assert(final(self).saves() =~= Seq::<(int, StoreState)>::empty());
        }
    }
}

/// Savepoint round-trip law: create a savepoint of state `st0`, change the
/// store as much as you like, and the savepoint still stores `st0` under the
/// id that was handed out — restoring it yields exactly `st0`, because a
/// restore installs the stored state.
pub proof fn savepoint_round_trip(saves: Seq<(int, StoreState)>, st0: StoreState)
    requires
        ids_sorted(saves),
    ensures
        ({
            let s2 = spec_savepoint(saves, st0);
            let p = next_save_id(saves);
            &&& ids_sorted(s2)
            &&& save_at(s2, p) == Some(st0)
        }),
{
    let s2 = spec_savepoint(saves, st0);
    let p = next_save_id(saves);
    assert forall|i: int, j: int| 0 <= i < j < s2.len() implies s2[i].0 < s2[j].0 by {
        if j < saves.len() {
        } else {
            assert(s2[j] == (p, st0));
            if saves.len() > 0 && i < saves.len() {
                if i < saves.len() - 1 {
                    assert(saves[i].0 < saves[saves.len() - 1].0);
                }
            }
        }
    }
    lemma_save_at_index(s2, saves.len() as int);
}

/// Savepoint invalidation law: create savepoint `p1`, then `p2`; restoring
/// `p1` removes `p2` from the index — a later attempt to restore `p2` finds
/// nothing — while `p1` itself stays stored and restorable.
pub proof fn savepoint_invalidation(saves: Seq<(int, StoreState)>, st0: StoreState, st1: StoreState)
    requires
        ids_sorted(saves),
    ensures
        ({
            let s1 = spec_savepoint(saves, st0);
            let p1 = next_save_id(saves);
            let s2 = spec_savepoint(s1, st1);
            let p2 = next_save_id(s1);
            let s3 = spec_load(s2, p1);
            &&& p1 != p2
            &&& save_at(s2, p1) == Some(st0)
            &&& save_at(s3, p2) is None
            &&& save_at(s3, p1) == Some(st0)
        }),
{
    let s1 = spec_savepoint(saves, st0);
    let p1 = next_save_id(saves);
    savepoint_round_trip(saves, st0);
    let s2 = spec_savepoint(s1, st1);
    let p2 = next_save_id(s1);
    savepoint_round_trip(s1, st1);
    assert(s2[saves.len() as int].0 == p1);
    lemma_filter_take(s2, p1, saves.len() as int);
    let s3 = spec_load(s2, p1);
    assert(s3 =~= s1);
    lemma_save_at_index(s1, saves.len() as int);
    assert forall|i: int| 0 <= i < s1.len() implies s1[i].0 != p2 by {
        if i < s1.len() - 1 {
            assert(s1[i].0 < s1[s1.len() - 1].0);
        }
    }
    lemma_save_at_none(s1, p2);
}

} // verus!
