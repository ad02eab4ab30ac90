//! Single-key and whole-table read operations. Each one reads a consistent
//! snapshot; a table that does not exist yet is created empty first, so a
//! read of any table succeeds.

use vstd::prelude::*;

use crate::codec::{DbKey, DbValue};
use crate::db::{entries_list_of, index_unchanged, tbl_bytes, tbl_contains, tnames_grow, CakeDb};
use crate::error::DbError;
use crate::handles::TableHandle;
use crate::sort::{distinct_keys, lemma_deep_view_index, sort_pairs, sorted_pairs};

verus! {

/// The pair is stored in the table: some stored key decodes to its key model
/// and that key's stored value decodes to its value model.
pub open spec fn entry_of<K: DbKey, V: DbValue>(
    t: Map<(Seq<char>, Seq<u8>), Seq<u8>>,
    n: Seq<char>,
    p: (K::V, V::V),
) -> bool {
    exists|kb: Seq<u8>|
        #[trigger] t.dom().contains((n, kb)) && K::decm(kb) == Some(p.0) && V::decm(t[(n, kb)])
            == Some(p.1)
}

/// Every stored entry of the table decodes to some listed pair.
pub open spec fn all_entries_listed<K: DbKey, V: DbValue>(
    t: Map<(Seq<char>, Seq<u8>), Seq<u8>>,
    n: Seq<char>,
    s: Seq<(K::V, V::V)>,
) -> bool {
    forall|kb: Seq<u8>|
        #[trigger] t.dom().contains((n, kb)) ==> exists|i: int|
            0 <= i < s.len() && K::decm(kb) == Some((#[trigger] s[i]).0) && V::decm(t[(n, kb)])
                == Some(s[i].1)
}

/// A full decoded listing of the table: ascending by key, each key model
/// once, every pair stored, every stored entry listed, models well formed.
pub open spec fn table_snapshot<K: DbKey, V: DbValue>(
    s: Seq<(K::V, V::V)>,
    t: Map<(Seq<char>, Seq<u8>), Seq<u8>>,
    n: Seq<char>,
) -> bool {
    &&& sorted_pairs::<K, V>(s)
    &&& distinct_keys::<K, V>(s)
    &&& forall|i: int| 0 <= i < s.len() ==> entry_of::<K, V>(t, n, #[trigger] s[i])
    &&& all_entries_listed::<K, V>(t, n, s)
    &&& forall|i: int|
        0 <= i < s.len() ==> K::wfm((#[trigger] s[i]).0) && V::wfm(s[i].1)
}

/// A decision the predicate can make on a pair with these models.
pub open spec fn flag_at<K: DbKey, V: DbValue, F: Fn(K, V) -> bool>(
    f: F,
    p: (K::V, V::V),
    fl: bool,
) -> bool {
    exists|a: K, b: V|
        a.deep_view() == p.0 && b.deep_view() == p.1 && #[trigger] call_ensures(f, (a, b), fl)
}

/// Each flag is a decision the predicate can make on its pair.
pub open spec fn flags_ok<K: DbKey, V: DbValue, F: Fn(K, V) -> bool>(
    f: F,
    s: Seq<(K::V, V::V)>,
    flags: Seq<bool>,
) -> bool {
    flags.len() == s.len() && (forall|i: int|
        0 <= i < s.len() ==> flag_at::<K, V, F>(f, s[i], #[trigger] flags[i]))
}

/// The pairs whose flag is set, in order.
pub open spec fn keep_flags<A>(s: Seq<A>, flags: Seq<bool>) -> Seq<A>
    decreases s.len(),
{
    if s.len() == 0 || flags.len() == 0 {
        Seq::empty()
    } else {
        keep_flags(s.drop_last(), flags.drop_last()) + (if flags.last() {
            Seq::empty().push(s.last())
        } else {
            Seq::empty()
        })
    }
}

/// The key models of the pairs, in order.
pub open spec fn keys_of<K: DbKey, V: DbValue>(s: Seq<(K::V, V::V)>) -> Seq<K::V> {
    Seq::new(s.len(), |i: int| s[i].0)
}

/// How many flags are set.
pub open spec fn count_true(flags: Seq<bool>) -> int
    decreases flags.len(),
{
    if flags.len() == 0 {
        0
    } else {
        count_true(flags.drop_last()) + (if flags.last() {
            1int
        } else {
            0int
        })
    }
}

/// The pairs whose key model lies in the half-open range, in order.
pub open spec fn range_keep<K: DbKey, V: DbValue>(
    s: Seq<(K::V, V::V)>,
    lo: K::V,
    hi: K::V,
) -> Seq<(K::V, V::V)>
    decreases s.len(),
{
    if s.len() == 0 {
        Seq::empty()
    } else {
        range_keep::<K, V>(s.drop_last(), lo, hi) + (if K::le(lo, s.last().0) && !K::le(
            hi,
            s.last().0,
        ) {
            Seq::empty().push(s.last())
        } else {
            Seq::empty()
        })
    }
}

/// One end of a key range: open, or bounded by a key inclusively or
/// exclusively.
pub enum KeyBound<K> {
    Unbounded,
    Included(K),
    Excluded(K),
}

impl<K: DbKey> KeyBound<K> {
    /// The key lies above this lower end.
    pub open spec fn admits_from(self, k: K::V) -> bool {
        match self {
            KeyBound::Unbounded => true,
            KeyBound::Included(b) => K::le(b.deep_view(), k),
            KeyBound::Excluded(b) => !K::le(k, b.deep_view()),
        }
    }

    /// The key lies below this upper end.
    pub open spec fn admits_to(self, k: K::V) -> bool {
        match self {
            KeyBound::Unbounded => true,
            KeyBound::Included(b) => K::le(k, b.deep_view()),
            KeyBound::Excluded(b) => !K::le(b.deep_view(), k),
        }
    }

    /// Decides `admits_from`.
    fn admits_from_exec(&self, k: &K) -> (r: bool)
        ensures
            r == self.admits_from(k.deep_view()),
    {
        match self {
            KeyBound::Unbounded => true,
            KeyBound::Included(b) => b.le_exec(k),
            KeyBound::Excluded(b) => !k.le_exec(b),
        }
    }

    /// Decides `admits_to`.
    fn admits_to_exec(&self, k: &K) -> (r: bool)
        ensures
            r == self.admits_to(k.deep_view()),
    {
        match self {
            KeyBound::Unbounded => true,
            KeyBound::Included(b) => k.le_exec(b),
            KeyBound::Excluded(b) => !b.le_exec(k),
        }
    }
}

/// The pairs whose key model both ends admit, in order.
pub open spec fn bounds_keep<K: DbKey, V: DbValue>(
    s: Seq<(K::V, V::V)>,
    lo: KeyBound<K>,
    hi: KeyBound<K>,
) -> Seq<(K::V, V::V)>
    decreases s.len(),
{
    if s.len() == 0 {
        Seq::empty()
    } else {
        bounds_keep::<K, V>(s.drop_last(), lo, hi) + (if lo.admits_from(s.last().0)
            && hi.admits_to(s.last().0) {
            Seq::empty().push(s.last())
        } else {
            Seq::empty()
        })
    }
}

/// The kept pairs are as many as the set flags.
proof fn lemma_keep_count<A>(s: Seq<A>, flags: Seq<bool>)
    requires
        s.len() == flags.len(),
    ensures
        keep_flags(s, flags).len() == count_true(flags),
    decreases s.len(),
{
    if s.len() > 0 {
        lemma_keep_count(s.drop_last(), flags.drop_last());
    }
}

impl CakeDb {
    /// The value stored under the key, if the key is present.
    pub fn get<K: DbKey, V: DbValue>(&mut self, table: &TableHandle<K, V>, key: &K) -> (r: Result<
        Option<V>,
        DbError,
    >)
        ensures
            index_unchanged(old(self), final(self)),
            tnames_grow(old(self).state(), final(self).state(), table.spec_name()),
            final(self).wf() == old(self).wf(),
            ({
                let n = table.spec_name();
                let km = key.deep_view();
                match r {
                    Ok(Some(v)) => tbl_contains::<K>(old(self).state(), n, km) && V::decm(
                        tbl_bytes::<K>(old(self).state(), n, km),
                    ) == Some(v.deep_view()),
                    Ok(None) => !tbl_contains::<K>(old(self).state(), n, km),
                    Err(e) => e != DbError::NotFound && (e == DbError::CorruptData
                        ==> tbl_contains::<K>(old(self).state(), n, km) && V::decm(
                        tbl_bytes::<K>(old(self).state(), n, km),
                    ) is None),
                }
            }),
    {
        let kb = key.to_bytes();
        proof {
            use_type_invariant(table);
        }
        match self.read_raw(table.name(), kb.as_slice())? {
            Some(vb) => Ok(Some(V::from_bytes(vb.as_slice())?)),
            None => Ok(None),
        }
    }

    /// Every entry of the table, decoded and ascending by key. Fails with
    /// `CorruptData` if a stored key or value does not decode, or two stored
    /// keys decode to the same key.
    pub fn table<K: DbKey, V: DbValue>(&mut self, table: &TableHandle<K, V>) -> (r: Result<
        Vec<(K, V)>,
        DbError,
    >)
        ensures
            index_unchanged(old(self), final(self)),
            tnames_grow(old(self).state(), final(self).state(), table.spec_name()),
            final(self).wf() == old(self).wf(),
            match r {
                Ok(s) => table_snapshot::<K, V>(
                    s.deep_view(),
                    old(self).state().tables,
                    table.spec_name(),
                ),
                Err(e) => e != DbError::NotFound,
            },
    {
        let ghost n = table.spec_name();
        let ghost t0 = old(self).state().tables;
        proof {
            use_type_invariant(table);
        }
        let pre = self.entries_raw(table.name())?;
        proof {
            assert(entries_list_of(pre.deep_view(), t0, n));
            crate::db::lemma_pairs_deep_view(&pre);
        }
        let mut decoded: Vec<(K, V)> = Vec::new();
        let mut i: usize = 0;
        while i < pre.len()
            invariant
                index_unchanged(old(self), self),
                tnames_grow(old(self).state(), self.state(), n),
                self.wf() == old(self).wf(),
                n == table.spec_name(),
                t0 == old(self).state().tables,
                0 <= i <= pre@.len(),
                pre.deep_view().len() == pre@.len(),
                forall|w: int|
                    0 <= w < pre@.len() ==> #[trigger] pre.deep_view()[w] == (
                        pre@[w].0@,
                        pre@[w].1@,
                    ),
                decoded.deep_view().len() == i,
                forall|w: int|
                    0 <= w < decoded@.len() ==> #[trigger] decoded.deep_view()[w] == (
                        decoded@[w].0.deep_view(),
                        decoded@[w].1.deep_view(),
                    ),
                forall|w: int|
                    0 <= w < i ==> K::decm(pre.deep_view()[w].0) == Some(
                        (#[trigger] decoded.deep_view()[w]).0,
                    ) && V::decm(pre.deep_view()[w].1) == Some(decoded.deep_view()[w].1)
                        && K::wfm(decoded.deep_view()[w].0) && V::wfm(decoded.deep_view()[w].1),
            decreases pre@.len() - i,
        {
            let k = K::from_bytes(pre[i].0.as_slice())?;
            let v = V::from_bytes(pre[i].1.as_slice())?;
            let ghost d0 = decoded.deep_view();
            decoded.push((k, v));
            proof {
                lemma_deep_view_index(&decoded);
                assert(decoded.deep_view() =~~= d0.push(
                    (K::decm(pre.deep_view()[i as int].0)->Some_0, V::decm(
                        pre.deep_view()[i as int].1,
                    )->Some_0),
                ));
            }
            i = i + 1;
        }
        let mut a: usize = 0;
        while a < decoded.len()
            invariant
                index_unchanged(old(self), self),
                tnames_grow(old(self).state(), self.state(), n),
                self.wf() == old(self).wf(),
                n == table.spec_name(),
                t0 == old(self).state().tables,
                0 <= a <= decoded@.len(),
                decoded.deep_view().len() == decoded@.len(),
                forall|w: int|
                    0 <= w < decoded@.len() ==> #[trigger] decoded.deep_view()[w] == (
                        decoded@[w].0.deep_view(),
                        decoded@[w].1.deep_view(),
                    ),
                forall|w: int|
                    0 <= w < decoded@.len() ==> K::wfm((#[trigger] decoded.deep_view()[w]).0),
                forall|x: int, y: int|
                    0 <= x < y < a ==> (#[trigger] decoded.deep_view()[x]).0
                        != (#[trigger] decoded.deep_view()[y]).0,
            decreases decoded@.len() - a,
        {
            let mut b: usize = 0;
            while b < a
                invariant
                index_unchanged(old(self), self),
                tnames_grow(old(self).state(), self.state(), n),
                self.wf() == old(self).wf(),
                n == table.spec_name(),
                t0 == old(self).state().tables,
                    0 <= b <= a < decoded@.len(),
                    decoded.deep_view().len() == decoded@.len(),
                    forall|w: int|
                        0 <= w < decoded@.len() ==> #[trigger] decoded.deep_view()[w] == (
                            decoded@[w].0.deep_view(),
                            decoded@[w].1.deep_view(),
                        ),
                    forall|w: int|
                        0 <= w < decoded@.len() ==> K::wfm((#[trigger] decoded.deep_view()[w]).0),
                    forall|x: int| 0 <= x < b ==> (#[trigger] decoded.deep_view()[x]).0
                        != decoded.deep_view()[a as int].0,
                decreases a - b,
            {
                let same = decoded[b].0.le_exec(&decoded[a].0) && decoded[a].0.le_exec(
                    &decoded[b].0,
                );
                proof {
                    K::lemma_order(
                        decoded.deep_view()[b as int].0,
                        decoded.deep_view()[a as int].0,
                        decoded.deep_view()[a as int].0,
                    );
                }
                if same {
                    return Err(DbError::CorruptData);
                }
                b = b + 1;
            }
            a = a + 1;
        }
        let ghost ddv = decoded.deep_view();
        let sorted = sort_pairs(decoded);
        proof {
            let sv = sorted.deep_view();
            assert forall|w: int| 0 <= w < sv.len() implies entry_of::<K, V>(
                t0,
                n,
                #[trigger] sv[w],
            ) && K::wfm(sv[w].0) && V::wfm(sv[w].1) by {
                assert(sv.contains(sv[w]));
                assert(ddv.contains(sv[w]));
                let x = choose|x: int| 0 <= x < ddv.len() && ddv[x] == sv[w];
                let kb = pre.deep_view()[x].0;
                assert(t0.dom().contains((n, kb)));
                assert(t0[(n, kb)] == pre.deep_view()[x].1);
                assert(K::decm(kb) == Some(sv[w].0) && V::decm(t0[(n, kb)]) == Some(sv[w].1));
            }
            assert forall|kb: Seq<u8>| #[trigger] t0.dom().contains((n, kb)) implies exists|
                i2: int,
            |
                0 <= i2 < sv.len() && K::decm(kb) == Some((#[trigger] sv[i2]).0) && V::decm(
                    t0[(n, kb)],
                ) == Some(sv[i2].1) by {
                let w = choose|w: int|
                    0 <= w < pre.deep_view().len() && #[trigger] pre.deep_view()[w].0 == kb;
                assert(K::decm(kb) == Some(ddv[w].0) && V::decm(pre.deep_view()[w].1) == Some(
                    ddv[w].1,
                ));
                assert(t0[(n, kb)] == pre.deep_view()[w].1);
                assert(ddv.contains(ddv[w]));
                assert(sv.contains(ddv[w]));
                let i2 = choose|i2: int| 0 <= i2 < sv.len() && sv[i2] == ddv[w];
                assert(K::decm(kb) == Some(sv[i2].0) && V::decm(t0[(n, kb)]) == Some(sv[i2].1));
            }
        }
        Ok(sorted)
    }

    /// The entry with the smallest key, if the table has any entry.
    pub fn first<K: DbKey, V: DbValue>(&mut self, table: &TableHandle<K, V>) -> (r: Result<
        Option<(K, V)>,
        DbError,
    >)
        ensures
            index_unchanged(old(self), final(self)),
            tnames_grow(old(self).state(), final(self).state(), table.spec_name()),
            final(self).wf() == old(self).wf(),
            match r {
                Ok(o) => exists|s: Seq<(K::V, V::V)>|
                    #[trigger] table_snapshot::<K, V>(
                        s,
                        old(self).state().tables,
                        table.spec_name(),
                    ) && (match o {
                        Some(p) => s.len() > 0 && p.0.deep_view() == s[0].0 && p.1.deep_view()
                            == s[0].1,
                        None => s.len() == 0,
                    }),
                Err(e) => e != DbError::NotFound,
            },
    {
        let mut s = self.table(table)?;
        let ghost sv = s.deep_view();
        proof {
            lemma_deep_view_index(&s);
        }
        if s.len() == 0 {
            Ok(None)
        } else {
            let p = s.remove(0);
            Ok(Some(p))
        }
    }

    /// The entry with the greatest key, if the table has any entry.
    pub fn last<K: DbKey, V: DbValue>(&mut self, table: &TableHandle<K, V>) -> (r: Result<
        Option<(K, V)>,
        DbError,
    >)
        ensures
            index_unchanged(old(self), final(self)),
            tnames_grow(old(self).state(), final(self).state(), table.spec_name()),
            final(self).wf() == old(self).wf(),
            match r {
                Ok(o) => exists|s: Seq<(K::V, V::V)>|
                    #[trigger] table_snapshot::<K, V>(
                        s,
                        old(self).state().tables,
                        table.spec_name(),
                    ) && (match o {
                        Some(p) => s.len() > 0 && p.0.deep_view() == s[s.len() - 1].0
                            && p.1.deep_view() == s[s.len() - 1].1,
                        None => s.len() == 0,
                    }),
                Err(e) => e != DbError::NotFound,
            },
    {
        let mut s = self.table(table)?;
        let ghost sv = s.deep_view();
        proof {
            lemma_deep_view_index(&s);
        }
        match s.pop() {
            Some(p) => Ok(Some(p)),
            None => Ok(None),
        }
    }

    /// The smallest key, if the table has any entry.
    pub fn first_key<K: DbKey, V: DbValue>(&mut self, table: &TableHandle<K, V>) -> (r: Result<
        Option<K>,
        DbError,
    >)
        ensures
            index_unchanged(old(self), final(self)),
            tnames_grow(old(self).state(), final(self).state(), table.spec_name()),
            final(self).wf() == old(self).wf(),
            match r {
                Ok(o) => exists|s: Seq<(K::V, V::V)>|
                    #[trigger] table_snapshot::<K, V>(
                        s,
                        old(self).state().tables,
                        table.spec_name(),
                    ) && (match o {
                        Some(k) => s.len() > 0 && k.deep_view() == s[0].0,
                        None => s.len() == 0,
                    }),
                Err(e) => e != DbError::NotFound,
            },
    {
        match self.first(table)? {
            Some(p) => Ok(Some(p.0)),
            None => Ok(None),
        }
    }

    /// The greatest key, if the table has any entry.
    pub fn last_key<K: DbKey, V: DbValue>(&mut self, table: &TableHandle<K, V>) -> (r: Result<
        Option<K>,
        DbError,
    >)
        ensures
            index_unchanged(old(self), final(self)),
            tnames_grow(old(self).state(), final(self).state(), table.spec_name()),
            final(self).wf() == old(self).wf(),
            match r {
                Ok(o) => exists|s: Seq<(K::V, V::V)>|
                    #[trigger] table_snapshot::<K, V>(
                        s,
                        old(self).state().tables,
                        table.spec_name(),
                    ) && (match o {
                        Some(k) => s.len() > 0 && k.deep_view() == s[s.len() - 1].0,
                        None => s.len() == 0,
                    }),
                Err(e) => e != DbError::NotFound,
            },
    {
        match self.last(table)? {
            Some(p) => Ok(Some(p.0)),
            None => Ok(None),
        }
    }

    /// The entries whose keys lie in the half-open range from `low`
    /// (included) up to `high` (excluded), ascending by key.
    pub fn range<K: DbKey, V: DbValue>(
        &mut self,
        table: &TableHandle<K, V>,
        low: &K,
        high: &K,
    ) -> (r: Result<Vec<(K, V)>, DbError>)
        ensures
            index_unchanged(old(self), final(self)),
            tnames_grow(old(self).state(), final(self).state(), table.spec_name()),
            final(self).wf() == old(self).wf(),
            match r {
                Ok(res) => exists|s: Seq<(K::V, V::V)>|
                    #[trigger] table_snapshot::<K, V>(
                        s,
                        old(self).state().tables,
                        table.spec_name(),
                    ) && res.deep_view() == range_keep::<K, V>(
                        s,
                        low.deep_view(),
                        high.deep_view(),
                    ),
                Err(e) => e != DbError::NotFound,
            },
    {
        let s = self.table(table)?;
        let ghost sv = s.deep_view();
        proof {
            lemma_deep_view_index(&s);
        }
        let mut res: Vec<(K, V)> = Vec::new();
        let mut i: usize = 0;
        while i < s.len()
            invariant
                0 <= i <= s@.len(),
                sv.len() == s@.len(),
                forall|w: int|
                    0 <= w < s@.len() ==> #[trigger] sv[w] == (
                        s@[w].0.deep_view(),
                        s@[w].1.deep_view(),
                    ),
                sv == s.deep_view(),
                res.deep_view() =~= range_keep::<K, V>(
                    sv.take(i as int),
                    low.deep_view(),
                    high.deep_view(),
                ),
            decreases s@.len() - i,
        {
            let keep = low.le_exec(&s[i].0) && !high.le_exec(&s[i].0);
            let ghost r0 = res.deep_view();
            if keep {
                res.push((s[i].0.dup(), s[i].1.dup()));
            }
            proof {
                lemma_deep_view_index(&res);
                assert(sv.take(i as int + 1).drop_last() =~= sv.take(i as int));
                assert(sv.take(i as int + 1).last() == sv[i as int]);
                if keep {
                    assert(res.deep_view() =~~= r0.push(sv[i as int]));
                }
                assert(res.deep_view() =~~= range_keep::<K, V>(
                    sv.take(i as int + 1),
                    low.deep_view(),
                    high.deep_view(),
                ));
            }
            i = i + 1;
        }
        proof {
            assert(sv.take(s@.len() as int) =~= sv);
        }
        Ok(res)
    }

    /// The entries whose keys both given ends admit, ascending by key: each
    /// end may be unbounded, or bound the keys by a key inclusively or
    /// exclusively.
    pub fn range_bounds<K: DbKey, V: DbValue>(
        &mut self,
        table: &TableHandle<K, V>,
        low: &KeyBound<K>,
        high: &KeyBound<K>,
    ) -> (r: Result<Vec<(K, V)>, DbError>)
        ensures
            index_unchanged(old(self), final(self)),
            tnames_grow(old(self).state(), final(self).state(), table.spec_name()),
            final(self).wf() == old(self).wf(),
            match r {
                Ok(res) => exists|s: Seq<(K::V, V::V)>|
                    #[trigger] table_snapshot::<K, V>(
                        s,
                        old(self).state().tables,
                        table.spec_name(),
                    ) && res.deep_view() == bounds_keep::<K, V>(s, *low, *high),
                Err(e) => e != DbError::NotFound,
            },
    {
        let s = self.table(table)?;
        let ghost sv = s.deep_view();
        proof {
            lemma_deep_view_index(&s);
        }
        let mut res: Vec<(K, V)> = Vec::new();
        let mut i: usize = 0;
        while i < s.len()
            invariant
                0 <= i <= s@.len(),
                sv.len() == s@.len(),
                forall|w: int|
                    0 <= w < s@.len() ==> #[trigger] sv[w] == (
                        s@[w].0.deep_view(),
                        s@[w].1.deep_view(),
                    ),
                sv == s.deep_view(),
                res.deep_view() =~= bounds_keep::<K, V>(sv.take(i as int), *low, *high),
            decreases s@.len() - i,
        {
            let keep = low.admits_from_exec(&s[i].0) && high.admits_to_exec(&s[i].0);
            let ghost r0 = res.deep_view();
            if keep {
                res.push((s[i].0.dup(), s[i].1.dup()));
            }
            proof {
                lemma_deep_view_index(&res);
                assert(sv.take(i as int + 1).drop_last() =~= sv.take(i as int));
                assert(sv.take(i as int + 1).last() == sv[i as int]);
                if keep {
                    assert(res.deep_view() =~~= r0.push(sv[i as int]));
                }
                assert(res.deep_view() =~~= bounds_keep::<K, V>(
                    sv.take(i as int + 1),
                    *low,
                    *high,
                ));
            }
            i = i + 1;
        }
        proof {
            assert(sv.take(s@.len() as int) =~= sv);
        }
        Ok(res)
    }

    /// The entries the predicate accepts, ascending by key.
    pub fn filter<K: DbKey, V: DbValue, F: Fn(K, V) -> bool>(
        &mut self,
        table: &TableHandle<K, V>,
        predicate: F,
    ) -> (r: Result<Vec<(K, V)>, DbError>)
        requires
            forall|a: K, b: V| call_requires(predicate, (a, b)),
        ensures
            index_unchanged(old(self), final(self)),
            tnames_grow(old(self).state(), final(self).state(), table.spec_name()),
            final(self).wf() == old(self).wf(),
            match r {
                Ok(res) => exists|s: Seq<(K::V, V::V)>, flags: Seq<bool>|
                    table_snapshot::<K, V>(s, old(self).state().tables, table.spec_name())
                        && #[trigger] flags_ok::<K, V, F>(predicate, s, flags) && res.deep_view()
                        == keep_flags(s, flags),
                Err(e) => e != DbError::NotFound,
            },
    {
        let s = self.table(table)?;
        let ghost sv = s.deep_view();
        proof {
            lemma_deep_view_index(&s);
        }
        let mut res: Vec<(K, V)> = Vec::new();
        let ghost mut flags: Seq<bool> = Seq::empty();
        let mut i: usize = 0;
        while i < s.len()
            invariant
                0 <= i <= s@.len(),
                sv.len() == s@.len(),
                forall|w: int|
                    0 <= w < s@.len() ==> #[trigger] sv[w] == (
                        s@[w].0.deep_view(),
                        s@[w].1.deep_view(),
                    ),
                sv == s.deep_view(),
                forall|a: K, b: V| call_requires(predicate, (a, b)),
                flags.len() == i,
                forall|w: int|
                    0 <= w < i ==> flag_at::<K, V, F>(predicate, sv[w], #[trigger] flags[w]),
                res.deep_view() =~= keep_flags(sv.take(i as int), flags),
            decreases s@.len() - i,
        {
            let a = s[i].0.dup();
            let b = s[i].1.dup();
            let ghost ga = a;
            let ghost gb = b;
            let fl = predicate(a, b);
            let ghost r0 = res.deep_view();
            let ghost flags0 = flags;
            if fl {
                res.push((s[i].0.dup(), s[i].1.dup()));
            }
            proof {
                flags = flags.push(fl);
                lemma_deep_view_index(&res);
                assert(call_ensures(predicate, (ga, gb), fl));
                assert(flag_at::<K, V, F>(predicate, sv[i as int], fl));
                assert(sv.take(i as int + 1).drop_last() =~= sv.take(i as int));
                assert(flags.drop_last() =~= flags0);
                assert(sv.take(i as int + 1).last() == sv[i as int]);
                if fl {
                    assert(res.deep_view() =~~= r0.push(sv[i as int]));
                }
                assert(res.deep_view() =~~= keep_flags(sv.take(i as int + 1), flags));
            }
            i = i + 1;
        }
        proof {
            assert(sv.take(s@.len() as int) =~= sv);
            assert(flags_ok::<K, V, F>(predicate, sv, flags));
            assert(res.deep_view() == keep_flags(sv, flags));
        }
        Ok(res)
    }

    /// The keys of the entries the predicate accepts, ascending.
    pub fn filter_keys<K: DbKey, V: DbValue, F: Fn(K, V) -> bool>(
        &mut self,
        table: &TableHandle<K, V>,
        predicate: F,
    ) -> (r: Result<Vec<K>, DbError>)
        requires
            forall|a: K, b: V| call_requires(predicate, (a, b)),
        ensures
            index_unchanged(old(self), final(self)),
            tnames_grow(old(self).state(), final(self).state(), table.spec_name()),
            final(self).wf() == old(self).wf(),
            match r {
                Ok(res) => exists|s: Seq<(K::V, V::V)>, flags: Seq<bool>|
                    table_snapshot::<K, V>(s, old(self).state().tables, table.spec_name())
                        && #[trigger] flags_ok::<K, V, F>(predicate, s, flags) && res.deep_view()
                        == keys_of::<K, V>(keep_flags(s, flags)),
                Err(e) => e != DbError::NotFound,
            },
    {
        let pairs = self.filter(table, predicate)?;
        proof {
            lemma_deep_view_index(&pairs);
        }
        let mut res: Vec<K> = Vec::new();
        let mut i: usize = 0;
        while i < pairs.len()
            invariant
                0 <= i <= pairs@.len(),
                pairs.deep_view().len() == pairs@.len(),
                forall|w: int|
                    0 <= w < pairs@.len() ==> #[trigger] pairs.deep_view()[w] == (
                        pairs@[w].0.deep_view(),
                        pairs@[w].1.deep_view(),
                    ),
                res.deep_view() =~= keys_of::<K, V>(pairs.deep_view()).take(i as int),
            decreases pairs@.len() - i,
        {
            let ghost r0 = res.deep_view();
            res.push(pairs[i].0.dup());
            proof {
                lemma_deep_view_index(&res);
                assert(res.deep_view() =~~= r0.push(pairs.deep_view()[i as int].0));
                assert(res.deep_view() =~~= keys_of::<K, V>(pairs.deep_view()).take(i as int + 1));
            }
            i = i + 1;
        }
        proof {
            assert(keys_of::<K, V>(pairs.deep_view()).take(pairs@.len() as int) =~= keys_of::<
                K,
                V,
            >(pairs.deep_view()));
        }
        Ok(res)
    }

    /// The accepted entry with the smallest key, if the predicate accepts
    /// any entry.
    pub fn find<K: DbKey, V: DbValue, F: Fn(K, V) -> bool>(
        &mut self,
        table: &TableHandle<K, V>,
        predicate: F,
    ) -> (r: Result<Option<(K, V)>, DbError>)
        requires
            forall|a: K, b: V| call_requires(predicate, (a, b)),
        ensures
            index_unchanged(old(self), final(self)),
            tnames_grow(old(self).state(), final(self).state(), table.spec_name()),
            final(self).wf() == old(self).wf(),
            match r {
                Ok(o) => exists|s: Seq<(K::V, V::V)>, flags: Seq<bool>|
                    table_snapshot::<K, V>(s, old(self).state().tables, table.spec_name())
                        && #[trigger] flags_ok::<K, V, F>(predicate, s, flags) && (match o {
                        Some(p) => keep_flags(s, flags).len() > 0 && (
                        p.0.deep_view(),
                        p.1.deep_view(),
                        ) == keep_flags(s, flags)[0],
                        None => keep_flags(s, flags).len() == 0,
                    }),
                Err(e) => e != DbError::NotFound,
            },
    {
        let mut kept = self.filter(table, predicate)?;
        proof {
            lemma_deep_view_index(&kept);
        }
        if kept.len() == 0 {
            Ok(None)
        } else {
            let p = kept.remove(0);
            Ok(Some(p))
        }
    }

    /// The accepted entry with the greatest key, if the predicate accepts
    /// any entry.
    pub fn rfind<K: DbKey, V: DbValue, F: Fn(K, V) -> bool>(
        &mut self,
        table: &TableHandle<K, V>,
        predicate: F,
    ) -> (r: Result<Option<(K, V)>, DbError>)
        requires
            forall|a: K, b: V| call_requires(predicate, (a, b)),
        ensures
            index_unchanged(old(self), final(self)),
            tnames_grow(old(self).state(), final(self).state(), table.spec_name()),
            final(self).wf() == old(self).wf(),
            match r {
                Ok(o) => exists|s: Seq<(K::V, V::V)>, flags: Seq<bool>|
                    table_snapshot::<K, V>(s, old(self).state().tables, table.spec_name())
                        && #[trigger] flags_ok::<K, V, F>(predicate, s, flags) && (match o {
                        Some(p) => keep_flags(s, flags).len() > 0 && (
                        p.0.deep_view(),
                        p.1.deep_view(),
                        ) == keep_flags(s, flags)[keep_flags(s, flags).len() - 1],
                        None => keep_flags(s, flags).len() == 0,
                    }),
                Err(e) => e != DbError::NotFound,
            },
    {
        let mut kept = self.filter(table, predicate)?;
        proof {
            lemma_deep_view_index(&kept);
        }
        match kept.pop() {
            Some(p) => Ok(Some(p)),
            None => Ok(None),
        }
    }

    /// The accepted entry with `nth` accepted entries below it in key order,
    /// if there are more than `nth` accepted entries (so `nth` 0 is the
    /// first match).
    pub fn find_nth<K: DbKey, V: DbValue, F: Fn(K, V) -> bool>(
        &mut self,
        nth: usize,
        table: &TableHandle<K, V>,
        predicate: F,
    ) -> (r: Result<Option<(K, V)>, DbError>)
        requires
            forall|a: K, b: V| call_requires(predicate, (a, b)),
        ensures
            index_unchanged(old(self), final(self)),
            tnames_grow(old(self).state(), final(self).state(), table.spec_name()),
            final(self).wf() == old(self).wf(),
            match r {
                Ok(o) => exists|s: Seq<(K::V, V::V)>, flags: Seq<bool>|
                    table_snapshot::<K, V>(s, old(self).state().tables, table.spec_name())
                        && #[trigger] flags_ok::<K, V, F>(predicate, s, flags) && (match o {
                        Some(p) => keep_flags(s, flags).len() > nth && (
                        p.0.deep_view(),
                        p.1.deep_view(),
                        ) == keep_flags(s, flags)[nth as int],
                        None => keep_flags(s, flags).len() <= nth,
                    }),
                Err(e) => e != DbError::NotFound,
            },
    {
        let kept = self.filter(table, predicate)?;
        proof {
            lemma_deep_view_index(&kept);
        }
        if nth < kept.len() {
            Ok(Some((kept[nth].0.dup(), kept[nth].1.dup())))
        } else {
            Ok(None)
        }
    }

    /// How many entries the predicate accepts.
    pub fn count_matches<K: DbKey, V: DbValue, F: Fn(K, V) -> bool>(
        &mut self,
        table: &TableHandle<K, V>,
        predicate: F,
    ) -> (r: Result<usize, DbError>)
        requires
            forall|a: K, b: V| call_requires(predicate, (a, b)),
        ensures
            index_unchanged(old(self), final(self)),
            tnames_grow(old(self).state(), final(self).state(), table.spec_name()),
            final(self).wf() == old(self).wf(),
            match r {
                Ok(c) => exists|s: Seq<(K::V, V::V)>, flags: Seq<bool>|
                    table_snapshot::<K, V>(s, old(self).state().tables, table.spec_name())
                        && #[trigger] flags_ok::<K, V, F>(predicate, s, flags) && c == count_true(
                        flags,
                    ),
                Err(e) => e != DbError::NotFound,
            },
    {
        let pairs = self.filter(table, predicate)?;
        let ghost pv = pairs.deep_view();
        proof {
            let (s, flags) = choose|s: Seq<(K::V, V::V)>, flags: Seq<bool>|
                table_snapshot::<K, V>(s, old(self).state().tables, table.spec_name())
                    && #[trigger] flags_ok::<K, V, F>(predicate, s, flags) && pv == keep_flags(
                    s,
                    flags,
                );
            lemma_keep_count(s, flags);
        }
        Ok(pairs.len())
    }

    /// Whether the table holds a value under the key.
    pub fn contains_key<K: DbKey, V: DbValue>(&mut self, table: &TableHandle<K, V>, key: &K) -> (r:
        Result<bool, DbError>)
        ensures
            index_unchanged(old(self), final(self)),
            tnames_grow(old(self).state(), final(self).state(), table.spec_name()),
            final(self).wf() == old(self).wf(),
            match r {
                Ok(b) => b == tbl_contains::<K>(old(self).state(), table.spec_name(), key.deep_view()),
                Err(e) => e == DbError::TransactionError || e == DbError::TableAccessError || e
                    == DbError::CommitFailed,
            },
    {
        let kb = key.to_bytes();
        proof {
            use_type_invariant(table);
        }
        match self.read_raw(table.name(), kb.as_slice())? {
            Some(_) => Ok(true),
            None => Ok(false),
        }
    }
}

} // verus!
