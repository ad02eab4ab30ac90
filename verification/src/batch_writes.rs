//! Batch write operations: many logical edits inside exactly one write
//! transaction. All of them take effect on success; on any failure before
//! the commit none do, and on a failed commit (`CommitFailed`) all of them
//! took effect or none did — never a prefix.

use vstd::prelude::*;

use crate::codec::{lemma_enc_injective, DbKey, DbValue};
use crate::db::{entries_list_of, index_unchanged, tnames_grow, CakeDb};
use crate::engine::{apply_step, apply_steps, drop_table, StepM, WriteStep};
use crate::error::DbError;
use crate::handles::TableHandle;
use crate::sort::lemma_deep_view_index;
use crate::util::{contains_bytes, lookup_bytes};

verus! {

/// The all-tables map after writing each pair in order: later pairs with the
/// same key win.
pub open spec fn insert_pairs<K: DbKey, V: DbValue>(
    t: Map<(Seq<char>, Seq<u8>), Seq<u8>>,
    n: Seq<char>,
    ps: Seq<(K::V, V::V)>,
) -> Map<(Seq<char>, Seq<u8>), Seq<u8>>
    decreases ps.len(),
{
    if ps.len() == 0 {
        t
    } else {
        insert_pairs::<K, V>(t.insert((n, K::encm(ps[0].0)), V::encm(ps[0].1)), n, ps.drop_first())
    }
}

/// The write steps that store each pair, in order.
pub open spec fn puts_of<K: DbKey, V: DbValue>(ps: Seq<(K::V, V::V)>) -> Seq<StepM> {
    Seq::new(ps.len(), |i: int| StepM::Put(K::encm(ps[i].0), V::encm(ps[i].1)))
}

/// Applying the pairs' write steps is writing the pairs.
proof fn lemma_apply_puts<K: DbKey, V: DbValue>(
    t: Map<(Seq<char>, Seq<u8>), Seq<u8>>,
    n: Seq<char>,
    ps: Seq<(K::V, V::V)>,
)
    ensures
        apply_steps(t, n, puts_of::<K, V>(ps)) == insert_pairs::<K, V>(t, n, ps),
    decreases ps.len(),
{
    if ps.len() > 0 {
        let steps = puts_of::<K, V>(ps);
        assert(steps[0] == StepM::Put(K::encm(ps[0].0), V::encm(ps[0].1)));
        let t1 = apply_step(t, n, steps[0]);
        assert(steps.drop_first() =~= puts_of::<K, V>(ps.drop_first()));
        lemma_apply_puts::<K, V>(t1, n, ps.drop_first());
    }
}

/// The all-tables map after conditionally adding each pair in order: a pair
/// is added only if its key is still absent, counting the additions made so
/// far in this very batch.
pub open spec fn try_add_pairs<K: DbKey, V: DbValue>(
    t: Map<(Seq<char>, Seq<u8>), Seq<u8>>,
    n: Seq<char>,
    ps: Seq<(K::V, V::V)>,
) -> Map<(Seq<char>, Seq<u8>), Seq<u8>>
    decreases ps.len(),
{
    if ps.len() == 0 {
        t
    } else {
        let kb = K::encm(ps[0].0);
        let t1 = if t.dom().contains((n, kb)) {
            t
        } else {
            t.insert((n, kb), V::encm(ps[0].1))
        };
        try_add_pairs::<K, V>(t1, n, ps.drop_first())
    }
}

/// The pair at position `i` is skipped: its key is present in the table as
/// the pairs before it left it.
pub open spec fn skipped_at<K: DbKey, V: DbValue>(
    t: Map<(Seq<char>, Seq<u8>), Seq<u8>>,
    n: Seq<char>,
    ps: Seq<(K::V, V::V)>,
    i: int,
) -> bool {
    try_add_pairs::<K, V>(t, n, ps.take(i)).dom().contains((n, K::encm(ps[i].0)))
}

/// The key model is one of the first `upto` pairs' keys and that pair was
/// skipped.
pub open spec fn skipped_key<K: DbKey, V: DbValue>(
    k: K::V,
    t0: Map<(Seq<char>, Seq<u8>), Seq<u8>>,
    n: Seq<char>,
    ps: Seq<(K::V, V::V)>,
    upto: int,
) -> bool {
    exists|m: int|
        0 <= m < upto && k == (#[trigger] ps[m]).0 && skipped_at::<K, V>(t0, n, ps, m)
}

/// Conditionally adding one more pair conditionally adds it to the result.
proof fn lemma_try_add_push<K: DbKey, V: DbValue>(
    t: Map<(Seq<char>, Seq<u8>), Seq<u8>>,
    n: Seq<char>,
    ps: Seq<(K::V, V::V)>,
    p: (K::V, V::V),
)
    ensures
        try_add_pairs::<K, V>(t, n, ps.push(p)) == ({
            let t1 = try_add_pairs::<K, V>(t, n, ps);
            if t1.dom().contains((n, K::encm(p.0))) {
                t1
            } else {
                t1.insert((n, K::encm(p.0)), V::encm(p.1))
            }
        }),
    decreases ps.len(),
{
    if ps.len() == 0 {
        assert(ps.push(p)[0] == p);
        assert(ps.push(p).drop_first() =~= Seq::<(K::V, V::V)>::empty());
        let kb = K::encm(p.0);
        let t1 = if t.dom().contains((n, kb)) {
            t
        } else {
            t.insert((n, kb), V::encm(p.1))
        };
        assert(try_add_pairs::<K, V>(t1, n, ps.push(p).drop_first()) == t1);
    } else {
        assert(ps.push(p)[0] == ps[0]);
        assert(ps.push(p).drop_first() =~= ps.drop_first().push(p));
        let kb0 = K::encm(ps[0].0);
        let t1 = if t.dom().contains((n, kb0)) {
            t
        } else {
            t.insert((n, kb0), V::encm(ps[0].1))
        };
        lemma_try_add_push::<K, V>(t1, n, ps.drop_first(), p);
    }
}

/// The latest thing the edits do to key `k`: nothing, a write of some bytes,
/// or a delete.
pub open spec fn last_effect(s: Seq<StepM>, k: Seq<u8>) -> Option<Option<Seq<u8>>>
    decreases s.len(),
{
    if s.len() == 0 {
        None
    } else {
        match s.last() {
            StepM::Put(k2, v) => if k2 == k {
                Some(Some(v))
            } else {
                last_effect(s.drop_last(), k)
            },
            StepM::Del(k2) => if k2 == k {
                Some(None)
            } else {
                last_effect(s.drop_last(), k)
            },
        }
    }
}

/// Applying one more edit is applying the edits, then the one.
pub proof fn lemma_apply_steps_push(
    t: Map<(Seq<char>, Seq<u8>), Seq<u8>>,
    n: Seq<char>,
    s: Seq<StepM>,
    x: StepM,
)
    ensures
        apply_steps(t, n, s.push(x)) == apply_step(apply_steps(t, n, s), n, x),
    decreases s.len(),
{
    if s.len() == 0 {
        assert(s.push(x)[0] == x);
        assert(s.push(x).drop_first() =~= Seq::<StepM>::empty());
        assert(apply_steps(apply_step(t, n, x), n, s.push(x).drop_first()) == apply_step(
            t,
            n,
            x,
        ));
    } else {
        assert(s.push(x)[0] == s[0]);
        assert(s.push(x).drop_first() =~= s.drop_first().push(x));
        lemma_apply_steps_push(apply_step(t, n, s[0]), n, s.drop_first(), x);
    }
}

/// What the edited table holds at one key: the latest edit for it, or the
/// original entry if no edit touched it. Tables of other names are untouched.
pub proof fn lemma_apply_lookup(
    t: Map<(Seq<char>, Seq<u8>), Seq<u8>>,
    n: Seq<char>,
    s: Seq<StepM>,
    k: Seq<u8>,
)
    ensures
        ({
            let t2 = apply_steps(t, n, s);
            match last_effect(s, k) {
                Some(Some(v)) => t2.dom().contains((n, k)) && t2[(n, k)] == v,
                Some(None) => !t2.dom().contains((n, k)),
                None => t2.dom().contains((n, k)) == t.dom().contains((n, k)) && (t.dom().contains(
                    (n, k),
                ) ==> t2[(n, k)] == t[(n, k)]),
            }
        }),
    decreases s.len(),
{
    if s.len() > 0 {
        assert(s =~= s.drop_last().push(s.last()));
        lemma_apply_steps_push(t, n, s.drop_last(), s.last());
        lemma_apply_lookup(t, n, s.drop_last(), k);
        assert(last_effect(s.drop_last(), k) == last_effect(s.drop_last().push(s.last()).drop_last(), k));
    }
}

/// The table after the batch edit, given the choice made at each key: the
/// new value written there, or nothing where the key was absent.
pub open spec fn edits_apply<K: DbKey, V: DbValue>(
    t: Map<(Seq<char>, Seq<u8>), Seq<u8>>,
    n: Seq<char>,
    ks: Seq<K>,
    nvs: Seq<Option<V>>,
) -> Map<(Seq<char>, Seq<u8>), Seq<u8>>
    decreases ks.len(),
{
    if ks.len() == 0 || nvs.len() == 0 {
        t
    } else {
        let t1 = match nvs[0] {
            Some(nv) => t.insert((n, K::encm(ks[0].deep_view())), V::encm(nv.deep_view())),
            None => t,
        };
        edits_apply::<K, V>(t1, n, ks.drop_first(), nvs.drop_first())
    }
}

/// The choice at position `i` is what the edit function does there: where the
/// key is present in the table as edited so far, its decoded value goes
/// through `edit` and the choice is the result; where it is absent, the
/// choice is to skip.
pub open spec fn choice_ok_at<K: DbKey, V: DbValue, F: Fn(K, V) -> V>(
    edit: F,
    t0: Map<(Seq<char>, Seq<u8>), Seq<u8>>,
    n: Seq<char>,
    ks: Seq<K>,
    nvs: Seq<Option<V>>,
    i: int,
) -> bool {
    let tmid = edits_apply::<K, V>(t0, n, ks.take(i), nvs.take(i));
    let kb = K::encm(ks[i].deep_view());
    match nvs[i] {
        Some(nv) => tmid.dom().contains((n, kb)) && (exists|a: K, v: V|
            a.deep_view() == ks[i].deep_view() && V::decm(tmid[(n, kb)]) == Some(v.deep_view())
                && #[trigger] call_ensures(edit, (a, v), nv)),
        None => !tmid.dom().contains((n, kb)),
    }
}

/// The whole batch edit, key by key in order, each edit seeing the table as
/// mutated by the edits before it.
pub open spec fn batch_edited<K: DbKey, V: DbValue, F: Fn(K, V) -> V>(
    edit: F,
    t0: Map<(Seq<char>, Seq<u8>), Seq<u8>>,
    n: Seq<char>,
    ks: Seq<K>,
    t2: Map<(Seq<char>, Seq<u8>), Seq<u8>>,
) -> bool {
    exists|nvs: Seq<Option<V>>|
        {
            &&& nvs.len() == ks.len()
            &&& (forall|i: int| 0 <= i < ks.len() ==> choice_ok_at::<K, V, F>(edit, t0, n, ks, #[trigger] nvs.take(i + 1), i))
            &&& t2 == edits_apply::<K, V>(t0, n, ks, nvs)
        }
}

/// Editing one more key applies that key's choice after the earlier ones.
proof fn lemma_edits_apply_push<K: DbKey, V: DbValue>(
    t: Map<(Seq<char>, Seq<u8>), Seq<u8>>,
    n: Seq<char>,
    ks: Seq<K>,
    nvs: Seq<Option<V>>,
    k: K,
    c: Option<V>,
)
    requires
        ks.len() == nvs.len(),
    ensures
        edits_apply::<K, V>(t, n, ks.push(k), nvs.push(c)) == (match c {
            Some(nv) => edits_apply::<K, V>(t, n, ks, nvs).insert(
                (n, K::encm(k.deep_view())),
                V::encm(nv.deep_view()),
            ),
            None => edits_apply::<K, V>(t, n, ks, nvs),
        }),
    decreases ks.len(),
{
    if ks.len() == 0 {
        assert(ks.push(k)[0] == k);
        assert(nvs.push(c)[0] == c);
        assert(ks.push(k).drop_first() =~= Seq::<K>::empty());
        assert(nvs.push(c).drop_first() =~= Seq::<Option<V>>::empty());
        let t1 = match c {
            Some(nv) => t.insert((n, K::encm(k.deep_view())), V::encm(nv.deep_view())),
            None => t,
        };
        assert(edits_apply::<K, V>(t1, n, ks.push(k).drop_first(), nvs.push(c).drop_first())
            == t1);
        assert(edits_apply::<K, V>(t, n, ks, nvs) == t);
    } else {
        assert(ks.push(k)[0] == ks[0]);
        assert(nvs.push(c)[0] == nvs[0]);
        assert(ks.push(k).drop_first() =~= ks.drop_first().push(k));
        assert(nvs.push(c).drop_first() =~= nvs.drop_first().push(c));
        let t1 = match nvs[0] {
            Some(nv) => t.insert((n, K::encm(ks[0].deep_view())), V::encm(nv.deep_view())),
            None => t,
        };
        lemma_edits_apply_push::<K, V>(t1, n, ks.drop_first(), nvs.drop_first(), k, c);
    }
}

/// How many of the batch's edits change the stored value, compared as
/// decoded values, counting along the chain of edits.
pub open spec fn changed_count<K: DbKey, V: DbValue>(
    t: Map<(Seq<char>, Seq<u8>), Seq<u8>>,
    n: Seq<char>,
    ks: Seq<K>,
    nvs: Seq<Option<V>>,
) -> int
    decreases ks.len(),
{
    if ks.len() == 0 || nvs.len() == 0 {
        0
    } else {
        let kb = K::encm(ks[0].deep_view());
        match nvs[0] {
            Some(nv) => {
                let t1 = t.insert((n, kb), V::encm(nv.deep_view()));
                let d: int = if t.dom().contains((n, kb)) && V::decm(t[(n, kb)]) == Some(
                    nv.deep_view(),
                ) {
                    0
                } else {
                    1
                };
                d + changed_count::<K, V>(t1, n, ks.drop_first(), nvs.drop_first())
            },
            None => changed_count::<K, V>(t, n, ks.drop_first(), nvs.drop_first()),
        }
    }
}

/// Counting one more edit adds whether it changes the stored bytes.
proof fn lemma_changed_push<K: DbKey, V: DbValue>(
    t: Map<(Seq<char>, Seq<u8>), Seq<u8>>,
    n: Seq<char>,
    ks: Seq<K>,
    nvs: Seq<Option<V>>,
    k: K,
    c: Option<V>,
)
    requires
        ks.len() == nvs.len(),
    ensures
        changed_count::<K, V>(t, n, ks.push(k), nvs.push(c)) == changed_count::<K, V>(t, n, ks, nvs)
            + (match c {
            Some(nv) => {
                let tm = edits_apply::<K, V>(t, n, ks, nvs);
                let kb = K::encm(k.deep_view());
                if tm.dom().contains((n, kb)) && V::decm(tm[(n, kb)]) == Some(nv.deep_view()) {
                    0int
                } else {
                    1int
                }
            },
            None => 0int,
        }),
    decreases ks.len(),
{
    if ks.len() == 0 {
        assert(ks.push(k)[0] == k);
        assert(nvs.push(c)[0] == c);
        assert(ks.push(k).drop_first() =~= Seq::<K>::empty());
        assert(nvs.push(c).drop_first() =~= Seq::<Option<V>>::empty());
        match c {
            Some(nv) => {
                let kb = K::encm(k.deep_view());
                let t1 = t.insert((n, kb), V::encm(nv.deep_view()));
                assert(changed_count::<K, V>(
                    t1,
                    n,
                    ks.push(k).drop_first(),
                    nvs.push(c).drop_first(),
                ) == 0);
                assert(edits_apply::<K, V>(t, n, ks, nvs) == t);
            },
            None => {
                assert(changed_count::<K, V>(
                    t,
                    n,
                    ks.push(k).drop_first(),
                    nvs.push(c).drop_first(),
                ) == 0);
            },
        }
    } else {
        assert(ks.push(k)[0] == ks[0]);
        assert(nvs.push(c)[0] == nvs[0]);
        assert(ks.push(k).drop_first() =~= ks.drop_first().push(k));
        assert(nvs.push(c).drop_first() =~= nvs.drop_first().push(c));
        let kb0 = K::encm(ks[0].deep_view());
        match nvs[0] {
            Some(nv0) => {
                let t1 = t.insert((n, kb0), V::encm(nv0.deep_view()));
                lemma_changed_push::<K, V>(t1, n, ks.drop_first(), nvs.drop_first(), k, c);
            },
            None => {
                lemma_changed_push::<K, V>(t, n, ks.drop_first(), nvs.drop_first(), k, c);
            },
        }
    }
}

/// Choices already checked stay checked when one more is appended.
proof fn lemma_update_choices<K: DbKey, V: DbValue, F: Fn(K, V) -> V>(
    edit: F,
    t0: Map<(Seq<char>, Seq<u8>), Seq<u8>>,
    n: Seq<char>,
    ks: Seq<K>,
    nvs0: Seq<Option<V>>,
    i: int,
)
    requires
        0 <= i,
        nvs0.len() == i,
        forall|m: int|
            0 <= m < i ==> choice_ok_at::<K, V, F>(edit, t0, n, ks, #[trigger] nvs0.take(m + 1), m),
    ensures
        forall|c: Option<V>, m: int|
            0 <= m < i ==> choice_ok_at::<K, V, F>(
                edit,
                t0,
                n,
                ks,
                #[trigger] nvs0.push(c).take(m + 1),
                m,
            ),
{
    assert forall|c: Option<V>, m: int| 0 <= m < i implies choice_ok_at::<K, V, F>(
        edit,
        t0,
        n,
        ks,
        #[trigger] nvs0.push(c).take(m + 1),
        m,
    ) by {
        assert(nvs0.push(c).take(m + 1) =~= nvs0.take(m + 1));
    }
}

/// The value bytes the pending edits leave under this key: `Some(Some(v))`
/// after a write of `v`, `Some(None)` after a delete, `None` if no pending
/// edit touches the key.
fn last_put(steps: &Vec<WriteStep>, kb: &Vec<u8>) -> (r: Option<Option<Vec<u8>>>)
    ensures
        match r {
            Some(Some(v)) => last_effect(steps.deep_view(), kb@) == Some(Some(v@)),
            Some(None) => last_effect(steps.deep_view(), kb@) == Some(None::<Seq<u8>>),
            None => last_effect(steps.deep_view(), kb@) is None,
        },
{
    let mut res: Option<Option<Vec<u8>>> = None;
    let mut j: usize = 0;
    proof {
        lemma_deep_view_index(steps);
        assert(steps.deep_view().take(0) =~= Seq::<StepM>::empty());
    }
    while j < steps.len()
        invariant
            0 <= j <= steps@.len(),
            steps.deep_view().len() == steps@.len(),
            forall|m: int|
                0 <= m < steps@.len() ==> #[trigger] steps.deep_view()[m]
                    == steps@[m].deep_view(),
            match res {
                Some(Some(v)) => last_effect(steps.deep_view().take(j as int), kb@) == Some(
                    Some(v@),
                ),
                Some(None) => last_effect(steps.deep_view().take(j as int), kb@) == Some(
                    None::<Seq<u8>>,
                ),
                None => last_effect(steps.deep_view().take(j as int), kb@) is None,
            },
        decreases steps@.len() - j,
    {
        let ghost tpre = steps.deep_view().take(j as int);
        proof {
            assert(steps.deep_view().take(j as int + 1) =~= tpre.push(
                steps.deep_view()[j as int],
            ));
            assert(steps.deep_view().take(j as int + 1).drop_last() =~= tpre);
        }
        match &steps[j] {
            WriteStep::Put(k2, v) => {
                if k2 == kb {
                    proof {
                        assert(k2@ =~= kb@);
                    }
                    let mut c: Vec<u8> = Vec::new();
                    c.extend_from_slice(v.as_slice());
                    res = Some(Some(c));
                } else {
                    proof {
                        assert(k2@ != kb@ || k2@ =~= kb@);
                    }
                }
            },
            WriteStep::Del(k2) => {
                if k2 == kb {
                    proof {
                        assert(k2@ =~= kb@);
                    }
                    res = Some(None);
                } else {
                    proof {
                        assert(k2@ != kb@ || k2@ =~= kb@);
                    }
                }
            },
        }
        j = j + 1;
    }
    proof {
        assert(steps.deep_view().take(steps@.len() as int) =~= steps.deep_view());
    }
    res
}

/// The value bytes the key holds in the table as edited so far: the latest
/// pending write for it, or else the key's entry in the pre-batch listing.
fn current_bytes(
    steps: &Vec<WriteStep>,
    pre: &Vec<(Vec<u8>, Vec<u8>)>,
    kb: &Vec<u8>,
    Ghost(t0): Ghost<Map<(Seq<char>, Seq<u8>), Seq<u8>>>,
    Ghost(n): Ghost<Seq<char>>,
) -> (r: Option<Vec<u8>>)
    requires
        entries_list_of(pre.deep_view(), t0, n),
        pre.deep_view().len() == pre@.len(),
        forall|w: int|
            0 <= w < pre@.len() ==> #[trigger] pre.deep_view()[w] == (pre@[w].0@, pre@[w].1@),
    ensures
        ({
            let cur = apply_steps(t0, n, steps.deep_view());
            match r {
                Some(v) => cur.dom().contains((n, kb@)) && cur[(n, kb@)] == v@,
                None => !cur.dom().contains((n, kb@)),
            }
        }),
{
    proof {
        lemma_apply_lookup(t0, n, steps.deep_view(), kb@);
    }
    match last_put(steps, kb) {
        Some(o) => o,
        None => {
            match lookup_bytes(pre, kb) {
                Some(pi) => {
                    let mut c: Vec<u8> = Vec::new();
                    c.extend_from_slice(pre[pi].1.as_slice());
                    proof {
                        assert(pre.deep_view()[pi as int] == (
                            pre@[pi as int].0@,
                            pre@[pi as int].1@,
                        ));
                        assert(pre.deep_view()[pi as int].0 == kb@);
                        assert(t0.dom().contains((n, pre.deep_view()[pi as int].0)));
                        assert(t0[(n, kb@)] == pre.deep_view()[pi as int].1);
                    }
                    Some(c)
                },
                None => {
                    proof {
                        if t0.dom().contains((n, kb@)) {
                            let w = choose|w: int|
                                0 <= w < pre.deep_view().len() && #[trigger] pre.deep_view()[w].0
                                    == kb@;
                            assert(pre@[w].0@ == kb@);
                        }
                    }
                    None
                },
            }
        },
    }
}

impl CakeDb {
    /// Writes every pair into the table in order, in one transaction,
    /// overwriting values whose keys were present; for duplicate keys in the
    /// input the last write wins. Returns, for each distinct input key that
    /// had a value before the batch, that key with its prior value, in
    /// first-occurrence order.
    pub fn batch_insert<K: DbKey, V: DbValue>(
        &mut self,
        table: &TableHandle<K, V>,
        data: &Vec<(K, V)>,
    ) -> (r: Result<Vec<(K, V)>, DbError>)
        ensures
            index_unchanged(old(self), final(self)),
            final(self).wf() == old(self).wf(),
            final(self).state().mnames == old(self).state().mnames,
            final(self).state().mtables == old(self).state().mtables,
            ({
                let n = table.spec_name();
                let t0 = old(self).state().tables;
                match r {
                    Ok(priors) => {
                        &&& final(self).state().tables == insert_pairs::<K, V>(
                            t0,
                            n,
                            data.deep_view(),
                        )
                        &&& final(self).state().tnames.contains(n)
                        &&& forall|j: int|
                            0 <= j < priors.deep_view().len() ==> t0.dom().contains(
                                (n, K::encm((#[trigger] priors.deep_view()[j]).0)),
                            ) && V::decm(t0[(n, K::encm(priors.deep_view()[j].0))]) == Some(
                                priors.deep_view()[j].1,
                            )
                        &&& forall|j1: int, j2: int|
                            0 <= j1 < j2 < priors.deep_view().len() ==> K::encm(
                                priors.deep_view()[j1].0,
                            ) != K::encm(priors.deep_view()[j2].0)
                        &&& forall|i: int|
                            0 <= i < data.deep_view().len() && t0.dom().contains(
                                (n, K::encm((#[trigger] data.deep_view()[i]).0)),
                            ) ==> exists|j: int|
                                0 <= j < priors.deep_view().len() && K::encm(
                                    #[trigger] priors.deep_view()[j].0,
                                ) == K::encm(data.deep_view()[i].0)
                    },
                    Err(e) => e != DbError::NotFound && (final(self).state().tables
                        == t0 || (e == DbError::CommitFailed && final(self).state().tables == insert_pairs::<K, V>(t0, n, data.deep_view()))),
                }
            }),
    {
        proof {
            use_type_invariant(table);
        }
        let name = table.name();
        let pre = self.entries_raw(name)?;
        let ghost n = table.spec_name();
        let ghost t0 = old(self).state().tables;
        proof {
            assert(entries_list_of(pre.deep_view(), t0, n));
        }
        let mut steps: Vec<WriteStep> = Vec::new();
        let mut priors: Vec<(K, V)> = Vec::new();
        let mut seen: Vec<Vec<u8>> = Vec::new();
        let mut i: usize = 0;
        while i < data.len()
            invariant
                0 <= i <= data@.len(),
                n == table.spec_name(),
                data.deep_view().len() == data@.len(),
                forall|m: int|
                    0 <= m < data@.len() ==> #[trigger] data.deep_view()[m] == (
                        data@[m].0.deep_view(),
                        data@[m].1.deep_view(),
                    ),
                index_unchanged(old(self), self),
                self.wf() == old(self).wf(),
                t0 == old(self).state().tables,
                self.state().tables == t0,
                tnames_grow(old(self).state(), self.state(), n),
                self.state().mnames == old(self).state().mnames,
                self.state().mtables == old(self).state().mtables,
                entries_list_of(pre.deep_view(), t0, n),
                pre.deep_view().len() == pre@.len(),
                forall|m: int|
                    0 <= m < pre@.len() ==> #[trigger] pre.deep_view()[m] == (
                        pre@[m].0@,
                        pre@[m].1@,
                    ),
                steps.deep_view() =~= puts_of::<K, V>(data.deep_view().take(i as int)),
                forall|b: Seq<u8>|
                    seen.deep_view().contains(b) <==> exists|m: int|
                        0 <= m < i && K::encm((#[trigger] data.deep_view()[m]).0) == b,
                priors.deep_view().len() <= i,
                forall|j: int|
                    0 <= j < priors.deep_view().len() ==> t0.dom().contains(
                        (n, K::encm((#[trigger] priors.deep_view()[j]).0)),
                    ) && V::decm(t0[(n, K::encm(priors.deep_view()[j].0))]) == Some(
                        priors.deep_view()[j].1,
                    ) && seen.deep_view().contains(K::encm(priors.deep_view()[j].0)),
                forall|j1: int, j2: int|
                    0 <= j1 < j2 < priors.deep_view().len() ==> K::encm(
                        priors.deep_view()[j1].0,
                    ) != K::encm(priors.deep_view()[j2].0),
                forall|m: int|
                    0 <= m < i && t0.dom().contains(
                        (n, K::encm((#[trigger] data.deep_view()[m]).0)),
                    ) ==> exists|j: int|
                        0 <= j < priors.deep_view().len() && K::encm(
                            #[trigger] priors.deep_view()[j].0,
                        ) == K::encm(data.deep_view()[m].0),
            decreases data@.len() - i,
        {
            let kb = data[i].0.to_bytes();
            let vb = data[i].1.to_bytes();
            let ghost kbv = kb@;
            let ghost kme = K::encm(data.deep_view()[i as int].0);
            let ghost seen0 = seen.deep_view();
            let ghost priors0 = priors.deep_view();
            proof {
                assert(kbv == kme);
            }
            if !contains_bytes(&seen, &kb) {
                match lookup_bytes(&pre, &kb) {
                    Some(pi) => {
                        let pv = V::from_bytes(pre[pi].1.as_slice())?;
                        let ghost prepair = pre.deep_view()[pi as int];
                        proof {
                            assert(prepair == (pre@[pi as int].0@, pre@[pi as int].1@));
                            assert(prepair.0 == kme);
                            assert(t0.dom().contains((n, kme)));
                            assert(t0[(n, kme)] == prepair.1);
                        }
                        priors.push((data[i].0.dup(), pv));
                        proof {
                            lemma_deep_view_index(&priors);
                            assert(priors.deep_view() =~~= priors0.push(
                                (data.deep_view()[i as int].0, V::decm(t0[(n, kme)])->Some_0),
                            ));
                        }
                    },
                    None => {
                        proof {
                            if t0.dom().contains((n, kme)) {
                                let w = choose|w: int|
                                    0 <= w < pre.deep_view().len() && #[trigger] pre.deep_view()[w].0
                                        == kme;
                                assert(pre@[w].0@ == kme);
                            }
                        }
                    },
                }
                let kb2 = data[i].0.to_bytes();
                seen.push(kb2);
                proof {
                    lemma_deep_view_index(&seen);
                    assert(seen.deep_view() =~~= seen0.push(kme));
                    assert forall|b: Seq<u8>| seen.deep_view().contains(b) implies (
                    seen0.contains(b) || b == kme) by {
                        let w = choose|w: int|
                            0 <= w < seen.deep_view().len() && seen.deep_view()[w] == b;
                        if w < seen0.len() {
                            assert(seen0[w] == b);
                        }
                    }
                    assert forall|b: Seq<u8>| seen0.contains(b) implies seen.deep_view().contains(
                        b,
                    ) by {
                        let w = choose|w: int| 0 <= w < seen0.len() && seen0[w] == b;
                        assert(seen.deep_view()[w] == b);
                    }
                    assert(seen.deep_view()[seen0.len() as int] == kme);
                }
            }
            let ghost steps0 = steps.deep_view();
            steps.push(WriteStep::Put(kb, vb));
            proof {
                lemma_deep_view_index(&steps);
                assert(steps.deep_view() =~~= steps0.push(
                    StepM::Put(kme, V::encm(data.deep_view()[i as int].1)),
                ));
                assert(steps.deep_view() =~~= puts_of::<K, V>(
                    data.deep_view().take(i as int + 1),
                ));
                assert(seen.deep_view().contains(kme));
                assert forall|b: Seq<u8>| seen.deep_view().contains(b) implies exists|m: int|
                    0 <= m < i + 1 && K::encm((#[trigger] data.deep_view()[m]).0) == b by {
                    if b != kme {
                        assert(seen0.contains(b));
                        let m = choose|m: int|
                            0 <= m < i && K::encm((#[trigger] data.deep_view()[m]).0) == b;
                        assert(0 <= m < i + 1 && K::encm(data.deep_view()[m].0) == b);
                    } else {
                        assert(K::encm(data.deep_view()[i as int].0) == b);
                    }
                }
                assert forall|b: Seq<u8>|
                    (exists|m: int| 0 <= m < i + 1 && K::encm((#[trigger] data.deep_view()[m]).0)
                        == b) implies seen.deep_view().contains(b) by {
                    let m = choose|m: int|
                        0 <= m < i + 1 && K::encm((#[trigger] data.deep_view()[m]).0) == b;
                    if m < i {
                        assert(seen0.contains(b));
                    }
                }
                assert forall|m: int|
                    0 <= m < i + 1 && t0.dom().contains(
                        (n, K::encm((#[trigger] data.deep_view()[m]).0)),
                    ) implies exists|j: int|
                    0 <= j < priors.deep_view().len() && K::encm(#[trigger] priors.deep_view()[j].0)
                        == K::encm(data.deep_view()[m].0) by {
                    if m == i && seen0.contains(kme) {
                        let m2 = choose|m2: int|
                            0 <= m2 < i && K::encm((#[trigger] data.deep_view()[m2]).0) == kme;
                        assert(t0.dom().contains((n, K::encm(data.deep_view()[m2].0))));
                        let j = choose|j: int|
                            0 <= j < priors.deep_view().len() && K::encm(
                                #[trigger] priors.deep_view()[j].0,
                            ) == K::encm(data.deep_view()[m2].0);
                        assert(K::encm(priors.deep_view()[j].0) == K::encm(data.deep_view()[m].0));
                    } else if m == i {
                        if priors.deep_view().len() > priors0.len() {
                            assert(K::encm(priors.deep_view()[priors0.len() as int].0) == kme);
                        }
                    } else {
                        let j = choose|j: int|
                            0 <= j < priors0.len() && K::encm(#[trigger] priors0[j].0) == K::encm(
                                data.deep_view()[m].0,
                            );
                        assert(priors.deep_view()[j] == priors0[j]);
                    }
                }
            }
            i = i + 1;
        }
        proof {
            assert(data.deep_view().take(data@.len() as int) =~= data.deep_view());
        }
        proof {
            lemma_apply_puts::<K, V>(t0, n, data.deep_view());
        }
        match self.apply_raw(name, &steps) {
            Ok(()) => Ok(priors),
            Err(e) => Err(e),
        }
    }

    /// Adds only the pairs whose keys are absent, in one transaction, and
    /// returns the skipped keys: those already present when their pair's
    /// turn came — including later duplicates of a key this very batch
    /// added.
    pub fn batch_try_add<K: DbKey, V: DbValue>(
        &mut self,
        table: &TableHandle<K, V>,
        data: &Vec<(K, V)>,
    ) -> (r: Result<Vec<K>, DbError>)
        ensures
            index_unchanged(old(self), final(self)),
            final(self).wf() == old(self).wf(),
            final(self).state().mnames == old(self).state().mnames,
            final(self).state().mtables == old(self).state().mtables,
            ({
                let n = table.spec_name();
                let t0 = old(self).state().tables;
                match r {
                    Ok(rej) => {
                        &&& final(self).state().tables == try_add_pairs::<K, V>(
                            t0,
                            n,
                            data.deep_view(),
                        )
                        &&& final(self).state().tnames.contains(n)
                        &&& forall|j: int|
                            0 <= j < rej.deep_view().len() ==> skipped_key::<K, V>(
                                #[trigger] rej.deep_view()[j],
                                t0,
                                n,
                                data.deep_view(),
                                data.deep_view().len() as int,
                            )
                        &&& forall|i: int|
                            0 <= i < data.deep_view().len() && skipped_at::<K, V>(
                                t0,
                                n,
                                data.deep_view(),
                                i,
                            ) ==> rej.deep_view().contains((#[trigger] data.deep_view()[i]).0)
                    },
                    Err(e) => e != DbError::NotFound && e != DbError::CorruptData && (final(self).state().tables
                        == t0 || (e == DbError::CommitFailed && final(self).state().tables == try_add_pairs::<K, V>(t0, n, data.deep_view()))),
                }
            }),
    {
        proof {
            use_type_invariant(table);
        }
        let name = table.name();
        let pre = self.entries_raw(name)?;
        let ghost n = table.spec_name();
        let ghost t0 = old(self).state().tables;
        proof {
            assert(entries_list_of(pre.deep_view(), t0, n));
            crate::db::lemma_pairs_deep_view(&pre);
        }
        let mut steps: Vec<WriteStep> = Vec::new();
        let mut rejected: Vec<K> = Vec::new();
        let mut seen: Vec<Vec<u8>> = Vec::new();
        let ghost mut cur = t0;
        let mut i: usize = 0;
        proof {
            assert(cur == try_add_pairs::<K, V>(t0, n, data.deep_view().take(0)));
        }
        while i < data.len()
            invariant
                index_unchanged(old(self), self),
                self.wf() == old(self).wf(),
                t0 == old(self).state().tables,
                self.state().tables == t0,
                tnames_grow(old(self).state(), self.state(), n),
                self.state().mnames == old(self).state().mnames,
                self.state().mtables == old(self).state().mtables,
                0 <= i <= data@.len(),
                n == table.spec_name(),
                data.deep_view().len() == data@.len(),
                forall|m: int|
                    0 <= m < data@.len() ==> #[trigger] data.deep_view()[m] == (
                        data@[m].0.deep_view(),
                        data@[m].1.deep_view(),
                    ),
                entries_list_of(pre.deep_view(), t0, n),
                pre.deep_view().len() == pre@.len(),
                forall|m: int|
                    0 <= m < pre@.len() ==> #[trigger] pre.deep_view()[m] == (
                        pre@[m].0@,
                        pre@[m].1@,
                    ),
                cur == try_add_pairs::<K, V>(t0, n, data.deep_view().take(i as int)),
                cur == apply_steps(t0, n, steps.deep_view()),
                forall|b: Seq<u8>|
                    #[trigger] cur.dom().contains((n, b)) <==> t0.dom().contains((n, b))
                        || seen.deep_view().contains(b),
                forall|j: int|
                    0 <= j < rejected.deep_view().len() ==> skipped_key::<K, V>(
                        #[trigger] rejected.deep_view()[j],
                        t0,
                        n,
                        data.deep_view(),
                        i as int,
                    ),
                forall|m: int|
                    0 <= m < i && skipped_at::<K, V>(t0, n, data.deep_view(), m)
                        ==> rejected.deep_view().contains((#[trigger] data.deep_view()[m]).0),
            decreases data@.len() - i,
        {
            let kb = data[i].0.to_bytes();
            let ghost kbv = kb@;
            let ghost cur0 = cur;
            let ghost rej0 = rejected.deep_view();
            let ghost seen0 = seen.deep_view();
            let in_pre = match lookup_bytes(&pre, &kb) {
                Some(pi) => {
                    proof {
                        assert(pre.deep_view()[pi as int].0 == kbv);
                        assert(t0.dom().contains((n, pre.deep_view()[pi as int].0)));
                    }
                    true
                },
                None => {
                    proof {
                        if t0.dom().contains((n, kbv)) {
                            let w = choose|w: int|
                                0 <= w < pre.deep_view().len()
                                    && #[trigger] pre.deep_view()[w].0 == kbv;
                            assert(pre@[w].0@ == kbv);
                        }
                    }
                    false
                },
            };
            let present = in_pre || contains_bytes(&seen, &kb);
            proof {
                assert(present == cur.dom().contains((n, kbv)));
                lemma_try_add_push::<K, V>(t0, n, data.deep_view().take(i as int), data.deep_view()[i as int]);
                assert(data.deep_view().take(i as int).push(data.deep_view()[i as int])
                    =~= data.deep_view().take(i as int + 1));
            }
            if present {
                rejected.push(data[i].0.dup());
                proof {
                    lemma_deep_view_index(&rejected);
                    assert(rejected.deep_view() =~~= rej0.push(data.deep_view()[i as int].0));
                    assert(skipped_at::<K, V>(t0, n, data.deep_view(), i as int));
                    assert forall|j: int|
                        0 <= j < rejected.deep_view().len() implies skipped_key::<K, V>(
                        #[trigger] rejected.deep_view()[j],
                        t0,
                        n,
                        data.deep_view(),
                        i as int + 1,
                    ) by {
                        if j < rej0.len() {
                            assert(rejected.deep_view()[j] == rej0[j]);
                            assert(skipped_key::<K, V>(
                                rej0[j],
                                t0,
                                n,
                                data.deep_view(),
                                i as int,
                            ));
                            let m = choose|m: int|
                                0 <= m < i && rej0[j] == (#[trigger] data.deep_view()[m]).0
                                    && skipped_at::<K, V>(t0, n, data.deep_view(), m);
                            assert(0 <= m < i + 1);
                        } else {
                            assert(rejected.deep_view()[j] == data.deep_view()[i as int].0);
                            assert(skipped_at::<K, V>(t0, n, data.deep_view(), i as int));
                        }
                    }
                    assert forall|m: int|
                        0 <= m < i + 1 && skipped_at::<K, V>(t0, n, data.deep_view(), m)
                            implies rejected.deep_view().contains(
                        (#[trigger] data.deep_view()[m]).0,
                    ) by {
                        if m < i {
                            assert(rej0.contains(data.deep_view()[m].0));
                            let j = choose|j: int|
                                0 <= j < rej0.len() && rej0[j] == data.deep_view()[m].0;
                            assert(rejected.deep_view()[j] == data.deep_view()[m].0);
                        } else {
                            assert(rejected.deep_view()[rej0.len() as int]
                                == data.deep_view()[i as int].0);
                        }
                    }
                }
            } else {
                let vb = data[i].1.to_bytes();
                let ghost vbv = vb@;
                let kb2 = data[i].0.to_bytes();
                let ghost steps0 = steps.deep_view();
                steps.push(WriteStep::Put(kb, vb));
                seen.push(kb2);
                proof {
                    lemma_deep_view_index(&steps);
                    lemma_deep_view_index(&seen);
                    assert(steps.deep_view() =~~= steps0.push(StepM::Put(kbv, vbv)));
                    lemma_apply_steps_push(t0, n, steps0, StepM::Put(kbv, vbv));
                    cur = cur0.insert((n, kbv), vbv);
                    assert(seen.deep_view() =~~= seen0.push(kbv));
                    assert forall|b: Seq<u8>| #[trigger] cur.dom().contains((n, b)) implies (
                    t0.dom().contains((n, b)) || seen.deep_view().contains(b)) by {
                        if b != kbv {
                            assert(cur0.dom().contains((n, b)));
                            if !t0.dom().contains((n, b)) {
                                let j = choose|j: int| 0 <= j < seen0.len() && seen0[j] == b;
                                assert(seen.deep_view()[j] == b);
                            }
                        } else {
                            assert(seen.deep_view()[seen0.len() as int] == kbv);
                        }
                    }
                    assert forall|b: Seq<u8>|
                        t0.dom().contains((n, b)) || seen.deep_view().contains(b) implies
                        #[trigger] cur.dom().contains((n, b)) by {
                        if !t0.dom().contains((n, b)) && b != kbv {
                            let j = choose|j: int|
                                0 <= j < seen.deep_view().len() && seen.deep_view()[j] == b;
                            assert(seen0[j] == b);
                            assert(cur0.dom().contains((n, b)));
                        }
                    }
                    assert(!skipped_at::<K, V>(t0, n, data.deep_view(), i as int));
                    assert forall|m: int|
                        0 <= m < i + 1 && skipped_at::<K, V>(t0, n, data.deep_view(), m)
                            implies rejected.deep_view().contains(
                        (#[trigger] data.deep_view()[m]).0,
                    ) by {
                        if m < i {
                            assert(rej0.contains(data.deep_view()[m].0));
                        }
                    }
                    assert forall|j: int|
                        0 <= j < rejected.deep_view().len() implies skipped_key::<K, V>(
                        #[trigger] rejected.deep_view()[j],
                        t0,
                        n,
                        data.deep_view(),
                        i as int + 1,
                    ) by {
                        assert(skipped_key::<K, V>(
                            rejected.deep_view()[j],
                            t0,
                            n,
                            data.deep_view(),
                            i as int,
                        ));
                        let m = choose|m: int|
                            0 <= m < i && rejected.deep_view()[j] == (
                            #[trigger] data.deep_view()[m]).0 && skipped_at::<K, V>(
                                t0,
                                n,
                                data.deep_view(),
                                m,
                            );
                        assert(0 <= m < i + 1);
                    }
                }
            }
            i = i + 1;
        }
        proof {
            assert(data.deep_view().take(data@.len() as int) =~= data.deep_view());
            assert(cur == try_add_pairs::<K, V>(t0, n, data.deep_view()));
        }
        match self.apply_raw(name, &steps) {
            Ok(()) => Ok(rejected),
            Err(e) => Err(e),
        }
    }

    /// Edits the value of each listed key in order, inside one write
    /// transaction: a present key's value is decoded, passed through `edit`,
    /// and written back; an absent key is skipped. A later listed key sees
    /// the writes of the earlier ones.
    pub fn batch_update<K: DbKey, V: DbValue, F: Fn(K, V) -> V>(
        &mut self,
        table: &TableHandle<K, V>,
        keys: &Vec<K>,
        edit: F,
    ) -> (r: Result<(), DbError>)
        requires
            forall|a: K, v: V| call_requires(edit, (a, v)),
        ensures
            index_unchanged(old(self), final(self)),
            final(self).wf() == old(self).wf(),
            final(self).state().mnames == old(self).state().mnames,
            final(self).state().mtables == old(self).state().mtables,
            ({
                let n = table.spec_name();
                let t0 = old(self).state().tables;
                match r {
                    Ok(()) => final(self).state().tnames.contains(n) && batch_edited::<K, V, F>(
                        edit,
                        t0,
                        n,
                        keys@,
                        final(self).state().tables,
                    ),
                    Err(e) => e != DbError::NotFound && (final(self).state().tables
                        == t0 || (e == DbError::CommitFailed && batch_edited::<K, V, F>(edit, t0, n, keys@, final(self).state().tables))),
                }
            }),
    {
        proof {
            use_type_invariant(table);
        }
        let name = table.name();
        let pre = self.entries_raw(name)?;
        let ghost n = table.spec_name();
        let ghost t0 = old(self).state().tables;
        proof {
            assert(entries_list_of(pre.deep_view(), t0, n));
        }
        let mut steps: Vec<WriteStep> = Vec::new();
        let ghost mut cur = t0;
        let ghost mut nvs: Seq<Option<V>> = Seq::empty();
        let mut i: usize = 0;
        while i < keys.len()
            invariant
                0 <= i <= keys@.len(),
                n == table.spec_name(),
                forall|a: K, v: V| call_requires(edit, (a, v)),
                index_unchanged(old(self), self),
                self.wf() == old(self).wf(),
                t0 == old(self).state().tables,
                self.state().tables == t0,
                tnames_grow(old(self).state(), self.state(), n),
                self.state().mnames == old(self).state().mnames,
                self.state().mtables == old(self).state().mtables,
                entries_list_of(pre.deep_view(), t0, n),
                pre.deep_view().len() == pre@.len(),
                forall|m: int|
                    0 <= m < pre@.len() ==> #[trigger] pre.deep_view()[m] == (
                        pre@[m].0@,
                        pre@[m].1@,
                    ),
                cur == apply_steps(t0, n, steps.deep_view()),
                nvs.len() == i,
                cur == edits_apply::<K, V>(t0, n, keys@.take(i as int), nvs),
                forall|m: int|
                    0 <= m < i ==> choice_ok_at::<K, V, F>(
                        edit,
                        t0,
                        n,
                        keys@,
                        #[trigger] nvs.take(m + 1),
                        m,
                    ),
            decreases keys@.len() - i,
        {
            let kb = keys[i].to_bytes();
            let ghost kbv = kb@;
            let ghost cur0 = cur;
            let curb: Option<Vec<u8>> = current_bytes(&steps, &pre, &kb, Ghost(t0), Ghost(n));
            match curb {
                None => {
                    proof {
                        assert(!cur.dom().contains((n, kbv)));
                        let ghost nvs0 = nvs;
                        nvs = nvs.push(None);
                        lemma_edits_apply_push::<K, V>(
                            t0,
                            n,
                            keys@.take(i as int),
                            nvs0,
                            keys@[i as int],
                            None,
                        );
                        assert(keys@.take(i as int).push(keys@[i as int]) =~= keys@.take(
                            i as int + 1,
                        ));
                        assert(cur == edits_apply::<K, V>(t0, n, keys@.take(i as int + 1), nvs));
                        lemma_update_choices::<K, V, F>(edit, t0, n, keys@, nvs0, i as int);
                        assert(nvs.take(i as int + 1) =~= nvs);
                        assert(nvs.take(i as int + 1).take(i as int) =~= nvs0);
                        assert(choice_ok_at::<K, V, F>(
                            edit,
                            t0,
                            n,
                            keys@,
                            nvs.take(i as int + 1),
                            i as int,
                        ));
                    }
                },
                Some(vb) => {
                    let ghost vbv = vb@;
                    proof {
                        assert(cur.dom().contains((n, kbv)) && cur[(n, kbv)] == vbv);
                    }
                    let v = V::from_bytes(vb.as_slice())?;
                    let a = keys[i].dup();
                    let ghost ga = a;
                    let ghost gv = v;
                    let nv = edit(a, v);
                    let nb = nv.to_bytes();
                    let ghost nbv = nb@;
                    let ghost steps0 = steps.deep_view();
                    steps.push(WriteStep::Put(kb, nb));
                    proof {
                        lemma_deep_view_index(&steps);
                        assert(steps.deep_view() =~~= steps0.push(StepM::Put(kbv, nbv)));
                        lemma_apply_steps_push(t0, n, steps0, StepM::Put(kbv, nbv));
                        cur = cur0.insert((n, kbv), nbv);
                        assert(cur == apply_steps(t0, n, steps.deep_view()));
                        assert(nbv == V::encm(nv.deep_view()));
                        assert(call_ensures(edit, (ga, gv), nv));
                        let ghost nvs0 = nvs;
                        nvs = nvs.push(Some(nv));
                        lemma_edits_apply_push::<K, V>(
                            t0,
                            n,
                            keys@.take(i as int),
                            nvs0,
                            keys@[i as int],
                            Some(nv),
                        );
                        assert(keys@.take(i as int).push(keys@[i as int]) =~= keys@.take(
                            i as int + 1,
                        ));
                        assert(cur == edits_apply::<K, V>(t0, n, keys@.take(i as int + 1), nvs));
                        lemma_update_choices::<K, V, F>(edit, t0, n, keys@, nvs0, i as int);
                        assert(nvs.take(i as int + 1) =~= nvs);
                        assert(nvs.take(i as int + 1).take(i as int) =~= nvs0);
                        assert(ga.deep_view() == keys@[i as int].deep_view());
                        assert(V::decm(cur0[(n, kbv)]) == Some(gv.deep_view()));
                        assert(choice_ok_at::<K, V, F>(
                            edit,
                            t0,
                            n,
                            keys@,
                            nvs.take(i as int + 1),
                            i as int,
                        ));
                    }
                },
            }
            i = i + 1;
        }
        proof {
            assert(keys@.take(keys@.len() as int) =~= keys@);
            assert(cur == edits_apply::<K, V>(t0, n, keys@, nvs));
            assert(batch_edited::<K, V, F>(edit, t0, n, keys@, cur));
        }
        match self.apply_raw(name, &steps) {
            Ok(()) => Ok(()),
            Err(e) => Err(e),
        }
    }

    /// The batch edit variant that reports: the same edits as
    /// `batch_update`, also returning each distinct edited key with the
    /// value it had before the batch, in first-occurrence order.
    pub fn batch_edit<K: DbKey, V: DbValue, F: Fn(K, V) -> V>(
        &mut self,
        table: &TableHandle<K, V>,
        keys: &Vec<K>,
        edit: F,
    ) -> (r: Result<Vec<(K, V)>, DbError>)
        requires
            forall|a: K, v: V| call_requires(edit, (a, v)),
        ensures
            index_unchanged(old(self), final(self)),
            final(self).wf() == old(self).wf(),
            final(self).state().mnames == old(self).state().mnames,
            final(self).state().mtables == old(self).state().mtables,
            ({
                let n = table.spec_name();
                let t0 = old(self).state().tables;
                match r {
                    Ok(priors) => {
                        &&& final(self).state().tnames.contains(n)
                        &&& batch_edited::<K, V, F>(edit, t0, n, keys@, final(self).state().tables)
                        &&& forall|j: int|
                            0 <= j < priors.deep_view().len() ==> t0.dom().contains(
                                (n, K::encm((#[trigger] priors.deep_view()[j]).0)),
                            ) && V::decm(t0[(n, K::encm(priors.deep_view()[j].0))]) == Some(
                                priors.deep_view()[j].1,
                            )
                        &&& forall|j1: int, j2: int|
                            0 <= j1 < j2 < priors.deep_view().len() ==> K::encm(
                                priors.deep_view()[j1].0,
                            ) != K::encm(priors.deep_view()[j2].0)
                        &&& forall|m: int|
                            0 <= m < keys@.len() && t0.dom().contains(
                                (n, K::encm((#[trigger] keys@[m]).deep_view())),
                            ) ==> exists|j: int|
                                0 <= j < priors.deep_view().len() && K::encm(
                                    #[trigger] priors.deep_view()[j].0,
                                ) == K::encm(keys@[m].deep_view())
                    },
                    Err(e) => e != DbError::NotFound && (final(self).state().tables
                        == t0 || (e == DbError::CommitFailed && batch_edited::<K, V, F>(edit, t0, n, keys@, final(self).state().tables))),
                }
            }),
    {
        proof {
            use_type_invariant(table);
        }
        let name = table.name();
        let pre = self.entries_raw(name)?;
        let ghost n = table.spec_name();
        let ghost t0 = old(self).state().tables;
        proof {
            assert(entries_list_of(pre.deep_view(), t0, n));
        }
        let mut steps: Vec<WriteStep> = Vec::new();
        let mut priors: Vec<(K, V)> = Vec::new();
        let mut seen: Vec<Vec<u8>> = Vec::new();
        let ghost mut cur = t0;
        let ghost mut nvs: Seq<Option<V>> = Seq::empty();
        let mut i: usize = 0;
        while i < keys.len()
            invariant
                0 <= i <= keys@.len(),
                n == table.spec_name(),
                forall|a: K, v: V| call_requires(edit, (a, v)),
                index_unchanged(old(self), self),
                self.wf() == old(self).wf(),
                t0 == old(self).state().tables,
                self.state().tables == t0,
                tnames_grow(old(self).state(), self.state(), n),
                self.state().mnames == old(self).state().mnames,
                self.state().mtables == old(self).state().mtables,
                entries_list_of(pre.deep_view(), t0, n),
                pre.deep_view().len() == pre@.len(),
                forall|m: int|
                    0 <= m < pre@.len() ==> #[trigger] pre.deep_view()[m] == (
                        pre@[m].0@,
                        pre@[m].1@,
                    ),
                cur == apply_steps(t0, n, steps.deep_view()),
                cur.dom() == t0.dom(),
                forall|b: Seq<u8>|
                    seen.deep_view().contains(b) ==> exists|m: int|
                        0 <= m < i && K::encm((#[trigger] keys@[m]).deep_view()) == b
                            && t0.dom().contains((n, b)),
                forall|j: int|
                    0 <= j < priors.deep_view().len() ==> t0.dom().contains(
                        (n, K::encm((#[trigger] priors.deep_view()[j]).0)),
                    ) && V::decm(t0[(n, K::encm(priors.deep_view()[j].0))]) == Some(
                        priors.deep_view()[j].1,
                    ) && seen.deep_view().contains(K::encm(priors.deep_view()[j].0)),
                forall|j1: int, j2: int|
                    0 <= j1 < j2 < priors.deep_view().len() ==> K::encm(
                        priors.deep_view()[j1].0,
                    ) != K::encm(priors.deep_view()[j2].0),
                forall|m: int|
                    0 <= m < i && t0.dom().contains(
                        (n, K::encm((#[trigger] keys@[m]).deep_view())),
                    ) ==> exists|j: int|
                        0 <= j < priors.deep_view().len() && K::encm(
                            #[trigger] priors.deep_view()[j].0,
                        ) == K::encm(keys@[m].deep_view()),
                nvs.len() == i,
                cur == edits_apply::<K, V>(t0, n, keys@.take(i as int), nvs),
                forall|m: int|
                    0 <= m < i ==> choice_ok_at::<K, V, F>(
                        edit,
                        t0,
                        n,
                        keys@,
                        #[trigger] nvs.take(m + 1),
                        m,
                    ),
            decreases keys@.len() - i,
        {
            let kb = keys[i].to_bytes();
            let ghost kbv = kb@;
            let ghost cur0 = cur;
            let curb: Option<Vec<u8>> = current_bytes(&steps, &pre, &kb, Ghost(t0), Ghost(n));
            match curb {
                None => {
                    proof {
                        assert(!cur.dom().contains((n, kbv)));
                        assert(!t0.dom().contains((n, kbv)));
                        assert forall|b: Seq<u8>| seen.deep_view().contains(b) implies exists|
                            m: int,
                        |
                            0 <= m < i + 1 && K::encm((#[trigger] keys@[m]).deep_view()) == b
                                && t0.dom().contains((n, b)) by {
                            let m = choose|m: int|
                                0 <= m < i && K::encm((#[trigger] keys@[m]).deep_view()) == b
                                    && t0.dom().contains((n, b));
                            assert(0 <= m < i + 1);
                        }
                        assert forall|m: int|
                            0 <= m < i + 1 && t0.dom().contains(
                                (n, K::encm((#[trigger] keys@[m]).deep_view())),
                            ) implies exists|j: int|
                            0 <= j < priors.deep_view().len() && K::encm(
                                #[trigger] priors.deep_view()[j].0,
                            ) == K::encm(keys@[m].deep_view()) by {
                            assert(m < i);
                        }
                        let ghost nvs0 = nvs;
                        nvs = nvs.push(None);
                        lemma_edits_apply_push::<K, V>(
                            t0,
                            n,
                            keys@.take(i as int),
                            nvs0,
                            keys@[i as int],
                            None,
                        );
                        assert(keys@.take(i as int).push(keys@[i as int]) =~= keys@.take(
                            i as int + 1,
                        ));
                        assert(cur == edits_apply::<K, V>(t0, n, keys@.take(i as int + 1), nvs));
                        lemma_update_choices::<K, V, F>(edit, t0, n, keys@, nvs0, i as int);
                        assert(nvs.take(i as int + 1) =~= nvs);
                        assert(nvs.take(i as int + 1).take(i as int) =~= nvs0);
                        assert(choice_ok_at::<K, V, F>(
                            edit,
                            t0,
                            n,
                            keys@,
                            nvs.take(i as int + 1),
                            i as int,
                        ));
                    }
                },
                Some(vb) => {
                    let ghost vbv = vb@;
                    proof {
                        assert(cur.dom().contains((n, kbv)) && cur[(n, kbv)] == vbv);
                        assert(t0.dom().contains((n, kbv)));
                    }
                    let ghost priors0 = priors.deep_view();
                    let ghost seen0 = seen.deep_view();
                    if !contains_bytes(&seen, &kb) {
                        match lookup_bytes(&pre, &kb) {
                            Some(pi) => {
                                let pv = V::from_bytes(pre[pi].1.as_slice())?;
                                proof {
                                    assert(pre.deep_view()[pi as int] == (
                                        pre@[pi as int].0@,
                                        pre@[pi as int].1@,
                                    ));
                                    assert(pre.deep_view()[pi as int].0 == kbv);
                                    assert(t0.dom().contains(
                                        (n, pre.deep_view()[pi as int].0),
                                    ));
                                    assert(t0[(n, kbv)] == pre.deep_view()[pi as int].1);
                                }
                                priors.push((keys[i].dup(), pv));
                                proof {
                                    lemma_deep_view_index(&priors);
                                    assert(priors.deep_view() =~~= priors0.push(
                                        (
                                            keys@[i as int].deep_view(),
                                            V::decm(t0[(n, kbv)])->Some_0,
                                        ),
                                    ));
                                }
                            },
                            None => {
                                proof {
                                    let w = choose|w: int|
                                        0 <= w < pre.deep_view().len()
                                            && #[trigger] pre.deep_view()[w].0 == kbv;
                                    assert(pre@[w].0@ == kbv);
                                }
                            },
                        }
                        let kb2 = keys[i].to_bytes();
                        seen.push(kb2);
                        proof {
                            lemma_deep_view_index(&seen);
                            assert(seen.deep_view() =~~= seen0.push(kbv));
                            assert forall|b: Seq<u8>| seen.deep_view().contains(b) implies (
                            seen0.contains(b) || b == kbv) by {
                                let w = choose|w: int|
                                    0 <= w < seen.deep_view().len() && seen.deep_view()[w] == b;
                                if w < seen0.len() {
                                    assert(seen0[w] == b);
                                }
                            }
                            assert forall|b: Seq<u8>| seen0.contains(b)
                                implies seen.deep_view().contains(b) by {
                                let w = choose|w: int| 0 <= w < seen0.len() && seen0[w] == b;
                                assert(seen.deep_view()[w] == b);
                            }
                            assert(seen.deep_view()[seen0.len() as int] == kbv);
                        }
                    }
                    let v = V::from_bytes(vb.as_slice())?;
                    let a = keys[i].dup();
                    let ghost ga = a;
                    let ghost gv = v;
                    let nv = edit(a, v);
                    let nb = nv.to_bytes();
                    let ghost nbv = nb@;
                    let ghost steps0 = steps.deep_view();
                    steps.push(WriteStep::Put(kb, nb));
                    proof {
                        lemma_deep_view_index(&steps);
                        assert(steps.deep_view() =~~= steps0.push(StepM::Put(kbv, nbv)));
                        lemma_apply_steps_push(t0, n, steps0, StepM::Put(kbv, nbv));
                        cur = cur0.insert((n, kbv), nbv);
                        assert(cur == apply_steps(t0, n, steps.deep_view()));
                        assert(nbv == V::encm(nv.deep_view()));
                        assert(call_ensures(edit, (ga, gv), nv));
                        let ghost nvs0 = nvs;
                        nvs = nvs.push(Some(nv));
                        lemma_edits_apply_push::<K, V>(
                            t0,
                            n,
                            keys@.take(i as int),
                            nvs0,
                            keys@[i as int],
                            Some(nv),
                        );
                        assert(keys@.take(i as int).push(keys@[i as int]) =~= keys@.take(
                            i as int + 1,
                        ));
                        assert(cur == edits_apply::<K, V>(t0, n, keys@.take(i as int + 1), nvs));
                        lemma_update_choices::<K, V, F>(edit, t0, n, keys@, nvs0, i as int);
                        assert(nvs.take(i as int + 1) =~= nvs);
                        assert(nvs.take(i as int + 1).take(i as int) =~= nvs0);
                        assert(ga.deep_view() == keys@[i as int].deep_view());
                        assert(V::decm(cur0[(n, kbv)]) == Some(gv.deep_view()));
                        assert(choice_ok_at::<K, V, F>(
                            edit,
                            t0,
                            n,
                            keys@,
                            nvs.take(i as int + 1),
                            i as int,
                        ));
                        assert(cur.dom() =~= t0.dom());
                        assert(seen.deep_view().contains(kbv));
                        assert forall|b: Seq<u8>| seen.deep_view().contains(b) implies exists|
                            m: int,
                        |
                            0 <= m < i + 1 && K::encm((#[trigger] keys@[m]).deep_view()) == b
                                && t0.dom().contains((n, b)) by {
                            if b != kbv {
                                assert(seen0.contains(b));
                                let m = choose|m: int|
                                    0 <= m < i && K::encm((#[trigger] keys@[m]).deep_view()) == b
                                        && t0.dom().contains((n, b));
                                assert(0 <= m < i + 1);
                            } else {
                                assert(K::encm(keys@[i as int].deep_view()) == kbv);
                            }
                        }
                        assert forall|m: int|
                            0 <= m < i + 1 && t0.dom().contains(
                                (n, K::encm((#[trigger] keys@[m]).deep_view())),
                            ) implies exists|j: int|
                            0 <= j < priors.deep_view().len() && K::encm(
                                #[trigger] priors.deep_view()[j].0,
                            ) == K::encm(keys@[m].deep_view()) by {
                            if m == i && seen0.contains(kbv) {
                                let m2 = choose|m2: int|
                                    0 <= m2 < i && K::encm((#[trigger] keys@[m2]).deep_view())
                                        == kbv && t0.dom().contains((n, kbv));
                                let j = choose|j: int|
                                    0 <= j < priors.deep_view().len() && K::encm(
                                        #[trigger] priors.deep_view()[j].0,
                                    ) == K::encm(keys@[m2].deep_view());
                                assert(K::encm(priors.deep_view()[j].0) == K::encm(
                                    keys@[m].deep_view(),
                                ));
                            } else if m == i {
                                assert(priors.deep_view().len() > priors0.len());
                                assert(K::encm(priors.deep_view()[priors0.len() as int].0)
                                    == kbv);
                            } else {
                                let j = choose|j: int|
                                    0 <= j < priors0.len() && K::encm(#[trigger] priors0[j].0)
                                        == K::encm(keys@[m].deep_view());
                                assert(priors.deep_view()[j] == priors0[j]);
                            }
                        }
                    }
                },
            }
            i = i + 1;
        }
        proof {
            assert(keys@.take(keys@.len() as int) =~= keys@);
            assert(cur == edits_apply::<K, V>(t0, n, keys@, nvs));
            assert(batch_edited::<K, V, F>(edit, t0, n, keys@, cur));
        }
        match self.apply_raw(name, &steps) {
            Ok(()) => Ok(priors),
            Err(e) => Err(e),
        }
    }

    /// The batch edit variant that reports nothing back: the same edits as
    /// `batch_update`, with no values returned.
    pub fn batch_edit_fast<K: DbKey, V: DbValue, F: Fn(K, V) -> V>(
        &mut self,
        table: &TableHandle<K, V>,
        keys: &Vec<K>,
        edit: F,
    ) -> (r: Result<(), DbError>)
        requires
            forall|a: K, v: V| call_requires(edit, (a, v)),
        ensures
            index_unchanged(old(self), final(self)),
            final(self).wf() == old(self).wf(),
            final(self).state().mnames == old(self).state().mnames,
            final(self).state().mtables == old(self).state().mtables,
            ({
                let n = table.spec_name();
                let t0 = old(self).state().tables;
                match r {
                    Ok(()) => final(self).state().tnames.contains(n) && batch_edited::<K, V, F>(
                        edit,
                        t0,
                        n,
                        keys@,
                        final(self).state().tables,
                    ),
                    Err(e) => e != DbError::NotFound && (final(self).state().tables
                        == t0 || (e == DbError::CommitFailed && batch_edited::<K, V, F>(edit, t0, n, keys@, final(self).state().tables))),
                }
            }),
    {
        self.batch_update(table, keys, edit)
    }

    /// The batch edit variant that counts: the same edits as `batch_update`,
    /// returning how many of them stored bytes different from the ones they
    /// replaced.
    pub fn batch_edit_count<K: DbKey, V: DbValue, F: Fn(K, V) -> V>(
        &mut self,
        table: &TableHandle<K, V>,
        keys: &Vec<K>,
        edit: F,
    ) -> (r: Result<usize, DbError>)
        requires
            forall|a: K, v: V| call_requires(edit, (a, v)),
        ensures
            index_unchanged(old(self), final(self)),
            final(self).wf() == old(self).wf(),
            final(self).state().mnames == old(self).state().mnames,
            final(self).state().mtables == old(self).state().mtables,
            ({
                let n = table.spec_name();
                let t0 = old(self).state().tables;
                match r {
                    Ok(c) => final(self).state().tnames.contains(n) && exists|
                        nvs: Seq<Option<V>>,
                    |
                        {
                            &&& nvs.len() == keys@.len()
                            &&& (forall|i: int|
                                0 <= i < keys@.len() ==> choice_ok_at::<K, V, F>(
                                    edit,
                                    t0,
                                    n,
                                    keys@,
                                    #[trigger] nvs.take(i + 1),
                                    i,
                                ))
                            &&& final(self).state().tables == edits_apply::<K, V>(t0, n, keys@, nvs)
                            &&& c == changed_count::<K, V>(t0, n, keys@, nvs)
                        },
                    Err(e) => e != DbError::NotFound && (final(self).state().tables
                        == t0 || (e == DbError::CommitFailed && batch_edited::<K, V, F>(edit, t0, n, keys@, final(self).state().tables))),
                }
            }),
    {
        proof {
            use_type_invariant(table);
        }
        let name = table.name();
        let pre = self.entries_raw(name)?;
        let ghost n = table.spec_name();
        let ghost t0 = old(self).state().tables;
        proof {
            assert(entries_list_of(pre.deep_view(), t0, n));
        }
        let mut steps: Vec<WriteStep> = Vec::new();
        let mut changed: usize = 0;
        let ghost mut cur = t0;
        let ghost mut nvs: Seq<Option<V>> = Seq::empty();
        let mut i: usize = 0;
        while i < keys.len()
            invariant
                0 <= i <= keys@.len(),
                n == table.spec_name(),
                forall|a: K, v: V| call_requires(edit, (a, v)),
                index_unchanged(old(self), self),
                self.wf() == old(self).wf(),
                t0 == old(self).state().tables,
                self.state().tables == t0,
                tnames_grow(old(self).state(), self.state(), n),
                self.state().mnames == old(self).state().mnames,
                self.state().mtables == old(self).state().mtables,
                entries_list_of(pre.deep_view(), t0, n),
                pre.deep_view().len() == pre@.len(),
                forall|m: int|
                    0 <= m < pre@.len() ==> #[trigger] pre.deep_view()[m] == (
                        pre@[m].0@,
                        pre@[m].1@,
                    ),
                cur == apply_steps(t0, n, steps.deep_view()),
                changed <= i,
                changed == changed_count::<K, V>(t0, n, keys@.take(i as int), nvs),
                nvs.len() == i,
                cur == edits_apply::<K, V>(t0, n, keys@.take(i as int), nvs),
                forall|m: int|
                    0 <= m < i ==> choice_ok_at::<K, V, F>(
                        edit,
                        t0,
                        n,
                        keys@,
                        #[trigger] nvs.take(m + 1),
                        m,
                    ),
            decreases keys@.len() - i,
        {
            let kb = keys[i].to_bytes();
            let ghost kbv = kb@;
            let ghost cur0 = cur;
            let curb: Option<Vec<u8>> = current_bytes(&steps, &pre, &kb, Ghost(t0), Ghost(n));
            match curb {
                None => {
                    proof {
                        assert(!cur.dom().contains((n, kbv)));
                        let ghost nvs0 = nvs;
                        nvs = nvs.push(None);
                        lemma_edits_apply_push::<K, V>(
                            t0,
                            n,
                            keys@.take(i as int),
                            nvs0,
                            keys@[i as int],
                            None,
                        );
                        lemma_changed_push::<K, V>(
                            t0,
                            n,
                            keys@.take(i as int),
                            nvs0,
                            keys@[i as int],
                            None,
                        );
                        assert(keys@.take(i as int).push(keys@[i as int]) =~= keys@.take(
                            i as int + 1,
                        ));
                        assert(cur == edits_apply::<K, V>(t0, n, keys@.take(i as int + 1), nvs));
                        lemma_update_choices::<K, V, F>(edit, t0, n, keys@, nvs0, i as int);
                        assert(nvs.take(i as int + 1) =~= nvs);
                        assert(nvs.take(i as int + 1).take(i as int) =~= nvs0);
                        assert(choice_ok_at::<K, V, F>(
                            edit,
                            t0,
                            n,
                            keys@,
                            nvs.take(i as int + 1),
                            i as int,
                        ));
                    }
                },
                Some(vb) => {
                    let ghost vbv = vb@;
                    proof {
                        assert(cur.dom().contains((n, kbv)) && cur[(n, kbv)] == vbv);
                    }
                    let v = V::from_bytes(vb.as_slice())?;
                    let ob = v.to_bytes();
                    let a = keys[i].dup();
                    let ghost ga = a;
                    let ghost gv = v;
                    let nv = edit(a, v);
                    let nb = nv.to_bytes();
                    let same = nb == ob;
                    if !same {
                        changed = changed + 1;
                    }
                    proof {
                        if same {
                            assert(nb@ =~= ob@);
                            lemma_enc_injective::<V>(gv.deep_view(), nv.deep_view());
                        } else {
                            if gv.deep_view() == nv.deep_view() {
                                assert(nb@ == ob@);
                                assert(false);
                            }
                        }
                    }
                    let ghost nbv = nb@;
                    let ghost steps0 = steps.deep_view();
                    steps.push(WriteStep::Put(kb, nb));
                    proof {
                        lemma_deep_view_index(&steps);
                        assert(steps.deep_view() =~~= steps0.push(StepM::Put(kbv, nbv)));
                        lemma_apply_steps_push(t0, n, steps0, StepM::Put(kbv, nbv));
                        cur = cur0.insert((n, kbv), nbv);
                        assert(cur == apply_steps(t0, n, steps.deep_view()));
                        assert(nbv == V::encm(nv.deep_view()));
                        assert(call_ensures(edit, (ga, gv), nv));
                        let ghost nvs0 = nvs;
                        nvs = nvs.push(Some(nv));
                        lemma_edits_apply_push::<K, V>(
                            t0,
                            n,
                            keys@.take(i as int),
                            nvs0,
                            keys@[i as int],
                            Some(nv),
                        );
                        lemma_changed_push::<K, V>(
                            t0,
                            n,
                            keys@.take(i as int),
                            nvs0,
                            keys@[i as int],
                            Some(nv),
                        );
                        assert(keys@.take(i as int).push(keys@[i as int]) =~= keys@.take(
                            i as int + 1,
                        ));
                        assert(cur == edits_apply::<K, V>(t0, n, keys@.take(i as int + 1), nvs));
                        lemma_update_choices::<K, V, F>(edit, t0, n, keys@, nvs0, i as int);
                        assert(nvs.take(i as int + 1) =~= nvs);
                        assert(nvs.take(i as int + 1).take(i as int) =~= nvs0);
                        assert(ga.deep_view() == keys@[i as int].deep_view());
                        assert(V::decm(cur0[(n, kbv)]) == Some(gv.deep_view()));
                        assert(choice_ok_at::<K, V, F>(
                            edit,
                            t0,
                            n,
                            keys@,
                            nvs.take(i as int + 1),
                            i as int,
                        ));
                    }
                },
            }
            i = i + 1;
        }
        proof {
            assert(keys@.take(keys@.len() as int) =~= keys@);
            assert(cur == edits_apply::<K, V>(t0, n, keys@, nvs));
            assert(batch_edited::<K, V, F>(edit, t0, n, keys@, cur));
        }
        match self.apply_raw(name, &steps) {
            Ok(()) => Ok(changed),
            Err(e) => Err(e),
        }
    }

    /// Removes every entry of the table in one transaction, leaving the
    /// (possibly just created) table empty.
    pub fn clear_table<K: DbKey, V: DbValue>(&mut self, table: &TableHandle<K, V>) -> (r: Result<
        (),
        DbError,
    >)
        ensures
            index_unchanged(old(self), final(self)),
            final(self).wf() == old(self).wf(),
            final(self).state().mnames == old(self).state().mnames,
            final(self).state().mtables == old(self).state().mtables,
            ({
                let n = table.spec_name();
                match r {
                    Ok(()) => final(self).state().tnames == old(self).state().tnames.insert(n)
                        && final(self).state().tables == drop_table(old(self).state().tables, n),
                    Err(e) => e != DbError::NotFound && e != DbError::CorruptData && ((final(self).state().tables == old(self).state().tables && final(self).state().tnames
                        == old(self).state().tnames) || (e == DbError::CommitFailed && final(self).state().tables == drop_table(old(self).state().tables, n) && final(self).state().tnames == old(self).state().tnames.insert(n))),
                }
            }),
    {
        proof {
            use_type_invariant(table);
        }
        self.clear_raw(table.name())
    }

    /// Drops the table entirely. Returns whether it existed.
    pub fn delete_table<K: DbKey, V: DbValue>(&mut self, table: &TableHandle<K, V>) -> (r: Result<
        bool,
        DbError,
    >)
        ensures
            index_unchanged(old(self), final(self)),
            final(self).wf() == old(self).wf(),
            final(self).state().mnames == old(self).state().mnames,
            final(self).state().mtables == old(self).state().mtables,
            ({
                let n = table.spec_name();
                match r {
                    Ok(b) => b == old(self).state().tnames.contains(n) && final(self).state().tnames == old(self).state().tnames.remove(n) && final(self).state().tables == drop_table(old(self).state().tables, n),
                    Err(e) => e != DbError::NotFound && e != DbError::CorruptData && ((final(self).state().tables == old(self).state().tables && final(self).state().tnames
                        == old(self).state().tnames) || (e == DbError::CommitFailed && final(self).state().tables == drop_table(old(self).state().tables, n) && final(self).state().tnames == old(self).state().tnames.remove(n))),
                }
            }),
    {
        proof {
            use_type_invariant(table);
        }
        self.delete_raw(table.name())
    }
}

} // verus!
