//! Ordering helpers: sorting decoded values and key-value pairs by the key
//! type's own order.

use vstd::prelude::*;

use crate::codec::{DbKey, DbValue};

verus! {

/// The models are in ascending order.
pub open spec fn sorted_by_le<T: DbKey>(s: Seq<T::V>) -> bool {
    forall|i: int, j: int| 0 <= i < j < s.len() ==> T::le(s[i], s[j])
}

/// No model occurs twice.
pub open spec fn distinct_seq<A>(s: Seq<A>) -> bool {
    forall|i: int, j: int| 0 <= i < j < s.len() ==> s[i] != s[j]
}

/// Each element's deep view sits at its index of the vector's deep view.
pub proof fn lemma_deep_view_index<T: DeepView>(v: &Vec<T>)
    ensures
        v.deep_view().len() == v@.len(),
        forall|i: int| 0 <= i < v@.len() ==> #[trigger] v.deep_view()[i] == v@[i].deep_view(),
{
}

/// Sorts distinct values ascending in the key type's order.
pub fn sort_values<T: DbKey>(items: Vec<T>) -> (r: Vec<T>)
    requires
        distinct_seq(items.deep_view()),
    ensures
        r.deep_view().len() == items.deep_view().len(),
        sorted_by_le::<T>(r.deep_view()),
        distinct_seq(r.deep_view()),
        forall|x: T::V| r.deep_view().contains(x) <==> items.deep_view().contains(x),
{
    let mut src = items;
    let mut out: Vec<T> = Vec::new();
    proof {
        lemma_deep_view_index(&src);
        lemma_deep_view_index(&out);
    }
    while src.len() > 0
        invariant
            sorted_by_le::<T>(out.deep_view()),
            distinct_seq(out.deep_view()),
            distinct_seq(src.deep_view()),
            forall|x: T::V|
                items.deep_view().contains(x) <==> (out.deep_view().contains(x)
                    || src.deep_view().contains(x)),
            forall|x: T::V| !(out.deep_view().contains(x) && src.deep_view().contains(x)),
            out.deep_view().len() + src.deep_view().len() == items.deep_view().len(),
        decreases src.len(),
    {
        proof {
            lemma_deep_view_index(&src);
        }
        let ghost src0 = src.deep_view();
        let x = src.remove(0);
        proof {
            lemma_deep_view_index(&src);
            assert(src.deep_view() =~= src0.drop_first());
            assert(x.deep_view() == src0[0]);
            assert forall|y: T::V| src0.contains(y) implies (y == x.deep_view()
                || src.deep_view().contains(y)) by {
                let i = choose|i: int| 0 <= i < src0.len() && src0[i] == y;
                if i > 0 {
                    assert(src.deep_view()[i - 1] == y);
                }
            }
            assert forall|y: T::V| src.deep_view().contains(y) implies src0.contains(y) by {
                let i = choose|i: int| 0 <= i < src.deep_view().len() && src.deep_view()[i] == y;
                assert(src0[i + 1] == y);
            }
            assert(src0.contains(src0[0]));
        }
        let ghost xj = x.deep_view();
        let mut j: usize = 0;
        let mut stop = false;
        while !stop
            invariant
                0 <= j <= out@.len(),
                out.deep_view().len() == out@.len(),
                forall|i: int|
                    0 <= i < out@.len() ==> #[trigger] out.deep_view()[i] == out@[i].deep_view(),
                forall|m: int| 0 <= m < j ==> T::le(#[trigger] out.deep_view()[m], xj),
                xj == x.deep_view(),
                stop ==> j == out@.len() || !T::le(out.deep_view()[j as int], xj),
            decreases out@.len() - j + (if stop {
                0int
            } else {
                1int
            }),
        {
            if j == out.len() {
                stop = true;
            } else if !out[j].le_exec(&x) {
                stop = true;
            } else {
                j = j + 1;
            }
        }
        let ghost outpre = out.deep_view();
        proof {
            if (j as int) < outpre.len() {
                T::lemma_order(xj, outpre[j as int], xj);
                assert(T::le(xj, outpre[j as int]));
            }
            assert forall|b: int| j <= b < outpre.len() implies T::le(xj, #[trigger] outpre[b]) by {
                if b > j {
                    assert(T::le(outpre[j as int], outpre[b]));
                }
                T::lemma_order(xj, outpre[j as int], outpre[b]);
            }
        }
        out.insert(j, x);
        proof {
            lemma_deep_view_index(&out);
            let dv = out.deep_view();
            assert(dv =~= outpre.insert(j as int, xj));
            assert forall|a: int, b: int| 0 <= a < b < dv.len() implies T::le(dv[a], dv[b]) by {
                if b < j {
                    assert(dv[a] == outpre[a] && dv[b] == outpre[b]);
                } else if a < j && b == j {
                    assert(dv[a] == outpre[a] && dv[b] == xj);
                } else if a < j && b > j {
                    assert(dv[a] == outpre[a] && dv[b] == outpre[b - 1]);
                    assert(T::le(xj, outpre[b - 1]));
                    T::lemma_order(outpre[a], xj, outpre[b - 1]);
                } else if a == j {
                    assert(dv[b] == outpre[b - 1]);
                    assert(T::le(xj, outpre[b - 1]));
                } else {
                    assert(dv[a] == outpre[a - 1] && dv[b] == outpre[b - 1]);
                }
            }
            assert forall|y: T::V| dv.contains(y) implies (outpre.contains(y) || y == xj) by {
                let i = choose|i: int| 0 <= i < dv.len() && dv[i] == y;
                if i < j {
                    assert(outpre[i] == y);
                } else if i > j {
                    assert(outpre[i - 1] == y);
                }
            }
            assert forall|y: T::V| outpre.contains(y) implies dv.contains(y) by {
                let i = choose|i: int| 0 <= i < outpre.len() && outpre[i] == y;
                if i < j {
                    assert(dv[i] == y);
                } else {
                    assert(dv[i + 1] == y);
                }
            }
            assert(dv[j as int] == xj);
            assert(dv.contains(xj));
            assert forall|a: int, b: int| 0 <= a < b < dv.len() implies dv[a] != dv[b] by {
                if b < j {
                    assert(dv[a] == outpre[a] && dv[b] == outpre[b]);
                } else if a < j && b == j {
                    assert(dv[a] == outpre[a]);
                    assert(outpre.contains(outpre[a]));
                } else if a < j && b > j {
                    assert(dv[a] == outpre[a] && dv[b] == outpre[b - 1]);
                } else if a == j {
                    assert(dv[b] == outpre[b - 1]);
                    assert(outpre.contains(outpre[b - 1]));
                } else {
                    assert(dv[a] == outpre[a - 1] && dv[b] == outpre[b - 1]);
                }
            }
        }
    }
    proof {
        assert(src.deep_view().len() == 0);
        assert forall|x: T::V| !src.deep_view().contains(x) by {}
    }
    out
}

/// Drops later duplicates, keeping one element per model.
pub fn dedup_values<T: DbKey>(items: Vec<T>) -> (r: Vec<T>)
    requires
        forall|i: int| 0 <= i < items.deep_view().len() ==> T::wfm(#[trigger] items.deep_view()[i]),
    ensures
        distinct_seq(r.deep_view()),
        forall|x: T::V| r.deep_view().contains(x) <==> items.deep_view().contains(x),
{
    let mut out: Vec<T> = Vec::new();
    let mut i: usize = 0;
    proof {
        lemma_deep_view_index(&items);
        lemma_deep_view_index(&out);
    }
    while i < items.len()
        invariant
            0 <= i <= items@.len(),
            items.deep_view().len() == items@.len(),
            forall|m: int|
                0 <= m < items@.len() ==> #[trigger] items.deep_view()[m]
                    == items@[m].deep_view(),
            distinct_seq(out.deep_view()),
            forall|x: T::V|
                out.deep_view().contains(x) <==> items.deep_view().take(i as int).contains(x),
            forall|m: int|
                0 <= m < items.deep_view().len() ==> T::wfm(#[trigger] items.deep_view()[m]),
            forall|m: int|
                0 <= m < out.deep_view().len() ==> T::wfm(#[trigger] out.deep_view()[m]),
        decreases items@.len() - i,
    {
        let ghost out0 = out.deep_view();
        let ghost xi = items.deep_view()[i as int];
        let mut j: usize = 0;
        let mut dup = false;
        while j < out.len() && !dup
            invariant
                0 <= j <= out@.len(),
                out.deep_view().len() == out@.len(),
                forall|m: int|
                    0 <= m < out@.len() ==> #[trigger] out.deep_view()[m] == out@[m].deep_view(),
                0 <= i < items@.len(),
                items.deep_view().len() == items@.len(),
                forall|m: int|
                    0 <= m < items@.len() ==> #[trigger] items.deep_view()[m]
                        == items@[m].deep_view(),
                xi == items.deep_view()[i as int],
                T::wfm(xi),
                forall|m: int|
                    0 <= m < out.deep_view().len() ==> T::wfm(#[trigger] out.deep_view()[m]),
                out0 == out.deep_view(),
                dup ==> out.deep_view().contains(xi),
                !dup ==> forall|m: int| 0 <= m < j ==> #[trigger] out.deep_view()[m] != xi,
            decreases out@.len() - j + (if dup {
                0int
            } else {
                1int
            }),
        {
            let both = out[j].le_exec(&items[i]) && items[i].le_exec(&out[j]);
            proof {
                T::lemma_order(out.deep_view()[j as int], xi, xi);
            }
            if both {
                dup = true;
            } else {
                j = j + 1;
            }
        }
        if !dup {
            out.push(items[i].dup());
            proof {
                lemma_deep_view_index(&out);
                assert(out.deep_view() =~= out0.push(xi));
                assert forall|y: T::V| out.deep_view().contains(y) implies (out0.contains(y) || y
                    == xi) by {
                    let m = choose|m: int|
                        0 <= m < out.deep_view().len() && out.deep_view()[m] == y;
                    if m < out0.len() {
                        assert(out0[m] == y);
                    }
                }
                assert forall|a: int, b: int|
                    0 <= a < b < out.deep_view().len() implies out.deep_view()[a]
                    != out.deep_view()[b] by {
                    if b == out0.len() {
                        assert(out.deep_view()[a] == out0[a]);
                        assert(out0.contains(out0[a]));
                    }
                }
                assert(out.deep_view()[out0.len() as int] == xi);
                assert forall|y: T::V| out0.contains(y) implies out.deep_view().contains(y) by {
                    let m = choose|m: int| 0 <= m < out0.len() && out0[m] == y;
                    assert(out.deep_view()[m] == y);
                }
            }
        }
        i = i + 1;
        proof {
            let t0 = items.deep_view().take(i as int - 1);
            let t1 = items.deep_view().take(i as int);
            assert(t1 =~= t0.push(xi));
            assert forall|y: T::V| t1.contains(y) implies (t0.contains(y) || y == xi) by {
                let m = choose|m: int| 0 <= m < t1.len() && t1[m] == y;
                if m < t0.len() {
                    assert(t0[m] == y);
                }
            }
            assert forall|y: T::V| t0.contains(y) implies t1.contains(y) by {
                let m = choose|m: int| 0 <= m < t0.len() && t0[m] == y;
                assert(t1[m] == y);
            }
            assert(t1[i as int - 1] == xi);
            assert(t1.contains(xi));
            assert(out.deep_view().contains(xi));
            assert forall|y: T::V| out.deep_view().contains(y) implies t1.contains(y) by {
                if y != xi {
                    assert(out0.contains(y));
                    assert(t0.contains(y));
                }
            }
            assert forall|y: T::V| t1.contains(y) implies out.deep_view().contains(y) by {
                if y != xi {
                    assert(t0.contains(y));
                    assert(out0.contains(y));
                }
            }
        }
    }
    proof {
        assert(items.deep_view().take(items@.len() as int) =~= items.deep_view());
    }
    out
}

/// The pairs' key models are in ascending order.
pub open spec fn sorted_pairs<K: DbKey, V: DbValue>(s: Seq<(K::V, V::V)>) -> bool {
    forall|i: int, j: int| 0 <= i < j < s.len() ==> K::le(s[i].0, s[j].0)
}

/// No key model occurs twice among the pairs.
pub open spec fn distinct_keys<K: DbKey, V: DbValue>(s: Seq<(K::V, V::V)>) -> bool {
    forall|i: int, j: int| 0 <= i < j < s.len() ==> s[i].0 != s[j].0
}

/// Sorts pairs with distinct key models ascending in the key type's order.
pub fn sort_pairs<K: DbKey, V: DbValue>(items: Vec<(K, V)>) -> (r: Vec<(K, V)>)
    requires
        distinct_keys::<K, V>(items.deep_view()),
    ensures
        r.deep_view().len() == items.deep_view().len(),
        sorted_pairs::<K, V>(r.deep_view()),
        distinct_keys::<K, V>(r.deep_view()),
        forall|x: (K::V, V::V)| r.deep_view().contains(x) <==> items.deep_view().contains(x),
{
    let mut src = items;
    let mut out: Vec<(K, V)> = Vec::new();
    proof {
        lemma_deep_view_index(&src);
        lemma_deep_view_index(&out);
    }
    while src.len() > 0
        invariant
            sorted_pairs::<K, V>(out.deep_view()),
            distinct_keys::<K, V>(out.deep_view()),
            distinct_keys::<K, V>(src.deep_view()),
            forall|x: (K::V, V::V)|
                items.deep_view().contains(x) <==> (out.deep_view().contains(x)
                    || src.deep_view().contains(x)),
            forall|x: (K::V, V::V)|
                out.deep_view().contains(x) && src.deep_view().contains(x) ==> false,
            forall|x: (K::V, V::V), y: (K::V, V::V)|
                out.deep_view().contains(x) && src.deep_view().contains(y) ==> x.0 != y.0,
            out.deep_view().len() + src.deep_view().len() == items.deep_view().len(),
        decreases src.len(),
    {
        proof {
            lemma_deep_view_index(&src);
        }
        let ghost src0 = src.deep_view();
        let x = src.remove(0);
        proof {
            lemma_deep_view_index(&src);
            assert(src.deep_view() =~= src0.drop_first());
            assert(x.deep_view() == src0[0]);
            assert forall|y: (K::V, V::V)| src0.contains(y) implies (y == x.deep_view()
                || src.deep_view().contains(y)) by {
                let i = choose|i: int| 0 <= i < src0.len() && src0[i] == y;
                if i > 0 {
                    assert(src.deep_view()[i - 1] == y);
                }
            }
            assert forall|y: (K::V, V::V)| src.deep_view().contains(y) implies src0.contains(
                y,
            ) by {
                let i = choose|i: int| 0 <= i < src.deep_view().len() && src.deep_view()[i] == y;
                assert(src0[i + 1] == y);
            }
            assert forall|y: (K::V, V::V)| src.deep_view().contains(y) implies y.0
                != x.deep_view().0 by {
                let i = choose|i: int| 0 <= i < src.deep_view().len() && src.deep_view()[i] == y;
                assert(src0[i + 1] == y);
                assert(src0[0].0 != src0[i + 1].0);
            }
            assert(src0.contains(src0[0]));
        }
        let ghost xj = x.deep_view();
        let mut j: usize = 0;
        let mut stop = false;
        while !stop
            invariant
                0 <= j <= out@.len(),
                out.deep_view().len() == out@.len(),
                forall|i: int|
                    0 <= i < out@.len() ==> #[trigger] out.deep_view()[i] == out@[i].deep_view(),
                forall|m: int| 0 <= m < j ==> K::le((#[trigger] out.deep_view()[m]).0, xj.0),
                xj == x.deep_view(),
                stop ==> j == out@.len() || !K::le(out.deep_view()[j as int].0, xj.0),
            decreases out@.len() - j + (if stop {
                0int
            } else {
                1int
            }),
        {
            if j == out.len() {
                stop = true;
            } else if !out[j].0.le_exec(&x.0) {
                stop = true;
            } else {
                j = j + 1;
            }
        }
        let ghost outpre = out.deep_view();
        proof {
            if (j as int) < outpre.len() {
                K::lemma_order(xj.0, outpre[j as int].0, xj.0);
                assert(K::le(xj.0, outpre[j as int].0));
            }
            assert forall|b: int| j <= b < outpre.len() implies K::le(
                xj.0,
                (#[trigger] outpre[b]).0,
            ) by {
                if b > j {
                    assert(K::le(outpre[j as int].0, outpre[b].0));
                }
                K::lemma_order(xj.0, outpre[j as int].0, outpre[b].0);
            }
        }
        out.insert(j, x);
        proof {
            lemma_deep_view_index(&out);
            let dv = out.deep_view();
            assert(dv =~= outpre.insert(j as int, xj));
            assert forall|a: int, b: int| 0 <= a < b < dv.len() implies K::le(
                dv[a].0,
                dv[b].0,
            ) by {
                if b < j {
                    assert(dv[a] == outpre[a] && dv[b] == outpre[b]);
                } else if a < j && b == j {
                    assert(dv[a] == outpre[a] && dv[b] == xj);
                } else if a < j && b > j {
                    assert(dv[a] == outpre[a] && dv[b] == outpre[b - 1]);
                    assert(K::le(xj.0, outpre[b - 1].0));
                    K::lemma_order(outpre[a].0, xj.0, outpre[b - 1].0);
                } else if a == j {
                    assert(dv[b] == outpre[b - 1]);
                    assert(K::le(xj.0, outpre[b - 1].0));
                } else {
                    assert(dv[a] == outpre[a - 1] && dv[b] == outpre[b - 1]);
                }
            }
            assert forall|y: (K::V, V::V)| dv.contains(y) implies (outpre.contains(y) || y
                == xj) by {
                let i = choose|i: int| 0 <= i < dv.len() && dv[i] == y;
                if i < j {
                    assert(outpre[i] == y);
                } else if i > j {
                    assert(outpre[i - 1] == y);
                }
            }
            assert forall|y: (K::V, V::V)| outpre.contains(y) implies dv.contains(y) by {
                let i = choose|i: int| 0 <= i < outpre.len() && outpre[i] == y;
                if i < j {
                    assert(dv[i] == y);
                } else {
                    assert(dv[i + 1] == y);
                }
            }
            assert(dv[j as int] == xj);
            assert(dv.contains(xj));
            assert forall|a: int, b: int| 0 <= a < b < dv.len() implies dv[a].0 != dv[b].0 by {
                if b < j {
                    assert(dv[a] == outpre[a] && dv[b] == outpre[b]);
                } else if a < j && b == j {
                    assert(dv[a] == outpre[a]);
                    assert(outpre.contains(outpre[a]));
                } else if a < j && b > j {
                    assert(dv[a] == outpre[a] && dv[b] == outpre[b - 1]);
                } else if a == j {
                    assert(dv[b] == outpre[b - 1]);
                    assert(outpre.contains(outpre[b - 1]));
                } else {
                    assert(dv[a] == outpre[a - 1] && dv[b] == outpre[b - 1]);
                }
            }
            assert forall|p: (K::V, V::V), q: (K::V, V::V)|
                dv.contains(p) && src.deep_view().contains(q) implies p.0 != q.0 by {
                assert(src0.contains(q));
                if p != xj {
                    assert(outpre.contains(p));
                }
            }
        }
    }
    proof {
        assert(src.deep_view().len() == 0);
    }
    out
}


/// The pairs' first components are in ascending order.
pub open spec fn sorted_fst<K: DbKey, T>(s: Seq<(K::V, T)>) -> bool {
    forall|i: int, j: int| 0 <= i < j < s.len() ==> K::le(s[i].0, s[j].0)
}

/// No first component occurs twice among the pairs.
pub open spec fn distinct_fst<K: DbKey, T>(s: Seq<(K::V, T)>) -> bool {
    forall|i: int, j: int| 0 <= i < j < s.len() ==> s[i].0 != s[j].0
}

/// Sorts pairs with distinct first-component key models ascending in the
/// key type's order; the second component rides along untouched.
pub fn sort_groups<K: DbKey, G: DeepView>(items: Vec<(K, G)>) -> (r: Vec<(K, G)>)
    requires
        distinct_fst::<K, G::V>(items.deep_view()),
    ensures
        r.deep_view().len() == items.deep_view().len(),
        sorted_fst::<K, G::V>(r.deep_view()),
        distinct_fst::<K, G::V>(r.deep_view()),
        forall|x: (K::V, G::V)| r.deep_view().contains(x) <==> items.deep_view().contains(x),
{
    let mut src = items;
    let mut out: Vec<(K, G)> = Vec::new();
    proof {
        lemma_deep_view_index(&src);
        lemma_deep_view_index(&out);
    }
    while src.len() > 0
        invariant
            sorted_fst::<K, G::V>(out.deep_view()),
            distinct_fst::<K, G::V>(out.deep_view()),
            distinct_fst::<K, G::V>(src.deep_view()),
            forall|x: (K::V, G::V)|
                items.deep_view().contains(x) <==> (out.deep_view().contains(x)
                    || src.deep_view().contains(x)),
            forall|x: (K::V, G::V)|
                out.deep_view().contains(x) && src.deep_view().contains(x) ==> false,
            forall|x: (K::V, G::V), y: (K::V, G::V)|
                out.deep_view().contains(x) && src.deep_view().contains(y) ==> x.0 != y.0,
            out.deep_view().len() + src.deep_view().len() == items.deep_view().len(),
        decreases src.len(),
    {
        proof {
            lemma_deep_view_index(&src);
        }
        let ghost src0 = src.deep_view();
        let x = src.remove(0);
        proof {
            lemma_deep_view_index(&src);
            assert(src.deep_view() =~= src0.drop_first());
            assert(x.deep_view() == src0[0]);
            assert forall|y: (K::V, G::V)| src0.contains(y) implies (y == x.deep_view()
                || src.deep_view().contains(y)) by {
                let i = choose|i: int| 0 <= i < src0.len() && src0[i] == y;
                if i > 0 {
                    assert(src.deep_view()[i - 1] == y);
                }
            }
            assert forall|y: (K::V, G::V)| src.deep_view().contains(y) implies src0.contains(
                y,
            ) by {
                let i = choose|i: int| 0 <= i < src.deep_view().len() && src.deep_view()[i] == y;
                assert(src0[i + 1] == y);
            }
            assert forall|y: (K::V, G::V)| src.deep_view().contains(y) implies y.0
                != x.deep_view().0 by {
                let i = choose|i: int| 0 <= i < src.deep_view().len() && src.deep_view()[i] == y;
                assert(src0[i + 1] == y);
                assert(src0[0].0 != src0[i + 1].0);
            }
            assert(src0.contains(src0[0]));
        }
        let ghost xj = x.deep_view();
        let mut j: usize = 0;
        let mut stop = false;
        while !stop
            invariant
                0 <= j <= out@.len(),
                out.deep_view().len() == out@.len(),
                forall|i: int|
                    0 <= i < out@.len() ==> #[trigger] out.deep_view()[i] == out@[i].deep_view(),
                forall|m: int| 0 <= m < j ==> K::le((#[trigger] out.deep_view()[m]).0, xj.0),
                xj == x.deep_view(),
                stop ==> j == out@.len() || !K::le(out.deep_view()[j as int].0, xj.0),
            decreases out@.len() - j + (if stop {
                0int
            } else {
                1int
            }),
        {
            if j == out.len() {
                stop = true;
            } else if !out[j].0.le_exec(&x.0) {
                stop = true;
            } else {
                j = j + 1;
            }
        }
        let ghost outpre = out.deep_view();
        proof {
            if (j as int) < outpre.len() {
                K::lemma_order(xj.0, outpre[j as int].0, xj.0);
                assert(K::le(xj.0, outpre[j as int].0));
            }
            assert forall|b: int| j <= b < outpre.len() implies K::le(
                xj.0,
                (#[trigger] outpre[b]).0,
            ) by {
                if b > j {
                    assert(K::le(outpre[j as int].0, outpre[b].0));
                }
                K::lemma_order(xj.0, outpre[j as int].0, outpre[b].0);
            }
        }
        out.insert(j, x);
        proof {
            lemma_deep_view_index(&out);
            let dv = out.deep_view();
            assert(dv =~= outpre.insert(j as int, xj));
            assert forall|a: int, b: int| 0 <= a < b < dv.len() implies K::le(
                dv[a].0,
                dv[b].0,
            ) by {
                if b < j {
                    assert(dv[a] == outpre[a] && dv[b] == outpre[b]);
                } else if a < j && b == j {
                    assert(dv[a] == outpre[a] && dv[b] == xj);
                } else if a < j && b > j {
                    assert(dv[a] == outpre[a] && dv[b] == outpre[b - 1]);
                    assert(K::le(xj.0, outpre[b - 1].0));
                    K::lemma_order(outpre[a].0, xj.0, outpre[b - 1].0);
                } else if a == j {
                    assert(dv[b] == outpre[b - 1]);
                    assert(K::le(xj.0, outpre[b - 1].0));
                } else {
                    assert(dv[a] == outpre[a - 1] && dv[b] == outpre[b - 1]);
                }
            }
            assert forall|y: (K::V, G::V)| dv.contains(y) implies (outpre.contains(y) || y
                == xj) by {
                let i = choose|i: int| 0 <= i < dv.len() && dv[i] == y;
                if i < j {
                    assert(outpre[i] == y);
                } else if i > j {
                    assert(outpre[i - 1] == y);
                }
            }
            assert forall|y: (K::V, G::V)| outpre.contains(y) implies dv.contains(y) by {
                let i = choose|i: int| 0 <= i < outpre.len() && outpre[i] == y;
                if i < j {
                    assert(dv[i] == y);
                } else {
                    assert(dv[i + 1] == y);
                }
            }
            assert(dv[j as int] == xj);
            assert(dv.contains(xj));
            assert forall|a: int, b: int| 0 <= a < b < dv.len() implies dv[a].0 != dv[b].0 by {
                if b < j {
                    assert(dv[a] == outpre[a] && dv[b] == outpre[b]);
                } else if a < j && b == j {
                    assert(dv[a] == outpre[a]);
                    assert(outpre.contains(outpre[a]));
                } else if a < j && b > j {
                    assert(dv[a] == outpre[a] && dv[b] == outpre[b - 1]);
                } else if a == j {
                    assert(dv[b] == outpre[b - 1]);
                    assert(outpre.contains(outpre[b - 1]));
                } else {
                    assert(dv[a] == outpre[a - 1] && dv[b] == outpre[b - 1]);
                }
            }
            assert forall|p: (K::V, G::V), q: (K::V, G::V)|
                dv.contains(p) && src.deep_view().contains(q) implies p.0 != q.0 by {
                assert(src0.contains(q));
                if p != xj {
                    assert(outpre.contains(p));
                }
            }
        }
    }
    proof {
        assert(src.deep_view().len() == 0);
    }
    out
}



} // verus!
