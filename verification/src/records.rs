//! Two ready-made record types that tables can store: a small two-field
//! record and a larger one with nested collections. Their codecs compose the
//! primitive codecs field by field.

use vstd::prelude::*;
use vstd::bytes::{spec_u64_to_le_bytes, u32_to_le_bytes, u64_to_le_bytes};

use crate::codec::{
    bytes_le, bytes_le_exec, dec_str_at, dec_u32_at, dec_u64_at, enc_str, lemma_bytes_le_antisym,
    lemma_bytes_le_refl, lemma_bytes_le_total, lemma_bytes_le_trans, lemma_dec_str_at,
    lemma_dec_u32_at, lemma_dec_u64_at, lemma_enc_injective, parse_str_at, parse_u32_at,
    parse_u64_at, str_le, str_le_exec, wf_str, DbKey, DbValue,
};
use crate::error::DbError;
use crate::sort::lemma_deep_view_index;

verus! {

// ---------------------------------------------------------------------------
// A list of texts: a count, then each text's encoding.
// ---------------------------------------------------------------------------

/// Text-list models whose count and texts fit the length fields.
pub open spec fn wf_strs(ts: Seq<Seq<char>>) -> bool {
    ts.len() < 0x1_0000_0000_0000_0000 && (forall|i: int|
        0 <= i < ts.len() ==> wf_str(#[trigger] ts[i]))
}

/// The texts' encodings, one after the other.
pub open spec fn enc_strs_items(ts: Seq<Seq<char>>) -> Seq<u8>
    decreases ts.len(),
{
    if ts.len() == 0 {
        Seq::empty()
    } else {
        enc_str(ts[0]) + enc_strs_items(ts.drop_first())
    }
}

/// The encoding of a text list: the count, then the texts.
pub open spec fn enc_strs(ts: Seq<Seq<char>>) -> Seq<u8> {
    spec_u64_to_le_bytes(ts.len() as u64) + enc_strs_items(ts)
}

/// Reads `cnt` encoded texts from position `i` of `b`.
pub open spec fn dec_strs_items(b: Seq<u8>, i: int, cnt: nat) -> Option<(Seq<Seq<char>>, int)>
    decreases cnt,
{
    if cnt == 0 {
        Some((Seq::empty(), i))
    } else {
        match dec_str_at(b, i) {
            Some(sp) => match dec_strs_items(b, sp.1, (cnt - 1) as nat) {
                Some(rp) => Some((Seq::empty().push(sp.0) + rp.0, rp.1)),
                None => None,
            },
            None => None,
        }
    }
}

/// Reads one encoded text list from position `i` of `b`.
pub open spec fn dec_strs_at(b: Seq<u8>, i: int) -> Option<(Seq<Seq<char>>, int)> {
    match dec_u64_at(b, i) {
        Some(cp) => dec_strs_items(b, cp.1, cp.0 as nat),
        None => None,
    }
}

/// Appending one text appends its encoding.
pub proof fn lemma_enc_strs_items_snoc(ts: Seq<Seq<char>>, s: Seq<char>)
    ensures
        enc_strs_items(ts.push(s)) == enc_strs_items(ts) + enc_str(s),
    decreases ts.len(),
{
    if ts.len() == 0 {
        assert(ts.push(s)[0] == s);
        assert(ts.push(s).drop_first() =~= Seq::<Seq<char>>::empty());
        assert(enc_strs_items(ts.push(s).drop_first()) == enc_strs_items(
            Seq::<Seq<char>>::empty(),
        ));
        assert(enc_strs_items(Seq::<Seq<char>>::empty()) =~= Seq::<u8>::empty());
        assert(enc_strs_items(ts.push(s)) =~= enc_str(s) + Seq::<u8>::empty());
        assert(enc_strs_items(ts) + enc_str(s) =~= enc_str(s) + Seq::<u8>::empty());
    } else {
        assert(ts.push(s)[0] == ts[0]);
        assert(ts.push(s).drop_first() =~= ts.drop_first().push(s));
        lemma_enc_strs_items_snoc(ts.drop_first(), s);
        assert(enc_str(ts[0]) + (enc_strs_items(ts.drop_first()) + enc_str(s)) =~= (enc_str(ts[0])
            + enc_strs_items(ts.drop_first())) + enc_str(s));
    }
}

/// Wherever an encoded run of texts is embedded, reading them at its start
/// yields them back and stops just past the run.
pub proof fn lemma_dec_strs_items(b: Seq<u8>, i: int, ts: Seq<Seq<char>>)
    requires
        wf_strs(ts),
        0 <= i,
        i + enc_strs_items(ts).len() <= b.len(),
        b.subrange(i, i + enc_strs_items(ts).len() as int) == enc_strs_items(ts),
    ensures
        dec_strs_items(b, i, ts.len() as nat) == Some((ts, i + enc_strs_items(ts).len())),
    decreases ts.len(),
{
    if ts.len() == 0 {
        assert(dec_strs_items(b, i, 0) == Some((Seq::<Seq<char>>::empty(), i)));
        assert(ts =~= Seq::<Seq<char>>::empty());
    } else {
        let e0 = enc_str(ts[0]);
        let rest = enc_strs_items(ts.drop_first());
        assert(enc_strs_items(ts) == e0 + rest);
        assert(b.subrange(i, i + e0.len() as int) =~= enc_strs_items(ts).subrange(
            0,
            e0.len() as int,
        ));
        assert(enc_strs_items(ts).subrange(0, e0.len() as int) =~= e0);
        lemma_dec_str_at(b, i, ts[0]);
        let j = i + e0.len() as int;
        assert(b.subrange(j, j + rest.len() as int) =~= enc_strs_items(ts).subrange(
            e0.len() as int,
            enc_strs_items(ts).len() as int,
        ));
        assert(enc_strs_items(ts).subrange(e0.len() as int, enc_strs_items(ts).len() as int)
            =~= rest);
        lemma_dec_strs_items(b, j, ts.drop_first());
        assert(Seq::empty().push(ts[0]) + ts.drop_first() =~= ts);
    }
}

/// Encodes a list of texts.
pub fn encode_strs(tags: &Vec<String>) -> (r: Vec<u8>)
    ensures
        r@ == enc_strs(tags.deep_view()),
        wf_strs(tags.deep_view()),
{
    proof {
        lemma_deep_view_index(tags);
    }
    let n: u64 = tags.len() as u64;
    let mut r = u64_to_le_bytes(n);
    let mut i: usize = 0;
    while i < tags.len()
        invariant
            0 <= i <= tags@.len(),
            tags.deep_view().len() == tags@.len(),
            tags@.len() < 0x1_0000_0000_0000_0000,
            forall|m: int|
                0 <= m < tags@.len() ==> #[trigger] tags.deep_view()[m] == tags@[m]@,
            r@ == spec_u64_to_le_bytes(tags@.len() as u64) + enc_strs_items(
                tags.deep_view().take(i as int),
            ),
            forall|m: int| 0 <= m < i ==> wf_str(#[trigger] tags.deep_view()[m]),
        decreases tags@.len() - i,
    {
        let mut eb = tags[i].to_bytes();
        r.append(&mut eb);
        proof {
            let dv = tags.deep_view();
            assert(dv.take(i as int + 1) =~= dv.take(i as int).push(dv[i as int]));
            lemma_enc_strs_items_snoc(dv.take(i as int), dv[i as int]);
            assert(r@ =~= spec_u64_to_le_bytes(tags@.len() as u64) + enc_strs_items(
                dv.take(i as int + 1),
            ));
        }
        i = i + 1;
    }
    proof {
        assert(tags.deep_view().take(tags@.len() as int) =~= tags.deep_view());
    }
    r
}

/// The option with a run of already-read texts put in front.
pub open spec fn strs_prepend(pre: Seq<Seq<char>>, o: Option<(Seq<Seq<char>>, int)>) -> Option<
    (Seq<Seq<char>>, int),
> {
    match o {
        Some(rp) => Some((pre + rp.0, rp.1)),
        None => None,
    }
}

/// Reads one encoded text list from position `pos` of `b`.
pub fn parse_strs_at(b: &[u8], pos: usize) -> (r: Option<(Vec<String>, usize)>)
    ensures
        match r {
            Some(vp) => {
                &&& dec_strs_at(b@, pos as int) == Some((vp.0.deep_view(), vp.1 as int))
                &&& pos <= vp.1 <= b@.len()
                &&& wf_strs(vp.0.deep_view())
            },
            None => dec_strs_at(b@, pos as int) is None,
        },
{
    let cp = match parse_u64_at(b, pos) {
        Some(cp) => cp,
        None => {
            return None;
        },
    };
    let cnt: u64 = cp.0;
    let mut p: usize = cp.1;
    let mut acc: Vec<String> = Vec::new();
    let mut k: u64 = 0;
    proof {
        lemma_deep_view_index(&acc);
        assert(acc.deep_view() =~= Seq::<Seq<char>>::empty());
        assert(strs_prepend(acc.deep_view(), dec_strs_items(b@, p as int, (cnt - k) as nat))
            == dec_strs_items(b@, cp.1 as int, cnt as nat));
    }
    while k < cnt
        invariant
            0 <= k <= cnt,
            pos <= p <= b@.len(),
            acc.deep_view().len() == k,
            forall|m: int| 0 <= m < acc@.len() ==> #[trigger] acc.deep_view()[m] == acc@[m]@,
            forall|m: int| 0 <= m < acc.deep_view().len() ==> wf_str(#[trigger] acc.deep_view()[m]),
            dec_strs_items(b@, cp.1 as int, cnt as nat) == strs_prepend(
                acc.deep_view(),
                dec_strs_items(b@, p as int, (cnt - k) as nat),
            ),
            dec_strs_at(b@, pos as int) == dec_strs_items(b@, cp.1 as int, cnt as nat),
        decreases cnt - k,
    {
        let sp = match parse_str_at(b, p) {
            Some(sp) => sp,
            None => {
                return None;
            },
        };
        let ghost acc0 = acc.deep_view();
        let ghost sv = sp.0@;
        acc.push(sp.0);
        proof {
            lemma_deep_view_index(&acc);
            assert(acc.deep_view() =~~= acc0.push(sv));
            assert(acc0 + (Seq::empty().push(sv) + dec_strs_items(
                b@,
                sp.1 as int,
                (cnt - k - 1) as nat,
            )->Some_0.0) =~= acc0.push(sv) + dec_strs_items(
                b@,
                sp.1 as int,
                (cnt - k - 1) as nat,
            )->Some_0.0) by {
                if dec_strs_items(b@, sp.1 as int, (cnt - k - 1) as nat) is Some {
                }
            }
        }
        p = sp.1;
        k = k + 1;
        proof {
            if dec_strs_items(b@, p as int, (cnt - k) as nat) is Some {
                let rp = dec_strs_items(b@, p as int, (cnt - k) as nat)->Some_0;
                assert(acc0 + (Seq::empty().push(sv) + rp.0) =~= acc.deep_view() + rp.0);
            }
        }
    }
    proof {
        assert(dec_strs_items(b@, p as int, 0) == Some((Seq::<Seq<char>>::empty(), p as int)));
        assert(acc.deep_view() + Seq::<Seq<char>>::empty() =~= acc.deep_view());
    }
    Some((acc, p))
}

// ---------------------------------------------------------------------------
// Tagged numbers: one text key with one number, and lists of them.
// ---------------------------------------------------------------------------

/// One text key with a number: the unit of a record's keyed metadata.
#[derive(Clone, Debug)]
pub struct MetaPair {
    pub key: String,
    pub value: u64,
}

impl DeepView for MetaPair {
    type V = (Seq<char>, u64);

    open spec fn deep_view(&self) -> (Seq<char>, u64) {
        (self.key@, self.value)
    }
}

/// The encoding of one keyed number: the key's text, then the number.
pub open spec fn enc_mp(p: (Seq<char>, u64)) -> Seq<u8> {
    enc_str(p.0) + spec_u64_to_le_bytes(p.1)
}

/// Pair models whose key text fits its length field.
pub open spec fn wf_mp(p: (Seq<char>, u64)) -> bool {
    wf_str(p.0)
}

/// Pair-list models whose count and keys fit the length fields.
pub open spec fn wf_meta(ms: Seq<(Seq<char>, u64)>) -> bool {
    ms.len() < 0x1_0000_0000_0000_0000 && (forall|i: int|
        0 <= i < ms.len() ==> wf_mp(#[trigger] ms[i]))
}

/// Reads one encoded keyed number from position `i` of `b`.
pub open spec fn dec_mp_at(b: Seq<u8>, i: int) -> Option<((Seq<char>, u64), int)> {
    match dec_str_at(b, i) {
        Some(sp) => match dec_u64_at(b, sp.1) {
            Some(vp) => Some(((sp.0, vp.0), vp.1)),
            None => None,
        },
        None => None,
    }
}

/// Wherever an encoded keyed number is embedded, reading at its start yields
/// it back and stops just past it.
pub proof fn lemma_dec_mp_at(b: Seq<u8>, i: int, p: (Seq<char>, u64))
    requires
        wf_mp(p),
        0 <= i,
        i + enc_mp(p).len() <= b.len(),
        b.subrange(i, i + enc_mp(p).len() as int) == enc_mp(p),
    ensures
        dec_mp_at(b, i) == Some((p, i + enc_mp(p).len())),
{
    vstd::bytes::lemma_auto_spec_u64_to_from_le_bytes();
    assert(spec_u64_to_le_bytes(p.1).len() == 8);
    let e0 = enc_str(p.0);
    assert(b.subrange(i, i + e0.len() as int) =~= enc_mp(p).subrange(0, e0.len() as int));
    assert(enc_mp(p).subrange(0, e0.len() as int) =~= e0);
    lemma_dec_str_at(b, i, p.0);
    let j = i + e0.len() as int;
    assert(b.subrange(j, j + 8) =~= enc_mp(p).subrange(e0.len() as int, enc_mp(p).len() as int));
    assert(enc_mp(p).subrange(e0.len() as int, enc_mp(p).len() as int) =~= spec_u64_to_le_bytes(
        p.1,
    ));
    lemma_dec_u64_at(b, j, p.1);
}

/// The pairs' encodings, one after the other.
pub open spec fn enc_meta_items(ms: Seq<(Seq<char>, u64)>) -> Seq<u8>
    decreases ms.len(),
{
    if ms.len() == 0 {
        Seq::empty()
    } else {
        enc_mp(ms[0]) + enc_meta_items(ms.drop_first())
    }
}

/// The encoding of a pair list: the count, then the pairs.
pub open spec fn enc_meta(ms: Seq<(Seq<char>, u64)>) -> Seq<u8> {
    spec_u64_to_le_bytes(ms.len() as u64) + enc_meta_items(ms)
}

/// Reads `cnt` encoded pairs from position `i` of `b`.
pub open spec fn dec_meta_items(b: Seq<u8>, i: int, cnt: nat) -> Option<
    (Seq<(Seq<char>, u64)>, int),
>
    decreases cnt,
{
    if cnt == 0 {
        Some((Seq::empty(), i))
    } else {
        match dec_mp_at(b, i) {
            Some(sp) => match dec_meta_items(b, sp.1, (cnt - 1) as nat) {
                Some(rp) => Some((Seq::empty().push(sp.0) + rp.0, rp.1)),
                None => None,
            },
            None => None,
        }
    }
}

/// Reads one encoded pair list from position `i` of `b`.
pub open spec fn dec_meta_at(b: Seq<u8>, i: int) -> Option<(Seq<(Seq<char>, u64)>, int)> {
    match dec_u64_at(b, i) {
        Some(cp) => dec_meta_items(b, cp.1, cp.0 as nat),
        None => None,
    }
}

/// Appending one pair appends its encoding.
pub proof fn lemma_enc_meta_items_snoc(ms: Seq<(Seq<char>, u64)>, p: (Seq<char>, u64))
    ensures
        enc_meta_items(ms.push(p)) == enc_meta_items(ms) + enc_mp(p),
    decreases ms.len(),
{
    if ms.len() == 0 {
        assert(ms.push(p)[0] == p);
        assert(ms.push(p).drop_first() =~= Seq::<(Seq<char>, u64)>::empty());
        assert(enc_meta_items(ms.push(p).drop_first()) == enc_meta_items(
            Seq::<(Seq<char>, u64)>::empty(),
        ));
        assert(enc_meta_items(Seq::<(Seq<char>, u64)>::empty()) =~= Seq::<u8>::empty());
        assert(enc_meta_items(ms.push(p)) =~= enc_mp(p) + Seq::<u8>::empty());
        assert(enc_meta_items(ms) + enc_mp(p) =~= enc_mp(p) + Seq::<u8>::empty());
    } else {
        assert(ms.push(p)[0] == ms[0]);
        assert(ms.push(p).drop_first() =~= ms.drop_first().push(p));
        lemma_enc_meta_items_snoc(ms.drop_first(), p);
        assert(enc_mp(ms[0]) + (enc_meta_items(ms.drop_first()) + enc_mp(p)) =~= (enc_mp(ms[0])
            + enc_meta_items(ms.drop_first())) + enc_mp(p));
    }
}

/// Wherever an encoded run of pairs is embedded, reading them at its start
/// yields them back and stops just past the run.
pub proof fn lemma_dec_meta_items(b: Seq<u8>, i: int, ms: Seq<(Seq<char>, u64)>)
    requires
        wf_meta(ms),
        0 <= i,
        i + enc_meta_items(ms).len() <= b.len(),
        b.subrange(i, i + enc_meta_items(ms).len() as int) == enc_meta_items(ms),
    ensures
        dec_meta_items(b, i, ms.len() as nat) == Some((ms, i + enc_meta_items(ms).len())),
    decreases ms.len(),
{
    if ms.len() == 0 {
        assert(dec_meta_items(b, i, 0) == Some((Seq::<(Seq<char>, u64)>::empty(), i)));
        assert(ms =~= Seq::<(Seq<char>, u64)>::empty());
    } else {
        let e0 = enc_mp(ms[0]);
        let rest = enc_meta_items(ms.drop_first());
        assert(enc_meta_items(ms) == e0 + rest);
        assert(b.subrange(i, i + e0.len() as int) =~= enc_meta_items(ms).subrange(
            0,
            e0.len() as int,
        ));
        assert(enc_meta_items(ms).subrange(0, e0.len() as int) =~= e0);
        lemma_dec_mp_at(b, i, ms[0]);
        let j = i + e0.len() as int;
        assert(b.subrange(j, j + rest.len() as int) =~= enc_meta_items(ms).subrange(
            e0.len() as int,
            enc_meta_items(ms).len() as int,
        ));
        assert(enc_meta_items(ms).subrange(e0.len() as int, enc_meta_items(ms).len() as int)
            =~= rest);
        lemma_dec_meta_items(b, j, ms.drop_first());
        assert(Seq::empty().push(ms[0]) + ms.drop_first() =~= ms);
    }
}

/// Encodes a list of keyed numbers.
pub fn encode_meta(ms: &Vec<MetaPair>) -> (r: Vec<u8>)
    ensures
        r@ == enc_meta(ms.deep_view()),
        wf_meta(ms.deep_view()),
{
    proof {
        lemma_deep_view_index(ms);
    }
    let n: u64 = ms.len() as u64;
    let mut r = u64_to_le_bytes(n);
    let mut i: usize = 0;
    while i < ms.len()
        invariant
            0 <= i <= ms@.len(),
            ms.deep_view().len() == ms@.len(),
            ms@.len() < 0x1_0000_0000_0000_0000,
            forall|m: int|
                0 <= m < ms@.len() ==> #[trigger] ms.deep_view()[m] == ms@[m].deep_view(),
            r@ == spec_u64_to_le_bytes(ms@.len() as u64) + enc_meta_items(
                ms.deep_view().take(i as int),
            ),
            forall|m: int| 0 <= m < i ==> wf_mp(#[trigger] ms.deep_view()[m]),
        decreases ms@.len() - i,
    {
        let mut kb = ms[i].key.to_bytes();
        r.append(&mut kb);
        let mut vb = u64_to_le_bytes(ms[i].value);
        r.append(&mut vb);
        proof {
            let dv = ms.deep_view();
            assert(dv.take(i as int + 1) =~= dv.take(i as int).push(dv[i as int]));
            lemma_enc_meta_items_snoc(dv.take(i as int), dv[i as int]);
            assert(r@ =~= spec_u64_to_le_bytes(ms@.len() as u64) + enc_meta_items(
                dv.take(i as int + 1),
            ));
        }
        i = i + 1;
    }
    proof {
        assert(ms.deep_view().take(ms@.len() as int) =~= ms.deep_view());
    }
    r
}

/// The option with a run of already-read pairs put in front.
pub open spec fn meta_prepend(
    pre: Seq<(Seq<char>, u64)>,
    o: Option<(Seq<(Seq<char>, u64)>, int)>,
) -> Option<(Seq<(Seq<char>, u64)>, int)> {
    match o {
        Some(rp) => Some((pre + rp.0, rp.1)),
        None => None,
    }
}

/// Reads one encoded pair list from position `pos` of `b`.
pub fn parse_meta_at(b: &[u8], pos: usize) -> (r: Option<(Vec<MetaPair>, usize)>)
    ensures
        match r {
            Some(vp) => {
                &&& dec_meta_at(b@, pos as int) == Some((vp.0.deep_view(), vp.1 as int))
                &&& pos <= vp.1 <= b@.len()
                &&& wf_meta(vp.0.deep_view())
            },
            None => dec_meta_at(b@, pos as int) is None,
        },
{
    let cp = match parse_u64_at(b, pos) {
        Some(cp) => cp,
        None => {
            return None;
        },
    };
    let cnt: u64 = cp.0;
    let mut p: usize = cp.1;
    let mut acc: Vec<MetaPair> = Vec::new();
    let mut k: u64 = 0;
    proof {
        lemma_deep_view_index(&acc);
        assert(acc.deep_view() =~= Seq::<(Seq<char>, u64)>::empty());
        assert(meta_prepend(acc.deep_view(), dec_meta_items(b@, p as int, (cnt - k) as nat))
            == dec_meta_items(b@, cp.1 as int, cnt as nat));
    }
    while k < cnt
        invariant
            0 <= k <= cnt,
            pos <= p <= b@.len(),
            acc.deep_view().len() == k,
            forall|m: int|
                0 <= m < acc@.len() ==> #[trigger] acc.deep_view()[m] == acc@[m].deep_view(),
            forall|m: int| 0 <= m < acc.deep_view().len() ==> wf_mp(#[trigger] acc.deep_view()[m]),
            dec_meta_items(b@, cp.1 as int, cnt as nat) == meta_prepend(
                acc.deep_view(),
                dec_meta_items(b@, p as int, (cnt - k) as nat),
            ),
            dec_meta_at(b@, pos as int) == dec_meta_items(b@, cp.1 as int, cnt as nat),
        decreases cnt - k,
    {
        let sp = match parse_str_at(b, p) {
            Some(sp) => sp,
            None => {
                return None;
            },
        };
        let vp = match parse_u64_at(b, sp.1) {
            Some(vp) => vp,
            None => {
                return None;
            },
        };
        let ghost acc0 = acc.deep_view();
        let ghost pv = (sp.0@, vp.0);
        acc.push(MetaPair { key: sp.0, value: vp.0 });
        proof {
            lemma_deep_view_index(&acc);
            assert(acc.deep_view() =~~= acc0.push(pv));
            if dec_meta_items(b@, vp.1 as int, (cnt - k - 1) as nat) is Some {
                let rp = dec_meta_items(b@, vp.1 as int, (cnt - k - 1) as nat)->Some_0;
                assert(acc0 + (Seq::empty().push(pv) + rp.0) =~= acc.deep_view() + rp.0);
            }
        }
        p = vp.1;
        k = k + 1;
    }
    proof {
        assert(dec_meta_items(b@, p as int, 0) == Some((Seq::<(Seq<char>, u64)>::empty(), p as int)));
        assert(acc.deep_view() + Seq::<(Seq<char>, u64)>::empty() =~= acc.deep_view());
    }
    Some((acc, p))
}

// ---------------------------------------------------------------------------
// A small record: a number and a text.
// ---------------------------------------------------------------------------

/// A small storable record: one number and one text.
#[derive(Clone, Debug)]
pub struct TestStruct {
    pub a: u32,
    pub b: String,
}

/// Model of [`TestStruct`].
#[verifier::ext_equal]
pub ghost struct TestStructM {
    pub a: u32,
    pub b: Seq<char>,
}

impl DeepView for TestStruct {
    type V = TestStructM;

    open spec fn deep_view(&self) -> TestStructM {
        TestStructM { a: self.a, b: self.b@ }
    }
}

/// The encoding of a [`TestStruct`] model: the number, then the text.
pub open spec fn enc_ts(m: TestStructM) -> Seq<u8> {
    vstd::bytes::spec_u32_to_le_bytes(m.a) + enc_str(m.b)
}

/// The model an encoding of a [`TestStruct`] decodes to, if any.
pub open spec fn dec_ts(b: Seq<u8>) -> Option<TestStructM> {
    match dec_u32_at(b, 0) {
        Some(ap) => match dec_str_at(b, ap.1) {
            Some(sp) => if sp.1 == b.len() {
                Some(TestStructM { a: ap.0, b: sp.0 })
            } else {
                None
            },
            None => None,
        },
        None => None,
    }
}

impl TestStruct {
    /// A record with the given number and text.
    pub fn new(a: u32, b: &str) -> (r: Self)
        ensures
            r.deep_view() == (TestStructM { a, b: b@ }),
    {
        TestStruct { a, b: b.to_owned() }
    }
}

impl DbValue for TestStruct {
    open spec fn encm(m: TestStructM) -> Seq<u8> {
        enc_ts(m)
    }

    open spec fn decm(b: Seq<u8>) -> Option<TestStructM> {
        dec_ts(b)
    }

    open spec fn wfm(m: TestStructM) -> bool {
        wf_str(m.b)
    }

    proof fn lemma_round_trip(m: TestStructM) {
        vstd::bytes::lemma_auto_spec_u32_to_from_le_bytes();
        let e = enc_ts(m);
        let ia = vstd::bytes::spec_u32_to_le_bytes(m.a);
        assert(ia.len() == 4);
        assert(e.subrange(0, 4) =~= ia);
        lemma_dec_u32_at(e, 0, m.a);
        assert(e.subrange(4, e.len() as int) =~= enc_str(m.b));
        lemma_dec_str_at(e, 4, m.b);
    }

    fn to_bytes(&self) -> (r: Vec<u8>) {
        proof {
            vstd::bytes::lemma_auto_spec_u32_to_from_le_bytes();
        }
        let mut r = u32_to_le_bytes(self.a);
        let mut sb = self.b.to_bytes();
        r.append(&mut sb);
        proof {
            assert(r@ =~= enc_ts(self.deep_view()));
        }
        r
    }

    fn from_bytes(b: &[u8]) -> (r: Result<Self, DbError>) {
        let ap = match parse_u32_at(b, 0) {
            Some(ap) => ap,
            None => {
                return Err(DbError::CorruptData);
            },
        };
        let sp = match parse_str_at(b, ap.1) {
            Some(sp) => sp,
            None => {
                return Err(DbError::CorruptData);
            },
        };
        if sp.1 != b.len() {
            return Err(DbError::CorruptData);
        }
        Ok(TestStruct { a: ap.0, b: sp.0 })
    }

    fn dup(&self) -> (r: Self) {
        TestStruct { a: self.a, b: self.b.clone() }
    }
}

impl PartialEq for TestStruct {
    fn eq(&self, other: &Self) -> (r: bool) {
        let sb = self.to_bytes();
        let ob = other.to_bytes();
        let r = sb == ob;
        proof {
            if sb@ =~= ob@ {
                lemma_enc_injective::<TestStruct>(self.deep_view(), other.deep_view());
            }
        }
        r
    }
}

impl vstd::std_specs::cmp::PartialEqSpecImpl for TestStruct {
    open spec fn obeys_eq_spec() -> bool {
        true
    }

    open spec fn eq_spec(&self, other: &Self) -> bool {
        self.deep_view() == other.deep_view()
    }
}

// ---------------------------------------------------------------------------
// A larger record: a number, a text, a list of texts, and keyed numbers.
// ---------------------------------------------------------------------------

/// A larger storable record: an id, a name, a list of tags and a list of
/// keyed numbers derived from the tags.
#[derive(Clone, Debug)]
pub struct ComplexRecord {
    pub id: u32,
    pub name: String,
    pub tags: Vec<String>,
    pub meta: Vec<MetaPair>,
}

/// Model of [`ComplexRecord`].
#[verifier::ext_equal]
pub ghost struct ComplexRecordM {
    pub id: u32,
    pub name: Seq<char>,
    pub tags: Seq<Seq<char>>,
    pub meta: Seq<(Seq<char>, u64)>,
}

impl DeepView for ComplexRecord {
    type V = ComplexRecordM;

    open spec fn deep_view(&self) -> ComplexRecordM {
        ComplexRecordM {
            id: self.id,
            name: self.name@,
            tags: self.tags.deep_view(),
            meta: self.meta.deep_view(),
        }
    }
}

/// The encoding of a [`ComplexRecord`] model: its four parts in order.
pub open spec fn enc_cr(m: ComplexRecordM) -> Seq<u8> {
    vstd::bytes::spec_u32_to_le_bytes(m.id) + enc_str(m.name) + enc_strs(m.tags) + enc_meta(m.meta)
}

/// The model an encoding of a [`ComplexRecord`] decodes to, if any.
pub open spec fn dec_cr(b: Seq<u8>) -> Option<ComplexRecordM> {
    match dec_u32_at(b, 0) {
        Some(ip) => match dec_str_at(b, ip.1) {
            Some(np) => match dec_strs_at(b, np.1) {
                Some(tp) => match dec_meta_at(b, tp.1) {
                    Some(mp) => if mp.1 == b.len() {
                        Some(ComplexRecordM { id: ip.0, name: np.0, tags: tp.0, meta: mp.0 })
                    } else {
                        None
                    },
                    None => None,
                },
                None => None,
            },
            None => None,
        },
        None => None,
    }
}

impl DbValue for ComplexRecord {
    open spec fn encm(m: ComplexRecordM) -> Seq<u8> {
        enc_cr(m)
    }

    open spec fn decm(b: Seq<u8>) -> Option<ComplexRecordM> {
        dec_cr(b)
    }

    open spec fn wfm(m: ComplexRecordM) -> bool {
        wf_str(m.name) && wf_strs(m.tags) && wf_meta(m.meta)
    }

    proof fn lemma_round_trip(m: ComplexRecordM) {
        vstd::bytes::lemma_auto_spec_u32_to_from_le_bytes();
        vstd::bytes::lemma_auto_spec_u64_to_from_le_bytes();
        let e = enc_cr(m);
        let p0 = vstd::bytes::spec_u32_to_le_bytes(m.id);
        let p1 = enc_str(m.name);
        let p2 = enc_strs(m.tags);
        let p3 = enc_meta(m.meta);
        assert(p0.len() == 4);
        let i1: int = 4;
        let i2 = i1 + p1.len() as int;
        let i3 = i2 + p2.len() as int;
        let i4 = i3 + p3.len() as int;
        assert(e.subrange(0, i1) =~= p0);
        lemma_dec_u32_at(e, 0, m.id);
        assert(e.subrange(i1, i2) =~= p1);
        lemma_dec_str_at(e, i1, m.name);
        assert(e.subrange(i2, i2 + 8) =~= spec_u64_to_le_bytes(m.tags.len() as u64));
        lemma_dec_u64_at(e, i2, m.tags.len() as u64);
        assert(e.subrange(i2 + 8, i2 + 8 + enc_strs_items(m.tags).len() as int)
            =~= enc_strs_items(m.tags));
        lemma_dec_strs_items(e, i2 + 8, m.tags);
        assert(dec_strs_at(e, i2) == Some((m.tags, i3)));
        assert(e.subrange(i3, i3 + 8) =~= spec_u64_to_le_bytes(m.meta.len() as u64));
        lemma_dec_u64_at(e, i3, m.meta.len() as u64);
        assert(e.subrange(i3 + 8, i3 + 8 + enc_meta_items(m.meta).len() as int)
            =~= enc_meta_items(m.meta));
        lemma_dec_meta_items(e, i3 + 8, m.meta);
        assert(dec_meta_at(e, i3) == Some((m.meta, i4)));
        assert(i4 == e.len());
        assert(dec_cr(e) == Some(
            ComplexRecordM { id: m.id, name: m.name, tags: m.tags, meta: m.meta },
        ));
        assert(ComplexRecordM { id: m.id, name: m.name, tags: m.tags, meta: m.meta } =~= m);
    }

    fn to_bytes(&self) -> (r: Vec<u8>) {
        proof {
            vstd::bytes::lemma_auto_spec_u32_to_from_le_bytes();
        }
        let mut r = u32_to_le_bytes(self.id);
        let mut nb = self.name.to_bytes();
        r.append(&mut nb);
        let mut tb = encode_strs(&self.tags);
        r.append(&mut tb);
        let mut mb = encode_meta(&self.meta);
        r.append(&mut mb);
        proof {
            assert(r@ =~= enc_cr(self.deep_view()));
        }
        r
    }

    fn from_bytes(b: &[u8]) -> (r: Result<Self, DbError>) {
        let ip = match parse_u32_at(b, 0) {
            Some(ip) => ip,
            None => {
                return Err(DbError::CorruptData);
            },
        };
        let np = match parse_str_at(b, ip.1) {
            Some(np) => np,
            None => {
                return Err(DbError::CorruptData);
            },
        };
        let tp = match parse_strs_at(b, np.1) {
            Some(tp) => tp,
            None => {
                return Err(DbError::CorruptData);
            },
        };
        let mp = match parse_meta_at(b, tp.1) {
            Some(mp) => mp,
            None => {
                return Err(DbError::CorruptData);
            },
        };
        if mp.1 != b.len() {
            return Err(DbError::CorruptData);
        }
        let r = ComplexRecord { id: ip.0, name: np.0, tags: tp.0, meta: mp.0 };
        proof {
            assert(r.deep_view() =~= dec_cr(b@)->Some_0);
        }
        Ok(r)
    }

    fn dup(&self) -> (r: Self) {
        let b = self.to_bytes();
        proof {
            Self::lemma_round_trip(self.deep_view());
        }
        match Self::from_bytes(b.as_slice()) {
            Ok(r) => r,
            Err(_) => vstd::pervasive::unreached(),
        }
    }
}

impl DbKey for ComplexRecord {
    /// Records order by id first; records with equal ids order by their
    /// encodings, byte for byte.
    open spec fn le(a: ComplexRecordM, b: ComplexRecordM) -> bool {
        a.id < b.id || (a.id == b.id && bytes_le(enc_cr(a), enc_cr(b)))
    }

    proof fn lemma_order(a: ComplexRecordM, b: ComplexRecordM, c: ComplexRecordM) {
        lemma_bytes_le_refl(enc_cr(a));
        if ComplexRecord::wfm(a) && ComplexRecord::wfm(b) && ComplexRecord::le(a, b)
            && ComplexRecord::le(b, a) {
            lemma_bytes_le_antisym(enc_cr(a), enc_cr(b));
            lemma_enc_injective::<ComplexRecord>(a, b);
        }
        if ComplexRecord::le(a, b) && ComplexRecord::le(b, c) && a.id == b.id && b.id == c.id {
            lemma_bytes_le_trans(enc_cr(a), enc_cr(b), enc_cr(c));
        }
        lemma_bytes_le_total(enc_cr(a), enc_cr(b));
    }

    fn le_exec(&self, other: &Self) -> (r: bool) {
        if self.id != other.id {
            self.id <= other.id
        } else {
            let sb = self.to_bytes();
            let ob = other.to_bytes();
            bytes_le_exec(sb.as_slice(), ob.as_slice())
        }
    }
}

impl PartialEq for ComplexRecord {
    fn eq(&self, other: &Self) -> (r: bool) {
        let sb = self.to_bytes();
        let ob = other.to_bytes();
        let r = sb == ob;
        proof {
            if sb@ =~= ob@ {
                lemma_enc_injective::<ComplexRecord>(self.deep_view(), other.deep_view());
            }
        }
        r
    }
}

impl vstd::std_specs::cmp::PartialEqSpecImpl for ComplexRecord {
    open spec fn obeys_eq_spec() -> bool {
        true
    }

    open spec fn eq_spec(&self, other: &Self) -> bool {
        self.deep_view() == other.deep_view()
    }
}

/// The pair is some listed tag's text with an index at which that text
/// appears.
pub open spec fn pair_from_tags(p: (Seq<char>, u64), tags: Seq<&str>) -> bool {
    exists|w: int| 0 <= w < tags.len() && p == ((#[trigger] tags[w])@, w as u64)
}

/// The tag's text appears as some pair's key.
pub open spec fn tag_has_entry(t: Seq<char>, meta: Seq<(Seq<char>, u64)>) -> bool {
    exists|j: int| 0 <= j < meta.len() && (#[trigger] meta[j]).0 == t
}

impl ComplexRecord {
    /// A record with the given id, name and tags; its keyed numbers map each
    /// distinct tag to an index at which it appears, later indexes winning.
    pub fn new(id: u32, name: &str, tags: &[&str]) -> (r: Self)
        ensures
            r.deep_view().id == id,
            r.deep_view().name == name@,
            r.deep_view().tags.len() == tags@.len(),
            forall|i: int|
                0 <= i < tags@.len() ==> #[trigger] r.deep_view().tags[i] == tags@[i]@,
            forall|j: int|
                0 <= j < r.deep_view().meta.len() ==> pair_from_tags(
                    #[trigger] r.deep_view().meta[j],
                    tags@,
                ),
            forall|i: int|
                0 <= i < tags@.len() ==> tag_has_entry(
                    (#[trigger] tags@[i])@,
                    r.deep_view().meta,
                ),
            forall|j1: int, j2: int|
                0 <= j1 < j2 < r.deep_view().meta.len() ==> r.deep_view().meta[j1].0
                    != r.deep_view().meta[j2].0,
            forall|j: int, i: int|
                0 <= j < r.deep_view().meta.len() && 0 <= i < tags@.len() && (
                #[trigger] tags@[i])@ == (#[trigger] r.deep_view().meta[j]).0 ==> i as u64
                    <= r.deep_view().meta[j].1,
    {
        let mut tv: Vec<String> = Vec::new();
        let mut i: usize = 0;
        while i < tags.len()
            invariant
                0 <= i <= tags@.len(),
                tv.deep_view().len() == i,
                forall|m: int| 0 <= m < i ==> #[trigger] tv.deep_view()[m] == tags@[m]@,
            decreases tags@.len() - i,
        {
            let ghost tv0 = tv.deep_view();
            let elem: String = (*vstd::slice::slice_index_get(tags, i)).to_owned();
            proof {
                assert(elem@ == tags@[i as int]@);
            }
            tv.push(elem);
            proof {
                lemma_deep_view_index(&tv);
                assert(tv.deep_view()[i as int] == tags@[i as int]@);
                assert forall|m: int| 0 <= m < i + 1 implies #[trigger] tv.deep_view()[m]
                    == tags@[m]@ by {
                    if m < i {
                        assert(tv.deep_view()[m] == tv0[m]);
                    }
                }
            }
            i = i + 1;
        }
        let mut meta: Vec<MetaPair> = Vec::new();
        let mut j: usize = 0;
        while j < tags.len()
            invariant
                0 <= j <= tags@.len(),
                meta.deep_view().len() == meta@.len(),
                forall|m: int|
                    0 <= m < meta.deep_view().len() ==> pair_from_tags(
                        #[trigger] meta.deep_view()[m],
                        tags@,
                    ),
                forall|a: int, b: int|
                    0 <= a < b < meta.deep_view().len() ==> meta.deep_view()[a].0
                        != meta.deep_view()[b].0,
                forall|i: int|
                    0 <= i < j ==> tag_has_entry((#[trigger] tags@[i])@, meta.deep_view()),
                forall|mw: int, i: int|
                    0 <= mw < meta.deep_view().len() && 0 <= i < j && (#[trigger] tags@[i])@ == (
                    #[trigger] meta.deep_view()[mw]).0 ==> i as u64 <= meta.deep_view()[mw].1,
            decreases tags@.len() - j,
        {
            let key: String = (*vstd::slice::slice_index_get(tags, j)).to_owned();
            let ghost keyv = key@;
            proof {
                assert(keyv == tags@[j as int]@);
            }
            let mut found = false;
            let mut w: usize = 0;
            while w < meta.len() && !found
                invariant
                    0 <= w <= meta@.len(),
                    meta.deep_view().len() == meta@.len(),
                    forall|x: int|
                        0 <= x < meta@.len() ==> #[trigger] meta.deep_view()[x]
                            == meta@[x].deep_view(),
                    keyv == key@,
                    found ==> w < meta@.len() && meta.deep_view()[w as int].0 == keyv,
                    !found ==> forall|x: int|
                        0 <= x < w ==> (#[trigger] meta.deep_view()[x]).0 != keyv,
                decreases meta@.len() - w + (if found {
                    0int
                } else {
                    1int
                }),
            {
                let both = str_le_exec(meta[w].key.as_str(), key.as_str()) && str_le_exec(
                    key.as_str(),
                    meta[w].key.as_str(),
                );
                proof {
                    if both {
                        crate::codec::lemma_str_le_antisym(
                            meta.deep_view()[w as int].0,
                            keyv,
                        );
                    } else {
                        if meta.deep_view()[w as int].0 == keyv {
                            crate::codec::lemma_str_le_refl(keyv);
                            assert(false);
                        }
                    }
                }
                if both {
                    found = true;
                } else {
                    w = w + 1;
                }
            }
            let ghost meta0 = meta.deep_view();
            if found {
                meta[w] = MetaPair { key, value: j as u64 };
            } else {
                meta.push(MetaPair { key, value: j as u64 });
            }
            proof {
                lemma_deep_view_index(&meta);
                let dv = meta.deep_view();
                if found {
                    assert forall|x: int| 0 <= x < dv.len() implies (#[trigger] dv[x]).0
                        == meta0[x].0 by {
                        if x != w {
                            assert(dv[x] == meta0[x]);
                        } else {
                            assert(dv[x] == (keyv, j as u64));
                        }
                    }
                } else {
                    assert(dv =~~= meta0.push((keyv, j as u64)));
                }
                assert forall|m: int| 0 <= m < dv.len() implies pair_from_tags(
                    #[trigger] dv[m],
                    tags@,
                ) by {
                    if m < meta0.len() && (!found || m != w) {
                        assert(dv[m] == meta0[m]);
                    } else {
                        assert(dv[m] == ((tags@[j as int])@, j as u64));
                    }
                }
                assert forall|a: int, b: int| 0 <= a < b < dv.len() implies dv[a].0 != dv[b].0 by {
                    if found {
                        assert(dv[a].0 == meta0[a].0 && dv[b].0 == meta0[b].0);
                    } else {
                        if b == meta0.len() {
                            assert(dv[a] == meta0[a]);
                            assert(dv[b].0 == keyv);
                        } else {
                            assert(dv[a] == meta0[a] && dv[b] == meta0[b]);
                        }
                    }
                }
                assert forall|i: int| 0 <= i < j + 1 implies tag_has_entry(
                    (#[trigger] tags@[i])@,
                    dv,
                ) by {
                    if i < j {
                        assert(tag_has_entry(tags@[i]@, meta0));
                        let jw = choose|jw: int|
                            0 <= jw < meta0.len() && (#[trigger] meta0[jw]).0 == tags@[i]@;
                        if found {
                            assert(dv[jw].0 == meta0[jw].0);
                        } else {
                            assert(dv[jw] == meta0[jw]);
                        }
                    } else {
                        if found {
                            assert(dv[w as int].0 == keyv);
                        } else {
                            assert(dv[meta0.len() as int].0 == keyv);
                        }
                    }
                }
                assert forall|mw: int, i: int|
                    0 <= mw < dv.len() && 0 <= i < j + 1 && (#[trigger] tags@[i])@ == (
                    #[trigger] dv[mw]).0 implies i as u64 <= dv[mw].1 by {
                    if found {
                        if i < j {
                            if mw != w {
                                assert(dv[mw] == meta0[mw]);
                            } else {
                                assert(dv[mw].1 == j as u64);
                            }
                        } else {
                            assert(dv[mw].0 == keyv);
                            assert(dv[w as int].0 == keyv);
                            if mw != w {
                                assert(dv[mw].0 != dv[w as int].0 || mw == w) by {
                                    if mw < w {
                                        assert(dv[mw].0 != dv[w as int].0);
                                    } else if mw > w {
                                        assert(dv[w as int].0 != dv[mw].0);
                                    }
                                }
                            }
                            assert(mw == w);
                            assert(dv[mw].1 == j as u64);
                        }
                    } else {
                        if mw < meta0.len() {
                            assert(dv[mw] == meta0[mw]);
                            if i < j {
                            } else {
                                assert(meta0[mw].0 != keyv);
                                assert(false);
                            }
                        } else {
                            assert(dv[mw] == (keyv, j as u64));
                            if i < j {
                                assert(tag_has_entry(tags@[i]@, meta0));
                                let jw = choose|jw: int|
                                    0 <= jw < meta0.len() && (#[trigger] meta0[jw]).0
                                        == tags@[i]@;
                                assert(meta0[jw].0 == keyv);
                                assert(false);
                            }
                        }
                    }
                }
            }
            j = j + 1;
        }
        let r = ComplexRecord { id, name: name.to_owned(), tags: tv, meta };
        proof {
            assert(r.deep_view().tags == tv.deep_view());
            assert(r.deep_view().meta == meta.deep_view());
            assert forall|j: int|
                0 <= j < r.deep_view().meta.len() implies pair_from_tags(
                    #[trigger] r.deep_view().meta[j],
                    tags@,
                ) by {
                assert(pair_from_tags(meta.deep_view()[j], tags@));
            }
            assert forall|i: int| 0 <= i < tags@.len() implies tag_has_entry(
                (#[trigger] tags@[i])@,
                r.deep_view().meta,
            ) by {
                assert(tag_has_entry(tags@[i]@, meta.deep_view()));
            }
        }
        r
    }
}

} // verus!
