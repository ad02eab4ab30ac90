//! The typed codec: every key or value type of a table encodes to a byte
//! sequence, decodes back, and — for key types — carries a total order that
//! comparison of encoded keys reproduces by decoding both sides.

use vstd::prelude::*;
use vstd::string::{StrSliceExecFns, StringSliceAdditionalSpecFns};
use vstd::bytes::{
    lemma_auto_spec_u32_to_from_le_bytes, lemma_auto_spec_u64_to_from_le_bytes,
    spec_u32_from_le_bytes, spec_u32_to_le_bytes, spec_u64_from_le_bytes, spec_u64_to_le_bytes,
    u32_from_le_bytes, u32_to_le_bytes, u64_from_le_bytes, u64_to_le_bytes,
};
use vstd::slice::slice_subrange;

use crate::error::DbError;

verus! {

/// A type that can be stored in a table.
///
/// Its mathematical model is its deep view; `encm` and `decm` say, at that
/// level, what the encoded bytes of a model are and which byte sequences
/// decode. Every implementation proves the round-trip law: decoding an
/// encoding yields the encoded model again.
pub trait DbValue: DeepView + Sized {
    /// The encoding of a model value.
    spec fn encm(m: Self::V) -> Seq<u8>;

    /// The model a byte sequence decodes to, if any.
    spec fn decm(b: Seq<u8>) -> Option<Self::V>;

    /// The models that a machine-representable value can have. Every model of
    /// a runtime value is well formed; a mathematical model whose parts
    /// outgrow the encoding's length fields is not.
    spec fn wfm(m: Self::V) -> bool;

    /// Round-trip law: decoding an encoding yields the value encoded.
    proof fn lemma_round_trip(m: Self::V)
        requires
            Self::wfm(m),
        ensures
            Self::decm(Self::encm(m)) == Some(m),
    ;

    /// Encodes the value.
    fn to_bytes(&self) -> (r: Vec<u8>)
        ensures
            r@ == Self::encm(self.deep_view()),
            Self::wfm(self.deep_view()),
    ;

    /// Decodes a value from bytes; fails exactly on byte sequences that are
    /// not an encoding.
    fn from_bytes(b: &[u8]) -> (r: Result<Self, DbError>)
        ensures
            match r {
                Ok(v) => Self::decm(b@) == Some(v.deep_view()) && Self::wfm(v.deep_view()),
                Err(e) => Self::decm(b@) is None && e == DbError::CorruptData,
            },
    ;

    /// A copy with the same model.
    fn dup(&self) -> (r: Self)
        ensures
            r.deep_view() == self.deep_view(),
    ;
}

/// A type that can act as a table key: a storable value with a total order.
pub trait DbKey: DbValue {
    /// The key type's total order, on models.
    spec fn le(a: Self::V, b: Self::V) -> bool;

    /// `le` is a total order: reflexive, transitive, total, and — between
    /// well-formed models — antisymmetric.
    proof fn lemma_order(a: Self::V, b: Self::V, c: Self::V)
        ensures
            Self::le(a, a),
            Self::wfm(a) && Self::wfm(b) && Self::le(a, b) && Self::le(b, a) ==> a == b,
            Self::le(a, b) && Self::le(b, c) ==> Self::le(a, c),
            Self::le(a, b) || Self::le(b, a),
    ;

    /// Decides the order.
    fn le_exec(&self, other: &Self) -> (r: bool)
        ensures
            r == Self::le(self.deep_view(), other.deep_view()),
    ;
}

/// An encoding pins the value down: equal encodings mean equal models.
pub proof fn lemma_enc_injective<T: DbValue>(a: T::V, b: T::V)
    requires
        T::wfm(a),
        T::wfm(b),
        T::encm(a) == T::encm(b),
    ensures
        a == b,
{
    T::lemma_round_trip(a);
    T::lemma_round_trip(b);
}

/// Three-way comparison of two key models: negative, zero or positive as
/// `a` is below, equal to or above `b`.
pub open spec fn cmp_spec<K: DbKey>(a: K::V, b: K::V) -> int {
    if a == b {
        0int
    } else if K::le(a, b) {
        -1int
    } else {
        1int
    }
}

/// What comparing two encoded keys yields: decode both sides and compare the
/// decoded models; no answer if either side is not an encoding.
pub open spec fn spec_compare_encoded<K: DbKey>(x: Seq<u8>, y: Seq<u8>) -> Option<int> {
    match (K::decm(x), K::decm(y)) {
        (Some(a), Some(b)) => Some(cmp_spec::<K>(a, b)),
        _ => None,
    }
}

/// Compares two encoded keys by decoding both sides and comparing the decoded
/// values, as the engine's ordered index requires of a key type. Returns -1,
/// 0 or 1; fails with `CorruptData` if either side is not an encoding.
pub fn compare_encoded<K: DbKey>(x: &[u8], y: &[u8]) -> (r: Result<i8, DbError>)
    ensures
        match r {
            Ok(c) => spec_compare_encoded::<K>(x@, y@) == Some(c as int),
            Err(e) => spec_compare_encoded::<K>(x@, y@) is None && e == DbError::CorruptData,
        },
{
    let a = K::from_bytes(x)?;
    let b = K::from_bytes(y)?;
    let ab = a.le_exec(&b);
    let ba = b.le_exec(&a);
    proof {
        K::lemma_order(a.deep_view(), b.deep_view(), b.deep_view());
    }
    if ab && ba {
        Ok(0)
    } else if ab {
        Ok(-1)
    } else {
        Ok(1)
    }
}

/// Codec round-trip law: for every well-formed model value of a storable
/// type, decoding the encoding yields the value again.
pub proof fn codec_round_trip<T: DbValue>(m: T::V)
    requires
        T::wfm(m),
    ensures
        T::decm(T::encm(m)) == Some(m),
{
    T::lemma_round_trip(m);
}

/// Codec order-preservation law: comparing the encodings of two keys (by
/// decoding both sides) yields exactly the comparison of the keys themselves.
pub proof fn codec_order_preserved<K: DbKey>(a: K::V, b: K::V)
    requires
        K::wfm(a),
        K::wfm(b),
    ensures
        spec_compare_encoded::<K>(K::encm(a), K::encm(b)) == Some(cmp_spec::<K>(a, b)),
{
    K::lemma_round_trip(a);
    K::lemma_round_trip(b);
}

// ---------------------------------------------------------------------------
// Unsigned integers: fixed-width little-endian bytes.
// ---------------------------------------------------------------------------

impl DbValue for u32 {
    open spec fn encm(m: u32) -> Seq<u8> {
        spec_u32_to_le_bytes(m)
    }

    open spec fn decm(b: Seq<u8>) -> Option<u32> {
        if b.len() == 4 {
            Some(spec_u32_from_le_bytes(b))
        } else {
            None
        }
    }

    open spec fn wfm(m: u32) -> bool {
        true
    }

    proof fn lemma_round_trip(m: u32) {
        lemma_auto_spec_u32_to_from_le_bytes();
    }

    fn to_bytes(&self) -> (r: Vec<u8>) {
        proof {
            lemma_auto_spec_u32_to_from_le_bytes();
        }
        u32_to_le_bytes(*self)
    }

    fn from_bytes(b: &[u8]) -> (r: Result<Self, DbError>) {
        if b.len() == 4 {
            Ok(u32_from_le_bytes(b))
        } else {
            Err(DbError::CorruptData)
        }
    }

    fn dup(&self) -> (r: Self) {
        *self
    }
}

impl DbKey for u32 {
    open spec fn le(a: u32, b: u32) -> bool {
        a <= b
    }

    proof fn lemma_order(a: u32, b: u32, c: u32) {
    }

    fn le_exec(&self, other: &Self) -> (r: bool) {
        *self <= *other
    }
}

impl DbValue for u64 {
    open spec fn encm(m: u64) -> Seq<u8> {
        spec_u64_to_le_bytes(m)
    }

    open spec fn decm(b: Seq<u8>) -> Option<u64> {
        if b.len() == 8 {
            Some(spec_u64_from_le_bytes(b))
        } else {
            None
        }
    }

    open spec fn wfm(m: u64) -> bool {
        true
    }

    proof fn lemma_round_trip(m: u64) {
        lemma_auto_spec_u64_to_from_le_bytes();
    }

    fn to_bytes(&self) -> (r: Vec<u8>) {
        proof {
            lemma_auto_spec_u64_to_from_le_bytes();
        }
        u64_to_le_bytes(*self)
    }

    fn from_bytes(b: &[u8]) -> (r: Result<Self, DbError>) {
        if b.len() == 8 {
            Ok(u64_from_le_bytes(b))
        } else {
            Err(DbError::CorruptData)
        }
    }

    fn dup(&self) -> (r: Self) {
        *self
    }
}

impl DbKey for u64 {
    open spec fn le(a: u64, b: u64) -> bool {
        a <= b
    }

    proof fn lemma_order(a: u64, b: u64, c: u64) {
    }

    fn le_exec(&self, other: &Self) -> (r: bool) {
        *self <= *other
    }
}

// ---------------------------------------------------------------------------
// Strings: a u64 length prefix, then the text's UTF-8 bytes.
// ---------------------------------------------------------------------------

#[verifier::external_type_specification]
#[verifier::external_body]
pub struct ExUtf8Error(core::str::Utf8Error);

/// Relies on `core::str::from_utf8`: it returns the byte slice reinterpreted
/// as text exactly when the bytes are valid UTF-8.
pub assume_specification[ core::str::from_utf8 ](v: &[u8]) -> (r: Result<&str, core::str::Utf8Error>)
    ensures
        match r {
            Ok(s) => s.spec_bytes() == v@,
            Err(_) => !vstd::utf8::valid_utf8(v@),
        },
;

/// Text models whose UTF-8 form fits the 64-bit length prefix; every runtime
/// string satisfies this.
pub open spec fn wf_str(m: Seq<char>) -> bool {
    vstd::utf8::encode_utf8(m).len() < 0x1_0000_0000_0000_0000
}

/// The encoding of a text model: the UTF-8 byte length, then the UTF-8 bytes.
pub open spec fn enc_str(m: Seq<char>) -> Seq<u8> {
    spec_u64_to_le_bytes(vstd::utf8::encode_utf8(m).len() as u64) + vstd::utf8::encode_utf8(m)
}

/// Reads one encoded text from position `i` of `b`: the decoded model and the
/// position just past it, or nothing if no encoded text starts there.
pub open spec fn dec_str_at(b: Seq<u8>, i: int) -> Option<(Seq<char>, int)> {
    if 0 <= i && i + 8 <= b.len() {
        let n = spec_u64_from_le_bytes(b.subrange(i, i + 8)) as int;
        if i + 8 + n <= b.len() && vstd::utf8::valid_utf8(b.subrange(i + 8, i + 8 + n)) {
            Some((vstd::utf8::decode_utf8(b.subrange(i + 8, i + 8 + n)), i + 8 + n))
        } else {
            None
        }
    } else {
        None
    }
}

/// Wherever an encoded text is embedded, reading at its start yields back the
/// text and stops just past it.
pub proof fn lemma_dec_str_at(b: Seq<u8>, i: int, m: Seq<char>)
    requires
        wf_str(m),
        0 <= i,
        i + enc_str(m).len() <= b.len(),
        b.subrange(i, i + enc_str(m).len() as int) == enc_str(m),
    ensures
        dec_str_at(b, i) == Some((m, i + enc_str(m).len())),
{
    lemma_auto_spec_u64_to_from_le_bytes();
    let body = vstd::utf8::encode_utf8(m);
    let n = body.len() as int;
    assert(b.subrange(i, i + 8) =~= enc_str(m).subrange(0, 8));
    assert(enc_str(m).subrange(0, 8) =~= spec_u64_to_le_bytes(n as u64));
    assert(spec_u64_from_le_bytes(b.subrange(i, i + 8)) == n as u64);
    assert(b.subrange(i + 8, i + 8 + n) =~= enc_str(m).subrange(8, 8 + n));
    assert(enc_str(m).subrange(8, 8 + n) =~= body);
    vstd::utf8::encode_utf8_valid_utf8(m);
    vstd::utf8::encode_utf8_decode_utf8(m);
}

/// Reads one encoded text from position `pos` of `b`, as `dec_str_at` says.
pub fn parse_str_at(b: &[u8], pos: usize) -> (r: Option<(String, usize)>)
    ensures
        match r {
            Some(sp) => {
                &&& dec_str_at(b@, pos as int) == Some((sp.0@, sp.1 as int))
                &&& pos <= sp.1 <= b@.len()
                &&& wf_str(sp.0@)
            },
            None => dec_str_at(b@, pos as int) is None,
        },
{
    if pos > b.len() || b.len() - pos < 8 {
        return None;
    }
    let n64 = u64_from_le_bytes(slice_subrange(b, pos, pos + 8));
    let rem = b.len() - (pos + 8);
    if n64 > rem as u64 {
        return None;
    }
    let n = n64 as usize;
    let body = slice_subrange(b, pos + 8, pos + 8 + n);
    match core::str::from_utf8(body) {
        Ok(s) => {
            proof {
                vstd::utf8::encode_utf8_valid_utf8(s@);
                vstd::utf8::encode_utf8_decode_utf8(s@);
            }
            Some((s.to_owned(), pos + 8 + n))
        },
        Err(_) => None,
    }
}

impl DbValue for String {
    open spec fn encm(m: Seq<char>) -> Seq<u8> {
        enc_str(m)
    }

    open spec fn decm(b: Seq<u8>) -> Option<Seq<char>> {
        match dec_str_at(b, 0) {
            Some(sp) => if sp.1 == b.len() {
                Some(sp.0)
            } else {
                None
            },
            None => None,
        }
    }

    open spec fn wfm(m: Seq<char>) -> bool {
        wf_str(m)
    }

    proof fn lemma_round_trip(m: Seq<char>) {
        let e = enc_str(m);
        assert(e.subrange(0, e.len() as int) =~= e);
        lemma_dec_str_at(e, 0, m);
    }

    fn to_bytes(&self) -> (r: Vec<u8>) {
        let bs = self.as_str().as_bytes();
        let n: u64 = bs.len() as u64;
        let mut r = u64_to_le_bytes(n);
        r.extend_from_slice(bs);
        proof {
            assert(r@ =~= enc_str(self@));
        }
        r
    }

    fn from_bytes(b: &[u8]) -> (r: Result<Self, DbError>) {
        match parse_str_at(b, 0) {
            Some(sp) => {
                if sp.1 == b.len() {
                    Ok(sp.0)
                } else {
                    Err(DbError::CorruptData)
                }
            },
            None => Err(DbError::CorruptData),
        }
    }

    fn dup(&self) -> (r: Self) {
        self.clone()
    }
}

/// Reads one encoded `u32` from position `i` of `b`.
pub open spec fn dec_u32_at(b: Seq<u8>, i: int) -> Option<(u32, int)> {
    if 0 <= i && i + 4 <= b.len() {
        Some((spec_u32_from_le_bytes(b.subrange(i, i + 4)), i + 4))
    } else {
        None
    }
}

/// Reads one encoded `u64` from position `i` of `b`.
pub open spec fn dec_u64_at(b: Seq<u8>, i: int) -> Option<(u64, int)> {
    if 0 <= i && i + 8 <= b.len() {
        Some((spec_u64_from_le_bytes(b.subrange(i, i + 8)), i + 8))
    } else {
        None
    }
}

/// Wherever an encoded `u32` is embedded, reading at its start yields it.
pub proof fn lemma_dec_u32_at(b: Seq<u8>, i: int, x: u32)
    requires
        0 <= i,
        i + 4 <= b.len(),
        b.subrange(i, i + 4) == spec_u32_to_le_bytes(x),
    ensures
        dec_u32_at(b, i) == Some((x, i + 4)),
{
    lemma_auto_spec_u32_to_from_le_bytes();
    assert(spec_u32_to_le_bytes(x).len() == 4);
    assert(spec_u32_from_le_bytes(spec_u32_to_le_bytes(x)) == x);
}

/// Wherever an encoded `u64` is embedded, reading at its start yields it.
pub proof fn lemma_dec_u64_at(b: Seq<u8>, i: int, x: u64)
    requires
        0 <= i,
        i + 8 <= b.len(),
        b.subrange(i, i + 8) == spec_u64_to_le_bytes(x),
    ensures
        dec_u64_at(b, i) == Some((x, i + 8)),
{
    lemma_auto_spec_u64_to_from_le_bytes();
    assert(spec_u64_to_le_bytes(x).len() == 8);
    assert(spec_u64_from_le_bytes(spec_u64_to_le_bytes(x)) == x);
}

/// Reads one encoded `u32` from position `pos` of `b`.
pub fn parse_u32_at(b: &[u8], pos: usize) -> (r: Option<(u32, usize)>)
    ensures
        match r {
            Some(xp) => dec_u32_at(b@, pos as int) == Some((xp.0, xp.1 as int)) && pos <= xp.1
                <= b@.len(),
            None => dec_u32_at(b@, pos as int) is None,
        },
{
    if pos > b.len() || b.len() - pos < 4 {
        return None;
    }
    Some((u32_from_le_bytes(slice_subrange(b, pos, pos + 4)), pos + 4))
}

/// Reads one encoded `u64` from position `pos` of `b`.
pub fn parse_u64_at(b: &[u8], pos: usize) -> (r: Option<(u64, usize)>)
    ensures
        match r {
            Some(xp) => dec_u64_at(b@, pos as int) == Some((xp.0, xp.1 as int)) && pos <= xp.1
                <= b@.len(),
            None => dec_u64_at(b@, pos as int) is None,
        },
{
    if pos > b.len() || b.len() - pos < 8 {
        return None;
    }
    Some((u64_from_le_bytes(slice_subrange(b, pos, pos + 8)), pos + 8))
}

/// Lexicographic order on byte strings.
pub open spec fn bytes_le(a: Seq<u8>, b: Seq<u8>) -> bool
    decreases a.len(),
{
    if a.len() == 0 {
        true
    } else if b.len() == 0 {
        false
    } else if a[0] == b[0] {
        bytes_le(a.drop_first(), b.drop_first())
    } else {
        a[0] < b[0]
    }
}

pub proof fn lemma_bytes_le_refl(a: Seq<u8>)
    ensures
        bytes_le(a, a),
    decreases a.len(),
{
    if a.len() > 0 {
        lemma_bytes_le_refl(a.drop_first());
    }
}

pub proof fn lemma_bytes_le_antisym(a: Seq<u8>, b: Seq<u8>)
    requires
        bytes_le(a, b),
        bytes_le(b, a),
    ensures
        a == b,
    decreases a.len(),
{
    if a.len() == 0 {
        assert(a =~= b);
    } else if b.len() == 0 {
        assert(false);
    } else if a[0] == b[0] {
        lemma_bytes_le_antisym(a.drop_first(), b.drop_first());
        assert(a.drop_first().len() == a.len() - 1);
        assert(b.drop_first().len() == b.len() - 1);
        assert(a.len() == b.len());
        assert forall|i: int| 0 <= i < a.len() implies a[i] == b[i] by {
            if i > 0 {
                assert(a[i] == a.drop_first()[i - 1]);
                assert(b[i] == b.drop_first()[i - 1]);
            }
        }
        assert(a =~= b);
    } else {
        assert(false);
    }
}

pub proof fn lemma_bytes_le_trans(a: Seq<u8>, b: Seq<u8>, c: Seq<u8>)
    requires
        bytes_le(a, b),
        bytes_le(b, c),
    ensures
        bytes_le(a, c),
    decreases a.len(),
{
    if a.len() == 0 || b.len() == 0 || c.len() == 0 {
    } else if a[0] == b[0] && b[0] == c[0] {
        lemma_bytes_le_trans(a.drop_first(), b.drop_first(), c.drop_first());
    }
}

pub proof fn lemma_bytes_le_total(a: Seq<u8>, b: Seq<u8>)
    ensures
        bytes_le(a, b) || bytes_le(b, a),
    decreases a.len(),
{
    if a.len() == 0 || b.len() == 0 {
    } else if a[0] == b[0] {
        lemma_bytes_le_total(a.drop_first(), b.drop_first());
    }
}

/// Decides `bytes_le` on two byte slices.
pub fn bytes_le_exec(a: &[u8], b: &[u8]) -> (r: bool)
    ensures
        r == bytes_le(a@, b@),
{
    let alen = a.len();
    let blen = b.len();
    let mut i: usize = 0;
    proof {
        assert(a@.skip(0) =~= a@);
        assert(b@.skip(0) =~= b@);
    }
    loop
        invariant
            i <= alen,
            i <= blen,
            alen == a@.len(),
            blen == b@.len(),
            bytes_le(a@, b@) == bytes_le(a@.skip(i as int), b@.skip(i as int)),
        decreases alen - i,
    {
        if i == alen {
            return true;
        }
        if i == blen {
            return false;
        }
        let ca = *vstd::slice::slice_index_get(a, i);
        let cb = *vstd::slice::slice_index_get(b, i);
        if ca != cb {
            return ca < cb;
        }
        proof {
            assert(a@.skip(i as int).drop_first() =~= a@.skip(i as int + 1));
            assert(b@.skip(i as int).drop_first() =~= b@.skip(i as int + 1));
        }
        i = i + 1;
    }
}

/// Lexicographic order on text models, by code point.
pub open spec fn str_le(a: Seq<char>, b: Seq<char>) -> bool
    decreases a.len(),
{
    if a.len() == 0 {
        true
    } else if b.len() == 0 {
        false
    } else if a[0] == b[0] {
        str_le(a.drop_first(), b.drop_first())
    } else {
        (a[0] as u32) < (b[0] as u32)
    }
}

pub proof fn lemma_str_le_refl(a: Seq<char>)
    ensures
        str_le(a, a),
    decreases a.len(),
{
    if a.len() > 0 {
        lemma_str_le_refl(a.drop_first());
    }
}

pub proof fn lemma_str_le_antisym(a: Seq<char>, b: Seq<char>)
    requires
        str_le(a, b),
        str_le(b, a),
    ensures
        a == b,
    decreases a.len(),
{
    if a.len() == 0 {
        assert(a =~= b);
    } else if b.len() == 0 {
        assert(false);
    } else if a[0] == b[0] {
        lemma_str_le_antisym(a.drop_first(), b.drop_first());
        assert forall|i: int| 0 <= i < a.len() implies a[i] == b[i] by {
            if i > 0 {
                assert(a[i] == a.drop_first()[i - 1]);
                assert(b[i] == b.drop_first()[i - 1]);
            }
        }
        assert(a =~= b);
    } else {
        assert(false);
    }
}

pub proof fn lemma_str_le_trans(a: Seq<char>, b: Seq<char>, c: Seq<char>)
    requires
        str_le(a, b),
        str_le(b, c),
    ensures
        str_le(a, c),
    decreases a.len(),
{
    if a.len() == 0 || b.len() == 0 || c.len() == 0 {
    } else {
        if a[0] == b[0] && b[0] == c[0] {
            lemma_str_le_trans(a.drop_first(), b.drop_first(), c.drop_first());
        } else {
            vstd::utf8::char_u32_cast(a[0], a[0] as u32);
            vstd::utf8::char_u32_cast(c[0], c[0] as u32);
        }
    }
}

pub proof fn lemma_str_le_total(a: Seq<char>, b: Seq<char>)
    ensures
        str_le(a, b) || str_le(b, a),
    decreases a.len(),
{
    if a.len() == 0 || b.len() == 0 {
    } else if a[0] == b[0] {
        lemma_str_le_total(a.drop_first(), b.drop_first());
    } else {
        vstd::utf8::char_u32_cast(a[0], a[0] as u32);
        vstd::utf8::char_u32_cast(b[0], b[0] as u32);
    }
}

/// Decides `str_le` on two text slices.
pub fn str_le_exec(a: &str, b: &str) -> (r: bool)
    ensures
        r == str_le(a@, b@),
{
    let alen = a.unicode_len();
    let blen = b.unicode_len();
    let mut i: usize = 0;
    proof {
        assert(a@.skip(0) =~= a@);
        assert(b@.skip(0) =~= b@);
    }
    loop
        invariant
            i <= alen,
            i <= blen,
            alen == a@.len(),
            blen == b@.len(),
            str_le(a@, b@) == str_le(a@.skip(i as int), b@.skip(i as int)),
        decreases alen - i,
    {
        if i == alen {
            return true;
        }
        if i == blen {
            return false;
        }
        let ca = a.get_char(i);
        let cb = b.get_char(i);
        if ca != cb {
            return (ca as u32) < (cb as u32);
        }
        proof {
            assert(a@.skip(i as int).drop_first() =~= a@.skip(i as int + 1));
            assert(b@.skip(i as int).drop_first() =~= b@.skip(i as int + 1));
        }
        i = i + 1;
    }
}

impl DbKey for String {
    open spec fn le(a: Seq<char>, b: Seq<char>) -> bool {
        str_le(a, b)
    }

    proof fn lemma_order(a: Seq<char>, b: Seq<char>, c: Seq<char>) {
        lemma_str_le_refl(a);
        if str_le(a, b) && str_le(b, a) {
            lemma_str_le_antisym(a, b);
        }
        if str_le(a, b) && str_le(b, c) {
            lemma_str_le_trans(a, b, c);
        }
        lemma_str_le_total(a, b);
    }

    fn le_exec(&self, other: &Self) -> (r: bool) {
        str_le_exec(self.as_str(), other.as_str())
    }
}

} // verus!
