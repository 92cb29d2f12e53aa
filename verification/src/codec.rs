//! The stored form of log entries and table rows.
//!
//! Every record is written field by field with `bincode` in its fixed-width
//! form: integers little-endian, a byte string or a text as its length in
//! eight bytes and then its bytes, an `Option` as one tag byte and then the
//! value, an enum as its variant number in four bytes and then the fields. A
//! record's bytes are its fields' bytes one after the other, so records are
//! put together and taken apart here field by field.

use vstd::prelude::*;
use vstd::slice::slice_subrange;
use vstd::string::*;
use vstd::utf8::{encode_utf8, valid_utf8};

use crate::bytes::{append, from_le, le, lemma_from_le_le, lemma_le_from_le,
    lemma_le_len, lemma_pow256_widths, opt_view};

verus! {

/// A byte string's stored form.
pub open spec fn enc_bytes(v: Seq<u8>) -> Seq<u8> {
    le(v.len(), 8) + v
}

/// The byte string that a record begins with, and what follows it.
pub open spec fn bytes_at(data: Seq<u8>) -> Option<(Seq<u8>, Seq<u8>)> {
    let n = from_le(data.take(8));
    if data.len() >= 8 && data.len() - 8 >= n {
        Some((data.subrange(8, 8 + n as int), data.skip(8 + n as int)))
    } else {
        None
    }
}

/// A boolean's stored form, and an `Option`'s tag.
pub open spec fn enc_bool(b: bool) -> Seq<u8> {
    seq![if b { 1u8 } else { 0u8 }]
}

/// An optional byte string's stored form.
pub open spec fn enc_opt_bytes(v: Option<Seq<u8>>) -> Seq<u8> {
    match v {
        Some(x) => enc_bool(true) + enc_bytes(x),
        None => enc_bool(false),
    }
}

/// `bincode::serialize` of a `u64`: its eight bytes, least significant first.
#[verifier::external_body]
fn ser_u64(x: u64) -> (out: Vec<u8>)
    ensures
        out@ == le(x as nat, 8),
{
    bincode::serialize(&x).expect("an integer always serializes")
}

/// `bincode::serialize` of a `u32`: its four bytes, least significant first.
#[verifier::external_body]
fn ser_u32(x: u32) -> (out: Vec<u8>)
    ensures
        out@ == le(x as nat, 4),
{
    bincode::serialize(&x).expect("an integer always serializes")
}

/// `bincode::serialize` of a `bool`: the byte 1 or the byte 0.
#[verifier::external_body]
fn ser_bool(b: bool) -> (out: Vec<u8>)
    ensures
        out@ == enc_bool(b),
{
    bincode::serialize(&b).expect("a boolean always serializes")
}

/// `bincode::serialize` of a byte string: its length in eight bytes, least
/// significant first, and then its bytes.
#[verifier::external_body]
fn ser_bytes(v: &[u8]) -> (out: Vec<u8>)
    ensures
        out@ == enc_bytes(v@),
{
    bincode::serialize(v).expect("a byte string always serializes")
}

/// `bincode::deserialize` of a `u64`: the first eight bytes, least significant
/// first. It fails when there are fewer, and whatever follows them is left.
#[verifier::external_body]
fn de_u64(data: &[u8]) -> (x: Option<u64>)
    ensures
        x is Some == (data@.len() >= 8),
        x matches Some(v) ==> v as nat == from_le(data@.take(8)),
{
    bincode::deserialize::<u64>(data).ok()
}

/// `bincode::deserialize` of a `u32`: the first four bytes, least significant
/// first. It fails when there are fewer, and whatever follows them is left.
#[verifier::external_body]
fn de_u32(data: &[u8]) -> (x: Option<u32>)
    ensures
        x is Some == (data@.len() >= 4),
        x matches Some(v) ==> v as nat == from_le(data@.take(4)),
{
    bincode::deserialize::<u32>(data).ok()
}

/// `bincode::deserialize` of a `bool`: the first byte, which has to be 1 or 0.
#[verifier::external_body]
fn de_bool(data: &[u8]) -> (x: Option<bool>)
    ensures
        x is Some == (data@.len() >= 1 && data@[0] <= 1),
        x matches Some(b) ==> b == (data@[0] == 1),
{
    bincode::deserialize::<bool>(data).ok()
}

/// `bincode::deserialize` of a byte string: eight bytes of length, least
/// significant first, and that many bytes. It fails when there are fewer.
#[verifier::external_body]
fn de_bytes(data: &[u8]) -> (x: Option<Vec<u8>>)
    ensures
        x is Some == (data@.len() >= 8 && data@.len() - 8 >= from_le(data@.take(8))),
        x matches Some(v) ==> v@ == data@.subrange(8, 8 + from_le(data@.take(8)) as int),
{
    bincode::deserialize::<Vec<u8>>(data).ok()
}

/// `String::from_utf8`: the text whose UTF-8 form the bytes are, and nothing
/// when they are not valid UTF-8.
#[verifier::external_body]
pub(crate) fn text_of(v: Vec<u8>) -> (s: Option<String>)
    ensures
        s is Some == valid_utf8(v@),
        s matches Some(t) ==> encode_utf8(t@) == v@,
{
    String::from_utf8(v).ok()
}

/// The UTF-8 form of a text.
pub fn bytes_of(s: &str) -> (v: Vec<u8>)
    ensures
        v@ == encode_utf8(s@),
{
    crate::bytes::copy_all(s.as_bytes())
}

pub fn put_u64(out: &mut Vec<u8>, x: u64)
    ensures
        final(out)@ == old(out)@ + le(x as nat, 8),
{
    let field = ser_u64(x);
    append(out, &field);
}

pub fn put_u32(out: &mut Vec<u8>, x: u32)
    ensures
        final(out)@ == old(out)@ + le(x as nat, 4),
{
    let field = ser_u32(x);
    append(out, &field);
}

pub fn put_bool(out: &mut Vec<u8>, b: bool)
    ensures
        final(out)@ == old(out)@ + enc_bool(b),
{
    let field = ser_bool(b);
    append(out, &field);
}

pub fn put_bytes(out: &mut Vec<u8>, v: &[u8])
    ensures
        final(out)@ == old(out)@ + enc_bytes(v@),
{
    let field = ser_bytes(v);
    append(out, &field);
}

/// Two records that agree from their first byte on agree in their first
/// `width`-byte number, and in what follows it.
pub proof fn lemma_le_prefix(x: nat, y: nat, width: nat, r: Seq<u8>, t: Seq<u8>)
    requires
        x < crate::bytes::pow256(width),
        y < crate::bytes::pow256(width),
        le(x, width) + r == le(y, width) + t,
    ensures
        x == y,
        r == t,
{
    lemma_le_len(x, width);
    lemma_le_len(y, width);
    assert(le(x, width) =~= (le(x, width) + r).take(width as int));
    assert(le(y, width) =~= (le(y, width) + t).take(width as int));
    assert(r =~= (le(x, width) + r).skip(width as int));
    assert(t =~= (le(y, width) + t).skip(width as int));
    lemma_from_le_le(x, width);
    lemma_from_le_le(y, width);
}

/// The same of a byte string at the head of two records.
pub proof fn lemma_bytes_prefix(a: Seq<u8>, b: Seq<u8>, r: Seq<u8>, t: Seq<u8>)
    requires
        a.len() <= u64::MAX,
        b.len() <= u64::MAX,
        enc_bytes(a) + r == enc_bytes(b) + t,
    ensures
        a == b,
        r == t,
{
    lemma_pow256_widths();
    assert(enc_bytes(a) + r =~= le(a.len(), 8) + (a + r));
    assert(enc_bytes(b) + t =~= le(b.len(), 8) + (b + t));
    lemma_le_prefix(a.len(), b.len(), 8, a + r, b + t);
    assert(a =~= (a + r).take(a.len() as int));
    assert(b =~= (b + t).take(a.len() as int));
    assert(r =~= (a + r).skip(a.len() as int));
    assert(t =~= (b + t).skip(a.len() as int));
}

/// The same of an optional byte string.
pub proof fn lemma_opt_bytes_prefix(
    a: Option<Seq<u8>>,
    b: Option<Seq<u8>>,
    r: Seq<u8>,
    t: Seq<u8>,
)
    requires
        a matches Some(x) ==> x.len() <= u64::MAX,
        b matches Some(x) ==> x.len() <= u64::MAX,
        enc_opt_bytes(a) + r == enc_opt_bytes(b) + t,
    ensures
        a == b,
        r == t,
{
    assert((enc_opt_bytes(a) + r)[0] == enc_opt_bytes(a)[0]);
    assert((enc_opt_bytes(b) + t)[0] == enc_opt_bytes(b)[0]);
    match (a, b) {
        (Some(x), Some(y)) => {
            assert((enc_opt_bytes(a) + r).skip(1) =~= enc_bytes(x) + r);
            assert((enc_opt_bytes(b) + t).skip(1) =~= enc_bytes(y) + t);
            lemma_bytes_prefix(x, y, r, t);
        },
        (None, None) => {
            assert((enc_opt_bytes(a) + r).skip(1) =~= r);
            assert((enc_opt_bytes(b) + t).skip(1) =~= t);
        },
        _ => {},
    }
}

/// Takes a `u64` off the front of a record; `None` when it ends too early.
pub fn get_u64<'a>(data: &'a [u8]) -> (r: Option<(u64, &'a [u8])>)
    ensures
        match r {
            Some((v, rest)) => {
                &&& data@ == le(v as nat, 8) + rest@
                &&& data@.len() >= 8
                &&& v as nat == from_le(data@.take(8))
                &&& rest@ == data@.skip(8)
            },
            None => data@.len() < 8,
        },
{
    let v = de_u64(data)?;
    let rest = slice_subrange(data, 8, data.len());
    proof {
        lemma_le_from_le(data@.take(8));
        assert(data@ =~= data@.take(8) + rest@);
    }
    Some((v, rest))
}

/// Takes a `u32` off the front of a record; `None` when it ends too early.
pub fn get_u32<'a>(data: &'a [u8]) -> (r: Option<(u32, &'a [u8])>)
    ensures
        match r {
            Some((v, rest)) => {
                &&& data@ == le(v as nat, 4) + rest@
                &&& data@.len() >= 4
                &&& v as nat == from_le(data@.take(4))
                &&& rest@ == data@.skip(4)
            },
            None => data@.len() < 4,
        },
{
    let v = de_u32(data)?;
    let rest = slice_subrange(data, 4, data.len());
    proof {
        lemma_le_from_le(data@.take(4));
        assert(data@ =~= data@.take(4) + rest@);
    }
    Some((v, rest))
}

/// Takes a boolean off the front of a record; `None` when there is none.
pub fn get_bool<'a>(data: &'a [u8]) -> (r: Option<(bool, &'a [u8])>)
    ensures
        match r {
            Some((v, rest)) => data@ == enc_bool(v) + rest@,
            None => data@.len() == 0 || data@[0] > 1,
        },
{
    let v = de_bool(data)?;
    let rest = slice_subrange(data, 1, data.len());
    assert(data@ =~= enc_bool(v) + rest@);
    Some((v, rest))
}

/// Takes a byte string off the front of a record; `None` when the record does
/// not begin with one.
pub fn get_bytes<'a>(data: &'a [u8]) -> (r: Option<(Vec<u8>, &'a [u8])>)
    ensures
        match r {
            Some((v, rest)) => {
                &&& data@ == enc_bytes(v@) + rest@
                &&& v@.len() <= u64::MAX
                &&& Some((v@, rest@)) == bytes_at(data@)
            },
            None => {
                &&& forall|v: Seq<u8>, rest: Seq<u8>| data@ != #[trigger] (enc_bytes(v) + rest)
                &&& bytes_at(data@) is None
            },
        },
{
    proof {
        lemma_pow256_widths();
    }
    let n = data.len();
    match de_bytes(data) {
        Some(v) => {
            proof {
                lemma_le_from_le(data@.take(8));
            }
            let rest = slice_subrange(data, 8 + v.len(), n);
            assert(data@ =~= data@.take(8) + v@ + rest@);
            assert(rest@ =~= data@.skip(8 + from_le(data@.take(8)) as int));
            Some((v, rest))
        },
        None => {
            proof {
                assert forall|v: Seq<u8>, rest: Seq<u8>|
                    data@ != #[trigger] (enc_bytes(v) + rest) by {
                    if data@ == enc_bytes(v) + rest {
                        lemma_le_len(v.len(), 8);
                        assert(data@.take(8) =~= le(v.len(), 8));
                        lemma_from_le_le(v.len(), 8);
                    }
                }
            }
            None
        },
    }
}

/// Takes an optional byte string off the front of a record; `None` when the
/// record does not begin with one.
pub fn get_opt_bytes<'a>(data: &'a [u8]) -> (r: Option<(Option<Vec<u8>>, &'a [u8])>)
    ensures
        match r {
            Some((v, rest)) => {
                &&& data@ == enc_opt_bytes(opt_view(v)) + rest@
                &&& v matches Some(x) ==> x@.len() <= u64::MAX
            },
            None => forall|v: Option<Seq<u8>>, rest: Seq<u8>|
                data@ != #[trigger] (enc_opt_bytes(v) + rest),
        },
{
    match get_bool(data) {
        None => {
            proof {
                assert forall|v: Option<Seq<u8>>, rest: Seq<u8>|
                    data@ != #[trigger] (enc_opt_bytes(v) + rest) by {
                    assert((enc_opt_bytes(v) + rest)[0] == enc_opt_bytes(v)[0]);
                }
            }
            None
        },
        Some((false, rest)) => {
            assert(data@ =~= enc_opt_bytes(None) + rest@);
            Some((None, rest))
        },
        Some((true, rest)) => match get_bytes(rest) {
            Some((v, tail)) => {
                assert(data@ =~= enc_opt_bytes(Some(v@)) + tail@);
                Some((Some(v), tail))
            },
            None => {
                proof {
                    assert forall|v: Option<Seq<u8>>, t: Seq<u8>|
                        data@ != #[trigger] (enc_opt_bytes(v) + t) by {
                        if data@ == enc_opt_bytes(v) + t {
                            assert(data@[0] == enc_opt_bytes(v)[0]);
                            assert(data@[0] == 1u8);
                            assert(data@.skip(1) =~= rest@);
                            assert((enc_opt_bytes(v) + t).skip(1) =~= enc_bytes(v->0) + t);
                        }
                    }
                }
                None
            },
        },
    }
}

/// A stored byte string is read back, with whatever stands behind it left; a flag
/// is one byte, 1 for true; and a missing byte string is told from an empty one.
pub proof fn law_stored_bytes_are_read_back(v: Seq<u8>, rest: Seq<u8>)
    requires
        v.len() <= u64::MAX,
    ensures
        bytes_at(enc_bytes(v) + rest) == Some((v, rest)),
        enc_bytes(v).len() == 8 + v.len(),
        enc_bool(true) == seq![1u8],
        enc_bool(false) == seq![0u8],
        enc_opt_bytes(Some(v)) == seq![1u8] + enc_bytes(v),
        enc_opt_bytes(None) == seq![0u8],
{
    lemma_pow256_widths();
    lemma_le_len(v.len(), 8);
    lemma_from_le_le(v.len(), 8);
    let data = enc_bytes(v) + rest;
    assert(data.take(8) =~= le(v.len(), 8));
    assert(data.subrange(8, 8 + v.len() as int) =~= v);
    assert(data.skip(8 + v.len() as int) =~= rest);
}

/// A number and a flag that are written are read back, with what follows them
/// left; and a byte string is written as [`enc_bytes`] says.
pub proof fn law_what_is_written_is_read(
    x: u64,
    flag: bool,
    v: &[u8],
    before: Vec<u8>,
    number: Vec<u8>,
    switch: Vec<u8>,
    string: Vec<u8>,
    u: ((), (), ()),
    data: (&[u8], &[u8]),
    read: Option<(u64, &[u8])>,
    told: Option<(bool, &[u8])>,
    rest: Seq<u8>,
)
    requires
        before@.len() == 0,
        exists|out: &mut Vec<u8>| #[trigger]
            call_ensures(put_u64, (out, x), u.0) && *out == before && *final(out) == number,
        exists|out: &mut Vec<u8>| #[trigger]
            call_ensures(put_bool, (out, flag), u.1) && *out == before && *final(out) == switch,
        exists|out: &mut Vec<u8>| #[trigger]
            call_ensures(put_bytes, (out, v), u.2) && *out == before && *final(out) == string,
        data.0@ == number@ + rest,
        data.1@ == switch@ + rest,
        call_ensures(get_u64, (data.0,), read),
        call_ensures(get_bool, (data.1,), told),
    ensures
        read matches Some((y, left)) && y == x && left@ == rest,
        told matches Some((f, left)) && f == flag && left@ == rest,
        v@.len() <= u64::MAX ==> bytes_at(string@ + rest) == Some((v@, rest)),
{
    lemma_pow256_widths();
    lemma_le_len(x as nat, 8);
    lemma_from_le_le(x as nat, 8);
    assert(before@ + le(x as nat, 8) =~= le(x as nat, 8));
    assert(before@ + enc_bool(flag) =~= enc_bool(flag));
    assert(before@ + enc_bytes(v@) =~= enc_bytes(v@));
    assert(data.0@.take(8) =~= le(x as nat, 8));
    assert(data.0@.skip(8) =~= rest);
    if v@.len() <= u64::MAX {
        law_stored_bytes_are_read_back(v@, rest);
    }
    assert(data.1@[0] == enc_bool(flag)[0]);
    match told {
        Some((f, left)) => {
            assert(data.1@[0] == enc_bool(f)[0]);
            assert(f == flag);
            assert(left@ =~= data.1@.skip(1));
            assert(rest =~= data.1@.skip(1));
        },
        None => {},
    }
}

} // verus!
