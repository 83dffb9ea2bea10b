//! Tagged binary format for the values that the cache stores without the
//! help of an external serializer.
//!
//! A value is one tag byte and a payload: `1` none, `2` false, `3` true,
//! `4` a signed 64-bit integer (8 bytes, little-endian), `5` a 64-bit float
//! (its 8 bytes, little-endian), `6` a string (length as 4 bytes
//! little-endian, then UTF-8), `7` bytes (length as 4 bytes little-endian,
//! then the bytes), `8` a tuple (one count byte, then the elements). Tag `0`
//! marks bytes that an external serializer wrote.

use crate::shm::layout::{get_u32, get_u64, le_u32, le_u64};
use vstd::prelude::*;
use vstd::slice::slice_subrange;
use vstd::utf8::{decode_utf8, encode_utf8, valid_utf8};

verus! {

/// Tag of bytes written by an external serializer.
pub const TAG_PICKLE: u8 = 0;

/// Tag of the value none.
pub const TAG_NONE: u8 = 1;

/// Tag of the boolean false.
pub const TAG_FALSE: u8 = 2;

/// Tag of the boolean true.
pub const TAG_TRUE: u8 = 3;

/// Tag of a signed 64-bit integer.
pub const TAG_I64: u8 = 4;

/// Tag of a 64-bit float.
pub const TAG_F64: u8 = 5;

/// Tag of a string.
pub const TAG_STR: u8 = 6;

/// Tag of a byte string.
pub const TAG_BYTES: u8 = 7;

/// Tag of a tuple.
pub const TAG_TUPLE: u8 = 8;

/// A host value as the codec sees it.
#[derive(Debug)]
pub enum Value {
    /// The value none.
    Nil,
    /// A boolean. The host counts booleans among its integers; the codec
    /// does not.
    Bool(bool),
    /// An integer that fits in 64 bits.
    Int(i64),
    /// A 64-bit float, held as its bit pattern.
    Float(u64),
    /// A string.
    Str(String),
    /// A byte string.
    Bytes(Vec<u8>),
    /// A tuple of values.
    Tuple(Vec<Value>),
    /// A value for which the format has no tag, such as an integer that
    /// does not fit in 64 bits.
    Unsupported,
}

/// A value as the contracts see it.
pub enum Plain {
    Nil,
    Bool(bool),
    Int(i64),
    Float(u64),
    Str(Seq<char>),
    Bytes(Seq<u8>),
    Tuple(Seq<Plain>),
    Unsupported,
}

impl View for Value {
    type V = Plain;

    open spec fn view(&self) -> Plain
        decreases self,
    {
        match self {
            Value::Nil => Plain::Nil,
            Value::Bool(b) => Plain::Bool(*b),
            Value::Int(i) => Plain::Int(*i),
            Value::Float(bits) => Plain::Float(*bits),
            Value::Str(s) => Plain::Str(s@),
            Value::Bytes(b) => Plain::Bytes(b@),
            Value::Tuple(items) => Plain::Tuple(views(items@, items@.len() as int)),
            Value::Unsupported => Plain::Unsupported,
        }
    }
}

/// The views of the first `n` values of `items`.
pub open spec fn views(items: Seq<Value>, n: int) -> Seq<Plain>
    decreases items, n,
{
    if 0 < n <= items.len() {
        views(items, n - 1).push(items[n - 1]@)
    } else {
        Seq::empty()
    }
}

/// Why bytes do not decode to a value.
#[derive(Clone, Copy, Debug, PartialEq, Eq, Structural)]
pub enum CodecError {
    /// The bytes end before the value does.
    Truncated,
    /// A tag byte names no kind of value, or names externally serialized
    /// bytes inside a tuple.
    InvalidTag,
    /// The payload of a string is not UTF-8.
    InvalidUtf8,
}

impl CodecError {
    /// The text of the error.
    pub open spec fn text(self) -> Seq<char> {
        match self {
            CodecError::Truncated => "truncated payload"@,
            CodecError::InvalidTag => "invalid tag"@,
            CodecError::InvalidUtf8 => "invalid UTF-8"@,
        }
    }

    /// The text of the error.
    pub fn message(&self) -> (text: &'static str)
        ensures
            text@ == self.text(),
    {
        match self {
            CodecError::Truncated => "truncated payload",
            CodecError::InvalidTag => "invalid tag",
            CodecError::InvalidUtf8 => "invalid UTF-8",
        }
    }
}

/// The four bytes of `v`, least significant first.
pub open spec fn u32_le(v: u32) -> Seq<u8> {
    seq![
        (v & 0xff) as u8,
        ((v >> 8) & 0xff) as u8,
        ((v >> 16) & 0xff) as u8,
        ((v >> 24) & 0xff) as u8,
    ]
}

/// The eight bytes of `v`, least significant first.
pub open spec fn u64_le(v: u64) -> Seq<u8> {
    u32_le(v as u32) + u32_le((v >> 32) as u32)
}

/// The encoding of `v`, if the format has one: the value is of a kind with
/// a tag, a string or byte string is shorter than 2^32 bytes, and a tuple
/// has at most 255 elements, each with an encoding.
pub open spec fn encoded(v: Plain) -> Option<Seq<u8>>
    decreases v,
{
    match v {
        Plain::Nil => Some(seq![1u8]),
        Plain::Bool(b) => Some(
            seq![if b {
                3u8
            } else {
                2u8
            }],
        ),
        Plain::Int(i) => Some(seq![4u8] + u64_le(i as u64)),
        Plain::Float(bits) => Some(seq![5u8] + u64_le(bits)),
        Plain::Str(chars) => if encode_utf8(chars).len() <= u32::MAX {
            Some(seq![6u8] + u32_le(encode_utf8(chars).len() as u32) + encode_utf8(chars))
        } else {
            None
        },
        Plain::Bytes(bytes) => if bytes.len() <= u32::MAX {
            Some(seq![7u8] + u32_le(bytes.len() as u32) + bytes)
        } else {
            None
        },
        Plain::Tuple(items) => if items.len() <= 255 {
            match encoded_from(items, 0) {
                Some(body) => Some(seq![8u8, items.len() as u8] + body),
                None => None,
            }
        } else {
            None
        },
        Plain::Unsupported => None,
    }
}

/// The encodings of `items[i..]`, one after the other, if each has one.
pub open spec fn encoded_from(items: Seq<Plain>, i: int) -> Option<Seq<u8>>
    decreases items, items.len() - i,
{
    if 0 <= i < items.len() {
        match (encoded(items[i]), encoded_from(items, i + 1)) {
            (Some(a), Some(b)) => Some(a + b),
            _ => None,
        }
    } else {
        Some(Seq::empty())
    }
}

/// The value that `b` starts with and the number of bytes that it takes.
///
/// Bytes that end before the value does are `Truncated`. A tag above 8, and
/// the tag 0 of externally serialized bytes, which cannot be part of a
/// value, are `InvalidTag`. A string payload that is not UTF-8 is
/// `InvalidUtf8`.
pub open spec fn decoded(b: Seq<u8>) -> Result<(Plain, int), CodecError>
    decreases b.len(), 0int,
{
    if b.len() == 0 {
        Err(CodecError::Truncated)
    } else if b[0] == 1 {
        Ok((Plain::Nil, 1))
    } else if b[0] == 2 {
        Ok((Plain::Bool(false), 1))
    } else if b[0] == 3 {
        Ok((Plain::Bool(true), 1))
    } else if b[0] == 4 {
        if b.len() < 9 {
            Err(CodecError::Truncated)
        } else {
            Ok((Plain::Int(le_u64(b, 1) as i64), 9))
        }
    } else if b[0] == 5 {
        if b.len() < 9 {
            Err(CodecError::Truncated)
        } else {
            Ok((Plain::Float(le_u64(b, 1)), 9))
        }
    } else if b[0] == 6 {
        if b.len() < 5 || b.len() < 5 + le_u32(b, 1) {
            Err(CodecError::Truncated)
        } else if !valid_utf8(b.subrange(5, 5 + le_u32(b, 1))) {
            Err(CodecError::InvalidUtf8)
        } else {
            Ok((Plain::Str(decode_utf8(b.subrange(5, 5 + le_u32(b, 1)))), 5 + le_u32(b, 1)))
        }
    } else if b[0] == 7 {
        if b.len() < 5 || b.len() < 5 + le_u32(b, 1) {
            Err(CodecError::Truncated)
        } else {
            Ok((Plain::Bytes(b.subrange(5, 5 + le_u32(b, 1))), 5 + le_u32(b, 1)))
        }
    } else if b[0] == 8 {
        if b.len() < 2 {
            Err(CodecError::Truncated)
        } else {
            match decoded_many(b.subrange(2, b.len() as int), b[1] as int) {
                Ok((items, used)) => Ok((Plain::Tuple(items), 2 + used)),
                Err(e) => Err(e),
            }
        }
    } else {
        Err(CodecError::InvalidTag)
    }
}

/// The `count` values that `b` starts with and the number of bytes that
/// they take together.
pub open spec fn decoded_many(b: Seq<u8>, count: int) -> Result<(Seq<Plain>, int), CodecError>
    decreases b.len(), count + 1,
{
    if count <= 0 {
        Ok((Seq::empty(), 0))
    } else {
        match decoded(b) {
            Err(e) => Err(e),
            Ok((v, used)) => if 0 <= used <= b.len() {
                match decoded_many(b.subrange(used, b.len() as int), count - 1) {
                    Err(e) => Err(e),
                    Ok((rest, more)) => Ok((seq![v] + rest, used + more)),
                }
            } else {
                Err(CodecError::Truncated)
            },
        }
    }
}

/// Reading back what `u32_le` and `u64_le` wrote gives the number written.
pub proof fn lemma_le_round_trip(v32: u32, v64: u64, i: i64, head: Seq<u8>, tail: Seq<u8>)
    ensures
        le_u32(head + u32_le(v32) + tail, head.len() as int) == v32,
        le_u64(head + u64_le(v64) + tail, head.len() as int) == v64,
        (i as u64) as i64 == i,
{
    let b0 = (v32 & 0xff) as u8;
    let b1 = ((v32 >> 8) & 0xff) as u8;
    let b2 = ((v32 >> 16) & 0xff) as u8;
    let b3 = ((v32 >> 24) & 0xff) as u8;
    assert((b0 as u32) | (b1 as u32) << 8 | (b2 as u32) << 16 | (b3 as u32) << 24 == v32)
        by (bit_vector)
        requires
            b0 == (v32 & 0xff) as u8,
            b1 == ((v32 >> 8) & 0xff) as u8,
            b2 == ((v32 >> 16) & 0xff) as u8,
            b3 == ((v32 >> 24) & 0xff) as u8,
    ;
    let s32 = head + u32_le(v32) + tail;
    let k = head.len() as int;
    assert(s32[k] == b0 && s32[k + 1] == b1 && s32[k + 2] == b2 && s32[k + 3] == b3);
    let lo = v64 as u32;
    let hi = (v64 >> 32) as u32;
    let l0 = (lo & 0xff) as u8;
    let l1 = ((lo >> 8) & 0xff) as u8;
    let l2 = ((lo >> 16) & 0xff) as u8;
    let l3 = ((lo >> 24) & 0xff) as u8;
    let h0 = (hi & 0xff) as u8;
    let h1 = ((hi >> 8) & 0xff) as u8;
    let h2 = ((hi >> 16) & 0xff) as u8;
    let h3 = ((hi >> 24) & 0xff) as u8;
    assert((l0 as u32) | (l1 as u32) << 8 | (l2 as u32) << 16 | (l3 as u32) << 24 == lo)
        by (bit_vector)
        requires
            l0 == (lo & 0xff) as u8,
            l1 == ((lo >> 8) & 0xff) as u8,
            l2 == ((lo >> 16) & 0xff) as u8,
            l3 == ((lo >> 24) & 0xff) as u8,
    ;
    assert((h0 as u32) | (h1 as u32) << 8 | (h2 as u32) << 16 | (h3 as u32) << 24 == hi)
        by (bit_vector)
        requires
            h0 == (hi & 0xff) as u8,
            h1 == ((hi >> 8) & 0xff) as u8,
            h2 == ((hi >> 16) & 0xff) as u8,
            h3 == ((hi >> 24) & 0xff) as u8,
    ;
    assert((lo as u64) | (hi as u64) << 32 == v64) by (bit_vector)
        requires
            lo == v64 as u32,
            hi == (v64 >> 32) as u32,
    ;
    let s64 = head + u64_le(v64) + tail;
    assert(s64[k] == l0 && s64[k + 1] == l1 && s64[k + 2] == l2 && s64[k + 3] == l3);
    assert(s64[k + 4] == h0 && s64[k + 5] == h1 && s64[k + 6] == h2 && s64[k + 7] == h3);
    assert((i as u64) as i64 == i) by (bit_vector);
}

/// Decoding the encoding of a value gives the value back, whatever bytes
/// follow the encoding.
pub proof fn lemma_round_trip(v: Plain, tail: Seq<u8>)
    requires
        encoded(v).is_some(),
    ensures
        decoded(encoded(v).unwrap() + tail) == Ok::<(Plain, int), CodecError>(
            (v, encoded(v).unwrap().len() as int),
        ),
    decreases v,
{
    let e = encoded(v).unwrap();
    let b = e + tail;
    match v {
        Plain::Nil => {},
        Plain::Bool(x) => {},
        Plain::Int(i) => {
            lemma_le_round_trip(0, i as u64, i, seq![4u8], tail);
        },
        Plain::Float(bits) => {
            lemma_le_round_trip(0, bits, 0, seq![5u8], tail);
        },
        Plain::Str(chars) => {
            let payload = encode_utf8(chars);
            lemma_le_round_trip(payload.len() as u32, 0, 0, seq![6u8], payload + tail);
            assert(b =~= seq![6u8] + u32_le(payload.len() as u32) + (payload + tail));
            assert(b.subrange(5, 5 + payload.len() as int) =~= payload);
            vstd::utf8::encode_utf8_valid_utf8(chars);
            vstd::utf8::encode_utf8_decode_utf8(chars);
        },
        Plain::Bytes(bytes) => {
            lemma_le_round_trip(bytes.len() as u32, 0, 0, seq![7u8], bytes + tail);
            assert(b =~= seq![7u8] + u32_le(bytes.len() as u32) + (bytes + tail));
            assert(b.subrange(5, 5 + bytes.len() as int) =~= bytes);
        },
        Plain::Tuple(items) => {
            let body = encoded_from(items, 0).unwrap();
            lemma_round_trip_from(items, 0, tail);
            assert(b.subrange(2, b.len() as int) =~= body + tail);
            assert(items.subrange(0, items.len() as int) =~= items);
        },
        Plain::Unsupported => {},
    }
}

/// Decoding the encodings of `items[i..]` gives `items[i..]` back.
pub proof fn lemma_round_trip_from(items: Seq<Plain>, i: int, tail: Seq<u8>)
    requires
        0 <= i <= items.len(),
        encoded_from(items, i).is_some(),
    ensures
        decoded_many(encoded_from(items, i).unwrap() + tail, items.len() - i) == Ok::<
            (Seq<Plain>, int),
            CodecError,
        >((items.subrange(i, items.len() as int), encoded_from(items, i).unwrap().len() as int)),
    decreases items, items.len() - i,
{
    if i < items.len() {
        let a = encoded(items[i]).unwrap();
        let rest = encoded_from(items, i + 1).unwrap();
        let b = a + rest + tail;
        lemma_round_trip(items[i], rest + tail);
        assert(b =~= a + (rest + tail));
        lemma_round_trip_from(items, i + 1, tail);
        assert(b.subrange(a.len() as int, b.len() as int) =~= rest + tail);
        assert(seq![items[i]] + items.subrange(i + 1, items.len() as int) =~= items.subrange(
            i,
            items.len() as int,
        ));
    } else {
        assert(items.subrange(i, items.len() as int) =~= Seq::<Plain>::empty());
    }
}

/// Appends the four bytes of `v`, least significant first.
fn push_u32_le(buf: &mut Vec<u8>, v: u32)
    ensures
        final(buf)@ == old(buf)@ + u32_le(v),
{
    buf.push((v & 0xff) as u8);
    buf.push(((v >> 8) & 0xff) as u8);
    buf.push(((v >> 16) & 0xff) as u8);
    buf.push(((v >> 24) & 0xff) as u8);
    assert(buf@ =~= old(buf)@ + u32_le(v));
}

/// Appends the eight bytes of `v`, least significant first.
fn push_u64_le(buf: &mut Vec<u8>, v: u64)
    ensures
        final(buf)@ == old(buf)@ + u64_le(v),
{
    push_u32_le(buf, #[verifier::truncate] (v as u32));
    push_u32_le(buf, #[verifier::truncate] ((v >> 32) as u32));
    assert(buf@ =~= old(buf)@ + u64_le(v));
}

/// Decodes UTF-8 with `std::str::from_utf8`: the bytes are rejected exactly
/// if they are not UTF-8, and the string that comes back has them as its
/// UTF-8 encoding.
#[verifier::external_body]
fn utf8_to_string(bytes: &[u8]) -> (r: Option<String>)
    ensures
        r.is_some() <==> valid_utf8(bytes@),
        r matches Some(s) ==> encode_utf8(s@) == bytes@,
{
    match std::str::from_utf8(bytes) {
        Ok(s) => Some(s.to_owned()),
        Err(_) => None,
    }
}

/// The views of a prefix of `items` are a prefix of the views of `items`.
proof fn lemma_views(items: Seq<Value>, n: int)
    requires
        0 <= n <= items.len(),
    ensures
        views(items, n).len() == n,
        forall|i: int| 0 <= i < n ==> views(items, n)[i] == (#[trigger] items[i])@,
    decreases n,
{
    if n > 0 {
        lemma_views(items, n - 1);
        assert(views(items, n) == views(items, n - 1).push(items[n - 1]@));
    } else {
        assert(views(items, n) =~= Seq::<Plain>::empty());
    }
}

/// Appends the encoding of `value` to `buf` and returns `true`; if the
/// value has no encoding, returns `false` and leaves `buf` as it was, also
/// where a tuple fails at a later element.
pub fn serialize_element(value: &Value, buf: &mut Vec<u8>) -> (ok: bool)
    ensures
        match encoded(value@) {
            Some(e) => ok && final(buf)@ == old(buf)@ + e,
            None => !ok && final(buf)@ == old(buf)@,
        },
    decreases value,
{
    match value {
        Value::Nil => {
            buf.push(TAG_NONE);
            assert(buf@ =~= old(buf)@ + seq![1u8]);
            true
        },
        Value::Bool(b) => {
            if *b {
                buf.push(TAG_TRUE);
            } else {
                buf.push(TAG_FALSE);
            }
            assert(buf@ =~= old(buf)@ + seq![if *b {
                3u8
            } else {
                2u8
            }]);
            true
        },
        Value::Int(i) => {
            buf.push(TAG_I64);
            push_u64_le(buf, *i as u64);
            assert(buf@ =~= old(buf)@ + (seq![4u8] + u64_le(*i as u64)));
            true
        },
        Value::Float(bits) => {
            buf.push(TAG_F64);
            push_u64_le(buf, *bits);
            assert(buf@ =~= old(buf)@ + (seq![5u8] + u64_le(*bits)));
            true
        },
        Value::Str(s) => {
            let bytes = s.as_str().as_bytes();
            if bytes.len() > u32::MAX as usize {
                return false;
            }
            buf.push(TAG_STR);
            push_u32_le(buf, bytes.len() as u32);
            buf.extend_from_slice(bytes);
            assert(buf@ =~= old(buf)@ + (seq![6u8] + u32_le(bytes@.len() as u32) + bytes@));
            true
        },
        Value::Bytes(b) => {
            if b.len() > u32::MAX as usize {
                return false;
            }
            buf.push(TAG_BYTES);
            push_u32_le(buf, b.len() as u32);
            buf.extend_from_slice(b.as_slice());
            assert(buf@ =~= old(buf)@ + (seq![7u8] + u32_le(b@.len() as u32) + b@));
            true
        },
        Value::Tuple(items) => {
            let len = items.len();
            if len > 255 {
                proof {
                    lemma_views(items@, len as int);
                }
                return false;
            }
            let start = buf.len();
            buf.push(TAG_TUPLE);
            buf.push(len as u8);
            let ghost plain = views(items@, len as int);
            let ghost head = old(buf)@ + seq![8u8, len as u8];
            proof {
                lemma_views(items@, len as int);
                assert(buf@ =~= head);
            }
            let mut i: usize = 0;
            let ghost mut body: Seq<u8> = Seq::empty();
            while i < len
                invariant
                    0 <= i <= len,
                    len == items.len(),
                    len <= 255,
                    value == Value::Tuple(*items),
                    plain == views(items@, len as int),
                    plain.len() == len,
                    forall|k: int| 0 <= k < len ==> plain[k] == (#[trigger] items@[k])@,
                    head == old(buf)@ + seq![8u8, len as u8],
                    start == old(buf)@.len(),
                    buf@ == head + body,
                    encoded_from(plain, 0) == (match encoded_from(plain, i as int) {
                        Some(rest) => Some(body + rest),
                        None => None,
                    }),
                decreases len - i,
            {
                let ghost before = buf@;
                let ok = serialize_element(&items[i], buf);
                if !ok {
                    buf.truncate(start);
                    proof {
                        assert(buf@ =~= old(buf)@);
                    }
                    return false;
                }
                proof {
                    let e = encoded(plain[i as int]).unwrap();
                    assert(body + e + Seq::<u8>::empty() =~= body + e);
                    match encoded_from(plain, i + 1) {
                        Some(rest) => {
                            assert(body + (e + rest) =~= (body + e) + rest);
                        },
                        None => {},
                    }
                    assert(buf@ =~= head + (body + e));
                    body = body + e;
                }
                i += 1;
            }
            proof {
                assert(body + Seq::<u8>::empty() =~= body);
                assert(buf@ =~= old(buf)@ + (seq![8u8, len as u8] + body));
            }
            true
        },
        Value::Unsupported => false,
    }
}

/// Encodes `value`, if the format has an encoding for it.
///
/// The kinds none, boolean, integer in 64 bits, float, string and byte
/// string have one, and so has a tuple of at most 255 values that have one.
/// For any other value the result is `None`, and the caller falls back on
/// an external serializer.
pub fn serialize(value: &Value) -> (r: Option<Vec<u8>>)
    ensures
        match (r, encoded(value@)) {
            (Some(bytes), Some(e)) => bytes@ == e,
            (None, None) => true,
            _ => false,
        },
{
    let mut buf = Vec::new();
    if serialize_element(value, &mut buf) {
        assert(Seq::<u8>::empty() + encoded(value@).unwrap() =~= encoded(value@).unwrap());
        Some(buf)
    } else {
        None
    }
}

/// Decodes the value that `data` starts with, and says how many bytes it
/// takes.
pub fn deserialize_one(data: &[u8]) -> (r: Result<(Value, usize), CodecError>)
    ensures
        match (r, decoded(data@)) {
            (Ok((value, used)), Ok((plain, n))) => value@ == plain && used == n && used
                <= data@.len(),
            (Err(e), Err(want)) => e == want,
            _ => false,
        },
    decreases data@.len(), 0int,
{
    if data.len() == 0 {
        return Err(CodecError::Truncated);
    }
    let tag = data[0];
    if tag == TAG_NONE {
        Ok((Value::Nil, 1))
    } else if tag == TAG_FALSE {
        Ok((Value::Bool(false), 1))
    } else if tag == TAG_TRUE {
        Ok((Value::Bool(true), 1))
    } else if tag == TAG_I64 {
        if data.len() < 9 {
            return Err(CodecError::Truncated);
        }
        Ok((Value::Int(get_u64(data, 1) as i64), 9))
    } else if tag == TAG_F64 {
        if data.len() < 9 {
            return Err(CodecError::Truncated);
        }
        Ok((Value::Float(get_u64(data, 1)), 9))
    } else if tag == TAG_STR {
        if data.len() < 5 {
            return Err(CodecError::Truncated);
        }
        let len = get_u32(data, 1) as usize;
        if data.len() - 5 < len {
            return Err(CodecError::Truncated);
        }
        match utf8_to_string(slice_subrange(data, 5, 5 + len)) {
            Some(s) => {
                proof {
                    vstd::utf8::encode_utf8_decode_utf8(s@);
                }
                Ok((Value::Str(s), 5 + len))
            },
            None => Err(CodecError::InvalidUtf8),
        }
    } else if tag == TAG_BYTES {
        if data.len() < 5 {
            return Err(CodecError::Truncated);
        }
        let len = get_u32(data, 1) as usize;
        if data.len() - 5 < len {
            return Err(CodecError::Truncated);
        }
        let bytes = vstd::slice::slice_to_vec(slice_subrange(data, 5, 5 + len));
        Ok((Value::Bytes(bytes), 5 + len))
    } else if tag == TAG_TUPLE {
        if data.len() < 2 {
            return Err(CodecError::Truncated);
        }
        let count = data[1] as usize;
        let body = slice_subrange(data, 2, data.len());
        match deserialize_many(body, count) {
            Ok((items, used)) => {
                proof {
                    let plain = decoded_many(body@, count as int).unwrap().0;
                    let seen = views(items@, items@.len() as int);
                    lemma_views(items@, items@.len() as int);
                    assert forall|k: int| 0 <= k < seen.len() implies seen[k] == plain[k] by {
                        assert(items@[k]@ == plain[k]);
                    }
                    assert(seen =~= plain);
                }
                Ok((Value::Tuple(items), 2 + used))
            },
            Err(e) => Err(e),
        }
    } else {
        Err(CodecError::InvalidTag)
    }
}

/// Decodes the `count` values that `data` starts with, and says how many
/// bytes they take together.
fn deserialize_many(data: &[u8], count: usize) -> (r: Result<(Vec<Value>, usize), CodecError>)
    ensures
        match (r, decoded_many(data@, count as int)) {
            (Ok((items, used)), Ok((plain, n))) => items@.len() == plain.len() && (forall|k: int|
                0 <= k < items@.len() ==> (#[trigger] items@[k])@ == plain[k]) && used == n && used
                <= data@.len(),
            (Err(e), Err(want)) => e == want,
            _ => false,
        },
    decreases data@.len(), count + 1,
{
    if count == 0 {
        return Ok((Vec::new(), 0));
    }
    match deserialize_one(data) {
        Err(e) => Err(e),
        Ok((value, used)) => {
            let rest = slice_subrange(data, used, data.len());
            match deserialize_many(rest, count - 1) {
                Err(e) => Err(e),
                Ok((mut items, more)) => {
                    let ghost tail = items@;
                    items.insert(0, value);
                    proof {
                        assert(items@ =~= seq![value] + tail);
                    }
                    Ok((items, used + more))
                },
            }
        },
    }
}

/// Decodes `data`. The result is `None` for bytes that an external
/// serializer wrote (tag 0): the caller hands `pickle_payload(data)` to
/// the external decoder. Bytes that follow the value are ignored.
///
/// Empty or truncated bytes, an unknown tag and a string that is not UTF-8
/// are errors.
pub fn deserialize(data: &[u8]) -> (r: Result<Option<Value>, CodecError>)
    ensures
        match r {
            Ok(None) => data@.len() > 0 && data@[0] == 0,
            Ok(Some(value)) => data@.len() > 0 && data@[0] != 0 && (decoded(data@) matches Ok(d)
                && d.0 == value@),
            Err(e) => (data@.len() == 0 || data@[0] != 0) && decoded(data@) == Err::<
                (Plain, int),
                CodecError,
            >(e),
        },
{
    if data.len() == 0 {
        return Err(CodecError::Truncated);
    }
    if data[0] == TAG_PICKLE {
        return Ok(None);
    }
    match deserialize_one(data) {
        Ok((value, _consumed)) => Ok(Some(value)),
        Err(e) => Err(e),
    }
}

/// Marks externally serialized bytes: prepends the tag 0.
pub fn wrap_pickle(pickle_bytes: &[u8]) -> (r: Vec<u8>)
    ensures
        r@ == seq![0u8] + pickle_bytes@,
{
    let mut buf = Vec::new();
    buf.push(TAG_PICKLE);
    buf.extend_from_slice(pickle_bytes);
    assert(buf@ =~= seq![0u8] + pickle_bytes@);
    buf
}

/// The externally serialized bytes behind the tag: `data` without its
/// first byte.
pub fn pickle_payload(data: &[u8]) -> (r: &[u8])
    requires
        data@.len() >= 1,
    ensures
        r@ == data@.subrange(1, data@.len() as int),
{
    slice_subrange(data, 1, data.len())
}

/// Wrapped bytes decode as externally serialized, and their payload is
/// what was wrapped.
pub proof fn lemma_wrap_unwrap(pickle_bytes: Seq<u8>)
    ensures
        (seq![0u8] + pickle_bytes)[0] == 0,
        (seq![0u8] + pickle_bytes).subrange(1, 1 + pickle_bytes.len() as int) == pickle_bytes,
{
    assert((seq![0u8] + pickle_bytes).subrange(1, 1 + pickle_bytes.len() as int) =~= pickle_bytes);
}

/// Round trip: the encoding of a value does not start with the tag of
/// externally serialized bytes, and it decodes to the value.
pub proof fn lemma_serialize_deserialize(v: Plain)
    requires
        encoded(v).is_some(),
    ensures
        encoded(v).unwrap().len() > 0,
        encoded(v).unwrap()[0] != 0,
        decoded(encoded(v).unwrap()) == Ok::<(Plain, int), CodecError>(
            (v, encoded(v).unwrap().len() as int),
        ),
{
    let e = encoded(v).unwrap();
    lemma_round_trip(v, Seq::empty());
    assert(e + Seq::<u8>::empty() =~= e);
}

} // verus!
