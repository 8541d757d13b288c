//! The tagged-value codec: one tag byte, then a payload whose shape the tag
//! fixes. Tables nest; everything else is a leaf.

use crate::endian::{
    low_u32, lemma_u16_le_inverse, lemma_u32_be_inverse, lemma_u32_le_inverse, lemma_u64_le_inverse,
    read_u64_le, truncate_len, u16_from_le, u16_to_le, u32_from_be, u32_from_le, u32_to_be, u32_to_le,
    u64_from_le, u64_to_le, write_u16_le, write_u32_be, write_u32_le, write_u64_le,
};
use crate::error::Error;
use crate::reader::{window, Reader};
use crate::value::{Data, Value};
use vstd::prelude::*;
use vstd::utf8::{
    decode_utf8, decode_utf8_encode_utf8, encode_utf8, encode_utf8_decode_utf8,
    encode_utf8_valid_utf8, valid_utf8,
};

verus! {

/// A 32-bit integer, little-endian.
pub const TAG_UINT32: u8 = 0x05;

/// A 64-bit integer, little-endian.
pub const TAG_UINT64: u8 = 0x06;

/// A table: a big-endian pair count, then the pairs.
pub const TAG_TABLE: u8 = 0x07;

/// A string: a zero byte, a length byte, then that many bytes of UTF-8.
pub const TAG_STRING: u8 = 0x08;

/// A boolean: one byte, 1 for true.
pub const TAG_BOOLEAN: u8 = 0x0A;

/// A 16-bit integer, little-endian.
pub const TAG_UINT16: u8 = 0x0B;

/// An uninterpreted tag with eight bytes of payload.
pub const TAG_OPAQUE_8: u8 = 0x0C;

/// An uninterpreted tag with twelve bytes of payload.
pub const TAG_OPAQUE_12: u8 = 0x0D;

/// Whether `n` bytes of `bytes` stand at `at`.
pub open spec fn fits(bytes: Seq<u8>, at: int, n: nat) -> bool {
    0 <= at && at + n <= bytes.len()
}

/// How far `at` is from the end of `bytes`, and nothing once it is past the
/// end: what gets smaller as decoding goes on.
pub open spec fn left(bytes: Seq<u8>, at: int) -> nat {
    if at <= bytes.len() {
        (bytes.len() - at) as nat
    } else {
        0
    }
}

/// What decoding one value at `at` gives, and how many bytes it uses up,
/// whether it succeeds or not: a failed decoding has used the bytes of the
/// reads that went well before the one that failed.
///
/// A boolean is true exactly when its byte is 1. With `strict`, a boolean
/// byte other than 0 and 1 is refused; without, it stands for false.
pub open spec fn decode_value(bytes: Seq<u8>, at: int, strict: bool) -> (Result<Value, Error>, nat)
    decreases left(bytes, at), 0nat,
{
    if !fits(bytes, at, 1) {
        (Err(Error::OutOfData), 0)
    } else {
        let tag = bytes[at];
        let body = at + 1;
        if tag == TAG_UINT32 {
            if !fits(bytes, body, 4) {
                (Err(Error::OutOfData), 1)
            } else {
                (Ok(Value::Uint32(u32_from_le(window(bytes, body, 4)))), 5)
            }
        } else if tag == TAG_UINT64 {
            if !fits(bytes, body, 8) {
                (Err(Error::OutOfData), 1)
            } else {
                (Ok(Value::Uint64(u64_from_le(window(bytes, body, 8)))), 9)
            }
        } else if tag == TAG_UINT16 {
            if !fits(bytes, body, 2) {
                (Err(Error::OutOfData), 1)
            } else {
                (Ok(Value::Uint16(u16_from_le(window(bytes, body, 2)))), 3)
            }
        } else if tag == TAG_BOOLEAN {
            if !fits(bytes, body, 1) {
                (Err(Error::OutOfData), 1)
            } else if strict && bytes[body] > 1 {
                (Err(Error::InvalidFormat), 2)
            } else {
                (Ok(Value::Boolean(bytes[body] == 1)), 2)
            }
        } else if tag == TAG_STRING {
            if !fits(bytes, body, 2) {
                (Err(Error::OutOfData), 1)
            } else if bytes[body] != 0 {
                (Err(Error::InvalidFormat), 3)
            } else {
                let n = bytes[body + 1] as nat;
                let text = window(bytes, body + 2, n as int);
                if !fits(bytes, body + 2, n) {
                    (Err(Error::OutOfData), 3)
                } else if !valid_utf8(text) {
                    (Err(Error::InvalidEncoding), 3 + n)
                } else {
                    (Ok(Value::String(decode_utf8(text))), 3 + n)
                }
            }
        } else if tag == TAG_OPAQUE_8 {
            if !fits(bytes, body, 8) {
                (Err(Error::OutOfData), 1)
            } else {
                (Ok(Value::Unknown(tag, window(bytes, body, 8))), 9)
            }
        } else if tag == TAG_OPAQUE_12 {
            if !fits(bytes, body, 12) {
                (Err(Error::OutOfData), 1)
            } else {
                (Ok(Value::Unknown(tag, window(bytes, body, 12))), 13)
            }
        } else if tag == TAG_TABLE {
            let (table, used) = decode_table(bytes, body, strict);
            (table, 1 + used)
        } else {
            (Err(Error::UnsupportedTag(tag)), 1)
        }
    }
}

/// What decoding a table without its tag gives: a big-endian pair count,
/// then that many pairs.
pub open spec fn decode_table(bytes: Seq<u8>, at: int, strict: bool) -> (Result<Value, Error>, nat)
    decreases left(bytes, at), 1nat,
{
    if !fits(bytes, at, 4) {
        (Err(Error::OutOfData), 0)
    } else {
        let count = u32_from_be(window(bytes, at, 4)) as nat;
        let (pairs, used) = decode_pairs(bytes, at + 4, count, strict);
        match pairs {
            Ok(items) => (Ok(Value::Table(items)), 4 + used),
            Err(e) => (Err(e), 4 + used),
        }
    }
}

/// What decoding `count` pairs in a row gives: each pair is a key and then
/// a value, and the first failure ends the decoding.
pub open spec fn decode_pairs(bytes: Seq<u8>, at: int, count: nat, strict: bool) -> (
    Result<Seq<(Value, Value)>, Error>,
    nat,
)
    decreases left(bytes, at), 1 + count,
{
    if count == 0 {
        (Ok(Seq::empty()), 0)
    } else {
        let (before, used) = decode_pairs(bytes, at, (count - 1) as nat, strict);
        match before {
            Err(e) => (Err(e), used),
            Ok(items) => {
                let (first, key_len) = decode_value(bytes, at + used, strict);
                match first {
                    Err(e) => (Err(e), used + key_len),
                    Ok(key) => {
                        let (second, value_len) = decode_value(bytes, at + used + key_len, strict);
                        match second {
                            Err(e) => (Err(e), used + key_len + value_len),
                            Ok(value) => (
                                Ok(items.push((key, value))),
                                used + key_len + value_len,
                            ),
                        }
                    },
                }
            },
        }
    }
}

impl Value {
    /// Whether the value can be written: every string in it fits the one
    /// byte that states its length.
    pub open spec fn encodable(self) -> bool
        decreases self, 0nat,
    {
        match self {
            Value::Table(items) => Self::all_encodable(items),
            Value::String(text) => encode_utf8(text).len() <= 0xFF,
            _ => true,
        }
    }

    /// Whether every key and every value of the pairs can be written.
    pub open spec fn all_encodable(items: Seq<(Value, Value)>) -> bool
        decreases items, 1nat,
    {
        forall|i: int|
            0 <= i < items.len() ==> (#[trigger] items[i]).0.encodable() && items[i].1.encodable()
    }

    /// Whether the value is one that decoding can give: its strings fit
    /// their length byte, its tables have no more pairs than 32 bits can
    /// count, and its opaque payloads have the width that their tag fixes.
    pub open spec fn well_formed(self) -> bool
        decreases self, 0nat,
    {
        match self {
            Value::Table(items) => items.len() <= u32::MAX && Self::all_well_formed(items),
            Value::String(text) => encode_utf8(text).len() <= 0xFF,
            Value::Unknown(tag, payload) => (tag == TAG_OPAQUE_8 && payload.len() == 8) || (tag
                == TAG_OPAQUE_12 && payload.len() == 12),
            _ => true,
        }
    }

    /// Whether every key and every value of the pairs is well formed.
    pub open spec fn all_well_formed(items: Seq<(Value, Value)>) -> bool
        decreases items, 1nat,
    {
        forall|i: int|
            0 <= i < items.len() ==> (#[trigger] items[i]).0.well_formed()
                && items[i].1.well_formed()
    }

    /// The bytes that stand for the value. A table that is the root of a
    /// payload goes without its tag; its pair count is written modulo 2^32.
    pub open spec fn wire(self, root: bool) -> Seq<u8>
        decreases self, 0nat,
    {
        match self {
            Value::Table(items) => (if root {
                Seq::empty()
            } else {
                seq![TAG_TABLE]
            }) + u32_to_be(low_u32(items.len())) + Self::wire_pairs(items),
            Value::Uint64(x) => seq![TAG_UINT64] + u64_to_le(x),
            Value::Uint32(x) => seq![TAG_UINT32] + u32_to_le(x),
            Value::Uint16(x) => seq![TAG_UINT16] + u16_to_le(x),
            Value::Boolean(b) => seq![TAG_BOOLEAN, if b { 1u8 } else { 0u8 }],
            Value::Unknown(tag, payload) => seq![tag] + payload,
            Value::String(text) => seq![TAG_STRING, 0u8, encode_utf8(text).len() as u8]
                + encode_utf8(text),
        }
    }

    /// The bytes of the pairs of a table, one after the other: each key,
    /// then its value.
    pub open spec fn wire_pairs(items: Seq<(Value, Value)>) -> Seq<u8>
        decreases items, 1nat,
    {
        if items.len() == 0 {
            Seq::empty()
        } else {
            Self::wire_pairs(items.drop_last()) + items.last().0.wire(false) + items.last().1.wire(
                false,
            )
        }
    }
}

/// What a decoding result stands for: the model of the tree, or the error.
pub open spec fn outcome<'d>(r: Result<Data<'d>, Error>) -> Result<Value, Error> {
    match r {
        Ok(data) => Ok(data@),
        Err(e) => Err(e),
    }
}

/// `core::str::from_utf8` of the standard library: the text that the bytes
/// spell when they are valid UTF-8, and nothing otherwise.
#[verifier::external_body]
fn text_of<'a>(bytes: &'a [u8]) -> (text: Option<&'a str>)
    ensures
        text is Some <==> valid_utf8(bytes@),
        text is Some ==> text->0@ == decode_utf8(bytes@),
{
    core::str::from_utf8(bytes).ok()
}

/// Once decoding a run of pairs has failed, asking for more pairs fails in
/// the same way at the same place.
pub proof fn lemma_failure_is_final(bytes: Seq<u8>, at: int, done: nat, count: nat, strict: bool)
    requires
        done <= count,
        decode_pairs(bytes, at, done, strict).0 is Err,
    ensures
        decode_pairs(bytes, at, count, strict) == decode_pairs(bytes, at, done, strict),
    decreases count - done,
{
    if done < count {
        lemma_failure_is_final(bytes, at, done, (count - 1) as nat, strict);
    }
}

/// Decodes one value at the reader's position. The reader moves past every
/// byte that was read, also when the decoding fails part of the way.
pub fn read_data<'d>(reader: &mut Reader<'d>) -> (r: Result<Data<'d>, Error>)
    ensures
        final(reader).bytes() == old(reader).bytes(),
        old(reader).position() <= final(reader).position() <= old(reader).bytes().len(),
        decode_value(old(reader).bytes(), old(reader).position(), false) == (
            outcome(r),
            (final(reader).position() - old(reader).position()) as nat,
        ),
    decreases left(old(reader).bytes(), old(reader).position()), 0nat,
{
    let tag = reader.read_n::<1>()?[0];
    if tag == TAG_UINT32 {
        let x = reader.read_u32()?;
        Ok(Data::Uint32(x))
    } else if tag == TAG_UINT64 {
        let raw = reader.read_n::<8>()?;
        Ok(Data::Uint64(read_u64_le(raw)))
    } else if tag == TAG_UINT16 {
        let x = reader.read_u16()?;
        Ok(Data::Uint16(x))
    } else if tag == TAG_BOOLEAN {
        let flag = reader.read_n::<1>()?;
        Ok(Data::Boolean(flag[0] == 1))
    } else if tag == TAG_STRING {
        let head = reader.read_n::<2>()?;
        if head[0] != 0 {
            return Err(Error::InvalidFormat);
        }
        let raw = reader.read_slice(head[1] as usize)?;
        match text_of(raw) {
            Some(text) => Ok(Data::String(text)),
            None => Err(Error::InvalidEncoding),
        }
    } else if tag == TAG_OPAQUE_8 {
        let payload = reader.read_slice(8)?;
        Ok(Data::Unknown(tag, payload))
    } else if tag == TAG_OPAQUE_12 {
        let payload = reader.read_slice(12)?;
        Ok(Data::Unknown(tag, payload))
    } else if tag == TAG_TABLE {
        read_table(reader)
    } else {
        Err(Error::UnsupportedTag(tag))
    }
}

/// Decodes a table that stands without its tag at the reader's position:
/// the pair count, then the pairs. This is how the root of a payload
/// stands, and how every other table stands behind its tag.
pub fn read_table<'d>(reader: &mut Reader<'d>) -> (r: Result<Data<'d>, Error>)
    ensures
        final(reader).bytes() == old(reader).bytes(),
        old(reader).position() <= final(reader).position() <= old(reader).bytes().len(),
        decode_table(old(reader).bytes(), old(reader).position(), false) == (
            outcome(r),
            (final(reader).position() - old(reader).position()) as nat,
        ),
    decreases left(old(reader).bytes(), old(reader).position()), 1nat,
{
    let count = reader.read_u32_be()?;
    let ghost bytes = reader.bytes();
    let ghost start = reader.position();
    let mut items: Vec<(Data<'d>, Data<'d>)> = Vec::new();
    let mut done: u32 = 0;
    assert(Data::views(items@) =~= Seq::empty());
    while done < count
        invariant
            reader.bytes() == bytes,
            bytes == old(reader).bytes(),
            start == old(reader).position() + 4,
            4 <= start,
            count == u32_from_be(window(bytes, start - 4, 4)),
            done <= count,
            start <= reader.position() <= bytes.len(),
            decode_pairs(bytes, start, done as nat, false) == (
                Ok::<Seq<(Value, Value)>, Error>(Data::views(items@)),
                (reader.position() - start) as nat,
            ),
        decreases count - done,
    {
        let ghost before = Data::views(items@);
        let ghost next = decode_pairs(bytes, start, (done + 1) as nat, false);
        let key = match read_data(reader) {
            Ok(key) => key,
            Err(e) => {
                proof {
                    assert(next == (
                        Err::<Seq<(Value, Value)>, Error>(e),
                        (reader.position() - start) as nat,
                    ));
                    lemma_failure_is_final(bytes, start, (done + 1) as nat, count as nat, false);
                }
                return Err(e);
            },
        };
        let value = match read_data(reader) {
            Ok(value) => value,
            Err(e) => {
                proof {
                    assert(next == (
                        Err::<Seq<(Value, Value)>, Error>(e),
                        (reader.position() - start) as nat,
                    ));
                    lemma_failure_is_final(bytes, start, (done + 1) as nat, count as nat, false);
                }
                return Err(e);
            },
        };
        items.push((key, value));
        done = done + 1;
        assert(Data::views(items@) =~= before.push((key@, value@)));
        assert(next == (
            Ok::<Seq<(Value, Value)>, Error>(Data::views(items@)),
            (reader.position() - start) as nat,
        ));
    }
    Ok(Data::Table(items))
}

/// Writing one more pair appends its key and its value to what the pairs
/// before it gave.
pub proof fn lemma_wire_pairs_push(items: Seq<(Value, Value)>, pair: (Value, Value))
    ensures
        Value::wire_pairs(items.push(pair)) == Value::wire_pairs(items) + pair.0.wire(false)
            + pair.1.wire(false),
{
    assert(items.push(pair).drop_last() =~= items);
}

/// Appends the bytes of `data` to `out`. A table that is the root of a
/// payload (`is_first`) goes without its tag. When a string in `data` is
/// longer than 255 bytes nothing can be written for it: the call fails with
/// `ValueTooLarge` and leaves `out` as it was.
pub fn serialize_data(data: &Data, out: &mut Vec<u8>, is_first: bool) -> (r: Result<(), Error>)
    ensures
        match r {
            Ok(_) => data@.encodable() && final(out)@ == old(out)@ + data@.wire(is_first),
            Err(e) => e == Error::ValueTooLarge && !data@.encodable() && final(out)@ == old(out)@,
        },
    decreases data,
{
    match data {
        Data::Table(items) => {
            let start = out.len();
            if !is_first {
                out.push(TAG_TABLE);
            }
            write_u32_be(truncate_len(items.len()), out);
            let ghost head = out@;
            let ghost pairs = Data::views(items@);
            let mut done: usize = 0;
            assert(pairs.take(0) =~= Seq::empty());
            while done < items.len()
                invariant
                    done <= items.len(),
                    *data == Data::Table(*items),
                    pairs == Data::views(items@),
                    start == old(out)@.len(),
                    head.len() >= start,
                    head.take(start as int) == old(out)@,
                    out@ == head + Value::wire_pairs(pairs.take(done as int)),
                    forall|i: int|
                        0 <= i < done ==> (#[trigger] pairs[i]).0.encodable()
                            && pairs[i].1.encodable(),
                decreases items.len() - done,
            {
                let pair = &items[done];
                let ghost so_far = pairs.take(done as int);
                assert(pairs.take(done + 1) =~= so_far.push(pairs[done as int]));
                proof {
                    lemma_wire_pairs_push(so_far, pairs[done as int]);
                    assert(decreases_to!(data => data->Table_0@[done as int]));
                }
                if serialize_data(&pair.0, out, false).is_err() {
                    out.truncate(start);
                    assert(out@ =~= old(out)@);
                    assert(!pairs[done as int].0.encodable());
                    return Err(Error::ValueTooLarge);
                }
                if serialize_data(&pair.1, out, false).is_err() {
                    out.truncate(start);
                    assert(out@ =~= old(out)@);
                    assert(!pairs[done as int].1.encodable());
                    return Err(Error::ValueTooLarge);
                }
                done = done + 1;
            }
            assert(pairs.take(done as int) =~= pairs);
            Ok(())
        },
        Data::Uint64(x) => {
            out.push(TAG_UINT64);
            write_u64_le(*x, out);
            Ok(())
        },
        Data::Uint32(x) => {
            out.push(TAG_UINT32);
            write_u32_le(*x, out);
            Ok(())
        },
        Data::Uint16(x) => {
            out.push(TAG_UINT16);
            write_u16_le(*x, out);
            Ok(())
        },
        Data::Boolean(flag) => {
            out.push(TAG_BOOLEAN);
            out.push(if *flag { 1 } else { 0 });
            Ok(())
        },
        Data::Unknown(tag, payload) => {
            out.push(*tag);
            out.extend_from_slice(payload);
            Ok(())
        },
        Data::String(text) => {
            let raw = text.as_bytes();
            if raw.len() > 0xFF {
                return Err(Error::ValueTooLarge);
            }
            out.push(TAG_STRING);
            out.push(0);
            out.push(raw.len() as u8);
            out.extend_from_slice(raw);
            Ok(())
        },
    }
}

/// Round trip of one value. Where strict decoding succeeds at `at`, that is
/// where decoding succeeds and every boolean byte in what was read is 0 or
/// 1, the decoder proper gives the same value, the value can be written,
/// and writing it gives back exactly the bytes that were read: keys and
/// values in their order, opaque payloads byte for byte.
pub proof fn lemma_decode_then_encode(bytes: Seq<u8>, at: int)
    requires
        decode_value(bytes, at, true).0 is Ok,
    ensures
        decode_value(bytes, at, false) == decode_value(bytes, at, true),
        ({
            let (decoded, used) = decode_value(bytes, at, true);
            &&& 0 <= at
            &&& 0 < used
            &&& at + used <= bytes.len()
            &&& decoded->Ok_0.encodable()
            &&& decoded->Ok_0.wire(false) == window(bytes, at, used as int)
        }),
    decreases left(bytes, at), 0nat,
{
    let (decoded, used) = decode_value(bytes, at, true);
    let value = decoded->Ok_0;
    let tag = bytes[at];
    let body = at + 1;
    if tag == TAG_UINT32 {
        lemma_u32_le_inverse(0, window(bytes, body, 4));
        assert(value.wire(false) =~= window(bytes, at, 5));
    } else if tag == TAG_UINT64 {
        lemma_u64_le_inverse(0, window(bytes, body, 8));
        assert(value.wire(false) =~= window(bytes, at, 9));
    } else if tag == TAG_UINT16 {
        lemma_u16_le_inverse(0, window(bytes, body, 2));
        assert(value.wire(false) =~= window(bytes, at, 3));
    } else if tag == TAG_BOOLEAN {
        assert(value.wire(false) =~= window(bytes, at, 2));
    } else if tag == TAG_STRING {
        let n = bytes[body + 1] as nat;
        let text = window(bytes, body + 2, n as int);
        decode_utf8_encode_utf8(text);
        assert(value.wire(false) =~= window(bytes, at, 3 + n as int));
    } else if tag == TAG_OPAQUE_8 {
        assert(value.wire(false) =~= window(bytes, at, 9));
    } else if tag == TAG_OPAQUE_12 {
        assert(value.wire(false) =~= window(bytes, at, 13));
    } else {
        lemma_decode_then_encode_table(bytes, body);
        assert(value.wire(false) =~= seq![TAG_TABLE] + value.wire(true));
        assert(value.wire(false) =~= window(bytes, at, used as int));
    }
}

/// Round trip of a root table, which stands without its tag. Where strict
/// decoding of a table succeeds at `at`, the decoder proper gives the same
/// table, the table can be written, and writing it as a root gives back
/// exactly the bytes that were read.
pub proof fn lemma_decode_then_encode_table(bytes: Seq<u8>, at: int)
    requires
        decode_table(bytes, at, true).0 is Ok,
    ensures
        decode_table(bytes, at, false) == decode_table(bytes, at, true),
        ({
            let (decoded, used) = decode_table(bytes, at, true);
            &&& at + used <= bytes.len()
            &&& 4 <= used
            &&& decoded->Ok_0 is Table
            &&& decoded->Ok_0.encodable()
            &&& decoded->Ok_0.wire(true) == window(bytes, at, used as int)
        }),
    decreases left(bytes, at), 1nat,
{
    let count = u32_from_be(window(bytes, at, 4));
    let (decoded, used) = decode_pairs(bytes, at + 4, count as nat, true);
    lemma_decode_then_encode_pairs(bytes, at + 4, count as nat);
    lemma_u32_be_inverse(0, window(bytes, at, 4));
    let table = Value::Table(decoded->Ok_0);
    assert(table.wire(true) =~= window(bytes, at, 4) + window(bytes, at + 4, used as int));
    assert(table.wire(true) =~= window(bytes, at, 4 + used as int));
}

/// Round trip of a run of pairs: where strict decoding of `count` pairs
/// succeeds at `at`, the decoder proper gives the same pairs, there are
/// `count` of them, and writing them gives back the bytes that were read.
pub proof fn lemma_decode_then_encode_pairs(bytes: Seq<u8>, at: int, count: nat)
    requires
        decode_pairs(bytes, at, count, true).0 is Ok,
        0 <= at <= bytes.len(),
    ensures
        decode_pairs(bytes, at, count, false) == decode_pairs(bytes, at, count, true),
        ({
            let (decoded, used) = decode_pairs(bytes, at, count, true);
            &&& at + used <= bytes.len()
            &&& decoded->Ok_0.len() == count
            &&& Value::all_encodable(decoded->Ok_0)
            &&& Value::wire_pairs(decoded->Ok_0) == window(bytes, at, used as int)
        }),
    decreases left(bytes, at), 1 + count,
{
    if count == 0 {
        assert(Value::wire_pairs(Seq::empty()) =~= window(bytes, at, 0));
    } else {
        let (before, used) = decode_pairs(bytes, at, (count - 1) as nat, true);
        lemma_decode_then_encode_pairs(bytes, at, (count - 1) as nat);
        let (first, key_len) = decode_value(bytes, at + used, true);
        lemma_decode_then_encode(bytes, at + used);
        let (second, value_len) = decode_value(bytes, at + used + key_len, true);
        lemma_decode_then_encode(bytes, at + used + key_len);
        let pair = (first->Ok_0, second->Ok_0);
        lemma_wire_pairs_push(before->Ok_0, pair);
        assert(window(bytes, at, used as int) + window(bytes, at + used, key_len as int) + window(
            bytes,
            at + used + key_len,
            value_len as int,
        ) =~= window(bytes, at, (used + key_len + value_len) as int));
    }
}

/// What decoding gives is well formed, and so can be written.
pub proof fn lemma_decoded_is_well_formed(bytes: Seq<u8>, at: int, strict: bool)
    requires
        decode_value(bytes, at, strict).0 is Ok,
    ensures
        decode_value(bytes, at, strict).0->Ok_0.well_formed(),
    decreases left(bytes, at), 0nat,
{
    let tag = bytes[at];
    if tag == TAG_STRING {
        let n = bytes[at + 2] as nat;
        decode_utf8_encode_utf8(window(bytes, at + 3, n as int));
    } else if tag == TAG_TABLE {
        lemma_decoded_table_is_well_formed(bytes, at + 1, strict);
    }
}

/// The table that decoding gives is well formed.
pub proof fn lemma_decoded_table_is_well_formed(bytes: Seq<u8>, at: int, strict: bool)
    requires
        decode_table(bytes, at, strict).0 is Ok,
    ensures
        decode_table(bytes, at, strict).0->Ok_0.well_formed(),
    decreases left(bytes, at), 1nat,
{
    let count = u32_from_be(window(bytes, at, 4));
    lemma_decoded_pairs_are_well_formed(bytes, at + 4, count as nat, strict);
}

/// The pairs that decoding gives are as many as were asked for, and each
/// is well formed.
pub proof fn lemma_decoded_pairs_are_well_formed(bytes: Seq<u8>, at: int, count: nat, strict: bool)
    requires
        decode_pairs(bytes, at, count, strict).0 is Ok,
    ensures
        decode_pairs(bytes, at, count, strict).0->Ok_0.len() == count,
        Value::all_well_formed(decode_pairs(bytes, at, count, strict).0->Ok_0),
    decreases left(bytes, at), 1 + count,
{
    if count > 0 {
        let (before, used) = decode_pairs(bytes, at, (count - 1) as nat, strict);
        lemma_decoded_pairs_are_well_formed(bytes, at, (count - 1) as nat, strict);
        let (first, key_len) = decode_value(bytes, at + used, strict);
        lemma_decoded_is_well_formed(bytes, at + used, strict);
        lemma_decoded_is_well_formed(bytes, at + used + key_len, strict);
    }
}

/// A part of what stands at `at` stands as far behind `at` as it stands
/// behind the start of the whole.
proof fn lemma_window_within(bytes: Seq<u8>, at: int, whole: Seq<u8>, from: int, n: int)
    requires
        0 <= at,
        at + whole.len() <= bytes.len(),
        window(bytes, at, whole.len() as int) == whole,
        0 <= from,
        0 <= n,
        from + n <= whole.len(),
    ensures
        window(bytes, at + from, n) == whole.subrange(from, from + n),
{
    let part = window(bytes, at + from, n);
    assert forall|i: int| 0 <= i < n implies #[trigger] part[i] == whole[from + i] by {
        assert(window(bytes, at, whole.len() as int)[from + i] == bytes[at + from + i]);
    }
    assert(part =~= whole.subrange(from, from + n));
}

/// The decoder reads back what the encoder wrote. Where the bytes of a
/// well-formed value stand at `at`, decoding there gives that value and
/// uses exactly those bytes, strictly or not.
pub proof fn lemma_encode_then_decode(value: Value, bytes: Seq<u8>, at: int, strict: bool)
    requires
        value.well_formed(),
        0 <= at,
        at + value.wire(false).len() <= bytes.len(),
        window(bytes, at, value.wire(false).len() as int) == value.wire(false),
    ensures
        decode_value(bytes, at, strict) == (Ok::<Value, Error>(value), value.wire(false).len()),
    decreases value, 0nat,
{
    let written = value.wire(false);
    let rest = written.len() - 1;
    assert(written.len() >= 1 && written[0] == bytes[at]) by {
        match value {
            Value::String(text) => {},
            _ => {},
        }
        assert(window(bytes, at, written.len() as int)[0] == bytes[at]);
    }
    lemma_window_within(bytes, at, written, 1, rest);
    match value {
        Value::Table(items) => {
            assert(written.subrange(1, 1 + rest) =~= value.wire(true));
            lemma_table_read_back(items, bytes, at + 1, strict);
        },
        Value::Uint64(x) => {
            lemma_u64_le_inverse(x, Seq::empty());
            assert(written.subrange(1, 1 + rest) =~= u64_to_le(x));
        },
        Value::Uint32(x) => {
            lemma_u32_le_inverse(x, Seq::empty());
            assert(written.subrange(1, 1 + rest) =~= u32_to_le(x));
        },
        Value::Uint16(x) => {
            lemma_u16_le_inverse(x, Seq::empty());
            assert(written.subrange(1, 1 + rest) =~= u16_to_le(x));
        },
        Value::Boolean(flag) => {
            assert(window(bytes, at + 1, rest)[0] == bytes[at + 1]);
        },
        Value::Unknown(tag, payload) => {
            assert(written.subrange(1, 1 + rest) =~= payload);
        },
        Value::String(text) => {
            let raw = encode_utf8(text);
            encode_utf8_valid_utf8(text);
            encode_utf8_decode_utf8(text);
            assert(window(bytes, at + 1, rest)[0] == bytes[at + 1]);
            assert(window(bytes, at + 1, rest)[1] == bytes[at + 2]);
            lemma_window_within(bytes, at, written, 3, raw.len() as int);
            assert(written.subrange(3, 3 + raw.len() as int) =~= raw);
        },
    }
}

/// The decoder reads back a table that was written without its tag.
pub proof fn lemma_table_read_back(items: Seq<(Value, Value)>, bytes: Seq<u8>, at: int, strict: bool)
    requires
        Value::Table(items).well_formed(),
        0 <= at,
        at + Value::Table(items).wire(true).len() <= bytes.len(),
        window(bytes, at, Value::Table(items).wire(true).len() as int) == Value::Table(items).wire(
            true,
        ),
    ensures
        decode_table(bytes, at, strict) == (
            Ok::<Value, Error>(Value::Table(items)),
            Value::Table(items).wire(true).len(),
        ),
    decreases items, 2nat,
{
    let written = Value::Table(items).wire(true);
    let count = low_u32(items.len());
    let pairs = Value::wire_pairs(items);
    lemma_u32_be_inverse(count, Seq::empty());
    assert(written =~= u32_to_be(count) + pairs);
    lemma_window_within(bytes, at, written, 0, 4);
    assert(written.subrange(0, 4) =~= u32_to_be(count));
    lemma_window_within(bytes, at, written, 4, pairs.len() as int);
    assert(written.subrange(4, 4 + pairs.len() as int) =~= pairs);
    lemma_pairs_read_back(items, bytes, at + 4, strict);
}

/// The decoder reads back a run of pairs that was written.
pub proof fn lemma_pairs_read_back(items: Seq<(Value, Value)>, bytes: Seq<u8>, at: int, strict: bool)
    requires
        Value::all_well_formed(items),
        0 <= at,
        at + Value::wire_pairs(items).len() <= bytes.len(),
        window(bytes, at, Value::wire_pairs(items).len() as int) == Value::wire_pairs(items),
    ensures
        decode_pairs(bytes, at, items.len(), strict) == (
            Ok::<Seq<(Value, Value)>, Error>(items),
            Value::wire_pairs(items).len(),
        ),
    decreases items, 1nat,
{
    if items.len() == 0 {
        assert(items =~= Seq::empty());
    } else {
        let before = items.drop_last();
        let (key, value) = items.last();
        let used = Value::wire_pairs(before).len() as int;
        let key_len = key.wire(false).len() as int;
        let value_len = value.wire(false).len() as int;
        let written = Value::wire_pairs(items);
        assert(written == Value::wire_pairs(before) + key.wire(false) + value.wire(false));
        lemma_window_within(bytes, at, written, 0, used);
        assert(written.subrange(0, used) =~= Value::wire_pairs(before));
        lemma_window_within(bytes, at, written, used, key_len);
        assert(written.subrange(used, used + key_len) =~= key.wire(false));
        lemma_window_within(bytes, at, written, used + key_len, value_len);
        assert(written.subrange(used + key_len, used + key_len + value_len) =~= value.wire(false));
        assert(Value::all_well_formed(before)) by {
            assert forall|i: int| 0 <= i < before.len() implies (#[trigger] before[i]).0.well_formed()
                && before[i].1.well_formed() by {
                assert(before[i] == items[i]);
            }
        }
        lemma_pairs_read_back(before, bytes, at, strict);
        assert(items[items.len() - 1] == (key, value));
        lemma_encode_then_decode(key, bytes, at + used, strict);
        lemma_encode_then_decode(value, bytes, at + used + key_len, strict);
        assert(before.push((key, value)) =~= items);
    }
}

} // verus!
