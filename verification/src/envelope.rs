//! The envelope around a payload: marker, checksum, record count, length.
//!
//! On the wire an envelope is the four marker bytes, then the checksum of
//! the payload, the record count and the payload's length, each as a
//! big-endian 32-bit integer, then the payload.

use crate::checksum::Checksum;
use crate::codec::{decode_table, lemma_table_read_back, read_table, serialize_data};
use crate::endian::{
    low_u32, lemma_u32_be_inverse, patch_u32_be, patched, truncate_len, u32_from_be, u32_to_be,
};
use crate::error::Error;
use crate::reader::{window, Reader};
use crate::value::{Data, Value};
use vstd::prelude::*;
use vstd::slice::slice_subrange;

verus! {

/// The four bytes that every envelope starts with.
pub const MAGIC: [u8; 4] = [0xFF, 0x00, 0xFE, 0x01];

/// How many bytes stand before the payload.
pub const HEADER_LEN: usize = 16;

/// The header of an envelope, and the payload that it announces.
#[derive(Debug, Clone, Copy, PartialEq, Eq)]
pub struct Frame<'d> {
    /// The checksum that the header states.
    pub checksum: u32,
    /// How many root tables the header announces.
    pub record_count: u32,
    /// The bytes after the header, as many as the header states.
    pub payload: &'d [u8],
}

/// A decoded envelope: the root table of its payload.
#[derive(Debug, PartialEq, Eq)]
pub struct File<'d> {
    pub data: Data<'d>,
}

/// The three fields of a header, as they stand behind the marker.
pub open spec fn fields(checksum: u32, record_count: u32, len: nat) -> Seq<u8> {
    u32_to_be(checksum) + u32_to_be(record_count) + u32_to_be(low_u32(len))
}

/// The header that announces a payload of `len` bytes.
pub open spec fn header(checksum: u32, record_count: u32, len: nat) -> Seq<u8> {
    MAGIC@ + fields(checksum, record_count, len)
}

/// A header is sixteen bytes long, twelve of them its fields.
pub proof fn lemma_header_len(checksum: u32, record_count: u32, len: nat)
    ensures
        fields(checksum, record_count, len).len() == 12,
        header(checksum, record_count, len).len() == 16,
{
    lemma_u32_be_inverse(checksum, Seq::empty());
    lemma_u32_be_inverse(record_count, Seq::empty());
    lemma_u32_be_inverse(low_u32(len), Seq::empty());
}

/// The envelope around `payload`, under the checksum `c`.
pub open spec fn envelope<C: Checksum>(c: &C, record_count: u32, payload: Seq<u8>) -> Seq<u8> {
    header(c.digest(payload), record_count, payload.len()) + payload
}

/// The header fields of `bytes` and the payload behind them: the stated
/// checksum, the record count, and as many bytes as the header states.
pub open spec fn framed(bytes: Seq<u8>) -> Result<(u32, u32, Seq<u8>), Error> {
    if bytes.len() < 4 {
        Err(Error::OutOfData)
    } else if window(bytes, 0, 4) != MAGIC@ {
        Err(Error::BadMagic)
    } else if bytes.len() < 16 {
        Err(Error::OutOfData)
    } else {
        let len = u32_from_be(window(bytes, 12, 4));
        if bytes.len() - 16 < len {
            Err(Error::OutOfData)
        } else {
            Ok(
                (
                    u32_from_be(window(bytes, 4, 4)),
                    u32_from_be(window(bytes, 8, 4)),
                    window(bytes, 16, len as int),
                ),
            )
        }
    }
}

/// Whether a framed payload is taken, given the checksum `computed` over
/// it: the checksum has to be the stated one, and there has to be exactly
/// one record. The checksum is looked at first.
pub open spec fn accepted(stated: u32, record_count: u32, payload: Seq<u8>, computed: u32) -> Result<
    (u32, Seq<u8>),
    Error,
> {
    if computed != stated {
        Err(Error::ChecksumMismatch)
    } else if record_count != 1 {
        Err(Error::RecordCountUnsupported)
    } else {
        Ok((record_count, payload))
    }
}

/// What opening `bytes` as an envelope gives under the checksum `c`.
pub open spec fn opened<C: Checksum>(c: &C, bytes: Seq<u8>) -> Result<(u32, Seq<u8>), Error> {
    match framed(bytes) {
        Err(e) => Err(e),
        Ok((stated, record_count, payload)) => accepted(
            stated,
            record_count,
            payload,
            c.digest(payload),
        ),
    }
}

/// What the result of opening stands for.
pub open spec fn opening<'d>(r: Result<(u32, &'d [u8]), Error>) -> Result<(u32, Seq<u8>), Error> {
    match r {
        Ok((record_count, payload)) => Ok((record_count, payload@)),
        Err(e) => Err(e),
    }
}

/// Reads the header of an envelope and finds its payload. Nothing is
/// checked but the marker and that the bytes are there: a stated length
/// that runs past the end is `OutOfData`.
pub fn frame<'d>(bytes: &'d [u8]) -> (r: Result<Frame<'d>, Error>)
    ensures
        match r {
            Ok(f) => framed(bytes@) == Ok::<(u32, u32, Seq<u8>), Error>(
                (f.checksum, f.record_count, f.payload@),
            ),
            Err(e) => framed(bytes@) == Err::<(u32, u32, Seq<u8>), Error>(e),
        },
{
    let mut reader = Reader::new(bytes);
    let magic = reader.read_n::<4>()?;
    if magic[0] != MAGIC[0] || magic[1] != MAGIC[1] || magic[2] != MAGIC[2] || magic[3]
        != MAGIC[3] {
        assert(window(bytes@, 0, 4)[0] != MAGIC@[0] || window(bytes@, 0, 4)[1] != MAGIC@[1]
            || window(bytes@, 0, 4)[2] != MAGIC@[2] || window(bytes@, 0, 4)[3] != MAGIC@[3]);
        return Err(Error::BadMagic);
    }
    assert(window(bytes@, 0, 4) =~= MAGIC@);
    let checksum = reader.read_u32_be()?;
    let record_count = reader.read_u32_be()?;
    let len = reader.read_u32_be()?;
    let payload = reader.peek_slice(len as usize)?;
    Ok(Frame { checksum, record_count, payload })
}

/// Decides on a framed payload, given the checksum `computed` over it.
pub fn accept<'d>(frame: Frame<'d>, computed: u32) -> (r: Result<(u32, &'d [u8]), Error>)
    ensures
        opening(r) == accepted(frame.checksum, frame.record_count, frame.payload@, computed),
{
    if computed != frame.checksum {
        Err(Error::ChecksumMismatch)
    } else if frame.record_count != 1 {
        Err(Error::RecordCountUnsupported)
    } else {
        Ok((frame.record_count, frame.payload))
    }
}

/// Opens an envelope: the record count and the payload. The marker, the
/// length, the checksum and the record count are looked at in this order,
/// and the first that is not as it has to be decides the error.
pub fn unwrap<'d, C: Checksum>(c: &C, bytes: &'d [u8]) -> (r: Result<(u32, &'d [u8]), Error>)
    ensures
        opening(r) == opened(c, bytes@),
{
    let found = frame(bytes)?;
    let computed = c.checksum(found.payload);
    accept(found, computed)
}

/// Appends a header whose three fields are still to be filled in.
pub fn reserve_header(out: &mut Vec<u8>)
    ensures
        final(out)@ == old(out)@ + header(0, 0, 0),
{
    out.extend_from_slice(MAGIC.as_slice());
    let mut i: usize = 0;
    while i < 12
        invariant
            i <= 12,
            out@ == old(out)@ + MAGIC@ + Seq::new(i as nat, |k: int| 0u8),
        decreases 12 - i,
    {
        out.push(0);
        i = i + 1;
        assert(out@ =~= old(out)@ + MAGIC@ + Seq::new(i as nat, |k: int| 0u8));
    }
    proof {
        reveal(u32_to_be);
    }
    assert(out@ =~= old(out)@ + header(0, 0, 0));
}

/// Fills in the three fields of the header that starts at `start`, for a
/// payload of `len` bytes.
pub fn backpatch(out: &mut Vec<u8>, start: usize, checksum: u32, record_count: u32, len: usize)
    requires
        start + 16 <= old(out).len(),
    ensures
        final(out)@ == patched(old(out)@, start + 4, fields(checksum, record_count, len as nat)),
{
    patch_u32_be(out, start + 4, checksum);
    patch_u32_be(out, start + 8, record_count);
    patch_u32_be(out, start + 12, truncate_len(len));
    proof {
        lemma_u32_be_inverse(checksum, Seq::empty());
        lemma_u32_be_inverse(record_count, Seq::empty());
        lemma_u32_be_inverse(low_u32(len as nat), Seq::empty());
    }
    assert(out@ =~= patched(old(out)@, start + 4, fields(checksum, record_count, len as nat)));
}

/// The envelope around `payload`: the header is reserved, the payload is
/// written behind it, and the header is then filled in from what was
/// written.
pub fn wrap<C: Checksum>(c: &C, record_count: u32, payload: &[u8]) -> (bytes: Vec<u8>)
    ensures
        bytes@ == envelope(c, record_count, payload@),
{
    let mut out: Vec<u8> = Vec::new();
    reserve_header(&mut out);
    out.extend_from_slice(payload);
    proof {
        lemma_header_len(0, 0, 0);
        lemma_header_len(c.digest(payload@), record_count, payload@.len());
    }
    let written = slice_subrange(out.as_slice(), HEADER_LEN, out.len());
    assert(written@ =~= payload@);
    let sum = c.checksum(written);
    backpatch(&mut out, 0, sum, record_count, payload.len());
    assert(out@ =~= envelope(c, record_count, payload@));
    out
}

/// What reading `bytes` as an envelope with one root table gives: what
/// opening refuses is refused, and the payload is then decoded as a table
/// that stands without its tag. Bytes of the payload behind the table are
/// not looked at.
pub open spec fn read<C: Checksum>(c: &C, bytes: Seq<u8>) -> Result<Value, Error> {
    match opened(c, bytes) {
        Err(e) => Err(e),
        Ok((_, payload)) => decode_table(payload, 0, false).0,
    }
}

/// What the result of reading stands for.
pub open spec fn reading<'d>(r: Result<File<'d>, Error>) -> Result<Value, Error> {
    match r {
        Ok(file) => Ok(file.data@),
        Err(e) => Err(e),
    }
}

/// Reads an envelope with one root table.
pub fn deserialize<'d, C: Checksum>(c: &C, data: &'d [u8]) -> (r: Result<File<'d>, Error>)
    ensures
        reading(r) == read(c, data@),
{
    let (_, payload) = unwrap(c, data)?;
    let mut reader = Reader::new(payload);
    let root = read_table(&mut reader)?;
    Ok(File { data: root })
}

/// Appends to `out` the envelope around the root table of `file`, as one
/// record. The header is reserved, the table is written behind it, and the
/// header is then filled in from what was written. When the table cannot be
/// written, the call fails and leaves `out` as it was.
pub fn serialize<C: Checksum>(c: &C, file: &File, out: &mut Vec<u8>) -> (r: Result<(), Error>)
    ensures
        match r {
            Ok(_) => {
                &&& file.data@.encodable()
                &&& final(out)@ == old(out)@ + envelope(c, 1, file.data@.wire(true))
            },
            Err(e) => {
                &&& e == Error::ValueTooLarge
                &&& !file.data@.encodable()
                &&& final(out)@ == old(out)@
            },
        },
{
    let start = out.len();
    reserve_header(out);
    proof {
        lemma_header_len(0, 0, 0);
    }
    match serialize_data(&file.data, out, true) {
        Err(e) => {
            out.truncate(start);
            assert(out@ =~= old(out)@);
            Err(e)
        },
        Ok(_) => {
            let end = out.len();
            let written = slice_subrange(out.as_slice(), start + HEADER_LEN, end);
            assert(written@ =~= file.data@.wire(true));
            let sum = c.checksum(written);
            proof {
                lemma_header_len(sum, 1, file.data@.wire(true).len());
            }
            backpatch(out, start, sum, 1, end - start - HEADER_LEN);
            assert(out@ =~= old(out)@ + envelope(c, 1, file.data@.wire(true)));
            Ok(())
        },
    }
}

/// Opening what was wrapped gives back the record count and the payload,
/// when the count is 1 and the payload's length fits the 32 bits that
/// state it; with another count, the envelope is refused for its count.
pub proof fn lemma_unwrap_wrap<C: Checksum>(c: &C, record_count: u32, payload: Seq<u8>)
    requires
        payload.len() <= u32::MAX,
    ensures
        opened(c, envelope(c, record_count, payload)) == if record_count == 1 {
            Ok::<(u32, Seq<u8>), Error>((record_count, payload))
        } else {
            Err::<(u32, Seq<u8>), Error>(Error::RecordCountUnsupported)
        },
{
    lemma_framed_envelope(c.digest(payload), record_count, payload);
}

/// Reading what was written gives back the table: the envelope around
/// the bytes of a well-formed table, as one record, is read as that table,
/// when the length of those bytes fits the 32 bits that state it.
pub proof fn lemma_read_written<C: Checksum>(c: &C, table: Value)
    requires
        table is Table,
        table.well_formed(),
        table.wire(true).len() <= u32::MAX,
    ensures
        read(c, envelope(c, 1, table.wire(true))) == Ok::<Value, Error>(table),
{
    let payload = table.wire(true);
    lemma_unwrap_wrap(c, 1, payload);
    assert(window(payload, 0, payload.len() as int) =~= payload);
    lemma_table_read_back(table->Table_0, payload, 0, false);
}

/// The header fields and the payload of an envelope are those it was made
/// from.
pub proof fn lemma_framed_envelope(checksum: u32, record_count: u32, payload: Seq<u8>)
    requires
        payload.len() <= u32::MAX,
    ensures
        framed(header(checksum, record_count, payload.len()) + payload) == Ok::<
            (u32, u32, Seq<u8>),
            Error,
        >((checksum, record_count, payload)),
{
    let bytes = header(checksum, record_count, payload.len()) + payload;
    let len = low_u32(payload.len());
    lemma_header_len(checksum, record_count, payload.len());
    lemma_u32_be_inverse(checksum, Seq::empty());
    lemma_u32_be_inverse(record_count, Seq::empty());
    lemma_u32_be_inverse(len, Seq::empty());
    assert(window(bytes, 0, 4) =~= MAGIC@);
    assert(window(bytes, 4, 4) =~= u32_to_be(checksum));
    assert(window(bytes, 8, 4) =~= u32_to_be(record_count));
    assert(window(bytes, 12, 4) =~= u32_to_be(len));
    assert(window(bytes, 16, len as int) =~= payload);
}

/// Changing a byte behind `head` changes the same byte of `tail`.
proof fn lemma_update_behind(head: Seq<u8>, tail: Seq<u8>, at: int, byte: u8)
    requires
        0 <= at < tail.len(),
    ensures
        (head + tail).update(head.len() + at, byte) == head + tail.update(at, byte),
{
    assert((head + tail).update(head.len() + at, byte) =~= head + tail.update(at, byte));
}

/// Changing one byte of the payload of an envelope makes opening fail on
/// the checksum, whenever the checksum tells the changed payload from the
/// unchanged one.
pub proof fn lemma_changed_payload_is_refused<C: Checksum>(
    c: &C,
    record_count: u32,
    payload: Seq<u8>,
    at: int,
    byte: u8,
)
    requires
        payload.len() <= u32::MAX,
        0 <= at < payload.len(),
        c.digest(payload.update(at, byte)) != c.digest(payload),
    ensures
        opened(c, envelope(c, record_count, payload).update(16 + at, byte)) == Err::<
            (u32, Seq<u8>),
            Error,
        >(Error::ChecksumMismatch),
{
    let changed = payload.update(at, byte);
    let sum = c.digest(payload);
    let head = header(sum, record_count, payload.len());
    lemma_framed_envelope(sum, record_count, changed);
    lemma_header_len(sum, record_count, payload.len());
    lemma_update_behind(head, payload, at, byte);
}

} // verus!
