//! The single-entry archive around an envelope: one local file header, the
//! compressed entry, and a fixed directory behind it.

use crate::checksum::{crc32, Checksum, Crc32};
use crate::endian::{
    lemma_u32_le_inverse, low_u32, patch_u32_le, patched, truncate_len, u16_from_le, u32_from_le,
    u32_to_le,
};
use crate::error::Error;
use crate::reader::{window, Reader};
use vstd::prelude::*;

verus! {

/// The four bytes that a local file header starts with.
pub const SIGNATURE: [u8; 4] = [0x50, 0x4B, 0x03, 0x04];

/// The version that an entry has to ask for.
pub const VERSION: [u8; 2] = [0x14, 0x00];

/// The compression method of a deflated entry.
pub const DEFLATED: u16 = 8;

/// The local file header of the rebuilt archive, with the entry name
/// behind it. The checksum and the two sizes in it are placeholders.
pub const HEAD: [u8; 38] = [
    0x50, 0x4B, 0x03, 0x04, 0x14, 0x00, 0x00, 0x00, 0x08, 0x00, 0x72, 0xA2, 0x71, 0x55, 0x4D, 0x0D,
    0x44, 0x3E, 0xEF, 0x13, 0x00, 0x00, 0xAE, 0x4C, 0x00, 0x00, 0x08, 0x00, 0x00, 0x00, 0x67, 0x61,
    0x6D, 0x65, 0x64, 0x61, 0x74, 0x61,
];

/// The central directory record and the end-of-directory record of the
/// rebuilt archive. The checksum and the two sizes in the directory record
/// are placeholders.
pub const TAIL: [u8; 76] = [
    0x50, 0x4B, 0x01, 0x02, 0x14, 0x00, 0x14, 0x00, 0x00, 0x00, 0x08, 0x00, 0x72, 0xA2, 0x71, 0x55,
    0x4D, 0x0D, 0x44, 0x3E, 0xEF, 0x13, 0x00, 0x00, 0xAE, 0x4C, 0x00, 0x00, 0x08, 0x00, 0x00, 0x00,
    0x00, 0x00, 0x00, 0x00, 0x00, 0x00, 0x00, 0x00, 0x00, 0x00, 0x00, 0x00, 0x00, 0x00, 0x67, 0x61,
    0x6D, 0x65, 0x64, 0x61, 0x74, 0x61, 0x50, 0x4B, 0x05, 0x06, 0x00, 0x00, 0x00, 0x00, 0x01, 0x00,
    0x01, 0x00, 0x00, 0x00, 0x00, 0x00, 0x15, 0x14, 0x00, 0x00, 0x00, 0x00,
];

/// Where the checksum stands in [`HEAD`]; the two sizes follow it.
pub const HEAD_PATCH: usize = 14;

/// Where the checksum stands in [`TAIL`]; the two sizes follow it.
pub const TAIL_PATCH: usize = 16;

/// The first entry of an archive, as its local file header declares it.
#[derive(Debug, Clone, Copy, PartialEq, Eq)]
pub struct Entry<'d> {
    pub flags: u16,
    pub method: u16,
    pub mod_time: u16,
    pub mod_date: u16,
    pub checksum: u32,
    pub compressed_size: u32,
    pub uncompressed_size: u32,
    pub name: &'d [u8],
    pub extra: &'d [u8],
    /// The entry's bytes as they stand in the archive.
    pub data: &'d [u8],
}

/// What an [`Entry`] stands for.
pub struct EntryView {
    pub flags: u16,
    pub method: u16,
    pub mod_time: u16,
    pub mod_date: u16,
    pub checksum: u32,
    pub compressed_size: u32,
    pub uncompressed_size: u32,
    pub name: Seq<u8>,
    pub extra: Seq<u8>,
    pub data: Seq<u8>,
}

impl<'d> View for Entry<'d> {
    type V = EntryView;

    open spec fn view(&self) -> EntryView {
        EntryView {
            flags: self.flags,
            method: self.method,
            mod_time: self.mod_time,
            mod_date: self.mod_date,
            checksum: self.checksum,
            compressed_size: self.compressed_size,
            uncompressed_size: self.uncompressed_size,
            name: self.name@,
            extra: self.extra@,
            data: self.data@,
        }
    }
}

/// The first entry of `bytes`: the signature and the version are as they
/// have to be, the fixed fields are read in their order, and the name, the
/// extra field and the entry's bytes are as long as the header declares.
pub open spec fn entry_of(bytes: Seq<u8>) -> Result<EntryView, Error> {
    if bytes.len() < 4 {
        Err(Error::OutOfData)
    } else if window(bytes, 0, 4) != SIGNATURE@ {
        Err(Error::BadMagic)
    } else if bytes.len() < 6 {
        Err(Error::OutOfData)
    } else if window(bytes, 4, 2) != VERSION@ {
        Err(Error::InvalidFormat)
    } else if bytes.len() < 30 {
        Err(Error::OutOfData)
    } else {
        let compressed_size = u32_from_le(window(bytes, 18, 4));
        let name_len = u16_from_le(window(bytes, 26, 2));
        let extra_len = u16_from_le(window(bytes, 28, 2));
        if bytes.len() < 30 + name_len + extra_len + compressed_size {
            Err(Error::OutOfData)
        } else {
            Ok(
                EntryView {
                    flags: u16_from_le(window(bytes, 6, 2)),
                    method: u16_from_le(window(bytes, 8, 2)),
                    mod_time: u16_from_le(window(bytes, 10, 2)),
                    mod_date: u16_from_le(window(bytes, 12, 2)),
                    checksum: u32_from_le(window(bytes, 14, 4)),
                    compressed_size,
                    uncompressed_size: u32_from_le(window(bytes, 22, 4)),
                    name: window(bytes, 30, name_len as int),
                    extra: window(bytes, 30 + name_len, extra_len as int),
                    data: window(bytes, 30 + name_len + extra_len, compressed_size as int),
                },
            )
        }
    }
}

/// Reads the local file header at the start of an archive and finds the
/// entry's bytes.
pub fn read_entry<'d>(archive: &'d [u8]) -> (r: Result<Entry<'d>, Error>)
    ensures
        match r {
            Ok(entry) => entry_of(archive@) == Ok::<EntryView, Error>(entry@),
            Err(e) => entry_of(archive@) == Err::<EntryView, Error>(e),
        },
{
    let mut reader = Reader::new(archive);
    let signature = reader.read_n::<4>()?;
    if signature[0] != SIGNATURE[0] || signature[1] != SIGNATURE[1] || signature[2] != SIGNATURE[2]
        || signature[3] != SIGNATURE[3] {
        assert(window(archive@, 0, 4)[0] != SIGNATURE@[0] || window(archive@, 0, 4)[1]
            != SIGNATURE@[1] || window(archive@, 0, 4)[2] != SIGNATURE@[2] || window(
            archive@,
            0,
            4,
        )[3] != SIGNATURE@[3]);
        return Err(Error::BadMagic);
    }
    assert(window(archive@, 0, 4) =~= SIGNATURE@);
    let version = reader.read_n::<2>()?;
    if version[0] != VERSION[0] || version[1] != VERSION[1] {
        assert(window(archive@, 4, 2)[0] != VERSION@[0] || window(archive@, 4, 2)[1]
            != VERSION@[1]);
        return Err(Error::InvalidFormat);
    }
    assert(window(archive@, 4, 2) =~= VERSION@);
    let flags = reader.read_u16()?;
    let method = reader.read_u16()?;
    let mod_time = reader.read_u16()?;
    let mod_date = reader.read_u16()?;
    let checksum = reader.read_u32()?;
    let compressed_size = reader.read_u32()?;
    let uncompressed_size = reader.read_u32()?;
    let name_len = reader.read_u16()?;
    let extra_len = reader.read_u16()?;
    let name = reader.read_slice(name_len as usize)?;
    let extra = reader.read_slice(extra_len as usize)?;
    let data = reader.read_slice(compressed_size as usize)?;
    Ok(
        Entry {
            flags,
            method,
            mod_time,
            mod_date,
            checksum,
            compressed_size,
            uncompressed_size,
            name,
            extra,
            data,
        },
    )
}

/// What becomes of an entry once its bytes went through the decompressor:
/// `expanded` is what the decompressor gave, or nothing where it gave up.
pub open spec fn expansion(expanded: Option<Seq<u8>>, declared: u32) -> Result<Seq<u8>, Error> {
    match expanded {
        None => Err(Error::DecompressionFailed),
        Some(content) => if content.len() == declared {
            Ok(content)
        } else {
            Err(Error::DecompressionSizeMismatch)
        },
    }
}

/// What the content of an entry stands for.
pub open spec fn content_of(r: Result<Vec<u8>, Error>) -> Result<Seq<u8>, Error> {
    match r {
        Ok(content) => Ok(content@),
        Err(e) => Err(e),
    }
}

/// What the decompressor's answer stands for.
pub open spec fn answer_of(expanded: Option<Vec<u8>>) -> Option<Seq<u8>> {
    match expanded {
        Some(content) => Some(content@),
        None => None,
    }
}

/// Takes what the decompressor gave for an entry when it is as long as the
/// entry's header declares.
pub fn check_expansion(expanded: Option<Vec<u8>>, declared: u32) -> (r: Result<Vec<u8>, Error>)
    ensures
        content_of(r) == expansion(answer_of(expanded), declared),
{
    match expanded {
        None => Err(Error::DecompressionFailed),
        Some(content) => if content.len() == declared as usize {
            Ok(content)
        } else {
            Err(Error::DecompressionSizeMismatch)
        },
    }
}

/// `inflate::inflate_bytes`: the expansion of a raw DEFLATE stream, or
/// nothing where the crate reports an error. Nothing is claimed of what
/// comes back: the decoder sizes its window by the capacity of a buffer
/// that it allocates, so the result is not taken to depend on the stream
/// alone.
#[verifier::external_body]
fn expand_stream(stream: &[u8]) -> (expanded: Option<Vec<u8>>) {
    inflate::inflate_bytes(stream).ok()
}

/// The uncompressed content of the first entry of an archive. The entry has
/// to be deflated, and what the decompressor gives has to be as long as
/// the header declares.
pub fn extract(archive: &[u8]) -> (r: Result<Vec<u8>, Error>)
    ensures
        match entry_of(archive@) {
            Err(e) => r == Err::<Vec<u8>, Error>(e),
            Ok(entry) => if entry.method != DEFLATED {
                r == Err::<Vec<u8>, Error>(Error::InvalidFormat)
            } else {
                exists|expanded: Option<Seq<u8>>|
                    content_of(r) == #[trigger] expansion(expanded, entry.uncompressed_size)
            },
        },
{
    let entry = read_entry(archive)?;
    if entry.method != DEFLATED {
        return Err(Error::InvalidFormat);
    }
    let expanded = expand_stream(entry.data);
    let ghost answer = answer_of(expanded);
    let r = check_expansion(expanded, entry.uncompressed_size);
    assert(content_of(r) == expansion(answer, entry_of(archive@)->Ok_0.uncompressed_size));
    r
}

/// The DEFLATE stream that `deflate` makes of `input` at its default
/// settings.
pub uninterp spec fn deflated(input: Seq<u8>) -> Seq<u8>;

/// `deflate::deflate_bytes`: the input as a raw DEFLATE stream, compressed
/// at the default level. The contract only gives the result its name.
#[verifier::external_body]
fn compress(input: &[u8]) -> (packed: Vec<u8>)
    ensures
        packed@ == deflated(input@),
{
    deflate::deflate_bytes(input)
}

/// The three fields that are patched into a template: the checksum of the
/// content, the length of the compressed entry and the length of the
/// content, each as a little-endian 32-bit integer, the lengths modulo
/// 2^32.
pub open spec fn stamp(checksum: u32, packed_len: nat, content_len: nat) -> Seq<u8> {
    u32_to_le(checksum) + u32_to_le(low_u32(packed_len)) + u32_to_le(low_u32(content_len))
}

/// The three patched fields are twelve bytes long.
pub proof fn lemma_stamp_len(checksum: u32, packed_len: nat, content_len: nat)
    ensures
        stamp(checksum, packed_len, content_len).len() == 12,
{
    lemma_u32_le_inverse(checksum, Seq::empty());
    lemma_u32_le_inverse(low_u32(packed_len), Seq::empty());
    lemma_u32_le_inverse(low_u32(content_len), Seq::empty());
}

/// The archive around a compressed entry: the local file header, the
/// entry, and the directory, with the checksum and the two sizes patched
/// into the header and into the directory record.
pub open spec fn container(checksum: u32, packed: Seq<u8>, content_len: nat) -> Seq<u8> {
    patched(HEAD@, HEAD_PATCH as int, stamp(checksum, packed.len(), content_len)) + packed
        + patched(TAIL@, TAIL_PATCH as int, stamp(checksum, packed.len(), content_len))
}

/// Overwrites the checksum and the two sizes that start at `at`.
pub fn patch_sizes(out: &mut Vec<u8>, at: usize, checksum: u32, packed_len: usize, content_len: usize)
    requires
        at + 12 <= old(out).len(),
    ensures
        final(out)@ == patched(
            old(out)@,
            at as int,
            stamp(checksum, packed_len as nat, content_len as nat),
        ),
{
    patch_u32_le(out, at, checksum);
    patch_u32_le(out, at + 4, truncate_len(packed_len));
    patch_u32_le(out, at + 8, truncate_len(content_len));
    proof {
        lemma_u32_le_inverse(checksum, Seq::empty());
        lemma_u32_le_inverse(low_u32(packed_len as nat), Seq::empty());
        lemma_u32_le_inverse(low_u32(content_len as nat), Seq::empty());
    }
    assert(out@ =~= patched(
        old(out)@,
        at as int,
        stamp(checksum, packed_len as nat, content_len as nat),
    ));
}

/// Builds the archive around a compressed entry, given the checksum and
/// the length of the content that was compressed.
pub fn assemble(checksum: u32, packed: &[u8], content_len: usize) -> (archive: Vec<u8>)
    ensures
        archive@ == container(checksum, packed@, content_len as nat),
{
    let mut out: Vec<u8> = Vec::new();
    out.extend_from_slice(HEAD.as_slice());
    patch_sizes(&mut out, HEAD_PATCH, checksum, packed.len(), content_len);
    out.extend_from_slice(packed);
    let mut tail: Vec<u8> = Vec::new();
    tail.extend_from_slice(TAIL.as_slice());
    patch_sizes(&mut tail, TAIL_PATCH, checksum, packed.len(), content_len);
    out.extend_from_slice(tail.as_slice());
    proof {
        lemma_stamp_len(checksum, packed@.len(), content_len as nat);
    }
    assert(out@ =~= container(checksum, packed@, content_len as nat));
    out
}

/// Compresses `content` and builds the archive around it. The checksum in
/// the archive is the CRC-32 of the content as it was before compression.
pub fn pack(content: &[u8]) -> (archive: Vec<u8>)
    ensures
        archive@ == container(crc32(content@), deflated(content@), content@.len()),
{
    let packed = compress(content);
    let checksum = Crc32.checksum(content);
    assemble(checksum, packed.as_slice(), content.len())
}

} // verus!
