use gamedata_codec::checksum::{Checksum, Crc32};
use gamedata_codec::envelope::{
    accept, backpatch, deserialize, frame, reserve_header, serialize, unwrap, wrap, File, Frame,
};
use gamedata_codec::error::Error;
use gamedata_codec::value::Data;

/// A checksum for tests: the sum of the bytes.
struct ByteSum;

impl Checksum for ByteSum {
    fn checksum(&self, bytes: &[u8]) -> u32 {
        let mut sum: u32 = 0;
        for b in bytes {
            sum = sum.wrapping_add(*b as u32);
        }
        sum
    }
}

#[test]
fn wrap_lays_out_the_header() {
    let bytes = wrap(&ByteSum, 1, &[1, 2, 3]);
    assert_eq!(
        bytes,
        vec![0xFF, 0x00, 0xFE, 0x01, 0, 0, 0, 6, 0, 0, 0, 1, 0, 0, 0, 3, 1, 2, 3]
    );
    let bytes = wrap(&ByteSum, 0x01020304, &[]);
    assert_eq!(
        bytes,
        vec![0xFF, 0x00, 0xFE, 0x01, 0, 0, 0, 0, 1, 2, 3, 4, 0, 0, 0, 0]
    );
}

#[test]
fn wrap_uses_the_checksum_it_is_given() {
    let payload = b"some payload";
    let bytes = wrap(&Crc32, 1, payload);
    assert_eq!(&bytes[4..8], &crc32fast::hash(payload).to_be_bytes());
    assert_ne!(&bytes[4..8], &wrap(&ByteSum, 1, payload)[4..8]);
}

#[test]
fn unwrap_gives_back_what_was_wrapped() {
    let payload = [9u8, 8, 7, 6, 5];
    let bytes = wrap(&Crc32, 1, &payload);
    assert_eq!(unwrap(&Crc32, &bytes), Ok((1, &payload[..])));
    let bytes = wrap(&ByteSum, 1, &payload);
    assert_eq!(unwrap(&ByteSum, &bytes), Ok((1, &payload[..])));
    let empty = wrap(&ByteSum, 1, &[]);
    assert_eq!(unwrap(&ByteSum, &empty), Ok((1, &[] as &[u8])));
}

#[test]
fn unwrap_refuses_another_record_count() {
    let bytes = wrap(&ByteSum, 2, &[9, 8, 7]);
    assert_eq!(unwrap(&ByteSum, &bytes), Err(Error::RecordCountUnsupported));
    let bytes = wrap(&ByteSum, 0, &[9, 8, 7]);
    assert_eq!(unwrap(&ByteSum, &bytes), Err(Error::RecordCountUnsupported));
}

#[test]
fn unwrap_refuses_a_changed_payload() {
    let payload = [9u8, 8, 7, 6, 5];
    for at in 0..payload.len() {
        let mut bytes = wrap(&Crc32, 1, &payload);
        bytes[16 + at] ^= 0x40;
        assert_eq!(unwrap(&Crc32, &bytes), Err(Error::ChecksumMismatch));
        let mut bytes = wrap(&ByteSum, 1, &payload);
        bytes[16 + at] = bytes[16 + at].wrapping_add(1);
        assert_eq!(unwrap(&ByteSum, &bytes), Err(Error::ChecksumMismatch));
    }
}

#[test]
fn unwrap_checks_the_checksum_before_the_record_count() {
    let mut bytes = wrap(&ByteSum, 2, &[9, 8, 7]);
    bytes[16] = 10;
    assert_eq!(unwrap(&ByteSum, &bytes), Err(Error::ChecksumMismatch));
}

#[test]
fn unwrap_refuses_a_wrong_marker() {
    let mut bytes = wrap(&ByteSum, 1, &[1, 2, 3]);
    bytes[3] = 0x02;
    assert_eq!(unwrap(&ByteSum, &bytes), Err(Error::BadMagic));
    assert_eq!(unwrap(&ByteSum, &[0xFF, 0x00, 0xFE, 0x00]), Err(Error::BadMagic));
    assert_eq!(unwrap(&ByteSum, b"PK\x03\x04 and more bytes"), Err(Error::BadMagic));
}

#[test]
fn declared_length_past_the_end_is_out_of_data() {
    let mut bytes = wrap(&ByteSum, 1, &[1, 2, 3]);
    bytes[15] = 4;
    assert_eq!(unwrap(&ByteSum, &bytes), Err(Error::OutOfData));
    bytes[12] = 0xFF;
    assert_eq!(unwrap(&ByteSum, &bytes), Err(Error::OutOfData));
}

#[test]
fn short_envelopes_are_out_of_data() {
    let bytes = wrap(&ByteSum, 1, &[]);
    for len in 0..16 {
        assert_eq!(unwrap(&ByteSum, &bytes[..len]), Err(Error::OutOfData));
    }
    assert_eq!(unwrap(&ByteSum, &bytes), Ok((1, &[] as &[u8])));
}

#[test]
fn bytes_behind_the_declared_length_are_left_out() {
    let mut bytes = wrap(&ByteSum, 1, &[1, 2, 3]);
    bytes.extend_from_slice(&[0xAA, 0xBB]);
    assert_eq!(unwrap(&ByteSum, &bytes), Ok((1, &[1u8, 2, 3][..])));
}

#[test]
fn frame_reads_the_header_fields() {
    let bytes = [
        0xFF, 0x00, 0xFE, 0x01, 1, 2, 3, 4, 0, 0, 0, 7, 0, 0, 0, 2, 0xAA, 0xBB, 0xCC,
    ];
    assert_eq!(
        frame(&bytes),
        Ok(Frame {
            checksum: 0x01020304,
            record_count: 7,
            payload: &[0xAA, 0xBB],
        })
    );
}

#[test]
fn accept_compares_the_checksum_and_then_the_count() {
    let payload = [1u8, 2];
    let one = Frame {
        checksum: 5,
        record_count: 1,
        payload: &payload,
    };
    let two = Frame {
        checksum: 5,
        record_count: 2,
        payload: &payload,
    };
    assert_eq!(accept(one, 5), Ok((1, &payload[..])));
    assert_eq!(accept(one, 6), Err(Error::ChecksumMismatch));
    assert_eq!(accept(two, 5), Err(Error::RecordCountUnsupported));
    assert_eq!(accept(two, 6), Err(Error::ChecksumMismatch));
}

#[test]
fn header_is_reserved_and_then_filled_in() {
    let mut out = vec![0xEE];
    reserve_header(&mut out);
    assert_eq!(
        out,
        vec![0xEE, 0xFF, 0x00, 0xFE, 0x01, 0, 0, 0, 0, 0, 0, 0, 0, 0, 0, 0, 0]
    );
    out.push(0x77);
    backpatch(&mut out, 1, 0x0A0B0C0D, 1, 0x01020304);
    assert_eq!(
        out,
        vec![0xEE, 0xFF, 0x00, 0xFE, 0x01, 0x0A, 0x0B, 0x0C, 0x0D, 0, 0, 0, 1, 1, 2, 3, 4, 0x77]
    );
}

#[test]
fn serialize_writes_an_envelope_with_one_record() {
    let file = File {
        data: Data::Table(vec![(Data::String("foo"), Data::Boolean(true))]),
    };
    let mut out = Vec::new();
    assert_eq!(serialize(&ByteSum, &file, &mut out), Ok(()));
    let payload = [0u8, 0, 0, 1, 0x08, 0, 3, b'f', b'o', b'o', 0x0A, 1];
    assert_eq!(out, wrap(&ByteSum, 1, &payload));
}

#[test]
fn serialize_appends_behind_what_is_there() {
    let file = File {
        data: Data::Table(vec![]),
    };
    let mut out = vec![1u8, 2, 3];
    assert_eq!(serialize(&ByteSum, &file, &mut out), Ok(()));
    let mut expected = vec![1u8, 2, 3];
    expected.extend_from_slice(&wrap(&ByteSum, 1, &[0, 0, 0, 0]));
    assert_eq!(out, expected);
}

#[test]
fn serialize_fails_on_a_long_string_and_writes_nothing() {
    let too_long = "a".repeat(300);
    let file = File {
        data: Data::Table(vec![(Data::String("k"), Data::String(&too_long))]),
    };
    let mut out = vec![1u8, 2, 3];
    assert_eq!(
        serialize(&ByteSum, &file, &mut out),
        Err(Error::ValueTooLarge)
    );
    assert_eq!(out, vec![1, 2, 3]);
}

#[test]
fn deserialize_reads_what_serialize_wrote() {
    let file = File {
        data: Data::Table(vec![
            (Data::String("foo"), Data::Boolean(true)),
            (
                Data::String("bar"),
                Data::Table(vec![(Data::String("n"), Data::Uint64(1 << 40))]),
            ),
            (Data::String("raw"), Data::Unknown(0x0C, b"12345678")),
        ]),
    };
    let mut out = Vec::new();
    assert_eq!(serialize(&Crc32, &file, &mut out), Ok(()));
    assert_eq!(deserialize(&Crc32, &out), Ok(file));
}

#[test]
fn deserialize_reports_what_unwrap_refuses() {
    let payload = [0u8, 0, 0, 0];
    let mut bytes = wrap(&ByteSum, 1, &payload);
    bytes[0] = 0;
    assert_eq!(deserialize(&ByteSum, &bytes), Err(Error::BadMagic));
    let mut bytes = wrap(&ByteSum, 1, &payload);
    bytes[7] ^= 1;
    assert_eq!(deserialize(&ByteSum, &bytes), Err(Error::ChecksumMismatch));
    let bytes = wrap(&ByteSum, 3, &payload);
    assert_eq!(
        deserialize(&ByteSum, &bytes),
        Err(Error::RecordCountUnsupported)
    );
}

#[test]
fn deserialize_reports_what_the_codec_refuses() {
    let bytes = wrap(&ByteSum, 1, &[0, 0, 0, 1, 0x33, 0]);
    assert_eq!(deserialize(&ByteSum, &bytes), Err(Error::UnsupportedTag(0x33)));
    let bytes = wrap(&ByteSum, 1, &[0, 0, 0]);
    assert_eq!(deserialize(&ByteSum, &bytes), Err(Error::OutOfData));
}

#[test]
fn deserialize_does_not_read_past_the_payload() {
    let mut bytes = wrap(&ByteSum, 1, &[0, 0, 0, 1, 0x0A, 1]);
    bytes.extend_from_slice(&[0x0A, 0]);
    assert_eq!(deserialize(&ByteSum, &bytes), Err(Error::OutOfData));
}
