use gamedata_codec::error::Error;
use gamedata_codec::reader::Reader;

#[test]
fn new_reader_has_everything_left() {
    let data = [1u8, 2, 3];
    let reader = Reader::new(&data);
    assert_eq!(reader.remainder(), &[1, 2, 3]);
}

#[test]
fn read_slice_hands_out_bytes_in_order() {
    let data = [1u8, 2, 3, 4, 5];
    let mut reader = Reader::new(&data);
    assert_eq!(reader.read_slice(2), Ok(&[1u8, 2][..]));
    assert_eq!(reader.read_slice(3), Ok(&[3u8, 4, 5][..]));
    assert_eq!(reader.remainder(), &[] as &[u8]);
}

#[test]
fn read_slice_of_nothing_succeeds_at_the_end() {
    let data = [1u8];
    let mut reader = Reader::new(&data);
    assert_eq!(reader.read_slice(1), Ok(&[1u8][..]));
    assert_eq!(reader.read_slice(0), Ok(&[] as &[u8]));
}

#[test]
fn read_slice_past_the_end_is_out_of_data_and_reads_nothing() {
    let data = [1u8, 2, 3];
    let mut reader = Reader::new(&data);
    assert_eq!(reader.read_slice(1), Ok(&[1u8][..]));
    assert_eq!(reader.read_slice(3), Err(Error::OutOfData));
    assert_eq!(reader.remainder(), &[2, 3]);
    assert_eq!(reader.read_slice(2), Ok(&[2u8, 3][..]));
}

#[test]
fn read_slice_with_a_huge_length_is_out_of_data() {
    let data = [1u8, 2, 3];
    let mut reader = Reader::new(&data);
    assert_eq!(reader.read_slice(1), Ok(&[1u8][..]));
    assert_eq!(reader.read_slice(usize::MAX), Err(Error::OutOfData));
    assert_eq!(reader.remainder(), &[2, 3]);
}

#[test]
fn peek_slice_does_not_advance() {
    let data = [7u8, 8, 9];
    let reader = Reader::new(&data);
    assert_eq!(reader.peek_slice(2), Ok(&[7u8, 8][..]));
    assert_eq!(reader.peek_slice(2), Ok(&[7u8, 8][..]));
    assert_eq!(reader.peek_slice(4), Err(Error::OutOfData));
    assert_eq!(reader.remainder(), &[7, 8, 9]);
}

#[test]
fn read_n_gives_an_array() {
    let data = [7u8, 8, 9];
    let mut reader = Reader::new(&data);
    assert_eq!(reader.read_n::<2>(), Ok(&[7u8, 8]));
    assert_eq!(reader.read_n::<2>(), Err(Error::OutOfData));
    assert_eq!(reader.read_n::<1>(), Ok(&[9u8]));
}

#[test]
fn peek_n_gives_an_array_and_stays() {
    let data = [7u8, 8, 9];
    let mut reader = Reader::new(&data);
    assert_eq!(reader.peek_n::<3>(), Ok(&[7u8, 8, 9]));
    assert_eq!(reader.peek_n::<4>(), Err(Error::OutOfData));
    assert_eq!(reader.remainder(), &[7, 8, 9]);
}

#[test]
fn read_u32_is_little_endian() {
    let data = [0x78u8, 0x56, 0x34, 0x12, 0xFF];
    let mut reader = Reader::new(&data);
    assert_eq!(reader.read_u32(), Ok(0x12345678));
    assert_eq!(reader.read_u32(), Err(Error::OutOfData));
    assert_eq!(reader.remainder(), &[0xFF]);
}

#[test]
fn read_u32_be_is_big_endian() {
    let data = [0x12u8, 0x34, 0x56, 0x78];
    let mut reader = Reader::new(&data);
    assert_eq!(reader.read_u32_be(), Ok(0x12345678));
    assert_eq!(reader.read_u32_be(), Err(Error::OutOfData));
}

#[test]
fn read_u32_takes_the_largest_value() {
    let data = [0xFFu8; 8];
    let mut reader = Reader::new(&data);
    assert_eq!(reader.read_u32(), Ok(u32::MAX));
    assert_eq!(reader.read_u32_be(), Ok(u32::MAX));
}

#[test]
fn read_u16_is_little_endian() {
    let data = [0x34u8, 0x12, 0xFF, 0xFF, 0x01];
    let mut reader = Reader::new(&data);
    assert_eq!(reader.read_u16(), Ok(0x1234));
    assert_eq!(reader.read_u16(), Ok(0xFFFF));
    assert_eq!(reader.read_u16(), Err(Error::OutOfData));
    assert_eq!(reader.remainder(), &[0x01]);
}

#[test]
fn ignore_while_stops_at_the_first_window_turned_down() {
    let data = [0u8, 0, 0, 5, 6, 7];
    let mut reader = Reader::new(&data);
    reader.ignore_while(|w: &[u8; 1]| w[0] == 0);
    assert_eq!(reader.remainder(), &[5, 6, 7]);
}

#[test]
fn ignore_while_looks_at_windows_of_the_given_width() {
    let data = [1u8, 2, 3, 0xAA, 0xBB, 9, 9];
    let mut reader = Reader::new(&data);
    reader.ignore_while(|w: &[u8; 2]| *w != [0xAA, 0xBB]);
    assert_eq!(reader.remainder(), &[0xAA, 0xBB, 9, 9]);
}

#[test]
fn ignore_while_leaves_the_last_window_alone() {
    let data = [0u8, 0, 0, 0];
    let mut reader = Reader::new(&data);
    reader.ignore_while(|w: &[u8; 1]| w[0] == 0);
    assert_eq!(reader.remainder(), &[0]);
    let mut short = Reader::new(&data[..1]);
    short.ignore_while(|w: &[u8; 1]| w[0] == 0);
    assert_eq!(short.remainder(), &[0]);
}
