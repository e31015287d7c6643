use mmr_verifier::error::DecodeError;
use mmr_verifier::wire::{push_le, read_le, Reader, MAX_ITEM_LEN};

#[test]
fn push_le_writes_least_significant_byte_first() {
    let mut out: Vec<u8> = vec![0xff];
    push_le(&mut out, 0x0102, 2);
    assert_eq!(out, vec![0xff, 0x02, 0x01]);
    push_le(&mut out, 0x0807_0605_0403_0201, 8);
    assert_eq!(out, vec![0xff, 0x02, 0x01, 1, 2, 3, 4, 5, 6, 7, 8]);
}

#[test]
fn push_le_of_width_zero_writes_nothing() {
    let mut out: Vec<u8> = vec![9];
    push_le(&mut out, 0, 0);
    assert_eq!(out, vec![9]);
}

#[test]
fn read_le_reads_at_an_offset() {
    let data = [0xaa, 0x34, 0x12, 0xbb];
    assert_eq!(read_le(&data, 1, 2), 0x1234);
    assert_eq!(read_le(&data, 0, 0), 0);
    assert_eq!(read_le(&data, 0, 4), 0xbb12_34aa);
}

#[test]
fn read_le_inverts_push_le_at_the_widest() {
    let mut out: Vec<u8> = Vec::new();
    push_le(&mut out, u64::MAX, 8);
    assert_eq!(out, vec![0xff; 8]);
    assert_eq!(read_le(&out, 0, 8), u64::MAX);
    let mut short: Vec<u8> = Vec::new();
    push_le(&mut short, 65535, 2);
    assert_eq!(read_le(&short, 0, 2), MAX_ITEM_LEN as u64);
}

#[test]
fn reader_hands_out_bytes_in_order() {
    let data = [1u8, 2, 3, 4, 5];
    let mut reader = Reader::new(&data);
    assert_eq!(reader.remaining(), 5);
    assert_eq!(reader.take(2), Ok(&data[0..2]));
    assert_eq!(reader.remaining(), 3);
    assert_eq!(reader.take(0), Ok(&data[2..2]));
    assert_eq!(reader.take(3), Ok(&data[2..5]));
    assert_eq!(reader.remaining(), 0);
}

#[test]
fn reader_refuses_to_read_past_the_end_and_stays_put() {
    let data = [1u8, 2, 3];
    let mut reader = Reader::new(&data);
    assert_eq!(reader.take(4), Err(DecodeError::UnexpectedEof));
    assert_eq!(reader.remaining(), 3);
    assert_eq!(reader.take(usize::MAX), Err(DecodeError::UnexpectedEof));
    assert_eq!(reader.take(3), Ok(&data[..]));
    assert_eq!(reader.take(1), Err(DecodeError::UnexpectedEof));
}

#[test]
fn reader_reads_numbers() {
    let data = [0x10u8, 0x27, 1, 0, 0, 0, 0, 0, 0, 0x80, 7];
    let mut reader = Reader::new(&data);
    assert_eq!(reader.read_le(2), Ok(10000));
    assert_eq!(reader.read_le(8), Ok(0x8000_0000_0000_0001));
    assert_eq!(reader.read_le(2), Err(DecodeError::UnexpectedEof));
    assert_eq!(reader.remaining(), 1);
}
