//! Reading from the front of a buffer, and the lengths of the framing.

use redb_cli::le::{get_le, put_le};
use redb_cli::wire::{
    put_varint, take, take_all, take_n, take_u32_len, take_u8, take_varint, TakeError,
};

#[test]
fn take_n_takes_the_front() {
    let buf = [1u8, 2, 3, 4];
    let mut data: &[u8] = &buf;
    assert_eq!(take_n(&mut data, 2), Ok(&[1u8, 2][..]));
    assert_eq!(data, &[3, 4]);
    assert_eq!(take_n(&mut data, 0), Ok(&[][..]));
    assert_eq!(data, &[3, 4]);
    assert_eq!(take_n(&mut data, 3), Err(TakeError::OffBuffer));
    assert_eq!(data, &[3, 4]);
    assert_eq!(take_n(&mut data, 2), Ok(&[3u8, 4][..]));
    assert!(data.is_empty());
}

#[test]
fn take_all_leaves_nothing() {
    let buf = [7u8, 8, 9];
    let mut data: &[u8] = &buf;
    assert_eq!(take_all(&mut data), &[7, 8, 9]);
    assert!(data.is_empty());
    assert_eq!(take_all(&mut data), &[] as &[u8]);
}

#[test]
fn take_gives_an_array() {
    let buf = [1u8, 2, 3];
    let mut data: &[u8] = &buf;
    assert_eq!(take::<2>(&mut data), Ok([1, 2]));
    assert_eq!(data, &[3]);
    assert_eq!(take::<2>(&mut data), Err(TakeError::OffBuffer));
    assert_eq!(data, &[3]);
    assert_eq!(take::<0>(&mut data), Ok([]));
}

#[test]
fn take_u8_takes_one_byte() {
    let buf = [200u8];
    let mut data: &[u8] = &buf;
    assert_eq!(take_u8(&mut data), Ok(200));
    assert_eq!(take_u8(&mut data), Err(TakeError::OffBuffer));
}

#[test]
fn take_u32_len_is_little_endian() {
    let buf = [0x78u8, 0x56, 0x34, 0x12, 9];
    let mut data: &[u8] = &buf;
    assert_eq!(take_u32_len(&mut data), Ok(0x12345678));
    assert_eq!(data, &[9]);
    assert_eq!(take_u32_len(&mut data), Err(TakeError::OffBuffer));
    assert_eq!(data, &[9]);
}

#[test]
fn take_varint_reads_each_form() {
    let mut data: &[u8] = &[5, 99];
    assert_eq!(take_varint(&mut data), Ok(5));
    assert_eq!(data, &[99]);

    let mut data: &[u8] = &[253];
    assert_eq!(take_varint(&mut data), Ok(253));

    let mut data: &[u8] = &[254, 0x34, 0x12, 7];
    assert_eq!(take_varint(&mut data), Ok(0x1234));
    assert_eq!(data, &[7]);

    let mut data: &[u8] = &[255, 1, 2, 3, 4];
    assert_eq!(take_varint(&mut data), Ok(0x04030201));
    assert!(data.is_empty());

    // a length in the long form need not be long
    let mut data: &[u8] = &[254, 5, 0];
    assert_eq!(take_varint(&mut data), Ok(5));
}

#[test]
fn take_varint_keeps_a_truncated_buffer() {
    let mut data: &[u8] = &[];
    assert_eq!(take_varint(&mut data), Err(TakeError::OffBuffer));

    let mut data: &[u8] = &[254, 1];
    assert_eq!(take_varint(&mut data), Err(TakeError::OffBuffer));
    assert_eq!(data, &[254, 1]);

    let mut data: &[u8] = &[255, 1, 2, 3];
    assert_eq!(take_varint(&mut data), Err(TakeError::OffBuffer));
    assert_eq!(data, &[255, 1, 2, 3]);
}

#[test]
fn put_varint_writes_each_form() {
    let cases: Vec<(usize, Vec<u8>)> = vec![
        (0, vec![0]),
        (1, vec![1]),
        (253, vec![253]),
        (254, vec![254, 254, 0]),
        (255, vec![254, 255, 0]),
        (65535, vec![254, 255, 255]),
        (65536, vec![255, 0, 0, 1, 0]),
        (4294967295, vec![255, 255, 255, 255, 255]),
    ];
    for (len, bytes) in cases {
        let mut buf = vec![42];
        put_varint(len, &mut buf);
        assert_eq!(&buf[1..], bytes.as_slice());
        assert_eq!(buf[0], 42);
        let mut data: &[u8] = &buf[1..];
        assert_eq!(take_varint(&mut data), Ok(len));
        assert!(data.is_empty());
    }
}

#[test]
fn take_error_says_what_happened() {
    assert_eq!(TakeError::OffBuffer.message(), "Off the data buffer");
}

#[test]
fn little_endian_numbers() {
    let mut buf = Vec::new();
    put_le(0x0102030405, 8, &mut buf);
    assert_eq!(buf, vec![5, 4, 3, 2, 1, 0, 0, 0]);
    assert_eq!(get_le(&buf, 0), 0x0102030405);
    assert_eq!(get_le(&buf, 3), 0x0102);
    assert_eq!(get_le(&buf, 8), 0);

    // only the low bytes are written
    let mut buf = Vec::new();
    put_le(0x1234, 1, &mut buf);
    assert_eq!(buf, vec![0x34]);

    let mut buf = Vec::new();
    put_le(u128::MAX, 16, &mut buf);
    assert_eq!(buf, vec![255; 16]);
    assert_eq!(get_le(&buf, 0), u128::MAX);
}
