use roxel::reader::{LeReader, ReadError};

#[test]
fn reads_le_integers_in_sequence() {
    let bytes = [
        0xAB, // u8
        0x01, 0x00, 0x00, 0x00, // u32 = 1
        0xFF, 0xFF, 0xFF, 0xFF, // i32 = -1
    ];
    let mut r = LeReader::new(&bytes);
    assert_eq!(r.u8().unwrap(), 0xAB);
    assert_eq!(r.u32().unwrap(), 1);
    assert_eq!(r.i32().unwrap(), -1);
    assert!(r.eof());
}

#[test]
fn errors_at_eof() {
    let bytes = [1u8, 2, 3];
    let mut r = LeReader::new(&bytes);
    assert!(r.u32().is_err());
}

#[test]
fn bytes_borrows_zero_copy_slice() {
    let bytes = [10u8, 20, 30, 40, 50];
    let mut r = LeReader::new(&bytes);
    let slice = r.bytes(3).unwrap();
    assert_eq!(slice, &[10u8, 20, 30]);
    assert_eq!(r.remaining(), 2);
}

#[test]
fn failed_read_reports_offset_and_keeps_position() {
    let bytes = [1u8, 2, 3, 4, 5];
    let mut r = LeReader::new(&bytes);
    assert_eq!(r.u32().unwrap(), 0x0403_0201);
    assert_eq!(r.u32(), Err(ReadError::UnexpectedEof { offset: 4 }));
    assert_eq!(r.remaining(), 1);
    assert_eq!(r.bytes(2), Err(ReadError::UnexpectedEof { offset: 4 }));
    assert_eq!(r.u8(), Ok(5));
    assert!(r.eof());
    assert_eq!(r.u8(), Err(ReadError::UnexpectedEof { offset: 5 }));
}

#[test]
fn huge_byte_request_is_an_error() {
    let bytes = [1u8, 2];
    let mut r = LeReader::new(&bytes);
    assert_eq!(r.u8(), Ok(1));
    assert!(r.bytes(usize::MAX).is_err());
    assert_eq!(r.bytes(1), Ok(&[2u8][..]));
}
