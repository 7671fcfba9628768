use brs_codec::block::{push_all, write_block, ByteSource};
use brs_codec::read::ReadError;

fn noise(n: usize) -> Vec<u8> {
    let mut state: u32 = 0x1234_5678;
    let mut out = Vec::with_capacity(n);
    for _ in 0..n {
        state = state.wrapping_mul(1664525).wrapping_add(1013904223);
        out.push((state >> 24) as u8);
    }
    out
}

fn framed(payload: &Vec<u8>) -> Vec<u8> {
    let mut out = Vec::new();
    assert_eq!(write_block(&mut out, payload), Ok(()));
    out
}

fn read_back(wire: Vec<u8>) -> Result<Vec<u8>, ReadError> {
    ByteSource::new(wire).read_block()
}

#[test]
fn an_empty_block_is_two_zero_lengths() {
    let wire = framed(&Vec::new());
    assert_eq!(wire, vec![0, 0, 0, 0, 0, 0, 0, 0]);
    assert_eq!(read_back(wire), Ok(Vec::new()));
}

#[test]
fn a_short_block_is_stored_as_it_is() {
    let wire = framed(&vec![1, 2, 3]);
    assert_eq!(wire, vec![3, 0, 0, 0, 0, 0, 0, 0, 1, 2, 3]);
    assert_eq!(read_back(wire), Ok(vec![1, 2, 3]));
}

#[test]
fn noise_is_stored_as_it_is() {
    let payload = noise(1000);
    let wire = framed(&payload);
    assert_eq!(wire.len(), 8 + 1000);
    assert_eq!(&wire[0..8], &[0xE8, 3, 0, 0, 0, 0, 0, 0]);
    assert_eq!(&wire[8..], &payload[..]);
    assert_eq!(read_back(wire), Ok(payload));
}

#[test]
fn repetitive_bytes_are_deflated() {
    let payload = vec![7u8; 10000];
    let wire = framed(&payload);
    assert_eq!(&wire[0..4], &[0x10, 0x27, 0, 0]);
    let packed = u32::from_le_bytes([wire[4], wire[5], wire[6], wire[7]]) as usize;
    assert!(packed > 0);
    assert!(packed < 10000);
    assert_eq!(wire.len(), 8 + packed);
    // a zlib stream begins with the byte 0x78
    assert_eq!(wire[8], 0x78);
    assert_eq!(read_back(wire), Ok(payload));
}

#[test]
fn a_block_never_costs_more_than_eight_bytes() {
    for payload in [Vec::new(), vec![0u8; 1], noise(17), noise(4096), vec![1u8; 4096]] {
        let wire = framed(&payload);
        assert!(wire.len() <= 8 + payload.len());
        assert_eq!(read_back(wire), Ok(payload));
    }
}

#[test]
fn a_block_is_appended_and_read_with_what_follows() {
    let mut out = vec![9, 9];
    assert_eq!(write_block(&mut out, &vec![5, 6]), Ok(()));
    push_all(&mut out, &[42]);
    assert_eq!(out, vec![9, 9, 2, 0, 0, 0, 0, 0, 0, 0, 5, 6, 42]);
    let mut source = ByteSource::new(out);
    assert_eq!(source.take(2), Some(vec![9, 9]));
    assert_eq!(source.read_block(), Ok(vec![5, 6]));
    assert_eq!(source.take(1), Some(vec![42]));
    assert_eq!(source.take(1), None);
}

#[test]
fn a_block_that_ends_early_is_truncated() {
    assert_eq!(read_back(vec![3, 0, 0]), Err(ReadError::Truncated));
    assert_eq!(read_back(vec![3, 0, 0, 0, 0, 0, 0, 0, 1, 2]), Err(ReadError::Truncated));
    assert_eq!(read_back(vec![3, 0, 0, 0, 9, 0, 0, 0, 1, 2]), Err(ReadError::Truncated));
}

#[test]
fn a_negative_length_is_refused() {
    assert_eq!(read_back(vec![255, 255, 255, 255, 0, 0, 0, 0]), Err(ReadError::BadLength));
    assert_eq!(read_back(vec![1, 0, 0, 0, 0, 0, 0, 128, 1]), Err(ReadError::BadLength));
}

#[test]
fn bytes_that_are_no_zlib_stream_are_refused() {
    assert_eq!(
        read_back(vec![10, 0, 0, 0, 5, 0, 0, 0, 1, 2, 3, 4, 5]),
        Err(ReadError::Inflate)
    );
}

#[test]
fn a_block_that_inflates_to_another_length_is_refused() {
    let mut wire = framed(&vec![7u8; 10000]);
    wire[0] = 0x11;
    assert_eq!(read_back(wire), Err(ReadError::LengthMismatch));
}

#[test]
fn numbers_of_the_frame_are_read_lowest_byte_first() {
    let mut source = ByteSource::new(vec![10, 0, 0xFE, 0xFF, 0xFF, 0xFF, 1]);
    assert_eq!(source.read_u16(), Some(10));
    assert_eq!(source.read_i32(), Some(-2));
    assert_eq!(source.read_u16(), None);
    assert_eq!(source.take(1), Some(vec![1]));
}
