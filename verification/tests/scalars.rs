use brs_codec::brick::IndexField;
use brs_codec::stream::{BitSink, BitSource};
use brs_codec::write::WriteError;

fn packed_uint(v: u32) -> Vec<u8> {
    let mut sink = BitSink::new();
    sink.write_uint_packed(v);
    sink.finish()
}

fn packed_int(v: i32) -> Vec<u8> {
    let mut sink = BitSink::new();
    sink.write_int_packed(v);
    sink.finish()
}

#[test]
fn empty_sink_gives_no_bytes() {
    assert_eq!(BitSink::new().finish(), Vec::<u8>::new());
}

#[test]
fn bits_fill_bytes_from_the_lowest_bit() {
    let mut sink = BitSink::new();
    sink.write_uint(5, 3);
    sink.write_uint(1, 1);
    sink.write_uint(0xAB, 8);
    assert_eq!(sink.finish(), vec![189, 10]);
}

#[test]
fn bits_are_read_as_written() {
    let mut source = BitSource::new(vec![189, 10]);
    assert_eq!(source.read_uint(3), Some(5));
    assert_eq!(source.read_flag(), Some(true));
    assert_eq!(source.read_uint(8), Some(0xAB));
    assert_eq!(source.read_uint(4), Some(0));
    assert_eq!(source.read_flag(), None);
}

#[test]
fn reading_past_the_end_fails() {
    let mut source = BitSource::new(vec![0xFF]);
    assert_eq!(source.read_uint(9), None);
    let mut source = BitSource::new(vec![1, 2, 3]);
    assert_eq!(source.read_bytes(4), None);
    let mut source = BitSource::new(vec![1, 2, 3]);
    assert_eq!(source.read_i32(), None);
}

#[test]
fn a_width_of_zero_reads_nothing() {
    let mut source = BitSource::new(vec![7]);
    assert_eq!(source.read_uint(0), Some(0));
    assert_eq!(source.read_uint(8), Some(7));
}

#[test]
fn bytes_are_read_across_byte_boundaries() {
    let mut sink = BitSink::new();
    sink.write_uint(1, 1);
    sink.write_i32(0x0102_0304);
    let bytes = sink.finish();
    assert_eq!(bytes.len(), 5);
    let mut source = BitSource::new(bytes);
    assert_eq!(source.read_flag(), Some(true));
    assert_eq!(source.read_bytes(4), Some(vec![4, 3, 2, 1]));
}

#[test]
fn signed_numbers_take_four_bytes_lowest_first() {
    let mut sink = BitSink::new();
    sink.write_i32(0x0102_0304);
    sink.write_i32(-2);
    sink.write_u32(0xFFFF_FFFE);
    let bytes = sink.finish();
    assert_eq!(bytes, vec![4, 3, 2, 1, 254, 255, 255, 255, 254, 255, 255, 255]);
    let mut source = BitSource::new(bytes);
    assert_eq!(source.read_i32(), Some(0x0102_0304));
    assert_eq!(source.read_i32(), Some(-2));
    assert_eq!(source.read_u32(), Some(0xFFFF_FFFE));
}

#[test]
fn counts_are_not_negative() {
    let mut sink = BitSink::new();
    assert_eq!(sink.write_count(7), Ok(()));
    assert_eq!(sink.write_count(0x8000_0000), Err(WriteError::TooLarge));
    sink.write_i32(-1);
    let bytes = sink.finish();
    assert_eq!(bytes, vec![7, 0, 0, 0, 255, 255, 255, 255]);
    let mut source = BitSource::new(bytes);
    assert_eq!(source.read_count(), Some(7));
    assert_eq!(source.read_count(), None);
}

#[test]
fn text_is_its_length_and_its_bytes() {
    let mut sink = BitSink::new();
    assert_eq!(sink.write_string(&String::from("hi")), Ok(()));
    assert_eq!(sink.write_string(&String::from("é")), Ok(()));
    assert_eq!(sink.write_string(&String::new()), Ok(()));
    let bytes = sink.finish();
    assert_eq!(bytes, vec![2, 0, 0, 0, 104, 105, 2, 0, 0, 0, 0xC3, 0xA9, 0, 0, 0, 0]);
    let mut source = BitSource::new(bytes);
    assert_eq!(source.read_string(), Some(String::from("hi")));
    assert_eq!(source.read_string(), Some(String::from("é")));
    assert_eq!(source.read_string(), Some(String::new()));
    assert_eq!(source.read_string(), None);
}

#[test]
fn text_that_is_not_utf8_is_refused() {
    let mut source = BitSource::new(vec![2, 0, 0, 0, 0xC3, 0x28]);
    assert_eq!(source.read_string(), None);
}

#[test]
fn text_longer_than_what_is_left_is_refused() {
    let mut source = BitSource::new(vec![3, 0, 0, 0, 104, 105]);
    assert_eq!(source.read_string(), None);
    let mut source = BitSource::new(vec![255, 255, 255, 127, 104, 105]);
    assert_eq!(source.read_string(), None);
}

#[test]
fn packed_unsigned_exact_bytes() {
    assert_eq!(packed_uint(0), vec![0]);
    assert_eq!(packed_uint(1), vec![2]);
    assert_eq!(packed_uint(127), vec![254]);
    assert_eq!(packed_uint(128), vec![1, 2]);
    assert_eq!(packed_uint(300), vec![89, 4]);
    assert_eq!(packed_uint(u32::MAX), vec![255, 255, 255, 255, 30]);
}

#[test]
fn packed_signed_exact_bytes() {
    assert_eq!(packed_int(0), vec![2]);
    assert_eq!(packed_int(1), vec![6]);
    assert_eq!(packed_int(-1), vec![4]);
    assert_eq!(packed_int(i32::MAX), vec![255, 255, 255, 255, 30]);
    assert_eq!(packed_int(i32::MIN), vec![1, 1, 1, 1, 32]);
}

#[test]
fn packed_unsigned_round_trip() {
    for v in [0u32, 1, 2, 63, 127, 128, 129, 300, 16383, 16384, 0x7FFF_FFFF, 0x8000_0000, u32::MAX] {
        let mut source = BitSource::new(packed_uint(v));
        assert_eq!(source.read_uint_packed(), Some(v));
        assert_eq!(source.read_flag(), None);
    }
}

#[test]
fn packed_signed_round_trip() {
    for v in [0i32, 1, -1, 63, -63, 64, -64, 1000, -1000, i32::MAX, i32::MIN, i32::MIN + 1] {
        let mut source = BitSource::new(packed_int(v));
        assert_eq!(source.read_int_packed(), Some(v));
        assert_eq!(source.read_flag(), None);
    }
}

#[test]
fn packed_numbers_round_trip_off_the_byte_boundary() {
    let mut sink = BitSink::new();
    sink.write_uint(1, 3);
    sink.write_uint_packed(70000);
    sink.write_int_packed(-70000);
    let mut source = BitSource::new(sink.finish());
    assert_eq!(source.read_uint(3), Some(1));
    assert_eq!(source.read_uint_packed(), Some(70000));
    assert_eq!(source.read_int_packed(), Some(-70000));
}

#[test]
fn packed_numbers_that_are_too_large_are_refused() {
    // 2^32 as an unsigned number
    let mut source = BitSource::new(vec![1, 1, 1, 1, 32]);
    assert_eq!(source.read_uint_packed(), None);
    // magnitude 2^31 with the sign of a positive number
    let mut source = BitSource::new(vec![3, 1, 1, 1, 32]);
    assert_eq!(source.read_int_packed(), None);
    // a sixth group
    let mut source = BitSource::new(vec![1, 1, 1, 1, 1, 0]);
    assert_eq!(source.read_uint_packed(), None);
    // the bytes end within the number
    let mut source = BitSource::new(vec![1, 1]);
    assert_eq!(source.read_uint_packed(), None);
}

#[test]
fn negative_zero_is_read_as_zero() {
    let mut source = BitSource::new(vec![0]);
    assert_eq!(source.read_int_packed(), Some(0));
}

#[test]
fn index_width_is_never_zero() {
    assert_eq!(IndexField::of(0), IndexField { count: 2, width: 1 });
    assert_eq!(IndexField::of(1), IndexField { count: 2, width: 1 });
    assert_eq!(IndexField::of(2), IndexField { count: 2, width: 1 });
}

#[test]
fn index_width_is_the_least_that_tells_the_entries_apart() {
    assert_eq!(IndexField::of(3).width, 2);
    assert_eq!(IndexField::of(4).width, 2);
    assert_eq!(IndexField::of(5).width, 3);
    assert_eq!(IndexField::of(8).width, 3);
    assert_eq!(IndexField::of(9).width, 4);
    assert_eq!(IndexField::of(256).width, 8);
    assert_eq!(IndexField::of(257).width, 9);
    assert_eq!(IndexField::of(257).count, 257);
    assert_eq!(IndexField::of(usize::MAX).width, 64);
}

#[test]
fn finishing_pads_with_zero_bits() {
    let mut sink = BitSink::new();
    sink.write_uint(0b111, 3);
    assert_eq!(sink.finish(), vec![7]);
}
