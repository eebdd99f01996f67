use parquet_decoding::errors::ParquetError;
use parquet_decoding::util::bit_util::{
    ceil, i32_from_bits, i64_from_bits, log2, read_le, zigzag_decode, BitReader,
};
use parquet_decoding::util::memory::BytePtr;

fn reader(bytes: &[u8]) -> BitReader {
    BitReader::new(BytePtr::new(bytes.to_vec()))
}

#[test]
fn log2_is_the_least_sufficient_exponent() {
    assert_eq!(log2(0), 0);
    assert_eq!(log2(1), 0);
    assert_eq!(log2(2), 1);
    assert_eq!(log2(3), 2);
    assert_eq!(log2(4), 2);
    assert_eq!(log2(5), 3);
    assert_eq!(log2(8), 3);
    assert_eq!(log2(9), 4);
    assert_eq!(log2(1 << 63), 63);
    assert_eq!(log2((1 << 63) + 1), 64);
    assert_eq!(log2(u64::MAX), 64);
}

#[test]
fn ceil_counts_groups() {
    assert_eq!(ceil(0, 8), 0);
    assert_eq!(ceil(1, 8), 1);
    assert_eq!(ceil(8, 8), 1);
    assert_eq!(ceil(9, 8), 2);
    assert_eq!(ceil(32, 8), 4);
    assert_eq!(ceil(usize::MAX, 1), usize::MAX);
}

#[test]
fn zigzag_interleaves_signs() {
    assert_eq!(zigzag_decode(0), 0);
    assert_eq!(zigzag_decode(1), -1);
    assert_eq!(zigzag_decode(2), 1);
    assert_eq!(zigzag_decode(3), -2);
    assert_eq!(zigzag_decode(4), 2);
    assert_eq!(zigzag_decode(u64::MAX), i64::MIN);
    assert_eq!(zigzag_decode(u64::MAX - 1), i64::MAX);
    for n in [0u64, 1, 2, 3, 77, 1 << 40, u64::MAX] {
        let expected = ((n >> 1) as i64) ^ -((n & 1) as i64);
        assert_eq!(zigzag_decode(n), expected);
    }
}

#[test]
fn twos_complement() {
    assert_eq!(i32_from_bits(0), 0);
    assert_eq!(i32_from_bits(0x7fff_ffff), i32::MAX);
    assert_eq!(i32_from_bits(0x8000_0000), i32::MIN);
    assert_eq!(i32_from_bits(0xffff_ffff), -1);
    assert_eq!(i64_from_bits(0), 0);
    assert_eq!(i64_from_bits(0x7fff_ffff_ffff_ffff), i64::MAX);
    assert_eq!(i64_from_bits(0x8000_0000_0000_0000), i64::MIN);
    assert_eq!(i64_from_bits(u64::MAX), -1);
}

#[test]
fn read_le_is_little_endian() {
    let data = BytePtr::new(vec![0x78, 0x56, 0x34, 0x12, 0xEF, 0xCD, 0xAB, 0x90, 0x01]);
    assert_eq!(read_le(&data, 0, 4), 0x12345678);
    assert_eq!(read_le(&data, 0, 8), 0x90ABCDEF12345678);
    assert_eq!(read_le(&data, 1, 8), 0x0190ABCDEF123456);
    assert_eq!(read_le(&data, 8, 1), 1);
    assert_eq!(read_le(&data, 3, 0), 0);
}

#[test]
fn bits_are_read_from_the_least_significant() {
    let mut r = reader(&[0xD2, 0x02]);
    assert_eq!(r.get_byte_offset(), 0);
    assert_eq!(r.get_value(3), Ok(2));
    assert_eq!(r.get_byte_offset(), 1);
    assert_eq!(r.get_value(5), Ok(26));
    assert_eq!(r.get_byte_offset(), 1);
    assert_eq!(r.get_value(0), Ok(0));
    assert_eq!(r.get_value(4), Ok(2));
    assert_eq!(r.get_byte_offset(), 2);
    assert_eq!(r.get_value(8), Err(ParquetError::NotEnoughBytes));
    assert_eq!(r.get_value(4), Ok(0));
    assert_eq!(r.get_value(1), Err(ParquetError::NotEnoughBytes));
    assert_eq!(r.get_value(0), Ok(0));
}

#[test]
fn bits_cross_bytes() {
    let mut r = reader(&[0xFF, 0x01]);
    assert_eq!(r.get_value(9), Ok(511));
    let mut r = reader(&[0x01, 0x02, 0x03, 0x04, 0x05, 0x06, 0x07, 0x08, 0xFF]);
    assert_eq!(r.get_value(64), Ok(0x0807060504030201));
    assert_eq!(r.get_value(8), Ok(0xFF));
    let mut r = reader(&[0x01, 0x02, 0x03, 0x04, 0x05, 0x06, 0x07, 0x08, 0x01]);
    assert_eq!(r.get_value(1), Ok(1));
    // The 64 bits behind the first one.
    assert_eq!(r.get_value(64), Ok((0x0807060504030201u64 >> 1) | (1 << 63)));
    let mut r = reader(&[0xAA, 0xAA]);
    for i in 0..16 {
        assert_eq!(r.get_value(1), Ok(i % 2));
    }
}

#[test]
fn aligned_reads_skip_to_the_next_byte() {
    let mut r = reader(&[0xAB, 0x34, 0x12, 0xFF]);
    assert_eq!(r.get_value(3), Ok(3));
    assert_eq!(r.get_aligned(2), Ok(0x1234));
    assert_eq!(r.get_byte_offset(), 3);
    assert_eq!(r.get_aligned(2), Err(ParquetError::NotEnoughBytes));
    assert_eq!(r.get_aligned(0), Ok(0));
    assert_eq!(r.get_aligned(1), Ok(0xFF));
    assert_eq!(r.get_aligned(1), Err(ParquetError::NotEnoughBytes));
    let mut r = reader(&[1, 2, 3, 4, 5, 6, 7, 8]);
    assert_eq!(r.get_aligned(8), Ok(0x0807060504030201));
}

#[test]
fn variable_length_integers() {
    assert_eq!(reader(&[0x00]).get_vlq_int(), Ok(0));
    assert_eq!(reader(&[0x7F]).get_vlq_int(), Ok(127));
    assert_eq!(reader(&[0x80, 0x01]).get_vlq_int(), Ok(128));
    assert_eq!(reader(&[0xE5, 0x8E, 0x26]).get_vlq_int(), Ok(624485));
    let mut r = reader(&[0x96, 0x01, 0x05, 0x80]);
    assert_eq!(r.get_vlq_int(), Ok(150));
    assert_eq!(r.get_byte_offset(), 2);
    assert_eq!(r.get_vlq_int(), Ok(5));
    assert_eq!(r.get_vlq_int(), Err(ParquetError::NotEnoughBytes));
    assert_eq!(r.get_byte_offset(), 3);
    assert_eq!(reader(&[]).get_vlq_int(), Err(ParquetError::NotEnoughBytes));
}

#[test]
fn variable_length_integers_at_the_limit() {
    let mut max = vec![0xFF; 9];
    max.push(0x01);
    assert_eq!(reader(&max).get_vlq_int(), Ok(u64::MAX));
    let mut too_large = vec![0xFF; 9];
    too_large.push(0x02);
    assert_eq!(reader(&too_large).get_vlq_int(), Err(ParquetError::BadHeader));
    let mut too_long = vec![0x80; 10];
    too_long.push(0x00);
    assert_eq!(reader(&too_long).get_vlq_int(), Err(ParquetError::BadHeader));
    assert_eq!(reader(&[0xFF; 9]).get_vlq_int(), Err(ParquetError::NotEnoughBytes));
    // Zero with redundant bytes still is zero.
    assert_eq!(reader(&[0x80, 0x80, 0x00]).get_vlq_int(), Ok(0));
}

#[test]
fn variable_length_integers_follow_bits() {
    let mut r = reader(&[0x01, 0x03, 0x04]);
    assert_eq!(r.get_value(1), Ok(1));
    assert_eq!(r.get_zigzag_vlq_int(), Ok(-2));
    assert_eq!(r.get_zigzag_vlq_int(), Ok(2));
    assert_eq!(r.get_zigzag_vlq_int(), Err(ParquetError::NotEnoughBytes));
}
