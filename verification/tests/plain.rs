use parquet_decoding::basic::{
    BoolType, ByteArray, ByteArrayType, DataType, DoubleType, FixedLenByteArrayType, FloatType,
    Int32Type, Int64Type, Int96, Int96Type,
};
use parquet_decoding::encodings::decoding::{Decoder, PlainDecoder};
use parquet_decoding::basic::Encoding;
use parquet_decoding::errors::ParquetError;
use parquet_decoding::util::memory::BytePtr;
use std::fmt::Debug;

fn test_plain_decode<T: DataType>(
    data: BytePtr,
    num_values: usize,
    type_length: i32,
    buffer: &mut [T::T],
    expected: &[T::T],
) where
    T::T: PartialEq + Debug,
{
    let mut decoder: PlainDecoder<T> = PlainDecoder::new(type_length);
    let result = decoder.set_data(data, num_values);
    assert!(result.is_ok());
    let result = decoder.decode(&mut buffer[..], num_values);
    assert!(result.is_ok());
    assert_eq!(decoder.values_left(), 0);
    assert_eq!(buffer, expected);
}

fn i32_to_byte_array(data: &[i32]) -> Vec<u8> {
    let mut v = vec![];
    for d in data {
        v.extend_from_slice(&d.to_le_bytes());
    }
    v
}

fn i64_to_byte_array(data: &[i64]) -> Vec<u8> {
    let mut v = vec![];
    for d in data {
        v.extend_from_slice(&d.to_le_bytes());
    }
    v
}

fn f32_to_byte_array(data: &[f32]) -> Vec<u8> {
    let mut v = vec![];
    for d in data {
        v.extend_from_slice(&d.to_le_bytes());
    }
    v
}

fn f64_to_byte_array(data: &[f64]) -> Vec<u8> {
    let mut v = vec![];
    for d in data {
        v.extend_from_slice(&d.to_le_bytes());
    }
    v
}

fn bool_to_byte_array(data: &[bool]) -> Vec<u8> {
    let mut v: Vec<u8> = vec![];
    for i in 0..data.len() {
        if i % 8 == 0 {
            v.push(0);
        }
        if data[i] {
            v[i / 8] |= 1 << (i % 8);
        }
    }
    v
}

fn int96_to_byte_array(data: &[Int96]) -> Vec<u8> {
    let mut v = vec![];
    for d in data {
        for w in d.get_data() {
            v.extend_from_slice(&w.to_le_bytes());
        }
    }
    v
}

fn byte_array_to_byte_array(data: &[ByteArray]) -> Vec<u8> {
    let mut v = vec![];
    for d in data {
        let buf = d.get_data();
        v.extend_from_slice(&(buf.len() as u32).to_le_bytes());
        v.extend(buf);
    }
    v
}

fn fixed_len_byte_array_to_byte_array(data: &[ByteArray]) -> Vec<u8> {
    let mut v = vec![];
    for d in data {
        v.extend(d.get_data());
    }
    v
}

fn byte_array_of(s: &str) -> ByteArray {
    let mut b = ByteArray::new();
    b.set_data(BytePtr::new(String::from(s).into_bytes()));
    b
}

#[test]
fn test_plain_decode_int32() {
    let data = vec![42, 18, 52];
    let data_bytes = i32_to_byte_array(&data[..]);
    let mut buffer = vec![0; 3];
    test_plain_decode::<Int32Type>(BytePtr::new(data_bytes), 3, -1, &mut buffer[..], &data[..]);
}

#[test]
fn test_plain_decode_int64() {
    let data = vec![42, 18, 52];
    let data_bytes = i64_to_byte_array(&data[..]);
    let mut buffer = vec![0; 3];
    test_plain_decode::<Int64Type>(BytePtr::new(data_bytes), 3, -1, &mut buffer[..], &data[..]);
}

#[test]
fn test_plain_decode_float() {
    let data: Vec<f32> = vec![3.14, 2.414, 12.51];
    let data_bytes = f32_to_byte_array(&data[..]);
    let expected: Vec<u32> = data.iter().map(|x| x.to_bits()).collect();
    let mut buffer = vec![0u32; 3];
    test_plain_decode::<FloatType>(
        BytePtr::new(data_bytes),
        3,
        -1,
        &mut buffer[..],
        &expected[..],
    );
    let decoded: Vec<f32> = buffer.iter().map(|b| f32::from_bits(*b)).collect();
    assert_eq!(decoded, data);
}

#[test]
fn test_plain_decode_double() {
    let data = vec![3.14f64, 2.414f64, 12.51f64];
    let data_bytes = f64_to_byte_array(&data[..]);
    let expected: Vec<u64> = data.iter().map(|x| x.to_bits()).collect();
    let mut buffer = vec![0u64; 3];
    test_plain_decode::<DoubleType>(
        BytePtr::new(data_bytes),
        3,
        -1,
        &mut buffer[..],
        &expected[..],
    );
    let decoded: Vec<f64> = buffer.iter().map(|b| f64::from_bits(*b)).collect();
    assert_eq!(decoded, data);
}

#[test]
fn test_plain_decode_int96() {
    let v0 = vec![11, 22, 33];
    let v1 = vec![44, 55, 66];
    let v2 = vec![10, 20, 30];
    let v3 = vec![40, 50, 60];
    let mut data = vec![Int96::new(); 4];
    data[0].set_data(v0);
    data[1].set_data(v1);
    data[2].set_data(v2);
    data[3].set_data(v3);
    let data_bytes = int96_to_byte_array(&data[..]);
    let mut buffer = vec![Int96::new(); 4];
    test_plain_decode::<Int96Type>(BytePtr::new(data_bytes), 4, -1, &mut buffer[..], &data[..]);
}

#[test]
fn test_plain_decode_bool() {
    let data = vec![false, true, false, false, true, false, true, true, false, true];
    let data_bytes = bool_to_byte_array(&data[..]);
    let mut buffer = vec![false; 10];
    test_plain_decode::<BoolType>(BytePtr::new(data_bytes), 10, -1, &mut buffer[..], &data[..]);
}

#[test]
fn test_plain_decode_byte_array() {
    let mut data = vec![ByteArray::new(); 2];
    data[0].set_data(BytePtr::new(String::from("hello").into_bytes()));
    data[1].set_data(BytePtr::new(String::from("parquet").into_bytes()));
    let data_bytes = byte_array_to_byte_array(&data[..]);
    let mut buffer = vec![ByteArray::new(); 2];
    test_plain_decode::<ByteArrayType>(BytePtr::new(data_bytes), 2, -1, &mut buffer[..], &data[..]);
}

#[test]
fn test_plain_decode_fixed_len_byte_array() {
    let mut data = vec![ByteArray::default(); 3];
    data[0].set_data(BytePtr::new(String::from("bird").into_bytes()));
    data[1].set_data(BytePtr::new(String::from("come").into_bytes()));
    data[2].set_data(BytePtr::new(String::from("flow").into_bytes()));
    let data_bytes = fixed_len_byte_array_to_byte_array(&data[..]);
    let mut buffer = vec![ByteArray::default(); 3];
    test_plain_decode::<FixedLenByteArrayType>(
        BytePtr::new(data_bytes),
        3,
        4,
        &mut buffer[..],
        &data[..],
    );
}

#[test]
fn plain_int32_literal_page() {
    let page = vec![0x2A, 0, 0, 0, 0x12, 0, 0, 0, 0x34, 0, 0, 0];
    let mut decoder: PlainDecoder<Int32Type> = PlainDecoder::new(-1);
    decoder.set_data(BytePtr::new(page), 3).unwrap();
    let mut buffer = vec![0; 3];
    assert_eq!(decoder.decode(&mut buffer[..], 3), Ok(3));
    assert_eq!(buffer, vec![42, 18, 52]);
}

#[test]
fn plain_boolean_literal_page() {
    let page = vec![0xD2, 0x02];
    let mut decoder: PlainDecoder<BoolType> = PlainDecoder::new(-1);
    decoder.set_data(BytePtr::new(page), 10).unwrap();
    let mut buffer = vec![false; 10];
    assert_eq!(decoder.decode(&mut buffer[..], 10), Ok(10));
    assert_eq!(
        buffer,
        vec![false, true, false, false, true, false, true, true, false, true]
    );
}

#[test]
fn plain_byte_array_literal_page() {
    let mut page = vec![5, 0, 0, 0];
    page.extend_from_slice(b"hello");
    page.extend_from_slice(&[7, 0, 0, 0]);
    page.extend_from_slice(b"parquet");
    let mut decoder: PlainDecoder<ByteArrayType> = PlainDecoder::new(-1);
    decoder.set_data(BytePtr::new(page), 2).unwrap();
    let mut buffer = vec![ByteArray::new(); 2];
    assert_eq!(decoder.decode(&mut buffer[..], 2), Ok(2));
    assert_eq!(buffer[0].get_data(), b"hello");
    assert_eq!(buffer[1].get_data(), b"parquet");
    assert_eq!(buffer, vec![byte_array_of("hello"), byte_array_of("parquet")]);
}

#[test]
fn plain_fixed_len_byte_array_literal_page() {
    let page = b"birdcomeflow".to_vec();
    let mut decoder: PlainDecoder<FixedLenByteArrayType> = PlainDecoder::new(4);
    decoder.set_data(BytePtr::new(page), 3).unwrap();
    let mut buffer = vec![ByteArray::new(); 3];
    assert_eq!(decoder.decode(&mut buffer[..], 3), Ok(3));
    assert_eq!(buffer[0].get_data(), b"bird");
    assert_eq!(buffer[1].get_data(), b"come");
    assert_eq!(buffer[2].get_data(), b"flow");
}

#[test]
fn plain_int96_literal_page() {
    let words: Vec<u32> = vec![11, 22, 33, 44, 55, 66, 10, 20, 30, 40, 50, 60];
    let mut page = vec![];
    for w in &words {
        page.extend_from_slice(&w.to_le_bytes());
    }
    let mut decoder: PlainDecoder<Int96Type> = PlainDecoder::new(-1);
    decoder.set_data(BytePtr::new(page), 4).unwrap();
    let mut buffer = vec![Int96::new(); 4];
    assert_eq!(decoder.decode(&mut buffer[..], 4), Ok(4));
    assert_eq!(buffer[0], Int96 { w0: 11, w1: 22, w2: 33 });
    assert_eq!(buffer[1], Int96 { w0: 44, w1: 55, w2: 66 });
    assert_eq!(buffer[2], Int96 { w0: 10, w1: 20, w2: 30 });
    assert_eq!(buffer[3], Int96 { w0: 40, w1: 50, w2: 60 });
    assert_eq!(buffer[3].get_data(), vec![40, 50, 60]);
}

#[test]
fn plain_negative_numbers() {
    let data: Vec<i32> = vec![-1, i32::MIN, i32::MAX, 0, -123456];
    let mut decoder: PlainDecoder<Int32Type> = PlainDecoder::new(-1);
    decoder.set_data(BytePtr::new(i32_to_byte_array(&data)), 5).unwrap();
    let mut buffer = vec![0; 5];
    assert_eq!(decoder.decode(&mut buffer[..], 5), Ok(5));
    assert_eq!(buffer, data);

    let data: Vec<i64> = vec![-1, i64::MIN, i64::MAX, 0, -1234567890123];
    let mut decoder: PlainDecoder<Int64Type> = PlainDecoder::new(-1);
    decoder.set_data(BytePtr::new(i64_to_byte_array(&data)), 5).unwrap();
    let mut buffer = vec![0; 5];
    assert_eq!(decoder.decode(&mut buffer[..], 5), Ok(5));
    assert_eq!(buffer, data);
}

#[test]
fn plain_chunks_give_the_whole() {
    let data: Vec<i32> = (0..20).map(|x| x * 7 - 30).collect();
    let bytes = i32_to_byte_array(&data);
    for split in 0..=20usize {
        let mut decoder: PlainDecoder<Int32Type> = PlainDecoder::new(-1);
        decoder.set_data(BytePtr::new(bytes.clone()), 20).unwrap();
        let mut first = vec![0; split];
        let mut second = vec![0; 20 - split];
        assert_eq!(decoder.decode(&mut first[..], split), Ok(split));
        assert_eq!(decoder.values_left(), 20 - split);
        assert_eq!(decoder.decode(&mut second[..], 20 - split), Ok(20 - split));
        assert_eq!(decoder.values_left(), 0);
        first.extend(second);
        assert_eq!(first, data);
    }
}

#[test]
fn plain_bool_chunks_give_the_whole() {
    let data: Vec<bool> = (0..19).map(|x| x % 3 == 0 || x % 5 == 1).collect();
    let bytes = bool_to_byte_array(&data);
    for split in 0..=19usize {
        let mut decoder: PlainDecoder<BoolType> = PlainDecoder::new(-1);
        decoder.set_data(BytePtr::new(bytes.clone()), 19).unwrap();
        let mut first = vec![false; split];
        let mut second = vec![false; 19 - split];
        assert_eq!(decoder.decode(&mut first[..], split), Ok(split));
        assert_eq!(decoder.decode(&mut second[..], 19 - split), Ok(19 - split));
        first.extend(second);
        assert_eq!(first, data);
    }
}

#[test]
fn plain_decode_of_nothing_changes_nothing() {
    let mut decoder: PlainDecoder<Int32Type> = PlainDecoder::new(-1);
    decoder.set_data(BytePtr::new(i32_to_byte_array(&[1, 2])), 2).unwrap();
    let mut buffer = vec![9, 9];
    assert_eq!(decoder.decode(&mut buffer[..], 0), Ok(0));
    assert_eq!(buffer, vec![9, 9]);
    assert_eq!(decoder.values_left(), 2);
    assert_eq!(decoder.decode(&mut buffer[..], 2), Ok(2));
    assert_eq!(buffer, vec![1, 2]);
}

#[test]
fn plain_decode_leaves_the_rest_of_the_buffer() {
    let mut decoder: PlainDecoder<Int32Type> = PlainDecoder::new(-1);
    decoder.set_data(BytePtr::new(i32_to_byte_array(&[1, 2, 3])), 3).unwrap();
    let mut buffer = vec![9; 5];
    assert_eq!(decoder.decode(&mut buffer[..], 2), Ok(2));
    assert_eq!(buffer, vec![1, 2, 9, 9, 9]);
    // No more than the values that are left.
    assert_eq!(decoder.decode(&mut buffer[..], 5), Ok(1));
    assert_eq!(buffer, vec![3, 2, 9, 9, 9]);
    assert_eq!(decoder.values_left(), 0);
    assert_eq!(decoder.decode(&mut buffer[..], 5), Ok(0));
}

#[test]
fn plain_truncated_pages_fail() {
    let data: Vec<i32> = vec![42, 18, 52];
    let bytes = i32_to_byte_array(&data);
    for keep in 0..bytes.len() {
        let mut decoder: PlainDecoder<Int32Type> = PlainDecoder::new(-1);
        decoder.set_data(BytePtr::new(bytes[..keep].to_vec()), 3).unwrap();
        let mut buffer = vec![0; 3];
        assert_eq!(decoder.decode(&mut buffer[..], 3), Err(ParquetError::NotEnoughBytes));
    }
    let mut page = vec![5, 0, 0, 0];
    page.extend_from_slice(b"hello");
    page.extend_from_slice(&[7, 0, 0, 0]);
    page.extend_from_slice(b"parquet");
    for keep in 0..page.len() {
        let mut decoder: PlainDecoder<ByteArrayType> = PlainDecoder::new(-1);
        decoder.set_data(BytePtr::new(page[..keep].to_vec()), 2).unwrap();
        let mut buffer = vec![ByteArray::new(); 2];
        assert_eq!(decoder.decode(&mut buffer[..], 2), Err(ParquetError::NotEnoughBytes));
    }
    let bits = vec![0xD2u8, 0x02];
    let mut decoder: PlainDecoder<BoolType> = PlainDecoder::new(-1);
    decoder.set_data(BytePtr::new(bits[..1].to_vec()), 10).unwrap();
    let mut buffer = vec![false; 10];
    assert_eq!(decoder.decode(&mut buffer[..], 10), Err(ParquetError::NotEnoughBytes));
    let fixed = b"birdcomeflow".to_vec();
    for keep in 0..fixed.len() {
        let mut decoder: PlainDecoder<FixedLenByteArrayType> = PlainDecoder::new(4);
        decoder.set_data(BytePtr::new(fixed[..keep].to_vec()), 3).unwrap();
        let mut buffer = vec![ByteArray::new(); 3];
        assert_eq!(decoder.decode(&mut buffer[..], 3), Err(ParquetError::NotEnoughBytes));
    }
}

#[test]
fn plain_fixed_len_without_length_is_a_bad_header() {
    let mut decoder: PlainDecoder<FixedLenByteArrayType> = PlainDecoder::new(0);
    decoder.set_data(BytePtr::new(b"bird".to_vec()), 1).unwrap();
    let mut buffer = vec![ByteArray::new(); 1];
    assert_eq!(decoder.decode(&mut buffer[..], 1), Err(ParquetError::BadHeader));
}

#[test]
fn plain_decoder_identity() {
    let decoder: PlainDecoder<Int32Type> = PlainDecoder::new(-1);
    assert_eq!(decoder.encoding(), Encoding::PLAIN);
    assert_eq!(decoder.total_bytes(), Err(ParquetError::Unsupported));
    assert_eq!(decoder.values_left(), 0);
}

#[test]
fn plain_set_data_starts_over() {
    let mut decoder: PlainDecoder<Int32Type> = PlainDecoder::new(-1);
    decoder.set_data(BytePtr::new(i32_to_byte_array(&[1, 2, 3])), 3).unwrap();
    let mut buffer = vec![0; 2];
    assert_eq!(decoder.decode(&mut buffer[..], 2), Ok(2));
    decoder.set_data(BytePtr::new(i32_to_byte_array(&[7, 8])), 2).unwrap();
    assert_eq!(decoder.values_left(), 2);
    assert_eq!(decoder.decode(&mut buffer[..], 2), Ok(2));
    assert_eq!(buffer, vec![7, 8]);
}

#[test]
fn byte_arrays_share_the_page() {
    let page = BytePtr::new(b"birdcomeflow".to_vec());
    let bird = page.range(0, 4);
    let rest = page.start_from(4);
    assert_eq!(bird.slice_all(), b"bird");
    assert_eq!(rest.slice_all(), b"comeflow");
    assert_eq!(rest.len(), 8);
    assert_eq!(rest.range(4, 4).slice_all(), b"flow");
    assert_eq!(rest.slice_range(1, 2), b"om");
    assert_eq!(rest.slice_start_from(6), b"ow");
    assert_eq!(rest.get(0), b'c');
    assert_eq!(page.all().slice_all(), b"birdcomeflow");
    let a = byte_array_of("same");
    let mut b = ByteArray::new();
    b.set_data(BytePtr::new(b"the same!".to_vec()).range(4, 4));
    assert_eq!(a, b);
    assert_eq!(b.len(), 4);
    assert!(a != byte_array_of("sama"));
    assert!(a != byte_array_of("sam"));
    assert_eq!(ByteArray::new(), ByteArray::default());
    assert_eq!(a.clone(), a);
}

#[test]
fn decoders_tell_when_they_can_decode() {
    let mut decoder: PlainDecoder<Int32Type> = PlainDecoder::new(-1);
    assert!(!decoder.can_decode());
    decoder.set_data(BytePtr::new(vec![]), 0).unwrap();
    assert!(decoder.can_decode());
}

#[test]
fn fresh_buffers_hold_zeros() {
    assert_eq!(BoolType::zero(), false);
    assert_eq!(Int32Type::zero(), 0);
    assert_eq!(Int64Type::zero(), 0);
    assert_eq!(Int96Type::zero(), Int96 { w0: 0, w1: 0, w2: 0 });
    assert_eq!(FloatType::zero(), 0);
    assert_eq!(f32::from_bits(FloatType::zero()), 0.0);
    assert_eq!(DoubleType::zero(), 0);
    assert_eq!(f64::from_bits(DoubleType::zero()), 0.0);
    assert_eq!(ByteArrayType::zero().len(), 0);
    assert_eq!(ByteArrayType::zero(), ByteArray::new());
    assert_eq!(FixedLenByteArrayType::zero().as_slice(), b"");
}
