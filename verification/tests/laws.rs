use parquet_decoding::basic::{
    ByteArray, ByteArrayType, DoubleType, FixedLenByteArrayType, FloatType, Int32Type, Int64Type,
    Int96, Int96Type,
};
use parquet_decoding::encodings::decoding::{
    Decoder, DeltaBitPackDecoder, DeltaByteArrayDecoder, DeltaLengthByteArrayDecoder, DictDecoder,
    PlainDecoder, RleDecoder,
};
use parquet_decoding::util::memory::BytePtr;

fn put_vlq(mut v: u64, out: &mut Vec<u8>) {
    while v >= 128 {
        out.push((v % 128 + 128) as u8);
        v /= 128;
    }
    out.push(v as u8);
}

fn unzigzag(x: i64) -> u64 {
    if x >= 0 {
        2 * (x as u64)
    } else {
        (-2 * (x as i128) - 1) as u64
    }
}

// One run for each value.
fn runs(values: &[u32], bit_width: usize) -> Vec<u8> {
    let mut out = vec![];
    for v in values {
        out.push(2);
        out.extend_from_slice(&v.to_le_bytes()[..(bit_width + 7) / 8]);
    }
    out
}

// Blocks of one mini-block of eight differences of 64 bits each.
fn delta_image(values: &[i64]) -> Vec<u8> {
    let mut out = vec![8, 1];
    put_vlq(values.len() as u64, &mut out);
    put_vlq(unzigzag(if values.is_empty() { 0 } else { values[0] }), &mut out);
    for e in 0..values.len().saturating_sub(1) {
        if e % 8 == 0 {
            out.push(0);
            out.push(64);
        }
        out.extend_from_slice(&(values[e + 1].wrapping_sub(values[e]) as u64).to_le_bytes());
    }
    out
}

fn length_image(values: &[Vec<u8>]) -> Vec<u8> {
    let lengths: Vec<i64> = values.iter().map(|v| v.len() as i64).collect();
    let mut out = delta_image(&lengths);
    for v in values {
        out.extend_from_slice(v);
    }
    out
}

fn words() -> Vec<Vec<u8>> {
    let mut values: Vec<Vec<u8>> = vec![];
    for i in 0..40usize {
        values.push((0..(i * 7) % 11).map(|j| (i * 31 + j) as u8).collect());
    }
    values
}

fn numbers() -> Vec<i64> {
    let mut values = vec![0, -1, 1, i64::MAX, i64::MIN, 0, i64::MIN, i64::MAX, 42];
    values.extend((0..50).map(|x: i64| x.wrapping_mul(0x1234_5678_9abc_def1) ^ (x << 7)));
    values
}

fn bytes_of(buffer: &[ByteArray]) -> Vec<Vec<u8>> {
    buffer.iter().map(|b| b.as_slice().to_vec()).collect()
}

#[test]
fn levels_read_back() {
    for bit_width in [0usize, 1, 2, 7, 8, 9, 16, 17, 24, 31, 32] {
        let limit: u64 = 1 << bit_width;
        let values: Vec<u32> =
            (0..60u64).map(|x| ((x * 0x9E37_79B9 + x * x) % limit) as u32).collect();
        let body = runs(&values, bit_width);
        let mut page = (body.len() as u32).to_le_bytes().to_vec();
        page.extend_from_slice(&body);
        let mut d: RleDecoder<Int32Type> = RleDecoder::new(bit_width);
        d.set_data(BytePtr::new(page), values.len()).unwrap();
        let mut buffer = vec![0; values.len()];
        assert_eq!(d.decode(&mut buffer[..], values.len()), Ok(values.len()));
        let expected: Vec<i32> = values.iter().map(|v| *v as i32).collect();
        assert_eq!(buffer, expected);
    }
}

#[test]
fn dictionary_entries_read_back() {
    let entries: Vec<i64> = numbers();
    let mut dictionary_page = vec![];
    for v in &entries {
        dictionary_page.extend_from_slice(&v.to_le_bytes());
    }
    let mut plain: PlainDecoder<Int64Type> = PlainDecoder::new(-1);
    plain.set_data(BytePtr::new(dictionary_page), entries.len()).unwrap();
    let mut d: DictDecoder<Int64Type> = DictDecoder::new();
    d.set_dict(plain).unwrap();
    for bit_width in [6usize, 8, 13, 32] {
        let indices: Vec<u32> = (0..200u32).map(|x| (x * 37 + 11) % entries.len() as u32).collect();
        let mut page = vec![bit_width as u8];
        page.extend_from_slice(&runs(&indices, bit_width));
        d.set_data(BytePtr::new(page), indices.len()).unwrap();
        let mut buffer = vec![0; indices.len()];
        assert_eq!(d.decode(&mut buffer[..], indices.len()), Ok(indices.len()));
        let expected: Vec<i64> = indices.iter().map(|i| entries[*i as usize]).collect();
        assert_eq!(buffer, expected);
    }
}

#[test]
fn delta_values_read_back() {
    for take in [0usize, 1, 2, 8, 9, 10, 17, 59] {
        let values: Vec<i64> = numbers()[..take].to_vec();
        let page = delta_image(&values);
        let end = page.len();
        let mut d: DeltaBitPackDecoder<Int64Type> = DeltaBitPackDecoder::new();
        d.set_data(BytePtr::new(page), 0).unwrap();
        assert_eq!(d.values_left(), take);
        let mut buffer = vec![0; take];
        assert_eq!(d.decode(&mut buffer[..], take), Ok(take));
        assert_eq!(buffer, values);
        assert_eq!(d.get_offset(), end);
    }
}

#[test]
fn delta_length_byte_arrays_read_back() {
    let values = words();
    let mut d: DeltaLengthByteArrayDecoder<ByteArrayType> = DeltaLengthByteArrayDecoder::new();
    d.set_data(BytePtr::new(length_image(&values)), 0).unwrap();
    assert_eq!(d.values_left(), values.len());
    let mut buffer = vec![ByteArray::new(); values.len()];
    assert_eq!(d.decode(&mut buffer[..], values.len()), Ok(values.len()));
    assert_eq!(bytes_of(&buffer), values);
}

#[test]
fn delta_byte_arrays_read_back() {
    let values = words();
    let mut page = delta_image(&vec![0; values.len()]);
    page.extend_from_slice(&length_image(&values));
    let mut d: DeltaByteArrayDecoder<ByteArrayType> = DeltaByteArrayDecoder::new();
    d.set_data(BytePtr::new(page), 0).unwrap();
    assert_eq!(d.values_left(), values.len());
    let mut buffer = vec![ByteArray::new(); values.len()];
    assert_eq!(d.decode(&mut buffer[..], values.len()), Ok(values.len()));
    assert_eq!(bytes_of(&buffer), values);
}

#[test]
fn plain_values_read_back() {
    let floats: Vec<f32> = vec![0.0, -0.0, 1.5, f32::MAX, f32::MIN_POSITIVE, f32::INFINITY];
    let mut page = vec![];
    for v in &floats {
        page.extend_from_slice(&v.to_bits().to_le_bytes());
    }
    let mut d: PlainDecoder<FloatType> = PlainDecoder::new(-1);
    d.set_data(BytePtr::new(page), floats.len()).unwrap();
    let mut buffer = vec![0u32; floats.len()];
    assert_eq!(d.decode(&mut buffer[..], floats.len()), Ok(floats.len()));
    let expected: Vec<u32> = floats.iter().map(|v| v.to_bits()).collect();
    assert_eq!(buffer, expected);

    let doubles: Vec<f64> = vec![0.0, -2.25, f64::MAX, f64::EPSILON, f64::NEG_INFINITY];
    let mut page = vec![];
    for v in &doubles {
        page.extend_from_slice(&v.to_bits().to_le_bytes());
    }
    let mut d: PlainDecoder<DoubleType> = PlainDecoder::new(-1);
    d.set_data(BytePtr::new(page), doubles.len()).unwrap();
    let mut buffer = vec![0u64; doubles.len()];
    assert_eq!(d.decode(&mut buffer[..], doubles.len()), Ok(doubles.len()));
    let expected: Vec<u64> = doubles.iter().map(|v| v.to_bits()).collect();
    assert_eq!(buffer, expected);

    let triples = vec![
        Int96 { w0: 0, w1: 0, w2: 0 },
        Int96 { w0: u32::MAX, w1: 1, w2: 0x8000_0000 },
        Int96 { w0: 0x0102_0304, w1: 0x0506_0708, w2: 0x090A_0B0C },
    ];
    let mut page = vec![];
    for v in &triples {
        for w in [v.w0, v.w1, v.w2] {
            page.extend_from_slice(&w.to_le_bytes());
        }
    }
    let mut d: PlainDecoder<Int96Type> = PlainDecoder::new(-1);
    d.set_data(BytePtr::new(page), triples.len()).unwrap();
    let mut buffer = vec![Int96::new(); triples.len()];
    assert_eq!(d.decode(&mut buffer[..], triples.len()), Ok(triples.len()));
    assert_eq!(buffer, triples);

    let values = words();
    let mut page = vec![];
    for v in &values {
        page.extend_from_slice(&(v.len() as u32).to_le_bytes());
        page.extend_from_slice(v);
    }
    let mut d: PlainDecoder<ByteArrayType> = PlainDecoder::new(-1);
    d.set_data(BytePtr::new(page), values.len()).unwrap();
    let mut buffer = vec![ByteArray::new(); values.len()];
    assert_eq!(d.decode(&mut buffer[..], values.len()), Ok(values.len()));
    assert_eq!(bytes_of(&buffer), values);

    let fixed: Vec<Vec<u8>> = (0..9u8).map(|i| vec![i, i + 1, i + 2]).collect();
    let mut d: PlainDecoder<FixedLenByteArrayType> = PlainDecoder::new(3);
    d.set_data(BytePtr::new(fixed.concat()), fixed.len()).unwrap();
    let mut buffer = vec![ByteArray::new(); fixed.len()];
    assert_eq!(d.decode(&mut buffer[..], fixed.len()), Ok(fixed.len()));
    assert_eq!(bytes_of(&buffer), fixed);
}

#[test]
fn values_left_goes_down_by_what_was_decoded() {
    let values = numbers();
    let mut d: DeltaBitPackDecoder<Int64Type> = DeltaBitPackDecoder::new();
    d.set_data(BytePtr::new(delta_image(&values)), 0).unwrap();
    let mut left = values.len();
    let mut seen = vec![];
    let mut step = 1;
    while left > 0 {
        let mut buffer = vec![0; step];
        let k = d.decode(&mut buffer[..], step).unwrap();
        assert_eq!(k, step.min(left));
        left -= k;
        assert_eq!(d.values_left(), left);
        seen.extend_from_slice(&buffer[..k]);
        step += 3;
    }
    assert_eq!(seen, values);
    let mut buffer = vec![0; 4];
    assert_eq!(d.decode(&mut buffer[..], 4), Ok(0));
}
