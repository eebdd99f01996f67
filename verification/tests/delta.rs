use parquet_decoding::basic::{ByteArray, ByteArrayType, Encoding, Int32Type, Int64Type};
use parquet_decoding::encodings::decoding::{
    Decoder, DeltaBitPackDecoder, DeltaByteArrayDecoder, DeltaLengthByteArrayDecoder,
};
use parquet_decoding::encodings::delta::wrapping_sum;
use parquet_decoding::errors::ParquetError;
use parquet_decoding::util::memory::BytePtr;

fn put_vlq(mut v: u64, out: &mut Vec<u8>) {
    loop {
        let b = (v & 0x7f) as u8;
        v >>= 7;
        if v == 0 {
            out.push(b);
            break;
        }
        out.push(b | 0x80);
    }
}

fn put_zigzag(v: i64, out: &mut Vec<u8>) {
    put_vlq(((v << 1) ^ (v >> 63)) as u64, out);
}

fn put_bits(values: &[u64], width: u32, out: &mut Vec<u8>) {
    let mut acc: u128 = 0;
    let mut filled: u32 = 0;
    for v in values {
        acc |= (*v as u128) << filled;
        filled += width;
        while filled >= 8 {
            out.push((acc & 0xff) as u8);
            acc >>= 8;
            filled -= 8;
        }
    }
    if filled > 0 {
        out.push((acc & 0xff) as u8);
    }
}

// A page of `values` in blocks of `block_size` differences, each of
// `mini_blocks` mini-blocks. The last mini-block is filled up with zeros.
fn delta_page(values: &[i64], block_size: usize, mini_blocks: usize) -> Vec<u8> {
    delta_page_with(values, block_size, mini_blocks, true)
}

// A page that ends with the byte that holds its last difference.
fn delta_page_tight(values: &[i64]) -> Vec<u8> {
    delta_page_with(values, 8, 1, false)
}

fn delta_page_with(values: &[i64], block_size: usize, mini_blocks: usize, fill: bool) -> Vec<u8> {
    let mut out = vec![];
    put_vlq(block_size as u64, &mut out);
    put_vlq(mini_blocks as u64, &mut out);
    put_vlq(values.len() as u64, &mut out);
    put_zigzag(if values.is_empty() { 0 } else { values[0] }, &mut out);
    let per_mini_block = block_size / mini_blocks;
    let deltas: Vec<i64> = values.windows(2).map(|w| w[1].wrapping_sub(w[0])).collect();
    for block in deltas.chunks(block_size) {
        let min_delta = *block.iter().min().unwrap();
        put_zigzag(min_delta, &mut out);
        let packed: Vec<u64> = block.iter().map(|d| d.wrapping_sub(min_delta) as u64).collect();
        let mut widths = vec![0u32; mini_blocks];
        for (i, mini) in packed.chunks(per_mini_block).enumerate() {
            widths[i] = mini.iter().map(|v| 64 - v.leading_zeros()).max().unwrap();
        }
        for w in &widths {
            out.push(*w as u8);
        }
        for (i, mini) in packed.chunks(per_mini_block).enumerate() {
            let mut padded = mini.to_vec();
            if fill {
                padded.resize(per_mini_block, 0);
            }
            put_bits(&padded, widths[i], &mut out);
        }
    }
    out
}

fn decode_all(page: Vec<u8>) -> Result<Vec<i64>, ParquetError> {
    let mut d: DeltaBitPackDecoder<Int64Type> = DeltaBitPackDecoder::new();
    d.set_data(BytePtr::new(page), 0)?;
    let n = d.values_left();
    let mut buffer = vec![0; n];
    let k = d.decode(&mut buffer[..], n)?;
    assert_eq!(k, n);
    assert_eq!(d.values_left(), 0);
    Ok(buffer)
}

fn texts(buffer: &[ByteArray]) -> Vec<String> {
    buffer.iter().map(|b| String::from_utf8(b.as_slice().to_vec()).unwrap()).collect()
}

#[test]
fn wrapping_sum_wraps() {
    assert_eq!(wrapping_sum(7, -2, 0), 5);
    assert_eq!(wrapping_sum(1, -2, 3), 2);
    assert_eq!(wrapping_sum(i64::MAX, 0, 1), i64::MIN);
    assert_eq!(wrapping_sum(i64::MIN, -1, 0), i64::MAX);
    assert_eq!(wrapping_sum(0, 0, u64::MAX), -1);
    assert_eq!(wrapping_sum(i64::MAX, i64::MAX, u64::MAX), -3);
    assert_eq!(wrapping_sum(i64::MIN, i64::MIN, 0), 0);
}

#[test]
fn delta_literal_page() {
    // Blocks of 8 in one mini-block, 5 values, the first is 7; the least
    // difference is -2, the differences take 2 bits.
    let page = vec![0x08, 0x01, 0x05, 0x0E, 0x03, 0x02, 0xC0, 0x00];
    assert_eq!(page, delta_page(&[7, 5, 3, 1, 2], 8, 1));
    assert_eq!(decode_all(page), Ok(vec![7, 5, 3, 1, 2]));
}

#[test]
fn delta_reads_back_what_was_written() {
    let mut cases: Vec<Vec<i64>> = vec![
        vec![],
        vec![5],
        vec![1, 2, 3, 4, 5, 6, 7, 8, 9],
        vec![0; 40],
        vec![i64::MAX, i64::MIN, 0, -1, 1, i64::MAX, i64::MAX, i64::MIN],
        vec![-5, 100, -100000, 7, 7, 7, 1 << 40, -(1 << 50), 3],
    ];
    cases.push((0..300).map(|x: i64| x * x * 3 - 1000 * x).collect());
    cases.push((0..77).map(|x: i64| (x * 7919) % 1013 - 500).collect());
    for values in &cases {
        for (block_size, mini_blocks) in [(8, 1), (16, 2), (128, 4), (64, 1), (32, 4)] {
            let page = delta_page(values, block_size, mini_blocks);
            assert_eq!(decode_all(page).as_ref(), Ok(values));
        }
    }
}

#[test]
fn delta_in_any_chunks() {
    let values: Vec<i64> = (0..37).map(|x: i64| x * x - 20 * x).collect();
    let page = delta_page(&values, 16, 2);
    for split in 0..=37usize {
        let mut d: DeltaBitPackDecoder<Int64Type> = DeltaBitPackDecoder::new();
        d.set_data(BytePtr::new(page.clone()), 37).unwrap();
        let mut first = vec![0; split];
        let mut second = vec![0; 37 - split];
        assert_eq!(d.decode(&mut first[..], split), Ok(split));
        assert_eq!(d.values_left(), 37 - split);
        assert_eq!(d.decode(&mut second[..], 37 - split), Ok(37 - split));
        assert_eq!(d.values_left(), 0);
        first.extend(second);
        assert_eq!(first, values);
    }
}

#[test]
fn delta_count_comes_from_the_page() {
    let page = delta_page(&[7, 5, 3, 1, 2], 8, 1);
    let mut d: DeltaBitPackDecoder<Int64Type> = DeltaBitPackDecoder::new();
    assert_eq!(d.values_left(), 0);
    d.set_data(BytePtr::new(page), 999).unwrap();
    assert_eq!(d.values_left(), 5);
    assert_eq!(d.encoding(), Encoding::DELTA_BINARY_PACKED);
    assert_eq!(d.total_bytes(), Err(ParquetError::Unsupported));
    let mut buffer = vec![9; 7];
    assert_eq!(d.decode(&mut buffer[..], 0), Ok(0));
    assert_eq!(buffer, vec![9; 7]);
    assert_eq!(d.decode(&mut buffer[..], 7), Ok(5));
    assert_eq!(buffer, vec![7, 5, 3, 1, 2, 9, 9]);
    // The first byte behind the last difference that was read.
    assert_eq!(d.get_offset(), 7);
}

#[test]
fn delta_single_value_needs_no_block() {
    for first in [0i64, 7, -7, i64::MIN, i64::MAX] {
        let mut page = vec![0x08, 0x01, 0x01];
        put_zigzag(first, &mut page);
        let header = page.len();
        assert_eq!(decode_all(page.clone()), Ok(vec![first]));
        // Whatever follows the header is not read.
        page.extend_from_slice(&[0xFF, 0xFF, 0xFF, 0xFF]);
        let mut d: DeltaBitPackDecoder<Int64Type> = DeltaBitPackDecoder::new();
        d.set_data(BytePtr::new(page), 1).unwrap();
        let mut buffer = vec![0; 1];
        assert_eq!(d.decode(&mut buffer[..], 1), Ok(1));
        assert_eq!(buffer, vec![first]);
        assert_eq!(d.get_offset(), header);
    }
}

#[test]
fn delta_padding_is_not_read() {
    // Two values; the bits of the six that would fill the mini-block are set.
    let page = vec![0x08, 0x01, 0x02, 0x02, 0x00, 0x02, 0xFD, 0xFF];
    assert_eq!(decode_all(page), Ok(vec![1, 2]));
}

#[test]
fn delta_bad_headers() {
    let bad: Vec<Vec<u8>> = vec![
        vec![0x08, 0x00, 0x01, 0x00],
        vec![0x0C, 0x01, 0x01, 0x00],
        vec![0x08, 0x03, 0x01, 0x00],
        vec![0x00, 0x01, 0x01, 0x00],
        vec![0x04, 0x01, 0x01, 0x00],
        vec![0xFF, 0xFF, 0xFF, 0xFF, 0xFF, 0xFF, 0xFF, 0xFF, 0xFF, 0xFF, 0x01, 0x01, 0x00],
    ];
    for page in bad {
        let mut d: DeltaBitPackDecoder<Int64Type> = DeltaBitPackDecoder::new();
        assert_eq!(d.set_data(BytePtr::new(page), 1), Err(ParquetError::BadHeader));
    }
    // A bit width above 64.
    let mut d: DeltaBitPackDecoder<Int64Type> = DeltaBitPackDecoder::new();
    d.set_data(BytePtr::new(vec![0x08, 0x01, 0x02, 0x00, 0x00, 0x41, 0, 0, 0]), 2).unwrap();
    let mut buffer = vec![0; 2];
    assert_eq!(d.decode(&mut buffer[..], 2), Err(ParquetError::BadHeader));
}

#[test]
fn delta_truncated_pages() {
    let page = delta_page(&[7, 5, 3, 1, 2, 900, 901, 902, 903, 904, 905], 8, 1);
    for keep in 0..4 {
        let mut d: DeltaBitPackDecoder<Int64Type> = DeltaBitPackDecoder::new();
        assert_eq!(
            d.set_data(BytePtr::new(page[..keep].to_vec()), 0),
            Err(ParquetError::NotEnoughBytes)
        );
    }
    for keep in 4..page.len() {
        assert_eq!(decode_all(page[..keep].to_vec()), Err(ParquetError::NotEnoughBytes));
    }
    assert!(decode_all(page).is_ok());
}

#[test]
fn delta_reads_only_int64() {
    let page = delta_page(&[7, 5, 3], 8, 1);
    let mut d: DeltaBitPackDecoder<Int32Type> = DeltaBitPackDecoder::new();
    assert_eq!(d.set_data(BytePtr::new(page), 3), Err(ParquetError::Unsupported));
    let mut buffer = vec![0; 3];
    assert_eq!(d.decode(&mut buffer[..], 3), Err(ParquetError::Unsupported));
    assert_eq!(d.encoding(), Encoding::DELTA_BINARY_PACKED);
}

#[test]
fn delta_length_literal_page() {
    let mut page = vec![0x08, 0x01, 0x02, 0x0A, 0x04, 0x00];
    assert_eq!(page, delta_page_tight(&[5, 7]));
    page.extend_from_slice(b"helloparquet");
    let mut d: DeltaLengthByteArrayDecoder<ByteArrayType> = DeltaLengthByteArrayDecoder::new();
    d.set_data(BytePtr::new(page), 0).unwrap();
    assert_eq!(d.values_left(), 2);
    assert_eq!(d.encoding(), Encoding::DELTA_LENGTH_BYTE_ARRAY);
    assert_eq!(d.total_bytes(), Err(ParquetError::Unsupported));
    let mut buffer = vec![ByteArray::new(); 3];
    assert_eq!(d.decode(&mut buffer[..], 3), Ok(2));
    assert_eq!(buffer[0].get_data(), b"hello");
    assert_eq!(buffer[1].get_data(), b"parquet");
    assert_eq!(buffer[2].len(), 0);
    assert_eq!(d.values_left(), 0);
}

#[test]
fn delta_length_in_any_chunks() {
    let words = ["", "a", "bc", "", "defgh", "ij", "klmnopqrstuvwxyz", "", "0"];
    let lengths: Vec<i64> = words.iter().map(|w| w.len() as i64).collect();
    let mut page = delta_page_tight(&lengths);
    page.extend_from_slice(words.concat().as_bytes());
    for split in 0..=words.len() {
        let mut d: DeltaLengthByteArrayDecoder<ByteArrayType> = DeltaLengthByteArrayDecoder::new();
        d.set_data(BytePtr::new(page.clone()), 0).unwrap();
        let mut first = vec![ByteArray::new(); split];
        let mut second = vec![ByteArray::new(); words.len() - split];
        assert_eq!(d.decode(&mut first[..], split), Ok(split));
        assert_eq!(d.values_left(), words.len() - split);
        assert_eq!(d.decode(&mut second[..], words.len()), Ok(words.len() - split));
        let mut seen = texts(&first);
        seen.extend(texts(&second));
        assert_eq!(seen, words);
    }
}

#[test]
fn delta_length_errors() {
    let mut page = delta_page_tight(&[5, 7]);
    page.extend_from_slice(b"hellopar");
    let mut d: DeltaLengthByteArrayDecoder<ByteArrayType> = DeltaLengthByteArrayDecoder::new();
    d.set_data(BytePtr::new(page), 0).unwrap();
    let mut buffer = vec![ByteArray::new(); 2];
    assert_eq!(d.decode(&mut buffer[..], 2), Err(ParquetError::NotEnoughBytes));

    let mut page = delta_page_tight(&[2, -1]);
    page.extend_from_slice(b"hello");
    d.set_data(BytePtr::new(page), 0).unwrap();
    assert_eq!(d.decode(&mut buffer[..], 1), Ok(1));
    assert_eq!(buffer[0].get_data(), b"he");
    assert_eq!(d.decode(&mut buffer[..], 1), Err(ParquetError::BadHeader));

    assert_eq!(d.set_data(BytePtr::new(vec![0x08, 0x01]), 0), Err(ParquetError::NotEnoughBytes));
    assert_eq!(
        d.set_data(BytePtr::new(vec![0x08, 0x00, 0x01, 0x00]), 0),
        Err(ParquetError::BadHeader)
    );
    // Lengths that are cut short.
    let page = delta_page_tight(&[1, 2, 3, 400]);
    assert_eq!(
        d.set_data(BytePtr::new(page[..page.len() - 1].to_vec()), 0),
        Err(ParquetError::NotEnoughBytes)
    );

    let mut other: DeltaLengthByteArrayDecoder<Int64Type> = DeltaLengthByteArrayDecoder::new();
    assert_eq!(
        other.set_data(BytePtr::new(delta_page(&[0], 8, 1)), 0),
        Err(ParquetError::Unsupported)
    );
    let mut numbers = vec![0i64; 1];
    assert_eq!(other.decode(&mut numbers[..], 1), Err(ParquetError::Unsupported));
}

fn delta_byte_array_page(prefixes: &[i64], suffixes: &[&str]) -> Vec<u8> {
    let mut page = delta_page_tight(prefixes);
    let lengths: Vec<i64> = suffixes.iter().map(|w| w.len() as i64).collect();
    page.extend_from_slice(&delta_page_tight(&lengths));
    page.extend_from_slice(suffixes.concat().as_bytes());
    page
}

#[test]
fn delta_byte_array_literal_page() {
    let mut page = vec![0x08, 0x01, 0x03, 0x00, 0x00, 0x02, 0x03];
    page.extend_from_slice(&[0x08, 0x01, 0x03, 0x0A, 0x07, 0x03, 0x30]);
    page.extend_from_slice(b"hellopium");
    assert_eq!(page, delta_byte_array_page(&[0, 3, 3], &["hello", "p", "ium"]));
    let mut d: DeltaByteArrayDecoder<ByteArrayType> = DeltaByteArrayDecoder::new();
    d.set_data(BytePtr::new(page), 3).unwrap();
    assert_eq!(d.values_left(), 3);
    assert_eq!(d.encoding(), Encoding::DELTA_BYTE_ARRAY);
    assert_eq!(d.total_bytes(), Err(ParquetError::Unsupported));
    let mut buffer = vec![ByteArray::new(); 3];
    assert_eq!(d.decode(&mut buffer[..], 3), Ok(3));
    assert_eq!(texts(&buffer), vec!["hello", "help", "helium"]);
    assert_eq!(d.values_left(), 0);
}

#[test]
fn delta_byte_array_in_any_chunks() {
    let prefixes = [0, 5, 0, 3, 4, 0, 0, 6, 1, 0];
    let suffixes = ["apple", "s", "banana", "dit", "s", "", "cherry", "", "ider", "x"];
    let whole = vec![
        "apple", "apples", "banana", "bandit", "bands", "", "cherry", "cherry", "cider", "x",
    ];
    let page = delta_byte_array_page(&prefixes, &suffixes);
    for split in 0..=whole.len() {
        let mut d: DeltaByteArrayDecoder<ByteArrayType> = DeltaByteArrayDecoder::new();
        d.set_data(BytePtr::new(page.clone()), 0).unwrap();
        let mut first = vec![ByteArray::new(); split];
        let mut second = vec![ByteArray::new(); whole.len() - split];
        assert_eq!(d.decode(&mut first[..], split), Ok(split));
        assert_eq!(d.values_left(), whole.len() - split);
        assert_eq!(d.decode(&mut second[..], whole.len()), Ok(whole.len() - split));
        let mut seen = texts(&first);
        seen.extend(texts(&second));
        assert_eq!(seen, whole);
    }
}

#[test]
fn delta_byte_array_errors() {
    let mut buffer = vec![ByteArray::new(); 3];
    let mut d: DeltaByteArrayDecoder<ByteArrayType> = DeltaByteArrayDecoder::new();
    // A prefix before any value.
    d.set_data(BytePtr::new(delta_byte_array_page(&[1, 0], &["a", "b"])), 0).unwrap();
    assert_eq!(d.decode(&mut buffer[..], 2), Err(ParquetError::BadHeader));
    // A prefix that is longer than the value before.
    d.set_data(BytePtr::new(delta_byte_array_page(&[0, 3], &["ab", "c"])), 0).unwrap();
    assert_eq!(d.decode(&mut buffer[..], 1), Ok(1));
    assert_eq!(d.decode(&mut buffer[..], 1), Err(ParquetError::BadHeader));
    // A negative prefix.
    d.set_data(BytePtr::new(delta_byte_array_page(&[0, -1], &["ab", "c"])), 0).unwrap();
    assert_eq!(d.decode(&mut buffer[..], 2), Err(ParquetError::BadHeader));
    // Fewer suffixes than prefixes.
    d.set_data(BytePtr::new(delta_byte_array_page(&[0, 1, 1], &["ab", "c"])), 0).unwrap();
    assert_eq!(d.values_left(), 3);
    assert_eq!(d.decode(&mut buffer[..], 3), Err(ParquetError::NotEnoughBytes));
    // Suffix bytes that are missing.
    let page = delta_byte_array_page(&[0, 1], &["ab", "cd"]);
    d.set_data(BytePtr::new(page[..page.len() - 1].to_vec()), 0).unwrap();
    assert_eq!(d.decode(&mut buffer[..], 2), Err(ParquetError::NotEnoughBytes));
    // No suffixes at all.
    assert_eq!(
        d.set_data(BytePtr::new(delta_page_tight(&[0, 1])), 0),
        Err(ParquetError::NotEnoughBytes)
    );
    assert_eq!(d.set_data(BytePtr::new(vec![]), 0), Err(ParquetError::NotEnoughBytes));

    let mut other: DeltaByteArrayDecoder<Int64Type> = DeltaByteArrayDecoder::new();
    assert_eq!(
        other.set_data(BytePtr::new(delta_byte_array_page(&[0], &["a"])), 0),
        Err(ParquetError::Unsupported)
    );
    let mut numbers = vec![0i64; 1];
    assert_eq!(other.decode(&mut numbers[..], 1), Err(ParquetError::Unsupported));
}

#[test]
fn delta_length_data_starts_behind_the_last_length() {
    // Lengths 1 and 2: the second takes half a byte. The data starts with
    // the byte behind it.
    let mut page = vec![0x08, 0x01, 0x02, 0x02, 0x00, 0x04, 0x01, 0x41];
    page.extend_from_slice(b"bc");
    let mut d: DeltaLengthByteArrayDecoder<ByteArrayType> = DeltaLengthByteArrayDecoder::new();
    d.set_data(BytePtr::new(page), 0).unwrap();
    let mut buffer = vec![ByteArray::new(); 2];
    assert_eq!(d.decode(&mut buffer[..], 2), Ok(2));
    assert_eq!(texts(&buffer), vec!["A", "bc"]);
}

#[test]
fn delta_byte_array_starts_over_with_a_new_page() {
    let mut d: DeltaByteArrayDecoder<ByteArrayType> = DeltaByteArrayDecoder::new();
    let mut buffer = vec![ByteArray::new(); 2];
    d.set_data(BytePtr::new(delta_byte_array_page(&[0, 2], &["abc", "d"])), 0).unwrap();
    assert_eq!(d.decode(&mut buffer[..], 2), Ok(2));
    assert_eq!(texts(&buffer), vec!["abc", "abd"]);
    // The last value of the page before is not a prefix for the new page.
    d.set_data(BytePtr::new(delta_byte_array_page(&[2], &["x"])), 0).unwrap();
    assert_eq!(d.decode(&mut buffer[..], 1), Err(ParquetError::BadHeader));
}
